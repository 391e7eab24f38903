use highres::rolling::{reload_period, symbols_config_path};
use highres::rolling::{
    build_window_settings, default_partial, missing_symbols, push_value, redis_key_from_profile,
    reload_step, resolve_rolling_settings, sanitize_profile_token, symbol_redis_key, trim_window,
    validate_overrides, ReloadStep, RollingConfigError, RollingProcessConfigFile, SymbolWindow,
    WindowPartial, WindowSettings,
};
use std::collections::VecDeque;

fn cfg(url: Option<&str>) -> RollingProcessConfigFile {
    RollingProcessConfigFile {
        symbols_config: None,
        reload_sec: None,
        log_factor_thresholds: None,
        log_redis_write_success: None,
        redis_url: url.map(|u| u.to_string()),
        redis_key: None,
    }
}

fn strings(v: &[&str]) -> Vec<String> {
    v.iter().map(|s| s.to_string()).collect()
}

#[test]
fn profile_tokens() {
    assert_eq!(sanitize_profile_token("okex-futures-binance-futures"), "okex-futures-binance-futures");
    assert_eq!(sanitize_profile_token("  /prod/a/ "), "prod-a");
    assert_eq!(sanitize_profile_token(" // "), "default");
    assert_eq!(sanitize_profile_token(""), "default");
}

#[test]
fn redis_keys_follow_profile() {
    assert_eq!(
        redis_key_from_profile("okex-futures-binance-futures"),
        "_pnlu_factor_thresholds_okex-futures-binance-futures"
    );
    let suffix = redis_key_from_profile("binance-margin-binance-futures");
    assert_eq!(
        symbol_redis_key("ETHUSDT", &suffix),
        "ETHUSDT_pnlu_factor_thresholds_binance-margin-binance-futures"
    );
    let a = symbol_redis_key("ETHUSDT", &redis_key_from_profile("binance-futures-binance-futures"));
    let b = symbol_redis_key("ETHUSDT", &redis_key_from_profile("okex-futures-binance-futures"));
    assert_ne!(a, b);
}

#[test]
fn settings_defaults() {
    let s = resolve_rolling_settings(&cfg(Some("redis://127.0.0.1/")), None).ok().unwrap();
    assert_eq!(s.symbols_config_path, "pnlu_factor_rolling_symbols.json");
    assert_eq!(s.reload_sec, 5);
    assert!(!s.log_factor_thresholds);
    assert!(!s.log_redis_write_success);
    assert_eq!(s.redis_url, "redis://127.0.0.1/");
    assert_eq!(s.redis_key, "_pnlu_factor_thresholds");
}

#[test]
fn settings_from_file_and_profile() {
    let mut c = cfg(Some("redis://h/"));
    c.symbols_config = Some("syms.json".to_string());
    c.reload_sec = Some(0);
    c.log_factor_thresholds = Some(true);
    c.redis_key = Some("_custom".to_string());
    let s = resolve_rolling_settings(&c, None).ok().unwrap();
    assert_eq!(s.symbols_config_path, "syms.json");
    assert_eq!(s.reload_sec, 1);
    assert!(s.log_factor_thresholds);
    assert_eq!(s.redis_key, "_custom");
    let s = resolve_rolling_settings(&c, Some("prod/x")).ok().unwrap();
    assert_eq!(s.redis_key, "_pnlu_factor_thresholds_prod-x");
}

#[test]
fn settings_need_redis_url() {
    for url in [None, Some(""), Some("  \t ")] {
        match resolve_rolling_settings(&cfg(url), Some("p")) {
            Err(e) => {
                assert!(matches!(e, RollingConfigError::MissingRedisUrl));
                assert_eq!(e.message(), "redis_url is required for rolling runtime");
            }
            Ok(_) => panic!("a blank redis url must be refused"),
        }
    }
}

#[test]
fn windows_from_defaults_and_overrides() {
    let d = default_partial(&None);
    assert_eq!((d.rolling_window, d.min_periods), (Some(100000), Some(10000)));
    let w = build_window_settings(&None, None);
    assert_eq!((w.rolling_window, w.min_periods), (100000, 10000));
    let own = WindowPartial { rolling_window: Some(50), min_periods: Some(80) };
    let w = build_window_settings(&None, Some(&own));
    assert_eq!((w.rolling_window, w.min_periods), (50, 50));
    let empty_default = Some(WindowPartial { rolling_window: None, min_periods: None });
    let w = build_window_settings(&empty_default, None);
    assert_eq!((w.rolling_window, w.min_periods), (720, 1));
    let zeros = WindowPartial { rolling_window: Some(0), min_periods: Some(0) };
    let w = build_window_settings(&empty_default, Some(&zeros));
    assert_eq!((w.rolling_window, w.min_periods), (1, 1));
}

#[test]
fn overrides_must_name_online_symbols() {
    let online = strings(&["ETHUSDT", "BTCUSDT"]);
    assert!(validate_overrides(&strings(&["BTCUSDT"]), &online).is_ok());
    assert!(validate_overrides(&strings(&[]), &online).is_ok());
    match validate_overrides(&strings(&["ETHUSDT", "XRPUSDT", "ADAUSDT"]), &online) {
        Err(e) => {
            assert_eq!(e.symbol, "XRPUSDT");
            assert_eq!(e.message(), "symbol XRPUSDT not in config.toml online_symbols");
        }
        Ok(()) => panic!("XRPUSDT is not online"),
    }
}

#[test]
fn missing_symbols_in_order_once() {
    let online = strings(&["ETHUSDT", "BTCUSDT", "ETHUSDT", "DOTUSDT"]);
    assert_eq!(missing_symbols(&strings(&["BTCUSDT"]), &online), strings(&["ETHUSDT", "DOTUSDT"]));
    assert!(missing_symbols(&online, &online).is_empty());
}

#[test]
fn window_keeps_newest_values() {
    let mut w: VecDeque<i32> = VecDeque::new();
    for v in 1..=5 {
        push_value(&mut w, v, 3);
    }
    assert_eq!(w, VecDeque::from(vec![3, 4, 5]));
    trim_window(&mut w, 1);
    assert_eq!(w, VecDeque::from(vec![5]));
    trim_window(&mut w, 4);
    assert_eq!(w, VecDeque::from(vec![5]));
}

#[test]
fn reload_steps() {
    assert!(matches!(reload_step(4_999_999_999, 5, None, Some(1)), ReloadStep::NotDue));
    assert!(matches!(reload_step(5_000_000_000, 5, None, None), ReloadStep::Unchanged));
    assert!(matches!(reload_step(5_000_000_000, 5, None, Some(1)), ReloadStep::Reload));
    assert!(matches!(reload_step(6_000_000_000, 5, Some(10), Some(10)), ReloadStep::Unchanged));
    assert!(matches!(reload_step(6_000_000_000, 5, Some(10), Some(11)), ReloadStep::Reload));
}

#[test]
fn symbol_window_ready_after_min_periods() {
    let mut w: SymbolWindow<i32> = SymbolWindow::new(WindowSettings { rolling_window: 3, min_periods: 2 });
    assert!(!w.ready);
    w.push(1);
    assert!(!w.ready);
    w.push(2);
    assert!(w.ready);
    w.push(3);
    w.push(4);
    assert_eq!(w.values, VecDeque::from(vec![2, 3, 4]));
    w.reconfigure(WindowSettings { rolling_window: 1, min_periods: 1 });
    assert_eq!(w.values, VecDeque::from(vec![4]));
    assert!(w.ready);
    w.reconfigure(WindowSettings { rolling_window: 5, min_periods: 3 });
    assert!(!w.ready);
}

#[test]
fn symbols_path_and_reload_without_redis() {
    let mut c = cfg(None);
    assert_eq!(symbols_config_path(&c), "pnlu_factor_rolling_symbols.json");
    assert_eq!(reload_period(&c), 5);
    c.symbols_config = Some("own.json".to_string());
    c.reload_sec = Some(0);
    assert_eq!(symbols_config_path(&c), "own.json");
    assert_eq!(reload_period(&c), 1);
    c.reload_sec = Some(30);
    assert_eq!(reload_period(&c), 30);
    assert!(resolve_rolling_settings(&c, None).is_err());
}
