use highres::factor::{
    check_factor_config, factor_config_fits, order_ts_ms, parse_close_fkey, FactorConfig,
    FactorConfigError, FactorState, RecordTouch,
};

fn conf() -> FactorConfig {
    check_factor_config(5, 3, 1, 2, 4).ok().expect("a valid configuration")
}

#[test]
fn config_checks_in_order() {
    assert!(matches!(check_factor_config(0, 0, 0, 0, 0), Err(FactorConfigError::PeriodNotPositive)));
    assert!(matches!(check_factor_config(-5, 3, 1, 1, 1), Err(FactorConfigError::PeriodNotPositive)));
    assert!(matches!(check_factor_config(5, 0, 1, 1, 0), Err(FactorConfigError::RollingWindowZero)));
    assert!(matches!(check_factor_config(5, 3, 1, 1, 0), Err(FactorConfigError::MaxKeepPeriodsZero)));
    assert_eq!(FactorConfigError::PeriodNotPositive.message(), "period_s must be > 0");
    assert_eq!(FactorConfigError::RollingWindowZero.message(), "rolling_window must be > 0");
    assert_eq!(FactorConfigError::MaxKeepPeriodsZero.message(), "max_keep_periods must be > 0");
}

#[test]
fn min_periods_lowered_to_window() {
    let c = check_factor_config(5, 3, 10, 120, 400).ok().unwrap();
    assert_eq!(c.min_periods, 3);
    assert_eq!(c.rolling_window, 3);
    assert_eq!(c.shift, 120);
    assert_eq!(c.max_keep_periods, 400);
    assert!(factor_config_fits(&c));
    let big = FactorConfig { period_s: i64::MAX, rolling_window: 1, min_periods: 1, shift: 2, max_keep_periods: 1 };
    assert!(!factor_config_fits(&big));
    let negative = FactorConfig { period_s: -5, rolling_window: 1, min_periods: 1, shift: 2, max_keep_periods: 1 };
    assert!(!factor_config_fits(&negative));
}

#[test]
fn close_key_is_third_piece() {
    assert_eq!(parse_close_fkey("a_b_k1_d"), "k1");
    assert_eq!(parse_close_fkey("a_b_k1"), "k1");
    assert_eq!(parse_close_fkey("a_b"), "a_b");
    assert_eq!(parse_close_fkey("plain"), "plain");
    assert_eq!(parse_close_fkey("a__"), "");
}

#[test]
fn order_time_prefers_update() {
    assert_eq!(order_ts_ms(1000, 2000), 2000);
    assert_eq!(order_ts_ms(1000, 0), 1000);
}

#[test]
fn open_then_close_then_settle() {
    let mut st = FactorState::new(&conf());
    assert_eq!(st.period_s(), 5);
    assert_eq!(st.rolling_window(), 3);
    assert_eq!(st.min_periods(), 1);

    // An opening order of the first venue: closes period 0, records key k1.
    assert!(st.can_process(1000));
    let step = st.process_order("o1", 0, 1000, 1000, "k1");
    assert_eq!(step.periods.len(), 1);
    let p = &step.periods[0];
    assert_eq!((p.ts, p.target_ts), (0, -10));
    assert!(p.matched.is_empty() && p.unmatched.is_empty());
    match step.record {
        RecordTouch::Open { fkey, is_new, cts_sec, uts_sec } => {
            assert_eq!(fkey, "k1");
            assert!(is_new);
            assert_eq!((cts_sec, uts_sec), (1, 1));
        }
        _ => panic!("expected an open record"),
    }
    assert_eq!(st.pending_counts(), (1, 0));

    // A closing order referring to k1.
    let step = st.process_order("c1", 1, 6000, 6000, "a_b_k1");
    assert_eq!(step.periods.len(), 1);
    let p = &step.periods[0];
    assert_eq!((p.ts, p.target_ts), (5, -5));
    match step.record {
        RecordTouch::Close { fkey, is_new, uts_sec } => {
            assert_eq!(fkey, "k1");
            assert!(is_new);
            assert_eq!(uts_sec, 6);
        }
        _ => panic!("expected a close record"),
    }
    assert_eq!(st.pending_counts(), (1, 1));

    // Same period: nothing closes; the same key again is not new.
    let step = st.process_order("c2", 0, 7000, 8000, "x_y_k1");
    assert!(step.periods.is_empty());
    assert!(matches!(step.record, RecordTouch::Close { is_new: false, .. }));

    // Period 10 settles bucket 0: k1 had both records.
    let step = st.process_order("o2", 0, 12000, 12000, "k2");
    assert_eq!(step.periods.len(), 1);
    let p = &step.periods[0];
    assert_eq!((p.ts, p.target_ts), (10, 0));
    assert_eq!(p.matched, vec!["k1".to_string()]);
    assert!(p.unmatched.is_empty());
    assert_eq!(st.pending_counts(), (1, 0));

    // A jump ahead: every period from 15 to 30 closes, in order. Period 20
    // settles bucket 10 (k2 has no close); period 30 expires close bucket 5.
    let step = st.process_order("o3", 1, 31000, 31000, "k3");
    let ts: Vec<(i64, i64)> = step.periods.iter().map(|p| (p.ts, p.target_ts)).collect();
    assert_eq!(ts, vec![(15, 5), (20, 10), (25, 15), (30, 20)]);
    assert_eq!(step.periods[1].unmatched, vec!["k2".to_string()]);
    assert!(step.periods.iter().all(|p| p.matched.is_empty()));
    assert!(step.periods[..3].iter().all(|p| p.expired_close.is_empty()));
    assert_eq!(step.periods[3].expired_close, vec!["k1".to_string()]);
    assert!(matches!(step.record, RecordTouch::Ignored));
    assert_eq!(st.pending_counts(), (0, 0));
}

#[test]
fn open_without_close_is_dropped() {
    let mut st = FactorState::new(&conf());
    st.process_order("o1", 0, 1000, 1000, "k1");
    st.process_order("o2", 0, 6000, 6000, "k2");
    let step = st.process_order("o3", 0, 11000, 11000, "k3");
    assert_eq!(step.periods.len(), 1);
    let p = &step.periods[0];
    assert_eq!(p.target_ts, 0);
    assert_eq!(p.unmatched, vec!["k1".to_string()]);
    assert!(p.matched.is_empty());
    assert_eq!(st.pending_counts(), (2, 0));
}

#[test]
fn a_gap_closes_every_period_in_between() {
    let c = check_factor_config(5, 3, 1, 0, 10).ok().unwrap();
    let mut st = FactorState::new(&c);
    let step = st.process_order("x1", 5, 10000, 10000, "z");
    let ts: Vec<(i64, i64)> = step.periods.iter().map(|p| (p.ts, p.target_ts)).collect();
    assert_eq!(ts, vec![(10, 10)]);
    let step = st.process_order("x2", 5, 25000, 25000, "z");
    let ts: Vec<(i64, i64)> = step.periods.iter().map(|p| (p.ts, p.target_ts)).collect();
    assert_eq!(ts, vec![(15, 15), (20, 20), (25, 25)]);
    assert!(step.periods.iter().all(|p| p.matched.is_empty() && p.unmatched.is_empty()));
    // An order of a period already closed closes none.
    let step = st.process_order("x3", 5, 21000, 21000, "z");
    assert!(step.periods.is_empty());
    let step = st.process_order("x4", 5, 26000, 29999, "z");
    assert!(step.periods.is_empty());
    let step = st.process_order("x5", 5, 30000, 30000, "z");
    assert_eq!(step.periods.len(), 1);
    assert_eq!(step.periods[0].ts, 30);
}
