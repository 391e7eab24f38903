use highres::stream::{
    default_max_keep_periods, default_min_periods, default_period_s, default_rolling_window,
    default_shift, FactorStreamConf,
};
use highres::stream::{replay_warmup_ms, warmup_seconds};
use highres::stream::{resolve_stream_targets, StreamTargetsError};
use highres::stream::resolve_replay_targets;
use highres::stream::{
    check_replay_days, csv_row_plan, csv_split_ts, decode_binary_event, event_line,
    origin_to_sid, range_step, replay_range, route_binary_event, saturating_mul_i64,
    saturating_sub_i64, warmup_range, BinaryRoute, CsvMode, RangeStep, ReplayDaysError,
    StreamState, SymbolAdmission,
};

#[test]
fn first_symbol_is_kept() {
    let mut st = StreamState::new();
    assert!(st.symbol.is_none());
    assert!(matches!(st.get_tinfo("DOTUSDT"), SymbolAdmission::Started));
    assert_eq!(st.symbol.as_deref(), Some("DOTUSDT"));
    assert!(matches!(st.get_tinfo("DOTUSDT"), SymbolAdmission::Continued));
    assert!(matches!(st.get_tinfo("ETHUSDT"), SymbolAdmission::Ignored));
    assert_eq!(st.symbol.as_deref(), Some("DOTUSDT"));
}

#[test]
fn blank_and_comment_lines_ignored() {
    assert_eq!(event_line("   "), None);
    assert_eq!(event_line(""), None);
    assert_eq!(event_line("  # a comment"), None);
    assert_eq!(event_line("  {\"event\":\"tick\"} \n"), Some("{\"event\":\"tick\"}".to_string()));
}

#[test]
fn origin_maps_to_active_venues() {
    let vsids = vec![3, 7];
    assert_eq!(origin_to_sid(0, &vsids), Some(3));
    assert_eq!(origin_to_sid(1, &vsids), Some(7));
    assert_eq!(origin_to_sid(2, &vsids), None);
    assert_eq!(origin_to_sid(0, &vec![3]), None);
}

fn frame(event: u8, side: u8, snap: u8, origin: u8, ts: i64, price: f64, amount: f64) -> Vec<u8> {
    let mut v = vec![event, side, snap, origin];
    v.extend_from_slice(&ts.to_le_bytes());
    v.extend_from_slice(&price.to_le_bytes());
    v.extend_from_slice(&amount.to_le_bytes());
    v
}

#[test]
fn binary_frame_decoded() {
    let msg = frame(1, 0, 1, 1, -1_234_567, 101.25, 0.5);
    let e = decode_binary_event(&msg).expect("a 28-byte frame");
    assert_eq!((e.event, e.side_id, e.is_snapshot, e.origin), (1, 0, 1, 1));
    assert_eq!(e.ts_us, -1_234_567);
    assert_eq!(f64::from_bits(e.price_bits), 101.25);
    assert_eq!(f64::from_bits(e.amount_bits), 0.5);
    let msg = frame(2, 1, 0, 0, i64::MAX, -3.0, 7.0);
    let e = decode_binary_event(&msg).unwrap();
    assert_eq!(e.ts_us, i64::MAX);
    assert_eq!(f64::from_bits(e.price_bits), -3.0);
    assert!(decode_binary_event(&msg[..27]).is_none());
    assert!(decode_binary_event(&[]).is_none());
}

#[test]
fn binary_frames_routed() {
    let vsids = vec![0, 1];
    assert!(matches!(route_binary_event(1, 0, &vsids), BinaryRoute::Book { sid: 0 }));
    assert!(matches!(route_binary_event(2, 1, &vsids), BinaryRoute::Trade { sid: 1 }));
    assert!(matches!(route_binary_event(1, 2, &vsids), BinaryRoute::NoVenue));
    assert!(matches!(route_binary_event(3, 9, &vsids), BinaryRoute::Tick));
    assert!(matches!(route_binary_event(3, 0, &vec![0]), BinaryRoute::TooFewVenues));
    assert!(matches!(route_binary_event(1, 0, &vec![0]), BinaryRoute::NoVenue));
    assert!(matches!(route_binary_event(9, 0, &vsids), BinaryRoute::UnknownEvent));
}

#[test]
fn csv_modes_parsed() {
    assert_eq!(CsvMode::parse("all"), Some(CsvMode::All));
    assert_eq!(CsvMode::parse("warmup"), Some(CsvMode::Warmup));
    assert_eq!(CsvMode::parse("live"), Some(CsvMode::Live));
    assert_eq!(CsvMode::parse("Live"), None);
    assert_eq!(CsvMode::parse(""), None);
}

#[test]
fn csv_rows_planned() {
    let p = csv_row_plan(CsvMode::Warmup, Some(100), 100);
    assert!(!p.skip && !p.emit);
    let p = csv_row_plan(CsvMode::Warmup, Some(100), 101);
    assert!(p.skip && !p.emit);
    let p = csv_row_plan(CsvMode::Live, Some(100), 100);
    assert!(!p.skip && !p.emit);
    let p = csv_row_plan(CsvMode::Live, Some(100), 101);
    assert!(!p.skip && p.emit);
    let p = csv_row_plan(CsvMode::Live, None, 5);
    assert!(!p.skip && p.emit);
    let p = csv_row_plan(CsvMode::All, Some(100), 5);
    assert!(!p.skip && p.emit);
}

#[test]
fn csv_split_holds_back_tail() {
    assert_eq!(csv_split_ts(10_000_000, 60), 10_000_000 - 3_600_000);
    assert_eq!(csv_split_ts(i64::MIN, 1), i64::MIN);
    assert_eq!(csv_split_ts(0, i64::MAX), i64::MIN + 1);
}

#[test]
fn saturating_arithmetic() {
    assert_eq!(saturating_sub_i64(5, 7), -2);
    assert_eq!(saturating_sub_i64(i64::MIN, 1), i64::MIN);
    assert_eq!(saturating_sub_i64(i64::MAX, -1), i64::MAX);
    assert_eq!(saturating_mul_i64(i64::MAX, 2), i64::MAX);
    assert_eq!(saturating_mul_i64(i64::MIN, 2), i64::MIN);
    assert_eq!(saturating_mul_i64(-3, 4), -12);
}

#[test]
fn warmup_and_range_steps() {
    let r = warmup_range(1_000_000, 600);
    assert_eq!((r.start_ts_ms, r.end_ts_ms), (400_000, 1_000_000));
    assert!(matches!(range_step(399_999, 400_000, 1_000_000), RangeStep::Before));
    assert!(matches!(range_step(400_000, 400_000, 1_000_000), RangeStep::Within));
    assert!(matches!(range_step(1_000_000, 400_000, 1_000_000), RangeStep::Within));
    assert!(matches!(range_step(1_000_001, 400_000, 1_000_000), RangeStep::After));
}

#[test]
fn replay_days_checked() {
    assert!(matches!(check_replay_days(None), Err(ReplayDaysError::Missing)));
    assert!(matches!(check_replay_days(Some(0)), Err(ReplayDaysError::NotPositive)));
    assert!(matches!(check_replay_days(Some(-3)), Err(ReplayDaysError::NotPositive)));
    assert_eq!(check_replay_days(Some(3)).ok(), Some(3));
    assert_eq!(check_replay_days(Some(30)).ok(), Some(7));
    assert_eq!(ReplayDaysError::Missing.message(), "pnlu_factor_replay.days missing");
    assert_eq!(ReplayDaysError::NotPositive.message(), "pnlu_factor_replay.days must be > 0");
}

#[test]
fn replay_range_clamped_to_first_record() {
    let day = 86_400_000;
    let r = replay_range(10 * day, 0, 2, 3_600_000);
    assert_eq!(r.start_ts_ms, 8 * day);
    assert_eq!(r.warmup_start_ms, 8 * day - 3_600_000);
    let r = replay_range(10 * day, 9 * day, 2, 3_600_000);
    assert_eq!(r.start_ts_ms, 9 * day);
    assert_eq!(r.warmup_start_ms, 9 * day);
}

#[test]
fn stream_settings_defaults() {
    let c = FactorStreamConf::default();
    assert_eq!(
        (c.period_s, c.rolling_window, c.min_periods, c.shift, c.max_keep_periods),
        (5, 360, 300, 120, 360)
    );
    assert_eq!(default_period_s(), 5);
    assert_eq!(default_rolling_window(), 360);
    assert_eq!(default_min_periods(), 300);
    assert_eq!(default_shift(), 120);
    assert_eq!(default_max_keep_periods(), 360);
    assert!(c.ipc_prefix.is_none() && c.output_topic.is_none());
}

#[test]
fn warmup_lengths() {
    assert_eq!(warmup_seconds(720, 120, 5), 4200);
    assert_eq!(replay_warmup_ms(720, 120, 5), 4_200_000);
    assert_eq!(warmup_seconds(0, 0, 5), 0);
}

#[test]
fn stream_targets_resolved() {
    let mut c = FactorStreamConf::default();
    let t = resolve_stream_targets(&c, &None, &None).ok().unwrap();
    assert_eq!(t.output_endpoint, "ipc:///tmp/mth_pubs/pnlu_factor.ipc");
    assert_eq!(t.output_topic, "pnlu_factor");
    assert_eq!(t.ipc_prefix, "ipc:///tmp/mth_pubs/stream_pairmm/okex-futures-binance-futures");
    assert_eq!(t.db_root, "data/record_persist/pairmm/okex-futures-binance-futures");
    c.ipc_prefix = Some("ipc:///file".to_string());
    c.db_root = Some("/file/db".to_string());
    let t = resolve_stream_targets(&c, &Some("ipc:///arg".to_string()), &None).ok().unwrap();
    assert_eq!(t.ipc_prefix, "ipc:///arg");
    assert_eq!(t.db_root, "/file/db");
    c.output_ipc_prefix = Some("  ".to_string());
    match resolve_stream_targets(&c, &None, &None) {
        Err(e) => {
            assert!(matches!(e, StreamTargetsError::MissingOutput));
            assert_eq!(e.message(), "output_ipc_prefix is required");
        }
        Ok(_) => panic!("a blank output endpoint must be refused"),
    }
}

#[test]
fn replay_targets_resolved() {
    let t = resolve_replay_targets(&None, &None, &None, &None);
    assert_eq!(t.db_root, "data/record_persist/pairmm/okex-futures-binance-futures");
    assert_eq!(t.out_dir, ".");
    let t = resolve_replay_targets(&None, &Some("/out//".to_string()), &Some("/db".to_string()), &Some("/conf".to_string()));
    assert_eq!(t.db_root, "/db");
    assert_eq!(t.out_dir, "/out");
}
