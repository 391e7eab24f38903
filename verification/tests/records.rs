use highres::records::{check_export_args, ExportArgsError};
use highres::records::ExportCursor;
use highres::records::{split_bounds, split_piece_name};
use highres::decimal::{format_padded, format_padded_u64, parse_i64, push_digits};
use highres::records::{
    default_export_path, parse_ts_from_key, record_ts_orders, start_key, RecordKeys,
};

#[test]
fn keys_are_padded_time_and_sequence() {
    let mut keys = RecordKeys::new();
    assert_eq!(keys.next_key(123), "00000000000000000123_00000000000000000000");
    assert_eq!(keys.next_key(123), "00000000000000000123_00000000000000000001");
    assert_eq!(keys.next_key(-5), "00000000000000000000_00000000000000000002");
    assert_eq!(keys.seq, 3);
}

#[test]
fn sequence_saturates() {
    let mut keys = RecordKeys { seq: u64::MAX };
    assert_eq!(keys.next_key(1), "00000000000000000001_18446744073709551615");
    assert_eq!(keys.seq, u64::MAX);
}

#[test]
fn keys_sort_by_time_then_arrival() {
    let mut keys = RecordKeys::new();
    let a = keys.next_key(2000);
    let b = keys.next_key(1000);
    let c = keys.next_key(2000);
    assert!(b < a);
    assert!(a < c);
    assert!(start_key(2000) <= a);
    assert!(start_key(2000) > b);
    assert!(start_key(2001) > c);
}

#[test]
fn start_key_text() {
    assert_eq!(start_key(42), "00000000000000000042_");
    assert_eq!(start_key(-42), "-0000000000000000042_");
}

#[test]
fn timestamp_read_back_from_key() {
    let mut keys = RecordKeys::new();
    let k = keys.next_key(1700000000123);
    assert_eq!(parse_ts_from_key(k.as_bytes()), Some(1700000000123));
    assert_eq!(parse_ts_from_key(b"0000000000000000004"), None);
    assert_eq!(parse_ts_from_key(b"000000000000000000x2_1"), None);
    assert_eq!(parse_ts_from_key(b"-0000000000000000042_"), Some(-42));
}

#[test]
fn export_path_by_kind() {
    assert_eq!(default_export_path("ETHUSDT", "nps"), "ETHUSDT_nps.csv");
    assert_eq!(default_export_path("ETHUSDT", "orders"), "ETHUSDT_orders.csv");
    assert_eq!(default_export_path("ETHUSDT", "other"), "ETHUSDT_orders.csv");
}

#[test]
fn order_record_time() {
    assert_eq!(record_ts_orders(10, 20), 20);
    assert_eq!(record_ts_orders(10, 0), 10);
    assert_eq!(record_ts_orders(10, -1), 10);
}

#[test]
fn padded_numbers() {
    assert_eq!(format_padded(7, 3), "007");
    assert_eq!(format_padded(-7, 3), "-07");
    assert_eq!(format_padded(12345, 3), "12345");
    assert_eq!(format_padded(i64::MIN, 1), "-9223372036854775808");
    assert_eq!(format_padded_u64(0, 2), "00");
    let mut s = String::from("n=");
    push_digits(&mut s, 905);
    assert_eq!(s, "n=905");
}

#[test]
fn parse_numbers_like_std() {
    for text in ["0", "42", "-42", "+7", "007", "9223372036854775807", "-9223372036854775808"] {
        assert_eq!(parse_i64(text.as_bytes()), text.parse::<i64>().ok(), "{}", text);
    }
    for text in ["", "-", "+", "4 2", "9223372036854775808", "x", "--1"] {
        assert_eq!(parse_i64(text.as_bytes()), None, "{}", text);
        assert!(text.parse::<i64>().is_err());
    }
}

#[test]
fn export_requests_checked() {
    assert!(check_export_args("ETHUSDT", "orders").is_ok());
    assert!(check_export_args("ETHUSDT", "nps").is_ok());
    assert!(matches!(check_export_args("", "orders"), Err(ExportArgsError::MissingSymbol)));
    assert!(matches!(check_export_args("ETHUSDT", "trades"), Err(ExportArgsError::BadKind)));
    assert_eq!(ExportArgsError::MissingSymbol.message(), "export requires --symbol");
    assert_eq!(ExportArgsError::BadKind.message(), "export --kind must be orders or nps");
}

#[test]
fn export_cursor_stops_at_end_and_limit() {
    let mut keys = RecordKeys::new();
    let k1 = keys.next_key(100);
    let k2 = keys.next_key(200);
    let c = ExportCursor::new(Some(150), None);
    assert!(c.admits(k1.as_bytes()));
    assert!(!c.admits(k2.as_bytes()));
    assert!(c.admits(b"not-a-key"));
    let mut c = ExportCursor::new(None, Some(2));
    assert!(c.wrote());
    assert!(!c.wrote());
    assert_eq!(c.written, 2);
    let mut c = ExportCursor::new(None, Some(0));
    assert!(!c.wrote());
    assert_eq!(c.written, 1);
}

#[test]
fn split_gives_exactly_the_pieces_asked() {
    let b = split_bounds(11, 10);
    assert_eq!(b.len(), 10);
    assert_eq!(b[0], (0, 2));
    assert_eq!(b[1], (2, 3));
    assert_eq!(b[9], (10, 11));
    assert_eq!(split_bounds(100, 10), (0..10).map(|i| (i * 10, i * 10 + 10)).collect::<Vec<_>>());
    let b = split_bounds(3, 5);
    assert_eq!(b, vec![(0, 1), (1, 2), (2, 3), (3, 3), (3, 3)]);
    assert_eq!(split_bounds(0, 2), vec![(0, 0), (0, 0)]);
    assert_eq!(split_piece_name("ETHUSDT_orders_", 0), "ETHUSDT_orders_01.csv");
    assert_eq!(split_piece_name("p_", 9), "p_10.csv");
    assert_eq!(split_piece_name("p_", 99), "p_100.csv");
}
