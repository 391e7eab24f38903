use highres::recv_stats::{format_symbol_counts, RecvStats, SymbolCounts};

#[test]
fn counts_text_empty_is_dash() {
    let c = SymbolCounts::new();
    assert!(c.is_empty());
    assert_eq!(format_symbol_counts(&c), "-");
}

#[test]
fn counts_text_sorted_by_symbol() {
    let mut c = SymbolCounts::new();
    c.increment("eth_usdt");
    c.increment("btc_usdt");
    c.increment("eth_usdt");
    c.increment("ada_usdt");
    c.increment("btc_usdt");
    c.increment("btc_usdt");
    assert_eq!(format_symbol_counts(&c), "ada_usdt=1,btc_usdt=3,eth_usdt=2");
    c.clear();
    assert_eq!(format_symbol_counts(&c), "-");
}

#[test]
fn summary_when_due_then_reset() {
    let mut s = RecvStats::new();
    s.on_orders("eth", 100);
    s.on_orders("btc", 105);
    s.on_orders("eth", 110);
    s.on_nps("eth", 90);
    assert!(s.maybe_log(false).is_none());
    assert_eq!(s.orders_total, 3);
    let summary = s.maybe_log(true).expect("a summary when due");
    assert_eq!(summary.orders, 3);
    assert_eq!(summary.nps, 1);
    assert_eq!(summary.orders_last_ts, "110");
    assert_eq!(summary.nps_last_ts, "90");
    assert_eq!(summary.orders_detail, "btc=1,eth=2");
    assert_eq!(summary.nps_detail, "eth=1");
    assert_eq!(s.orders_total, 0);
    assert_eq!(s.nps_total, 0);
    assert!(s.last_orders_ts.is_none());
    let empty = s.maybe_log(true).unwrap();
    assert_eq!(empty.orders, 0);
    assert_eq!(empty.orders_last_ts, "-");
    assert_eq!(empty.orders_detail, "-");
}

#[test]
fn count_per_symbol() {
    let mut c = SymbolCounts::new();
    c.increment("b");
    c.increment("a");
    c.increment("b");
    assert_eq!(c.count("a"), 1);
    assert_eq!(c.count("b"), 2);
    assert_eq!(c.count("zz"), 0);
}
