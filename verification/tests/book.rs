use highres::book::{
    correct_depth, warmup_finish_enabled, maker_side, taker_hits, trade_reaches, BookSide, DepthInfo, OrderSide,
    TradeSide, NAN_KEY, ZERO_KEY,
};
use highres::queue::{
    clear_pending, get_pending_num_dup_key_ask, get_pending_num_dup_key_bid, get_pending_num_from_key,
    get_pending_num_from_key_ask, get_pending_num_from_key_bid, get_pending_num_from_sid, PendingEntry,
    PendingOrdersInPos,
};

// The order key of a price, as the engine computes it.
fn key(p: f64) -> u64 {
    if p.is_nan() {
        NAN_KEY
    } else if p == 0.0 {
        ZERO_KEY
    } else if p > 0.0 {
        p.to_bits() | ZERO_KEY
    } else {
        !p.to_bits()
    }
}

fn bits(a: f64) -> u64 {
    a.to_bits()
}

#[test]
fn keys_order_prices() {
    let prices = [-5.0, -1.5, 0.0, 0.25, 1.0, 100.0, 101.0, f64::INFINITY];
    for w in prices.windows(2) {
        assert!(key(w[0]) < key(w[1]));
    }
    assert_eq!(key(-0.0), key(0.0));
    assert!(key(f64::INFINITY) < NAN_KEY);
}

#[test]
fn snapshot_then_first_incremental_finishes_book() {
    let mut d = DepthInfo::new(1);
    assert!(!d.is_snaping && !d.is_finish_snap);
    d.on_snapshot_row(BookSide::Bid, key(100.0), bits(10.0));
    d.on_snapshot_row(BookSide::Ask, key(101.0), bits(12.0));
    assert!(d.is_snaping && !d.is_finish_snap);
    assert_eq!((d.bid1, d.ask1), (ZERO_KEY, ZERO_KEY));
    let prev = d.on_incremental_row(BookSide::Bid, key(100.0), bits(10.0));
    assert_eq!(prev, bits(10.0));
    assert!(d.is_finish_snap && !d.is_snaping);
    assert_eq!(d.bid1, key(100.0));
    assert_eq!(d.ask1, key(101.0));
    assert_eq!(d.level_amount(BookSide::Ask, key(101.0)), bits(12.0));
    assert_eq!(d.level_amount(BookSide::Ask, key(102.0)), 0);
}

#[test]
fn new_snapshot_clears_book() {
    let mut d = DepthInfo::new(1);
    d.apply_row(true, BookSide::Bid, key(100.0), bits(1.0));
    d.apply_row(false, BookSide::Ask, key(101.0), bits(1.0));
    d.apply_row(true, BookSide::Bid, key(99.0), bits(2.0));
    assert_eq!(d.bids.len(), 1);
    assert!(d.asks.is_empty());
    assert!(d.is_snaping && !d.is_finish_snap);
}

#[test]
fn zero_amount_removes_level() {
    let mut d = DepthInfo::new(1);
    d.on_snapshot_row(BookSide::Ask, key(101.0), bits(3.0));
    d.on_snapshot_row(BookSide::Ask, key(102.0), bits(4.0));
    d.on_incremental_row(BookSide::Ask, key(101.0), bits(-0.0));
    assert_eq!(d.asks.len(), 1);
    assert_eq!(d.ask1, key(102.0));
}

#[test]
fn crossing_levels_cleared() {
    let mut d = DepthInfo::new(1);
    d.on_snapshot_row(BookSide::Bid, key(99.0), bits(1.0));
    d.on_snapshot_row(BookSide::Ask, key(101.0), bits(1.0));
    d.on_snapshot_row(BookSide::Ask, key(102.0), bits(1.0));
    d.on_snapshot_row(BookSide::Ask, key(103.0), bits(1.0));
    d.on_incremental_row(BookSide::Bid, key(99.0), bits(1.0));
    let prev = d.on_incremental_row(BookSide::Bid, key(102.0), bits(5.0));
    assert_eq!(prev, 0);
    assert_eq!(d.asks.keys().copied().collect::<Vec<_>>(), vec![key(103.0)]);
    assert_eq!(d.bid1, key(102.0));
    assert_eq!(d.ask1, key(103.0));
    d.on_incremental_row(BookSide::Ask, key(98.0), bits(2.0));
    assert!(d.bids.is_empty());
    assert_eq!(d.ask1, key(98.0));
    assert_eq!(d.bid1, key(102.0));
}

#[test]
fn correct_depth_ignores_nan() {
    let mut d = DepthInfo::new(1);
    d.on_snapshot_row(BookSide::Ask, key(101.0), bits(1.0));
    d.on_snapshot_row(BookSide::Bid, key(f64::NAN), bits(1.0));
    d.on_snapshot_row(BookSide::Bid, key(100.0), bits(1.0));
    correct_depth(&mut d, BookSide::Bid, key(f64::NAN));
    assert_eq!(d.asks.len(), 1);
    correct_depth(&mut d, BookSide::Ask, key(50.0));
    assert_eq!(d.bids.len(), 2);
    correct_depth(&mut d, BookSide::Bid, key(200.0));
    assert!(d.asks.is_empty());
}

#[test]
fn makers_do_not_cross() {
    let mut d = DepthInfo::new(1);
    assert!(d.admits_maker(BookSide::Bid, key(1e9)));
    d.on_snapshot_row(BookSide::Bid, key(100.0), bits(1.0));
    d.on_snapshot_row(BookSide::Ask, key(101.0), bits(1.0));
    d.on_incremental_row(BookSide::Bid, key(100.0), bits(1.0));
    assert!(d.admits_maker(BookSide::Bid, key(100.5)));
    assert!(!d.admits_maker(BookSide::Bid, key(101.0)));
    assert!(d.admits_maker(BookSide::Ask, key(100.5)));
    assert!(!d.admits_maker(BookSide::Ask, key(100.0)));
    assert!(d.admits_maker(BookSide::Ask, key(f64::NAN)));
}

#[test]
fn sides_and_reach() {
    assert_eq!(maker_side(OrderSide::Buy), BookSide::Bid);
    assert_eq!(maker_side(OrderSide::Sell), BookSide::Ask);
    assert_eq!(taker_hits(TradeSide::Buy), BookSide::Ask);
    assert_eq!(taker_hits(TradeSide::Sell), BookSide::Bid);
    assert!(trade_reaches(TradeSide::Buy, key(101.0), key(101.0)));
    assert!(trade_reaches(TradeSide::Buy, key(102.0), key(101.0)));
    assert!(!trade_reaches(TradeSide::Buy, key(100.0), key(101.0)));
    assert!(trade_reaches(TradeSide::Sell, key(99.0), key(100.0)));
    assert!(!trade_reaches(TradeSide::Sell, key(101.0), key(100.0)));
    assert!(!trade_reaches(TradeSide::Sell, key(f64::NAN), key(100.0)));
}

fn entry(id: &str, n: u32) -> PendingEntry<u32> {
    keyed(id, "sig", "dup", n)
}

fn keyed(id: &str, from_key: &str, dup_key: &str, n: u32) -> PendingEntry<u32> {
    PendingEntry {
        client_order_id: id.to_string(),
        from_key: from_key.to_string(),
        dup_key: dup_key.to_string(),
        item: n,
    }
}

#[test]
fn pending_counts_by_key() {
    let mut bids: PendingOrdersInPos<u32> = PendingOrdersInPos::new();
    let mut asks: PendingOrdersInPos<u32> = PendingOrdersInPos::new();
    bids.push(key(100.0), keyed("a", "s1", "d1", 1));
    bids.push(key(100.0), keyed("b", "s2", "d1", 2));
    bids.push(key(99.0), keyed("c", "s1", "d2", 3));
    asks.push(key(101.0), keyed("d", "s1", "d1", 4));
    assert_eq!(get_pending_num_from_key_bid(&bids, "s1"), 2);
    assert_eq!(get_pending_num_from_key_bid(&bids, "s2"), 1);
    assert_eq!(get_pending_num_from_key_bid(&bids, "s3"), 0);
    assert_eq!(get_pending_num_from_key_ask(&asks, "s1"), 1);
    assert_eq!(get_pending_num_dup_key_bid(&bids, "d1"), 2);
    assert_eq!(get_pending_num_dup_key_bid(&bids, "d2"), 1);
    assert_eq!(get_pending_num_dup_key_ask(&asks, "d2"), 0);
    assert_eq!(get_pending_num_from_key(&bids, &asks, "s1"), (2, 1));
    assert_eq!(get_pending_num_from_sid(&bids, &asks), (3, 1));
    assert!(bids.remove_order(key(100.0), "a"));
    assert_eq!(get_pending_num_from_key(&bids, &asks, "s1"), (1, 1));
    assert_eq!(get_pending_num_from_sid(&bids, &asks), (2, 1));
    assert!(bids.remove_order(key(100.0), "zzz"));
    assert_eq!(get_pending_num_from_key(&bids, &asks, "s1"), (1, 1));
    assert_eq!(get_pending_num_dup_key_bid(&bids, "d1"), 1);
    clear_pending(&mut bids, &mut asks);
    assert_eq!(get_pending_num_from_sid(&bids, &asks), (0, 0));
    assert!(bids.by_price.is_empty() && asks.by_price.is_empty());
}

#[test]
fn pending_push_adds_one_to_matching_counts() {
    let mut q: PendingOrdersInPos<u32> = PendingOrdersInPos::new();
    q.push(key(100.0), keyed("a", "s1", "d1", 1));
    let (from_before, dup_before, all_before) = (q.count_from_key("s1"), q.count_dup_key("d9"), q.order_count());
    q.push(key(100.0), keyed("b", "s1", "d2", 2));
    assert_eq!(q.count_from_key("s1"), from_before + 1);
    assert_eq!(q.count_dup_key("d9"), dup_before);
    assert_eq!(q.order_count(), all_before + 1);
}

#[test]
fn queue_push_and_cancel() {
    let mut q: PendingOrdersInPos<u32> = PendingOrdersInPos::new();
    q.push(key(100.0), entry("a", 1));
    q.push(key(100.0), entry("b", 2));
    q.push(key(101.0), entry("c", 3));
    assert_eq!(q.by_price[&key(100.0)].len(), 2);
    assert!(q.remove_order(key(100.0), "a"));
    let level = &q.by_price[&key(100.0)];
    assert_eq!(level.len(), 1);
    assert_eq!(level[0].client_order_id, "b");
    assert!(q.remove_order(key(100.0), "zzz"));
    assert_eq!(q.by_price[&key(100.0)].len(), 1);
    assert!(q.remove_order(key(100.0), "b"));
    assert!(!q.by_price.contains_key(&key(100.0)));
    assert!(!q.remove_order(key(100.0), "b"));
    assert_eq!(q.by_price.len(), 1);
}

#[test]
fn queue_push_then_cancel_restores() {
    let mut q: PendingOrdersInPos<u32> = PendingOrdersInPos::new();
    q.push(key(100.0), entry("a", 1));
    q.push(key(100.0), entry("x", 9));
    q.remove_order(key(100.0), "x");
    assert_eq!(q.by_price.len(), 1);
    let level = &q.by_price[&key(100.0)];
    assert_eq!(level.len(), 1);
    assert_eq!((level[0].client_order_id.as_str(), level[0].item), ("a", 1));
}

#[test]
fn book_finished_after_warmup() {
    let mut d = DepthInfo::new(1);
    d.note_row_time(true, 5);
    assert_eq!(d.first_inc_ts_s, 0);
    d.note_row_time(false, 100);
    d.note_row_time(false, 120);
    assert_eq!(d.first_inc_ts_s, 100);
    d.on_incremental_row(BookSide::Bid, key(99.0), bits(1.0));
    d.on_incremental_row(BookSide::Ask, key(101.0), bits(1.0));
    assert!(!d.is_finish_snap);
    d.finish_after_warmup(1899, 1800, true);
    assert!(!d.is_finish_snap);
    d.finish_after_warmup(1900, 1800, false);
    assert!(!d.is_finish_snap);
    d.finish_after_warmup(1900, 1800, true);
    assert!(d.is_finish_snap);
    assert_eq!((d.bid1, d.ask1), (key(99.0), key(101.0)));
}

#[test]
fn warmup_finish_needs_both_sides() {
    let mut d = DepthInfo::new(1);
    d.note_row_time(false, 10);
    d.on_incremental_row(BookSide::Bid, key(99.0), bits(1.0));
    d.finish_after_warmup(10_000, 60, true);
    assert!(!d.is_finish_snap);
    assert_eq!(d.bid1, ZERO_KEY);
}

#[test]
fn warmup_finish_strategies() {
    assert!(warmup_finish_enabled("pairmm"));
    assert!(warmup_finish_enabled("pairmm_one_exchange_simple"));
    assert!(warmup_finish_enabled("pairmm_two_exchange_simple"));
    assert!(!warmup_finish_enabled("sampling_v6"));
}
