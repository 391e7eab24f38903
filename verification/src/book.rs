//! The order book of one venue as the matching engine replays it: snapshot
//! rows rebuild it, the first incremental row after a snapshot finishes it,
//! and later rows update price levels, clearing crossed levels on the other
//! side. Prices are held by their order keys (see [`NAN_KEY`]) and amounts by
//! their IEEE-754 bits; the arithmetic on them lives with the caller.
use std::collections::BTreeMap;
use vstd::prelude::*;
use crate::text::str_eq;

verus! {

/// A side of the order book.
#[derive(Debug, Clone, Copy, PartialEq, Eq, Structural)]
pub enum BookSide {
    Bid,
    Ask,
}

/// The aggressor side of a trade: a buy takes asks, a sell takes bids.
#[derive(Debug, Clone, Copy, PartialEq, Eq, Structural)]
pub enum TradeSide {
    Buy,
    Sell,
}

/// The side of an own order.
#[derive(Debug, Clone, Copy, PartialEq, Eq, Structural)]
pub enum OrderSide {
    Buy,
    Sell,
}

/// The order key of a price that is not a number. Every price has an order
/// key: keys order prices as numbers do, both zeros share one key, and the
/// key of any price that is not a number is this one, above all others.
pub const NAN_KEY: u64 = 0xFFFF_FFFF_FFFF_FFFF;

/// The order key of the price zero.
pub const ZERO_KEY: u64 = 0x8000_0000_0000_0000;

/// Whether the price with key `a` is at least the price with key `b`, as
/// numbers compare: never when either is not a number.
pub open spec fn price_ge(a: u64, b: u64) -> bool {
    a != NAN_KEY && b != NAN_KEY && a >= b
}

/// Whether the price with key `a` is above zero.
pub open spec fn price_positive(a: u64) -> bool {
    a != NAN_KEY && a > ZERO_KEY
}

/// Whether IEEE-754 bits encode zero (of either sign).
pub open spec fn is_zero_bits(b: u64) -> bool {
    b == 0 || b == 0x8000_0000_0000_0000
}

/// The book side an own order rests on: a buy is a bid, a sell an ask.
pub open spec fn maker_side_of(side: OrderSide) -> BookSide {
    match side {
        OrderSide::Buy => BookSide::Bid,
        OrderSide::Sell => BookSide::Ask,
    }
}

/// The book side an own order rests on.
pub fn maker_side(side: OrderSide) -> (r: BookSide)
    ensures
        r == maker_side_of(side),
{
    match side {
        OrderSide::Buy => BookSide::Bid,
        OrderSide::Sell => BookSide::Ask,
    }
}

/// The side of resting orders a trade takes: a buy takes asks, a sell bids.
pub fn taker_hits(side: TradeSide) -> (r: BookSide)
    ensures
        side is Buy ==> (r is Ask),
        side is Sell ==> (r is Bid),
{
    match side {
        TradeSide::Buy => BookSide::Ask,
        TradeSide::Sell => BookSide::Bid,
    }
}

/// Whether a trade at `trade_key` reaches a resting order at `order_key`:
/// a buy reaches asks at or below its price, a sell bids at or above it.
pub fn trade_reaches(side: TradeSide, trade_key: u64, order_key: u64) -> (r: bool)
    ensures
        side is Buy ==> r == price_ge(trade_key, order_key),
        side is Sell ==> r == price_ge(order_key, trade_key),
{
    if trade_key == NAN_KEY || order_key == NAN_KEY {
        return false;
    }
    match side {
        TradeSide::Buy => trade_key >= order_key,
        TradeSide::Sell => order_key >= trade_key,
    }
}

/// Calls `BTreeMap::first_key_value` and keeps the key. Its contract claims
/// what std documents: the key is the least in the map, and there is none
/// only for an empty map.
#[verifier::external_body]
fn first_key(m: &BTreeMap<u64, u64>) -> (r: Option<u64>)
    ensures
        r is None ==> m@.dom().is_empty(),
        r matches Some(k) ==> m@.contains_key(k) && forall|j: u64| #[trigger]
            m@.contains_key(j) ==> k <= j,
{
    match m.first_key_value() {
        Some((k, _)) => Some(*k),
        None => None,
    }
}

/// Calls `BTreeMap::last_key_value` and keeps the key. Its contract claims
/// what std documents: the key is the greatest in the map, and there is
/// none only for an empty map.
#[verifier::external_body]
fn last_key(m: &BTreeMap<u64, u64>) -> (r: Option<u64>)
    ensures
        r is None ==> m@.dom().is_empty(),
        r matches Some(k) ==> m@.contains_key(k) && forall|j: u64| #[trigger]
            m@.contains_key(j) ==> j <= k,
{
    match m.last_key_value() {
        Some((k, _)) => Some(*k),
        None => None,
    }
}

/// The asks left when a bid arrives at `p`: those above it. A price that is
/// not a number clears nothing.
pub open spec fn asks_above(asks: Map<u64, u64>, p: u64) -> Map<u64, u64> {
    if p == NAN_KEY {
        asks
    } else {
        asks.restrict(asks.dom().filter(|a: u64| a > p))
    }
}

/// The bids left when an ask arrives at `p`: those below it. Nothing is
/// cleared when `p` or the best bid is not a number.
pub open spec fn bids_below(bids: Map<u64, u64>, p: u64) -> Map<u64, u64> {
    if p == NAN_KEY || bids.contains_key(NAN_KEY) {
        bids
    } else {
        bids.restrict(bids.dom().filter(|b: u64| b < p))
    }
}

/// The book of one venue.
pub struct DepthInfo {
    pub sid: i32,
    /// Snapshot rows are arriving.
    pub is_snaping: bool,
    /// A snapshot has been completed by an incremental row.
    pub is_finish_snap: bool,
    /// Bid levels: price key to amount bits.
    pub bids: BTreeMap<u64, u64>,
    /// Ask levels: price key to amount bits.
    pub asks: BTreeMap<u64, u64>,
    /// The key of the best bid seen on a finished book (zero at first).
    pub bid1: u64,
    /// The key of the best ask seen on a finished book (zero at first).
    pub ask1: u64,
    /// The time (s) of the first incremental row, zero before one.
    pub first_inc_ts_s: i64,
}

/// Removes from a map of asks every level at or below `p`.
fn clear_asks_upto(asks: &mut BTreeMap<u64, u64>, p: u64)
    requires
        p != NAN_KEY,
    ensures
        final(asks)@ == asks_above(old(asks)@, p),
{
    let ghost start = asks@;
    loop
        invariant
            p != NAN_KEY,
            asks@.dom().finite(),
            forall|k: u64| #[trigger] asks@.contains_key(k) ==> start.contains_key(k) && asks@[k] == start[k],
            forall|k: u64| #[trigger] start.contains_key(k) && k > p ==> asks@.contains_key(k),
        ensures
            asks@ == asks_above(start, p),
        decreases asks@.dom().len(),
    {
        match first_key(asks) {
            None => {
                assert(asks@ =~= asks_above(start, p));
                break;
            },
            Some(k) => {
                if k > p {
                    assert(asks@ =~= asks_above(start, p));
                    break;
                }
                let ghost before = asks@;
                asks.remove(&k);
                proof {
                    assert(asks@ =~= before.remove(k));
                    assert(asks@.dom().len() < before.dom().len());
                }
            },
        }
    }
}

/// Removes from a map of bids every level at or above `p`.
fn clear_bids_from(bids: &mut BTreeMap<u64, u64>, p: u64)
    requires
        p != NAN_KEY,
        !old(bids)@.contains_key(NAN_KEY),
    ensures
        final(bids)@ == bids_below(old(bids)@, p),
{
    let ghost start = bids@;
    loop
        invariant
            p != NAN_KEY,
            !start.contains_key(NAN_KEY),
            bids@.dom().finite(),
            forall|k: u64| #[trigger] bids@.contains_key(k) ==> start.contains_key(k) && bids@[k] == start[k],
            forall|k: u64| #[trigger] start.contains_key(k) && k < p ==> bids@.contains_key(k),
        ensures
            bids@ == bids_below(start, p),
        decreases bids@.dom().len(),
    {
        match last_key(bids) {
            None => {
                assert(bids@ =~= bids_below(start, p));
                break;
            },
            Some(k) => {
                if k < p {
                    assert(bids@ =~= bids_below(start, p));
                    break;
                }
                let ghost before = bids@;
                bids.remove(&k);
                proof {
                    assert(bids@ =~= before.remove(k));
                    assert(bids@.dom().len() < before.dom().len());
                }
            },
        }
    }
}

/// Clears the levels a new level at `price_key` on `side` crosses: a bid
/// clears the asks at or below it, an ask the bids at or above it (see
/// [`asks_above`], [`bids_below`]).
pub fn correct_depth(dinfo: &mut DepthInfo, side: BookSide, price_key: u64)
    ensures
        final(dinfo).sid == old(dinfo).sid,
        final(dinfo).is_snaping == old(dinfo).is_snaping,
        final(dinfo).is_finish_snap == old(dinfo).is_finish_snap,
        final(dinfo).bid1 == old(dinfo).bid1,
        final(dinfo).ask1 == old(dinfo).ask1,
        final(dinfo).first_inc_ts_s == old(dinfo).first_inc_ts_s,
        side is Bid ==> final(dinfo).bids@ == old(dinfo).bids@ && final(dinfo).asks@ == asks_above(
            old(dinfo).asks@,
            price_key,
        ),
        side is Ask ==> final(dinfo).asks@ == old(dinfo).asks@ && final(dinfo).bids@ == bids_below(
            old(dinfo).bids@,
            price_key,
        ),
{
    match side {
        BookSide::Bid => {
            if price_key != NAN_KEY {
                clear_asks_upto(&mut dinfo.asks, price_key);
            }
        },
        BookSide::Ask => {
            if price_key != NAN_KEY && !dinfo.bids.contains_key(&NAN_KEY) {
                clear_bids_from(&mut dinfo.bids, price_key);
            }
        },
    }
}

/// The book after a snapshot row: a snapshot that begins (the book was not
/// receiving one) first empties both sides; the row's level is then set,
/// and the book is receiving an unfinished snapshot.
pub open spec fn snapshot_side(levels: Map<u64, u64>, was_snaping: bool, on_side: bool, key: u64, amount: u64) -> Map<u64, u64> {
    let base = if was_snaping {
        levels
    } else {
        Map::empty()
    };
    if on_side {
        base.insert(key, amount)
    } else {
        base
    }
}

/// A side after an incremental row on it: a zero amount removes the level;
/// another sets it, after the crossed levels were cleared.
pub open spec fn incremental_side(levels: Map<u64, u64>, key: u64, amount: u64) -> Map<u64, u64> {
    if is_zero_bits(amount) {
        levels.remove(key)
    } else {
        levels.insert(key, amount)
    }
}

/// What a snapshot row does to a book (see [`snapshot_side`]): it is then
/// receiving an unfinished snapshot; best prices stay.
pub open spec fn snapshot_step(o: DepthInfo, n: DepthInfo, side: BookSide, price_key: u64, amount_bits: u64) -> bool {
    &&& n.sid == o.sid
    &&& n.is_snaping
    &&& !n.is_finish_snap
    &&& n.bids@ == snapshot_side(o.bids@, o.is_snaping, side is Bid, price_key, amount_bits)
    &&& n.asks@ == snapshot_side(o.asks@, o.is_snaping, side is Ask, price_key, amount_bits)
    &&& n.bid1 == o.bid1
    &&& n.ask1 == o.ask1
    &&& n.first_inc_ts_s == o.first_inc_ts_s
}

/// What an incremental row does to a book, `prev` being the amount bits
/// its level had: it finishes a snapshot that was arriving; a zero amount
/// removes the level, another sets it after clearing the levels it crosses
/// on a finished book; a finished book then takes its best prices from its
/// levels.
pub open spec fn incremental_step(o: DepthInfo, n: DepthInfo, side: BookSide, price_key: u64, amount_bits: u64, prev: u64) -> bool {
    let (own_old, other_old, own_new, other_new) = match side {
        BookSide::Bid => (o.bids@, o.asks@, n.bids@, n.asks@),
        BookSide::Ask => (o.asks@, o.bids@, n.asks@, n.bids@),
    };
    let clear = n.is_finish_snap && !is_zero_bits(amount_bits);
    &&& n.sid == o.sid
    &&& n.first_inc_ts_s == o.first_inc_ts_s
    &&& !n.is_snaping
    &&& n.is_finish_snap == (o.is_finish_snap || o.is_snaping)
    &&& prev == (if own_old.contains_key(price_key) {
        own_old[price_key]
    } else {
        0
    })
    &&& own_new == incremental_side(own_old, price_key, amount_bits)
    &&& other_new == (if !clear {
        other_old
    } else if side is Bid {
        asks_above(other_old, price_key)
    } else {
        bids_below(other_old, price_key)
    })
    &&& (n.is_finish_snap && !n.asks@.dom().is_empty() ==> n.asks@.contains_key(n.ask1) && forall|k: u64|
        #[trigger] n.asks@.contains_key(k) ==> n.ask1 <= k)
    &&& (n.is_finish_snap && !n.bids@.dom().is_empty() ==> n.bids@.contains_key(n.bid1) && forall|k: u64|
        #[trigger] n.bids@.contains_key(k) ==> k <= n.bid1)
    &&& (!(n.is_finish_snap && !n.asks@.dom().is_empty()) ==> n.ask1 == o.ask1)
    &&& (!(n.is_finish_snap && !n.bids@.dom().is_empty()) ==> n.bid1 == o.bid1)
}

impl DepthInfo {
    /// An empty book of venue `sid` that has seen no snapshot.
    pub fn new(sid: i32) -> (r: Self)
        ensures
            r.sid == sid,
            !r.is_snaping,
            !r.is_finish_snap,
            r.bids@ == Map::<u64, u64>::empty(),
            r.asks@ == Map::<u64, u64>::empty(),
            r.bid1 == ZERO_KEY,
            r.ask1 == ZERO_KEY,
            r.first_inc_ts_s == 0,
    {
        DepthInfo {
            sid,
            is_snaping: false,
            is_finish_snap: false,
            bids: BTreeMap::new(),
            asks: BTreeMap::new(),
            bid1: ZERO_KEY,
            ask1: ZERO_KEY,
            first_inc_ts_s: 0,
        }
    }

    /// The amount bits at a level, the bits of zero when there is none.
    pub fn level_amount(&self, side: BookSide, price_key: u64) -> (r: u64)
        ensures
            side is Bid ==> r == (if self.bids@.contains_key(price_key) {
                self.bids@[price_key]
            } else {
                0
            }),
            side is Ask ==> r == (if self.asks@.contains_key(price_key) {
                self.asks@[price_key]
            } else {
                0
            }),
    {
        let found = match side {
            BookSide::Bid => self.bids.get(&price_key),
            BookSide::Ask => self.asks.get(&price_key),
        };
        match found {
            Some(a) => *a,
            None => 0,
        }
    }

    /// Applies a snapshot row (see [`snapshot_side`]).
    pub fn on_snapshot_row(&mut self, side: BookSide, price_key: u64, amount_bits: u64)
        ensures
            snapshot_step(*old(self), *final(self), side, price_key, amount_bits),
    {
        if !self.is_snaping {
            self.bids.clear();
            self.asks.clear();
        }
        self.is_snaping = true;
        self.is_finish_snap = false;
        match side {
            BookSide::Bid => {
                self.bids.insert(price_key, amount_bits);
            },
            BookSide::Ask => {
                self.asks.insert(price_key, amount_bits);
            },
        }
    }

    /// Applies an incremental row and returns the amount bits the level had
    /// before (zero when it had none). The row finishes a snapshot that was
    /// arriving. On a finished book a non-zero amount first clears the
    /// levels it crosses ([`correct_depth`]); afterwards the best bid and
    /// ask are taken from the book when their side has a level.
    pub fn on_incremental_row(&mut self, side: BookSide, price_key: u64, amount_bits: u64) -> (prev: u64)
        ensures
            incremental_step(*old(self), *final(self), side, price_key, amount_bits, prev),
    {
        if self.is_snaping {
            self.is_finish_snap = true;
            self.is_snaping = false;
        }
        let prev = self.level_amount(side, price_key);
        let zero = amount_bits == 0 || amount_bits == 0x8000_0000_0000_0000;
        if zero {
            match side {
                BookSide::Bid => {
                    self.bids.remove(&price_key);
                },
                BookSide::Ask => {
                    self.asks.remove(&price_key);
                },
            }
        } else {
            if self.is_finish_snap {
                correct_depth(self, side, price_key);
            }
            match side {
                BookSide::Bid => {
                    self.bids.insert(price_key, amount_bits);
                },
                BookSide::Ask => {
                    self.asks.insert(price_key, amount_bits);
                },
            }
        }
        if self.is_finish_snap {
            if let Some(k) = first_key(&self.asks) {
                self.ask1 = k;
            }
            if let Some(k) = last_key(&self.bids) {
                self.bid1 = k;
            }
        }
        prev
    }

    /// Applies an order-book row; for an incremental row, returns the amount
    /// bits its level had before.
    pub fn apply_row(&mut self, is_snapshot: bool, side: BookSide, price_key: u64, amount_bits: u64) -> (r: Option<u64>)
        ensures
            is_snapshot ==> r is None && snapshot_step(*old(self), *final(self), side, price_key, amount_bits),
            !is_snapshot ==> (r matches Some(prev) && incremental_step(
                *old(self),
                *final(self),
                side,
                price_key,
                amount_bits,
                prev,
            )),
    {
        if is_snapshot {
            self.on_snapshot_row(side, price_key, amount_bits);
            None
        } else {
            Some(self.on_incremental_row(side, price_key, amount_bits))
        }
    }

    /// Notes the time (s) of an order-book row: the first incremental row's
    /// time is kept.
    pub fn note_row_time(&mut self, is_snapshot: bool, ts_s: i64)
        ensures
            final(self).first_inc_ts_s == (if !is_snapshot && old(self).first_inc_ts_s == 0 {
                ts_s
            } else {
                old(self).first_inc_ts_s
            }),
            final(self).sid == old(self).sid,
            final(self).is_snaping == old(self).is_snaping,
            final(self).is_finish_snap == old(self).is_finish_snap,
            final(self).bids@ == old(self).bids@,
            final(self).asks@ == old(self).asks@,
            final(self).bid1 == old(self).bid1,
            final(self).ask1 == old(self).ask1,
    {
        if !is_snapshot && self.first_inc_ts_s == 0 {
            self.first_inc_ts_s = ts_s;
        }
    }

    /// A book that has not finished a snapshot counts as finished once
    /// `warmup_s` (positive) seconds have passed, at `ts_s`, since its first
    /// incremental row, provided both sides have levels and the rule is
    /// `enabled`; the best bid and ask are then taken from the book.
    pub fn finish_after_warmup(&mut self, ts_s: i64, warmup_s: i64, enabled: bool)
        ensures
            ({
                let finishes = !old(self).is_finish_snap && enabled && warmup_s > 0
                    && old(self).first_inc_ts_s > 0 && ts_s - old(self).first_inc_ts_s >= warmup_s
                    && !old(self).bids@.dom().is_empty() && !old(self).asks@.dom().is_empty();
                &&& final(self).is_finish_snap == (old(self).is_finish_snap || finishes)
                &&& final(self).is_snaping == (old(self).is_snaping && !finishes)
                &&& (finishes ==> final(self).asks@.contains_key(final(self).ask1) && forall|k: u64|
                    #[trigger] final(self).asks@.contains_key(k) ==> final(self).ask1 <= k)
                &&& (finishes ==> final(self).bids@.contains_key(final(self).bid1) && forall|k: u64|
                    #[trigger] final(self).bids@.contains_key(k) ==> k <= final(self).bid1)
                &&& (!finishes ==> final(self).bid1 == old(self).bid1 && final(self).ask1 == old(self).ask1)
            }),
            final(self).sid == old(self).sid,
            final(self).bids@ == old(self).bids@,
            final(self).asks@ == old(self).asks@,
            final(self).first_inc_ts_s == old(self).first_inc_ts_s,
    {
        if self.is_finish_snap || !enabled || warmup_s <= 0 || self.first_inc_ts_s <= 0 {
            return;
        }
        let passed = (ts_s as i128) - (self.first_inc_ts_s as i128) >= warmup_s as i128;
        if !passed {
            return;
        }
        let best_ask = first_key(&self.asks);
        let best_bid = last_key(&self.bids);
        match (best_bid, best_ask) {
            (Some(b), Some(a)) => {
                self.is_finish_snap = true;
                self.is_snaping = false;
                self.ask1 = a;
                self.bid1 = b;
            },
            _ => {},
        }
    }

    /// Whether an own order at `price_key` may rest on `maker_side`. On a
    /// finished book a bid at or above a positive best ask, or an ask at or
    /// below a positive best bid, would cross it and is refused.
    pub fn admits_maker(&self, maker_side: BookSide, price_key: u64) -> (r: bool)
        ensures
            !self.is_finish_snap ==> r,
            self.is_finish_snap && maker_side is Bid ==> r == !(price_positive(self.ask1) && price_ge(price_key, self.ask1)),
            self.is_finish_snap && maker_side is Ask ==> r == !(price_positive(self.bid1) && price_ge(self.bid1, price_key)),
    {
        if !self.is_finish_snap {
            return true;
        }
        match maker_side {
            BookSide::Bid => !(self.ask1 != NAN_KEY && self.ask1 > ZERO_KEY && price_key != NAN_KEY
                && price_key >= self.ask1),
            BookSide::Ask => !(self.bid1 != NAN_KEY && self.bid1 > ZERO_KEY && price_key != NAN_KEY
                && self.bid1 >= price_key),
        }
    }
}

/// The first incremental row after snapshot rows finishes the book; a
/// snapshot that begins on a book not receiving one starts from empty sides
/// and leaves the book unfinished until then.
pub proof fn law_snapshot_then_first_incremental(
    o: DepthInfo,
    n: DepthInfo,
    side: BookSide,
    price_key: u64,
    amount_bits: u64,
    prev: u64,
)
    ensures
        o.is_snaping && incremental_step(o, n, side, price_key, amount_bits, prev) ==> n.is_finish_snap
            && !n.is_snaping,
        !o.is_snaping && snapshot_step(o, n, side, price_key, amount_bits) ==> !n.is_finish_snap
            && n.bids@.dom().subset_of(set![price_key]) && n.asks@.dom().subset_of(set![price_key]),
{
}

/// On a finished book, a bid level set at a price leaves no ask at or below
/// it, and an ask level leaves no bid at or above it (unless a bid that is
/// not a number heads the bids); levels further away stay as they were.
pub proof fn law_new_level_uncrosses(
    o: DepthInfo,
    n: DepthInfo,
    side: BookSide,
    price_key: u64,
    amount_bits: u64,
    prev: u64,
)
    requires
        incremental_step(o, n, side, price_key, amount_bits, prev),
        n.is_finish_snap,
        !is_zero_bits(amount_bits),
        price_key != NAN_KEY,
    ensures
        side is Bid ==> forall|a: u64| #[trigger] n.asks@.contains_key(a) ==> a > price_key
            && o.asks@.contains_key(a) && n.asks@[a] == o.asks@[a],
        side is Bid ==> forall|a: u64| o.asks@.contains_key(a) && a > price_key ==> #[trigger]
            n.asks@.contains_key(a),
        side is Ask && !o.bids@.contains_key(NAN_KEY) ==> forall|b: u64| #[trigger] n.bids@.contains_key(b)
            ==> b < price_key && o.bids@.contains_key(b) && n.bids@[b] == o.bids@[b],
        side is Ask && !o.bids@.contains_key(NAN_KEY) ==> forall|b: u64| o.bids@.contains_key(b)
            && b < price_key ==> #[trigger] n.bids@.contains_key(b),
{
}

/// Whether a strategy finishes an unfinished book after a warm-up: the
/// pair market-making strategies do.
pub fn warmup_finish_enabled(stg: &str) -> (r: bool)
    ensures
        r == (stg@ == "pairmm_one_exchange_simple"@ || stg@ == "pairmm_two_exchange_simple"@ || stg@
            == "pairmm"@),
{
    str_eq(stg, "pairmm_one_exchange_simple") || str_eq(stg, "pairmm_two_exchange_simple") || str_eq(
        stg,
        "pairmm",
    )
}

} // verus!
