//! Bookkeeping of the streaming pnl-per-unit factor: orders are bucketed by
//! period; each period, the open orders of the period `shift` periods back are
//! matched by key with their closing orders, and old buckets expire.
//!
//! The prices and amounts that the factor averages are not held here; this
//! state decides which records exist, which period closes, which records
//! expire and which open records are matched with a close.
use vstd::prelude::*;
use crate::buckets::{
    add_spec, bucket_keys, expire_spec, lemma_push_contains, texts, BucketIndex, BucketModel,
};
use crate::text::{has_prefix, split_by_char, split_char};

verus! {

/// The settings of the factor.
pub struct FactorConfig {
    /// Length of a period, in seconds.
    pub period_s: i64,
    /// Number of periods in the rolling mean.
    pub rolling_window: usize,
    /// Fewest present values for the rolling mean to be given.
    pub min_periods: usize,
    /// How many periods back the matched bucket lies.
    pub shift: usize,
    /// How many periods a bucket is kept.
    pub max_keep_periods: usize,
}

/// Why a factor configuration is refused.
pub enum FactorConfigError {
    PeriodNotPositive,
    RollingWindowZero,
    MaxKeepPeriodsZero,
}

impl FactorConfigError {
    /// The message the error is reported with.
    pub fn message(&self) -> (r: &'static str)
        ensures
            self is PeriodNotPositive ==> r@ == "period_s must be > 0"@,
            self is RollingWindowZero ==> r@ == "rolling_window must be > 0"@,
            self is MaxKeepPeriodsZero ==> r@ == "max_keep_periods must be > 0"@,
    {
        match self {
            FactorConfigError::PeriodNotPositive => "period_s must be > 0",
            FactorConfigError::RollingWindowZero => "rolling_window must be > 0",
            FactorConfigError::MaxKeepPeriodsZero => "max_keep_periods must be > 0",
        }
    }
}

/// Checks the settings read from the configuration file: the period must be
/// positive, the window and the number of kept periods non-zero; a minimum
/// count above the window is lowered to the window.
pub fn check_factor_config(
    period_s: i64,
    rolling_window: usize,
    min_periods: usize,
    shift: usize,
    max_keep_periods: usize,
) -> (r: Result<FactorConfig, FactorConfigError>)
    ensures
        period_s <= 0 ==> r matches Err(FactorConfigError::PeriodNotPositive),
        period_s > 0 && rolling_window == 0 ==> r matches Err(FactorConfigError::RollingWindowZero),
        period_s > 0 && rolling_window > 0 && max_keep_periods == 0 ==> r matches Err(
            FactorConfigError::MaxKeepPeriodsZero,
        ),
        period_s > 0 && rolling_window > 0 && max_keep_periods > 0 ==> (r matches Ok(c) && c.period_s
            == period_s && c.rolling_window == rolling_window && c.min_periods == (if min_periods
            > rolling_window {
            rolling_window
        } else {
            min_periods
        }) && c.shift == shift && c.max_keep_periods == max_keep_periods),
{
    if period_s <= 0 {
        return Err(FactorConfigError::PeriodNotPositive);
    }
    if rolling_window == 0 {
        return Err(FactorConfigError::RollingWindowZero);
    }
    if max_keep_periods == 0 {
        return Err(FactorConfigError::MaxKeepPeriodsZero);
    }
    let min_periods = if min_periods > rolling_window {
        rolling_window
    } else {
        min_periods
    };
    Ok(FactorConfig { period_s, rolling_window, min_periods, shift, max_keep_periods })
}

/// Integer division rounding toward zero, as Rust's `/` on signed integers.
pub open spec fn trunc_div(a: int, b: int) -> int {
    if a >= 0 {
        if b > 0 {
            a / b
        } else {
            -(a / (-b))
        }
    } else {
        if b > 0 {
            -((-a) / b)
        } else {
            (-a) / (-b)
        }
    }
}

proof fn lemma_nonneg_div_mul(a: int, d: int)
    requires
        a >= 0,
        d > 0,
    ensures
        0 <= (a / d) * d <= a,
{
    vstd::arithmetic::div_mod::lemma_fundamental_div_mod(a, d);
    vstd::arithmetic::div_mod::lemma_mod_pos_bound(a, d);
    vstd::arithmetic::div_mod::lemma_div_pos_is_pos(a, d);
    assert((a / d) * d == d * (a / d)) by (nonlinear_arith);
    assert(0 <= (a / d) * d) by (nonlinear_arith)
        requires
            a / d >= 0,
            d > 0,
    ;
}

/// The start of a period is no further from zero than the time it holds.
proof fn lemma_period_start_bound(a: int, b: int)
    requires
        b != 0,
    ensures
        -(if a >= 0 { a } else { -a }) <= trunc_div(a, b) * b <= (if a >= 0 { a } else { -a }),
{
    if a >= 0 {
        if b > 0 {
            lemma_nonneg_div_mul(a, b);
        } else {
            lemma_nonneg_div_mul(a, -b);
            assert(-(a / (-b)) * b == (a / (-b)) * (-b)) by (nonlinear_arith);
        }
    } else {
        if b > 0 {
            lemma_nonneg_div_mul(-a, b);
            assert(-((-a) / b) * b == -(((-a) / b) * b)) by (nonlinear_arith);
        } else {
            lemma_nonneg_div_mul(-a, -b);
            assert(((-a) / (-b)) * b == -(((-a) / (-b)) * (-b))) by (nonlinear_arith);
        }
    }
}

/// Integer division rounding toward zero.
fn div_trunc(a: i64, b: i64) -> (q: i64)
    requires
        b != 0,
        !(a == i64::MIN && b == -1),
    ensures
        q == trunc_div(a as int, b as int),
{
    match a.checked_div(b) {
        Some(q) => q,
        None => {
            proof {
                let x = a as int;
                let d = b as int;
                assert(false) by {
                    if x >= 0 && d > 0 {
                        vstd::arithmetic::div_mod::lemma_div_is_ordered_by_denominator(x, 1, d);
                        vstd::arithmetic::div_mod::lemma_div_pos_is_pos(x, d);
                    } else if x < 0 && d < 0 {
                        vstd::arithmetic::div_mod::lemma_div_pos_is_pos(-x, -d);
                        if d == -1 {
                            assert((-x) / 1 == -x);
                        } else {
                            vstd::arithmetic::div_mod::lemma_div_is_ordered_by_denominator(-x, 2, -d);
                            vstd::arithmetic::div_mod::lemma_div_is_ordered_by_denominator(-x, 1, 2);
                        }
                    } else if x < 0 {
                        vstd::arithmetic::div_mod::lemma_div_is_ordered_by_denominator(-x, 1, d);
                        vstd::arithmetic::div_mod::lemma_div_pos_is_pos(-x, d);
                    } else {
                        vstd::arithmetic::div_mod::lemma_div_is_ordered_by_denominator(x, 1, -d);
                        vstd::arithmetic::div_mod::lemma_div_pos_is_pos(x, -d);
                    }
                }
            }
            0
        },
    }
}

/// The start of the period holding time `t`, as `(t / p) * p` computes it.
pub open spec fn period_start(t: int, p: int) -> int {
    trunc_div(t, p) * p
}

/// Whether an integer fits in `i64`.
pub open spec fn fits_i64(x: int) -> bool {
    i64::MIN <= x <= i64::MAX
}

/// The key of the open order a closing order refers to: the third
/// `_`-separated piece of its key when it has one, else the key itself.
pub open spec fn close_key_of(raw: Seq<char>) -> Seq<char> {
    if split_char(raw, '_').len() >= 3 {
        split_char(raw, '_')[2]
    } else {
        raw
    }
}

/// The key of the open order a closing order refers to.
pub fn parse_close_fkey(raw_fkey: &str) -> (r: String)
    ensures
        r@ == close_key_of(raw_fkey@),
{
    let mut parts = split_by_char(raw_fkey, '_');
    if parts.len() >= 3 {
        parts.remove(2)
    } else {
        raw_fkey.to_owned()
    }
}

/// The time an order record belongs to, in ms: its update time when it has
/// one (positive), else its creation time.
pub fn order_ts_ms(create_ts: i64, update_ts: i64) -> (r: i64)
    ensures
        r == if update_ts > 0 {
            update_ts
        } else {
            create_ts
        },
{
    if update_ts > 0 {
        update_ts
    } else {
        create_ts
    }
}

/// What an order leaves in the state of the open or closing records.
pub enum RecordTouch {
    /// The order is neither an opening order of the first venue nor a closing order.
    Ignored,
    /// An opening order; `is_new` when its key was not recorded yet.
    Open { fkey: String, is_new: bool, cts_sec: i64, uts_sec: i64 },
    /// A closing order; `is_new` when its key was not recorded yet.
    Close { fkey: String, is_new: bool, uts_sec: i64 },
}

/// A period that an order closes.
pub struct PeriodStep {
    /// The start of the period that closes.
    pub ts: i64,
    /// The bucket of open orders settled in this period.
    pub target_ts: i64,
    /// Keys of open records that expired.
    pub expired_open: Vec<String>,
    /// Keys of closing records that expired.
    pub expired_close: Vec<String>,
    /// Keys of the settled bucket that had both an open and a closing record;
    /// both records are dropped.
    pub matched: Vec<String>,
    /// Keys of the settled bucket that had no closing record; the open record is dropped.
    pub unmatched: Vec<String>,
}

/// What processing one order did.
pub struct OrderStep {
    /// The periods the order closes, in order.
    pub periods: Vec<PeriodStep>,
    pub record: RecordTouch,
}

/// The sets of open and closing keys after settling the keys `ks` in order:
/// a key with no open record is skipped; one with an open record but no
/// closing record loses its open record; one with both loses both.
/// Also the keys that had both, and those that had only an open record.
pub open spec fn settle(ks: Seq<Seq<char>>, open: Set<Seq<char>>, close: Set<Seq<char>>) -> (
    Set<Seq<char>>,
    Set<Seq<char>>,
    Seq<Seq<char>>,
    Seq<Seq<char>>,
)
    decreases ks.len(),
{
    if ks.len() == 0 {
        (open, close, Seq::empty(), Seq::empty())
    } else {
        let r = settle(ks.drop_last(), open, close);
        let k = ks.last();
        if !r.0.contains(k) {
            r
        } else if !r.1.contains(k) {
            (r.0.remove(k), r.1, r.2, r.3.push(k))
        } else {
            (r.0.remove(k), r.1.remove(k), r.2.push(k), r.3)
        }
    }
}

/// Settling pairs each open record only with the closing record of the same
/// key: a matched key had both records and loses both; an unmatched key had
/// an open record and no closing one, and loses the open record; every key
/// settled is one of `ks`; the records of any other key are left alone.
pub proof fn law_settle_pairs_open_with_close(ks: Seq<Seq<char>>, open: Set<Seq<char>>, close: Set<Seq<char>>)
    ensures
        ({
            let r = settle(ks, open, close);
            &&& forall|k: Seq<char>| #[trigger] r.2.contains(k) ==> open.contains(k) && close.contains(k)
                && ks.contains(k) && !r.0.contains(k) && !r.1.contains(k)
            &&& forall|k: Seq<char>| #[trigger] r.3.contains(k) ==> open.contains(k) && !close.contains(k)
                && ks.contains(k) && !r.0.contains(k)
            &&& forall|k: Seq<char>| #[trigger] r.0.contains(k) <==> open.contains(k) && !r.2.contains(k)
                && !r.3.contains(k)
            &&& forall|k: Seq<char>| #[trigger] r.1.contains(k) <==> close.contains(k) && !r.2.contains(k)
        }),
    decreases ks.len(),
{
    if ks.len() > 0 {
        let init = ks.drop_last();
        law_settle_pairs_open_with_close(init, open, close);
        let r = settle(init, open, close);
        let k = ks.last();
        assert forall|x: Seq<char>| init.contains(x) implies #[trigger] ks.contains(x) by {
            let i = choose|i: int| 0 <= i < init.len() && init[i] == x;
            assert(ks[i] == x);
        }
        assert(ks.contains(k)) by {
            assert(ks[ks.len() - 1] == k);
        }
        let s2 = settle(ks, open, close);
        if !r.0.contains(k) {
            assert(s2 == r);
        } else if !r.1.contains(k) {
            assert(s2 == (r.0.remove(k), r.1, r.2, r.3.push(k)));
            assert forall|x: Seq<char>| #[trigger] s2.3.contains(x) implies open.contains(x) && !close.contains(
                x,
            ) && ks.contains(x) && !s2.0.contains(x) by {
                lemma_push_contains(r.3, k, x);
            }
            assert forall|x: Seq<char>| #[trigger] s2.0.contains(x) <==> open.contains(x) && !s2.2.contains(x)
                && !s2.3.contains(x) by {
                lemma_push_contains(r.3, k, x);
            }
        } else {
            assert(s2 == (r.0.remove(k), r.1.remove(k), r.2.push(k), r.3));
            assert forall|x: Seq<char>| #[trigger] s2.2.contains(x) implies open.contains(x) && close.contains(x)
                && ks.contains(x) && !s2.0.contains(x) && !s2.1.contains(x) by {
                lemma_push_contains(r.2, k, x);
            }
            assert forall|x: Seq<char>| #[trigger] s2.0.contains(x) <==> open.contains(x) && !s2.2.contains(x)
                && !s2.3.contains(x) by {
                lemma_push_contains(r.2, k, x);
            }
            assert forall|x: Seq<char>| #[trigger] s2.1.contains(x) <==> close.contains(x) && !s2.2.contains(x) by {
                lemma_push_contains(r.2, k, x);
            }
        }
    }
}

/// The model of the factor state: its open and closing records with their
/// buckets, and the last period it closed.
pub struct FactorModel {
    pub open: BucketModel,
    pub close: BucketModel,
    pub last_tp: Option<i64>,
}

/// The last closed period that an order in period `cur` counts from: the
/// period before `cur` when none was closed yet.
pub open spec fn last_closed(last: Option<i64>, cur: int, p: int) -> int {
    match last {
        None => cur - p,
        Some(l) => l as int,
    }
}

/// The number of periods an order in period `cur` closes: every one after
/// the last closed period up to `cur`.
pub open spec fn periods_to_close(last: Option<i64>, cur: int, p: int) -> nat {
    let l = last_closed(last, cur, p);
    if cur > l {
        ((cur - l) / p) as nat
    } else {
        0
    }
}

/// A closed period as the model sees it: its start, the bucket it settled,
/// the keys that expired, and the keys matched and left unmatched.
pub struct ClosedPeriod {
    pub ts: int,
    pub target_ts: int,
    pub expired_open: Seq<Seq<char>>,
    pub expired_close: Seq<Seq<char>>,
    pub matched: Seq<Seq<char>>,
    pub unmatched: Seq<Seq<char>>,
}

/// The model of a period step.
pub open spec fn period_view(s: PeriodStep) -> ClosedPeriod {
    ClosedPeriod {
        ts: s.ts as int,
        target_ts: s.target_ts as int,
        expired_open: texts(s.expired_open@),
        expired_close: texts(s.expired_close@),
        matched: texts(s.matched@),
        unmatched: texts(s.unmatched@),
    }
}

/// The state after closing period `next`: expired buckets dropped, then the
/// bucket `shift` seconds back settled; and what was expired and settled.
pub open spec fn close_period(m: FactorModel, next: int, keep: int, shift: int) -> (
    FactorModel,
    Seq<Seq<char>>,
    Seq<Seq<char>>,
    Seq<Seq<char>>,
    Seq<Seq<char>>,
) {
    let eo = expire_spec(m.open, next - keep);
    let ec = expire_spec(m.close, next - keep);
    let target = (next - shift) as i64;
    let ks = bucket_keys(eo.0, target);
    let s = settle(ks, eo.0.keys, ec.0.keys);
    (
        FactorModel {
            open: BucketModel { keys: s.0, buckets: eo.0.buckets.remove(target), order: eo.0.order },
            close: BucketModel { keys: s.1, ..ec.0 },
            last_tp: Some(next as i64),
        },
        eo.1,
        ec.1,
        s.2,
        s.3,
    )
}

/// The state after closing the `n` periods `start`, `start + p`, ... in
/// order, and what each of them expired and settled.
pub open spec fn close_periods(m: FactorModel, start: int, n: nat, p: int, keep: int, shift: int) -> (
    FactorModel,
    Seq<ClosedPeriod>,
)
    decreases n,
{
    if n == 0 {
        (m, Seq::empty())
    } else {
        let r = close_periods(m, start, (n - 1) as nat, p, keep, shift);
        let next = start + (n - 1) * p;
        let c = close_period(r.0, next, keep, shift);
        (
            c.0,
            r.1.push(
                ClosedPeriod {
                    ts: next,
                    target_ts: next - shift,
                    expired_open: c.1,
                    expired_close: c.2,
                    matched: c.3,
                    unmatched: c.4,
                },
            ),
        )
    }
}

proof fn lemma_close_periods_shape(m: FactorModel, start: int, n: nat, p: int, keep: int, shift: int)
    ensures
        ({
            let cl = close_periods(m, start, n, p, keep, shift);
            &&& cl.1.len() == n
            &&& forall|i: int|
                0 <= i < n ==> (#[trigger] cl.1[i]).ts == start + i * p && cl.1[i].target_ts
                    == cl.1[i].ts - shift
            &&& cl.0.last_tp == if n == 0 {
                m.last_tp
            } else {
                Some((start + (n - 1) * p) as i64)
            }
        }),
    decreases n,
{
    if n > 0 {
        lemma_close_periods_shape(m, start, (n - 1) as nat, p, keep, shift);
    }
}

/// With the last closed period and the order's period both multiples of
/// `p`, the periods to close reach exactly the order's period.
proof fn lemma_periods_to_close(last: Option<i64>, cur: int, p: int)
    requires
        p > 0,
        cur % p == 0,
        last matches Some(l) ==> (l as int) % p == 0,
    ensures
        ({
            let l = last_closed(last, cur, p);
            let n = periods_to_close(last, cur, p);
            &&& l % p == 0
            &&& cur > l ==> n >= 1 && l + n * p == cur
            &&& cur <= l ==> n == 0
            &&& last is None ==> n == 1
        }),
{
    let l = last_closed(last, cur, p);
    vstd::arithmetic::div_mod::lemma_fundamental_div_mod(cur, p);
    vstd::arithmetic::div_mod::lemma_fundamental_div_mod(l, p);
    let a = cur / p;
    let b = l / p;
    if last is None {
        assert(l == (a - 1) * p) by (nonlinear_arith)
            requires
                cur == p * a,
                l == cur - p,
        ;
        vstd::arithmetic::div_mod::lemma_mod_multiples_basic(a - 1, p);
    }
    assert(l == b * p) by (nonlinear_arith)
        requires
            l == p * b + l % p,
            l % p == 0,
    ;
    if cur > l {
        assert(cur - l == (a - b) * p) by (nonlinear_arith)
            requires
                cur == p * a + cur % p,
                cur % p == 0,
                l == b * p,
        ;
        assert(a - b > 0) by (nonlinear_arith)
            requires
                cur - l == (a - b) * p,
                cur > l,
                p > 0,
        ;
        vstd::arithmetic::div_mod::lemma_div_multiples_vanish(a - b, p);
        assert((cur - l) / p == a - b) by {
            assert(p * (a - b) == (a - b) * p) by (nonlinear_arith);
        }
        if last is None {
            assert(a - b == 1) by (nonlinear_arith)
                requires
                    cur - l == (a - b) * p,
                    cur - l == p,
                    p > 0,
            ;
        }
    }
}

/// Over successive orders the closed periods go up by whole periods: an
/// order in period `cur` closes, in order, every period after the last
/// closed one up to `cur` (only `cur` when none was closed yet), each one
/// period after the one before and each settling the bucket `shift`
/// seconds before its start; it closes none when `cur` is not past the last
/// closed period. Afterwards the last closed period is `cur` (or stays as it
/// was), again a multiple of `p`.
pub proof fn law_periods_advance_by_whole_periods(m: FactorModel, cur: int, p: int, keep: int, shift: int)
    requires
        p > 0,
        cur % p == 0,
        fits_i64(cur),
        m.last_tp matches Some(l) ==> (l as int) % p == 0,
    ensures
        ({
            let l = last_closed(m.last_tp, cur, p);
            let cl = close_periods(m, l + p, periods_to_close(m.last_tp, cur, p), p, keep, shift);
            &&& forall|i: int|
                0 <= i < cl.1.len() ==> (#[trigger] cl.1[i]).ts == l + (i + 1) * p && cl.1[i].ts % p
                    == 0 && l < cl.1[i].ts <= cur && cl.1[i].target_ts == cl.1[i].ts - shift
            &&& (cl.1.len() > 0) == (cur > l)
            &&& cl.1.len() > 0 ==> cl.1.last().ts == cur
            &&& m.last_tp is None ==> cl.1.len() == 1
            &&& cl.0.last_tp == if cur > l {
                Some(cur as i64)
            } else {
                m.last_tp
            }
            &&& cl.0.last_tp matches Some(t) ==> (t as int) % p == 0
        }),
{
    let l = last_closed(m.last_tp, cur, p);
    let n = periods_to_close(m.last_tp, cur, p);
    lemma_periods_to_close(m.last_tp, cur, p);
    lemma_close_periods_shape(m, l + p, n, p, keep, shift);
    let cl = close_periods(m, l + p, n, p, keep, shift);
    assert forall|i: int| 0 <= i < cl.1.len() implies (#[trigger] cl.1[i]).ts == l + (i + 1) * p
        && cl.1[i].ts % p == 0 && l < cl.1[i].ts <= cur && cl.1[i].target_ts == cl.1[i].ts - shift by {
        assert(l + p + i * p == l + (i + 1) * p) by (nonlinear_arith);
        assert(l < l + (i + 1) * p <= l + n * p) by (nonlinear_arith)
            requires
                0 <= i < n,
                p > 0,
        ;
        vstd::arithmetic::div_mod::lemma_fundamental_div_mod(l, p);
        let b = l / p;
        assert(l + (i + 1) * p == (b + i + 1) * p) by (nonlinear_arith)
            requires
                l == p * b + l % p,
                l % p == 0,
        ;
        vstd::arithmetic::div_mod::lemma_mod_multiples_basic(b + i + 1, p);
    }
    if n > 0 {
        assert(l + p + (n - 1) * p == l + n * p) by (nonlinear_arith);
        assert(cl.1.last() == cl.1[n - 1]);
    }
}

/// The factor state.
pub struct FactorState {
    period_s: i64,
    shift_seconds: i64,
    rolling_window: usize,
    min_periods: usize,
    max_keep_seconds: i64,
    open: BucketIndex,
    close: BucketIndex,
    last_tp: Option<i64>,
}

/// Whether the settings fit the state: a period of positive length, and
/// shift and keep lengths in seconds that fit in `i64`.
pub open spec fn config_fits(conf: FactorConfig) -> bool {
    &&& conf.period_s > 0
    &&& conf.shift <= i64::MAX
    &&& conf.max_keep_periods <= i64::MAX
    &&& fits_i64(conf.shift * conf.period_s)
    &&& fits_i64(conf.max_keep_periods * conf.period_s)
}

proof fn lemma_mul_fits_i128(a: int, p: int)
    requires
        0 <= a <= i64::MAX,
        i64::MIN <= p <= i64::MAX,
    ensures
        -170141183460469231731687303715884105728 <= a * p <= 170141183460469231731687303715884105727,
{
    assert(-9223372036854775808 * 9223372036854775807 <= a * p <= 9223372036854775807
        * 9223372036854775807) by (nonlinear_arith)
        requires
            0 <= a <= 9223372036854775807,
            -9223372036854775808 <= p <= 9223372036854775807,
    ;
}

/// Whether the settings fit the state (see `config_fits`).
pub fn factor_config_fits(conf: &FactorConfig) -> (r: bool)
    ensures
        r == config_fits(*conf),
{
    if conf.period_s <= 0 || conf.shift as u128 > i64::MAX as u128 || conf.max_keep_periods as u128
        > i64::MAX as u128 {
        return false;
    }
    let p = conf.period_s as i128;
    proof {
        lemma_mul_fits_i128(conf.shift as int, p as int);
        lemma_mul_fits_i128(conf.max_keep_periods as int, p as int);
    }
    let a = (conf.shift as i128) * p;
    let b = (conf.max_keep_periods as i128) * p;
    i64::MIN as i128 <= a && a <= i64::MAX as i128 && i64::MIN as i128 <= b && b
        <= i64::MAX as i128
}

impl FactorState {
    /// The length of a period, in seconds.
    pub closed spec fn period(&self) -> i64 {
        self.period_s
    }

    /// How far back the settled bucket lies, in seconds.
    pub closed spec fn shift(&self) -> i64 {
        self.shift_seconds
    }

    /// How long a bucket is kept, in seconds.
    pub closed spec fn keep(&self) -> i64 {
        self.max_keep_seconds
    }

    /// The number of periods in the rolling mean.
    pub closed spec fn window(&self) -> usize {
        self.rolling_window
    }

    /// The fewest present values for the rolling mean.
    pub closed spec fn min_count(&self) -> usize {
        self.min_periods
    }

    /// The length of a period, in seconds.
    pub fn period_s(&self) -> (r: i64)
        ensures
            r == self.period(),
    {
        self.period_s
    }

    /// The number of periods in the rolling mean.
    pub fn rolling_window(&self) -> (r: usize)
        ensures
            r == self.window(),
    {
        self.rolling_window
    }

    /// The fewest present values for the rolling mean.
    pub fn min_periods(&self) -> (r: usize)
        ensures
            r == self.min_count(),
    {
        self.min_periods
    }

    /// The model of this state.
    pub closed spec fn view(&self) -> FactorModel {
        FactorModel { open: self.open.view(), close: self.close.view(), last_tp: self.last_tp }
    }

    /// The record indexes are well formed and the period is positive.
    closed spec fn books_wf(&self) -> bool {
        &&& self.open.wf()
        &&& self.close.wf()
        &&& self.period_s > 0
    }

    /// The state is well formed: so are its record indexes, the period is
    /// positive, and the last closed period is a multiple of it.
    pub closed spec fn wf(&self) -> bool {
        &&& self.books_wf()
        &&& (self.last_tp matches Some(l) ==> (l as int) % (self.period_s as int) == 0)
    }

    /// The last closed period of a well-formed state is a multiple of the
    /// period, which is positive.
    pub proof fn lemma_wf_periods(&self)
        requires
            self.wf(),
        ensures
            self.period() > 0,
            self.view().last_tp matches Some(l) ==> (l as int) % (self.period() as int) == 0,
    {
    }

    /// A state with no records and no closed period.
    pub fn new(conf: &FactorConfig) -> (r: Self)
        requires
            config_fits(*conf),
        ensures
            r.wf(),
            r.period() == conf.period_s,
            r.shift() == conf.shift * conf.period_s,
            r.keep() == conf.max_keep_periods * conf.period_s,
            r.window() == conf.rolling_window,
            r.min_count() == conf.min_periods,
            r.view().open.keys.is_empty(),
            r.view().close.keys.is_empty(),
            r.view().open.buckets.is_empty(),
            r.view().close.buckets.is_empty(),
            r.view().open.order.len() == 0,
            r.view().close.order.len() == 0,
            r.view().last_tp is None,
    {
        let shift_seconds = ((conf.shift as i128) * (conf.period_s as i128)) as i64;
        let max_keep_seconds = ((conf.max_keep_periods as i128) * (conf.period_s as i128)) as i64;
        FactorState {
            period_s: conf.period_s,
            shift_seconds,
            rolling_window: conf.rolling_window,
            min_periods: conf.min_periods,
            max_keep_seconds,
            open: BucketIndex::new(),
            close: BucketIndex::new(),
            last_tp: None,
        }
    }

    /// The number of open and of closing records.
    pub fn pending_counts(&self) -> (r: (usize, usize))
        ensures
            r.0 == self.view().open.keys.len(),
            r.1 == self.view().close.keys.len(),
    {
        (self.open.len(), self.close.len())
    }

    /// The period of an order's time (ms), as a period start in seconds.
    pub open spec fn period_of(&self, ts_ms: int) -> int {
        period_start(trunc_div(ts_ms, 1000), self.period() as int)
    }

    /// Whether processing an order at time `ts_ms` computes only numbers that
    /// fit in `i64` (beyond that, the arithmetic would overflow): the period
    /// before the order's, and for the first and the last period it closes,
    /// the start of the oldest bucket kept and of the bucket settled.
    pub open spec fn arith_ok(&self, ts_ms: int) -> bool {
        let cur = self.period_of(ts_ms);
        let p = self.period() as int;
        let first = last_closed(self.view().last_tp, cur, p) + p;
        &&& fits_i64(cur - p)
        &&& (first <= cur ==> {
            &&& fits_i64(first - self.keep())
            &&& fits_i64(first - self.shift())
            &&& fits_i64(cur - self.keep())
            &&& fits_i64(cur - self.shift())
        })
    }

    /// Whether processing an order at time `ts_ms` stays within `i64`.
    pub fn can_process(&self, ts_ms: i64) -> (r: bool)
        requires
            self.wf(),
        ensures
            r == self.arith_ok(ts_ms as int),
    {
        let cur = self.current_tp(ts_ms) as i128;
        let p = self.period_s as i128;
        let lo = i64::MIN as i128;
        let hi = i64::MAX as i128;
        if cur - p < lo || cur - p > hi {
            return false;
        }
        let first: i128 = match self.last_tp {
            None => cur,
            Some(l) => l as i128 + p,
        };
        if first > cur {
            return true;
        }
        let keep = self.max_keep_seconds as i128;
        let shift = self.shift_seconds as i128;
        lo <= first - keep && first - keep <= hi && lo <= first - shift && first - shift <= hi && lo
            <= cur - keep && cur - keep <= hi && lo <= cur - shift && cur - shift <= hi
    }

    fn current_tp(&self, ts_ms: i64) -> (r: i64)
        requires
            self.wf(),
        ensures
            r == self.period_of(ts_ms as int),
    {
        let uts_sec = div_trunc(ts_ms, 1000);
        let p = self.period_s;
        proof {
            lemma_period_start_bound(ts_ms as int, 1000);
            assert(-9223372036854776 <= uts_sec <= 9223372036854776) by (nonlinear_arith)
                requires
                    -9223372036854775808 <= uts_sec * 1000 <= 9223372036854775807,
            ;
            lemma_period_start_bound(uts_sec as int, p as int);
        }
        let q = div_trunc(uts_sec, p);
        q * p
    }

    /// Settles the bucket `target` of open records against the closing records.
    fn settle_bucket(&mut self, target: i64) -> (r: (Vec<String>, Vec<String>))
        requires
            old(self).books_wf(),
        ensures
            final(self).books_wf(),
            ({
                let ks = bucket_keys(old(self).view().open, target);
                let s = settle(ks, old(self).view().open.keys, old(self).view().close.keys);
                &&& final(self).view().open == (BucketModel {
                    keys: s.0,
                    buckets: old(self).view().open.buckets.remove(target),
                    order: old(self).view().open.order,
                })
                &&& final(self).view().close == (BucketModel { keys: s.1, ..old(self).view().close })
                &&& texts(r.0@) == s.2
                &&& texts(r.1@) == s.3
            }),
            final(self).view().last_tp == old(self).view().last_tp,
            final(self).period() == old(self).period(),
            final(self).shift() == old(self).shift(),
            final(self).keep() == old(self).keep(),
            final(self).window() == old(self).window(),
            final(self).min_count() == old(self).min_count(),
    {
        let ghost o0 = self.open.view();
        let ghost c0 = self.close.view();
        let fkeys = match self.open.take_bucket(target) {
            Some(v) => v,
            None => Vec::new(),
        };
        let ghost ks = bucket_keys(o0, target);
        proof {
            assert(texts(fkeys@) == ks);
        }
        let mut matched: Vec<String> = Vec::new();
        let mut unmatched: Vec<String> = Vec::new();
        let mut i: usize = 0;
        proof {
            assert(ks.take(0) =~= Seq::<Seq<char>>::empty());
            assert(texts(matched@) =~= Seq::<Seq<char>>::empty());
            assert(texts(unmatched@) =~= Seq::<Seq<char>>::empty());
        }
        while i < fkeys.len()
            invariant
                i <= fkeys@.len(),
                texts(fkeys@) == ks,
                self.open.wf(),
                self.close.wf(),
                self.period_s != 0,
                self.open.view().buckets == o0.buckets.remove(target),
                self.open.view().order == o0.order,
                self.close.view().buckets == c0.buckets,
                self.close.view().order == c0.order,
                ({
                    let s = settle(ks.take(i as int), o0.keys, c0.keys);
                    &&& self.open.view().keys == s.0
                    &&& self.close.view().keys == s.1
                    &&& texts(matched@) == s.2
                    &&& texts(unmatched@) == s.3
                }),
                self.last_tp == old(self).last_tp,
                self.period_s == old(self).period_s,
                self.shift_seconds == old(self).shift_seconds,
                self.max_keep_seconds == old(self).max_keep_seconds,
                self.rolling_window == old(self).rolling_window,
                self.min_periods == old(self).min_periods,
            decreases fkeys.len() - i,
        {
            let k = &fkeys[i];
            proof {
                assert(ks.take(i + 1).drop_last() =~= ks.take(i as int));
                assert(ks.take(i + 1).last() == k@);
            }
            if self.open.contains(k.as_str()) {
                if !self.close.contains(k.as_str()) {
                    self.open.remove_key(k.as_str());
                    let ghost u0 = unmatched@;
                    unmatched.push(k.clone());
                    proof {
                        assert(texts(unmatched@) =~= texts(u0).push(k@));
                    }
                } else {
                    self.open.remove_key(k.as_str());
                    self.close.remove_key(k.as_str());
                    let ghost w0 = matched@;
                    matched.push(k.clone());
                    proof {
                        assert(texts(matched@) =~= texts(w0).push(k@));
                    }
                }
            }
            i = i + 1;
        }
        proof {
            assert(ks.take(i as int) =~= ks);
        }
        (matched, unmatched)
    }

    /// Processes one order: `client_order_id` (an opening order begins with
    /// `o`, a closing one with `c`), its venue `sid`, its creation time and its
    /// time (ms), and its key. First every period after the last closed one up
    /// to the order's own is closed, in order (only the order's own when none
    /// was closed yet); each closing expires old buckets and settles the
    /// bucket `shift` periods back. Then the order's record is noted.
    pub fn process_order(
        &mut self,
        client_order_id: &str,
        sid: i32,
        create_ts: i64,
        ts_ms: i64,
        from_key: &str,
    ) -> (r: OrderStep)
        requires
            old(self).wf(),
            old(self).arith_ok(ts_ms as int),
        ensures
            final(self).wf(),
            final(self).period() == old(self).period(),
            final(self).shift() == old(self).shift(),
            final(self).keep() == old(self).keep(),
            final(self).window() == old(self).window(),
            final(self).min_count() == old(self).min_count(),
            ({
                let p = old(self).period() as int;
                let cur = old(self).period_of(ts_ms as int);
                let m0 = old(self).view();
                let cl = close_periods(
                    m0,
                    last_closed(m0.last_tp, cur, p) + p,
                    periods_to_close(m0.last_tp, cur, p),
                    p,
                    old(self).keep() as int,
                    old(self).shift() as int,
                );
                let m1 = cl.0;
                let cts = trunc_div(create_ts as int, 1000);
                let uts = trunc_div(ts_ms as int, 1000);
                let is_open = has_prefix(client_order_id@, seq!['o']) && sid == 0;
                let is_close = !is_open && has_prefix(client_order_id@, seq!['c']);
                let okey = from_key@;
                let ckey = close_key_of(from_key@);
                &&& r.periods@.len() == cl.1.len()
                &&& forall|i: int|
                    0 <= i < r.periods@.len() ==> period_view(#[trigger] r.periods@[i]) == cl.1[i]
                &&& final(self).view().last_tp == m1.last_tp
                &&& (is_open ==> {
                    &&& r.record matches RecordTouch::Open { fkey, is_new, cts_sec, uts_sec }
                    &&& fkey@ == okey
                    &&& is_new == !m1.open.keys.contains(okey)
                    &&& cts_sec == cts
                    &&& uts_sec == uts
                    &&& final(self).view().open == if is_new {
                        add_spec(m1.open, period_start(cts, p) as i64, okey)
                    } else {
                        m1.open
                    }
                    &&& final(self).view().close == m1.close
                })
                &&& (is_close ==> {
                    &&& r.record matches RecordTouch::Close { fkey, is_new, uts_sec }
                    &&& fkey@ == ckey
                    &&& is_new == !m1.close.keys.contains(ckey)
                    &&& uts_sec == uts
                    &&& final(self).view().close == if is_new {
                        add_spec(m1.close, period_start(uts, p) as i64, ckey)
                    } else {
                        m1.close
                    }
                    &&& final(self).view().open == m1.open
                })
                &&& (!is_open && !is_close ==> r.record is Ignored && final(self).view().open
                    == m1.open && final(self).view().close == m1.close)
            }),
    {
        let cts_sec = div_trunc(create_ts, 1000);
        let uts_sec = div_trunc(ts_ms, 1000);
        proof {
            lemma_period_start_bound(ts_ms as int, 1000);
            lemma_period_start_bound(create_ts as int, 1000);
            assert(-9223372036854776 <= uts_sec <= 9223372036854776) by (nonlinear_arith)
                requires
                    -9223372036854775808 <= uts_sec * 1000 <= 9223372036854775807,
            ;
            assert(-9223372036854776 <= cts_sec <= 9223372036854776) by (nonlinear_arith)
                requires
                    -9223372036854775808 <= cts_sec * 1000 <= 9223372036854775807,
            ;
        }
        let p = self.period_s;
        let current_tp = self.current_tp(ts_ms);
        let ghost m0 = self.view();
        let ghost keep = self.max_keep_seconds as int;
        let ghost shift = self.shift_seconds as int;
        let ghost cur = current_tp as int;
        let ghost l = last_closed(m0.last_tp, cur, p as int);
        let ghost n = periods_to_close(m0.last_tp, cur, p as int);
        proof {
            vstd::arithmetic::div_mod::lemma_mod_multiples_basic(
                trunc_div(trunc_div(ts_ms as int, 1000), p as int),
                p as int,
            );
            lemma_periods_to_close(m0.last_tp, cur, p as int);
            if n > 0 {
                assert(l + p <= cur) by (nonlinear_arith)
                    requires
                        cur == l + n * p,
                        n >= 1,
                        p > 0,
                ;
            }
        }
        let mut last: i64 = match self.last_tp {
            None => current_tp - p,
            Some(l) => l,
        };
        let mut periods: Vec<PeriodStep> = Vec::new();
        while last < current_tp
            invariant
                self.books_wf(),
                self.period_s == p,
                p > 0,
                self.max_keep_seconds == keep,
                self.shift_seconds == shift,
                self.rolling_window == old(self).rolling_window,
                self.min_periods == old(self).min_periods,
                current_tp == cur,
                periods.len() <= n,
                last == l + periods.len() * p,
                n > 0 ==> cur == l + n * p,
                n == 0 ==> cur <= l,
                n > 0 ==> fits_i64(l + p - keep) && fits_i64(l + p - shift) && fits_i64(cur - keep)
                    && fits_i64(cur - shift),
                ({
                    let cl = close_periods(m0, l + p, periods.len() as nat, p as int, keep, shift);
                    &&& self.view() == cl.0
                    &&& periods@.len() == cl.1.len()
                    &&& forall|i: int|
                        0 <= i < periods@.len() ==> period_view(#[trigger] periods@[i]) == cl.1[i]
                }),
            decreases cur - last,
        {
            let ghost k = periods.len();
            proof {
                assert(k < n && l + (k + 1) * p <= cur && l + p <= l + (k + 1) * p) by (nonlinear_arith)
                    requires
                        last == l + k * p,
                        last < cur,
                        n > 0 ==> cur == l + n * p,
                        n == 0 ==> cur <= l,
                        k <= n,
                        p > 0,
                ;
                assert(l + (k + 1) * p == last + p) by (nonlinear_arith)
                    requires
                        last == l + k * p,
                ;
                assert(l + p + k * p == last + p) by (nonlinear_arith)
                    requires
                        last == l + k * p,
                ;
            }
            let next = last + p;
            let ghost cl0 = close_periods(m0, l + p, k as nat, p as int, keep, shift);
            self.last_tp = Some(next);
            let expire_before = next - self.max_keep_seconds;
            let expired_open = self.open.expire(expire_before);
            let expired_close = self.close.expire(expire_before);
            let target_ts = next - self.shift_seconds;
            let (matched, unmatched) = self.settle_bucket(target_ts);
            let step = PeriodStep { ts: next, target_ts, expired_open, expired_close, matched, unmatched };
            let ghost s0 = periods@;
            periods.push(step);
            proof {
                let cl1 = close_periods(m0, l + p, (k + 1) as nat, p as int, keep, shift);
                assert(cl1.1 == cl0.1.push(period_view(step)));
                assert forall|i: int| 0 <= i < periods@.len() implies period_view(
                    #[trigger] periods@[i],
                ) == cl1.1[i] by {
                    if i < k {
                        assert(periods@[i] == s0[i]);
                    }
                }
                assert(l + (k + 1) * p == l + periods.len() * p);
            }
            last = next;
        }
        proof {
            assert(periods.len() == n) by (nonlinear_arith)
                requires
                    last == l + periods.len() * p,
                    last >= cur,
                    periods.len() <= n,
                    n > 0 ==> cur == l + n * p,
                    n == 0 ==> cur <= l,
                    p > 0,
            ;
            lemma_close_periods_shape(m0, l + p, n, p as int, keep, shift);
            if n > 0 {
                assert(l + p + (n - 1) * p == cur) by (nonlinear_arith)
                    requires
                        cur == l + n * p,
                ;
            }
        }
        let is_open = starts_with_char(client_order_id, 'o') && sid == 0;
        let record = if is_open {
            let fkey = from_key.to_owned();
            if self.open.contains(from_key) {
                RecordTouch::Open { fkey, is_new: false, cts_sec, uts_sec }
            } else {
                proof {
                    lemma_period_start_bound(cts_sec as int, p as int);
                }
                let open_tp = div_trunc(cts_sec, p) * p;
                self.open.add(open_tp, from_key);
                RecordTouch::Open { fkey, is_new: true, cts_sec, uts_sec }
            }
        } else if starts_with_char(client_order_id, 'c') {
            let fkey = parse_close_fkey(from_key);
            if self.close.contains(fkey.as_str()) {
                RecordTouch::Close { fkey, is_new: false, uts_sec }
            } else {
                proof {
                    lemma_period_start_bound(uts_sec as int, p as int);
                }
                let close_tp = div_trunc(uts_sec, p) * p;
                self.close.add(close_tp, fkey.as_str());
                RecordTouch::Close { fkey, is_new: true, uts_sec }
            }
        } else {
            RecordTouch::Ignored
        };
        OrderStep { periods, record }
    }
}

/// Whether `s` begins with the character `c`.
fn starts_with_char(s: &str, c: char) -> (r: bool)
    ensures
        r == has_prefix(s@, seq![c]),
{
    let mut it = s.chars();
    let first = it.next();
    proof {
        assert(has_prefix(s@, seq![c]) == (s@.len() > 0 && s@[0] == c)) by {
            if s@.len() > 0 && s@[0] == c {
                assert(s@.take(1) =~= seq![c]);
            }
            if has_prefix(s@, seq![c]) {
                assert(s@.take(1)[0] == c);
            }
        }
    }
    match first {
        Some(x) => x == c,
        None => false,
    }
}

} // verus!
