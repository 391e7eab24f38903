//! Keys of the persisted order and position records: a zero-padded
//! timestamp, `_`, and a zero-padded sequence number, so that keys sort by
//! time and then by arrival.
use vstd::prelude::*;
use crate::decimal::{
    ascii_bytes, dec_digits, digits_value, fmt_padded, format_padded, format_padded_u64, is_digit_byte,
    lemma_digits_len, lemma_digits_value, lemma_leading_zeros, parse_i64, parse_i64_bytes, pow10,
    unsigned_part, zero_pad,
};
use crate::recv_stats::{lemma_lt_asym, seq_lt};
use crate::text::str_eq;

verus! {

/// The width of each number in a record key.
pub open spec fn key_width() -> nat {
    20
}

/// The key of a record stored at time `ts` (ms, clamped at zero) as the
/// `seq`-th record.
pub open spec fn record_key(ts: int, seq: int) -> Seq<char> {
    fmt_padded(if ts < 0 {
        0
    } else {
        ts
    }, key_width()) + "_"@ + fmt_padded(seq, key_width())
}

/// The smallest key of the records stored at time `ts` or later.
pub open spec fn range_start_key(ts: int) -> Seq<char> {
    fmt_padded(ts, key_width()) + "_"@
}

/// The timestamp a record key begins with: the number its first 20 bytes
/// spell, if they spell one.
pub open spec fn key_ts(key: Seq<u8>) -> Option<i64> {
    if key.len() < 20 {
        None
    } else {
        parse_i64_bytes(key.take(20))
    }
}

/// Hands out record keys in arrival order.
pub struct RecordKeys {
    pub seq: u64,
}

impl RecordKeys {
    /// A key source that starts at sequence number zero.
    pub fn new() -> (r: Self)
        ensures
            r.seq == 0,
    {
        RecordKeys { seq: 0 }
    }

    /// The key of the next record, stored at time `ts`; the sequence number
    /// then advances, saturating at its maximum.
    pub fn next_key(&mut self, ts: i64) -> (key: String)
        ensures
            key@ == record_key(ts as int, old(self).seq as int),
            final(self).seq == if old(self).seq == u64::MAX {
                u64::MAX
            } else {
                (old(self).seq + 1) as u64
            },
    {
        let t = if ts < 0 {
            0
        } else {
            ts
        };
        let head = format_padded(t, 20);
        let tail = format_padded_u64(self.seq, 20);
        self.seq = self.seq.saturating_add(1);
        head.concat("_").concat(tail.as_str())
    }
}

/// The smallest key of the records stored at time `ts` or later.
pub fn start_key(ts: i64) -> (key: String)
    ensures
        key@ == range_start_key(ts as int),
{
    format_padded(ts, 20).concat("_")
}

/// The timestamp a record key begins with: its first 20 bytes read as a
/// number; `None` for a shorter key or one that does not begin with one.
pub fn parse_ts_from_key(key: &[u8]) -> (r: Option<i64>)
    ensures
        r == key_ts(key@),
{
    if key.len() < 20 {
        return None;
    }
    let head = &key[0..20];
    proof {
        assert(head@ =~= key@.take(20));
    }
    parse_i64(head)
}

/// The file an export writes to when none is named: `<symbol>_nps.csv` for
/// position records, `<symbol>_orders.csv` for anything else.
pub fn default_export_path(symbol: &str, kind: &str) -> (r: String)
    ensures
        r@ == symbol@ + if kind@ == "nps"@ {
            "_nps.csv"@
        } else {
            "_orders.csv"@
        },
{
    if str_eq(kind, "nps") {
        symbol.to_owned().concat("_nps.csv")
    } else {
        symbol.to_owned().concat("_orders.csv")
    }
}

/// The time an order record belongs to: its update time when it has one
/// (positive), else its creation time.
pub fn record_ts_orders(create_ts: i64, update_ts: i64) -> (r: i64)
    ensures
        r == if update_ts > 0 {
            update_ts
        } else {
            create_ts
        },
{
    if update_ts > 0 {
        update_ts
    } else {
        create_ts
    }
}

/// A record key carries its timestamp: reading the timestamp back from the
/// key written for a record gives the time it was stored at (clamped at zero).
pub proof fn law_key_carries_timestamp(ts: i64, seq: u64)
    ensures
        key_ts(ascii_bytes(record_key(ts as int, seq as int))) == Some(if ts < 0 {
            0i64
        } else {
            ts
        }),
{
    let t: nat = if ts < 0 {
        0
    } else {
        ts as nat
    };
    let d = dec_digits(t);
    assert(pow10(19) == 10000000000000000000nat) by {
        reveal_with_fuel(pow10, 20);
    }
    lemma_digits_len(t, 19);
    lemma_digits_value(t);
    let head = zero_pad(d, 20);
    let k = record_key(ts as int, seq as int);
    assert(head.len() == 20);
    assert(k.take(20) =~= head);
    let zeros = Seq::new((20 - d.len()) as nat, |i: int| 48u8);
    let hb = ascii_bytes(head);
    assert(hb =~= zeros + ascii_bytes(d));
    assert(ascii_bytes(k).take(20) =~= hb);
    lemma_leading_zeros((20 - d.len()) as nat, ascii_bytes(d));
    assert(hb[0] == 48u8);
    assert(unsigned_part(hb) == hb);
    assert forall|i: int| 0 <= i < hb.len() implies is_digit_byte(#[trigger] hb[i]) by {
        if i >= 20 - d.len() {
            assert(hb[i] == ascii_bytes(d)[i - (20 - d.len())]);
        }
    }
    assert(digits_value(hb) == t);
}

/// Why an export request is refused.
pub enum ExportArgsError {
    /// No symbol named.
    MissingSymbol,
    /// A kind other than `orders` or `nps`.
    BadKind,
}

impl ExportArgsError {
    /// The error's text.
    pub fn message(&self) -> (r: &'static str)
        ensures
            self is MissingSymbol ==> r@ == "export requires --symbol"@,
            self is BadKind ==> r@ == "export --kind must be orders or nps"@,
    {
        match self {
            ExportArgsError::MissingSymbol => "export requires --symbol",
            ExportArgsError::BadKind => "export --kind must be orders or nps",
        }
    }
}

/// Checks an export request: it needs a symbol, and a kind of `orders` or `nps`.
pub fn check_export_args(symbol: &str, kind: &str) -> (r: Result<(), ExportArgsError>)
    ensures
        symbol@.len() == 0 ==> (r matches Err(ExportArgsError::MissingSymbol)),
        symbol@.len() > 0 && kind@ != "orders"@ && kind@ != "nps"@ ==> (r matches Err(
            ExportArgsError::BadKind,
        )),
        symbol@.len() > 0 && (kind@ == "orders"@ || kind@ == "nps"@) ==> r is Ok,
{
    if symbol.is_empty() {
        return Err(ExportArgsError::MissingSymbol);
    }
    if !str_eq(kind, "orders") && !str_eq(kind, "nps") {
        return Err(ExportArgsError::BadKind);
    }
    Ok(())
}

/// The progress of an export that walks stored records in key order: it
/// stops before the first record whose key reads a time after `end_ts`, and
/// after writing `limit` rows (at least one).
pub struct ExportCursor {
    pub end_ts: Option<i64>,
    pub limit: Option<usize>,
    pub written: usize,
}

impl ExportCursor {
    /// An export that has written nothing.
    pub fn new(end_ts: Option<i64>, limit: Option<usize>) -> (r: Self)
        ensures
            r.end_ts == end_ts,
            r.limit == limit,
            r.written == 0,
    {
        ExportCursor { end_ts, limit, written: 0 }
    }

    /// Whether the record under `key` is written: not when its key reads a
    /// time after the end time (a key that reads no time is written).
    pub fn admits(&self, key: &[u8]) -> (r: bool)
        ensures
            r == !(self.end_ts matches Some(e) && (key_ts(key@) matches Some(t) && t > e)),
    {
        match self.end_ts {
            None => true,
            Some(e) => match parse_ts_from_key(key) {
                Some(t) => t <= e,
                None => true,
            },
        }
    }

    /// Counts a written row; reports whether the export goes on (false once
    /// the limit is reached).
    pub fn wrote(&mut self) -> (go_on: bool)
        requires
            old(self).written < usize::MAX,
        ensures
            final(self).written == old(self).written + 1,
            final(self).end_ts == old(self).end_ts,
            final(self).limit == old(self).limit,
            go_on == !(old(self).limit matches Some(l) && final(self).written >= l),
    {
        self.written = self.written + 1;
        match self.limit {
            Some(l) => self.written < l,
            None => true,
        }
    }
}

/// The first line of piece `i` when `total` lines are split into `k`
/// pieces whose lengths differ by at most one, the longer ones first.
pub open spec fn piece_start(total: int, k: int, i: int) -> int {
    i * (total / k) + if i < total % k {
        i
    } else {
        total % k
    }
}

proof fn lemma_piece_start(total: int, k: int, i: int)
    requires
        total >= 0,
        k > 0,
        0 <= i < k,
    ensures
        piece_start(total, k, i + 1) - piece_start(total, k, i) == total / k + if i < total % k {
            1int
        } else {
            0int
        },
        0 <= piece_start(total, k, i) <= piece_start(total, k, i + 1) <= total,
{
    let q = total / k;
    let m = total % k;
    vstd::arithmetic::div_mod::lemma_fundamental_div_mod(total, k);
    vstd::arithmetic::div_mod::lemma_mod_pos_bound(total, k);
    vstd::arithmetic::div_mod::lemma_div_pos_is_pos(total, k);
    assert((i + 1) * q == i * q + q) by (nonlinear_arith);
    assert(0 <= i * q && (i + 1) * q <= k * q) by (nonlinear_arith)
        requires
            0 <= i < k,
            q >= 0,
    ;
    assert(k * q == total - m) by (nonlinear_arith)
        requires
            total == k * q + m,
    ;
}

/// The line bounds (first line, one past the last) of the `split_count`
/// pieces a file of `total_lines` lines is split into: exactly
/// `split_count` pieces, one after the other from the first line to the
/// last, whose lengths differ by at most one, the longer ones first.
pub fn split_bounds(total_lines: usize, split_count: usize) -> (r: Vec<(usize, usize)>)
    requires
        split_count > 0,
    ensures
        r@.len() == split_count,
        forall|i: int|
            0 <= i < split_count ==> (#[trigger] r@[i]).0 == piece_start(
                total_lines as int,
                split_count as int,
                i,
            ) && r@[i].1 == piece_start(total_lines as int, split_count as int, i + 1),
        r@[0].0 == 0,
        r@[split_count - 1].1 == total_lines,
        forall|i: int| 0 < i < split_count ==> #[trigger] r@[i].0 == r@[i - 1].1,
        forall|i: int|
            0 <= i < split_count ==> (#[trigger] r@[i]).1 - r@[i].0 == total_lines / split_count + if i
                < total_lines % split_count {
                1int
            } else {
                0int
            },
{
    let q = total_lines / split_count;
    let m = total_lines % split_count;
    let mut r: Vec<(usize, usize)> = Vec::new();
    let mut start: usize = 0;
    let mut i: usize = 0;
    proof {
        let t = total_lines as int;
        let k = split_count as int;
        vstd::arithmetic::div_mod::lemma_fundamental_div_mod(t, k);
        assert(piece_start(t, k, 0) == 0) by {
            assert(0 * (t / k) == 0) by (nonlinear_arith);
        }
        assert(piece_start(t, k, k) == t) by {
            vstd::arithmetic::div_mod::lemma_mod_pos_bound(t, k);
            assert(k * (t / k) == (t / k) * k) by (nonlinear_arith);
        }
    }
    while i < split_count
        invariant
            split_count > 0,
            q == total_lines / split_count,
            m == total_lines % split_count,
            i <= split_count,
            start == piece_start(total_lines as int, split_count as int, i as int),
            piece_start(total_lines as int, split_count as int, split_count as int) == total_lines,
            r@.len() == i,
            forall|j: int|
                0 <= j < i ==> (#[trigger] r@[j]).0 == piece_start(
                    total_lines as int,
                    split_count as int,
                    j,
                ) && r@[j].1 == piece_start(total_lines as int, split_count as int, j + 1),
        decreases split_count - i,
    {
        proof {
            lemma_piece_start(total_lines as int, split_count as int, i as int);
        }
        let len = if i < m {
            q + 1
        } else {
            q
        };
        let end = start + len;
        r.push((start, end));
        start = end;
        i = i + 1;
    }
    proof {
        let t = total_lines as int;
        let k = split_count as int;
        assert forall|j: int| 0 <= j < k implies (#[trigger] r@[j]).1 - r@[j].0 == t / k + if j < t % k {
            1int
        } else {
            0int
        } by {
            lemma_piece_start(t, k, j);
        }
        assert forall|j: int| 0 < j < k implies #[trigger] r@[j].0 == r@[j - 1].1 by {
            assert(r@[j - 1].1 == piece_start(t, k, j));
        }
        assert(r@[0].0 == 0) by {
            assert(0 * (t / k) == 0) by (nonlinear_arith);
        }
    }
    r
}

/// The name of piece `index` (from 0) of a split file: the prefix, the
/// piece's number from 1 written with at least two digits, and `.csv`.
pub fn split_piece_name(prefix: &str, index: usize) -> (r: String)
    requires
        index < u64::MAX,
    ensures
        r@ == prefix@ + fmt_padded(index + 1, 2) + ".csv"@,
{
    let n = format_padded_u64((index as u64) + 1, 2);
    prefix.to_owned().concat(n.as_str()).concat(".csv")
}

/// Whether every character of `s` is a decimal digit.
pub open spec fn all_digits(s: Seq<char>) -> bool {
    forall|i: int| 0 <= i < s.len() ==> '0' <= #[trigger] s[i] <= '9'
}

/// The value of a text of decimal digits, read from its first digit.
pub open spec fn front_value(s: Seq<char>) -> int
    decreases s.len(),
{
    if s.len() == 0 {
        0
    } else {
        (s[0] as int - 48) * pow10((s.len() - 1) as nat) + front_value(s.skip(1))
    }
}

proof fn lemma_front_bound(s: Seq<char>)
    requires
        all_digits(s),
    ensures
        0 <= front_value(s) < pow10(s.len()),
    decreases s.len(),
{
    if s.len() > 0 {
        let t = s.skip(1);
        assert(all_digits(t)) by {
            assert forall|i: int| 0 <= i < t.len() implies '0' <= #[trigger] t[i] <= '9' by {
                assert(t[i] == s[i + 1]);
            }
        }
        lemma_front_bound(t);
        let p = pow10((s.len() - 1) as nat);
        let d = s[0] as int - 48;
        assert(0 <= d <= 9);
        assert(0 <= d * p + front_value(t) < 10 * p) by (nonlinear_arith)
            requires
                0 <= d <= 9,
                0 <= front_value(t) < p,
        ;
    }
}

proof fn lemma_front_push(s: Seq<char>, c: char)
    requires
        all_digits(s),
        '0' <= c <= '9',
    ensures
        front_value(s.push(c)) == 10 * front_value(s) + (c as int - 48),
    decreases s.len(),
{
    if s.len() > 0 {
        let t = s.skip(1);
        assert(all_digits(t)) by {
            assert forall|i: int| 0 <= i < t.len() implies '0' <= #[trigger] t[i] <= '9' by {
                assert(t[i] == s[i + 1]);
            }
        }
        lemma_front_push(t, c);
        let w = s.push(c);
        assert(w.skip(1) =~= t.push(c));
        assert(w[0] == s[0]);
        let p = pow10((s.len() - 1) as nat);
        let d = s[0] as int - 48;
        assert(pow10(s.len()) == 10 * p);
        assert(front_value(w) == d * pow10(s.len()) + front_value(t.push(c)));
        assert(front_value(s) == d * p + front_value(t));
        assert(d * (10 * p) == 10 * (d * p)) by (nonlinear_arith);
    } else {
        let w = s.push(c);
        assert(w.skip(1) =~= Seq::<char>::empty());
        assert(pow10(0) == 1);
        assert(w[0] == c);
        assert(front_value(w) == (c as int - 48) * pow10(0) + front_value(w.skip(1)));
    }
}

proof fn lemma_front_digits(n: nat)
    ensures
        all_digits(dec_digits(n)),
        front_value(dec_digits(n)) == n,
    decreases n,
{
    let d = dec_digits(n);
    if n < 10 {
        assert(d[0] as int == 48 + n);
        assert(d.skip(1) =~= Seq::<char>::empty());
        assert(pow10(0) == 1);
        assert(front_value(d) == (d[0] as int - 48) * pow10(0) + front_value(d.skip(1)));
    } else {
        lemma_front_digits(n / 10);
        let c = crate::decimal::digit_char((n % 10) as int);
        assert(c as int == 48 + n % 10);
        lemma_front_push(dec_digits(n / 10), c);
        assert forall|i: int| 0 <= i < d.len() implies '0' <= #[trigger] d[i] <= '9' by {
            if i < d.len() - 1 {
                assert(d[i] == dec_digits(n / 10)[i]);
            }
        }
    }
}

proof fn lemma_front_zeros(k: nat, s: Seq<char>)
    requires
        all_digits(s),
    ensures
        all_digits(Seq::new(k, |i: int| '0') + s),
        front_value(Seq::new(k, |i: int| '0') + s) == front_value(s),
    decreases k,
{
    let z = Seq::new(k, |i: int| '0') + s;
    assert forall|i: int| 0 <= i < z.len() implies '0' <= #[trigger] z[i] <= '9' by {
        if i >= k {
            assert(z[i] == s[i - k]);
        }
    }
    if k > 0 {
        lemma_front_zeros((k - 1) as nat, s);
        assert(z.skip(1) =~= Seq::new((k - 1) as nat, |i: int| '0') + s);
        assert(z[0] == '0');
        assert(front_value(z) == (z[0] as int - 48) * pow10((z.len() - 1) as nat) + front_value(z.skip(1)));
    } else {
        assert(z =~= s);
    }
}

proof fn lemma_padded(n: nat)
    requires
        n < pow10(20),
    ensures
        fmt_padded(n as int, 20).len() == 20,
        all_digits(fmt_padded(n as int, 20)),
        front_value(fmt_padded(n as int, 20)) == n,
{
    lemma_digits_len(n, 20);
    lemma_front_digits(n);
    let d = dec_digits(n);
    if d.len() < 20 {
        lemma_front_zeros((20 - d.len()) as nat, d);
    }
}

proof fn lemma_lt_digits(a: Seq<char>, b: Seq<char>)
    requires
        a.len() == b.len(),
        all_digits(a),
        all_digits(b),
    ensures
        seq_lt(a, b) <==> front_value(a) < front_value(b),
    decreases a.len(),
{
    if a.len() > 0 {
        let ta = a.skip(1);
        let tb = b.skip(1);
        assert(all_digits(ta)) by {
            assert forall|i: int| 0 <= i < ta.len() implies '0' <= #[trigger] ta[i] <= '9' by {
                assert(ta[i] == a[i + 1]);
            }
        }
        assert(all_digits(tb)) by {
            assert forall|i: int| 0 <= i < tb.len() implies '0' <= #[trigger] tb[i] <= '9' by {
                assert(tb[i] == b[i + 1]);
            }
        }
        lemma_front_bound(ta);
        lemma_front_bound(tb);
        let p = pow10((a.len() - 1) as nat);
        let da = a[0] as int - 48;
        let db = b[0] as int - 48;
        if da < db {
            assert(da * p + front_value(ta) < db * p + front_value(tb)) by (nonlinear_arith)
                requires
                    da < db,
                    0 <= front_value(ta) < p,
                    0 <= front_value(tb),
            ;
        } else if db < da {
            assert(db * p + front_value(tb) < da * p + front_value(ta)) by (nonlinear_arith)
                requires
                    db < da,
                    0 <= front_value(tb) < p,
                    0 <= front_value(ta),
            ;
        } else {
            lemma_lt_digits(ta, tb);
        }
    }
}

proof fn lemma_lt_concat(a: Seq<char>, x: Seq<char>, b: Seq<char>, y: Seq<char>)
    requires
        a.len() == b.len(),
    ensures
        seq_lt(a + x, b + y) == if a == b {
            seq_lt(x, y)
        } else {
            seq_lt(a, b)
        },
    decreases a.len(),
{
    if a.len() == 0 {
        assert(a =~= b);
        assert(a + x =~= x);
        assert(b + y =~= y);
    } else {
        assert((a + x)[0] == a[0]);
        assert((b + y)[0] == b[0]);
        assert((a + x).skip(1) =~= a.skip(1) + x);
        assert((b + y).skip(1) =~= b.skip(1) + y);
        lemma_lt_concat(a.skip(1), x, b.skip(1), y);
        if a[0] == b[0] {
            if a.skip(1) == b.skip(1) {
                assert(a =~= b) by {
                    assert forall|i: int| 0 <= i < a.len() implies a[i] == b[i] by {
                        if i > 0 {
                            assert(a[i] == a.skip(1)[i - 1]);
                        }
                    }
                }
            }
        }
    }
}

/// The time a record is stored at: negative times count as zero.
pub open spec fn stored_ts(ts: int) -> int {
    if ts < 0 {
        0
    } else {
        ts
    }
}

/// Record keys sort as their records were stored: by time, then by arrival
/// (sequence number); and the keys at or after the start key of time `from`
/// are exactly those of records stored at `from` or later.
pub proof fn law_keys_sort_by_time_then_arrival(t1: i64, s1: u64, t2: i64, s2: u64, from: i64)
    ensures
        seq_lt(record_key(t1 as int, s1 as int), record_key(t2 as int, s2 as int)) <==> (stored_ts(
            t1 as int,
        ) < stored_ts(t2 as int) || (stored_ts(t1 as int) == stored_ts(t2 as int) && s1 < s2)),
        seq_lt(range_start_key(from as int), record_key(t1 as int, s1 as int)) <==> from <= stored_ts(
            t1 as int,
        ),
{
    reveal_strlit("_");
    assert(pow10(20) == 100000000000000000000nat) by {
        reveal_with_fuel(pow10, 21);
    }
    let c1 = stored_ts(t1 as int);
    let c2 = stored_ts(t2 as int);
    lemma_padded(c1 as nat);
    lemma_padded(c2 as nat);
    lemma_padded(s1 as nat);
    lemma_padded(s2 as nat);
    let p1 = fmt_padded(c1, 20);
    let p2 = fmt_padded(c2, 20);
    let q1 = fmt_padded(s1 as int, 20);
    let q2 = fmt_padded(s2 as int, 20);
    let u = "_"@;
    assert(record_key(t1 as int, s1 as int) =~= p1 + (u + q1));
    assert(record_key(t2 as int, s2 as int) =~= p2 + (u + q2));
    lemma_lt_concat(p1, u + q1, p2, u + q2);
    lemma_lt_concat(u, q1, u, q2);
    lemma_lt_digits(p1, p2);
    lemma_lt_digits(q1, q2);
    if p1 == p2 {
        assert(c1 == c2);
    }
    if c1 == c2 {
        assert(p1 == p2);
    }
    let k1 = record_key(t1 as int, s1 as int);
    if from >= 0 {
        lemma_padded(from as nat);
        let pf = fmt_padded(from as int, 20);
        assert(range_start_key(from as int) =~= pf + u);
        lemma_lt_concat(pf, u, p1, u + q1);
        lemma_lt_digits(pf, p1);
        if pf == p1 {
            assert(from == c1);
            assert(seq_lt(u, u + q1)) by {
                assert(u.len() == 1);
                assert(q1.len() == 20);
                assert(seq_lt(Seq::<char>::empty(), q1));
                assert((u + q1)[0] == u[0]);
                assert(u.skip(1) =~= Seq::<char>::empty());
                assert((u + q1).skip(1) =~= q1);
            }
        }
        if from as int == c1 {
            assert(pf == p1);
        }
    } else {
        let st = range_start_key(from as int);
        assert(st[0] == '-');
        assert(k1[0] == p1[0]);
        assert('0' <= p1[0] <= '9');
    }
}

} // verus!
