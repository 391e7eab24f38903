//! Counters of the records a recorder receives between two summary lines,
//! per kind and per symbol, and the text of those summaries.
use vstd::prelude::*;
use crate::decimal::{dec_digits, fmt_padded, format_padded, push_digits};
use crate::text::{chars_of, push_all, str_eq};

verus! {

/// Strict lexicographic order of character sequences, by code point (the
/// order `String`'s `Ord` gives, since UTF-8 keeps code-point order).
pub open spec fn seq_lt(a: Seq<char>, b: Seq<char>) -> bool
    decreases a.len(),
{
    if b.len() == 0 {
        false
    } else if a.len() == 0 {
        true
    } else if a[0] != b[0] {
        a[0] < b[0]
    } else {
        seq_lt(a.skip(1), b.skip(1))
    }
}

proof fn lemma_lt_irreflexive(a: Seq<char>)
    ensures
        !seq_lt(a, a),
    decreases a.len(),
{
    if a.len() > 0 {
        lemma_lt_irreflexive(a.skip(1));
    }
}

proof fn lemma_lt_total(a: Seq<char>, b: Seq<char>)
    requires
        a != b,
    ensures
        seq_lt(a, b) || seq_lt(b, a),
    decreases a.len(),
{
    if a.len() > 0 && b.len() > 0 && a[0] == b[0] {
        if a.skip(1) == b.skip(1) {
            assert(a =~= seq![a[0]] + a.skip(1));
            assert(b =~= seq![b[0]] + b.skip(1));
        }
        lemma_lt_total(a.skip(1), b.skip(1));
    } else if a.len() == 0 && b.len() == 0 {
        assert(a =~= b);
    }
}

pub proof fn lemma_lt_asym(a: Seq<char>, b: Seq<char>)
    requires
        seq_lt(a, b),
    ensures
        !seq_lt(b, a),
        a != b,
    decreases a.len(),
{
    if a.len() > 0 && b.len() > 0 && a[0] == b[0] {
        lemma_lt_asym(a.skip(1), b.skip(1));
    }
}

proof fn lemma_lt_trans(a: Seq<char>, b: Seq<char>, c: Seq<char>)
    requires
        seq_lt(a, b),
        seq_lt(b, c),
    ensures
        seq_lt(a, c),
    decreases a.len(),
{
    if a.len() > 0 && b.len() > 0 && c.len() > 0 && a[0] == b[0] && b[0] == c[0] {
        lemma_lt_trans(a.skip(1), b.skip(1), c.skip(1));
    }
}

/// The order of two texts: negative, zero or positive as `a` sorts before,
/// equal to, or after `b`.
fn compare_text(a: &Vec<char>, b: &Vec<char>) -> (r: i8)
    ensures
        r < 0 <==> seq_lt(a@, b@),
        r == 0 <==> a@ == b@,
        r > 0 <==> seq_lt(b@, a@),
{
    let mut i: usize = 0;
    proof {
        assert(a@.skip(0) =~= a@);
        assert(b@.skip(0) =~= b@);
        assert(a@.take(0) =~= b@.take(0));
    }
    while i < a.len() && i < b.len() && a[i] == b[i]
        invariant
            i <= a@.len(),
            i <= b@.len(),
            a@.take(i as int) == b@.take(i as int),
            seq_lt(a@, b@) == seq_lt(a@.skip(i as int), b@.skip(i as int)),
            seq_lt(b@, a@) == seq_lt(b@.skip(i as int), a@.skip(i as int)),
        decreases a.len() - i,
    {
        proof {
            let sa = a@.skip(i as int);
            let sb = b@.skip(i as int);
            assert(sa.skip(1) =~= a@.skip(i + 1));
            assert(sb.skip(1) =~= b@.skip(i + 1));
            assert(a@.take(i + 1) =~= a@.take(i as int).push(a@[i as int]));
            assert(b@.take(i + 1) =~= b@.take(i as int).push(b@[i as int]));
        }
        i = i + 1;
    }
    proof {
        lemma_lt_irreflexive(a@);
        if a@ != b@ {
            lemma_lt_total(a@, b@);
        }
        if seq_lt(a@, b@) {
            lemma_lt_asym(a@, b@);
        }
        if seq_lt(b@, a@) {
            lemma_lt_asym(b@, a@);
        }
    }
    if i < a.len() && i < b.len() {
        if a[i] < b[i] {
            -1
        } else {
            1
        }
    } else if i < b.len() {
        -1
    } else if i < a.len() {
        1
    } else {
        proof {
            assert(a@ =~= a@.take(i as int));
            assert(b@ =~= b@.take(i as int));
        }
        0
    }
}

/// Whether the keys of `es` are strictly increasing.
pub open spec fn sorted_keys(es: Seq<(Seq<char>, u64)>) -> bool {
    forall|i: int, j: int| 0 <= i < j < es.len() ==> seq_lt(#[trigger] es[i].0, #[trigger] es[j].0)
}

/// The summary text of one count: `symbol=count`.
pub open spec fn entry_text(e: (Seq<char>, u64)) -> Seq<char> {
    e.0 + "="@ + dec_digits(e.1 as nat)
}

/// The summary texts of `es`, joined by `,`.
pub open spec fn join_entries(es: Seq<(Seq<char>, u64)>) -> Seq<char>
    decreases es.len(),
{
    if es.len() == 0 {
        Seq::empty()
    } else if es.len() == 1 {
        entry_text(es[0])
    } else {
        join_entries(es.drop_last()) + ","@ + entry_text(es.last())
    }
}

/// Counts per symbol, kept in increasing order of symbol.
pub struct SymbolCounts {
    entries: Vec<(String, u64)>,
}

impl SymbolCounts {
    /// The (symbol, count) pairs, in increasing order of symbol.
    pub closed spec fn view(&self) -> Seq<(Seq<char>, u64)> {
        self.entries@.map_values(|e: (String, u64)| (e.0@, e.1))
    }

    /// The pairs are in strictly increasing order of symbol.
    pub closed spec fn wf(&self) -> bool {
        sorted_keys(self.view())
    }

    /// No counts.
    pub fn new() -> (r: Self)
        ensures
            r.wf(),
            r.view() == Seq::<(Seq<char>, u64)>::empty(),
    {
        let r = SymbolCounts { entries: Vec::new() };
        proof {
            assert(r.view() =~= Seq::<(Seq<char>, u64)>::empty());
        }
        r
    }

    /// The count of `symbol`, zero when it has none.
    pub open spec fn count_of(&self, symbol: Seq<char>) -> u64 {
        if exists|i: int| 0 <= i < self.view().len() && self.view()[i].0 == symbol {
            self.view()[choose|i: int| 0 <= i < self.view().len() && self.view()[i].0 == symbol].1
        } else {
            0
        }
    }

    /// The count of `symbol`, zero when it has none.
    pub fn count(&self, symbol: &str) -> (r: u64)
        requires
            self.wf(),
        ensures
            r == self.count_of(symbol@),
    {
        let ghost v = self.view();
        let mut i: usize = 0;
        while i < self.entries.len()
            invariant
                self.wf(),
                v == self.view(),
                i <= v.len(),
                v.len() == self.entries@.len(),
                forall|j: int| 0 <= j < i ==> v[j].0 != symbol@,
            decreases self.entries.len() - i,
        {
            if str_eq(self.entries[i].0.as_str(), symbol) {
                proof {
                    assert(v[i as int].0 == symbol@);
                    let j = choose|j: int| 0 <= j < v.len() && v[j].0 == symbol@;
                    if j != i as int {
                        if j < i as int {
                            assert(seq_lt(v[j].0, v[i as int].0));
                        } else {
                            assert(seq_lt(v[i as int].0, v[j].0));
                        }
                        lemma_lt_irreflexive(symbol@);
                    }
                }
                return self.entries[i].1;
            }
            i = i + 1;
        }
        0
    }

    /// Adds one to the count of `symbol`, which must be below the maximum.
    pub fn increment(&mut self, symbol: &str)
        requires
            old(self).wf(),
            old(self).count_of(symbol@) < u64::MAX,
        ensures
            final(self).wf(),
            (exists|i: int|
                0 <= i < old(self).view().len() && old(self).view()[i].0 == symbol@ && final(self).view() == old(self).view().update(i, (symbol@, (old(self).view()[i].1 + 1) as u64)))
                || (exists|p: int|
                0 <= p <= old(self).view().len() && (forall|i: int|
                    0 <= i < old(self).view().len() ==> old(self).view()[i].0 != symbol@) && final(self).view() == old(self).view().insert(p, (symbol@, 1u64))),
    {
        let key = chars_of(symbol);
        let ghost es = self.view();
        let mut i: usize = 0;
        while i < self.entries.len()
            invariant
                i <= self.entries@.len(),
                es == self.view(),
                es.len() == self.entries@.len(),
                self.wf(),
                key@ == symbol@,
                old(self).view() == es,
                old(self).count_of(symbol@) < u64::MAX,
                forall|j: int| 0 <= j < i ==> seq_lt(#[trigger] es[j].0, symbol@),
            decreases self.entries.len() - i,
        {
            let ek = chars_of(self.entries[i].0.as_str());
            let c = compare_text(&key, &ek);
            proof {
                assert(es[i as int].0 == ek@);
            }
            if c == 0 {
                proof {
                    assert(old(self).count_of(symbol@) == es[i as int].1) by {
                        let w = choose|w: int| 0 <= w < es.len() && es[w].0 == symbol@;
                        if w != i {
                            if w < i {
                                lemma_lt_asym(es[w].0, symbol@);
                            } else {
                                lemma_lt_asym(es[i as int].0, es[w].0);
                            }
                        }
                    }
                }
                let n = self.entries[i].1 + 1;
                let name = self.entries[i].0.clone();
                self.entries.set(i, (name, n));
                proof {
                    assert(self.view() =~= es.update(i as int, (symbol@, n)));
                    assert forall|a: int, b: int| 0 <= a < b < self.view().len() implies seq_lt(
                        #[trigger] self.view()[a].0,
                        #[trigger] self.view()[b].0,
                    ) by {
                        assert(es[a].0 == self.view()[a].0);
                        assert(es[b].0 == self.view()[b].0);
                    }
                }
                return;
            }
            if c < 0 {
                self.entries.insert(i, (symbol.to_owned(), 1));
                proof {
                    assert(self.view() =~= es.insert(i as int, (symbol@, 1u64)));
                    assert forall|j: int| 0 <= j < es.len() implies es[j].0 != symbol@ by {
                        if j < i {
                            lemma_lt_asym(es[j].0, symbol@);
                        } else {
                            if j > i {
                                lemma_lt_trans(symbol@, es[i as int].0, es[j].0);
                            }
                            lemma_lt_asym(symbol@, es[j].0);
                        }
                    }
                    assert forall|a: int, b: int| 0 <= a < b < self.view().len() implies seq_lt(
                        #[trigger] self.view()[a].0,
                        #[trigger] self.view()[b].0,
                    ) by {
                        let v = self.view();
                        if b == i {
                            assert(v[a] == es[a]);
                        } else if a == i {
                            assert(v[b] == es[b - 1]);
                            if b - 1 > i {
                                lemma_lt_trans(symbol@, es[i as int].0, es[b - 1].0);
                            }
                        } else if b < i {
                            assert(v[a] == es[a] && v[b] == es[b]);
                        } else if a < i {
                            assert(v[a] == es[a] && v[b] == es[b - 1]);
                        } else {
                            assert(v[a] == es[a - 1] && v[b] == es[b - 1]);
                        }
                    }
                }
                return;
            }
            i = i + 1;
        }
        self.entries.push((symbol.to_owned(), 1));
        proof {
            assert(self.view() =~= es.insert(es.len() as int, (symbol@, 1u64)));
            assert forall|j: int| 0 <= j < es.len() implies es[j].0 != symbol@ by {
                lemma_lt_asym(es[j].0, symbol@);
            }
            assert forall|a: int, b: int| 0 <= a < b < self.view().len() implies seq_lt(
                #[trigger] self.view()[a].0,
                #[trigger] self.view()[b].0,
            ) by {
                let v = self.view();
                assert(v[a] == es[a]);
                if b < es.len() {
                    assert(v[b] == es[b]);
                }
            }
        }
    }

    /// Drops every count.
    pub fn clear(&mut self)
        ensures
            final(self).wf(),
            final(self).view() == Seq::<(Seq<char>, u64)>::empty(),
    {
        self.entries.clear();
        proof {
            assert(self.view() =~= Seq::<(Seq<char>, u64)>::empty());
        }
    }

    /// Whether there are no counts.
    pub fn is_empty(&self) -> (r: bool)
        ensures
            r == (self.view().len() == 0),
    {
        self.entries.len() == 0
    }
}

/// The summary of per-symbol counts: `-` when there are none, else
/// `symbol=count` for each symbol in increasing order, joined by `,`.
pub open spec fn counts_text(es: Seq<(Seq<char>, u64)>) -> Seq<char> {
    if es.len() == 0 {
        "-"@
    } else {
        join_entries(es)
    }
}

/// The summary of per-symbol counts, such as `btc_usdt=3,eth_usdt=1`.
pub fn format_symbol_counts(map: &SymbolCounts) -> (r: String)
    ensures
        r@ == counts_text(map.view()),
{
    if map.is_empty() {
        return "-".to_owned();
    }
    let mut out = String::new();
    let mut i: usize = 0;
    while i < map.entries.len()
        invariant
            i <= map.entries@.len(),
            map.entries@.len() > 0,
            out@ == join_entries(map.view().take(i as int)),
        decreases map.entries.len() - i,
    {
        let ghost es = map.view();
        proof {
            assert(es.take(i + 1).drop_last() =~= es.take(i as int));
            assert(es.take(i + 1).last() == es[i as int]);
        }
        if i > 0 {
            push_all(&mut out, &chars_of(","));
        }
        let name = chars_of(map.entries[i].0.as_str());
        push_all(&mut out, &name);
        push_all(&mut out, &chars_of("="));
        push_digits(&mut out, map.entries[i].1);
        proof {
            let e = es[i as int];
            assert(e.0 == name@);
            if i == 0 {
                assert(es.take(1).len() == 1);
                assert(out@ =~= entry_text(e));
            } else {
                assert(out@ =~= join_entries(es.take(i as int)) + ","@ + entry_text(e));
            }
        }
        i = i + 1;
    }
    proof {
        assert(map.view().take(i as int) =~= map.view());
    }
    out
}

/// What the recorder has received since its last summary.
pub struct RecvStats {
    pub orders_total: u64,
    pub nps_total: u64,
    pub orders_by_symbol: SymbolCounts,
    pub nps_by_symbol: SymbolCounts,
    pub last_orders_ts: Option<i64>,
    pub last_nps_ts: Option<i64>,
}

/// One summary of what the recorder received in an interval.
pub struct RecvSummary {
    pub orders: u64,
    pub nps: u64,
    pub orders_last_ts: String,
    pub nps_last_ts: String,
    pub orders_detail: String,
    pub nps_detail: String,
}

/// The text of the last time seen: `-` when none was seen, else the number.
pub open spec fn last_ts_text(ts: Option<i64>) -> Seq<char> {
    match ts {
        Some(v) => fmt_padded(v as int, 1),
        None => "-"@,
    }
}

fn last_ts_string(ts: Option<i64>) -> (r: String)
    ensures
        r@ == last_ts_text(ts),
{
    match ts {
        Some(v) => format_padded(v, 1),
        None => "-".to_owned(),
    }
}

impl RecvStats {
    /// The counters are well formed.
    pub open spec fn wf(&self) -> bool {
        self.orders_by_symbol.wf() && self.nps_by_symbol.wf()
    }

    /// Nothing received yet.
    pub fn new() -> (r: Self)
        ensures
            r.wf(),
            r.orders_total == 0,
            r.nps_total == 0,
            r.orders_by_symbol.view().len() == 0,
            r.nps_by_symbol.view().len() == 0,
            r.last_orders_ts is None,
            r.last_nps_ts is None,
    {
        RecvStats {
            orders_total: 0,
            nps_total: 0,
            orders_by_symbol: SymbolCounts::new(),
            nps_by_symbol: SymbolCounts::new(),
            last_orders_ts: None,
            last_nps_ts: None,
        }
    }

    /// Counts an order record of `symbol` stored at time `ts`.
    pub fn on_orders(&mut self, symbol: &str, ts: i64)
        requires
            old(self).wf(),
            old(self).orders_total < u64::MAX,
            old(self).orders_by_symbol.count_of(symbol@) < u64::MAX,
        ensures
            final(self).wf(),
            final(self).orders_total == old(self).orders_total + 1,
            final(self).last_orders_ts == Some(ts),
            final(self).nps_total == old(self).nps_total,
            final(self).nps_by_symbol == old(self).nps_by_symbol,
            final(self).last_nps_ts == old(self).last_nps_ts,
            (exists|i: int|
                0 <= i < old(self).orders_by_symbol.view().len()
                    && old(self).orders_by_symbol.view()[i].0 == symbol@ && final(self).orders_by_symbol.view() == old(self).orders_by_symbol.view().update(
                    i,
                    (symbol@, (old(self).orders_by_symbol.view()[i].1 + 1) as u64),
                )) || (exists|p: int|
                0 <= p <= old(self).orders_by_symbol.view().len() && (forall|i: int|
                    0 <= i < old(self).orders_by_symbol.view().len() ==> old(self).orders_by_symbol.view()[i].0 != symbol@) && final(self).orders_by_symbol.view() == old(self).orders_by_symbol.view().insert(
                    p,
                    (symbol@, 1u64),
                )),
    {
        self.orders_total = self.orders_total + 1;
        self.orders_by_symbol.increment(symbol);
        self.last_orders_ts = Some(ts);
    }

    /// Counts a position record of `symbol` stored at time `ts`.
    pub fn on_nps(&mut self, symbol: &str, ts: i64)
        requires
            old(self).wf(),
            old(self).nps_total < u64::MAX,
            old(self).nps_by_symbol.count_of(symbol@) < u64::MAX,
        ensures
            final(self).wf(),
            final(self).nps_total == old(self).nps_total + 1,
            final(self).last_nps_ts == Some(ts),
            final(self).orders_total == old(self).orders_total,
            final(self).orders_by_symbol == old(self).orders_by_symbol,
            final(self).last_orders_ts == old(self).last_orders_ts,
            (exists|i: int|
                0 <= i < old(self).nps_by_symbol.view().len()
                    && old(self).nps_by_symbol.view()[i].0 == symbol@ && final(self).nps_by_symbol.view() == old(self).nps_by_symbol.view().update(
                    i,
                    (symbol@, (old(self).nps_by_symbol.view()[i].1 + 1) as u64),
                )) || (exists|p: int|
                0 <= p <= old(self).nps_by_symbol.view().len() && (forall|i: int|
                    0 <= i < old(self).nps_by_symbol.view().len() ==> old(self).nps_by_symbol.view()[i].0 != symbol@) && final(self).nps_by_symbol.view() == old(self).nps_by_symbol.view().insert(
                    p,
                    (symbol@, 1u64),
                )),
    {
        self.nps_total = self.nps_total + 1;
        self.nps_by_symbol.increment(symbol);
        self.last_nps_ts = Some(ts);
    }

    /// When a summary is `due` (the interval has passed), the summary of
    /// what was received, after which every counter starts again from
    /// nothing; otherwise `None` and nothing changes.
    pub fn maybe_log(&mut self, due: bool) -> (r: Option<RecvSummary>)
        requires
            old(self).wf(),
        ensures
            final(self).wf(),
            !due ==> r is None && *final(self) == *old(self),
            due ==> (r matches Some(s) && s.orders == old(self).orders_total && s.nps == old(self).nps_total && s.orders_last_ts@ == last_ts_text(old(self).last_orders_ts)
                && s.nps_last_ts@ == last_ts_text(old(self).last_nps_ts) && s.orders_detail@
                == counts_text(old(self).orders_by_symbol.view()) && s.nps_detail@ == counts_text(
                old(self).nps_by_symbol.view(),
            )),
            due ==> final(self).orders_total == 0 && final(self).nps_total == 0
                && final(self).orders_by_symbol.view().len() == 0
                && final(self).nps_by_symbol.view().len() == 0 && final(self).last_orders_ts is None
                && final(self).last_nps_ts is None,
    {
        if !due {
            return None;
        }
        let summary = RecvSummary {
            orders: self.orders_total,
            nps: self.nps_total,
            orders_last_ts: last_ts_string(self.last_orders_ts),
            nps_last_ts: last_ts_string(self.last_nps_ts),
            orders_detail: format_symbol_counts(&self.orders_by_symbol),
            nps_detail: format_symbol_counts(&self.nps_by_symbol),
        };
        self.orders_total = 0;
        self.nps_total = 0;
        self.orders_by_symbol.clear();
        self.nps_by_symbol.clear();
        self.last_orders_ts = None;
        self.last_nps_ts = None;
        Some(summary)
    }
}

} // verus!
