//! The own orders resting on one side of a venue's book, grouped by price
//! level (by order key) in the order they arrived, and the counts taken over
//! them by signal and by duplicate key. What an order carries besides its
//! client id and those two keys is up to the caller.
use std::collections::BTreeMap;
use vstd::prelude::*;
use crate::text::str_eq;
use vstd::std_specs::iter::IteratorSpec;

verus! {

/// An own order in a queue: its client id, the signal it came from
/// (`from_key`), the key under which duplicates of it are recognised
/// (`dup_key`), and what else it carries.
pub struct PendingEntry<T> {
    pub client_order_id: String,
    pub from_key: String,
    pub dup_key: String,
    pub item: T,
}

/// Which orders a count takes in: those of a signal, those of a duplicate
/// key, or all of them.
#[derive(Clone, Copy, PartialEq, Eq, Debug)]
pub enum OrderField {
    FromKey,
    DupKey,
    Any,
}

/// Whether a count over `field` and `key` takes in the order `e`.
pub open spec fn selects<T>(e: PendingEntry<T>, field: OrderField, key: Seq<char>) -> bool {
    match field {
        OrderField::FromKey => e.from_key@ == key,
        OrderField::DupKey => e.dup_key@ == key,
        OrderField::Any => true,
    }
}

/// The places (price key, position in its level) of the orders that a
/// count over `field` and `key` takes in.
pub open spec fn slots<T>(m: Map<u64, Seq<PendingEntry<T>>>, field: OrderField, key: Seq<char>) -> Set<(u64, int)> {
    Set::new(|p: (u64, int)| m.contains_key(p.0) && 0 <= p.1 < m[p.0].len() && selects(m[p.0][p.1], field, key))
}

/// The own orders on one side of a book, by price key.
pub struct PendingOrdersInPos<T> {
    pub by_price: BTreeMap<u64, Vec<PendingEntry<T>>>,
}

/// The levels as sequences.
pub open spec fn levels_view<T>(m: Map<u64, Vec<PendingEntry<T>>>) -> Map<u64, Seq<PendingEntry<T>>> {
    m.map_values(|v: Vec<PendingEntry<T>>| v@)
}

/// A level without its first order of client id `id` (unchanged when it
/// has none).
pub open spec fn without_first<T>(v: Seq<PendingEntry<T>>, id: Seq<char>) -> Seq<PendingEntry<T>>
    decreases v.len(),
{
    if v.len() == 0 {
        v
    } else if v[0].client_order_id@ == id {
        v.skip(1)
    } else {
        seq![v[0]] + without_first(v.skip(1), id)
    }
}

/// The levels after a level `k` became `v`: an empty level is dropped.
pub open spec fn with_level<T>(m: Map<u64, Seq<PendingEntry<T>>>, k: u64, v: Seq<PendingEntry<T>>) -> Map<u64, Seq<PendingEntry<T>>> {
    if v.len() == 0 {
        m.remove(k)
    } else {
        m.insert(k, v)
    }
}

proof fn lemma_without_first_at<T>(v: Seq<PendingEntry<T>>, id: Seq<char>, i: int)
    requires
        0 <= i < v.len(),
        v[i].client_order_id@ == id,
        forall|j: int| 0 <= j < i ==> (#[trigger] v[j]).client_order_id@ != id,
    ensures
        without_first(v, id) == v.remove(i),
    decreases v.len(),
{
    if i > 0 {
        lemma_without_first_at(v.skip(1), id, i - 1);
        assert(seq![v[0]] + v.skip(1).remove(i - 1) =~= v.remove(i));
    }
}

proof fn lemma_without_first_absent<T>(v: Seq<PendingEntry<T>>, id: Seq<char>)
    requires
        forall|j: int| 0 <= j < v.len() ==> (#[trigger] v[j]).client_order_id@ != id,
    ensures
        without_first(v, id) == v,
    decreases v.len(),
{
    if v.len() > 0 {
        lemma_without_first_absent(v.skip(1), id);
        assert(seq![v[0]] + v.skip(1) =~= v);
    }
}

proof fn lemma_without_first_pushed<T>(v: Seq<PendingEntry<T>>, e: PendingEntry<T>)
    requires
        forall|j: int| 0 <= j < v.len() ==> (#[trigger] v[j]).client_order_id@ != e.client_order_id@,
    ensures
        without_first(v.push(e), e.client_order_id@) == v,
    decreases v.len(),
{
    let w = v.push(e);
    if v.len() == 0 {
        assert(w.skip(1) =~= v);
    } else {
        assert(w.skip(1) =~= v.skip(1).push(e));
        lemma_without_first_pushed(v.skip(1), e);
        assert(seq![v[0]] + v.skip(1) =~= v);
    }
}

/// Queuing an order under a client id that its level does not hold, then
/// taking that id off the level, leaves the queues as they were (levels are
/// never kept empty).
pub proof fn law_push_then_remove_restores<T>(m: Map<u64, Seq<PendingEntry<T>>>, k: u64, e: PendingEntry<T>)
    requires
        m.contains_key(k) ==> m[k].len() > 0,
        m.contains_key(k) ==> forall|j: int|
            0 <= j < m[k].len() ==> (#[trigger] m[k][j]).client_order_id@ != e.client_order_id@,
    ensures
        ({
            let level = if m.contains_key(k) {
                m[k]
            } else {
                Seq::empty()
            };
            let pushed = m.insert(k, level.push(e));
            with_level(pushed, k, without_first(pushed[k], e.client_order_id@)) == m
        }),
{
    let level = if m.contains_key(k) {
        m[k]
    } else {
        Seq::empty()
    };
    lemma_without_first_pushed(level, e);
    let pushed = m.insert(k, level.push(e));
    assert(pushed[k] == level.push(e));
    if m.contains_key(k) {
        assert(with_level(pushed, k, level) =~= m);
    } else {
        assert(with_level(pushed, k, level) =~= m);
    }
}

/// Whether a count over `field` and `key` takes in the order `e`.
fn matches_field<T>(e: &PendingEntry<T>, field: OrderField, key: &str) -> (r: bool)
    ensures
        r == selects(*e, field, key@),
{
    match field {
        OrderField::FromKey => str_eq(e.from_key.as_str(), key),
        OrderField::DupKey => str_eq(e.dup_key.as_str(), key),
        OrderField::Any => true,
    }
}

/// The places of a single level `v` at price key `k` that a count over
/// `field` and `key` takes in.
pub open spec fn level_slots<T>(k: u64, v: Seq<PendingEntry<T>>, field: OrderField, key: Seq<char>) -> Set<(u64, int)> {
    Set::new(|p: (u64, int)| p.0 == k && 0 <= p.1 < v.len() && selects(v[p.1], field, key))
}

/// The number of orders of a level `v` that a count over `field` and `key`
/// takes in.
pub open spec fn level_count<T>(v: Seq<PendingEntry<T>>, field: OrderField, key: Seq<char>) -> nat
    decreases v.len(),
{
    if v.len() == 0 {
        0
    } else {
        level_count(v.drop_last(), field, key) + if selects(v.last(), field, key) {
            1nat
        } else {
            0nat
        }
    }
}

proof fn lemma_level_slots_finite<T>(k: u64, v: Seq<PendingEntry<T>>, field: OrderField, key: Seq<char>)
    ensures
        level_slots(k, v, field, key).finite(),
        level_slots(k, v, field, key).len() == level_count(v, field, key),
    decreases v.len(),
{
    if v.len() == 0 {
        assert(level_slots(k, v, field, key) =~= Set::empty());
    } else {
        let w = v.drop_last();
        lemma_level_slots_finite(k, w, field, key);
        let s = level_slots(k, w, field, key);
        if selects(v.last(), field, key) {
            assert(!s.contains((k, w.len() as int)));
            assert(level_slots(k, v, field, key) =~= s.insert((k, w.len() as int)));
        } else {
            assert(level_slots(k, v, field, key) =~= s);
        }
    }
}

proof fn lemma_level_count_concat<T>(a: Seq<PendingEntry<T>>, b: Seq<PendingEntry<T>>, field: OrderField, key: Seq<char>)
    ensures
        level_count(a + b, field, key) == level_count(a, field, key) + level_count(b, field, key),
    decreases b.len(),
{
    if b.len() == 0 {
        assert(a + b =~= a);
    } else {
        lemma_level_count_concat(a, b.drop_last(), field, key);
        assert((a + b).drop_last() =~= a + b.drop_last());
        assert((a + b).last() == b.last());
    }
}

/// Splits the orders of a map into those of level `k` and the rest.
proof fn lemma_slots_split<T>(m: Map<u64, Seq<PendingEntry<T>>>, k: u64, field: OrderField, key: Seq<char>)
    requires
        m.dom().finite(),
        m.contains_key(k),
    ensures
        slots(m, field, key).len() == slots(m.remove(k), field, key).len() + level_count(m[k], field, key),
{
    let r = m.remove(k);
    lemma_slots_finite(r, field, key);
    lemma_level_slots_finite(k, m[k], field, key);
    let a = slots(r, field, key);
    let b = level_slots(k, m[k], field, key);
    assert(slots(m, field, key) =~= a + b);
    assert(a.disjoint(b));
    vstd::set_lib::lemma_set_disjoint_lens(a, b);
}

proof fn lemma_slots_finite<T>(m: Map<u64, Seq<PendingEntry<T>>>, field: OrderField, key: Seq<char>)
    requires
        m.dom().finite(),
    ensures
        slots(m, field, key).finite(),
    decreases m.dom().len(),
{
    if m.dom().len() == 0 {
        assert(m.dom() =~= Set::empty());
        assert(slots(m, field, key) =~= Set::empty());
    } else {
        let k = m.dom().choose();
        let r = m.remove(k);
        lemma_slots_finite(r, field, key);
        lemma_level_slots_finite(k, m[k], field, key);
        assert(slots(m, field, key) =~= slots(r, field, key).union(level_slots(k, m[k], field, key)));
    }
}

/// Queuing an order adds one to each count that takes it in and leaves
/// every other count as it was.
pub proof fn law_push_counts_once<T>(
    m: Map<u64, Seq<PendingEntry<T>>>,
    k: u64,
    e: PendingEntry<T>,
    field: OrderField,
    key: Seq<char>,
)
    requires
        m.dom().finite(),
    ensures
        ({
            let level = if m.contains_key(k) {
                m[k]
            } else {
                Seq::empty()
            };
            slots(m.insert(k, level.push(e)), field, key).len() == slots(m, field, key).len() + if selects(
                e,
                field,
                key,
            ) {
                1int
            } else {
                0int
            }
        }),
{
    let level = if m.contains_key(k) {
        m[k]
    } else {
        Seq::empty()
    };
    let pushed = m.insert(k, level.push(e));
    let before = slots(m, field, key);
    lemma_slots_finite(m, field, key);
    if selects(e, field, key) {
        let x = (k, level.len() as int);
        assert(!before.contains(x));
        assert(slots(pushed, field, key) =~= before.insert(x));
    } else {
        assert(slots(pushed, field, key) =~= before);
    }
}

proof fn lemma_with_level_count<T>(
    m: Map<u64, Seq<PendingEntry<T>>>,
    k: u64,
    w: Seq<PendingEntry<T>>,
    field: OrderField,
    key: Seq<char>,
)
    requires
        m.dom().finite(),
    ensures
        slots(with_level(m, k, w), field, key).len() == slots(m.remove(k), field, key).len()
            + level_count(w, field, key),
{
    if w.len() > 0 {
        let n = m.insert(k, w);
        lemma_slots_split(n, k, field, key);
        assert(n.remove(k) =~= m.remove(k));
    }
}

proof fn lemma_level_count_remove<T>(v: Seq<PendingEntry<T>>, i: int, field: OrderField, key: Seq<char>)
    requires
        0 <= i < v.len(),
    ensures
        level_count(v.remove(i), field, key) + (if selects(v[i], field, key) {
            1int
        } else {
            0int
        }) == level_count(v, field, key),
{
    let a = v.subrange(0, i);
    let b = v.subrange(i + 1, v.len() as int);
    let one = seq![v[i]];
    assert(v.remove(i) =~= a + b);
    assert(v =~= (a + one) + b);
    lemma_level_count_concat(a, b, field, key);
    lemma_level_count_concat(a + one, b, field, key);
    lemma_level_count_concat(a, one, field, key);
    assert(one.drop_last() =~= Seq::<PendingEntry<T>>::empty());
    assert(level_count(one.drop_last(), field, key) == 0);
    assert(level_count(one, field, key) == if selects(v[i], field, key) {
        1nat
    } else {
        0nat
    });
}

/// Taking the first order of client id `id` off level `k` takes one off
/// each count that took that order in and leaves every other count as it
/// was; when the level holds no order of that id, no count changes.
pub proof fn law_remove_counts_once<T>(
    m: Map<u64, Seq<PendingEntry<T>>>,
    k: u64,
    id: Seq<char>,
    field: OrderField,
    key: Seq<char>,
)
    requires
        m.dom().finite(),
        m.contains_key(k),
    ensures
        ({
            let v = m[k];
            let after = with_level(m, k, without_first(v, id));
            &&& (forall|j: int| 0 <= j < v.len() ==> (#[trigger] v[j]).client_order_id@ != id) ==> slots(
                after,
                field,
                key,
            ).len() == slots(m, field, key).len()
            &&& forall|i: int|
                0 <= i < v.len() && (#[trigger] v[i]).client_order_id@ == id && (forall|j: int|
                    0 <= j < i ==> (#[trigger] v[j]).client_order_id@ != id) ==> slots(after, field, key).len()
                    + (if selects(v[i], field, key) {
                    1int
                } else {
                    0int
                }) == slots(m, field, key).len()
        }),
{
    let v = m[k];
    let w = without_first(v, id);
    lemma_slots_split(m, k, field, key);
    lemma_with_level_count(m, k, w, field, key);
    if forall|j: int| 0 <= j < v.len() ==> (#[trigger] v[j]).client_order_id@ != id {
        lemma_without_first_absent(v, id);
    }
    assert forall|i: int|
        0 <= i < v.len() && (#[trigger] v[i]).client_order_id@ == id && (forall|j: int|
            0 <= j < i ==> (#[trigger] v[j]).client_order_id@ != id) implies slots(
        with_level(m, k, w),
        field,
        key,
    ).len() + (if selects(v[i], field, key) {
        1int
    } else {
        0int
    }) == slots(m, field, key).len() by {
        lemma_without_first_at(v, id, i);
        lemma_level_count_remove(v, i, field, key);
    }
}

impl<T> PendingOrdersInPos<T> {
    /// The number of orders that a count over `field` and `key` takes in.
    fn count_where(&self, field: OrderField, key: &str) -> (r: i32)
        requires
            slots(levels_view(self.by_price@), field, key@).len() <= i32::MAX,
        ensures
            r == slots(levels_view(self.by_price@), field, key@).len(),
    {
        broadcast use vstd::std_specs::btree::group_btree_axioms;
        let ghost m = self.by_price@;
        let ghost target = slots(levels_view(m), field, key@);
        proof {
            assert(levels_view(m).dom() =~= m.dom());
            lemma_slots_finite(levels_view(m), field, key@);
        }
        let mut n: i32 = 0;
        let ghost mut seen: Set<(u64, int)> = Set::empty();
        let ghost mut done: Set<u64> = Set::empty();
        let iter = self.by_price.iter();
        let ghost s = iter.remaining();
        assert(s.no_duplicates());
        for (k, level) in it: iter
            invariant
                m == self.by_price@,
                target == slots(levels_view(m), field, key@),
                target.finite(),
                target.len() <= i32::MAX,
                it.seq() == s,
                s.no_duplicates(),
                s.len() == m.dom().len(),
                forall|i: int| 0 <= i < s.len() ==> m.contains_key(*(#[trigger] s[i]).0) && m[*s[i].0] == *s[i].1,
                forall|q: u64| #[trigger] m.contains_key(q) ==> s.contains((&q, &m[q])),
                forall|q: u64| #[trigger] done.contains(q) <==> exists|i: int| 0 <= i < it.index() && *(#[trigger] s[i]).0 == q,
                seen.finite(),
                n == seen.len(),
                forall|p: (u64, int)| #[trigger] seen.contains(p) <==> target.contains(p) && done.contains(p.0),
        {
            let ghost i = it.index();
            proof {
                assert(s[i] == (k, level));
                assert(!done.contains(*k)) by {
                    if done.contains(*k) {
                        let j = choose|j: int| 0 <= j < i && *(#[trigger] s[j]).0 == *k;
                        assert(s[j] == s[i]);
                    }
                }
            }
            let mut j: usize = 0;
            while j < level.len()
                invariant
                    target == slots(levels_view(m), field, key@),
                    target.finite(),
                    target.len() <= i32::MAX,
                    m.contains_key(*k),
                    m[*k] == *level,
                    !done.contains(*k),
                    j <= level.len(),
                    seen.finite(),
                    n == seen.len(),
                    forall|p: (u64, int)| #[trigger] seen.contains(p) <==> target.contains(p) && (
                        done.contains(p.0) || (p.0 == *k && p.1 < j)),
                decreases level.len() - j,
            {
                if matches_field(&level[j], field, key) {
                    proof {
                        let x = (*k, j as int);
                        assert(target.contains(x));
                        assert(!seen.contains(x));
                        seen = seen.insert(x);
                        assert(seen.subset_of(target));
                        vstd::set_lib::lemma_len_subset(seen, target);
                    }
                    n = n + 1;
                }
                j = j + 1;
            }
            proof {
                done = done.insert(*k);
            }
        }
        proof {
            assert forall|p: (u64, int)| target.contains(p) implies seen.contains(p) by {
                assert(s.contains((&p.0, &m[p.0])));
                let i = choose|i: int| 0 <= i < s.len() && s[i] == (&p.0, &m[p.0]);
                assert(*s[i].0 == p.0);
            }
            assert(seen =~= target);
        }
        n
    }

    /// The number of orders that came from the signal `from_key`.
    pub fn count_from_key(&self, from_key: &str) -> (r: i32)
        requires
            slots(levels_view(self.by_price@), OrderField::FromKey, from_key@).len() <= i32::MAX,
        ensures
            r == slots(levels_view(self.by_price@), OrderField::FromKey, from_key@).len(),
    {
        self.count_where(OrderField::FromKey, from_key)
    }

    /// The number of orders queued under the duplicate key `dup_key`.
    pub fn count_dup_key(&self, dup_key: &str) -> (r: i32)
        requires
            slots(levels_view(self.by_price@), OrderField::DupKey, dup_key@).len() <= i32::MAX,
        ensures
            r == slots(levels_view(self.by_price@), OrderField::DupKey, dup_key@).len(),
    {
        self.count_where(OrderField::DupKey, dup_key)
    }

    /// The number of orders queued, over all levels.
    pub fn order_count(&self) -> (r: i32)
        requires
            slots(levels_view(self.by_price@), OrderField::Any, Seq::empty()).len() <= i32::MAX,
        ensures
            r == slots(levels_view(self.by_price@), OrderField::Any, Seq::empty()).len(),
    {
        let all = "";
        assert(slots(levels_view(self.by_price@), OrderField::Any, all@) =~= slots(
            levels_view(self.by_price@),
            OrderField::Any,
            Seq::empty(),
        ));
        self.count_where(OrderField::Any, all)
    }

    /// Takes the level at `price_key` out of the queues, when there is one.
    pub fn take_level(&mut self, price_key: u64) -> (r: Option<Vec<PendingEntry<T>>>)
        ensures
            (r is Some) == old(self).by_price@.contains_key(price_key),
            r matches Some(v) ==> v == old(self).by_price@[price_key],
            final(self).by_price@ == old(self).by_price@.remove(price_key),
    {
        self.by_price.remove(&price_key)
    }

    /// Puts a level back at `price_key`, in place of what was there; an
    /// empty level is dropped instead.
    pub fn put_level(&mut self, price_key: u64, level: Vec<PendingEntry<T>>)
        ensures
            final(self).by_price@ == if level@.len() == 0 {
                old(self).by_price@.remove(price_key)
            } else {
                old(self).by_price@.insert(price_key, level)
            },
    {
        if level.len() == 0 {
            let _ = self.by_price.remove(&price_key);
        } else {
            let _ = self.by_price.insert(price_key, level);
        }
    }

    /// The price keys of the levels, in increasing order.
    pub fn price_keys(&self) -> (r: Vec<u64>)
        ensures
            r@.to_set() == self.by_price@.dom(),
            forall|i: int, j: int| 0 <= i < j < r@.len() ==> r@[i] < r@[j],
    {
        broadcast use vstd::std_specs::btree::group_btree_axioms;
        broadcast use vstd::laws_cmp::group_laws_cmp;
        let ghost m = self.by_price@;
        let iter = self.by_price.iter();
        let ghost s = iter.remaining();
        let ghost ks = s.map_values(|kv: (&u64, &Vec<PendingEntry<T>>)| *kv.0);
        assert(vstd::std_specs::btree::increasing_seq(ks));
        let mut r: Vec<u64> = Vec::new();
        for (k, _level) in it: iter
            invariant
                m == self.by_price@,
                it.seq() == s,
                ks == s.map_values(|kv: (&u64, &Vec<PendingEntry<T>>)| *kv.0),
                r@ == ks.take(it.index()),
        {
            r.push(*k);
            proof {
                assert(ks.take(it.index() + 1) =~= ks.take(it.index()).push(*k));
            }
        }
        proof {
            assert(r@ =~= ks);
            assert forall|q: u64| #[trigger] r@.to_set().contains(q) <==> m.dom().contains(q) by {
                if m.dom().contains(q) {
                    assert(s.contains((&q, &m[q])));
                    let i = choose|i: int| 0 <= i < s.len() && s[i] == (&q, &m[q]);
                    assert(r@[i] == q);
                }
                if r@.to_set().contains(q) {
                    let i = choose|i: int| 0 <= i < r@.len() && r@[i] == q;
                    assert(ks[i] == *s[i].0);
                }
            }
            assert(r@.to_set() =~= m.dom());
            assert forall|i: int, j: int| 0 <= i < j < r@.len() implies r@[i] < r@[j] by {
                assert(vstd::std_specs::cmp::OrdSpec::cmp_spec(&ks[i], &ks[j]) is Less);
            }
        }
        r
    }

    /// Drops every order.
    pub fn clear(&mut self)
        ensures
            final(self).by_price@ == Map::<u64, Vec<PendingEntry<T>>>::empty(),
    {
        self.by_price.clear();
    }

    /// No orders.
    pub fn new() -> (r: Self)
        ensures
            r.by_price@ == Map::<u64, Vec<PendingEntry<T>>>::empty(),
    {
        PendingOrdersInPos { by_price: BTreeMap::new() }
    }

    /// Queues an order at the back of its price level.
    pub fn push(&mut self, price_key: u64, entry: PendingEntry<T>)
        ensures
            levels_view(final(self).by_price@) == levels_view(old(self).by_price@).insert(
                price_key,
                if old(self).by_price@.contains_key(price_key) {
                    old(self).by_price@[price_key]@.push(entry)
                } else {
                    seq![entry]
                },
            ),
    {
        let ghost before = self.by_price@;
        let mut level = match self.by_price.remove(&price_key) {
            Some(v) => v,
            None => Vec::new(),
        };
        level.push(entry);
        self.by_price.insert(price_key, level);
        proof {
            assert(levels_view(self.by_price@) =~= levels_view(before).insert(
                price_key,
                if before.contains_key(price_key) {
                    before[price_key]@.push(entry)
                } else {
                    seq![entry]
                },
            ));
        }
    }

    /// Takes the first order of client id `id` off the level at
    /// `price_key`, dropping the level when it is left empty. Reports
    /// whether the level was there.
    pub fn remove_order(&mut self, price_key: u64, id: &str) -> (r: bool)
        ensures
            r == old(self).by_price@.contains_key(price_key),
            !r ==> final(self).by_price@ == old(self).by_price@,
            r ==> levels_view(final(self).by_price@) == with_level(
                levels_view(old(self).by_price@),
                price_key,
                without_first(old(self).by_price@[price_key]@, id@),
            ),
    {
        let ghost before = self.by_price@;
        let mut level = match self.by_price.remove(&price_key) {
            Some(v) => v,
            None => {
                return false;
            },
        };
        let ghost lv = level@;
        let mut i: usize = 0;
        while i < level.len()
            invariant
                level@ == lv,
                i <= lv.len(),
                forall|j: int| 0 <= j < i ==> (#[trigger] lv[j]).client_order_id@ != id@,
            ensures
                level@ == lv,
                i <= lv.len(),
                forall|j: int| 0 <= j < i ==> (#[trigger] lv[j]).client_order_id@ != id@,
                i < lv.len() ==> lv[i as int].client_order_id@ == id@,
            decreases lv.len() - i,
        {
            if str_eq(level[i].client_order_id.as_str(), id) {
                break;
            }
            i = i + 1;
        }
        if i < level.len() {
            proof {
                lemma_without_first_at(lv, id@, i as int);
            }
            let _ = level.remove(i);
        } else {
            proof {
                lemma_without_first_absent(lv, id@);
            }
        }
        if level.len() > 0 {
            self.by_price.insert(price_key, level);
        }
        proof {
            assert(levels_view(self.by_price@) =~= with_level(
                levels_view(before),
                price_key,
                without_first(lv, id@),
            ));
        }
        true
    }
}

/// The number of a symbol's resting bids that came from the signal
/// `from_key`.
pub fn get_pending_num_from_key_bid<T>(bids: &PendingOrdersInPos<T>, from_key: &str) -> (r: i32)
    requires
        slots(levels_view(bids.by_price@), OrderField::FromKey, from_key@).len() <= i32::MAX,
    ensures
        r == slots(levels_view(bids.by_price@), OrderField::FromKey, from_key@).len(),
{
    bids.count_from_key(from_key)
}

/// The number of a symbol's resting asks that came from the signal
/// `from_key`.
pub fn get_pending_num_from_key_ask<T>(asks: &PendingOrdersInPos<T>, from_key: &str) -> (r: i32)
    requires
        slots(levels_view(asks.by_price@), OrderField::FromKey, from_key@).len() <= i32::MAX,
    ensures
        r == slots(levels_view(asks.by_price@), OrderField::FromKey, from_key@).len(),
{
    asks.count_from_key(from_key)
}

/// The number of a symbol's resting bids queued under the duplicate key
/// `dup_key`.
pub fn get_pending_num_dup_key_bid<T>(bids: &PendingOrdersInPos<T>, dup_key: &str) -> (r: i32)
    requires
        slots(levels_view(bids.by_price@), OrderField::DupKey, dup_key@).len() <= i32::MAX,
    ensures
        r == slots(levels_view(bids.by_price@), OrderField::DupKey, dup_key@).len(),
{
    bids.count_dup_key(dup_key)
}

/// The number of a symbol's resting asks queued under the duplicate key
/// `dup_key`.
pub fn get_pending_num_dup_key_ask<T>(asks: &PendingOrdersInPos<T>, dup_key: &str) -> (r: i32)
    requires
        slots(levels_view(asks.by_price@), OrderField::DupKey, dup_key@).len() <= i32::MAX,
    ensures
        r == slots(levels_view(asks.by_price@), OrderField::DupKey, dup_key@).len(),
{
    asks.count_dup_key(dup_key)
}

/// The numbers of a symbol's resting bids and asks that came from the
/// signal `from_key`.
pub fn get_pending_num_from_key<T>(
    bids: &PendingOrdersInPos<T>,
    asks: &PendingOrdersInPos<T>,
    from_key: &str,
) -> (r: (i32, i32))
    requires
        slots(levels_view(bids.by_price@), OrderField::FromKey, from_key@).len() <= i32::MAX,
        slots(levels_view(asks.by_price@), OrderField::FromKey, from_key@).len() <= i32::MAX,
    ensures
        r.0 == slots(levels_view(bids.by_price@), OrderField::FromKey, from_key@).len(),
        r.1 == slots(levels_view(asks.by_price@), OrderField::FromKey, from_key@).len(),
{
    (bids.count_from_key(from_key), asks.count_from_key(from_key))
}

/// The numbers of a symbol's resting bids and asks.
pub fn get_pending_num_from_sid<T>(bids: &PendingOrdersInPos<T>, asks: &PendingOrdersInPos<T>) -> (r: (
    i32,
    i32,
))
    requires
        slots(levels_view(bids.by_price@), OrderField::Any, Seq::empty()).len() <= i32::MAX,
        slots(levels_view(asks.by_price@), OrderField::Any, Seq::empty()).len() <= i32::MAX,
    ensures
        r.0 == slots(levels_view(bids.by_price@), OrderField::Any, Seq::empty()).len(),
        r.1 == slots(levels_view(asks.by_price@), OrderField::Any, Seq::empty()).len(),
{
    (bids.order_count(), asks.order_count())
}

/// Drops every resting order of a symbol, on both sides.
pub fn clear_pending<T>(bids: &mut PendingOrdersInPos<T>, asks: &mut PendingOrdersInPos<T>)
    ensures
        final(bids).by_price@ == Map::<u64, Vec<PendingEntry<T>>>::empty(),
        final(asks).by_price@ == Map::<u64, Vec<PendingEntry<T>>>::empty(),
{
    bids.clear();
    asks.clear();
}

} // verus!
