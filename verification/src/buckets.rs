//! A set of keyed records grouped into time buckets: each key is recorded in
//! the bucket of the time it was first seen, and buckets expire in the order
//! they were first opened.
use vstd::prelude::*;
use vstd::hash_map::StringHashMap;
use std::collections::{HashMap, HashSet, VecDeque};
use crate::text::str_eq;

verus! {

broadcast use vstd::std_specs::hash::group_hash_axioms;

/// The mathematical model of a bucket index: the recorded keys, the keys
/// listed in each bucket, and the buckets in the order they were opened.
pub struct BucketModel {
    pub keys: Set<Seq<char>>,
    pub buckets: Map<i64, Seq<Seq<char>>>,
    pub order: Seq<i64>,
}

/// The keys of bucket `ts`, none when it has no entry.
pub open spec fn bucket_keys(m: BucketModel, ts: i64) -> Seq<Seq<char>> {
    if m.buckets.contains_key(ts) {
        m.buckets[ts]
    } else {
        Seq::empty()
    }
}

/// `m` after recording `key` in bucket `ts`: the key joins the recorded keys
/// and, unless listed there already, the bucket; the bucket joins the order
/// unless it was opened before.
pub open spec fn add_spec(m: BucketModel, ts: i64, key: Seq<char>) -> BucketModel {
    let b = bucket_keys(m, ts);
    BucketModel {
        keys: m.keys.insert(key),
        buckets: m.buckets.insert(
            ts,
            if b.contains(key) {
                b
            } else {
                b.push(key)
            },
        ),
        order: if m.order.contains(ts) {
            m.order
        } else {
            m.order.push(ts)
        },
    }
}

/// `m` after expiring, from the front of the order, every bucket opened
/// before `before` up to the first that is not; with the keys those buckets
/// listed, in order. Their keys leave the recorded keys.
pub open spec fn expire_spec(m: BucketModel, before: int) -> (BucketModel, Seq<Seq<char>>)
    decreases m.order.len(),
{
    if m.order.len() == 0 || m.order[0] >= before {
        (m, Seq::empty())
    } else {
        let ts = m.order[0];
        let ks = bucket_keys(m, ts);
        let m1 = BucketModel {
            keys: m.keys.difference(ks.to_set()),
            buckets: m.buckets.remove(ts),
            order: m.order.skip(1),
        };
        let r = expire_spec(m1, before);
        (r.0, ks + r.1)
    }
}

/// Pushing `x` adds exactly `x` to what a sequence contains.
pub proof fn lemma_push_contains<T>(s: Seq<T>, x: T, k: T)
    ensures
        s.push(x).contains(k) <==> (s.contains(k) || x == k),
{
    if s.contains(k) {
        let i = choose|i: int| 0 <= i < s.len() && s[i] == k;
        assert(s.push(x)[i] == k);
    }
    if x == k {
        assert(s.push(x)[s.len() as int] == k);
    }
    if s.push(x).contains(k) {
        let j = choose|j: int| 0 <= j < s.push(x).len() && s.push(x)[j] == k;
        if j < s.len() {
            assert(s[j] == k);
        }
    }
}

/// Pushing `x` adds `x` to the set of elements.
pub proof fn lemma_push_to_set<T>(s: Seq<T>, x: T)
    ensures
        s.push(x).to_set() == s.to_set().insert(x),
{
    assert forall|k: T| s.push(x).to_set().contains(k) == s.to_set().insert(x).contains(k) by {
        lemma_push_contains(s, x, k);
    }
    assert(s.push(x).to_set() =~= s.to_set().insert(x));
}

/// An index of keys grouped into time buckets.
pub struct BucketIndex {
    keys: StringHashMap<()>,
    buckets: HashMap<i64, Vec<String>>,
    order: VecDeque<i64>,
    seen: HashSet<i64>,
}

/// The texts of a list of keys.
pub open spec fn texts(v: Seq<String>) -> Seq<Seq<char>> {
    v.map_values(|s: String| s@)
}

impl BucketIndex {
    /// The model of this index.
    pub closed spec fn view(&self) -> BucketModel {
        BucketModel {
            keys: self.keys@.dom(),
            buckets: self.buckets@.map_values(|v: Vec<String>| texts(v@)),
            order: self.order@,
        }
    }

    /// The opened buckets are exactly those in the order.
    pub closed spec fn wf(&self) -> bool {
        &&& self.seen@ == self.order@.to_set()
        &&& self.order@.no_duplicates()
    }

    /// An empty index.
    pub fn new() -> (r: Self)
        ensures
            r.wf(),
            r.view().keys == Set::<Seq<char>>::empty(),
            r.view().buckets == Map::<i64, Seq<Seq<char>>>::empty(),
            r.view().order == Seq::<i64>::empty(),
    {
        let r = BucketIndex {
            keys: StringHashMap::new(),
            buckets: HashMap::new(),
            order: VecDeque::new(),
            seen: HashSet::new(),
        };
        proof {
            assert(r.buckets@.map_values(|v: Vec<String>| texts(v@)) =~= Map::<
                i64,
                Seq<Seq<char>>,
            >::empty());
            assert(r.order@.to_set() =~= Set::<i64>::empty());
        }
        r
    }

    /// Whether `key` is recorded.
    pub fn contains(&self, key: &str) -> (r: bool)
        ensures
            r == self.view().keys.contains(key@),
    {
        self.keys.contains_key(key)
    }

    /// How many keys are recorded.
    pub fn len(&self) -> (r: usize)
        ensures
            r == self.view().keys.len(),
    {
        proof {
            assert(self.keys@.dom().len() == self.keys@.len());
        }
        self.keys.len()
    }

    /// Drops `key` from the recorded keys; the buckets keep listing it.
    pub fn remove_key(&mut self, key: &str)
        requires
            old(self).wf(),
        ensures
            final(self).wf(),
            final(self).view() == (BucketModel { keys: old(self).view().keys.remove(key@), ..old(self).view() }),
    {
        self.keys.remove(key);
        proof {
            assert(self.keys@.dom() =~= old(self).keys@.dom().remove(key@));
        }
    }

    /// Records `key` in bucket `ts`.
    pub fn add(&mut self, ts: i64, key: &str)
        requires
            old(self).wf(),
        ensures
            final(self).wf(),
            final(self).view() == add_spec(old(self).view(), ts, key@),
    {
        let ghost m = self.view();
        self.keys.insert(key.to_owned(), ());
        let mut list = match self.buckets.remove(&ts) {
            Some(v) => v,
            None => Vec::new(),
        };
        proof {
            assert(texts(list@) == bucket_keys(m, ts));
        }
        let mut found = false;
        let mut i: usize = 0;
        while i < list.len()
            invariant
                i <= list@.len(),
                found == texts(list@).take(i as int).contains(key@),
            decreases list.len() - i,
        {
            proof {
                assert(texts(list@).take(i + 1) =~= texts(list@).take(i as int).push(list@[i as int]@));
                lemma_push_contains(texts(list@).take(i as int), list@[i as int]@, key@);
            }
            if str_eq(list[i].as_str(), key) {
                found = true;
            }
            i = i + 1;
        }
        proof {
            assert(texts(list@).take(i as int) =~= texts(list@));
        }
        let ghost before = list@;
        if !found {
            list.push(key.to_owned());
            proof {
                assert(texts(list@) =~= texts(before).push(key@));
            }
        }
        self.buckets.insert(ts, list);
        if self.seen.insert(ts) {
            self.order.push_back(ts);
        }
        proof {
            assert(self.seen@ =~= self.order@.to_set()) by {
                if !m.order.contains(ts) {
                    assert(self.order@ =~= m.order.push(ts));
                    lemma_push_to_set(m.order, ts);
                } else {
                    assert(m.order.to_set().contains(ts));
                }
            }
            assert(self.order@.no_duplicates()) by {
                if !m.order.contains(ts) {
                    assert(self.order@ =~= m.order.push(ts));
                    assert forall|a: int, b: int| 0 <= a < b < self.order@.len() implies self.order@[a]
                        != self.order@[b] by {
                        if b == m.order.len() {
                            assert(m.order[a] != ts);
                        }
                    }
                }
            }
            assert(self.keys@.dom() =~= m.keys.insert(key@));
            assert(self.buckets@.map_values(|v: Vec<String>| texts(v@)) =~= m.buckets.insert(
                ts,
                if bucket_keys(m, ts).contains(key@) {
                    bucket_keys(m, ts)
                } else {
                    bucket_keys(m, ts).push(key@)
                },
            ));
        }
    }

    /// Removes bucket `ts` and hands out its keys; the keys stay recorded
    /// and the bucket stays in the order.
    pub fn take_bucket(&mut self, ts: i64) -> (r: Option<Vec<String>>)
        requires
            old(self).wf(),
        ensures
            final(self).wf(),
            final(self).view() == (BucketModel {
                buckets: old(self).view().buckets.remove(ts),
                ..old(self).view()
            }),
            r is None <==> !old(self).view().buckets.contains_key(ts),
            r matches Some(v) ==> texts(v@) == old(self).view().buckets[ts],
    {
        let r = self.buckets.remove(&ts);
        proof {
            assert(self.buckets@.map_values(|v: Vec<String>| texts(v@)) =~= old(
                self,
            ).buckets@.map_values(|v: Vec<String>| texts(v@)).remove(ts));
        }
        r
    }

    /// Drops every key of `list` from the recorded keys.
    fn forget_keys(&mut self, list: &Vec<String>)
        ensures
            final(self).keys@.dom() == old(self).keys@.dom().difference(texts(list@).to_set()),
            final(self).buckets == old(self).buckets,
            final(self).order == old(self).order,
            final(self).seen == old(self).seen,
    {
        let mut i: usize = 0;
        while i < list.len()
            invariant
                i <= list@.len(),
                self.keys@.dom() == old(self).keys@.dom().difference(texts(list@).take(i as int).to_set()),
                self.buckets == old(self).buckets,
                self.order == old(self).order,
                self.seen == old(self).seen,
            decreases list.len() - i,
        {
            self.keys.remove(list[i].as_str());
            proof {
                let t = texts(list@);
                assert(t.take(i + 1) =~= t.take(i as int).push(t[i as int]));
                lemma_push_to_set(t.take(i as int), t[i as int]);
                assert(self.keys@.dom() =~= old(self).keys@.dom().difference(t.take(i + 1).to_set()));
            }
            i = i + 1;
        }
        proof {
            assert(texts(list@).take(i as int) =~= texts(list@));
        }
    }

    /// Expires, from the front of the order, the buckets opened before
    /// `before`, up to the first that is not; hands out the keys they listed.
    pub fn expire(&mut self, before: i64) -> (r: Vec<String>)
        requires
            old(self).wf(),
        ensures
            final(self).wf(),
            final(self).view() == expire_spec(old(self).view(), before as int).0,
            texts(r@) == expire_spec(old(self).view(), before as int).1,
    {
        let mut removed: Vec<String> = Vec::new();
        let ghost m0 = self.view();
        while self.order.len() > 0 && self.order[0] < before
            invariant
                self.wf(),
                expire_spec(m0, before as int).0 == expire_spec(self.view(), before as int).0,
                expire_spec(m0, before as int).1 == texts(removed@) + expire_spec(
                    self.view(),
                    before as int,
                ).1,
            decreases self.order.len(),
        {
            let ghost m = self.view();
            let ts = self.order[0];
            let popped = self.order.pop_front();
            self.seen.remove(&ts);
            let ghost ks = bucket_keys(m, ts);
            let list = match self.buckets.remove(&ts) {
                Some(v) => v,
                None => Vec::new(),
            };
            proof {
                assert(texts(list@) == ks);
            }
            self.forget_keys(&list);
            let ghost removed0 = removed@;
            let mut i: usize = 0;
            while i < list.len()
                invariant
                    i <= list@.len(),
                    removed@ == removed0 + list@.take(i as int),
                decreases list.len() - i,
            {
                removed.push(list[i].clone());
                proof {
                    assert(list@.take(i + 1) =~= list@.take(i as int).push(list@[i as int]));
                }
                i = i + 1;
            }
            proof {
                assert(list@.take(i as int) =~= list@);
                assert(m.order.len() > 0 && m.order[0] == ts && ts < before);
                assert(self.order@ =~= m.order.skip(1));
                assert(self.buckets@.map_values(|v: Vec<String>| texts(v@)) =~= m.buckets.remove(
                    ts,
                ));
                let m1 = BucketModel {
                    keys: m.keys.difference(ks.to_set()),
                    buckets: m.buckets.remove(ts),
                    order: m.order.skip(1),
                };
                assert(self.view() == m1);
                assert(texts(removed@) =~= texts(removed0) + ks);
                assert(self.seen@ =~= self.order@.to_set()) by {
                    assert(m.order =~= seq![ts] + m.order.skip(1));
                    assert forall|x: i64| self.order@.contains(x) implies x != ts by {
                        let k = choose|k: int| 0 <= k < self.order@.len() && self.order@[k] == x;
                        assert(m.order[k + 1] == x);
                        assert(m.order[0] == ts);
                    }
                }
            }
        }
        proof {
            assert(expire_spec(self.view(), before as int).1 =~= Seq::<Seq<char>>::empty());
            assert(texts(removed@) + Seq::<Seq<char>>::empty() =~= texts(removed@));
        }
        removed
    }
}

} // verus!
