//! A bucketed map whose bucket choice is handed in by the caller: the host
//! draws the bucket index for each insertion from its own entropy source,
//! so lookups scan only the chosen bucket and the map never rehashes.
//! Callers serialize access; the map does no locking of its own.

use vstd::prelude::*;
use vstd::std_specs::cmp::PartialEqSpec;

verus! {

/// The buckets and the counters; one entry is a key paired with a value.
pub struct InnerMap<K, V> {
    /// One vector of entries per bucket.
    pub buckets: Vec<Vec<(K, V)>>,
    /// The number of buckets; fixed at construction.
    pub capacity: usize,
    /// The number of entries over all buckets.
    pub size: usize,
}

/// The map the host sees.
pub struct HashMap<K, V> {
    /// The single state of the map.
    pub inner: InnerMap<K, V>,
}

/// A snapshot of the map's entries, walked front to back.
pub struct HashMapIter<K, V> {
    /// The entries, cloned out of the buckets in bucket order.
    pub items: Vec<(K, V)>,
    /// The next position `next` hands out.
    pub current: usize,
}

/// The buckets of a map as a sequence of sequences of entries.
pub open spec fn buckets_view<K, V>(m: InnerMap<K, V>) -> Seq<Seq<(K, V)>> {
    m.buckets@.map_values(|b: Vec<(K, V)>| b@)
}

/// All entries of the buckets, in bucket order.
pub open spec fn all_items<K, V>(bs: Seq<Seq<(K, V)>>) -> Seq<(K, V)>
    decreases bs.len(),
{
    if bs.len() == 0 {
        Seq::empty()
    } else {
        all_items(bs.drop_last()) + bs.last()
    }
}

/// The map's invariant: the bucket count matches the fixed capacity and the
/// size counter matches the number of entries.
pub open spec fn map_wf<K, V>(m: InnerMap<K, V>) -> bool {
    &&& m.capacity == m.buckets@.len()
    &&& m.capacity > 0
    &&& m.size == all_items(buckets_view(m)).len()
}

pub proof fn lemma_items_concat<K, V>(a: Seq<Seq<(K, V)>>, b: Seq<Seq<(K, V)>>)
    ensures
        all_items(a + b) == all_items(a) + all_items(b),
    decreases b.len(),
{
    if b.len() == 0 {
        assert(a + b =~= a);
        assert(all_items(a) + all_items(b) =~= all_items(a));
    } else {
        assert((a + b).drop_last() =~= a + b.drop_last());
        assert((a + b).last() == b.last());
        lemma_items_concat(a, b.drop_last());
        assert((all_items(a) + all_items(b.drop_last())) + b.last() =~= all_items(a) + (all_items(
            b.drop_last(),
        ) + b.last()));
    }
}

/// Entries split around one bucket.
pub proof fn lemma_items_split<K, V>(bs: Seq<Seq<(K, V)>>, i: int)
    requires
        0 <= i < bs.len(),
    ensures
        all_items(bs) == all_items(bs.take(i)) + bs[i] + all_items(bs.skip(i + 1)),
{
    assert(bs =~= bs.take(i) + seq![bs[i]] + bs.skip(i + 1));
    lemma_items_concat(bs.take(i) + seq![bs[i]], bs.skip(i + 1));
    lemma_items_concat(bs.take(i), seq![bs[i]]);
    assert(seq![bs[i]].drop_last() =~= Seq::<Seq<(K, V)>>::empty());
    assert(all_items(Seq::<Seq<(K, V)>>::empty()) =~= Seq::<(K, V)>::empty());
    assert(seq![bs[i]].last() == bs[i]);
    assert(Seq::<(K, V)>::empty() + bs[i] =~= bs[i]);
    assert(all_items(seq![bs[i]]) =~= bs[i]);
}

/// A directory of empty buckets holds no entries.
pub proof fn lemma_items_all_empty<K, V>(bs: Seq<Seq<(K, V)>>)
    requires
        forall|k: int| 0 <= k < bs.len() ==> (#[trigger] bs[k]).len() == 0,
    ensures
        all_items(bs).len() == 0,
    decreases bs.len(),
{
    if bs.len() > 0 {
        lemma_items_all_empty(bs.drop_last());
    }
}

impl<K, V> HashMap<K, V> where K: Eq + Clone, V: Clone {
    /// An empty map with sixteen buckets.
    pub fn new() -> (r: Self)
        ensures
            map_wf(r.inner),
            r.inner.capacity == 16,
            r.inner.size == 0,
            forall|k: int|
                0 <= k < buckets_view(r.inner).len() ==> (#[trigger] buckets_view(r.inner)[k]).len()
                    == 0,
    {
        let capacity: usize = 16;
        let mut buckets: Vec<Vec<(K, V)>> = Vec::new();
        let mut n: usize = 0;
        while n < capacity
            invariant
                n <= capacity,
                buckets@.len() == n,
                forall|k: int| 0 <= k < n ==> (#[trigger] buckets@[k])@.len() == 0,
            decreases capacity - n,
        {
            buckets.push(Vec::new());
            n += 1;
        }
        let r = HashMap { inner: InnerMap { buckets, capacity, size: 0 } };
        proof {
            lemma_items_all_empty(buckets_view(r.inner));
        }
        r
    }

    /// Insert `key`/`value` into the bucket at `idx`, the index the caller
    /// drew; any index below the capacity keeps every stated property. An
    /// entry of the chosen bucket whose key equals `key` has its value
    /// replaced and a clone of the old value is returned; otherwise the new
    /// entry is appended and the map grows by one.
    pub fn insert_at(&mut self, idx: usize, key: K, value: V) -> (r: Option<V>)
        requires
            map_wf(old(self).inner),
            idx < old(self).inner.capacity,
            old(self).inner.size < usize::MAX,
        ensures
            map_wf(final(self).inner),
            final(self).inner.capacity == old(self).inner.capacity,
            forall|k: int|
                0 <= k < buckets_view(old(self).inner).len() && k != idx
                    ==> #[trigger] buckets_view(final(self).inner)[k] == buckets_view(
                    old(self).inner,
                )[k],
            ({
                let b = buckets_view(old(self).inner)[idx as int];
                let b2 = buckets_view(final(self).inner)[idx as int];
                match r {
                    None => {
                        &&& b2 == b.push((key, value))
                        &&& final(self).inner.size == old(self).inner.size + 1
                        &&& (<K as PartialEqSpec>::obeys_eq_spec() ==> forall|j: int|
                            0 <= j < b.len() ==> !(#[trigger] b[j].0).eq_spec(&key))
                    },
                    Some(v) => {
                        &&& final(self).inner.size == old(self).inner.size
                        &&& exists|j: int|
                            {
                                &&& 0 <= j < b.len()
                                &&& b2 == b.update(j, ((#[trigger] b[j]).0, value))
                                &&& vstd::pervasive::cloned::<V>(b[j].1, v)
                                &&& (<K as PartialEqSpec>::obeys_eq_spec() ==> b[j].0.eq_spec(&key)
                                    && forall|l: int| 0 <= l < j ==> !(#[trigger] b[l].0).eq_spec(
                                    &key,
                                ))
                            }
                    },
                }
            }),
    {
        let ghost b: Seq<(K, V)> = buckets_view(self.inner)[idx as int];
        let n = self.blen(idx);
        let mut j: usize = 0;
        while j < n
            invariant
                map_wf(self.inner),
                *self == *old(self),
                idx < self.inner.capacity,
                n == buckets_view(self.inner)[idx as int].len(),
                b == buckets_view(self.inner)[idx as int],
                j <= n,
                <K as PartialEqSpec>::obeys_eq_spec() ==> forall|l: int|
                    0 <= l < j ==> !(#[trigger] b[l].0).eq_spec(&key),
            decreases n - j,
        {
            let hit = {
                let entry = &self.inner.buckets[idx][j];
                entry.0 == key
            };
            if hit {
                let old_v = self.inner.buckets[idx][j].1.clone();
                self.inner.buckets[idx][j].1 = value;
                proof {
                    let b2 = buckets_view(self.inner)[idx as int];
                    assert(b2 =~= b.update(j as int, (b[j as int].0, b2[j as int].1)));
                    lemma_items_split(buckets_view(old(self).inner), idx as int);
                    lemma_items_split(buckets_view(self.inner), idx as int);
                    assert(buckets_view(self.inner).take(idx as int) =~= buckets_view(
                        old(self).inner,
                    ).take(idx as int));
                    assert(buckets_view(self.inner).skip(idx + 1 as int) =~= buckets_view(
                        old(self).inner,
                    ).skip(idx + 1 as int));
                }
                return Some(old_v);
            }
            j += 1;
        }
        self.inner.buckets[idx].push((key, value));
        self.inner.size = self.inner.size + 1;
        proof {
            let b2 = buckets_view(self.inner)[idx as int];
            assert(b2 =~= b.push((key, value)));
            lemma_items_split(buckets_view(old(self).inner), idx as int);
            lemma_items_split(buckets_view(self.inner), idx as int);
            assert(buckets_view(self.inner).take(idx as int) =~= buckets_view(
                old(self).inner,
            ).take(idx as int));
            assert(buckets_view(self.inner).skip(idx + 1 as int) =~= buckets_view(
                old(self).inner,
            ).skip(idx + 1 as int));
        }
        None
    }

    /// Length of the bucket at `idx`.
    fn blen(&self, idx: usize) -> (r: usize)
        requires
            map_wf(self.inner),
            idx < self.inner.capacity,
        ensures
            r == buckets_view(self.inner)[idx as int].len(),
    {
        self.inner.buckets[idx].len()
    }

    /// A snapshot iterator over clones of all entries, in bucket order.
    pub fn iter(&self) -> (r: HashMapIter<K, V>)
        requires
            map_wf(self.inner),
        ensures
            r.current == 0,
            r.items@.len() == all_items(buckets_view(self.inner)).len(),
            forall|t: int|
                0 <= t < r.items@.len() ==> vstd::pervasive::cloned::<K>(
                    all_items(buckets_view(self.inner))[t].0,
                    (#[trigger] r.items@[t]).0,
                ) && vstd::pervasive::cloned::<V>(
                    all_items(buckets_view(self.inner))[t].1,
                    r.items@[t].1,
                ),
    {
        let ghost view: Seq<Seq<(K, V)>> = buckets_view(self.inner);
        let mut items: Vec<(K, V)> = Vec::new();
        let mut i: usize = 0;
        proof {
            assert(view.take(0) =~= Seq::<Seq<(K, V)>>::empty());
        }
        while i < self.inner.buckets.len()
            invariant
                map_wf(self.inner),
                view == buckets_view(self.inner),
                i <= self.inner.buckets@.len(),
                items@.len() == all_items(view.take(i as int)).len(),
                forall|t: int|
                    0 <= t < items@.len() ==> vstd::pervasive::cloned::<K>(
                        all_items(view.take(i as int))[t].0,
                        (#[trigger] items@[t]).0,
                    ) && vstd::pervasive::cloned::<V>(
                        all_items(view.take(i as int))[t].1,
                        items@[t].1,
                    ),
            decreases self.inner.buckets@.len() - i,
        {
            let ghost done: Seq<(K, V)> = all_items(view.take(i as int));
            let m = self.inner.buckets[i].len();
            let mut j: usize = 0;
            while j < m
                invariant
                    map_wf(self.inner),
                    view == buckets_view(self.inner),
                    i < self.inner.buckets@.len(),
                    m == view[i as int].len(),
                    j <= m,
                    done == all_items(view.take(i as int)),
                    items@.len() == done.len() + j,
                    forall|t: int|
                        0 <= t < items@.len() ==> vstd::pervasive::cloned::<K>(
                            (done + view[i as int].take(j as int))[t].0,
                            (#[trigger] items@[t]).0,
                        ) && vstd::pervasive::cloned::<V>(
                            (done + view[i as int].take(j as int))[t].1,
                            items@[t].1,
                        ),
                decreases m - j,
            {
                let kc = {
                    let entry = &self.inner.buckets[i][j];
                    entry.0.clone()
                };
                let vc = {
                    let entry = &self.inner.buckets[i][j];
                    entry.1.clone()
                };
                items.push((kc, vc));
                proof {
                    assert(view[i as int].take(j + 1 as int) =~= view[i as int].take(
                        j as int,
                    ).push(view[i as int][j as int]));
                    assert(done + view[i as int].take(j + 1 as int) =~= (done + view[
                        i as int
                    ].take(j as int)).push(view[i as int][j as int]));
                }
                j += 1;
            }
            proof {
                assert(view[i as int].take(m as int) =~= view[i as int]);
                assert(view.take(i + 1 as int).drop_last() =~= view.take(i as int));
                assert(view.take(i + 1 as int).last() == view[i as int]);
                assert(all_items(view.take(i + 1 as int)) == done + view[i as int]);
            }
            i += 1;
        }
        proof {
            assert(view.take(self.inner.buckets@.len() as int) =~= view);
        }
        HashMapIter { items, current: 0 }
    }
}

impl<K, V> HashMapIter<K, V> where K: Clone, V: Clone {
    /// The next cloned entry of the snapshot, or nothing once exhausted.
    pub fn next(&mut self) -> (r: Option<(K, V)>)
        ensures
            final(self).items@ == old(self).items@,
            old(self).current < old(self).items@.len() ==> {
                &&& final(self).current == old(self).current + 1
                &&& r is Some
                &&& vstd::pervasive::cloned::<K>(
                    old(self).items@[old(self).current as int].0,
                    r->Some_0.0,
                )
                &&& vstd::pervasive::cloned::<V>(
                    old(self).items@[old(self).current as int].1,
                    r->Some_0.1,
                )
            },
            old(self).current >= old(self).items@.len() ==> r is None && final(self).current == old(
                self,
            ).current,
    {
        if self.current < self.items.len() {
            let kc = {
                let entry = &self.items[self.current];
                entry.0.clone()
            };
            let vc = {
                let entry = &self.items[self.current];
                entry.1.clone()
            };
            self.current = self.current + 1;
            Some((kc, vc))
        } else {
            None
        }
    }
}

} // verus!
