use crate::chains::{
    as_map, cut, distinct, entry_count, first_at, flat_found, found, grown, holds, inserted,
    lemma_cut, lemma_entry_count, lemma_flat, lemma_position, lemma_put, lemma_spread,
    lemma_spread_push, lemma_upto_ends, lemma_upto_step, loaded, put, slot, spread, upto, valid,
};
use crate::key::Key;
use crate::laws::law_keys_once;
use std::collections::hash_map::DefaultHasher;
use std::hash::Hasher;
use vstd::prelude::*;

verus! {

struct Bucket<K, V> {
    bucket: Vec<(K, V)>,
}

impl<K: Key, V> Bucket<K, V> {
    /// Scans the bucket from its start for `key`.
    fn find(&self, key: &K) -> (r: Option<usize>)
        ensures
            match r {
                Some(i) => first_at(self.bucket@, key@, i as int),
                None => !holds(self.bucket@, key@),
            },
    {
        let mut i: usize = 0;
        while i < self.bucket.len()
            invariant
                i <= self.bucket.len(),
                forall|j: int| 0 <= j < i ==> (#[trigger] self.bucket@[j]).0@ != key@,
            decreases self.bucket.len() - i,
        {
            if self.bucket[i].0.same(key) {
                return Some(i);
            }
            i += 1;
        }
        None
    }
}

/// The buckets' entries.
spec fn laid<K, V>(buckets: Seq<Bucket<K, V>>) -> Seq<Seq<(K, V)>> {
    buckets.map_values(|b: Bucket<K, V>| b.bucket@)
}

/// The index, out of `n` buckets, of the one that `key` belongs to.
fn bucket_index<K: Key>(key: &K, n: usize) -> (i: usize)
    requires
        n > 0,
    ensures
        i == slot::<K>(key@, n as int),
        i < n,
{
    let mut h = DefaultHasher::new();
    key.feed(&mut h);
    (h.finish() % n as u64) as usize
}

/// A map from keys to values, kept as an array of buckets; a key's digest
/// picks its bucket, and the array doubles as the table fills.
pub struct HashTable<K, V> {
    buckets: Vec<Bucket<K, V>>,
    size: usize,
}

impl<K: Key, V> View for HashTable<K, V> {
    type V = Map<K::V, V>;

    open spec fn view(&self) -> Map<K::V, V> {
        as_map(self.chains())
    }
}

impl<K: Key, V> HashTable<K, V> {
    /// The buckets, each with its entries in order.
    pub closed spec fn chains(&self) -> Seq<Seq<(K, V)>> {
        laid(self.buckets@)
    }

    /// The entries, bucket by bucket.
    pub open spec fn entries(&self) -> Seq<(K, V)> {
        self.chains().flatten()
    }

    /// What every table satisfies: the bucket array is valid, the entry
    /// count is that of the buckets, and the table is no fuller than the last
    /// insertion could leave it.
    pub closed spec fn wf(&self) -> bool {
        &&& valid(self.chains())
        &&& self.size == self.entries().len()
        &&& 4 * self.size <= 3 * self.buckets.len() + 3
    }

    /// A table with one bucket and no entry.
    pub fn new() -> (t: Self)
        ensures
            t.wf(),
            t.chains() == seq![Seq::<(K, V)>::empty()],
            t@ == Map::<K::V, V>::empty(),
    {
        let mut buckets: Vec<Bucket<K, V>> = Vec::new();
        buckets.push(Bucket { bucket: Vec::new() });
        let t = HashTable { buckets, size: 0 };
        proof {
            assert(t.chains().flatten() =~= Seq::<(K, V)>::empty()) by {
                t.chains().lemma_flatten_one_element();
            }
        }
        t
    }

    /// The index of the bucket that `key` belongs to.
    pub fn get_hash_for_key(&self, key: &K) -> (i: usize)
        requires
            self.wf(),
        ensures
            i == slot::<K>(key@, self.chains().len() as int),
            i < self.chains().len(),
    {
        bucket_index(key, self.buckets.len())
    }

    /// Whether the table is due to grow before the next insertion.
    fn is_loaded(&self) -> (r: bool)
        requires
            self.wf(),
        ensures
            r == loaded(self.chains().len() as int, self@.dom().len() as int),
    {
        proof {
            law_keys_once(self.chains());
        }
        (self.buckets.len() as u128) * 3 <= (self.size as u128) * 4
    }

    /// Gives `key` the value `val`. A table that is due to grow is doubled
    /// first. The entry that has the key keeps its place and gets the value;
    /// a new key's entry goes to the end of its bucket.
    pub fn insert(&mut self, key: K, val: V) -> (r: Option<V>)
        requires
            old(self).wf(),
            loaded(old(self).chains().len() as int, old(self)@.dom().len() as int) ==> 2 * old(
                self,
            ).chains().len() <= usize::MAX,
        ensures
            final(self).wf(),
            final(self).chains() == inserted(old(self).chains(), key, val),
            final(self).chains().len() == (if loaded(
                old(self).chains().len() as int,
                old(self)@.dom().len() as int,
            ) {
                2 * old(self).chains().len()
            } else {
                old(self).chains().len()
            }),
            final(self)@ == old(self)@.insert(key@, val),
            r == (if old(self)@.contains_key(key@) {
                Some(old(self)@[key@])
            } else {
                None
            }),
            final(self)@.dom().len() == old(self)@.dom().len() + (if r is Some {
                0int
            } else {
                1int
            }),
    {
        if self.is_loaded() {
            self.resize();
        }
        let ghost start = self.chains();
        let index = self.get_hash_for_key(&key);
        proof {
            law_keys_once(old(self).chains());
            lemma_put(start, key, val);
        }
        match self.buckets[index].find(&key) {
            Some(i) => {
                let mut held = val;
                std::mem::swap(&mut self.buckets[index].bucket[i].1, &mut held);
                proof {
                    assert(self.chains() =~= put(start, key, val));
                }
                Some(held)
            },
            None => {
                self.buckets[index].bucket.push((key, val));
                self.size += 1;
                proof {
                    assert(self.chains() =~= put(start, key, val));
                    law_keys_once(self.chains());
                }
                None
            },
        }
    }

    /// Doubles the bucket array and deals every entry out anew, in the order
    /// of the entries.
    pub fn resize(&mut self)
        requires
            old(self).wf(),
            2 * old(self).chains().len() <= usize::MAX,
        ensures
            final(self).wf(),
            final(self).chains() == grown(old(self).chains()),
            final(self)@ == old(self)@,
    {
        let new_size: usize = self.buckets.len() * 2;
        let mut new_buckets: Vec<Bucket<K, V>> = Vec::new();
        let mut made: usize = 0;
        while made < new_size
            invariant
                made <= new_size,
                new_buckets.len() == made,
                forall|b: int| 0 <= b < made ==> (#[trigger] new_buckets@[b]).bucket@.len() == 0,
            decreases new_size - made,
        {
            new_buckets.push(Bucket { bucket: Vec::new() });
            made += 1;
        }
        let mut old_buckets: Vec<Bucket<K, V>> = Vec::new();
        std::mem::swap(&mut self.buckets, &mut old_buckets);
        let ghost chains = old(self).chains();
        proof {
            lemma_upto_ends(chains);
            assert forall|b: int| 0 <= b < new_size implies #[trigger] laid(new_buckets@)[b]
                == spread(upto(chains, 0), new_size as int)[b] by {}
        }
        for bucket in outer: old_buckets.into_iter()
            invariant
                new_size > 0,
                new_buckets.len() == new_size,
                outer.seq() == old_buckets@,
                chains == laid(old_buckets@),
                laid(new_buckets@) == spread(upto(chains, outer.index()), new_size as int),
        {
            let ghost b = outer.index();
            let ghost before = upto(chains, b);
            proof {
                lemma_upto_step(chains, b);
            }
            for entry in inner: bucket.bucket.into_iter()
                invariant
                    new_size > 0,
                    new_buckets.len() == new_size,
                    0 <= b < chains.len(),
                    inner.seq() == chains[b],
                    laid(new_buckets@) == spread(
                        before + chains[b].take(inner.index()),
                        new_size as int,
                    ),
            {
                let ghost i = inner.index();
                let ghost sofar = before + chains[b].take(i);
                let index = bucket_index(&entry.0, new_size);
                new_buckets[index].bucket.push(entry);
                proof {
                    lemma_spread_push(sofar, entry, new_size as int);
                    assert(before + chains[b].take(i + 1) =~= sofar.push(entry));
                }
            }
            proof {
                assert(chains[b].take(chains[b].len() as int) =~= chains[b]);
            }
        }
        self.buckets = new_buckets;
        proof {
            lemma_spread(chains, new_size as int);
        }
    }

    /// The value that `key` has, found by a scan of the key's bucket.
    pub fn lookup(&self, key: &K) -> (r: Option<&V>)
        requires
            self.wf(),
        ensures
            r == match found(self.chains(), key@) {
                Some(v) => Some(&v),
                None => None,
            },
            r is Some <==> self@.contains_key(key@),
            r is Some ==> *r->0 == self@[key@],
    {
        let index = self.get_hash_for_key(key);
        let bucket = &self.buckets[index];
        match bucket.find(key) {
            Some(i) => Some(&bucket.bucket[i].1),
            None => None,
        }
    }

    /// Takes the entry for `key` out of its bucket; the other entries of the
    /// bucket keep their order.
    pub fn remove(&mut self, key: &K) -> (r: Option<V>)
        requires
            old(self).wf(),
        ensures
            final(self).wf(),
            final(self).chains() == cut(old(self).chains(), key@),
            final(self)@ == old(self)@.remove(key@),
            r == (if old(self)@.contains_key(key@) {
                Some(old(self)@[key@])
            } else {
                None
            }),
            final(self)@.dom().len() == old(self)@.dom().len() - (if r is Some {
                1int
            } else {
                0int
            }),
    {
        let index = self.get_hash_for_key(key);
        proof {
            lemma_cut(self.chains(), key@);
        }
        match self.buckets[index].find(key) {
            Some(i) => {
                self.size -= 1;
                let entry = self.buckets[index].bucket.remove(i);
                proof {
                    assert(self.chains() =~= cut(old(self).chains(), key@));
                    law_keys_once(self.chains());
                }
                Some(entry.1)
            },
            None => None,
        }
    }

    /// The entries, bucket by bucket and in each bucket from its start.
    pub fn get_key_value_pairs(&self) -> (pairs: Vec<(&K, &V)>)
        requires
            self.wf(),
        ensures
            pairs@ == self.entries().map_values(|e: (K, V)| (&e.0, &e.1)),
            pairs@.len() == self@.dom().len(),
            forall|k: int|
                0 <= k < pairs@.len() ==> self@.contains_key((#[trigger] pairs@[k]).0@)
                    && self@[pairs@[k].0@] == *pairs@[k].1,
    {
        let mut pairs: Vec<(&K, &V)> = Vec::new();
        let ghost chains = self.chains();
        proof {
            law_keys_once(chains);
            lemma_flat(chains);
            assert forall|k: int| 0 <= k < self.entries().len() implies self@.contains_key(
                (#[trigger] self.entries()[k]).0@,
            ) && self@[self.entries()[k].0@] == self.entries()[k].1 by {
                let id = self.entries()[k].0@;
                lemma_position(self.entries(), id);
            }
        }
        let ghost view = |e: (K, V)| (&e.0, &e.1);
        proof {
            lemma_upto_ends(chains);
        }
        let mut b: usize = 0;
        while b < self.buckets.len()
            invariant
                b <= self.buckets.len(),
                chains == self.chains(),
                view == |e: (K, V)| (&e.0, &e.1),
                pairs@ == upto(chains, b as int).map_values(view),
            decreases self.buckets.len() - b,
        {
            let bucket = &self.buckets[b];
            let ghost before = upto(chains, b as int);
            proof {
                lemma_upto_step(chains, b as int);
            }
            let mut i: usize = 0;
            while i < bucket.bucket.len()
                invariant
                    i <= bucket.bucket.len(),
                    bucket.bucket@ == chains[b as int],
                    view == |e: (K, V)| (&e.0, &e.1),
                    pairs@ == (before + chains[b as int].take(i as int)).map_values(view),
                decreases bucket.bucket.len() - i,
            {
                let entry = &bucket.bucket[i];
                pairs.push((&entry.0, &entry.1));
                i += 1;
            }
            b += 1;
        }
        pairs
    }

    /// The number of entries: that of the distinct keys, and the sum of the
    /// buckets' lengths.
    pub fn size(&self) -> (n: usize)
        requires
            self.wf(),
        ensures
            n == self@.dom().len(),
            n == self.entries().len(),
            n == entry_count(self.chains()),
    {
        proof {
            lemma_entry_count(self.chains());
            law_keys_once(self.chains());
        }
        self.size
    }

    /// The number of buckets.
    pub fn bucket_count(&self) -> (n: usize)
        requires
            self.wf(),
        ensures
            n == self.chains().len(),
            n > 0,
    {
        self.buckets.len()
    }

    /// Whether the table has no entry.
    pub fn is_empty(&self) -> (b: bool)
        requires
            self.wf(),
        ensures
            b == (self@.dom().len() == 0),
            b == (self@ == Map::<K::V, V>::empty()),
            b == (self.entries().len() == 0),
    {
        proof {
            law_keys_once(self.chains());
            if self.size == 0 {
                assert(self@ =~= Map::<K::V, V>::empty());
            }
        }
        self.size == 0
    }

    /// A table keeps a valid bucket array, is finite, and is no fuller than
    /// an insertion can leave it: without one of its entries it would take up
    /// fewer than three quarters of its buckets.
    pub proof fn lemma_wf(&self)
        requires
            self.wf(),
        ensures
            valid(self.chains()),
            self@.dom().finite(),
            self@.dom().len() == self.entries().len(),
            4 * self.entries().len() <= 3 * self.chains().len() + 3,
    {
        law_keys_once(self.chains());
    }

    /// No key occurs twice among the entries of a table.
    pub proof fn lemma_keys_once(&self)
        requires
            self.wf(),
        ensures
            distinct(self.entries()),
    {
        lemma_flat(self.chains());
    }

    /// The entries of a table are its map: a key is bound exactly when an
    /// entry has it, and to that entry's value.
    pub proof fn lemma_entries_are_map(&self)
        requires
            self.wf(),
        ensures
            forall|id: K::V| #[trigger]
                self@.contains_key(id) <==> flat_found(self.entries(), id) is Some,
            forall|id: K::V| #[trigger]
                self@.contains_key(id) ==> flat_found(self.entries(), id) == Some(self@[id]),
    {
        lemma_flat(self.chains());
    }
}

} // verus!
