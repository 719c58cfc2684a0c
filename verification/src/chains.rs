use crate::key::{digest, Key};
use vstd::prelude::*;

verus! {

/// The bucket, out of `n`, that a key with identity `id` belongs to.
pub open spec fn slot<K: Key>(id: K::V, n: int) -> int {
    digest::<K>(id) as int % n
}

/// Whether `chain` has an entry whose key has identity `id`.
pub open spec fn holds<K: Key, V>(chain: Seq<(K, V)>, id: K::V) -> bool {
    exists|i: int| 0 <= i < chain.len() && (#[trigger] chain[i]).0@ == id
}

/// Whether `i` is the place of the first entry of `chain` whose key has identity `id`.
pub open spec fn first_at<K: Key, V>(chain: Seq<(K, V)>, id: K::V, i: int) -> bool {
    &&& 0 <= i < chain.len()
    &&& chain[i].0@ == id
    &&& forall|j: int| 0 <= j < i ==> (#[trigger] chain[j]).0@ != id
}

/// The place of the first entry of `chain` whose key has identity `id`.
pub open spec fn position<K: Key, V>(chain: Seq<(K, V)>, id: K::V) -> int {
    choose|i: int| first_at(chain, id, i)
}

/// No two entries of `chain` have the same key.
pub open spec fn distinct<K: Key, V>(chain: Seq<(K, V)>) -> bool {
    forall|i: int, j: int|
        0 <= i < j < chain.len() ==> (#[trigger] chain[i]).0@ != (#[trigger] chain[j]).0@
}

/// Every entry of bucket `b` belongs there.
pub open spec fn placed<K: Key, V>(chains: Seq<Seq<(K, V)>>, b: int) -> bool {
    forall|i: int|
        0 <= i < chains[b].len() ==> slot::<K>((#[trigger] chains[b][i]).0@, chains.len() as int)
            == b
}

/// A bucket array as the table keeps it: at least one bucket, every entry in
/// the bucket of its key, no key twice in a bucket.
pub open spec fn valid<K: Key, V>(chains: Seq<Seq<(K, V)>>) -> bool {
    &&& chains.len() > 0
    &&& forall|b: int| 0 <= b < chains.len() ==> distinct(#[trigger] chains[b])
    &&& forall|b: int| 0 <= b < chains.len() ==> #[trigger] placed(chains, b)
}

/// The bucket in which a key with identity `id` is looked for.
pub open spec fn home<K: Key, V>(chains: Seq<Seq<(K, V)>>, id: K::V) -> Seq<(K, V)> {
    chains[slot::<K>(id, chains.len() as int)]
}

/// The value that the bucket array holds for `id`, if any.
pub open spec fn found<K: Key, V>(chains: Seq<Seq<(K, V)>>, id: K::V) -> Option<V> {
    let chain = home(chains, id);
    if holds(chain, id) {
        Some(chain[position(chain, id)].1)
    } else {
        None
    }
}

/// The bucket array as a map from key identities to values.
pub open spec fn as_map<K: Key, V>(chains: Seq<Seq<(K, V)>>) -> Map<K::V, V> {
    Map::new(|id: K::V| found(chains, id) is Some, |id: K::V| found(chains, id)->0)
}

/// The first entry with a key is where `position` says.
pub proof fn lemma_position<K: Key, V>(chain: Seq<(K, V)>, id: K::V)
    requires
        holds(chain, id),
    ensures
        first_at(chain, id, position(chain, id)),
{
    let k = choose|i: int| 0 <= i < chain.len() && (#[trigger] chain[i]).0@ == id;
    lemma_first_exists(chain, id, k);
}

proof fn lemma_first_exists<K: Key, V>(chain: Seq<(K, V)>, id: K::V, k: int)
    requires
        0 <= k < chain.len(),
        chain[k].0@ == id,
    ensures
        exists|i: int| first_at(chain, id, i),
    decreases k,
{
    if exists|j: int| 0 <= j < k && (#[trigger] chain[j]).0@ == id {
        let j = choose|j: int| 0 <= j < k && (#[trigger] chain[j]).0@ == id;
        lemma_first_exists(chain, id, j);
    } else {
        assert(first_at(chain, id, k));
    }
}

/// The bucket array once `key` has been given the value `val`: the entry that
/// has the key keeps its place and its key and gets the value; where there is
/// none, a new entry goes to the end of the key's bucket.
pub open spec fn put<K: Key, V>(chains: Seq<Seq<(K, V)>>, key: K, val: V) -> Seq<Seq<(K, V)>> {
    let b = slot::<K>(key@, chains.len() as int);
    let chain = chains[b];
    if holds(chain, key@) {
        let i = position(chain, key@);
        chains.update(b, chain.update(i, (chain[i].0, val)))
    } else {
        chains.update(b, chain.push((key, val)))
    }
}

/// The bucket array without the entry for `id`; the entries that stay keep
/// their order.
pub open spec fn cut<K: Key, V>(chains: Seq<Seq<(K, V)>>, id: K::V) -> Seq<Seq<(K, V)>> {
    let b = slot::<K>(id, chains.len() as int);
    let chain = chains[b];
    if holds(chain, id) {
        chains.update(b, chain.remove(position(chain, id)))
    } else {
        chains
    }
}

/// Replacing one bucket changes the number of entries by the difference of
/// the two lengths.
pub proof fn lemma_flatten_update_len<A>(chains: Seq<Seq<A>>, b: int, chain: Seq<A>)
    requires
        0 <= b < chains.len(),
    ensures
        chains.update(b, chain).flatten().len() == chains.flatten().len() - chains[b].len()
            + chain.len(),
    decreases chains.len(),
{
    let after = chains.update(b, chain);
    if b == 0 {
        assert(after.drop_first() =~= chains.drop_first());
    } else {
        assert(after.drop_first() =~= chains.drop_first().update(b - 1, chain));
        lemma_flatten_update_len(chains.drop_first(), b - 1, chain);
    }
}

/// What `put` does to a valid bucket array: it stays valid, the map gets
/// the one binding, and the number of entries grows by one exactly when the
/// key is new.
pub proof fn lemma_put<K: Key, V>(chains: Seq<Seq<(K, V)>>, key: K, val: V)
    requires
        valid(chains),
    ensures
        valid(put(chains, key, val)),
        put(chains, key, val).len() == chains.len(),
        as_map(put(chains, key, val)) == as_map(chains).insert(key@, val),
        put(chains, key, val).flatten().len() == chains.flatten().len() + (if found(
            chains,
            key@,
        ) is Some {
            0int
        } else {
            1int
        }),
{
    let n = chains.len() as int;
    let b = slot::<K>(key@, n);
    let chain = chains[b];
    let after = put(chains, key, val);
    if holds(chain, key@) {
        lemma_position(chain, key@);
    }
    lemma_flatten_update_len(chains, b, after[b]);
    assert forall|c: int| 0 <= c < after.len() implies distinct(#[trigger] after[c]) && placed(
        after,
        c,
    ) by {
        assert(placed(chains, c));
    }
    assert forall|id: K::V| #[trigger] found(after, id) == (if id == key@ {
        Some(val)
    } else {
        found(chains, id)
    }) by {
        lemma_found_after_put(chains, key, val, id);
    }
}

proof fn lemma_found_after_put<K: Key, V>(chains: Seq<Seq<(K, V)>>, key: K, val: V, id: K::V)
    requires
        valid(chains),
    ensures
        found(put(chains, key, val), id) == (if id == key@ {
            Some(val)
        } else {
            found(chains, id)
        }),
{
    let n = chains.len() as int;
    let b = slot::<K>(key@, n);
    let chain = chains[b];
    let after = put(chains, key, val);
    let fresh = after[b];
    if holds(chain, key@) {
        lemma_position(chain, key@);
    }
    if slot::<K>(id, n) == b {
        if holds(chain, id) {
            lemma_position(chain, id);
            let q = position(chain, id);
            assert(fresh[q].0@ == id);
            lemma_position(fresh, id);
        } else if id == key@ {
            assert(fresh[chain.len() as int].0@ == id);
            lemma_position(fresh, id);
        }
    }
}

/// What `cut` does to a valid bucket array: it stays valid, the map loses
/// the one key, and the number of entries falls by one exactly when the key
/// was there.
pub proof fn lemma_cut<K: Key, V>(chains: Seq<Seq<(K, V)>>, id: K::V)
    requires
        valid(chains),
    ensures
        valid(cut(chains, id)),
        cut(chains, id).len() == chains.len(),
        as_map(cut(chains, id)) == as_map(chains).remove(id),
        cut(chains, id).flatten().len() == chains.flatten().len() - (if found(chains, id) is Some {
            1int
        } else {
            0int
        }),
{
    let n = chains.len() as int;
    let b = slot::<K>(id, n);
    let chain = chains[b];
    let after = cut(chains, id);
    if holds(chain, id) {
        lemma_position(chain, id);
        let p = position(chain, id);
        let rest = chain.remove(p);
        lemma_flatten_update_len(chains, b, rest);
        assert forall|c: int| 0 <= c < after.len() implies distinct(#[trigger] after[c])
            && placed(after, c) by {
            assert(placed(chains, c));
        }
        assert forall|other: K::V| #[trigger] found(after, other) == (if other == id {
            None
        } else {
            found(chains, other)
        }) by {
            if slot::<K>(other, n) == b {
                if holds(rest, other) {
                    lemma_position(rest, other);
                    lemma_position(chain, other);
                } else if holds(chain, other) {
                    lemma_position(chain, other);
                    let q = position(chain, other);
                    if q != p {
                        let q0 = if q < p { q } else { q - 1 };
                        assert(rest[q0] == chain[q]);
                    }
                }
            }
        }
    }
}

/// The entries of the first `b` buckets, in order.
pub open spec fn upto<A>(chains: Seq<Seq<A>>, b: int) -> Seq<A> {
    chains.take(b).flatten()
}

/// The next bucket's entries follow those of the buckets before it.
pub proof fn lemma_upto_step<A>(chains: Seq<Seq<A>>, b: int)
    requires
        0 <= b < chains.len(),
    ensures
        upto(chains, b + 1) == upto(chains, b) + chains[b],
{
    assert(chains.take(b + 1) =~= chains.take(b).push(chains[b]));
    chains.take(b).lemma_flatten_push(chains[b]);
}

/// All buckets together hold all entries, and none of them holds none.
pub proof fn lemma_upto_ends<A>(chains: Seq<Seq<A>>)
    ensures
        upto(chains, chains.len() as int) == chains.flatten(),
        upto(chains, 0) == Seq::<A>::empty(),
{
    assert(chains.take(chains.len() as int) =~= chains);
}

proof fn lemma_upto_prefix<A>(chains: Seq<Seq<A>>, b: int, m: int)
    requires
        0 <= b <= m <= chains.len(),
    ensures
        upto(chains, b).len() <= upto(chains, m).len(),
        upto(chains, m).take(upto(chains, b).len() as int) == upto(chains, b),
    decreases m - b,
{
    if b < m {
        lemma_upto_prefix(chains, b, m - 1);
        lemma_upto_step(chains, m - 1);
    }
}

/// Where entry `i` of bucket `b` stands among all entries.
pub proof fn lemma_entry_index<A>(chains: Seq<Seq<A>>, b: int, i: int)
    requires
        0 <= b < chains.len(),
        0 <= i < chains[b].len(),
    ensures
        0 <= upto(chains, b).len() + i < chains.flatten().len(),
        chains.flatten()[upto(chains, b).len() + i] == chains[b][i],
{
    lemma_upto_step(chains, b);
    lemma_upto_prefix(chains, b + 1, chains.len() as int);
    lemma_upto_ends(chains);
    let k = upto(chains, b).len() + i;
    assert(chains.flatten().take(upto(chains, b + 1).len() as int)[k] == chains.flatten()[k]);
}

/// The bucket and the place in it of entry `k` among all entries.
pub proof fn lemma_entry_locate<A>(chains: Seq<Seq<A>>, k: int) -> (at: (int, int))
    requires
        0 <= k < chains.flatten().len(),
    ensures
        0 <= at.0 < chains.len(),
        0 <= at.1 < chains[at.0].len(),
        k == upto(chains, at.0).len() + at.1,
        chains.flatten()[k] == chains[at.0][at.1],
{
    lemma_upto_ends(chains);
    let at = lemma_locate_below(chains, k, chains.len() as int);
    lemma_entry_index(chains, at.0, at.1);
    at
}

proof fn lemma_locate_below<A>(chains: Seq<Seq<A>>, k: int, m: int) -> (at: (int, int))
    requires
        0 <= m <= chains.len(),
        0 <= k < upto(chains, m).len(),
    ensures
        0 <= at.0 < m,
        0 <= at.1 < chains[at.0].len(),
        k == upto(chains, at.0).len() + at.1,
    decreases m,
{
    lemma_upto_step(chains, m - 1);
    if k < upto(chains, m - 1).len() {
        lemma_locate_below(chains, k, m - 1)
    } else {
        (m - 1, k - upto(chains, m - 1).len())
    }
}

/// The value that a sequence of entries holds for `id`, if any.
pub open spec fn flat_found<K: Key, V>(entries: Seq<(K, V)>, id: K::V) -> Option<V> {
    if holds(entries, id) {
        Some(entries[position(entries, id)].1)
    } else {
        None
    }
}

/// In a valid bucket array no key occurs twice among all entries, and what
/// is found for a key in its bucket is what is found for it among all
/// entries.
pub proof fn lemma_flat<K: Key, V>(chains: Seq<Seq<(K, V)>>)
    requires
        valid(chains),
    ensures
        distinct(chains.flatten()),
        forall|id: K::V| #[trigger] found(chains, id) == flat_found(chains.flatten(), id),
{
    let all = chains.flatten();
    let n = chains.len() as int;
    assert forall|i: int, j: int| 0 <= i < j < all.len() implies (#[trigger] all[i]).0@ != (
    #[trigger] all[j]).0@ by {
        let a = lemma_entry_locate(chains, i);
        let b = lemma_entry_locate(chains, j);
        assert(placed(chains, a.0));
        assert(placed(chains, b.0));
    }
    assert forall|id: K::V| #[trigger] found(chains, id) == flat_found(all, id) by {
        let h = slot::<K>(id, n);
        let chain = chains[h];
        if holds(chain, id) {
            lemma_position(chain, id);
            let p = position(chain, id);
            lemma_entry_index(chains, h, p);
            lemma_position(all, id);
        } else if holds(all, id) {
            lemma_position(all, id);
            let at = lemma_entry_locate(chains, position(all, id));
            assert(placed(chains, at.0));
        }
    }
}

/// Those of `entries` that belong to bucket `b` out of `n`, in order.
pub open spec fn lands<K: Key, V>(entries: Seq<(K, V)>, n: int, b: int) -> Seq<(K, V)> {
    entries.filter(|e: (K, V)| slot::<K>(e.0@, n) == b)
}

/// `entries` dealt out to `n` buckets, each entry to the bucket of its key,
/// in the order in which they come.
pub open spec fn spread<K: Key, V>(entries: Seq<(K, V)>, n: int) -> Seq<Seq<(K, V)>> {
    Seq::new(n as nat, |b: int| lands(entries, n, b))
}

/// The bucket array with twice as many buckets and the same entries.
pub open spec fn grown<K: Key, V>(chains: Seq<Seq<(K, V)>>) -> Seq<Seq<(K, V)>> {
    spread(chains.flatten(), 2 * (chains.len() as int))
}

/// Dealing out one more entry puts it at the end of its bucket.
pub proof fn lemma_spread_push<K: Key, V>(entries: Seq<(K, V)>, e: (K, V), n: int)
    requires
        n > 0,
    ensures
        spread(entries.push(e), n) == spread(entries, n).update(
            slot::<K>(e.0@, n),
            spread(entries, n)[slot::<K>(e.0@, n)].push(e),
        ),
{
    let s = slot::<K>(e.0@, n);
    let before = spread(entries, n);
    let after = spread(entries.push(e), n);
    assert forall|b: int| 0 <= b < n implies #[trigger] after[b] == (if b == s {
        before[b].push(e)
    } else {
        before[b]
    }) by {
        entries.lemma_filter_push(e, |x: (K, V)| slot::<K>(x.0@, n) == b);
    }
}

/// Dealing out keeps the number of entries.
pub proof fn lemma_spread_len<K: Key, V>(entries: Seq<(K, V)>, n: int)
    requires
        n > 0,
    ensures
        spread(entries, n).flatten().len() == entries.len(),
    decreases entries.len(),
{
    if entries.len() == 0 {
        let none = spread(entries, n);
        none.lemma_flatten_length_le_mul(0);
        none.lemma_flatten_and_flatten_alt_are_equivalent();
    } else {
        let e = entries.last();
        let front = entries.drop_last();
        assert(entries =~= front.push(e));
        lemma_spread_len(front, n);
        lemma_spread_push(front, e, n);
        let s = slot::<K>(e.0@, n);
        lemma_flatten_update_len(spread(front, n), s, spread(front, n)[s].push(e));
    }
}

/// Those that belong to a bucket are entries of the whole, in the same order.
proof fn lemma_lands_from<K: Key, V>(entries: Seq<(K, V)>, n: int, b: int, i: int) -> (k: int)
    requires
        0 <= i < lands(entries, n, b).len(),
    ensures
        0 <= k < entries.len(),
        entries[k] == lands(entries, n, b)[i],
        slot::<K>(entries[k].0@, n) == b,
        lands(entries.take(k), n, b).len() == i,
    decreases entries.len(),
{
    let pred = |e: (K, V)| slot::<K>(e.0@, n) == b;
    let e = entries.last();
    let front = entries.drop_last();
    assert(entries =~= front.push(e));
    front.lemma_filter_push(e, pred);
    if pred(e) && i == lands(front, n, b).len() {
        entries.len() - 1
    } else {
        let k = lemma_lands_from(front, n, b, i);
        assert(front.take(k) =~= entries.take(k));
        k
    }
}

/// What doubling does to a valid bucket array: it stays valid, with the
/// same map and the same number of entries.
pub proof fn lemma_spread<K: Key, V>(chains: Seq<Seq<(K, V)>>, n: int)
    requires
        valid(chains),
        n > 0,
    ensures
        valid(spread(chains.flatten(), n)),
        spread(chains.flatten(), n).len() == n,
        as_map(spread(chains.flatten(), n)) == as_map(chains),
        spread(chains.flatten(), n).flatten().len() == chains.flatten().len(),
{
    let all = chains.flatten();
    let after = spread(all, n);
    lemma_flat(chains);
    lemma_spread_len(all, n);
    assert forall|b: int| 0 <= b < n implies distinct(#[trigger] after[b]) && placed(after, b) by {
        assert forall|i: int, j: int| 0 <= i < j < after[b].len() implies (
        #[trigger] after[b][i]).0@ != (#[trigger] after[b][j]).0@ by {
            lemma_lands_from(all, n, b, i);
            lemma_lands_from(all, n, b, j);
        }
    }
    assert forall|id: K::V| #[trigger] found(after, id) == found(chains, id) by {
        let h = slot::<K>(id, n);
        let chain = after[h];
        if holds(chain, id) {
            lemma_position(chain, id);
            lemma_lands_from(all, n, h, position(chain, id));
            lemma_position(all, id);
        } else if holds(all, id) {
            lemma_position(all, id);
            let k = position(all, id);
            all.lemma_filter_contains(|e: (K, V)| slot::<K>(e.0@, n) == h, k);
        }
    }
}

/// Whether a table of `buckets` buckets with `size` entries is due to grow
/// before the next insertion: whether three quarters of the buckets are no
/// more than the entries.
pub open spec fn loaded(buckets: int, size: int) -> bool {
    3 * buckets <= 4 * size
}

/// The bucket array after an insertion: doubled first if it was due to
/// grow, then with `key` given the value `val`.
pub open spec fn inserted<K: Key, V>(chains: Seq<Seq<(K, V)>>, key: K, val: V) -> Seq<
    Seq<(K, V)>,
> {
    if loaded(chains.len() as int, chains.flatten().len() as int) {
        put(grown(chains), key, val)
    } else {
        put(chains, key, val)
    }
}

/// The sum of the buckets' lengths.
pub open spec fn entry_count<A>(chains: Seq<Seq<A>>) -> nat
    decreases chains.len(),
{
    if chains.len() == 0 {
        0
    } else {
        chains.first().len() + entry_count(chains.drop_first())
    }
}

/// There are as many entries as the buckets' lengths add up to.
pub proof fn lemma_entry_count<A>(chains: Seq<Seq<A>>)
    ensures
        chains.flatten().len() == entry_count(chains),
    decreases chains.len(),
{
    if chains.len() > 0 {
        lemma_entry_count(chains.drop_first());
    }
}

} // verus!
