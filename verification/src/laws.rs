use crate::chains::{
    as_map, cut, distinct, found, grown, holds, inserted, lemma_cut, lemma_flat, lemma_put,
    lemma_spread, loaded, valid,
};
use crate::hash_table::HashTable;
use crate::key::Key;
use vstd::prelude::*;

verus! {

/// The identities of the keys of `entries`.
pub open spec fn ids<K: Key, V>(entries: Seq<(K, V)>) -> Set<K::V> {
    Set::new(|id: K::V| holds(entries, id))
}

/// Entries with distinct keys have as many keys as there are entries.
pub proof fn law_distinct_keys_count<K: Key, V>(entries: Seq<(K, V)>)
    requires
        distinct(entries),
    ensures
        ids(entries).finite(),
        ids(entries).len() == entries.len(),
    decreases entries.len(),
{
    if entries.len() == 0 {
        assert(ids(entries) =~= Set::<K::V>::empty());
    } else {
        let front = entries.drop_last();
        let e = entries.last();
        law_distinct_keys_count(front);
        assert forall|id: K::V| #[trigger] ids(entries).contains(id) <==> ids(front).insert(
            e.0@,
        ).contains(id) by {
            if holds(entries, id) {
                let i = choose|i: int| 0 <= i < entries.len() && (#[trigger] entries[i]).0@ == id;
                if i < front.len() {
                    assert(front[i].0@ == id);
                }
            }
        }
        assert(ids(entries) =~= ids(front).insert(e.0@));
    }
}

/// In a valid bucket array no key occurs twice, in a bucket or across
/// buckets, and the number of entries is the number of distinct keys.
pub proof fn law_keys_once<K: Key, V>(chains: Seq<Seq<(K, V)>>)
    requires
        valid(chains),
    ensures
        distinct(chains.flatten()),
        as_map(chains).dom().finite(),
        as_map(chains).dom().len() == chains.flatten().len(),
{
    lemma_flat(chains);
    law_distinct_keys_count(chains.flatten());
    assert(as_map(chains).dom() =~= ids(chains.flatten()));
}

/// A lookup straight after an insertion finds the value that was inserted.
pub proof fn law_insert_then_lookup<K: Key, V>(chains: Seq<Seq<(K, V)>>, key: K, val: V)
    requires
        valid(chains),
    ensures
        valid(inserted(chains, key, val)),
        found(inserted(chains, key, val), key@) == Some(val),
{
    law_insert(chains, key, val);
    lemma_found_is_map(inserted(chains, key, val), key@);
}

/// What an insertion does, whether or not the table grows on the way: the
/// bucket array stays valid, the key is bound to the value, and every other
/// key keeps what it had.
pub proof fn law_insert<K: Key, V>(chains: Seq<Seq<(K, V)>>, key: K, val: V)
    requires
        valid(chains),
    ensures
        valid(inserted(chains, key, val)),
        as_map(inserted(chains, key, val)) == as_map(chains).insert(key@, val),
        forall|id: K::V|
            id != key@ ==> #[trigger] found(inserted(chains, key, val), id) == found(chains, id),
{
    let start = if loaded(chains.len() as int, chains.flatten().len() as int) {
        grown(chains)
    } else {
        chains
    };
    if loaded(chains.len() as int, chains.flatten().len() as int) {
        lemma_spread(chains, 2 * (chains.len() as int));
    }
    lemma_put(start, key, val);
    assert forall|id: K::V| id != key@ implies #[trigger] found(inserted(chains, key, val), id)
        == found(chains, id) by {
        lemma_found_is_map(inserted(chains, key, val), id);
    }
}

/// What is found for a key is what the map binds it to.
pub proof fn lemma_found_is_map<K: Key, V>(chains: Seq<Seq<(K, V)>>, id: K::V)
    ensures
        found(chains, id) == (if as_map(chains).contains_key(id) {
            Some(as_map(chains)[id])
        } else {
            None
        }),
{
}

/// Inserting a key that is there replaces its value and leaves the number
/// of entries and the set of keys as they were.
pub proof fn law_insert_overwrites<K: Key, V>(chains: Seq<Seq<(K, V)>>, key: K, val: V)
    requires
        valid(chains),
        found(chains, key@) is Some,
    ensures
        found(inserted(chains, key, val), key@) == Some(val),
        inserted(chains, key, val).flatten().len() == chains.flatten().len(),
        as_map(inserted(chains, key, val)).dom() == as_map(chains).dom(),
{
    law_insert_then_lookup(chains, key, val);
    law_insert(chains, key, val);
    law_keys_once(chains);
    law_keys_once(inserted(chains, key, val));
}

/// Inserting a key that is not there adds one entry.
pub proof fn law_insert_adds<K: Key, V>(chains: Seq<Seq<(K, V)>>, key: K, val: V)
    requires
        valid(chains),
        found(chains, key@) is None,
    ensures
        inserted(chains, key, val).flatten().len() == chains.flatten().len() + 1,
{
    law_insert(chains, key, val);
    law_keys_once(chains);
    law_keys_once(inserted(chains, key, val));
}

/// Doubling the bucket array keeps every key with its value, and the number
/// of entries.
pub proof fn law_growth_keeps_entries<K: Key, V>(chains: Seq<Seq<(K, V)>>)
    requires
        valid(chains),
    ensures
        valid(grown(chains)),
        grown(chains).len() == 2 * chains.len(),
        as_map(grown(chains)) == as_map(chains),
        forall|id: K::V| #[trigger] found(grown(chains), id) == found(chains, id),
        grown(chains).flatten().len() == chains.flatten().len(),
{
    lemma_spread(chains, 2 * (chains.len() as int));
    assert forall|id: K::V| #[trigger] found(grown(chains), id) == found(chains, id) by {
        lemma_found_is_map(chains, id);
    }
}

/// Removing a key that is not there changes nothing; removing one that is
/// there takes one entry away. Either way the key is not found afterwards,
/// and every other key keeps what it had.
pub proof fn law_remove<K: Key, V>(chains: Seq<Seq<(K, V)>>, id: K::V)
    requires
        valid(chains),
    ensures
        valid(cut(chains, id)),
        found(chains, id) is None ==> cut(chains, id) == chains,
        found(chains, id) is Some ==> cut(chains, id).flatten().len() == chains.flatten().len()
            - 1,
        found(cut(chains, id), id) is None,
        forall|other: K::V|
            other != id ==> #[trigger] found(cut(chains, id), other) == found(chains, other),
{
    lemma_cut(chains, id);
    lemma_found_is_map(cut(chains, id), id);
    assert forall|other: K::V| other != id implies #[trigger] found(cut(chains, id), other)
        == found(chains, other) by {
        lemma_found_is_map(cut(chains, id), other);
    }
}

/// Two lookups of one key in one table give the same result.
pub proof fn law_lookup_repeats<K: Key, V>(
    table: &HashTable<K, V>,
    key: &K,
    first: Option<&V>,
    second: Option<&V>,
)
    requires
        table.wf(),
        call_ensures(HashTable::<K, V>::lookup, (table, key), first),
        call_ensures(HashTable::<K, V>::lookup, (table, key), second),
    ensures
        first == second,
{
}

} // verus!
