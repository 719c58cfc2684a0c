use crate::chains::{inserted, loaded};
use crate::hash_table::HashTable;
use vstd::prelude::*;

verus! {

/// The count that `word` has once one more occurrence of it is counted.
pub open spec fn raised(counts: Map<Seq<char>, i32>, word: Seq<char>) -> int {
    if counts.contains_key(word) {
        counts[word] + 1
    } else {
        1
    }
}

/// Counts one occurrence of `word`: a word that the table has gets its
/// count raised by one, a new word gets the count one. The table changes as
/// by one insertion.
pub fn process_word(ht: &mut HashTable<String, i32>, word: &str)
    requires
        old(ht).wf(),
        loaded(old(ht).chains().len() as int, old(ht)@.dom().len() as int) ==> 2 * old(
            ht,
        ).chains().len() <= usize::MAX,
        raised(old(ht)@, word@) <= i32::MAX,
    ensures
        final(ht).wf(),
        final(ht)@ == old(ht)@.insert(word@, raised(old(ht)@, word@) as i32),
        exists|key: String|
            key@ == word@ && #[trigger] inserted(
                old(ht).chains(),
                key,
                raised(old(ht)@, word@) as i32,
            ) == final(ht).chains(),
{
    let w_string = word.to_owned();
    let count: i32 = match ht.lookup(&w_string) {
        Some(val) => *val + 1,
        None => 1,
    };
    let ghost key = w_string;
    ht.insert(w_string, count);
    assert(key@ == word@ && inserted(old(ht).chains(), key, raised(old(ht)@, word@) as i32)
        == ht.chains());
}

} // verus!
