use std::collections::hash_map::DefaultHasher;
use std::hash::{Hash, Hasher};
use vstd::prelude::*;
use vstd::std_specs::hash::DefaultHasherAdditionalSpecFns;

verus! {

/// What a type must offer to serve as a key: an identity (its view), an
/// equality test that decides that identity, and a way to feed a hasher that
/// depends on nothing but the identity.
pub trait Key: View + Sized {
    /// The writes that a key with identity `id` makes on a hasher, in order.
    spec fn hash_input(id: Self::V) -> Seq<Seq<u8>>;

    /// Whether `self` and `other` are the same key.
    fn same(&self, other: &Self) -> (r: bool)
        ensures
            r == (self@ == other@),
    ;

    /// Feeds the key to `state`.
    fn feed(&self, state: &mut DefaultHasher)
        ensures
            final(state)@ == old(state)@ + Self::hash_input(self@),
    ;
}

/// The digest that a fresh `DefaultHasher` gives once a key with identity
/// `id` has been fed to it.
pub open spec fn digest<K: Key>(id: K::V) -> u64 {
    DefaultHasher::spec_finish(K::hash_input(id))
}

/// The writes that `String`'s `Hash` impl makes on a hasher for the text `text`.
pub uninterp spec fn string_hash_input(text: Seq<char>) -> Seq<Seq<u8>>;

/// Calls `<String as Hash>::hash`. Trusted: the writes it makes on the hasher
/// are appended to those made before, and depend on the text alone.
#[verifier::external_body]
fn feed_string(key: &String, state: &mut DefaultHasher)
    ensures
        final(state)@ == old(state)@ + string_hash_input(key@),
{
    key.hash(state)
}

impl Key for String {
    open spec fn hash_input(id: Seq<char>) -> Seq<Seq<u8>> {
        string_hash_input(id)
    }

    fn same(&self, other: &Self) -> (r: bool) {
        *self == *other
    }

    fn feed(&self, state: &mut DefaultHasher) {
        feed_string(self, state)
    }
}

impl Key for u64 {
    open spec fn hash_input(id: u64) -> Seq<Seq<u8>> {
        seq![vstd::bytes::spec_u64_to_le_bytes(id)]
    }

    fn same(&self, other: &Self) -> (r: bool) {
        *self == *other
    }

    fn feed(&self, state: &mut DefaultHasher) {
        let bytes = vstd::bytes::u64_to_le_bytes(*self);
        state.write(bytes.as_slice());
    }
}

} // verus!
