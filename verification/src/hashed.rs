//! The hash collections of `rustc_hash` that the library keeps.

use rustc_hash::{FxHashMap, FxHashSet};
use vstd::prelude::*;

verus! {

/// `rustc_hash::FxBuildHasher`: the hasher of the collections below. Nothing is
/// claimed of it.
#[verifier::external_type_specification]
#[verifier::external_body]
pub struct ExFxBuildHasher(rustc_hash::FxBuildHasher);

/// What a map from names to positions holds.
pub uninterp spec fn index_contents(m: FxHashMap<String, usize>) -> Map<Seq<char>, usize>;

/// What a set of (device, file) pairs holds.
pub uninterp spec fn seen_contents(s: FxHashSet<(u32, u64)>) -> Set<(u32, u64)>;

/// `FxHashMap::default`: a map that holds nothing.
#[verifier::external_body]
pub(crate) fn index_new() -> (m: FxHashMap<String, usize>)
    ensures
        index_contents(m).dom() == Set::<Seq<char>>::empty(),
{
    FxHashMap::default()
}

/// `FxHashMap::insert`: the name now maps to the position, whatever it mapped to
/// before; every other name is as it was.
#[verifier::external_body]
pub(crate) fn index_insert(m: &mut FxHashMap<String, usize>, name: String, at: usize)
    ensures
        index_contents(*final(m)) == index_contents(*old(m)).insert(name@, at),
{
    m.insert(name, at);
}

/// `FxHashMap::get`: the position that the name maps to, if there is one.
#[verifier::external_body]
pub(crate) fn index_get(m: &FxHashMap<String, usize>, name: &str) -> (r: Option<usize>)
    ensures
        r == (if index_contents(*m).contains_key(name@) {
            Some(index_contents(*m)[name@])
        } else {
            None
        }),
{
    m.get(name).copied()
}

/// `FxHashSet::default`: a set that holds nothing.
#[verifier::external_body]
pub(crate) fn seen_new() -> (s: FxHashSet<(u32, u64)>)
    ensures
        seen_contents(s) == Set::<(u32, u64)>::empty(),
{
    FxHashSet::default()
}

/// `FxHashSet::insert`: the set now holds the pair; the result is whether it did
/// not hold it before.
#[verifier::external_body]
pub(crate) fn seen_insert(s: &mut FxHashSet<(u32, u64)>, key: (u32, u64)) -> (r: bool)
    ensures
        r == !seen_contents(*old(s)).contains(key),
        seen_contents(*final(s)) == seen_contents(*old(s)).insert(key),
{
    s.insert(key)
}

} // verus!
