//! Lookup by name, on the hash tables of the `ahash` crate.

use vstd::prelude::*;

verus! {

/// The hasher state of `ahash`, which is seeded anew in each process.
#[verifier::external_type_specification]
#[verifier::external_body]
pub struct ExRandomState(ahash::RandomState);

/// Positions found by name.
pub type NameIndex = ahash::HashMap<String, usize>;

/// A set of names.
pub type NameSet = ahash::HashSet<String>;

/// The position that a `NameIndex` holds for each of its names.
pub uninterp spec fn positions(index: NameIndex) -> Map<Seq<char>, usize>;

/// The names that a `NameSet` holds.
pub uninterp spec fn names(set: NameSet) -> Set<Seq<char>>;

/// Calls `ahash::HashMapExt::new`. Trusted: a new table is empty.
#[verifier::external_body]
pub(crate) fn new_index() -> (index: NameIndex)
    ensures
        (positions(index) == Map::<Seq<char>, usize>::empty()),
{
    ahash::HashMapExt::new()
}

/// Calls `insert` of `ahash::HashMap`. Trusted: the name now has this position, in place of the
/// one it may have had, and every other name keeps its own.
#[verifier::external_body]
pub(crate) fn put(index: &mut NameIndex, name: String, position: usize)
    ensures
        positions(*final(index)) == positions(*old(index)).insert(name@, position),
{
    index.insert(name, position);
}

/// Calls `get` of `ahash::HashMap`. Trusted: gives the position of `name`, if it has one.
#[verifier::external_body]
pub(crate) fn find(index: &NameIndex, name: &str) -> (position: Option<usize>)
    ensures
        position == (if positions(*index).contains_key(name@) {
            Some(positions(*index)[name@])
        } else {
            None
        }),
{
    index.get(name).copied()
}

/// Calls `ahash::HashSetExt::new`. Trusted: a new set is empty.
#[verifier::external_body]
pub(crate) fn new_set() -> (set: NameSet)
    ensures
        names(set) == Set::<Seq<char>>::empty(),
{
    ahash::HashSetExt::new()
}

/// Calls `insert` of `ahash::HashSet`. Trusted: the set now holds `name` besides what it held.
#[verifier::external_body]
pub(crate) fn add_name(set: &mut NameSet, name: String)
    ensures
        names(*final(set)) == names(*old(set)).insert(name@),
{
    set.insert(name);
}

/// Calls `contains` of `ahash::HashSet`. Trusted: tells whether the set holds `name`.
#[verifier::external_body]
pub(crate) fn has_name(set: &NameSet, name: &str) -> (yes: bool)
    ensures
        yes == names(*set).contains(name@),
{
    set.contains(name)
}

} // verus!
