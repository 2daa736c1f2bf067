//! Hash sets of component positions, with the contracts the scene relies on.

use vstd::prelude::*;
use std::collections::HashSet;
use vstd::std_specs::iter::IteratorSpec;

verus! {

/// The view of a hash set is a finite set.
pub proof fn lemma_finite(set: &HashSet<usize>)
    ensures
        set@.finite(),
{
    broadcast use vstd::std_specs::hash::group_hash_axioms;

    let keys = set.iter().remaining().unref();
    assert(keys.to_set() == set@);
}

/// Adds `i` to the set and tells whether it was new.
pub fn insert(set: &mut HashSet<usize>, i: usize) -> (fresh: bool)
    ensures
        final(set)@ == old(set)@.insert(i),
        fresh == !old(set)@.contains(i),
{
    broadcast use vstd::std_specs::hash::group_hash_axioms;

    set.insert(i)
}

/// Takes `i` out of the set and tells whether it was there.
pub fn remove(set: &mut HashSet<usize>, i: usize) -> (present: bool)
    ensures
        final(set)@ == old(set)@.remove(i),
        present == old(set)@.contains(i),
{
    broadcast use vstd::std_specs::hash::group_hash_axioms;

    set.remove(&i)
}

/// Tells whether `i` is in the set.
pub fn contains(set: &HashSet<usize>, i: usize) -> (present: bool)
    ensures
        present == set@.contains(i),
{
    broadcast use vstd::std_specs::hash::group_hash_axioms;

    set.contains(&i)
}

/// Tells whether the set has no member.
pub fn is_empty(set: &HashSet<usize>) -> (empty: bool)
    ensures
        empty == set@.is_empty(),
{
    set.is_empty()
}

/// Adds every member of `other` to `set`.
pub fn extend(set: &mut HashSet<usize>, other: &HashSet<usize>)
    ensures
        final(set)@ == old(set)@.union(other@),
{
    broadcast use vstd::std_specs::hash::group_hash_axioms;

    let ghost keys = other.iter().remaining().unref();
    for i in it: other.iter()
        invariant
            it.seq().unref() == keys,
            keys.to_set() == other@,
            set@.subset_of(old(set)@.union(other@)),
            old(set)@.subset_of(set@),
            forall|j: int| 0 <= j < it.index() ==> set@.contains(#[trigger] keys[j]),
    {
        assert(keys[it.index()] == *i);
        assert(keys.to_set().contains(keys[it.index()]));
        insert(set, *i);
    }
    assert(set@ =~= old(set)@.union(other@)) by {
        assert forall|x: usize| other@.contains(x) implies set@.contains(x) by {
            let j = choose|j: int| 0 <= j < keys.len() && keys[j] == x;
            assert(set@.contains(keys[j]));
        }
    }
}

/// Some member of the set, or `None` if the set is empty.  Which member comes
/// first is up to the hash set.
pub fn any(set: &HashSet<usize>) -> (member: Option<usize>)
    ensures
        member is None <==> set@.is_empty(),
        member matches Some(i) ==> set@.contains(i),
{
    broadcast use vstd::std_specs::hash::group_hash_axioms;

    let ghost keys = set.iter().remaining().unref();
    for i in it: set.iter()
        invariant
            it.index() == 0,
            it.seq().unref() == keys,
            keys.to_set() == set@,
            keys.len() == set@.len(),
    {
        assert(keys[0] == *i);
        assert(keys.to_set().contains(keys[0]));
        return Some(*i);
    }
    assert(keys.len() == 0);
    assert(set@.finite());
    None
}

} // verus!
