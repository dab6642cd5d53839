//! Insertion-ordered sets of resource ids, kept by `indexmap::IndexSet`.
//!
//! Verus does not look inside the set. The items it holds, in insertion
//! order, are named by `set_items`, and each wrapper below states over that
//! name what the method it calls does. None of these contracts is proved.

use indexmap::IndexSet;
use vstd::prelude::*;

verus! {

/// `indexmap::IndexSet`, of which Verus sees nothing but the name.
#[verifier::external_type_specification]
#[verifier::external_body]
#[verifier::reject_recursive_types(T)]
#[verifier::reject_recursive_types(S)]
pub struct ExIndexSet<T, S>(indexmap::IndexSet<T, S>);

/// The items of the set, in the order in which they were first inserted.
pub uninterp spec fn set_items(s: IndexSet<u64>) -> Seq<u64>;

/// `IndexSet::new`: a set that holds nothing.
#[verifier::external_body]
pub(crate) fn ordered_new() -> (s: IndexSet<u64>)
    ensures
        set_items(s) == Seq::<u64>::empty(),
{
    IndexSet::new()
}

/// `IndexSet::len`: the number of items.
#[verifier::external_body]
pub(crate) fn ordered_len(s: &IndexSet<u64>) -> (n: usize)
    ensures
        n == set_items(*s).len(),
{
    s.len()
}

/// `IndexSet::insert_full`: an item that the set lacks goes to the end, and the
/// call returns its index and `true`; one that it holds leaves the set as it
/// is, and the call returns the index at which it stands and `false`.
#[verifier::external_body]
pub(crate) fn ordered_insert(s: &mut IndexSet<u64>, value: u64) -> (r: (usize, bool))
    ensures
        r.1 == !set_items(*old(s)).contains(value),
        r.1 ==> set_items(*final(s)) == set_items(*old(s)).push(value) && r.0 == set_items(
            *old(s),
        ).len(),
        !r.1 ==> set_items(*final(s)) == set_items(*old(s)) && r.0 < set_items(*old(s)).len()
            && set_items(*old(s))[r.0 as int] == value,
{
    s.insert_full(value)
}

/// `IndexSet::get_index_of`: an index at which `value` stands, or `None` where
/// the set does not hold it.
#[verifier::external_body]
pub(crate) fn ordered_index_of(s: &IndexSet<u64>, value: u64) -> (r: Option<usize>)
    ensures
        r matches Some(i) ==> i < set_items(*s).len() && set_items(*s)[i as int] == value,
        r is None ==> !set_items(*s).contains(value),
{
    s.get_index_of(&value)
}

/// `IndexSet::get_index`: the item at `index`, or `None` past the end.
#[verifier::external_body]
pub(crate) fn ordered_get(s: &IndexSet<u64>, index: usize) -> (r: Option<u64>)
    ensures
        index < set_items(*s).len() ==> r == Some(set_items(*s)[index as int]),
        index >= set_items(*s).len() ==> r is None,
{
    s.get_index(index).copied()
}

} // verus!
