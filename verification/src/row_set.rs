//! Sets of rows that remember the order in which rows came in.
use vstd::prelude::*;

verus! {

#[verifier::external_type_specification]
#[verifier::external_body]
#[verifier::reject_recursive_types(T)]
#[verifier::reject_recursive_types(S)]
pub struct ExIndexSet<T, S>(indexmap::IndexSet<T, S>);

#[verifier::external_type_specification]
#[verifier::external_body]
#[verifier::reject_recursive_types(H)]
pub struct ExBuildHasherDefault<H>(std::hash::BuildHasherDefault<H>);

#[verifier::external_type_specification]
#[verifier::external_body]
pub struct ExAHasher(egui::ahash::AHasher);

/// An insertion-ordered set of row numbers.
pub type RowSet = indexmap::IndexSet<usize, std::hash::BuildHasherDefault<egui::ahash::AHasher>>;

/// The rows that a set holds, first inserted first.
pub uninterp spec fn row_set_items(set: RowSet) -> Seq<usize>;

/// Makes an empty set, with `IndexSet::default`.
#[verifier::external_body]
pub(crate) fn row_set_new() -> (set: RowSet)
    ensures
        row_set_items(set) == Seq::<usize>::empty(),
{
    RowSet::default()
}

/// Empties a set, with `IndexSet::clear`.
#[verifier::external_body]
pub(crate) fn row_set_clear(set: &mut RowSet)
    ensures
        row_set_items(*final(set)) == Seq::<usize>::empty(),
{
    set.clear()
}

/// Adds a row with `IndexSet::insert`: a new row goes last and gives `true`, a row that is
/// there already changes nothing and gives `false`.
#[verifier::external_body]
pub(crate) fn row_set_insert(set: &mut RowSet, row: usize) -> (fresh: bool)
    ensures
        fresh == !row_set_items(*old(set)).contains(row),
        row_set_items(*final(set)) == if fresh {
            row_set_items(*old(set)).push(row)
        } else {
            row_set_items(*old(set))
        },
{
    set.insert(row)
}

/// The row at a place in the insertion order, with `IndexSet::get_index`; `None` past the end.
#[verifier::external_body]
pub(crate) fn row_set_get(set: &RowSet, index: usize) -> (row: Option<usize>)
    ensures
        row == if index < row_set_items(*set).len() {
            Some(row_set_items(*set)[index as int])
        } else {
            None
        },
{
    set.get_index(index).copied()
}

} // verus!
