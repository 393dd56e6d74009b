//! Routes through a maze, kept as immutable shared lists (`cons_list`).
//!
//! A route is grown one step at a time by putting the new position in front
//! of the list, so the list of a route reads from its last position back to
//! its first; routes that share a beginning share its list cells.

use cons_list::ConsList;
use vstd::prelude::*;
use crate::pos::Pos;

verus! {

#[verifier::external_type_specification]
#[verifier::external_body]
#[verifier::reject_recursive_types(T)]
pub struct ExConsList<T>(ConsList<T>);

/// The positions that a list holds, front first.
pub uninterp spec fn list_items(l: ConsList<Pos>) -> Seq<Pos>;

/// Calls `ConsList::new`, which builds a list with no cell: it holds
/// nothing.
#[verifier::external_body]
pub(crate) fn empty_list() -> (l: ConsList<Pos>)
    ensures
        list_items(l) == Seq::<Pos>::empty(),
{
    ConsList::new()
}

/// Calls `ConsList::append`, which returns a new list whose first cell holds
/// `p` and whose rest is the cells of `l` (shared, not copied); its length
/// field is the length of `l` plus one, which is why the length of `l` must
/// leave room for that addition.
#[verifier::external_body]
pub(crate) fn push_front(l: &ConsList<Pos>, p: Pos) -> (r: ConsList<Pos>)
    requires
        list_items(*l).len() < usize::MAX,
    ensures
        list_items(r) == seq![p] + list_items(*l),
{
    l.append(p)
}

} // verus!
