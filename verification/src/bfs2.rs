//! Best-first search in rounds of up to eight nodes, expanded one after
//! the other.

use cons_list::ConsList;
use vstd::prelude::*;
use crate::batch::{search_in_batches, rounds_result};
use crate::graph::Graph;
use crate::path::{list_items, empty_list};
use crate::pos::Pos;
use crate::routes::{solvable, solves_simply};

verus! {

/// The number of nodes taken out of the frontier in each round.
const N: usize = 8;

/// Searches `graph` for a route from its entrance to its exit in rounds of
/// up to eight nodes.
///
/// Returns `None` exactly when no route leads there. Otherwise the list
/// holds a route that visits no position twice, last step first; it is
/// empty when the entrance is the exit. The list is the one that the
/// rounds give, as `rounds_result` describes: each round takes up to the eight
/// cheapest entries, expands them against the positions explored before
/// it, and the first child at the exit, in round order, ends the search.
pub fn try_double_breadth_first_search(graph: &Graph) -> (r: Option<ConsList<Pos>>)
    ensures
        r is Some <==> solvable(*graph),
        r matches Some(l) ==> solves_simply(*graph, list_items(l)),
        r matches Some(l) ==> rounds_result(*graph, 8, list_items(l)),
{
    search_in_batches(graph, N, false)
}

/// Searches `graph`, whose exit can be reached from its entrance, for a
/// route there in rounds of up to eight nodes: the list holds it last step
/// first, and the route visits no position twice.
pub fn double_breadth_first_search(graph: Graph) -> (l: ConsList<Pos>)
    requires
        solvable(graph),
    ensures
        solves_simply(graph, list_items(l)),
        rounds_result(graph, 8, list_items(l)),
{
    match try_double_breadth_first_search(&graph) {
        Some(l) => l,
        None => {
            assert(false);
            empty_list()
        },
    }
}

} // verus!
