//! Best-first search: the frontier hands out the node with the shortest
//! route so far, and the search ends as soon as a node next to the exit is
//! expanded.

use std::collections::HashSet;
use cons_list::ConsList;
use vstd::prelude::*;
use vstd::multiset::Multiset;
use crate::batch::{fresh, fresh_upto, made_for, rounds_start};
use crate::graph::{Graph, Neighbours, lists};
use crate::node::{Node, node_ok, node_route, frontier_ok, frontier_covers, in_frontier, step_cost, offers,
    frontier_cheap, start_offered, lemma_child_ok, lemma_route_has_room, lemma_node_ok_grows,
    lemma_frontier_ok_shrinks, lemma_covers_after_expansion, lemma_cost_room, lemma_popped_no_cheaper,
    lemma_cheap_after_expansion, lemma_push_entry};
use crate::path::{list_items, empty_list, push_front};
use crate::pos::{Pos, key_of, pos_key};
use crate::queue::{MinQueue, is_cheapest};
use crate::routes::{solvable, solves_simply, leads_to, holds, route_of, closed_under_edges,
    lemma_closed_set_holds_reachable, lemma_unexplored_shrinks, spec_step_cost, route_cost, solves_cheaply,
    exit_has_one_way_in, lemma_cheapest_exit, lemma_empty_route_cheapest};

verus! {

broadcast use {
    vstd::std_specs::hash::axiom_u64_obeys_hash_table_key_model,
    vstd::std_specs::hash::axiom_random_state_builds_valid_hashers,
    vstd::std_specs::hash::axiom_set_contains_deref_key,
    vstd::multiset::group_multiset_axioms,
    vstd::seq_lib::group_to_multiset_ensures,
};

/// `kids` holds, in order, the entries made from `parent` for the
/// positions `fr`.
pub open spec fn kids_for(g: Graph, parent: Node, fr: Seq<Pos>, kids: Seq<(u128, Node)>) -> bool {
    &&& kids.len() == fr.len()
    &&& forall|i: int| 0 <= i < fr.len() ==> made_for(g, parent, fr[i], #[trigger] kids[i])
}

/// What the search does with the entry `entry` it takes out of the frontier
/// `f`, with `e` explored, when no exit comes of it: it drops the entry
/// when its position is explored; otherwise it explores the position and
/// adds the entries made for the neighbours not explored then, none of
/// which is the exit. The frontier becomes `f2` and the explored set `e2`.
pub open spec fn bfs_turn(
    g: Graph,
    f: Multiset<(u128, Node)>,
    e: Set<u64>,
    entry: (u128, Node),
    f2: Multiset<(u128, Node)>,
    e2: Set<u64>,
) -> bool {
    if holds(e, entry.1.pos) {
        f2 == f.remove(entry) && e2 == e
    } else {
        let e1 = e.insert(pos_key(entry.1.pos));
        let fr = fresh(e1, entry.1.neighbours);
        &&& e2 == e1
        &&& !fr.contains(g.end_node())
        &&& exists|kids: Seq<(u128, Node)>| #[trigger] kids_for(g, entry.1, fr, kids) && f2 == f.remove(entry).add(
            kids.to_multiset(),
        )
    }
}

/// One turn of the search from the frontier `f` and the explored set `e`
/// that finds no exit: it takes an entry of least cost out of the frontier
/// and deals with it as `bfs_turn` says.
pub open spec fn bfs_step(
    g: Graph,
    f: Multiset<(u128, Node)>,
    e: Set<u64>,
    f2: Multiset<(u128, Node)>,
    e2: Set<u64>,
) -> bool {
    exists|entry: (u128, Node)| #[trigger] f.contains(entry) && is_cheapest(f, entry) && bfs_turn(g, f, e, entry, f2, e2)
}

/// The turn from the frontier `f` and the explored set `e` ends the search
/// with the list `l`: the entry of least cost it takes is at an unexplored
/// position that lists the exit among its unexplored neighbours, and `l`
/// is the exit in front of that entry's list.
pub open spec fn bfs_finds(g: Graph, f: Multiset<(u128, Node)>, e: Set<u64>, l: Seq<Pos>) -> bool {
    exists|entry: (u128, Node)| {
        &&& #[trigger] f.contains(entry)
        &&& is_cheapest(f, entry)
        &&& !holds(e, entry.1.pos)
        &&& fresh(e.insert(pos_key(entry.1.pos)), entry.1.neighbours).contains(g.end_node())
        &&& l == seq![g.end_node()] + list_items(entry.1.path)
    }
}

/// `t` holds, in order, the frontier and explored set of the search: the
/// start, then the state after each turn, none of which found the exit.
pub open spec fn bfs_trace(g: Graph, t: Seq<(Multiset<(u128, Node)>, Set<u64>)>) -> bool {
    &&& t.len() > 0
    &&& rounds_start(g, t[0].0, t[0].1)
    &&& forall|i: int| 0 < i < t.len() ==> bfs_step(g, t[i - 1].0, t[i - 1].1, (#[trigger] t[i]).0, t[i].1)
}

/// The list that the cheapest-first search gives: empty when the entrance
/// is the exit, and otherwise the list of the first turn that finds the
/// exit.
pub open spec fn bfs_result(g: Graph, l: Seq<Pos>) -> bool {
    if g.start_node() == g.end_node() {
        l.len() == 0
    } else {
        exists|t: Seq<(Multiset<(u128, Node)>, Set<u64>)>| #[trigger] bfs_trace(g, t) && bfs_finds(
            g,
            t.last().0,
            t.last().1,
            l,
        )
    }
}

/// The number of turns of the trace `t` that took an entry at a position
/// already explored: those that left the explored set as it was.
pub open spec fn skip_count(t: Seq<(Multiset<(u128, Node)>, Set<u64>)>) -> nat
    decreases t.len(),
{
    if t.len() <= 1 {
        0
    } else {
        skip_count(t.drop_last()) + if t.last().1 == t[t.len() - 2].1 {
            1nat
        } else {
            0nat
        }
    }
}

/// One more state counts one more skip exactly when it leaves the explored
/// set as it was.
proof fn lemma_skip_count_push(t: Seq<(Multiset<(u128, Node)>, Set<u64>)>, x: (Multiset<(u128, Node)>, Set<u64>))
    requires
        t.len() > 0,
    ensures
        skip_count(t.push(x)) == skip_count(t) + if x.1 == t.last().1 {
            1nat
        } else {
            0nat
        },
{
    let t2 = t.push(x);
    assert(t2.drop_last() =~= t);
    assert(t2[t2.len() - 2] == t.last());
}

/// The count `skips` is that of the trace `t`, and it leaves the frontier
/// `f` room: the entries taken and left number at most one, for the
/// entrance, and four for each explored position.
#[verifier::opaque]
pub open spec fn skips_ok(t: Seq<(Multiset<(u128, Node)>, Set<u64>)>, skips: int, f: Multiset<(u128, Node)>, e: Set<
    u64,
>) -> bool {
    &&& skips == skip_count(t)
    &&& skips + f.len() <= 1 + 4 * e.len()
}

/// A count that leaves its frontier room, with at most `usize::MAX`
/// explored positions, can grow by one.
proof fn lemma_skips_room(t: Seq<(Multiset<(u128, Node)>, Set<u64>)>, skips: int, f: Multiset<(u128, Node)>, e: Set<u64>)
    requires
        skips_ok(t, skips, f, e),
        e.len() <= usize::MAX,
    ensures
        skips + 1 <= u128::MAX,
{
    reveal(skips_ok);
}

/// A skipped entry counts one more skip.
proof fn lemma_skips_after_skip(
    t: Seq<(Multiset<(u128, Node)>, Set<u64>)>,
    skips: int,
    f0: Multiset<(u128, Node)>,
    e0: Set<u64>,
    entry: (u128, Node),
)
    requires
        skips_ok(t, skips, f0, e0),
        t.len() > 0,
        t.last() == (f0, e0),
        f0.contains(entry),
    ensures
        skips_ok(t.push((f0.remove(entry), e0)), skips + 1, f0.remove(entry), e0),
{
    reveal(skips_ok);
    lemma_skip_count_push(t, (f0.remove(entry), e0));
    assert(f0.remove(entry).len() == f0.len() - 1);
}

/// An explored entry counts no skip, and its children fit the room that
/// the newly explored position makes.
proof fn lemma_skips_after_explore(
    t: Seq<(Multiset<(u128, Node)>, Set<u64>)>,
    skips: int,
    f0: Multiset<(u128, Node)>,
    e0: Set<u64>,
    entry: (u128, Node),
    kids: Seq<(u128, Node)>,
    f2: Multiset<(u128, Node)>,
    key: u64,
)
    requires
        skips_ok(t, skips, f0, e0),
        t.len() > 0,
        t.last() == (f0, e0),
        f0.contains(entry),
        f2 == f0.remove(entry).add(kids.to_multiset()),
        kids.len() <= 4,
        e0.finite(),
        !e0.contains(key),
    ensures
        skips_ok(t.push((f2, e0.insert(key))), skips, f2, e0.insert(key)),
{
    reveal(skips_ok);
    lemma_skip_count_push(t, (f2, e0.insert(key)));
    assert(e0.insert(key) != e0) by {
        assert(e0.insert(key).contains(key));
    }
    lemma_entries_bound(f0, entry, kids, f2, e0, key, skips);
}

/// Exploring one more position adds at most four entries for the one it
/// takes out, and one position to the explored set.
proof fn lemma_entries_bound(
    f0: Multiset<(u128, Node)>,
    entry: (u128, Node),
    kids: Seq<(u128, Node)>,
    f2: Multiset<(u128, Node)>,
    e0: Set<u64>,
    key: u64,
    count: int,
)
    requires
        f0.contains(entry),
        f2 == f0.remove(entry).add(kids.to_multiset()),
        kids.len() <= 4,
        e0.finite(),
        !e0.contains(key),
        count + f0.len() <= 1 + 4 * e0.len(),
    ensures
        count + f2.len() <= 1 + 4 * e0.insert(key).len(),
{
    assert(e0.insert(key).len() == e0.len() + 1);
    assert(f0.remove(entry).len() == f0.len() - 1);
    assert(kids.to_multiset().len() == kids.len());
}

/// A trace followed by one more turn that finds no exit is a trace.
proof fn lemma_bfs_trace_push(
    g: Graph,
    t: Seq<(Multiset<(u128, Node)>, Set<u64>)>,
    f2: Multiset<(u128, Node)>,
    e2: Set<u64>,
)
    requires
        bfs_trace(g, t),
        exists|entry: (u128, Node)| #[trigger] t.last().0.contains(entry) && is_cheapest(t.last().0, entry) && bfs_turn(
            g,
            t.last().0,
            t.last().1,
            entry,
            f2,
            e2,
        ),
    ensures
        bfs_trace(g, t.push((f2, e2))),
{
    let t2 = t.push((f2, e2));
    assert(bfs_step(g, t.last().0, t.last().1, f2, e2));
    assert forall|i: int| 0 < i < t2.len() implies bfs_step(g, t2[i - 1].0, t2[i - 1].1, (#[trigger] t2[i]).0, t2[i].1)
        by {
        if i < t.len() {
            assert(t2[i] == t[i] && t2[i - 1] == t[i - 1]);
        }
    }
}

/// The positions of `fresh_upto` up to slot `a` come first among those up
/// to slot `b`.
proof fn lemma_fresh_upto_prefix(e: Set<u64>, nbrs: Neighbours, a: int, b: int)
    requires
        0 <= a <= b,
    ensures
        fresh_upto(e, nbrs, a).len() <= fresh_upto(e, nbrs, b).len(),
        forall|t: int| 0 <= t < fresh_upto(e, nbrs, a).len() ==> #[trigger] fresh_upto(e, nbrs, b)[t] == fresh_upto(
            e,
            nbrs,
            a,
        )[t],
    decreases b - a,
{
    if a < b {
        lemma_fresh_upto_prefix(e, nbrs, a, b - 1);
    }
}

/// Adds to `frontier` a node for each neighbour of the explored node `node`
/// that is not explored, in the order of the neighbour slots, and stops
/// with the route to the exit as soon as one of them is the exit.
#[verifier::rlimit(100)]
fn expand(graph: &Graph, node: &Node, explored: &HashSet<u64>, frontier: &mut MinQueue<Node>) -> (r: (
    Option<ConsList<Pos>>,
    Ghost<Seq<(u128, Node)>>,
))
    requires
        graph.well_formed(),
        graph.start_node() != graph.end_node(),
        holds(explored@, node.pos),
        node_ok(*graph, *node, explored@),
        list_items(node.path).len() < usize::MAX,
        !holds(explored@, graph.end_node()),
        frontier_ok(*graph, old(frontier)@, explored@),
    ensures
        r.0 matches Some(l) ==> {
            &&& fresh(explored@, node.neighbours).contains(graph.end_node())
            &&& list_items(l) == seq![graph.end_node()] + list_items(node.path)
        },
        r.0 is None ==> {
            &&& kids_for(*graph, *node, fresh(explored@, node.neighbours), r.1@)
            &&& !fresh(explored@, node.neighbours).contains(graph.end_node())
            &&& final(frontier)@ == old(frontier)@.add(r.1@.to_multiset())
        },
        r.0 matches Some(l) ==> {
            &&& solves_simply(*graph, list_items(l))
            &&& graph.edge(node.pos, graph.end_node())
            &&& route_cost(graph.start_node(), route_of(list_items(l))) == node.cost + spec_step_cost(node.pos,
                graph.end_node())
        },
        r.0 is None ==> {
            &&& frontier_ok(*graph, final(frontier)@, explored@)
            &&& forall|e: (u128, Node)| #[trigger] old(frontier)@.contains(e) ==> final(frontier)@.contains(e)
            &&& forall|v: Pos| #[trigger] graph.edge(node.pos, v) ==> holds(explored@, v) || in_frontier(final(frontier)@, v)
            &&& forall|v: Pos| #[trigger] graph.edge(node.pos, v) && !holds(explored@, v) ==> offers(
                final(frontier)@,
                v,
                node.cost + spec_step_cost(node.pos, v),
            )
        },
{
    let ghost g = *graph;
    let ghost e1 = explored@;
    let ghost f1 = frontier@;
    let end = graph.end();
    let mut i: usize = 0;
    let ghost mut kids: Seq<(u128, Node)> = Seq::empty();
    proof {
        assert(frontier@ =~= f1.add(kids.to_multiset()));
    }
    while i < 4
        invariant
            g == *graph,
            g.well_formed(),
            end == g.end_node(),
            g.start_node() != end,
            explored@ == e1,
            !holds(e1, end),
            holds(e1, node.pos),
            node_ok(g, *node, e1),
            list_items(node.path).len() < usize::MAX,
            0 <= i <= 4,
            forall|e: (u128, Node)| #[trigger] f1.contains(e) ==> frontier@.contains(e),
            frontier_ok(g, frontier@, e1),
            forall|j: int| 0 <= j < i && (#[trigger] node.neighbours[j]) is Some ==>
                holds(e1, node.neighbours[j]->0) || offers(frontier@, node.neighbours[j]->0, node.cost
                    + spec_step_cost(node.pos, node.neighbours[j]->0)),
            kids_for(g, *node, fresh_upto(e1, node.neighbours, i as int), kids),
            !fresh_upto(e1, node.neighbours, i as int).contains(end),
            frontier@ == f1.add(kids.to_multiset()),
        decreases 4 - i,
    {
        let ghost fr0 = fresh_upto(e1, node.neighbours, i as int);
        proof {
            assert(fresh_upto(e1, node.neighbours, i + 1) == match node.neighbours[i as int] {
                Some(v) => if holds(e1, v) { fr0 } else { fr0.push(v) },
                None => fr0,
            });
        }
        if let Some(v) = node.neighbours[i] {
            proof {
                assert(g.nbrs(node.pos)[i as int] is Some);
                lemma_cost_room(g, *node, e1);
            }
            let child = Node {
                pos: v,
                cost: node.cost + step_cost(node.pos, v) as u128,
                neighbours: graph.neighbours(v),
                path: push_front(&node.path, v),
            };
            let vk = key_of(v);
            if !explored.contains(&vk) {
                proof {
                    assert(lists(node.neighbours, v));
                    lemma_child_ok(g, *node, e1, e1, child);
                }
                if v == end {
                    proof {
                        assert(leads_to(g, g.start_node(), node_route(child), end));
                        assert(g.edge(node.pos, v));
                        let fr1 = fresh_upto(e1, node.neighbours, i + 1);
                        lemma_fresh_upto_prefix(e1, node.neighbours, i + 1, 4);
                        assert(fr1[fr0.len() as int] == end);
                        assert(fresh(e1, node.neighbours)[fr0.len() as int] == end);
                    }
                    return (Some(child.path), Ghost(kids));
                }
                let ghost before = frontier@;
                let ghost entry = (child.cost, child);
                frontier.push(child.cost, child);
                proof {
                    let old_kids = kids;
                    kids = kids.push(entry);
                    assert(kids.to_multiset() =~= old_kids.to_multiset().insert(entry));
                    assert(frontier@ =~= f1.add(kids.to_multiset()));
                    let fr1 = fr0.push(v);
                    assert forall|t: int| 0 <= t < fr1.len() implies made_for(g, *node, fr1[t], #[trigger] kids[t]) by {
                        if t < fr0.len() {
                            assert(kids[t] == old_kids[t]);
                        }
                    }
                    assert(!fr1.contains(end)) by {
                        if fr1.contains(end) {
                            let t = choose|t: int| 0 <= t < fr1.len() && fr1[t] == end;
                            if t < fr0.len() {
                                assert(fr0[t] == end);
                            }
                        }
                    }
                    lemma_push_entry(g, before, frontier@, entry, e1);
                    assert forall|e: (u128, Node)| #[trigger] f1.contains(e) implies frontier@.contains(e) by {
                        assert(before.contains(e));
                    }
                }
            }
        }
        i = i + 1;
    }
    proof {
        assert forall|v: Pos| #[trigger] g.edge(node.pos, v) && !holds(e1, v) implies offers(
            frontier@,
            v,
            node.cost + spec_step_cost(node.pos, v),
        ) by {
            let j = choose|j: int| 0 <= j < 4 && #[trigger] node.neighbours[j] == Some(v);
        }
        assert forall|v: Pos| #[trigger] g.edge(node.pos, v) implies holds(e1, v) || in_frontier(frontier@, v) by {
            let j = choose|j: int| 0 <= j < 4 && #[trigger] node.neighbours[j] == Some(v);
            if !holds(e1, v) {
                let e = choose|e: (u128, Node)| #[trigger] frontier@.contains(e) && e.1.pos == v && e.0
                    == node.cost + spec_step_cost(node.pos, v);
            }
        }
    }
    (None, Ghost(kids))
}

/// Searches `graph` for a route from its entrance to its exit.
///
/// Returns `None` exactly when no route leads there. Otherwise the list
/// holds a route that visits no position twice, last step first; it is
/// empty when the entrance is the exit. Nodes are expanded cheapest
/// first, by the length in pixels of the route that reached them, so when
/// a single position leads into the exit the route is a shortest one. The
/// list is the one `bfs_result` describes: that of the first node taken
/// out of the frontier at an unexplored position that lists the exit.
pub fn try_breadth_first_search(graph: &Graph) -> (r: Option<ConsList<Pos>>)
    ensures
        r is Some <==> solvable(*graph),
        r matches Some(l) ==> solves_simply(*graph, list_items(l)),
        r matches Some(l) ==> (exit_has_one_way_in(*graph) ==> solves_cheaply(*graph, list_items(l))),
        r matches Some(l) ==> bfs_result(*graph, list_items(l)),
{
    breadth_first_search_noting_skips(graph).0
}

/// Searches `graph` as `try_breadth_first_search` does, and also counts the
/// entries it takes out of the frontier at a position already explored,
/// which it skips: `skip_count` of the turns of the search.
#[verifier::rlimit(100)]
#[verifier::spinoff_prover]
pub fn breadth_first_search_noting_skips(graph: &Graph) -> (r: (Option<ConsList<Pos>>, u128))
    ensures
        r.0 is Some <==> solvable(*graph),
        r.0 matches Some(l) ==> solves_simply(*graph, list_items(l)),
        r.0 matches Some(l) ==> (exit_has_one_way_in(*graph) ==> solves_cheaply(*graph, list_items(l))),
        r.0 matches Some(l) ==> bfs_result(*graph, list_items(l)),
        graph.start_node() == graph.end_node() ==> r.1 == 0,
        graph.start_node() != graph.end_node() ==> exists|t: Seq<(Multiset<(u128, Node)>, Set<u64>)>| {
            &&& #[trigger] bfs_trace(*graph, t)
            &&& skip_count(t) == r.1
            &&& match r.0 {
                Some(l) => bfs_finds(*graph, t.last().0, t.last().1, list_items(l)),
                None => t.last().0.len() == 0,
            }
        },
{
    proof {
        use_type_invariant(graph);
        graph.lemma_well_formed();
        graph.lemma_domain();
    }
    let ghost g = *graph;
    let start = graph.start();
    let end = graph.end();
    let first = Node { pos: start, cost: 0, neighbours: graph.neighbours(start), path: empty_list() };
    if first.pos == end {
        proof {
            assert(route_of(list_items(first.path)) =~= Seq::<Pos>::empty());
            assert(leads_to(g, start, Seq::<Pos>::empty(), end));
            lemma_empty_route_cheapest(g, list_items(first.path));
            assert(list_items(first.path).len() == 0);
        }
        return (Some(first.path), 0);
    }
    proof {
        assert(route_of(list_items(first.path)) =~= Seq::<Pos>::empty());
        reveal(route_cost);
        assert(node_ok(g, first, Set::<u64>::empty()));
    }
    let ghost first_entry = (0u128, first);
    let mut frontier: MinQueue<Node> = MinQueue::new();
    frontier.push(first.cost, first);
    let mut explored: HashSet<u64> = HashSet::new();
    let size = graph.len();
    let mut skips: u128 = 0;
    let ghost mut trace: Seq<(Multiset<(u128, Node)>, Set<u64>)> = Seq::empty();
    proof {
        assert(frontier@.contains(first_entry));
        assert(offers(frontier@, start, 0));
        assert(frontier@ =~= Multiset::singleton(first_entry));
        assert(explored@ =~= Set::<u64>::empty());
        assert(rounds_start(g, frontier@, explored@));
        trace = seq![(frontier@, explored@)];
        reveal(skips_ok);
        assert(skips_ok(trace, 0, frontier@, explored@));
    }
    loop
        invariant
            g == *graph,
            g.well_formed(),
            g.key_domain().finite(),
            start == g.start_node(),
            end == g.end_node(),
            start != end,
            explored@.subset_of(g.key_domain()),
            !holds(explored@, end),
            frontier_ok(g, frontier@, explored@),
            frontier_covers(g, frontier@, explored@),
            holds(explored@, start) || in_frontier(frontier@, start),
            frontier_cheap(g, frontier@, explored@),
            start_offered(g, frontier@, explored@),
            bfs_trace(g, trace),
            trace.last() == (frontier@, explored@),
            size == g.key_domain().len(),
            skips_ok(trace, skips as int, frontier@, explored@),
        decreases g.key_domain().difference(explored@).len(), frontier@.len(),
    {
        let ghost f0 = frontier@;
        let ghost e0 = explored@;
        let popped = frontier.pop();
        let (cost, node) = match popped {
            Some(e) => e,
            None => {
                proof {
                    assert(holds(e0, start));
                    assert(closed_under_edges(g, e0));
                    if solvable(g) {
                        let steps = choose|steps: Seq<Pos>| #[trigger] leads_to(g, start, steps, end);
                        lemma_closed_set_holds_reachable(g, e0, start, steps, end);
                    }
                    assert(bfs_trace(g, trace));
                    reveal(skips_ok);
                }
                return (None, skips);
            },
        };
        let ghost entry = (cost, node);
        proof {
            assert(f0.contains(entry));
            assert(node_ok(g, node, e0));
            assert forall|e: (u128, Node)| #[trigger] f0.contains(e) && e != entry implies frontier@.contains(e) by {}
            assert forall|e: (u128, Node)| #[trigger] frontier@.contains(e) implies f0.contains(e) by {}
        }
        let key = key_of(node.pos);
        if !explored.insert(key) {
            // Already explored through another route: skip it.
            proof {
                vstd::set_lib::lemma_len_subset(e0, g.key_domain());
                lemma_skips_room(trace, skips as int, f0, e0);
            }
            let ghost skips0 = skips as int;
            skips = skips + 1;
            proof {
                lemma_skips_after_skip(trace, skips0, f0, e0, entry);
                assert(e0.insert(key) == e0);
                lemma_frontier_ok_shrinks(g, f0, e0, frontier@, e0);
                lemma_covers_after_expansion(g, f0, e0, entry, frontier@, e0);
                lemma_cheap_after_expansion(g, f0, e0, entry, frontier@, e0);
                assert(bfs_turn(g, f0, e0, entry, frontier@, e0));
                lemma_bfs_trace_push(g, trace, frontier@, e0);
                trace = trace.push((frontier@, e0));
            }
            continue;
        }
        let ghost e1 = explored@;
        let ghost f1 = frontier@;
        proof {
            g.lemma_domain();
            lemma_unexplored_shrinks(g.key_domain(), e0, key);
            assert(holds(e1, node.pos));
            lemma_node_ok_grows(g, node, e0, e1);
            lemma_route_has_room(g, node, e1);
            lemma_frontier_ok_shrinks(g, f0, e0, f1, e1);
            lemma_popped_no_cheaper(g, f0, e0, entry);
        }
        let (found, Ghost(kids)) = expand(graph, &node, &explored, &mut frontier);
        if found.is_some() {
            proof {
                if exit_has_one_way_in(g) {
                    lemma_cheapest_exit(g, node.pos, node.cost as int, list_items(found->0));
                }
                assert(bfs_finds(g, f0, e0, list_items(found->0)));
                assert(bfs_trace(g, trace));
                reveal(skips_ok);
            }
            return (found, skips);
        }
        proof {
            assert(kids_for(g, node, fresh(e1, node.neighbours), kids));
            assert(bfs_turn(g, f0, e0, entry, frontier@, e1));
            lemma_bfs_trace_push(g, trace, frontier@, e1);
            crate::batch::lemma_fresh(e1, node.neighbours);
            lemma_skips_after_explore(trace, skips as int, f0, e0, entry, kids, frontier@, key);
            trace = trace.push((frontier@, e1));
            lemma_covers_after_expansion(g, f0, e0, entry, frontier@, e1);
            lemma_cheap_after_expansion(g, f0, e0, entry, frontier@, e1);
        }
    }
}

/// Searches `graph`, whose exit can be reached from its entrance, for a
/// route there: the list holds it last step first, and the route visits no
/// position twice. When a single position leads into the exit, no route
/// is shorter in pixels. The list is the one `bfs_result` describes.
pub fn breadth_first_search(graph: &Graph) -> (l: ConsList<Pos>)
    requires
        solvable(*graph),
    ensures
        solves_simply(*graph, list_items(l)),
        exit_has_one_way_in(*graph) ==> solves_cheaply(*graph, list_items(l)),
        bfs_result(*graph, list_items(l)),
{
    match try_breadth_first_search(graph) {
        Some(l) => l,
        None => {
            assert(false);
            empty_list()
        },
    }
}

} // verus!
