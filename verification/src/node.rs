//! The entries of a search frontier: a node of the maze, the route that led
//! to it, and what it cost to get there.

use cons_list::ConsList;
use vstd::prelude::*;
use vstd::multiset::Multiset;
use crate::graph::{Graph, Neighbours, lists};
use crate::path::list_items;
use crate::queue::is_cheapest;
use crate::pos::{Pos, pos_key, lemma_key_injective};
use crate::routes::{route_of, route_end, leads_to, is_simple, holds, lemma_route_of_push_front,
    spec_step_cost, route_cost, lemma_route_cost_push, lemma_route_cost_bound, no_cheaper, lemma_route_prefix,
    lemma_route_cost_last,
    lemma_extend_route, lemma_distinct_positions_bound, lemma_push_distinct};

verus! {

/// A node reached by a search.
pub struct Node {
    /// Where the node is.
    pub pos: Pos,
    /// The length of the route that led here, in pixels.
    pub cost: u128,
    /// The neighbour slots of `pos` in the graph.
    pub neighbours: Neighbours,
    /// The route from the entrance to `pos`, last step first; empty for the
    /// entrance itself.
    pub path: ConsList<Pos>,
}

/// Computes `spec_step_cost(a, b)`: the number of pixels from one
/// position to the other along a straight corridor.
pub fn step_cost(a: Pos, b: Pos) -> (c: u64)
    ensures
        c == spec_step_cost(a, b),
{
    let dx: u64 = if a.x <= b.x { (b.x - a.x) as u64 } else { (a.x - b.x) as u64 };
    let dy: u64 = if a.y <= b.y { (b.y - a.y) as u64 } else { (a.y - b.y) as u64 };
    dx + dy
}

/// The route of node `n`: from the entrance to `n.pos`.
pub open spec fn node_route(n: Node) -> Seq<Pos> {
    route_of(list_items(n.path))
}

/// What holds of every node a search has built, given the set `explored`
/// of keys of the positions it has explored: the node's neighbours are
/// those of the graph, its route leads from the entrance to it without
/// visiting a position twice, and every position of that route but its
/// last, and the entrance, has been explored; its cost is the length of
/// that route.
pub open spec fn node_ok(g: Graph, n: Node, explored: Set<u64>) -> bool {
    let steps = node_route(n);
    &&& g.has(n.pos)
    &&& n.cost == route_cost(g.start_node(), steps)
    &&& n.neighbours == g.nbrs(n.pos)
    &&& leads_to(g, g.start_node(), steps, n.pos)
    &&& is_simple(g.start_node(), steps)
    &&& forall|i: int| 0 <= i < steps.len() - 1 ==> holds(explored, #[trigger] steps[i])
    &&& steps.len() > 0 ==> holds(explored, g.start_node())
}

/// Some entry of the frontier `f` is a node at `v`.
pub open spec fn in_frontier(f: Multiset<(u128, Node)>, v: Pos) -> bool {
    exists|e: (u128, Node)| #[trigger] f.contains(e) && e.1.pos == v
}

/// Every entry of the frontier `f` is a node as `node_ok` describes, other
/// than the exit, filed under its cost.
pub open spec fn frontier_ok(g: Graph, f: Multiset<(u128, Node)>, explored: Set<u64>) -> bool {
    forall|e: (u128, Node)| #[trigger] f.contains(e) ==> node_ok(g, e.1, explored) && e.1.pos != g.end_node()
        && e.0 == e.1.cost
}

/// Every edge that leaves an explored position enters an explored position
/// or one for which the frontier holds a node.
pub open spec fn frontier_covers(g: Graph, f: Multiset<(u128, Node)>, explored: Set<u64>) -> bool {
    forall|u: Pos, v: Pos|
        #[trigger] holds(explored, u) && #[trigger] g.edge(u, v) ==> holds(explored, v) || in_frontier(f, v)
}

/// The cost of a node whose list can still grow leaves room for one more
/// step.
pub proof fn lemma_cost_room(g: Graph, n: Node, explored: Set<u64>)
    requires
        node_ok(g, n, explored),
        list_items(n.path).len() < usize::MAX,
    ensures
        n.cost + 0x2_0000_0000 <= u128::MAX,
{
    let steps = node_route(n);
    lemma_route_cost_bound(g.start_node(), steps);
    let len = steps.len();
    assert(len < 0x1_0000_0000_0000_0000);
    assert(len * 0x2_0000_0000 <= 0x2_0000_0000_0000_0000_0000_0000) by (nonlinear_arith)
        requires len < 0x1_0000_0000_0000_0000;
}

/// Some entry of the frontier `f` is a node at `v` filed under cost `c`.
pub open spec fn offers(f: Multiset<(u128, Node)>, v: Pos, c: int) -> bool {
    exists|e: (u128, Node)| #[trigger] f.contains(e) && e.1.pos == v && e.0 == c
}

/// For every edge from an explored position `u` to an unexplored one `v`,
/// the frontier holds a node at `v` that costs no more than the shortest
/// route to `u` and that edge.
pub open spec fn frontier_cheap(g: Graph, f: Multiset<(u128, Node)>, explored: Set<u64>) -> bool {
    forall|u: Pos, v: Pos|
        #[trigger] holds(explored, u) && #[trigger] g.edge(u, v) && !holds(explored, v) ==> exists|e: (u128, Node)|
            #[trigger] f.contains(e) && e.1.pos == v && no_cheaper(g, u, e.0 - spec_step_cost(u, v))
}

/// Adding a node as `node_ok` describes, filed under its cost, to a
/// frontier keeps what `frontier_ok` states, keeps every entry and every
/// offer, and offers the node's position at its cost.
pub proof fn lemma_push_entry(
    g: Graph,
    f: Multiset<(u128, Node)>,
    f2: Multiset<(u128, Node)>,
    entry: (u128, Node),
    explored: Set<u64>,
)
    requires
        f2 == f.insert(entry),
        frontier_ok(g, f, explored),
        node_ok(g, entry.1, explored),
        entry.1.pos != g.end_node(),
        entry.0 == entry.1.cost,
    ensures
        frontier_ok(g, f2, explored),
        forall|e: (u128, Node)| #[trigger] f.contains(e) ==> f2.contains(e),
        forall|v: Pos, c: int| offers(f, v, c) ==> #[trigger] offers(f2, v, c),
        offers(f2, entry.1.pos, entry.0 as int),
{
    broadcast use vstd::multiset::group_multiset_axioms;
    assert(f2.contains(entry));
    assert forall|e: (u128, Node)| #[trigger] f2.contains(e) implies node_ok(g, e.1, explored) && e.1.pos
        != g.end_node() && e.0 == e.1.cost by {
        if e != entry {
            assert(f.contains(e));
        }
    }
    assert forall|v: Pos, c: int| offers(f, v, c) implies #[trigger] offers(f2, v, c) by {
        let e = choose|e: (u128, Node)| #[trigger] f.contains(e) && e.1.pos == v && e.0 == c;
        assert(f2.contains(e));
    }
}

/// What the entrance needs until it is explored: an entry of cost 0.
pub open spec fn start_offered(g: Graph, f: Multiset<(u128, Node)>, explored: Set<u64>) -> bool {
    !holds(explored, g.start_node()) ==> offers(f, g.start_node(), 0)
}

/// No route to an unexplored position is cheaper than the cheapest entry
/// of the frontier: follow the route to its first unexplored position,
/// which the frontier offers at no more than the route has cost so far.
proof fn lemma_route_no_cheaper(
    g: Graph,
    f: Multiset<(u128, Node)>,
    explored: Set<u64>,
    entry: (u128, Node),
    steps: Seq<Pos>,
    to: Pos,
)
    requires
        is_cheapest(f, entry),
        frontier_cheap(g, f, explored),
        start_offered(g, f, explored),
        leads_to(g, g.start_node(), steps, to),
        !holds(explored, to),
    ensures
        entry.0 <= route_cost(g.start_node(), steps),
    decreases steps.len(),
{
    let start = g.start_node();
    if steps.len() == 0 {
        let e = choose|e: (u128, Node)| #[trigger] f.contains(e) && e.1.pos == start && e.0 == 0;
        assert(f.contains(e));
        reveal(route_cost);
    } else {
        lemma_route_prefix(g, start, steps, to);
        lemma_route_cost_last(start, steps);
        lemma_route_cost_bound(start, steps.drop_last());
        let rest = steps.drop_last();
        let u = route_end(start, rest);
        if holds(explored, u) {
            let e = choose|e: (u128, Node)| #[trigger] f.contains(e) && e.1.pos == to && no_cheaper(g, u, e.0
                - spec_step_cost(u, to));
            assert(f.contains(e));
            assert(leads_to(g, start, rest, u));
        } else {
            lemma_route_no_cheaper(g, f, explored, entry, rest, u);
        }
    }
}

/// The entry that the frontier hands out first, at an unexplored position,
/// costs no more than any route to that position: no route there is
/// cheaper than the entry.
pub proof fn lemma_popped_no_cheaper(g: Graph, f: Multiset<(u128, Node)>, explored: Set<u64>, entry: (u128, Node))
    requires
        is_cheapest(f, entry),
        frontier_cheap(g, f, explored),
        start_offered(g, f, explored),
        !holds(explored, entry.1.pos),
    ensures
        no_cheaper(g, entry.1.pos, entry.0 as int),
{
    assert forall|steps: Seq<Pos>| #[trigger] leads_to(g, g.start_node(), steps, entry.1.pos) implies entry.0
        <= route_cost(g.start_node(), steps) by {
        lemma_route_no_cheaper(g, f, explored, entry, steps, entry.1.pos);
    }
}

/// When the search takes `entry` out of the frontier `f` and explores its
/// node, and, if that node is new, offers each unexplored neighbour at the
/// entry's cost plus the step, the frontier keeps the property that
/// `frontier_cheap` states, and keeps offering the entrance while it is
/// unexplored.
pub proof fn lemma_cheap_after_expansion(
    g: Graph,
    f: Multiset<(u128, Node)>,
    explored: Set<u64>,
    entry: (u128, Node),
    f2: Multiset<(u128, Node)>,
    more: Set<u64>,
)
    requires
        frontier_cheap(g, f, explored),
        start_offered(g, f, explored),
        f.contains(entry),
        more == explored.insert(pos_key(entry.1.pos)),
        forall|e: (u128, Node)| #[trigger] f.contains(e) && e != entry ==> f2.contains(e),
        !holds(explored, entry.1.pos) ==> no_cheaper(g, entry.1.pos, entry.0 as int),
        !holds(explored, entry.1.pos) ==> forall|v: Pos| #[trigger] g.edge(entry.1.pos, v) && !holds(more, v)
            ==> offers(f2, v, entry.0 + spec_step_cost(entry.1.pos, v)),
    ensures
        frontier_cheap(g, f2, more),
        start_offered(g, f2, more),
{
    let p = entry.1.pos;
    assert forall|u: Pos, v: Pos| #[trigger] holds(more, u) && #[trigger] g.edge(u, v) && !holds(more, v) implies exists|
        e: (u128, Node),
    | #[trigger] f2.contains(e) && e.1.pos == v && no_cheaper(g, u, e.0 - spec_step_cost(u, v)) by {
        lemma_key_injective(v, p);
        if holds(explored, u) {
            let e = choose|e: (u128, Node)| #[trigger] f.contains(e) && e.1.pos == v && no_cheaper(g, u, e.0
                - spec_step_cost(u, v));
            assert(e != entry);
            assert(f2.contains(e));
        } else {
            lemma_key_injective(u, p);
            assert(u == p);
            let e = choose|e: (u128, Node)| #[trigger] f2.contains(e) && e.1.pos == v && e.0 == entry.0
                + spec_step_cost(p, v);
            assert(e.0 - spec_step_cost(u, v) == entry.0);
            assert(f2.contains(e));
        }
    }
    if !holds(more, g.start_node()) {
        lemma_key_injective(g.start_node(), p);
        let e = choose|e: (u128, Node)| #[trigger] f.contains(e) && e.1.pos == g.start_node() && e.0 == 0;
        assert(e != entry);
        assert(f2.contains(e));
    }
}

/// The route of a node leaves room for one more step in a list.
pub proof fn lemma_route_has_room(g: Graph, n: Node, explored: Set<u64>)
    requires
        node_ok(g, n, explored),
        explored.subset_of(g.key_domain()),
    ensures
        list_items(n.path).len() < usize::MAX,
{
    g.lemma_domain();
    let dom = g.key_domain();
    vstd::set_lib::lemma_len_subset(explored, dom);
    let steps = node_route(n);
    let l = list_items(n.path);
    assert(steps.len() == l.len());
    if steps.len() > 0 {
        let body = steps.drop_last();
        let s = body.push(g.start_node());
        assert forall|i: int| 0 <= i < s.len() implies holds(explored, #[trigger] s[i]) by {
            if i < body.len() {
                assert(s[i] == steps[i]);
            }
        }
        assert(body.no_duplicates());
        assert(!body.contains(g.start_node())) by {
            if body.contains(g.start_node()) {
                let j = choose|j: int| 0 <= j < body.len() && body[j] == g.start_node();
                assert(steps[j] == body[j]);
            }
        }
        lemma_push_distinct(body, g.start_node());
        lemma_distinct_positions_bound(s, explored);
        // `steps` is `body` and one more position, which is either explored
        // (and not in `s`) or a node outside `explored`.
        let last = steps.last();
        if holds(explored, last) {
            assert(!s.contains(last)) by {
                if s.contains(last) {
                    let j = choose|j: int| 0 <= j < s.len() && s[j] == last;
                    if j < body.len() {
                        assert(steps[j] == s[j]);
                        assert(steps[steps.len() - 1] == last);
                    }
                }
            }
            lemma_push_distinct(s, last);
            assert forall|i: int| 0 <= i < s.push(last).len() implies holds(explored, #[trigger] s.push(last)[i]) by {
                if i < s.len() {
                    assert(s.push(last)[i] == s[i]);
                }
            }
            lemma_distinct_positions_bound(s.push(last), explored);
        } else {
            assert(dom.contains(pos_key(last)));
            assert(explored.subset_of(dom.remove(pos_key(last))));
            vstd::set_lib::lemma_len_subset(explored, dom.remove(pos_key(last)));
        }
    }
}

/// A node built by one step from a node, to a position that was not
/// explored and is not the node itself, is a node as `node_ok` describes
/// once the parent node is explored.
pub proof fn lemma_child_ok(g: Graph, parent: Node, explored: Set<u64>, more: Set<u64>, child: Node)
    requires
        node_ok(g, parent, explored),
        explored.subset_of(more),
        holds(more, parent.pos),
        lists(parent.neighbours, child.pos),
        !holds(explored, child.pos),
        child.pos != parent.pos,
        g.has(child.pos),
        child.neighbours == g.nbrs(child.pos),
        list_items(child.path) == seq![child.pos] + list_items(parent.path),
        child.cost == parent.cost + spec_step_cost(parent.pos, child.pos),
    ensures
        node_ok(g, child, more),
        node_route(child) == node_route(parent).push(child.pos),
{
    let v = child.pos;
    let start = g.start_node();
    let steps = node_route(parent);
    lemma_route_of_push_front(list_items(parent.path), v);
    let s = node_route(child);
    assert(s == steps.push(v));
    assert(route_end(start, steps) == parent.pos);
    assert(g.edge(parent.pos, v));
    lemma_extend_route(g, start, steps, v);
    lemma_route_cost_push(start, steps, v);
    assert forall|j: int| 0 <= j < steps.len() implies holds(more, #[trigger] steps[j]) by {
        if j == steps.len() - 1 {
            assert(steps[j] == steps.last());
        } else {
            assert(holds(explored, steps[j]));
        }
    }
    assert(!steps.contains(v)) by {
        if steps.contains(v) {
            let j = choose|j: int| 0 <= j < steps.len() && steps[j] == v;
            if j < steps.len() - 1 {
                assert(holds(explored, steps[j]));
            } else {
                assert(steps[j] == steps.last());
            }
        }
    }
    if steps.len() == 0 {
        assert(parent.pos == start);
    } else {
        assert(holds(explored, start));
    }
    assert(holds(more, start));
    assert(v != start);
    lemma_push_distinct(steps, v);
    assert forall|j: int| 0 <= j < s.len() - 1 implies holds(more, #[trigger] s[j]) by {
        assert(s[j] == steps[j]);
    }
    assert(!s.contains(start)) by {
        if s.contains(start) {
            let j = choose|j: int| 0 <= j < s.len() && s[j] == start;
            if j < steps.len() {
                assert(s[j] == steps[j]);
            }
        }
    }
}

/// `node_ok` stays true when more positions are explored.
pub proof fn lemma_node_ok_grows(g: Graph, n: Node, explored: Set<u64>, more: Set<u64>)
    requires
        node_ok(g, n, explored),
        explored.subset_of(more),
    ensures
        node_ok(g, n, more),
{
    let steps = node_route(n);
    assert forall|i: int| 0 <= i < steps.len() - 1 implies holds(more, #[trigger] steps[i]) by {
        assert(holds(explored, steps[i]));
    }
}

/// `frontier_ok` stays true when more positions are explored and when
/// entries are taken out.
pub proof fn lemma_frontier_ok_shrinks(
    g: Graph,
    f: Multiset<(u128, Node)>,
    explored: Set<u64>,
    f2: Multiset<(u128, Node)>,
    more: Set<u64>,
)
    requires
        frontier_ok(g, f, explored),
        explored.subset_of(more),
        forall|e: (u128, Node)| #[trigger] f2.contains(e) ==> f.contains(e),
    ensures
        frontier_ok(g, f2, more),
{
    assert forall|e: (u128, Node)| #[trigger] f2.contains(e) implies node_ok(g, e.1, more) && e.1.pos
        != g.end_node() && e.0 == e.1.cost by {
        assert(f.contains(e));
        lemma_node_ok_grows(g, e.1, explored, more);
    }
}

/// When the search takes `entry` out of the frontier `f` and explores its
/// node (which may have been explored already), and the frontier then keeps
/// the other entries and covers the edges of that node, the frontier still
/// covers every edge out of an explored position, and still holds the
/// entrance if it has not been explored.
pub proof fn lemma_covers_after_expansion(
    g: Graph,
    f: Multiset<(u128, Node)>,
    explored: Set<u64>,
    entry: (u128, Node),
    f2: Multiset<(u128, Node)>,
    more: Set<u64>,
)
    requires
        frontier_covers(g, f, explored),
        holds(explored, g.start_node()) || in_frontier(f, g.start_node()),
        f.contains(entry),
        more == explored.insert(pos_key(entry.1.pos)),
        forall|e: (u128, Node)| #[trigger] f.contains(e) && e != entry ==> f2.contains(e),
        forall|v: Pos| #[trigger] g.edge(entry.1.pos, v) ==> holds(more, v) || in_frontier(f2, v),
    ensures
        frontier_covers(g, f2, more),
        holds(more, g.start_node()) || in_frontier(f2, g.start_node()),
{
    assert forall|u: Pos, v: Pos| #[trigger] holds(more, u) && #[trigger] g.edge(u, v) implies holds(more, v)
        || in_frontier(f2, v) by {
        if u == entry.1.pos {
        } else if !holds(more, v) {
            lemma_key_injective(u, entry.1.pos);
            assert(holds(explored, u));
            let e = choose|e: (u128, Node)| #[trigger] f.contains(e) && e.1.pos == v;
            assert(e != entry);
            assert(f2.contains(e));
        }
    }
    if !holds(more, g.start_node()) {
        let e = choose|e: (u128, Node)| #[trigger] f.contains(e) && e.1.pos == g.start_node();
        assert(e != entry);
        assert(f2.contains(e));
    }
}

} // verus!
