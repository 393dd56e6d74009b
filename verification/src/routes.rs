//! Routes through a maze graph, reachability, and the facts about them that
//! the searches rely on.

use vstd::prelude::*;
use vstd::set_lib::lemma_len_subset;
use crate::graph::Graph;
use crate::pos::{Pos, pos_key, lemma_key_injective};

verus! {

/// The position from which step `i` of `steps` leaves, for a route that
/// begins at `from`.
pub open spec fn step_source(from: Pos, steps: Seq<Pos>, i: int) -> Pos {
    if i == 0 {
        from
    } else {
        steps[i - 1]
    }
}

/// The position where a route that begins at `from` and takes `steps` ends.
pub open spec fn route_end(from: Pos, steps: Seq<Pos>) -> Pos {
    if steps.len() == 0 {
        from
    } else {
        steps.last()
    }
}

/// Each step of `steps`, taken from `from`, follows an edge of `g`.
pub open spec fn is_route(g: Graph, from: Pos, steps: Seq<Pos>) -> bool {
    forall|i: int| #![trigger steps[i]] 0 <= i < steps.len() ==> g.edge(step_source(from, steps, i), steps[i])
}

/// `steps` is a route of `g` from `from` to `to`.
pub open spec fn leads_to(g: Graph, from: Pos, steps: Seq<Pos>, to: Pos) -> bool {
    is_route(g, from, steps) && route_end(from, steps) == to
}

/// Some route of `g` goes from `from` to `to`.
pub open spec fn reachable(g: Graph, from: Pos, to: Pos) -> bool {
    exists|steps: Seq<Pos>| #[trigger] leads_to(g, from, steps, to)
}

/// A route from `from` through `steps` visits no position twice.
pub open spec fn is_simple(from: Pos, steps: Seq<Pos>) -> bool {
    steps.no_duplicates() && !steps.contains(from)
}

/// The positions of a route as a search keeps them: the last step first.
/// The list read from its back is the route.
pub open spec fn route_of(list: Seq<Pos>) -> Seq<Pos> {
    list.reverse()
}

/// `list` holds, last step first, a route of `g` from its entrance to its exit.
pub open spec fn solves(g: Graph, list: Seq<Pos>) -> bool {
    leads_to(g, g.start_node(), route_of(list), g.end_node())
}

/// `list` holds, last step first, a route of `g` from its entrance to its
/// exit that visits no position twice.
pub open spec fn solves_simply(g: Graph, list: Seq<Pos>) -> bool {
    solves(g, list) && is_simple(g.start_node(), route_of(list))
}

/// The exit of `g` can be reached from its entrance.
pub open spec fn solvable(g: Graph) -> bool {
    reachable(g, g.start_node(), g.end_node())
}

/// The set of keys `keys` holds the key of `p`.
pub open spec fn holds(keys: Set<u64>, p: Pos) -> bool {
    keys.contains(pos_key(p))
}

/// Every edge of `g` that leaves a position held by `keys` enters one held
/// by `keys`.
pub open spec fn closed_under_edges(g: Graph, keys: Set<u64>) -> bool {
    forall|u: Pos, v: Pos| #[trigger] holds(keys, u) && #[trigger] g.edge(u, v) ==> holds(keys, v)
}

/// The length of the straight corridor between two positions in the same
/// row or column: the number of pixels from one to the other.
pub open spec fn spec_step_cost(a: Pos, b: Pos) -> int {
    (if a.x <= b.x { b.x - a.x } else { a.x - b.x }) + (if a.y <= b.y { b.y - a.y } else { a.y - b.y })
}

/// What the length of a step is made of: it does not depend on the
/// direction of the step, it is 0 for no step and 1 for a step to the next
/// pixel of a row or a column, and two steps one after the other along a
/// row or a column add up to the step that joins their ends. Along a row or
/// a column, the length is therefore the number of pixels between the two
/// ends, whichever way the step goes.
pub proof fn lemma_step_cost_laws(a: Pos, b: Pos, c: Pos)
    ensures
        spec_step_cost(a, b) == spec_step_cost(b, a),
        spec_step_cost(a, a) == 0,
        spec_step_cost(a, b) >= 0,
        a.y == b.y && b.x == a.x + 1 ==> spec_step_cost(a, b) == 1,
        a.x == b.x && b.y == a.y + 1 ==> spec_step_cost(a, b) == 1,
        a.y == b.y && b.y == c.y && a.x <= b.x && b.x <= c.x ==> spec_step_cost(a, c) == spec_step_cost(a, b)
            + spec_step_cost(b, c),
        a.x == b.x && b.x == c.x && a.y <= b.y && b.y <= c.y ==> spec_step_cost(a, c) == spec_step_cost(a, b)
            + spec_step_cost(b, c),
{
}

/// The length in pixels of a route that begins at `from` and takes `steps`:
/// the sum of the lengths of its steps.
#[verifier::opaque]
pub open spec fn route_cost(from: Pos, steps: Seq<Pos>) -> int
    decreases steps.len(),
{
    if steps.len() == 0 {
        0
    } else {
        route_cost(from, steps.drop_last()) + spec_step_cost(route_end(from, steps.drop_last()), steps.last())
    }
}

/// One more step adds its length to the length of a route.
pub proof fn lemma_route_cost_push(from: Pos, steps: Seq<Pos>, v: Pos)
    ensures
        route_cost(from, steps.push(v)) == route_cost(from, steps) + spec_step_cost(route_end(from, steps), v),
{
    reveal(route_cost);
    assert(steps.push(v).drop_last() =~= steps);
}

/// The length of a route of one step or more is that of the route without
/// its last step, plus the length of that step.
pub proof fn lemma_route_cost_last(from: Pos, steps: Seq<Pos>)
    requires
        steps.len() > 0,
    ensures
        route_cost(from, steps) == route_cost(from, steps.drop_last()) + spec_step_cost(
            route_end(from, steps.drop_last()),
            steps.last(),
        ),
{
    reveal(route_cost);
}

/// A route is no shorter than nothing, and each of its steps is shorter
/// than `2^33` pixels.
pub proof fn lemma_route_cost_bound(from: Pos, steps: Seq<Pos>)
    ensures
        0 <= route_cost(from, steps) <= steps.len() * 0x2_0000_0000,
    decreases steps.len(),
{
    reveal(route_cost);
    if steps.len() > 0 {
        lemma_route_cost_bound(from, steps.drop_last());
    }
}

/// No route from the entrance of `g` to `u` is shorter than `c` pixels.
pub open spec fn no_cheaper(g: Graph, u: Pos, c: int) -> bool {
    forall|steps: Seq<Pos>| #[trigger] leads_to(g, g.start_node(), steps, u) ==> c <= route_cost(g.start_node(), steps)
}

/// `list` holds, last step first, a route of `g` from its entrance to its
/// exit that no other such route beats in length.
pub open spec fn solves_cheaply(g: Graph, list: Seq<Pos>) -> bool {
    forall|steps: Seq<Pos>| #[trigger] leads_to(g, g.start_node(), steps, g.end_node())
        ==> route_cost(g.start_node(), route_of(list)) <= route_cost(g.start_node(), steps)
}

/// At most one position of `g` has an edge into its exit.
pub open spec fn exit_has_one_way_in(g: Graph) -> bool {
    forall|p: Pos, q: Pos| #[trigger] g.edge(p, g.end_node()) && #[trigger] g.edge(q, g.end_node()) ==> p == q
}

/// Putting `v` in front of a list extends its route by the step to `v`.
pub proof fn lemma_route_of_push_front(list: Seq<Pos>, v: Pos)
    ensures
        route_of(seq![v] + list) == route_of(list).push(v),
{
    let a = route_of(seq![v] + list);
    let b = route_of(list).push(v);
    assert(a.len() == b.len());
    assert forall|i: int| 0 <= i < a.len() implies a[i] == b[i] by {
        if i < list.len() {
            assert((seq![v] + list)[list.len() - i] == list[list.len() - 1 - i]);
        }
    }
    assert(a =~= b);
}

/// A route extended by one edge is a route to the edge's target.
pub proof fn lemma_extend_route(g: Graph, from: Pos, steps: Seq<Pos>, v: Pos)
    requires
        is_route(g, from, steps),
        g.edge(route_end(from, steps), v),
    ensures
        leads_to(g, from, steps.push(v), v),
{
    let s = steps.push(v);
    assert forall|i: int| #![trigger s[i]] 0 <= i < s.len() implies g.edge(step_source(from, s, i), s[i]) by {
        if i < steps.len() {
            assert(s[i] == steps[i]);
            assert(step_source(from, s, i) == step_source(from, steps, i));
        }
    }
}

/// A route of one step or more is a route to the position before its last
/// step, followed by an edge from there to its end.
pub proof fn lemma_route_prefix(g: Graph, from: Pos, steps: Seq<Pos>, to: Pos)
    requires
        leads_to(g, from, steps, to),
        steps.len() > 0,
    ensures
        leads_to(g, from, steps.drop_last(), route_end(from, steps.drop_last())),
        g.edge(route_end(from, steps.drop_last()), to),
        steps.last() == to,
{
    let rest = steps.drop_last();
    assert forall|i: int| #![trigger rest[i]] 0 <= i < rest.len() implies g.edge(step_source(from, rest, i), rest[i]) by {
        assert(rest[i] == steps[i]);
        assert(step_source(from, rest, i) == step_source(from, steps, i));
    }
    assert(step_source(from, steps, steps.len() - 1) == route_end(from, rest));
    assert(g.edge(step_source(from, steps, steps.len() - 1), steps[steps.len() - 1]));
}

/// If the only way into the exit leaves from `p`, and no route to `p` is
/// shorter than `c`, then a list whose route reaches the exit in `c` plus
/// the last step's length solves the maze as cheaply as any route.
pub proof fn lemma_cheapest_exit(g: Graph, p: Pos, c: int, list: Seq<Pos>)
    requires
        exit_has_one_way_in(g),
        g.start_node() != g.end_node(),
        no_cheaper(g, p, c),
        g.edge(p, g.end_node()),
        route_cost(g.start_node(), route_of(list)) == c + spec_step_cost(p, g.end_node()),
    ensures
        solves_cheaply(g, list),
{
    let start = g.start_node();
    let end = g.end_node();
    assert forall|steps: Seq<Pos>| #[trigger] leads_to(g, start, steps, end) implies route_cost(start, route_of(list))
        <= route_cost(start, steps) by {
        lemma_route_prefix(g, start, steps, end);
        let rest = steps.drop_last();
        let q = route_end(start, rest);
        assert(q == p);
        assert(leads_to(g, start, rest, q));
        lemma_route_cost_last(start, steps);
    }
}

/// A route of no steps is as short as any.
pub proof fn lemma_empty_route_cheapest(g: Graph, list: Seq<Pos>)
    requires
        list.len() == 0,
    ensures
        solves_cheaply(g, list),
{
    assert(route_of(list) =~= Seq::<Pos>::empty());
    reveal(route_cost);
    assert forall|steps: Seq<Pos>| #[trigger] leads_to(g, g.start_node(), steps, g.end_node()) implies route_cost(
        g.start_node(),
        route_of(list),
    ) <= route_cost(g.start_node(), steps) by {
        lemma_route_cost_bound(g.start_node(), steps);
    }
}

/// A route that comes back to a position it has visited still leads to its
/// end with the loop between the two visits cut out.
pub proof fn lemma_cut_loop(g: Graph, from: Pos, steps: Seq<Pos>, to: Pos, a: int, b: int)
    requires
        leads_to(g, from, steps, to),
        0 <= a < b < steps.len(),
        steps[a] == steps[b],
    ensures
        leads_to(g, from, steps.subrange(0, a + 1) + steps.subrange(b + 1, steps.len() as int), to),
        (steps.subrange(0, a + 1) + steps.subrange(b + 1, steps.len() as int)).len() < steps.len(),
{
    let s2 = steps.subrange(0, a + 1) + steps.subrange(b + 1, steps.len() as int);
    let d = b - a;
    assert forall|i: int| #![trigger s2[i]] 0 <= i < s2.len() implies g.edge(step_source(from, s2, i), s2[i]) by {
        if i <= a {
            assert(s2[i] == steps[i]);
            if i > 0 {
                assert(s2[i - 1] == steps[i - 1]);
            }
            assert(g.edge(step_source(from, steps, i), steps[i]));
        } else {
            assert(s2[i] == steps[i + d]);
            if i - 1 == a {
                assert(s2[i - 1] == steps[a]);
            } else {
                assert(s2[i - 1] == steps[i - 1 + d]);
            }
            assert(g.edge(step_source(from, steps, i + d), steps[i + d]));
        }
    }
    if b + 1 == steps.len() {
        assert(s2.last() == steps[a]);
    } else {
        assert(s2.last() == steps.last());
    }
}

/// A route that comes back to where it began still leads to its end with
/// everything up to that return cut out.
pub proof fn lemma_cut_return(g: Graph, from: Pos, steps: Seq<Pos>, to: Pos, a: int)
    requires
        leads_to(g, from, steps, to),
        0 <= a < steps.len(),
        steps[a] == from,
    ensures
        leads_to(g, from, steps.subrange(a + 1, steps.len() as int), to),
{
    let s2 = steps.subrange(a + 1, steps.len() as int);
    assert forall|i: int| #![trigger s2[i]] 0 <= i < s2.len() implies g.edge(step_source(from, s2, i), s2[i]) by {
        assert(s2[i] == steps[i + a + 1]);
        if i > 0 {
            assert(s2[i - 1] == steps[i + a]);
        }
        assert(g.edge(step_source(from, steps, i + a + 1), steps[i + a + 1]));
    }
    if s2.len() > 0 {
        assert(s2.last() == steps.last());
    }
}

/// A list whose route solves the maze in as few steps as any route does
/// visits no position twice.
pub proof fn lemma_shortest_is_simple(g: Graph, list: Seq<Pos>)
    requires
        solves(g, list),
        forall|steps: Seq<Pos>| #[trigger] leads_to(g, g.start_node(), steps, g.end_node()) ==> list.len() <= steps.len(),
    ensures
        solves_simply(g, list),
{
    let from = g.start_node();
    let to = g.end_node();
    let steps = route_of(list);
    assert(steps.len() == list.len());
    if !steps.no_duplicates() {
        let (a, b) = choose|a: int, b: int| 0 <= a < steps.len() && 0 <= b < steps.len() && a != b && steps[a] == steps[b];
        let (lo, hi) = if a < b { (a, b) } else { (b, a) };
        lemma_cut_loop(g, from, steps, to, lo, hi);
        let s2 = steps.subrange(0, lo + 1) + steps.subrange(hi + 1, steps.len() as int);
        assert(leads_to(g, from, s2, to));
    }
    if steps.contains(from) {
        let a = choose|a: int| 0 <= a < steps.len() && steps[a] == from;
        lemma_cut_return(g, from, steps, to, a);
        let s2 = steps.subrange(a + 1, steps.len() as int);
        assert(leads_to(g, from, s2, to));
    }
}

/// When a single route that visits no position twice leads from the
/// entrance to the exit, a list that solves the maze without visiting a
/// position twice (as `bfs`, `bfs2` and `pbfs2` give) and a list that
/// solves it in as few steps as any route (as `pbfs` gives within a hundred
/// steps) are the same list: every search gives that route.
pub proof fn lemma_one_simple_route_agreement(g: Graph, simple: Seq<Pos>, shortest: Seq<Pos>)
    requires
        forall|a: Seq<Pos>, b: Seq<Pos>| #[trigger] solves_simply(g, a) && #[trigger] solves_simply(g, b) ==> a == b,
        solves_simply(g, simple),
        solves(g, shortest),
        forall|steps: Seq<Pos>| #[trigger] leads_to(g, g.start_node(), steps, g.end_node()) ==> shortest.len()
            <= steps.len(),
    ensures
        shortest == simple,
{
    lemma_shortest_is_simple(g, shortest);
}

/// A set of positions that holds `from` and is closed under the edges of
/// `g` holds every position that `g` reaches from `from`.
pub proof fn lemma_closed_set_holds_reachable(g: Graph, keys: Set<u64>, from: Pos, steps: Seq<Pos>, to: Pos)
    requires
        holds(keys, from),
        closed_under_edges(g, keys),
        leads_to(g, from, steps, to),
    ensures
        holds(keys, to),
    decreases steps.len(),
{
    if steps.len() > 0 {
        let rest = steps.drop_last();
        assert forall|i: int| #![trigger rest[i]] 0 <= i < rest.len() implies g.edge(step_source(from, rest, i), rest[i]) by {
            assert(rest[i] == steps[i]);
            assert(step_source(from, rest, i) == step_source(from, steps, i));
        }
        let mid = route_end(from, rest);
        lemma_closed_set_holds_reachable(g, keys, from, rest, mid);
        assert(step_source(from, steps, steps.len() - 1) == mid);
        assert(g.edge(mid, steps[steps.len() - 1]));
    }
}

/// A sequence of distinct positions whose keys all lie in a finite set is
/// no longer than that set.
pub proof fn lemma_distinct_positions_bound(steps: Seq<Pos>, keys: Set<u64>)
    requires
        steps.no_duplicates(),
        keys.finite(),
        forall|i: int| 0 <= i < steps.len() ==> holds(keys, #[trigger] steps[i]),
    ensures
        steps.len() <= keys.len(),
{
    let ks = steps.map_values(|p: Pos| pos_key(p));
    assert forall|i: int, j: int| 0 <= i < ks.len() && 0 <= j < ks.len() && i != j implies ks[i] != ks[j] by {
        lemma_key_injective(steps[i], steps[j]);
    }
    assert(ks.no_duplicates());
    ks.unique_seq_to_set();
    assert forall|k: u64| ks.to_set().contains(k) implies keys.contains(k) by {
        let i = choose|i: int| 0 <= i < ks.len() && ks[i] == k;
        assert(holds(keys, steps[i]));
    }
    lemma_len_subset(ks.to_set(), keys);
}

/// Taking one more key of a finite domain out of the unexplored part
/// shrinks that part.
pub proof fn lemma_unexplored_shrinks(dom: Set<u64>, explored: Set<u64>, k: u64)
    requires
        dom.finite(),
        dom.contains(k),
        !explored.contains(k),
    ensures
        dom.difference(explored.insert(k)).len() < dom.difference(explored).len(),
{
    let before = dom.difference(explored);
    let after = dom.difference(explored.insert(k));
    vstd::set_lib::lemma_len_difference(dom, explored);
    assert(after =~= before.remove(k));
    assert(before.contains(k));
}

/// The positions that `g` reaches from its entrance in at most `k` steps.
pub open spec fn within(g: Graph, k: nat) -> Set<Pos>
    decreases k,
{
    if k == 0 {
        set![g.start_node()]
    } else {
        let prev = within(g, (k - 1) as nat);
        prev.union(Set::new(|v: Pos| exists|u: Pos| #[trigger] prev.contains(u) && g.edge(u, v)))
    }
}

/// Reaching in fewer steps is reaching in more.
pub proof fn lemma_within_grows(g: Graph, a: nat, b: nat)
    requires
        a <= b,
    ensures
        within(g, a).subset_of(within(g, b)),
    decreases b - a,
{
    if a < b {
        lemma_within_grows(g, a, (b - 1) as nat);
    }
}

/// The end of a route of `m` steps from the entrance is reached within `m`
/// steps.
pub proof fn lemma_route_within(g: Graph, steps: Seq<Pos>, to: Pos)
    requires
        leads_to(g, g.start_node(), steps, to),
    ensures
        within(g, steps.len()).contains(to),
    decreases steps.len(),
{
    if steps.len() > 0 {
        let rest = steps.drop_last();
        let from = g.start_node();
        assert forall|i: int| #![trigger rest[i]] 0 <= i < rest.len() implies g.edge(step_source(from, rest, i), rest[i]) by {
            assert(rest[i] == steps[i]);
            assert(step_source(from, rest, i) == step_source(from, steps, i));
        }
        let mid = route_end(from, rest);
        lemma_route_within(g, rest, mid);
        assert(step_source(from, steps, steps.len() - 1) == mid);
        assert(g.edge(mid, to));
        assert(within(g, rest.len()).contains(mid));
    }
}

/// Once a step reaches nothing new, no later step does.
pub proof fn lemma_within_fixpoint(g: Graph, k: nat, m: nat)
    requires
        within(g, k + 1) == within(g, k),
        k <= m,
    ensures
        within(g, m) == within(g, k),
    decreases m - k,
{
    if k < m {
        lemma_within_fixpoint(g, k, (m - 1) as nat);
        let prev = within(g, (m - 1) as nat);
        assert(prev == within(g, k));
        assert(within(g, m) =~= within(g, k + 1));
    }
}

/// Appending a new position to a sequence without duplicates keeps it
/// without duplicates.
pub proof fn lemma_push_distinct(steps: Seq<Pos>, v: Pos)
    requires
        steps.no_duplicates(),
        !steps.contains(v),
    ensures
        steps.push(v).no_duplicates(),
{
    let s = steps.push(v);
    assert forall|a: int, b: int| 0 <= a < s.len() && 0 <= b < s.len() && a != b implies s[a] != s[b] by {
        if a < steps.len() && b < steps.len() {
            assert(s[a] == steps[a] && s[b] == steps[b]);
        } else if a < steps.len() {
            assert(s[a] == steps[a]);
            assert(steps.contains(s[a]));
        } else {
            assert(s[b] == steps[b]);
            assert(steps.contains(s[b]));
        }
    }
}

/// A route that visits no position twice, from the entrance to the exit,
/// takes fewer steps than the graph has nodes.
pub proof fn lemma_simple_route_bound(g: Graph, list: Seq<Pos>)
    requires
        g.well_formed(),
        solves_simply(g, list),
    ensures
        list.len() < g.key_domain().len(),
{
    g.lemma_domain();
    let start = g.start_node();
    let steps = route_of(list);
    assert(steps.len() == list.len());
    let s = steps.push(start);
    assert forall|i: int| 0 <= i < s.len() implies holds(g.key_domain(), #[trigger] s[i]) by {
        if i < steps.len() {
            assert(s[i] == steps[i]);
            let u = step_source(start, steps, i);
            assert(g.edge(u, steps[i]));
            let j = choose|j: int| 0 <= j < 4 && #[trigger] g.nbrs(u)[j] == Some(steps[i]);
            assert(g.nbrs(u)[j] is Some);
        }
    }
    lemma_push_distinct(steps, start);
    lemma_distinct_positions_bound(s, g.key_domain());
}

} // verus!
