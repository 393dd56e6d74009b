//! Breadth-first search level by level: all nodes of a level are explored
//! at once, and the neighbours of the level are looked up on several
//! threads. The search gives up after a hundred levels.

use std::collections::HashSet;
use cons_list::ConsList;
use vstd::prelude::*;
use crate::batch::{fresh, fresh_lists, lemma_fresh};
use crate::graph::{Graph, Neighbours, lists};
use crate::node::{Node, node_route};
use crate::path::{list_items, empty_list, push_front};
use crate::pos::{Pos, pos_key, key_of, lemma_key_injective};
use crate::routes::{holds, leads_to, route_end, route_of, solves, within, lemma_route_of_push_front,
    lemma_extend_route, lemma_within_grows, lemma_route_within, lemma_within_fixpoint};

verus! {

broadcast use {
    vstd::std_specs::hash::axiom_u64_obeys_hash_table_key_model,
    vstd::std_specs::hash::axiom_random_state_builds_valid_hashers,
};

/// The outcome of a level: the next level, or a route to the exit.
enum Either<L, R> {
    Left(L),
    Right(R),
}

/// The number of levels after which the search gives up.
const MAX_LEVELS: usize = 100;

/// The positions reached from the entrance in fewer than `k` steps.
pub open spec fn within_before(g: Graph, k: nat) -> Set<Pos> {
    if k == 0 {
        Set::empty()
    } else {
        within(g, (k - 1) as nat)
    }
}

/// The positions whose distance from the entrance is exactly `k` steps.
pub open spec fn layer(g: Graph, k: nat) -> Set<Pos> {
    within(g, k).difference(within_before(g, k))
}

/// A node of level `k`: its route from the entrance has `k` steps, and its
/// position is at distance `k`.
pub open spec fn level_node(g: Graph, n: Node, k: nat) -> bool {
    &&& g.has(n.pos)
    &&& n.neighbours == g.nbrs(n.pos)
    &&& leads_to(g, g.start_node(), node_route(n), n.pos)
    &&& node_route(n).len() == k
    &&& layer(g, k).contains(n.pos)
}

/// The state of the search before level `k`: the explored positions are
/// those at distance less than `k`, the frontier holds a node for every
/// position at distance `k` and no other, and the exit is not within `k`
/// steps unless it is the entrance.
pub open spec fn level_ok(g: Graph, frontier: Seq<Node>, explored: Set<u64>, k: nat) -> bool {
    &&& forall|p: Pos| #[trigger] holds(explored, p) <==> within_before(g, k).contains(p)
    &&& forall|j: int| 0 <= j < frontier.len() ==> level_node(g, #[trigger] frontier[j], k)
    &&& forall|p: Pos| #[trigger] layer(g, k).contains(p) ==> exists|j: int| 0 <= j < frontier.len() && (
    #[trigger] frontier[j]).pos == p
    &&& g.start_node() == g.end_node() || !within(g, k).contains(g.end_node())
}

/// Adds the positions of the nodes of `frontier` to `explored`.
fn mark_level(explored: &mut HashSet<u64>, frontier: &Vec<Node>)
    ensures
        forall|p: Pos| #[trigger] holds(final(explored)@, p) <==> holds(old(explored)@, p) || exists|j: int|
            0 <= j < frontier.len() && (#[trigger] frontier[j]).pos == p,
{
    let mut j: usize = 0;
    while j < frontier.len()
        invariant
            0 <= j <= frontier.len(),
            forall|p: Pos| #[trigger] holds(explored@, p) <==> holds(old(explored)@, p) || exists|i: int|
                0 <= i < j && (#[trigger] frontier[i]).pos == p,
        decreases frontier.len() - j,
    {
        let ghost before = explored@;
        explored.insert(key_of(frontier[j].pos));
        proof {
            assert(explored@ == before.insert(pos_key(frontier[j as int].pos)));
            assert forall|p: Pos| #[trigger] holds(explored@, p) <==> holds(old(explored)@, p) || exists|i: int|
                0 <= i < j + 1 && (#[trigger] frontier[i]).pos == p by {
                lemma_key_injective(p, frontier[j as int].pos);
                assert(holds(before, p) <==> holds(old(explored)@, p) || exists|i: int|
                    0 <= i < j && (#[trigger] frontier[i]).pos == p);
                assert(holds(explored@, p) <==> holds(before, p) || p == frontier[j as int].pos);
                if exists|i: int| 0 <= i < j + 1 && (#[trigger] frontier[i]).pos == p {
                    let i = choose|i: int| 0 <= i < j + 1 && (#[trigger] frontier[i]).pos == p;
                    if i < j {
                        assert(holds(before, p));
                    }
                }
                if holds(before, p) && !holds(old(explored)@, p) {
                    let i = choose|i: int| 0 <= i < j && (#[trigger] frontier[i]).pos == p;
                    assert(0 <= i < j + 1 && frontier[i].pos == p);
                }
                if p == frontier[j as int].pos {
                    assert(0 <= j < j + 1 && frontier[j as int].pos == p);
                }
            }
        }
        j = j + 1;
    }
}

/// The neighbour slots of the nodes of `frontier`, in order.
fn level_neighbours(frontier: &Vec<Node>) -> (items: Vec<Neighbours>)
    ensures
        items.len() == frontier.len(),
        forall|i: int| 0 <= i < frontier.len() ==> #[trigger] items[i] == frontier[i].neighbours,
{
    let mut items: Vec<Neighbours> = Vec::new();
    let mut j: usize = 0;
    while j < frontier.len()
        invariant
            0 <= j <= frontier.len(),
            items.len() == j,
            forall|i: int| 0 <= i < j ==> #[trigger] items[i] == frontier[i].neighbours,
        decreases frontier.len() - j,
    {
        items.push(frontier[j].neighbours);
        j = j + 1;
    }
    items
}

/// After the nodes of level `k` are explored, the explored positions are
/// those within `k` steps.
pub proof fn lemma_level_explored(g: Graph, frontier: Seq<Node>, e0: Set<u64>, e1: Set<u64>, k: nat)
    requires
        level_ok(g, frontier, e0, k),
        forall|p: Pos| #[trigger] holds(e1, p) <==> holds(e0, p) || exists|j: int| 0 <= j < frontier.len()
            && (#[trigger] frontier[j]).pos == p,
    ensures
        forall|p: Pos| #[trigger] holds(e1, p) <==> within(g, k).contains(p),
{
    if k > 0 {
        lemma_within_grows(g, (k - 1) as nat, k);
    }
    assert forall|p: Pos| #[trigger] holds(e1, p) <==> within(g, k).contains(p) by {
        if within(g, k).contains(p) && !within_before(g, k).contains(p) {
            assert(layer(g, k).contains(p));
        }
        if exists|j: int| 0 <= j < frontier.len() && (#[trigger] frontier[j]).pos == p {
            let j = choose|j: int| 0 <= j < frontier.len() && (#[trigger] frontier[j]).pos == p;
            assert(level_node(g, frontier[j], k));
        }
    }
}

/// The keys of the positions of the nodes of `frontier`.
pub open spec fn level_keys(frontier: Seq<Node>) -> Set<u64> {
    Set::new(|key: u64| exists|j: int| 0 <= j < frontier.len() && key == pos_key(#[trigger] frontier[j].pos))
}

/// The children that the first `j` nodes of `frontier` make: for each node
/// in order, each of its neighbours that `explored` does not hold, in slot
/// order, with the index of the node it comes from.
pub open spec fn level_children(explored: Set<u64>, frontier: Seq<Node>, j: int) -> Seq<(int, Pos)>
    decreases j,
{
    if j <= 0 {
        Seq::empty()
    } else {
        level_children(explored, frontier, j - 1) + fresh(explored, frontier[j - 1].neighbours).map_values(
            |v: Pos| (j - 1, v),
        )
    }
}

/// `n` is the node made for `v` from `parent`: at `v`, with the neighbour
/// slots of `v`, cost 0, and the route of `parent` extended by `v`.
pub open spec fn child_of(g: Graph, parent: Node, v: Pos, n: Node) -> bool {
    &&& n.pos == v
    &&& n.neighbours == g.nbrs(v)
    &&& n.cost == 0
    &&& list_items(n.path) == seq![v] + list_items(parent.path)
}

/// `next` holds, in order, the nodes made for the children `c` of the
/// nodes of `frontier`.
pub open spec fn children_made(g: Graph, frontier: Seq<Node>, c: Seq<(int, Pos)>, next: Seq<Node>) -> bool {
    &&& next.len() == c.len()
    &&& forall|i: int| 0 <= i < c.len() ==> child_of(g, frontier[c[i].0], c[i].1, #[trigger] next[i])
}

/// Each child comes from one of the first `j` nodes and is one of its
/// unexplored neighbours; each unexplored neighbour of those nodes is a
/// child.
pub proof fn lemma_level_children(explored: Set<u64>, frontier: Seq<Node>, j: int)
    requires
        0 <= j <= frontier.len(),
    ensures
        forall|i: int| 0 <= i < level_children(explored, frontier, j).len() ==> {
            let ch = #[trigger] level_children(explored, frontier, j)[i];
            &&& 0 <= ch.0 < j
            &&& fresh(explored, frontier[ch.0].neighbours).contains(ch.1)
        },
        forall|a: int, v: Pos| 0 <= a < j && #[trigger] fresh(explored, frontier[a].neighbours).contains(v)
            ==> level_children(explored, frontier, j).contains((a, v)),
    decreases j,
{
    if j > 0 {
        lemma_level_children(explored, frontier, j - 1);
        let before = level_children(explored, frontier, j - 1);
        let f = fresh(explored, frontier[j - 1].neighbours);
        let added = f.map_values(|v: Pos| (j - 1, v));
        let now = level_children(explored, frontier, j);
        assert(now == before + added);
        assert forall|i: int| 0 <= i < now.len() implies {
            let ch = #[trigger] now[i];
            &&& 0 <= ch.0 < j
            &&& fresh(explored, frontier[ch.0].neighbours).contains(ch.1)
        } by {
            if i < before.len() {
                assert(now[i] == before[i]);
            } else {
                assert(now[i] == added[i - before.len()]);
                assert(f.contains(f[i - before.len()]));
            }
        }
        assert forall|a: int, v: Pos| 0 <= a < j && #[trigger] fresh(explored, frontier[a].neighbours).contains(v)
            implies now.contains((a, v)) by {
            if a < j - 1 {
                let i = choose|i: int| 0 <= i < before.len() && before[i] == (a, v);
                assert(now[i] == (a, v));
            } else {
                let t = choose|t: int| 0 <= t < f.len() && f[t] == v;
                assert(now[before.len() + t] == (a, v));
            }
        }
    }
}

/// Explores every node of the level `frontier` and makes a node for each
/// unexplored neighbour of each of them, in order; returns the route of the
/// first such neighbour that is the exit instead, when there is one.
///
/// Searching from a level-`k` state, the nodes made are level `k + 1`, and a
/// route returned is a shortest one.
#[verifier::rlimit(40)]
fn process_level(graph: &Graph, explored: &mut HashSet<u64>, frontier: Vec<Node>, Ghost(k): Ghost<nat>) -> (r:
    Either<Vec<Node>, ConsList<Pos>>)
    requires
        forall|j: int, s: int|
            0 <= j < frontier.len() && 0 <= s < 4 && (#[trigger] frontier[j].neighbours[s]) is Some
                ==> graph.has(frontier[j].neighbours[s]->0),
        forall|j: int| 0 <= j < frontier.len() ==> list_items((#[trigger] frontier[j]).path).len() < usize::MAX,
    ensures
        final(explored)@ == old(explored)@.union(level_keys(frontier@)),
        ({
            let c = level_children(final(explored)@, frontier@, frontier.len() as int);
            match r {
                Either::Left(next) => {
                    &&& children_made(*graph, frontier@, c, next@)
                    &&& forall|i: int| 0 <= i < c.len() ==> (#[trigger] c[i]).1 != graph.end_node()
                },
                Either::Right(l) => exists|i: int| {
                    &&& 0 <= i < c.len()
                    &&& (#[trigger] c[i]).1 == graph.end_node()
                    &&& forall|i2: int| 0 <= i2 < i ==> (#[trigger] c[i2]).1 != graph.end_node()
                    &&& list_items(l) == seq![graph.end_node()] + list_items(frontier@[c[i].0].path)
                },
            }
        }),
        level_ok(*graph, frontier@, old(explored)@, k) && k < MAX_LEVELS ==> match r {
            Either::Left(next) => level_ok(*graph, next@, final(explored)@, k + 1),
            Either::Right(l) => {
                &&& solves(*graph, list_items(l))
                &&& list_items(l).len() == k + 1
                &&& graph.start_node() != graph.end_node()
                &&& !within(*graph, k).contains(graph.end_node())
            },
        },
{
    proof {
        use_type_invariant(graph);
        graph.lemma_well_formed();
    }
    let ghost g = *graph;
    let ghost e0 = explored@;
    mark_level(explored, &frontier);
    let ghost e1 = explored@;
    proof {
        assert forall|key: u64| e1.contains(key) <==> e0.union(level_keys(frontier@)).contains(key) by {
            let q = crate::pos::lemma_key_decodes(key);
            assert(holds(e1, q) == e1.contains(key));
            assert(holds(e0, q) == e0.contains(key));
            if exists|j: int| 0 <= j < frontier.len() && (#[trigger] frontier[j]).pos == q {
                let j = choose|j: int| 0 <= j < frontier.len() && (#[trigger] frontier[j]).pos == q;
                assert(level_keys(frontier@).contains(key));
            }
            if level_keys(frontier@).contains(key) {
                let j = choose|j: int| 0 <= j < frontier.len() && key == pos_key(#[trigger] frontier@[j].pos);
                lemma_key_injective(q, frontier[j].pos);
            }
        }
        assert(e1 =~= e0.union(level_keys(frontier@)));
    }
    let items = level_neighbours(&frontier);
    let fresh_of = fresh_lists(explored, &items, true);
    let end = graph.end();
    let mut next: Vec<Node> = Vec::new();
    let mut j: usize = 0;
    while j < frontier.len()
        invariant
            g == *graph,
            g.well_formed(),
            end == g.end_node(),
            forall|j: int, s: int|
                0 <= j < frontier.len() && 0 <= s < 4 && (#[trigger] frontier[j].neighbours[s]) is Some
                    ==> g.has(frontier[j].neighbours[s]->0),
            forall|j: int| 0 <= j < frontier.len() ==> list_items((#[trigger] frontier[j]).path).len() < usize::MAX,
            fresh_of.len() == frontier.len(),
            items.len() == frontier.len(),
            forall|i: int| 0 <= i < frontier.len() ==> #[trigger] items[i] == frontier[i].neighbours,
            forall|i: int| 0 <= i < items.len() ==> (#[trigger] fresh_of[i])@ == fresh(e1, items[i]),
            0 <= j <= frontier.len(),
            explored@ == e1,
            e0 == old(explored)@,
            e1 == e0.union(level_keys(frontier@)),
            forall|p: Pos| #[trigger] holds(e1, p) <==> holds(e0, p) || exists|i: int| 0 <= i < frontier.len()
                && (#[trigger] frontier[i]).pos == p,
            children_made(g, frontier@, level_children(e1, frontier@, j as int), next@),
            forall|i: int| 0 <= i < level_children(e1, frontier@, j as int).len()
                ==> (#[trigger] level_children(e1, frontier@, j as int)[i]).1 != end,
        decreases frontier.len() - j,
    {
        let node = &frontier[j];
        let list = &fresh_of[j];
        let ghost c0 = level_children(e1, frontier@, j as int);
        proof {
            lemma_fresh(e1, node.neighbours);
        }
        let mut m: usize = 0;
        while m < list.len()
            invariant
                g == *graph,
                g.well_formed(),
                end == g.end_node(),
                0 <= j < frontier.len(),
                *node == frontier@[j as int],
                forall|s: int| 0 <= s < 4 && (#[trigger] node.neighbours[s]) is Some ==> g.has(node.neighbours[s]->0),
                list_items(node.path).len() < usize::MAX,
                list@ == fresh(e1, node.neighbours),
                forall|i: int| 0 <= i < list.len() ==> lists(node.neighbours, #[trigger] list@[i]),
                0 <= m <= list.len(),
                explored@ == e1,
                c0 == level_children(e1, frontier@, j as int),
                e0 == old(explored)@,
                e1 == e0.union(level_keys(frontier@)),
                forall|p: Pos| #[trigger] holds(e1, p) <==> holds(e0, p) || exists|i: int| 0 <= i < frontier.len()
                    && (#[trigger] frontier[i]).pos == p,
                children_made(g, frontier@, c0 + list@.take(m as int).map_values(|v: Pos| (j as int, v)), next@),
                forall|i: int| 0 <= i < c0.len() ==> (#[trigger] c0[i]).1 != end,
                forall|i: int| 0 <= i < m ==> (#[trigger] list@[i]) != end,
            decreases list.len() - m,
        {
            let v = list[m];
            proof {
                assert(lists(node.neighbours, v));
                let s = choose|s: int| 0 <= s < 4 && #[trigger] node.neighbours[s] == Some(v);
            }
            let child = Node { pos: v, cost: 0, neighbours: graph.neighbours(v), path: push_front(&node.path, v) };
            let ghost cm = c0 + list@.take(m as int).map_values(|v: Pos| (j as int, v));
            let ghost cm1 = c0 + list@.take(m + 1).map_values(|v: Pos| (j as int, v));
            proof {
                assert(cm1 =~= cm.push((j as int, v)));
            }
            if v == end {
                proof {
                    let i = cm.len() as int;
                    assert(cm1[i] == (j as int, v));
                    assert forall|i2: int| 0 <= i2 < i implies (#[trigger] cm1[i2]).1 != end by {
                        assert(cm1[i2] == cm[i2]);
                        if i2 >= c0.len() {
                            assert(cm[i2] == (j as int, list@[i2 - c0.len()]));
                        }
                    }
                    let cl = level_children(e1, frontier@, (j as int) + 1);
                    let full = level_children(e1, frontier@, frontier.len() as int);
                    lemma_level_children_step(e1, frontier@, j as int);
                    let added = list@.map_values(|v: Pos| (j as int, v));
                    assert(fresh(e1, frontier@[j as int].neighbours) == list@);
                    assert(cl =~= c0 + added);
                    assert(cl.len() == c0.len() + list.len());
                    assert forall|t: int| 0 <= t < cm1.len() implies #[trigger] cl[t] == cm1[t] by {
                        if t >= c0.len() {
                            assert(cl[t] == (j as int, list@[t - c0.len()]));
                        }
                    }
                    lemma_level_children_prefix(e1, frontier@, (j as int) + 1, frontier.len() as int);
                    assert forall|t: int| 0 <= t < cm1.len() implies #[trigger] full[t] == cm1[t] by {
                        assert(full[t] == cl[t]);
                    }
                    assert(full[i] == (j as int, end));
                    assert forall|i2: int| 0 <= i2 < i implies (#[trigger] full[i2]).1 != end by {
                        assert(full[i2] == cm1[i2]);
                    }
                    if level_ok(g, frontier@, e0, k) && k < MAX_LEVELS {
                        lemma_level_explored(g, frontier@, e0, e1, k);
                        lemma_within_grows(g, 0, k);
                        assert(level_node(g, frontier@[j as int], k));
                        assert(fresh(e1, node.neighbours).contains(v)) by {
                            assert(list@[m as int] == v);
                        }
                        lemma_child_level(g, *node, e1, v, child, k);
                        assert(route_of(list_items(child.path)).len() == list_items(child.path).len());
                    }
                }
                return Either::Right(child.path);
            }
            next.push(child);
            m = m + 1;
        }
        proof {
            assert(list@.take(list.len() as int) =~= list@);
            lemma_level_children_step(e1, frontier@, j as int);
            let c1 = level_children(e1, frontier@, j + 1);
            assert forall|i: int| 0 <= i < c1.len() implies (#[trigger] c1[i]).1 != end by {
                if i >= c0.len() {
                    assert(c1[i] == (j as int, list@[i - c0.len()]));
                }
            }
        }
        j = j + 1;
    }
    proof {
        assert(level_children(e1, frontier@, j as int) == level_children(e1, frontier@, frontier.len() as int));
        if level_ok(g, frontier@, e0, k) && k < MAX_LEVELS {
            lemma_level_explored(g, frontier@, e0, e1, k);
            lemma_next_level(g, frontier@, e0, e1, next@, k);
        }
    }
    Either::Left(next)
}

/// The children of the first `j + 1` nodes: those of the first `j`, then
/// those of node `j`.
pub proof fn lemma_level_children_step(explored: Set<u64>, frontier: Seq<Node>, j: int)
    requires
        0 <= j,
    ensures
        level_children(explored, frontier, j + 1) == level_children(explored, frontier, j) + fresh(
            explored,
            frontier[j].neighbours,
        ).map_values(|v: Pos| (j, v)),
{
    let a = level_children(explored, frontier, j + 1);
    let f = fresh(explored, frontier[j].neighbours);
    let b = level_children(explored, frontier, j) + f.map_values(|v: Pos| (j, v));
    assert(a == level_children(explored, frontier, j) + f.map_values(|v: Pos| ((j + 1) - 1, v)));
    assert(a =~= b);
}

/// The children of the first `a` nodes come first among the children of
/// the first `b` nodes.
pub proof fn lemma_level_children_prefix(explored: Set<u64>, frontier: Seq<Node>, a: int, b: int)
    requires
        0 <= a <= b,
    ensures
        level_children(explored, frontier, a).len() <= level_children(explored, frontier, b).len(),
        forall|i: int| 0 <= i < level_children(explored, frontier, a).len() ==> #[trigger] level_children(
            explored,
            frontier,
            b,
        )[i] == level_children(explored, frontier, a)[i],
    decreases b - a,
{
    if a < b {
        lemma_level_children_prefix(explored, frontier, a, b - 1);
    }
}

/// A node of level `k` makes, for an unexplored neighbour `v`, a node whose
/// route of `k + 1` steps leads to `v`, at distance `k + 1`.
pub proof fn lemma_child_level(g: Graph, parent: Node, e1: Set<u64>, v: Pos, child: Node, k: nat)
    requires
        g.well_formed(),
        level_node(g, parent, k),
        forall|p: Pos| #[trigger] holds(e1, p) <==> within(g, k).contains(p),
        fresh(e1, parent.neighbours).contains(v),
        child_of(g, parent, v, child),
    ensures
        level_node(g, child, k + 1),
        !within(g, k).contains(v),
{
    lemma_fresh(e1, parent.neighbours);
    let steps = node_route(parent);
    assert(lists(parent.neighbours, v));
    assert(g.edge(parent.pos, v));
    let s = choose|s: int| 0 <= s < 4 && #[trigger] parent.neighbours[s] == Some(v);
    assert(g.nbrs(parent.pos)[s] is Some);
    lemma_route_of_push_front(list_items(parent.path), v);
    assert(route_end(g.start_node(), steps) == parent.pos);
    lemma_extend_route(g, g.start_node(), steps, v);
    assert(within(g, k).contains(parent.pos));
    assert(within(g, k + 1).contains(v));
}

/// The nodes made for the children of level `k` make level `k + 1`.
pub proof fn lemma_next_level(g: Graph, frontier: Seq<Node>, e0: Set<u64>, e1: Set<u64>, next: Seq<Node>, k: nat)
    requires
        g.well_formed(),
        level_ok(g, frontier, e0, k),
        forall|p: Pos| #[trigger] holds(e1, p) <==> within(g, k).contains(p),
        children_made(g, frontier, level_children(e1, frontier, frontier.len() as int), next),
        forall|i: int| 0 <= i < level_children(e1, frontier, frontier.len() as int).len() ==> (
        #[trigger] level_children(e1, frontier, frontier.len() as int)[i]).1 != g.end_node(),
    ensures
        level_ok(g, next, e1, k + 1),
{
    let c = level_children(e1, frontier, frontier.len() as int);
    lemma_level_children(e1, frontier, frontier.len() as int);
    assert forall|i: int| 0 <= i < next.len() implies level_node(g, #[trigger] next[i], k + 1) by {
        let ch = c[i];
        assert(child_of(g, frontier[ch.0], ch.1, next[i]));
        assert(level_node(g, frontier[ch.0], k));
        lemma_child_level(g, frontier[ch.0], e1, ch.1, next[i], k);
    }
    assert forall|p: Pos| #[trigger] layer(g, k + 1).contains(p) implies exists|m: int| 0 <= m < next.len() && (
    #[trigger] next[m]).pos == p by {
        let prev = within(g, k);
        assert(!prev.contains(p));
        let u = choose|u: Pos| #[trigger] prev.contains(u) && g.edge(u, p);
        if k > 0 {
            let before = within(g, (k - 1) as nat);
            if before.contains(u) {
                assert(prev.contains(p));
            }
        }
        assert(layer(g, k).contains(u));
        let j = choose|j: int| 0 <= j < frontier.len() && (#[trigger] frontier[j]).pos == u;
        assert(level_node(g, frontier[j], k));
        lemma_fresh(e1, frontier[j].neighbours);
        assert(lists(frontier[j].neighbours, p));
        assert(fresh(e1, frontier[j].neighbours).contains(p));
        assert(c.contains((j, p)));
        let m = choose|m: int| 0 <= m < c.len() && c[m] == (j, p);
        assert(child_of(g, frontier[c[m].0], c[m].1, next[m]));
    }
    if g.start_node() != g.end_node() && within(g, k + 1).contains(g.end_node()) {
        assert(layer(g, k + 1).contains(g.end_node()));
        let m = choose|m: int| 0 <= m < next.len() && (#[trigger] next[m]).pos == g.end_node();
        assert(child_of(g, frontier[c[m].0], c[m].1, next[m]));
    }
}

/// A list that solves the maze in at most a hundred steps shows that the
/// exit lies within a hundred steps.
proof fn lemma_found_within(g: Graph, list: Seq<Pos>)
    requires
        solves(g, list),
        list.len() <= 100,
    ensures
        within(g, 100).contains(g.end_node()),
{
    let route = route_of(list);
    assert(route.len() == list.len());
    lemma_route_within(g, route, g.end_node());
    lemma_within_grows(g, route.len(), 100);
}

/// A level search under way: the graph, the level about to be explored,
/// the positions explored so far, and how many levels have been explored.
pub struct LevelSearch {
    graph: Graph,
    frontier: Vec<Node>,
    explored: HashSet<u64>,
    level: usize,
    finished: bool,
}

/// What one call of `LevelSearch::step` did.
pub enum LevelStep {
    /// It explored a level of this many nodes and made the next level.
    Next(usize),
    /// It explored a level of this many nodes, one of which leads to the
    /// exit; the list holds the route found.
    Found(usize, ConsList<Pos>),
    /// The search was over: the level was empty or a hundred levels had
    /// been explored. The list holds the single position (0, 0).
    GaveUp(ConsList<Pos>),
}

impl LevelSearch {
    /// The state of the search: the level holds every position at the
    /// distance from the entrance that the count of explored levels says,
    /// and the explored positions are those closer; the search runs for at
    /// most a hundred levels and starts with one node.
    #[verifier::type_invariant]
    spec fn inv(self) -> bool {
        &&& self.level <= MAX_LEVELS
        &&& self.finished ==> self.frontier.len() == 0
        &&& !self.finished ==> level_ok(self.graph, self.frontier@, self.explored@, self.level as nat)
        &&& !self.finished && self.level == 0 ==> self.frontier.len() > 0
    }

    /// The search has found the exit.
    pub closed spec fn finished(self) -> bool {
        self.finished
    }

    /// The graph searched.
    pub closed spec fn graph_of(self) -> Graph {
        self.graph
    }

    /// The number of levels explored so far.
    pub closed spec fn levels(self) -> nat {
        self.level as nat
    }

    /// The number of nodes in the level about to be explored.
    pub closed spec fn level_size(self) -> nat {
        self.frontier.len() as nat
    }

    /// The nodes of the level about to be explored, in order.
    pub closed spec fn level_nodes(self) -> Seq<Node> {
        self.frontier@
    }

    /// The keys of the positions explored so far.
    pub closed spec fn explored_keys(self) -> Set<u64> {
        self.explored@
    }

    /// The size of a level is the number of its nodes.
    pub proof fn lemma_level_size(self)
        ensures
            self.level_size() == self.level_nodes().len(),
    {
    }

    /// The search will explore another level.
    pub open spec fn running(self) -> bool {
        !self.finished() && self.level_size() > 0 && self.levels() < 100
    }

    /// Starts a search of `graph`: its first level is the entrance alone.
    pub fn new(graph: Graph) -> (s: LevelSearch)
        ensures
            s.graph_of() == graph,
            s.levels() == 0,
            s.level_size() == 1,
            !s.finished(),
    {
        proof {
            use_type_invariant(&graph);
            graph.lemma_well_formed();
        }
        let ghost g = graph;
        let start = graph.start();
        let mut frontier: Vec<Node> = Vec::new();
        // The level search keeps no costs: every node's cost stays 0.
        frontier.push(Node { pos: start, cost: 0, neighbours: graph.neighbours(start), path: empty_list() });
        let explored: HashSet<u64> = HashSet::new();
        proof {
            assert(route_of(list_items(frontier[0].path)) =~= Seq::<Pos>::empty());
            assert(level_node(g, frontier[0], 0));
            assert forall|p: Pos| #[trigger] layer(g, 0).contains(p) implies exists|j: int| 0 <= j < frontier.len()
                && (#[trigger] frontier[j]).pos == p by {
                assert(frontier[0].pos == p);
            }
        }
        LevelSearch { graph, frontier, explored, level: 0, finished: false }
    }

    /// The number of nodes in the level about to be explored.
    pub fn frontier_len(&self) -> (n: usize)
        ensures
            n == self.level_size(),
    {
        self.frontier.len()
    }

    /// Explores the next level, or says that the search is over.
    ///
    /// When the search is running, it explores the level of `level_size`
    /// nodes: it finds the exit among their unexplored neighbours, with a
    /// route of `levels + 1` steps and no shorter route, or it makes the next
    /// level: one node for each node of the level and each of its neighbours
    /// that is not explored once the level is, in order, so that a position
    /// reached from two nodes is there twice. Otherwise it gives up with the list `[(0, 0)]`; the exit is then
    /// the entrance, or more than a hundred steps away, or out of reach.
    pub fn step(self) -> (r: (LevelSearch, LevelStep))
        ensures
            r.0.graph_of() == self.graph_of(),
            !self.running() ==> (r.1 matches LevelStep::GaveUp(l) && list_items(l) == seq![Pos { x: 0, y: 0 }]),
            !self.running() && !self.finished() ==> {
                let g = self.graph_of();
                g.start_node() == g.end_node() || !within(g, 100).contains(g.end_node())
            },
            self.running() ==> match r.1 {
                LevelStep::Next(n) => {
                    &&& n == self.level_size()
                    &&& r.0.levels() == self.levels() + 1
                    &&& !r.0.finished()
                    &&& r.0.explored_keys() == self.explored_keys().union(level_keys(self.level_nodes()))
                    &&& children_made(
                        self.graph_of(),
                        self.level_nodes(),
                        level_children(r.0.explored_keys(), self.level_nodes(), self.level_nodes().len() as int),
                        r.0.level_nodes(),
                    )
                },
                LevelStep::Found(n, l) => {
                    let g = self.graph_of();
                    &&& n == self.level_size()
                    &&& r.0.finished()
                    &&& solves(g, list_items(l))
                    &&& list_items(l).len() == self.levels() + 1
                    &&& g.start_node() != g.end_node()
                    &&& forall|steps: Seq<Pos>| leads_to(g, g.start_node(), steps, g.end_node()) ==> list_items(
                        l,
                    ).len() <= steps.len()
                },
                LevelStep::GaveUp(_) => false,
            },
    {
        proof {
            use_type_invariant(&self);
            use_type_invariant(&self.graph);
            self.graph.lemma_well_formed();
        }
        let LevelSearch { graph, frontier, explored, level, finished } = self;
        let ghost g = graph;
        let ghost k = level as nat;
        let start = graph.start();
        let end = graph.end();
        if finished || frontier.is_empty() || level >= MAX_LEVELS {
            proof {
                if !finished && frontier.len() == 0 {
                    assert(k > 0);
                    assert(within(g, k) =~= within(g, (k - 1) as nat)) by {
                        lemma_within_grows(g, (k - 1) as nat, k);
                        assert forall|p: Pos| within(g, k).contains(p) implies within(g, (k - 1) as nat).contains(p) by {
                            if !within(g, (k - 1) as nat).contains(p) {
                                assert(layer(g, k).contains(p));
                            }
                        }
                    }
                    lemma_within_fixpoint(g, (k - 1) as nat, 100);
                }
            }
            let origin = Pos::from((0, 0));
            let l = push_front(&empty_list(), origin);
            return (LevelSearch { graph, frontier, explored, level, finished }, LevelStep::GaveUp(l));
        }
        let n = frontier.len();
        let mut explored = explored;
        proof {
            assert forall|j: int, s: int|
                0 <= j < frontier.len() && 0 <= s < 4 && (#[trigger] frontier[j].neighbours[s]) is Some
                    implies g.has(frontier[j].neighbours[s]->0) by {
                assert(level_node(g, frontier[j], k));
            }
            assert forall|j: int| 0 <= j < frontier.len() implies list_items((#[trigger] frontier[j]).path).len()
                < usize::MAX by {
                assert(level_node(g, frontier[j], k));
                assert(route_of(list_items(frontier[j].path)).len() == list_items(frontier[j].path).len());
            }
        }
        match process_level(&graph, &mut explored, frontier, Ghost(k)) {
            Either::Left(next) => {
                let s = LevelSearch { graph, frontier: next, explored, level: level + 1, finished: false };
                (s, LevelStep::Next(n))
            },
            Either::Right(path) => {
                proof {
                    let route = route_of(list_items(path));
                    assert(route.len() == list_items(path).len());
                    assert forall|steps: Seq<Pos>| leads_to(g, start, steps, end) implies list_items(path).len()
                        <= steps.len() by {
                        lemma_route_within(g, steps, end);
                        if steps.len() <= k {
                            lemma_within_grows(g, steps.len(), k);
                        }
                    }
                }
                let empty: Vec<Node> = Vec::new();
                let s = LevelSearch { graph, frontier: empty, explored, level, finished: true };
                (s, LevelStep::Found(n, path))
            },
        }
    }
}

/// Searches `graph` level by level for a route from its entrance to its
/// exit, giving up after a hundred levels.
///
/// When the exit is not the entrance and lies within a hundred steps of it,
/// the list holds a shortest route there, last step first. Otherwise the
/// list holds the single position (0, 0).
pub fn parallel_breadth_first_search(graph: Graph) -> (l: ConsList<Pos>)
    ensures
        ({
            let found = graph.start_node() != graph.end_node() && within(graph, 100).contains(graph.end_node());
            &&& found ==> solves(graph, list_items(l))
            &&& found ==> forall|steps: Seq<Pos>| leads_to(graph, graph.start_node(), steps, graph.end_node())
                ==> list_items(l).len() <= steps.len()
            &&& !found ==> list_items(l) == seq![Pos { x: 0, y: 0 }]
        }),
{
    let ghost g = graph;
    let mut search = LevelSearch::new(graph);
    loop
        invariant
            g == graph,
            search.graph_of() == g,
            !search.finished(),
            search.levels() <= 100,
        decreases 100 - search.levels(),
    {
        let ghost before = search;
        let (next, step) = search.step();
        match step {
            LevelStep::Next(_) => {
                proof {
                    assert(before.running());
                }
                search = next;
            },
            LevelStep::Found(_, path) => {
                proof {
                    assert(before.running());
                    lemma_found_within(g, list_items(path));
                }
                return path;
            },
            LevelStep::GaveUp(path) => {
                proof {
                    assert(!before.running());
                }
                return path;
            },
        }
    }
}

} // verus!
