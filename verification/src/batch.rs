//! Best-first search in batches: each round takes several of the cheapest
//! nodes out of the frontier at once and expands them all against the
//! positions explored before the round, possibly on several threads.

use std::collections::HashSet;
use cons_list::ConsList;
use vstd::prelude::*;
use vstd::multiset::Multiset;
use crate::graph::{Graph, Neighbours, lists};
use crate::node::{Node, node_ok, node_route, frontier_ok, frontier_covers, in_frontier, step_cost,
    lemma_child_ok, lemma_route_has_room, lemma_node_ok_grows, lemma_cost_room};
use crate::parallel::par_map;
use crate::path::{list_items, empty_list, push_front};
use crate::pos::{Pos, pos_key, key_of};
use crate::queue::MinQueue;
use crate::pbfs::{level_children, lemma_level_children_step, lemma_level_children_prefix};
use crate::routes::{holds, solvable, solves_simply, leads_to, route_of, closed_under_edges, route_cost, spec_step_cost,
    lemma_closed_set_holds_reachable, lemma_unexplored_shrinks};

verus! {

broadcast use {
    vstd::std_specs::hash::axiom_u64_obeys_hash_table_key_model,
    vstd::std_specs::hash::axiom_random_state_builds_valid_hashers,
    vstd::std_specs::hash::axiom_set_contains_deref_key,
    vstd::multiset::group_multiset_axioms,
    vstd::seq_lib::group_to_multiset_ensures,
};

/// The positions in the first `j` slots of `nbrs`, in slot order, that
/// `explored` does not hold.
pub open spec fn fresh_upto(explored: Set<u64>, nbrs: Neighbours, j: int) -> Seq<Pos>
    decreases j,
{
    if j <= 0 {
        Seq::empty()
    } else {
        let before = fresh_upto(explored, nbrs, j - 1);
        match nbrs[j - 1] {
            Some(v) => if holds(explored, v) {
                before
            } else {
                before.push(v)
            },
            None => before,
        }
    }
}

/// The positions in the slots of `nbrs`, in slot order, that `explored`
/// does not hold.
pub open spec fn fresh(explored: Set<u64>, nbrs: Neighbours) -> Seq<Pos> {
    fresh_upto(explored, nbrs, 4)
}

/// The positions of `fresh` are exactly the listed positions that are not
/// explored, and there are at most four of them.
pub proof fn lemma_fresh(explored: Set<u64>, nbrs: Neighbours)
    ensures
        fresh(explored, nbrs).len() <= 4,
        forall|i: int| 0 <= i < fresh(explored, nbrs).len() ==> lists(nbrs, #[trigger] fresh(explored, nbrs)[i])
            && !holds(explored, fresh(explored, nbrs)[i]),
        forall|v: Pos| lists(nbrs, v) && !holds(explored, v) ==> #[trigger] fresh(explored, nbrs).contains(v),
{
    lemma_fresh_upto(explored, nbrs, 4);
}

proof fn lemma_fresh_upto(explored: Set<u64>, nbrs: Neighbours, j: int)
    requires
        0 <= j <= 4,
    ensures
        fresh_upto(explored, nbrs, j).len() <= j,
        forall|i: int| 0 <= i < fresh_upto(explored, nbrs, j).len() ==> {
            let v = #[trigger] fresh_upto(explored, nbrs, j)[i];
            &&& !holds(explored, v)
            &&& exists|s: int| 0 <= s < j && nbrs[s] == Some(v)
        },
        forall|v: Pos, s: int| 0 <= s < j && #[trigger] nbrs[s] == Some(v) && !holds(explored, v)
            ==> #[trigger] fresh_upto(explored, nbrs, j).contains(v),
    decreases j,
{
    if j > 0 {
        lemma_fresh_upto(explored, nbrs, j - 1);
        let before = fresh_upto(explored, nbrs, j - 1);
        let now = fresh_upto(explored, nbrs, j);
        assert forall|i: int| 0 <= i < now.len() implies {
            let v = #[trigger] now[i];
            &&& !holds(explored, v)
            &&& exists|s: int| 0 <= s < j && nbrs[s] == Some(v)
        } by {
            if i < before.len() {
                assert(now[i] == before[i]);
                let s = choose|s: int| 0 <= s < j - 1 && nbrs[s] == Some(before[i]);
            } else {
                assert(nbrs[j - 1] == Some(now[i]));
            }
        }
        assert forall|v: Pos, s: int| 0 <= s < j && #[trigger] nbrs[s] == Some(v) && !holds(explored, v)
            implies #[trigger] now.contains(v) by {
            if s < j - 1 {
                assert(before.contains(v));
                let k = choose|k: int| 0 <= k < before.len() && before[k] == v;
                assert(now[k] == v);
            } else {
                assert(now[now.len() - 1] == v);
            }
        }
    }
}

/// The positions in the slots of `nbrs`, in slot order, that `explored`
/// does not hold.
pub fn fresh_neighbours(explored: &HashSet<u64>, nbrs: &Neighbours) -> (r: Vec<Pos>)
    ensures
        r@ == fresh(explored@, *nbrs),
{
    let mut r: Vec<Pos> = Vec::new();
    let mut j: usize = 0;
    while j < 4
        invariant
            0 <= j <= 4,
            r@ == fresh_upto(explored@, *nbrs, j as int),
        decreases 4 - j,
    {
        if let Some(v) = nbrs[j] {
            if !explored.contains(&key_of(v)) {
                r.push(v);
            }
        }
        j = j + 1;
    }
    r
}

/// The number of entries of `f` whose node is at an explored position.
pub open spec fn explored_entries(f: Multiset<(u128, Node)>, explored: Set<u64>) -> nat {
    f.filter(|e: (u128, Node)| holds(explored, e.1.pos)).len()
}

/// Counting explored entries adds up over multisets.
pub proof fn lemma_explored_entries_add(a: Multiset<(u128, Node)>, b: Multiset<(u128, Node)>, explored: Set<u64>)
    ensures
        explored_entries(a.add(b), explored) == explored_entries(a, explored) + explored_entries(b, explored),
{
    let f = |e: (u128, Node)| holds(explored, e.1.pos);
    assert(a.add(b).filter(f) =~= a.filter(f).add(b.filter(f)));
}

/// An entry at an unexplored position adds no explored entry.
pub proof fn lemma_explored_entries_insert(a: Multiset<(u128, Node)>, e: (u128, Node), explored: Set<u64>)
    requires
        !holds(explored, e.1.pos),
    ensures
        explored_entries(a.insert(e), explored) == explored_entries(a, explored),
{
    let f = |e: (u128, Node)| holds(explored, e.1.pos);
    assert(a.insert(e).filter(f) =~= a.filter(f));
}

/// When every entry is at an explored position, every entry counts.
pub proof fn lemma_explored_entries_all(a: Multiset<(u128, Node)>, explored: Set<u64>)
    requires
        forall|e: (u128, Node)| #[trigger] a.contains(e) ==> holds(explored, e.1.pos),
    ensures
        explored_entries(a, explored) == a.len(),
{
    let f = |e: (u128, Node)| holds(explored, e.1.pos);
    assert forall|v: (u128, Node)| a.filter(f).count(v) == a.count(v) by {
        if a.count(v) > 0 {
            assert(a.contains(v));
        }
    }
    assert(a.filter(f) =~= a);
}

/// Takes `n` entries of least cost out of `frontier`, cheapest first: no
/// entry left costs less than one taken.
fn take_batch(frontier: &mut MinQueue<Node>, n: usize) -> (batch: Vec<(u128, Node)>)
    requires
        n <= old(frontier)@.len(),
    ensures
        batch.len() == n,
        old(frontier)@ == final(frontier)@.add(batch@.to_multiset()),
        forall|i: int, k: int| 0 <= i < k < n ==> (#[trigger] batch[i]).0 <= (#[trigger] batch[k]).0,
        forall|i: int, e: (u128, Node)| 0 <= i < n && #[trigger] final(frontier)@.contains(e) ==> (
        #[trigger] batch[i]).0 <= e.0,
{
    let mut batch: Vec<(u128, Node)> = Vec::new();
    let mut j: usize = 0;
    while j < n
        invariant
            0 <= j <= n,
            batch.len() == j,
            n <= old(frontier)@.len(),
            frontier@.len() + j == old(frontier)@.len(),
            old(frontier)@ == frontier@.add(batch@.to_multiset()),
            forall|i: int, k: int| 0 <= i < k < j ==> (#[trigger] batch[i]).0 <= (#[trigger] batch[k]).0,
            forall|i: int, e: (u128, Node)| 0 <= i < j && #[trigger] frontier@.contains(e) ==> (
            #[trigger] batch[i]).0 <= e.0,
        decreases n - j,
    {
        let ghost f = frontier@;
        let ghost b = batch@;
        match frontier.pop() {
            Some(e) => {
                batch.push(e);
                proof {
                    assert(frontier@.add(batch@.to_multiset()) =~= f.add(b.to_multiset()));
                    assert forall|i: int, k: int| 0 <= i < k < j + 1 implies (#[trigger] batch[i]).0
                        <= (#[trigger] batch[k]).0 by {
                        if k == j {
                            assert(batch[i] == b[i]);
                            assert(f.contains(e));
                        } else {
                            assert(batch[i] == b[i] && batch[k] == b[k]);
                        }
                    }
                    assert forall|i: int, e2: (u128, Node)| 0 <= i < j + 1 && #[trigger] frontier@.contains(e2)
                        implies (#[trigger] batch[i]).0 <= e2.0 by {
                        assert(f.contains(e2));
                        if i < j {
                            assert(batch[i] == b[i]);
                        }
                    }
                }
            },
            None => {
                assert(false);
            },
        }
        j = j + 1;
    }
    batch
}

/// The keys of the positions of the nodes of `batch`.
pub open spec fn batch_keys(batch: Seq<(u128, Node)>) -> Set<u64> {
    Set::new(|k: u64| exists|j: int| 0 <= j < batch.len() && k == pos_key(#[trigger] batch[j].1.pos))
}

/// The nodes of the entries of `batch`, in order.
pub open spec fn batch_nodes(batch: Seq<(u128, Node)>) -> Seq<Node> {
    batch.map_values(|e: (u128, Node)| e.1)
}

/// `e` is the entry a search makes for the neighbour `v` of `parent`: a node
/// at `v` with the neighbour slots of `v`, the route of `parent` extended by
/// `v`, and the cost of `parent` plus the step, filed under that cost.
pub open spec fn made_for(g: Graph, parent: Node, v: Pos, e: (u128, Node)) -> bool {
    &&& e.1.pos == v
    &&& e.1.neighbours == g.nbrs(v)
    &&& e.1.cost == parent.cost + spec_step_cost(parent.pos, v)
    &&& e.0 == e.1.cost
    &&& list_items(e.1.path) == seq![v] + list_items(parent.path)
}

/// `kids` holds, in order, the entries made for the children `c` of the
/// nodes `nodes`.
#[verifier::opaque]
pub open spec fn kids_made(g: Graph, nodes: Seq<Node>, c: Seq<(int, Pos)>, kids: Seq<(u128, Node)>) -> bool {
    &&& kids.len() == c.len()
    &&& forall|i: int| 0 <= i < c.len() ==> made_for(g, nodes[c[i].0], c[i].1, #[trigger] kids[i])
}

/// The children of a round that takes `batch` out of the frontier while
/// `explored` holds the positions explored before it: for each node of the
/// batch in order, its neighbours that `explored` does not hold, in slot
/// order.
pub open spec fn round_children(explored: Set<u64>, batch: Seq<(u128, Node)>) -> Seq<(int, Pos)> {
    level_children(explored, batch_nodes(batch), batch.len() as int)
}

/// The children of the first `j` nodes of `nodes`, as `level_children`
/// lists them; kept opaque while a round is expanded.
#[verifier::opaque]
pub open spec fn children_upto(explored: Set<u64>, nodes: Seq<Node>, j: int) -> Seq<(int, Pos)> {
    level_children(explored, nodes, j)
}

/// `batch` is what a round takes out of the frontier `f` when it takes up
/// to `n` entries: as many as it can, cheapest first, none costing more
/// than an entry left in `rest`.
pub open spec fn round_taken(f: Multiset<(u128, Node)>, n: int, batch: Seq<(u128, Node)>, rest: Multiset<
    (u128, Node),
>) -> bool {
    &&& batch.len() == (if f.len() < n { f.len() as int } else { n })
    &&& f == rest.add(batch.to_multiset())
    &&& forall|i: int, k: int| 0 <= i < k < batch.len() ==> (#[trigger] batch[i]).0 <= (#[trigger] batch[k]).0
    &&& forall|i: int, e: (u128, Node)| 0 <= i < batch.len() && #[trigger] rest.contains(e) ==> (
    #[trigger] batch[i]).0 <= e.0
}

/// A round of up to `n` nodes, from the frontier `f` and the explored set
/// `e`, that makes no node at the exit: it leaves the frontier `f2` (the
/// entries it did not take, and those made for the children) and the
/// explored set `e2` (with the positions of the batch).
pub open spec fn round_step(
    g: Graph,
    n: int,
    f: Multiset<(u128, Node)>,
    e: Set<u64>,
    f2: Multiset<(u128, Node)>,
    e2: Set<u64>,
) -> bool {
    exists|batch: Seq<(u128, Node)>, rest: Multiset<(u128, Node)>, kids: Seq<(u128, Node)>|
        #![trigger round_taken(f, n, batch, rest), kids_made(g, batch_nodes(batch), round_children(e, batch), kids)]
        {
            &&& round_taken(f, n, batch, rest)
            &&& batch.len() > 0
            &&& e2 == e.union(batch_keys(batch))
            &&& kids_made(g, batch_nodes(batch), round_children(e, batch), kids)
            &&& forall|i: int| 0 <= i < kids.len() ==> (#[trigger] kids[i]).1.pos != g.end_node()
            &&& f2 == rest.add(kids.to_multiset())
        }
}

/// The round of up to `n` nodes from the frontier `f` and the explored set
/// `e` gives the list `l`: the exit in front of the route of the node whose
/// child is the first child of the round at the exit.
pub open spec fn round_finds(g: Graph, n: int, f: Multiset<(u128, Node)>, e: Set<u64>, l: Seq<Pos>) -> bool {
    exists|batch: Seq<(u128, Node)>, rest: Multiset<(u128, Node)>, i: int|
        #![trigger round_taken(f, n, batch, rest), round_children(e, batch)[i]]
        {
            &&& round_taken(f, n, batch, rest)
            &&& 0 <= i < round_children(e, batch).len()
            &&& round_children(e, batch)[i].1 == g.end_node()
            &&& forall|i2: int| 0 <= i2 < i ==> (#[trigger] round_children(e, batch)[i2]).1 != g.end_node()
            &&& l == seq![g.end_node()] + list_items(batch[round_children(e, batch)[i].0].1.path)
        }
}

/// The children of the first `j` nodes come in the order of their nodes.
pub proof fn lemma_level_children_sorted(explored: Set<u64>, nodes: Seq<Node>, j: int)
    requires
        0 <= j <= nodes.len(),
    ensures
        forall|t1: int, t2: int|
            0 <= t1 < t2 < level_children(explored, nodes, j).len() ==> (#[trigger] level_children(
                explored,
                nodes,
                j,
            )[t1]).0 <= (#[trigger] level_children(explored, nodes, j)[t2]).0,
    decreases j,
{
    if j > 0 {
        lemma_level_children_sorted(explored, nodes, j - 1);
        crate::pbfs::lemma_level_children(explored, nodes, j - 1);
        lemma_level_children_step(explored, nodes, j - 1);
        let before = level_children(explored, nodes, j - 1);
        let added = fresh(explored, nodes[j - 1].neighbours).map_values(|v: Pos| (j - 1, v));
        let c = level_children(explored, nodes, j);
        assert(c == before + added);
        assert forall|t1: int, t2: int| 0 <= t1 < t2 < c.len() implies (#[trigger] c[t1]).0 <= (#[trigger] c[t2]).0 by {
            if t2 < before.len() {
                assert(c[t1] == before[t1] && c[t2] == before[t2]);
            } else if t1 < before.len() {
                assert(c[t1] == before[t1]);
                assert(c[t2] == added[t2 - before.len()]);
            } else {
                assert(c[t1] == added[t1 - before.len()]);
                assert(c[t2] == added[t2 - before.len()]);
            }
        }
    }
}

/// The round that finds the exit expands its nodes cheapest first: the list
/// it gives is the exit in front of the route of an entry of the frontier
/// that lists the exit among its unexplored neighbours, and no entry of the
/// frontier that costs less lists the exit so.
pub proof fn lemma_round_finds_cheapest(
    g: Graph,
    n: int,
    f: Multiset<(u128, Node)>,
    e: Set<u64>,
    l: Seq<Pos>,
)
    requires
        round_finds(g, n, f, e, l),
    ensures
        exists|p: (u128, Node)| {
            &&& #[trigger] f.contains(p)
            &&& fresh(e, p.1.neighbours).contains(g.end_node())
            &&& l == seq![g.end_node()] + list_items(p.1.path)
            &&& forall|q: (u128, Node)| #[trigger] f.contains(q) && q.0 < p.0 ==> !fresh(e, q.1.neighbours).contains(
                g.end_node(),
            )
        },
{
    let (batch, rest, i) = choose|batch: Seq<(u128, Node)>, rest: Multiset<(u128, Node)>, i: int| {
        &&& round_taken(f, n, batch, rest)
        &&& 0 <= i < round_children(e, batch).len()
        &&& round_children(e, batch)[i].1 == g.end_node()
        &&& forall|i2: int| 0 <= i2 < i ==> (#[trigger] round_children(e, batch)[i2]).1 != g.end_node()
        &&& l == seq![g.end_node()] + list_items(batch[round_children(e, batch)[i].0].1.path)
    };
    let nodes = batch_nodes(batch);
    let c = round_children(e, batch);
    assert(c == level_children(e, nodes, nodes.len() as int));
    crate::pbfs::lemma_level_children(e, nodes, nodes.len() as int);
    lemma_level_children_sorted(e, nodes, nodes.len() as int);
    let j = c[i].0;
    assert(0 <= j < batch.len());
    assert(nodes[j] == batch[j].1);
    let p = batch[j];
    assert(batch.contains(p));
    assert(f.contains(p));
    assert forall|q: (u128, Node)| #[trigger] f.contains(q) && q.0 < p.0 implies !fresh(e, q.1.neighbours).contains(
        g.end_node(),
    ) by {
        if rest.contains(q) {
            assert(batch[j].0 <= q.0);
        }
        assert(batch.to_multiset().count(q) > 0);
        assert(batch.contains(q));
        let iq = choose|iq: int| 0 <= iq < batch.len() && batch[iq] == q;
        if iq > j {
            assert(batch[j].0 <= batch[iq].0);
        }
        assert(iq < j);
        assert(nodes[iq] == q.1);
        if fresh(e, q.1.neighbours).contains(g.end_node()) {
            assert(c.contains((iq, g.end_node())));
            let t = choose|t: int| 0 <= t < c.len() && c[t] == (iq, g.end_node());
            if t >= i {
                if t > i {
                    assert(c[i].0 <= c[t].0);
                }
            }
            assert(t < i);
            assert(c[t].1 == g.end_node());
        }
    }
}

/// The list that a search in rounds gives comes from the cheapest of the
/// nodes of its last round that list the exit: it is the exit in front of
/// the route of an entry of the frontier before that round whose unexplored
/// neighbours include the exit, and no cheaper entry of that frontier has
/// the exit among its unexplored neighbours.
pub proof fn lemma_rounds_result_cheapest(g: Graph, n: int, l: Seq<Pos>)
    requires
        rounds_result(g, n, l),
        g.start_node() != g.end_node(),
    ensures
        exists|t: Seq<(Multiset<(u128, Node)>, Set<u64>)>, p: (u128, Node)| {
            &&& #[trigger] rounds_trace(g, n, t)
            &&& #[trigger] t.last().0.contains(p)
            &&& fresh(t.last().1, p.1.neighbours).contains(g.end_node())
            &&& l == seq![g.end_node()] + list_items(p.1.path)
            &&& forall|q: (u128, Node)| #[trigger] t.last().0.contains(q) && q.0 < p.0 ==> !fresh(
                t.last().1,
                q.1.neighbours,
            ).contains(g.end_node())
        },
{
    let t = choose|t: Seq<(Multiset<(u128, Node)>, Set<u64>)>| #[trigger] rounds_trace(g, n, t) && round_finds(
        g,
        n,
        t.last().0,
        t.last().1,
        l,
    );
    lemma_round_finds_cheapest(g, n, t.last().0, t.last().1, l);
    let p = choose|p: (u128, Node)| {
        &&& #[trigger] t.last().0.contains(p)
        &&& fresh(t.last().1, p.1.neighbours).contains(g.end_node())
        &&& l == seq![g.end_node()] + list_items(p.1.path)
        &&& forall|q: (u128, Node)| #[trigger] t.last().0.contains(q) && q.0 < p.0 ==> !fresh(
            t.last().1,
            q.1.neighbours,
        ).contains(g.end_node())
    };
    assert(rounds_trace(g, n, t) && t.last().0.contains(p));
}

/// The state a search starts from: nothing explored, and a frontier of one
/// entry of cost 0, the entrance with an empty route.
pub open spec fn rounds_start(g: Graph, f: Multiset<(u128, Node)>, e: Set<u64>) -> bool {
    &&& e == Set::<u64>::empty()
    &&& exists|nd: Node| #[trigger] f.contains((0u128, nd)) && f == Multiset::singleton((0u128, nd))
        && nd.pos == g.start_node() && nd.cost == 0 && nd.neighbours == g.nbrs(g.start_node())
        && list_items(nd.path) == Seq::<Pos>::empty()
}

/// `t` holds, in order, the frontier and explored set of a search in rounds
/// of up to `n` nodes: the start, then the state after each round, none of
/// which found the exit.
pub open spec fn rounds_trace(g: Graph, n: int, t: Seq<(Multiset<(u128, Node)>, Set<u64>)>) -> bool {
    &&& t.len() > 0
    &&& rounds_start(g, t[0].0, t[0].1)
    &&& forall|i: int| 0 < i < t.len() ==> round_step(g, n, t[i - 1].0, t[i - 1].1, (#[trigger] t[i]).0, t[i].1)
}

/// The list that a search in rounds of up to `n` nodes gives: empty when the
/// entrance is the exit, and otherwise that of the first round that makes a
/// node at the exit.
pub open spec fn rounds_result(g: Graph, n: int, l: Seq<Pos>) -> bool {
    if g.start_node() == g.end_node() {
        l.len() == 0
    } else {
        exists|t: Seq<(Multiset<(u128, Node)>, Set<u64>)>| #[trigger] rounds_trace(g, n, t)
            && round_finds(g, n, t.last().0, t.last().1, l)
    }
}

/// Adds the positions of the nodes of `batch` to `explored`.
fn mark_explored(explored: &mut HashSet<u64>, batch: &Vec<(u128, Node)>)
    ensures
        final(explored)@ == old(explored)@.union(batch_keys(batch@)),
{
    let mut j: usize = 0;
    while j < batch.len()
        invariant
            0 <= j <= batch.len(),
            explored@ == old(explored)@.union(batch_keys(batch@.take(j as int))),
        decreases batch.len() - j,
    {
        let ghost before = explored@;
        explored.insert(key_of(batch[j].1.pos));
        proof {
            let t0 = batch@.take(j as int);
            let t1 = batch@.take(j + 1);
            assert forall|k: u64| batch_keys(t1).contains(k) <==> batch_keys(t0).contains(k) || k == pos_key(
                batch@[j as int].1.pos,
            ) by {
                if batch_keys(t1).contains(k) {
                    let i = choose|i: int| 0 <= i < t1.len() && k == pos_key(#[trigger] t1[i].1.pos);
                    if i < j {
                        assert(t0[i] == t1[i]);
                    }
                }
                if batch_keys(t0).contains(k) {
                    let i = choose|i: int| 0 <= i < t0.len() && k == pos_key(#[trigger] t0[i].1.pos);
                    assert(t0[i] == t1[i]);
                }
                if k == pos_key(batch@[j as int].1.pos) {
                    assert(t1[j as int] == batch@[j as int]);
                }
            }
            assert(explored@ =~= old(explored)@.union(batch_keys(t1)));
        }
        j = j + 1;
    }
    proof {
        assert(batch@.take(batch.len() as int) =~= batch@);
    }
}

/// The neighbour slots of the nodes of `batch`, in order.
fn batch_neighbours(batch: &Vec<(u128, Node)>) -> (items: Vec<Neighbours>)
    ensures
        items.len() == batch.len(),
        forall|i: int| 0 <= i < batch.len() ==> #[trigger] items[i] == batch[i].1.neighbours,
{
    let mut items: Vec<Neighbours> = Vec::new();
    let mut j: usize = 0;
    while j < batch.len()
        invariant
            0 <= j <= batch.len(),
            items.len() == j,
            forall|i: int| 0 <= i < j ==> #[trigger] items[i] == batch[i].1.neighbours,
        decreases batch.len() - j,
    {
        items.push(batch[j].1.neighbours);
        j = j + 1;
    }
    items
}

/// The unexplored neighbours for each of the neighbour slots `items`,
/// computed on several threads when `in_parallel` holds.
pub(crate) fn fresh_lists(explored: &HashSet<u64>, items: &Vec<Neighbours>, in_parallel: bool) -> (r: Vec<
    Vec<Pos>,
>)
    ensures
        r.len() == items.len(),
        forall|j: int| 0 <= j < items.len() ==> (#[trigger] r[j])@ == fresh(explored@, items[j]),
{
    if in_parallel {
        let f = |nbrs: &Neighbours| -> (r: Vec<Pos>)
            ensures
                r@ == fresh(explored@, *nbrs),
            { fresh_neighbours(explored, nbrs) };
        let r = par_map(items, f);
        proof {
            assert forall|i: int| 0 <= i < items.len() implies (#[trigger] r[i])@ == fresh(explored@, items[i]) by {
                assert(f.ensures((&items[i],), r[i]));
            }
        }
        r
    } else {
        let mut r: Vec<Vec<Pos>> = Vec::new();
        let mut j: usize = 0;
        while j < items.len()
            invariant
                0 <= j <= items.len(),
                r.len() == j,
                forall|i: int| 0 <= i < j ==> (#[trigger] r[i])@ == fresh(explored@, items[i]),
            decreases items.len() - j,
        {
            r.push(fresh_neighbours(explored, &items[j]));
            j = j + 1;
        }
        r
    }
}

/// Adds to `frontier` a node for each position of `fresh_list` (the
/// neighbours of `node` that `before` does not hold), in order; stops with
/// the route to the exit as soon as one of them is the exit.
#[verifier::rlimit(40)]
fn expand_one(
    graph: &Graph,
    node: &Node,
    fresh_list: &Vec<Pos>,
    frontier: &mut MinQueue<Node>,
    Ghost(before): Ghost<Set<u64>>,
    Ghost(now): Ghost<Set<u64>>,
) -> (r: (Option<ConsList<Pos>>, Ghost<Seq<(u128, Node)>>))
    requires
        graph.well_formed(),
        graph.start_node() != graph.end_node(),
        fresh_list@ == fresh(before, node.neighbours),
        node_ok(*graph, *node, before),
        before.subset_of(now),
        now.subset_of(graph.key_domain()),
        holds(now, node.pos),
        !holds(now, graph.end_node()),
        frontier_ok(*graph, old(frontier)@, now),
    ensures
        r.0 matches Some(l) ==> solves_simply(*graph, list_items(l)),
        r.0 matches Some(l) ==> exists|i: int| {
            &&& 0 <= i < fresh_list.len()
            &&& #[trigger] fresh_list@[i] == graph.end_node()
            &&& forall|i2: int| 0 <= i2 < i ==> (#[trigger] fresh_list@[i2]) != graph.end_node()
            &&& list_items(l) == seq![graph.end_node()] + list_items(node.path)
        },
        r.0 is None ==> {
            &&& r.1@.len() == fresh_list.len()
            &&& forall|i: int| 0 <= i < fresh_list.len() ==> made_for(*graph, *node, fresh_list@[i], #[trigger] r.1@[i])
            &&& forall|i: int| 0 <= i < fresh_list.len() ==> (#[trigger] fresh_list@[i]) != graph.end_node()
            &&& final(frontier)@ == old(frontier)@.add(r.1@.to_multiset())
            &&& frontier_ok(*graph, final(frontier)@, now)
            &&& forall|e: (u128, Node)| #[trigger] old(frontier)@.contains(e) ==> final(frontier)@.contains(e)
            &&& explored_entries(final(frontier)@, before) == explored_entries(old(frontier)@, before)
            &&& forall|v: Pos| #[trigger] graph.edge(node.pos, v) ==> holds(before, v) || in_frontier(final(frontier)@, v)
        },
{
    let ghost g = *graph;
    let ghost f0 = frontier@;
    proof {
        lemma_fresh(before, node.neighbours);
        lemma_node_ok_grows(g, *node, before, now);
        lemma_route_has_room(g, *node, now);
    }
    let end = graph.end();
    let mut k: usize = 0;
    let ghost mut kids: Seq<(u128, Node)> = Seq::empty();
    while k < fresh_list.len()
        invariant
            g == *graph,
            g.well_formed(),
            end == g.end_node(),
            g.start_node() != end,
            fresh_list@ == fresh(before, node.neighbours),
            fresh_list.len() <= 4,
            node_ok(g, *node, before),
            node_ok(g, *node, now),
            list_items(node.path).len() < usize::MAX,
            before.subset_of(now),
            holds(now, node.pos),
            !holds(now, end),
            0 <= k <= fresh_list.len(),
            forall|i: int| 0 <= i < fresh_list.len() ==> lists(node.neighbours, #[trigger] fresh_list@[i])
                && !holds(before, fresh_list@[i]),
            forall|e: (u128, Node)| #[trigger] f0.contains(e) ==> frontier@.contains(e),
            frontier_ok(g, frontier@, now),
            explored_entries(frontier@, before) == explored_entries(f0, before),
            forall|i: int| 0 <= i < k ==> in_frontier(frontier@, #[trigger] fresh_list@[i]),
            kids.len() == k,
            forall|i: int| 0 <= i < k ==> made_for(g, *node, fresh_list@[i], #[trigger] kids[i]),
            forall|i: int| 0 <= i < k ==> (#[trigger] fresh_list@[i]) != end,
            frontier@ == f0.add(kids.to_multiset()),
        decreases fresh_list.len() - k,
    {
        let v = fresh_list[k];
        proof {
            assert(lists(node.neighbours, v));
            let s = choose|s: int| 0 <= s < 4 && #[trigger] node.neighbours[s] == Some(v);
            assert(g.nbrs(node.pos)[s] is Some);
            assert(g.edge(node.pos, v));
            assert(v != node.pos);
            lemma_cost_room(g, *node, now);
        }
        let child = Node {
            pos: v,
            cost: node.cost + step_cost(node.pos, v) as u128,
            neighbours: graph.neighbours(v),
            path: push_front(&node.path, v),
        };
        proof {
            lemma_child_ok(g, *node, before, now, child);
        }
        if v == end {
            proof {
                assert(leads_to(g, g.start_node(), node_route(child), end));
                assert(fresh_list@[k as int] == end);
            }
            return (Some(child.path), Ghost(kids));
        }
        let ghost f = frontier@;
        let ghost entry = (child.cost, child);
        frontier.push(child.cost, child);
        proof {
            let old_kids = kids;
            kids = kids.push(entry);
            assert(kids.to_multiset() =~= old_kids.to_multiset().insert(entry));
            assert(frontier@ =~= f0.add(kids.to_multiset()));
            assert forall|i: int| 0 <= i < k + 1 implies made_for(g, *node, fresh_list@[i], #[trigger] kids[i]) by {
                if i < k {
                    assert(kids[i] == old_kids[i]);
                }
            }
            lemma_explored_entries_insert(f, entry, before);
            assert(frontier@.contains(entry));
            assert forall|e: (u128, Node)| #[trigger] f.contains(e) implies frontier@.contains(e) by {}
            assert forall|e: (u128, Node)| #[trigger] frontier@.contains(e) implies node_ok(g, e.1, now) && e.1.pos != end
                && e.0 == e.1.cost by {
                if e != entry {
                    assert(f.contains(e));
                }
            }
            assert forall|i: int| 0 <= i < k + 1 implies in_frontier(frontier@, #[trigger] fresh_list@[i]) by {
                if i < k {
                    let e = choose|e: (u128, Node)| #[trigger] f.contains(e) && e.1.pos == fresh_list@[i];
                    assert(frontier@.contains(e));
                } else {
                    assert(frontier@.contains(entry));
                }
            }
        }
        k = k + 1;
    }
    proof {
        assert forall|v: Pos| #[trigger] g.edge(node.pos, v) implies holds(before, v) || in_frontier(frontier@, v) by {
            if !holds(before, v) {
                assert(lists(node.neighbours, v));
                assert(fresh_list@.contains(v));
                let i = choose|i: int| 0 <= i < fresh_list.len() && fresh_list@[i] == v;
                assert(in_frontier(frontier@, fresh_list@[i]));
            }
        }
    }
    (None, Ghost(kids))
}

/// The entries made for the children of the first `j` nodes, followed by
/// those made for the children of node `j`, are the entries made for the
/// children of the first `j + 1` nodes.
proof fn lemma_kids_extend(
    g: Graph,
    before: Set<u64>,
    nodes: Seq<Node>,
    j: int,
    kids: Seq<(u128, Node)>,
    kj: Seq<(u128, Node)>,
)
    requires
        0 <= j < nodes.len(),
        kids_made(g, nodes, level_children(before, nodes, j), kids),
        forall|i: int| 0 <= i < kids.len() ==> (#[trigger] kids[i]).1.pos != g.end_node(),
        kj.len() == fresh(before, nodes[j].neighbours).len(),
        forall|i: int| 0 <= i < kj.len() ==> made_for(g, nodes[j], fresh(before, nodes[j].neighbours)[i], #[trigger] kj[i]),
        forall|i: int| 0 <= i < kj.len() ==> (#[trigger] fresh(before, nodes[j].neighbours)[i]) != g.end_node(),
    ensures
        kids_made(g, nodes, level_children(before, nodes, j + 1), kids + kj),
        forall|i: int| 0 <= i < (kids + kj).len() ==> (#[trigger] (kids + kj)[i]).1.pos != g.end_node(),
{
    reveal(kids_made);
    lemma_level_children_step(before, nodes, j);
    let cj = level_children(before, nodes, j);
    let fr = fresh(before, nodes[j].neighbours);
    let c1 = level_children(before, nodes, j + 1);
    let all = kids + kj;
    assert forall|i: int| 0 <= i < c1.len() implies made_for(g, nodes[c1[i].0], c1[i].1, #[trigger] all[i]) by {
        if i < cj.len() {
            assert(c1[i] == cj[i]);
            assert(all[i] == kids[i]);
        } else {
            assert(c1[i] == (j, fr[i - cj.len()]));
            assert(all[i] == kj[i - cj.len()]);
        }
    }
    assert forall|i: int| 0 <= i < all.len() implies (#[trigger] all[i]).1.pos != g.end_node() by {
        if i < cj.len() {
            assert(all[i] == kids[i]);
        } else {
            assert(all[i] == kj[i - cj.len()]);
            assert(made_for(g, nodes[j], fr[i - cj.len()], kj[i - cj.len()]));
        }
    }
}

/// When node `j` is the first whose children include the exit, the first
/// child at the exit among all the children comes from node `j`.
proof fn lemma_first_exit_child(
    g: Graph,
    before: Set<u64>,
    nodes: Seq<Node>,
    j: int,
    kids: Seq<(u128, Node)>,
    i0: int,
)
    requires
        0 <= j < nodes.len(),
        kids_made(g, nodes, level_children(before, nodes, j), kids),
        forall|i: int| 0 <= i < kids.len() ==> (#[trigger] kids[i]).1.pos != g.end_node(),
        0 <= i0 < fresh(before, nodes[j].neighbours).len(),
        fresh(before, nodes[j].neighbours)[i0] == g.end_node(),
        forall|i2: int| 0 <= i2 < i0 ==> (#[trigger] fresh(before, nodes[j].neighbours)[i2]) != g.end_node(),
    ensures
        exists|i: int| {
            &&& 0 <= i < level_children(before, nodes, nodes.len() as int).len()
            &&& (#[trigger] level_children(before, nodes, nodes.len() as int)[i]).1 == g.end_node()
            &&& forall|i2: int| 0 <= i2 < i ==> (#[trigger] level_children(before, nodes, nodes.len() as int)[i2]).1
                != g.end_node()
            &&& level_children(before, nodes, nodes.len() as int)[i].0 == j
        },
{
    reveal(kids_made);
    lemma_level_children_step(before, nodes, j);
    let cj = level_children(before, nodes, j);
    let fr = fresh(before, nodes[j].neighbours);
    let c1 = level_children(before, nodes, j + 1);
    let c = level_children(before, nodes, nodes.len() as int);
    lemma_level_children_prefix(before, nodes, j + 1, nodes.len() as int);
    let idx = cj.len() + i0;
    assert(c1[idx] == (j, fr[i0]));
    assert(c[idx] == c1[idx]);
    assert forall|i2: int| 0 <= i2 < idx implies (#[trigger] c[i2]).1 != g.end_node() by {
        assert(c[i2] == c1[i2]);
        if i2 < cj.len() {
            assert(c1[i2] == cj[i2]);
            assert(made_for(g, nodes[cj[i2].0], cj[i2].1, kids[i2]));
        } else {
            assert(c1[i2] == (j, fr[i2 - cj.len()]));
        }
    }
}

/// Expanding node `j` of `batch` extends the entries made for the children
/// of the first `j` nodes to those of the first `j + 1`.
proof fn lemma_batch_step(
    g: Graph,
    before: Set<u64>,
    batch: Seq<(u128, Node)>,
    j: int,
    fr: Seq<Pos>,
    kids: Seq<(u128, Node)>,
    kj: Seq<(u128, Node)>,
    f0: Multiset<(u128, Node)>,
    f: Multiset<(u128, Node)>,
    f2: Multiset<(u128, Node)>,
)
    requires
        0 <= j < batch.len(),
        fr == fresh(before, batch[j].1.neighbours),
        kids_made(g, batch_nodes(batch), children_upto(before, batch_nodes(batch), j), kids),
        forall|i: int| 0 <= i < kids.len() ==> (#[trigger] kids[i]).1.pos != g.end_node(),
        f == f0.add(kids.to_multiset()),
        kj.len() == fr.len(),
        forall|i: int| 0 <= i < fr.len() ==> made_for(g, batch[j].1, fr[i], #[trigger] kj[i]),
        forall|i: int| 0 <= i < fr.len() ==> (#[trigger] fr[i]) != g.end_node(),
        f2 == f.add(kj.to_multiset()),
    ensures
        kids_made(g, batch_nodes(batch), children_upto(before, batch_nodes(batch), j + 1), kids + kj),
        forall|i: int| 0 <= i < (kids + kj).len() ==> (#[trigger] (kids + kj)[i]).1.pos != g.end_node(),
        f2 == f0.add((kids + kj).to_multiset()),
{
    reveal(children_upto);
    let nodes = batch_nodes(batch);
    assert(nodes[j] == batch[j].1);
    vstd::seq_lib::lemma_multiset_commutative(kids, kj);
    assert(f2 =~= f0.add((kids + kj).to_multiset()));
    lemma_kids_extend(g, before, nodes, j, kids, kj);
}

/// When node `j` of `batch` is the first whose children include the exit,
/// and its list is put behind the exit, that list is what the round gives.
proof fn lemma_found_in_round(
    g: Graph,
    before: Set<u64>,
    batch: Seq<(u128, Node)>,
    j: int,
    kids: Seq<(u128, Node)>,
    fr: Seq<Pos>,
    l: Seq<Pos>,
)
    requires
        0 <= j < batch.len(),
        fr == fresh(before, batch[j].1.neighbours),
        kids_made(g, batch_nodes(batch), children_upto(before, batch_nodes(batch), j), kids),
        forall|i: int| 0 <= i < kids.len() ==> (#[trigger] kids[i]).1.pos != g.end_node(),
        exists|i: int| {
            &&& 0 <= i < fr.len()
            &&& #[trigger] fr[i] == g.end_node()
            &&& forall|i2: int| 0 <= i2 < i ==> (#[trigger] fr[i2]) != g.end_node()
            &&& l == seq![g.end_node()] + list_items(batch[j].1.path)
        },
    ensures
        exists|i: int| {
            &&& 0 <= i < round_children(before, batch).len()
            &&& (#[trigger] round_children(before, batch)[i]).1 == g.end_node()
            &&& forall|i2: int| 0 <= i2 < i ==> (#[trigger] round_children(before, batch)[i2]).1 != g.end_node()
            &&& l == seq![g.end_node()] + list_items(batch[round_children(before, batch)[i].0].1.path)
        },
{
    reveal(children_upto);
    let nodes = batch_nodes(batch);
    assert(nodes[j] == batch[j].1);
    let i0 = choose|i: int| {
        &&& 0 <= i < fr.len()
        &&& #[trigger] fr[i] == g.end_node()
        &&& forall|i2: int| 0 <= i2 < i ==> (#[trigger] fr[i2]) != g.end_node()
        &&& l == seq![g.end_node()] + list_items(batch[j].1.path)
    };
    lemma_first_exit_child(g, before, nodes, j, kids, i0);
    assert(round_children(before, batch) == level_children(before, nodes, nodes.len() as int));
}

/// Expands every node of `batch`, in order, as `expand_one` does.
#[verifier::rlimit(100)]
#[verifier::spinoff_prover]
fn expand_batch(
    graph: &Graph,
    batch: &Vec<(u128, Node)>,
    fresh_of: &Vec<Vec<Pos>>,
    frontier: &mut MinQueue<Node>,
    Ghost(before): Ghost<Set<u64>>,
    Ghost(now): Ghost<Set<u64>>,
) -> (r: (Option<ConsList<Pos>>, Ghost<Seq<(u128, Node)>>))
    requires
        graph.well_formed(),
        graph.start_node() != graph.end_node(),
        fresh_of.len() == batch.len(),
        forall|j: int| 0 <= j < batch.len() ==> (#[trigger] fresh_of[j])@ == fresh(before, batch[j].1.neighbours),
        forall|j: int| 0 <= j < batch.len() ==> node_ok(*graph, (#[trigger] batch[j]).1, before),
        forall|j: int| 0 <= j < batch.len() ==> holds(now, (#[trigger] batch[j]).1.pos),
        before.subset_of(now),
        now.subset_of(graph.key_domain()),
        !holds(now, graph.end_node()),
        frontier_ok(*graph, old(frontier)@, now),
    ensures
        r.0 matches Some(l) ==> solves_simply(*graph, list_items(l)),
        r.0 matches Some(l) ==> exists|i: int| {
            &&& 0 <= i < round_children(before, batch@).len()
            &&& (#[trigger] round_children(before, batch@)[i]).1 == graph.end_node()
            &&& forall|i2: int| 0 <= i2 < i ==> (#[trigger] round_children(before, batch@)[i2]).1 != graph.end_node()
            &&& list_items(l) == seq![graph.end_node()] + list_items(batch@[round_children(before, batch@)[i].0].1.path)
        },
        r.0 is None ==> {
            &&& kids_made(*graph, batch_nodes(batch@), round_children(before, batch@), r.1@)
            &&& forall|i: int| 0 <= i < r.1@.len() ==> (#[trigger] r.1@[i]).1.pos != graph.end_node()
            &&& final(frontier)@ == old(frontier)@.add(r.1@.to_multiset())
            &&& frontier_ok(*graph, final(frontier)@, now)
            &&& forall|e: (u128, Node)| #[trigger] old(frontier)@.contains(e) ==> final(frontier)@.contains(e)
            &&& explored_entries(final(frontier)@, before) == explored_entries(old(frontier)@, before)
            &&& forall|j: int, v: Pos| 0 <= j < batch.len() && #[trigger] graph.edge((#[trigger] batch[j]).1.pos, v)
                ==> holds(before, v) || in_frontier(final(frontier)@, v)
        },
{
    let ghost f0 = frontier@;
    let ghost nodes = batch_nodes(batch@);
    let ghost mut kids: Seq<(u128, Node)> = Seq::empty();
    proof {
        reveal(kids_made);
        reveal(children_upto);
        assert(kids_made(*graph, nodes, children_upto(before, nodes, 0), kids));
    }
    let mut j: usize = 0;
    while j < batch.len()
        invariant
            graph.well_formed(),
            graph.start_node() != graph.end_node(),
            fresh_of.len() == batch.len(),
            forall|j: int| 0 <= j < batch.len() ==> (#[trigger] fresh_of[j])@ == fresh(before, batch[j].1.neighbours),
            forall|j: int| 0 <= j < batch.len() ==> node_ok(*graph, (#[trigger] batch[j]).1, before),
            forall|j: int| 0 <= j < batch.len() ==> holds(now, (#[trigger] batch[j]).1.pos),
            before.subset_of(now),
            now.subset_of(graph.key_domain()),
            !holds(now, graph.end_node()),
            0 <= j <= batch.len(),
            frontier_ok(*graph, frontier@, now),
            forall|e: (u128, Node)| #[trigger] f0.contains(e) ==> frontier@.contains(e),
            explored_entries(frontier@, before) == explored_entries(f0, before),
            forall|i: int, v: Pos| 0 <= i < j && #[trigger] graph.edge((#[trigger] batch[i]).1.pos, v)
                ==> holds(before, v) || in_frontier(frontier@, v),
            nodes == batch_nodes(batch@),
            kids_made(*graph, nodes, children_upto(before, nodes, j as int), kids),
            forall|i: int| 0 <= i < kids.len() ==> (#[trigger] kids[i]).1.pos != graph.end_node(),
            frontier@ == f0.add(kids.to_multiset()),
        decreases batch.len() - j,
    {
        let ghost f = frontier@;
        proof {
            assert(nodes[j as int] == batch@[j as int].1);
        }
        let (found, Ghost(kj)) = expand_one(graph, &batch[j].1, &fresh_of[j], frontier, Ghost(before), Ghost(now));
        if found.is_some() {
            proof {
                lemma_found_in_round(*graph, before, batch@, j as int, kids, fresh_of[j as int]@, list_items(found->0));
            }
            return (found, Ghost(kids));
        }
        proof {
            lemma_batch_step(*graph, before, batch@, j as int, fresh_of[j as int]@, kids, kj, f0, f, frontier@);
            kids = kids + kj;
            assert forall|i: int, v: Pos| 0 <= i < j + 1 && #[trigger] graph.edge((#[trigger] batch[i]).1.pos, v)
                implies holds(before, v) || in_frontier(frontier@, v) by {
                if i < j && !holds(before, v) {
                    let e = choose|e: (u128, Node)| #[trigger] f.contains(e) && e.1.pos == v;
                    assert(frontier@.contains(e));
                }
            }
        }
        j = j + 1;
    }
    proof {
        reveal(children_upto);
        assert(round_children(before, batch@) == level_children(before, nodes, batch.len() as int));
    }
    (None, Ghost(kids))
}

/// After a round, the frontier covers the edges out of every explored
/// position, and holds the entrance unless it is explored.
pub proof fn lemma_covers_after_batch(
    g: Graph,
    f0: Multiset<(u128, Node)>,
    e0: Set<u64>,
    f1: Multiset<(u128, Node)>,
    batch: Seq<(u128, Node)>,
    f2: Multiset<(u128, Node)>,
    e1: Set<u64>,
)
    requires
        frontier_covers(g, f0, e0),
        holds(e0, g.start_node()) || in_frontier(f0, g.start_node()),
        f0 == f1.add(batch.to_multiset()),
        forall|e: (u128, Node)| #[trigger] f1.contains(e) ==> f2.contains(e),
        e1 == e0.union(batch_keys(batch)),
        forall|j: int, v: Pos| 0 <= j < batch.len() && #[trigger] g.edge((#[trigger] batch[j]).1.pos, v)
            ==> holds(e0, v) || in_frontier(f2, v),
    ensures
        frontier_covers(g, f2, e1),
        holds(e1, g.start_node()) || in_frontier(f2, g.start_node()),
{
    // An entry of `f0` is still in the frontier, or its node was in the batch.
    assert forall|e: (u128, Node)| #[trigger] f0.contains(e) implies f2.contains(e) || holds(e1, e.1.pos) by {
        if !f1.contains(e) {
            assert(batch.to_multiset().count(e) > 0);
            assert(batch.contains(e));
            let j = choose|j: int| 0 <= j < batch.len() && batch[j] == e;
            assert(batch_keys(batch).contains(pos_key(batch[j].1.pos)));
        }
    }
    assert forall|u: Pos, v: Pos| #[trigger] holds(e1, u) && #[trigger] g.edge(u, v) implies holds(e1, v)
        || in_frontier(f2, v) by {
        if holds(e0, u) {
            if !holds(e0, v) {
                let e = choose|e: (u128, Node)| #[trigger] f0.contains(e) && e.1.pos == v;
                assert(f2.contains(e) || holds(e1, e.1.pos));
            }
        } else {
            assert(batch_keys(batch).contains(pos_key(u)));
            let j = choose|j: int| 0 <= j < batch.len() && pos_key(u) == pos_key(#[trigger] batch[j].1.pos);
            crate::pos::lemma_key_injective(u, batch[j].1.pos);
            assert(g.edge(batch[j].1.pos, v));
        }
    }
    if !holds(e1, g.start_node()) {
        let e = choose|e: (u128, Node)| #[trigger] f0.contains(e) && e.1.pos == g.start_node();
        assert(f2.contains(e) || holds(e1, e.1.pos));
    }
}

/// A round either explores a new position or takes explored entries out
/// of the frontier without adding any.
pub proof fn lemma_batch_progress(
    dom: Set<u64>,
    e0: Set<u64>,
    f0: Multiset<(u128, Node)>,
    f1: Multiset<(u128, Node)>,
    batch: Seq<(u128, Node)>,
    f2: Multiset<(u128, Node)>,
)
    requires
        dom.finite(),
        e0.union(batch_keys(batch)).subset_of(dom),
        f0 == f1.add(batch.to_multiset()),
        batch.len() > 0,
        explored_entries(f2, e0) == explored_entries(f1, e0),
    ensures
        ({
            let e1 = e0.union(batch_keys(batch));
            ||| dom.difference(e1).len() < dom.difference(e0).len()
            ||| dom.difference(e1).len() == dom.difference(e0).len() && explored_entries(f2, e1)
                < explored_entries(f0, e0)
        }),
{
    let e1 = e0.union(batch_keys(batch));
    let bm = batch.to_multiset();
    lemma_explored_entries_add(f1, bm, e0);
    if forall|j: int| 0 <= j < batch.len() ==> holds(e0, (#[trigger] batch[j]).1.pos) {
        assert(e1 =~= e0) by {
            assert forall|k: u64| batch_keys(batch).contains(k) implies e0.contains(k) by {
                let j = choose|j: int| 0 <= j < batch.len() && k == pos_key(#[trigger] batch[j].1.pos);
            }
        }
        assert forall|e: (u128, Node)| #[trigger] bm.contains(e) implies holds(e0, e.1.pos) by {
            assert(batch.contains(e));
        }
        lemma_explored_entries_all(bm, e0);
        assert(bm.len() == batch.len());
    } else {
        let j = choose|j: int| 0 <= j < batch.len() && !holds(e0, (#[trigger] batch[j]).1.pos);
        let k = pos_key(batch[j].1.pos);
        assert(batch_keys(batch).contains(k));
        lemma_unexplored_shrinks(dom, e0, k);
        assert(dom.difference(e1).subset_of(dom.difference(e0.insert(k))));
        vstd::set_lib::lemma_len_difference(dom, e0.insert(k));
        vstd::set_lib::lemma_len_subset(dom.difference(e1), dom.difference(e0.insert(k)));
    }
}

/// Searches `graph` for a route from its entrance to its exit, taking up
/// to `batch_size` of the cheapest nodes out of the frontier in each round
/// and expanding them against the positions explored before the round (on
/// several threads when `in_parallel` holds).
///
/// Returns `None` exactly when no route leads to the exit; otherwise the
/// list holds a route there that visits no position twice, last step
/// first (empty when the entrance is the exit).
#[verifier::rlimit(40)]
pub fn search_in_batches(graph: &Graph, batch_size: usize, in_parallel: bool) -> (r: Option<ConsList<Pos>>)
    requires
        batch_size > 0,
    ensures
        r is Some <==> solvable(*graph),
        r matches Some(l) ==> solves_simply(*graph, list_items(l)),
        r matches Some(l) ==> rounds_result(*graph, batch_size as int, list_items(l)),
{
    proof {
        use_type_invariant(graph);
        graph.lemma_well_formed();
        graph.lemma_domain();
    }
    let ghost g = *graph;
    let start = graph.start();
    let end = graph.end();
    let first = Node { pos: start, cost: 0, neighbours: graph.neighbours(start), path: empty_list() };
    if first.pos == end {
        proof {
            assert(route_of(list_items(first.path)) =~= Seq::<Pos>::empty());
            assert(leads_to(g, start, Seq::<Pos>::empty(), end));
        }
        proof {
            assert(list_items(first.path).len() == 0);
        }
        return Some(first.path);
    }
    proof {
        assert(route_of(list_items(first.path)) =~= Seq::<Pos>::empty());
        reveal(route_cost);
        assert(node_ok(g, first, Set::<u64>::empty()));
    }
    let mut frontier: MinQueue<Node> = MinQueue::new();
    frontier.push(first.cost, first);
    let mut explored: HashSet<u64> = HashSet::new();
    let ghost mut trace: Seq<(Multiset<(u128, Node)>, Set<u64>)> = Seq::empty();
    proof {
        assert(frontier@.contains((0u128, first)));
        assert(frontier@ =~= Multiset::singleton((0u128, first)));
        assert(explored@ =~= Set::<u64>::empty());
        assert(rounds_start(g, frontier@, explored@));
        trace = seq![(frontier@, explored@)];
    }
    loop
        invariant
            g == *graph,
            g.well_formed(),
            g.key_domain().finite(),
            batch_size > 0,
            start == g.start_node(),
            end == g.end_node(),
            start != end,
            explored@.subset_of(g.key_domain()),
            !holds(explored@, end),
            frontier_ok(g, frontier@, explored@),
            frontier_covers(g, frontier@, explored@),
            holds(explored@, start) || in_frontier(frontier@, start),
            rounds_trace(g, batch_size as int, trace),
            trace.last() == (frontier@, explored@),
        decreases g.key_domain().difference(explored@).len(), explored_entries(frontier@, explored@),
    {
        if frontier.is_empty() {
            proof {
                let e0 = explored@;
                assert(holds(e0, start));
                assert(closed_under_edges(g, e0));
                if solvable(g) {
                    let steps = choose|steps: Seq<Pos>| #[trigger] leads_to(g, start, steps, end);
                    lemma_closed_set_holds_reachable(g, e0, start, steps, end);
                }
            }
            return None;
        }
        let n = if frontier.len() >= batch_size { batch_size } else { frontier.len() };
        let ghost f0 = frontier@;
        let ghost e0 = explored@;
        let batch = take_batch(&mut frontier, n);
        let ghost f1 = frontier@;
        proof {
            assert forall|j: int| 0 <= j < batch.len() implies f0.contains(#[trigger] batch[j]) by {
                assert(batch@.to_multiset().count(batch[j]) > 0);
            }
            assert forall|e: (u128, Node)| #[trigger] f1.contains(e) implies f0.contains(e) by {}
        }
        let items = batch_neighbours(&batch);
        let fresh_of = fresh_lists(&explored, &items, in_parallel);
        mark_explored(&mut explored, &batch);
        let ghost e1 = explored@;
        proof {
            g.lemma_domain();
            assert forall|k: u64| batch_keys(batch@).contains(k) implies g.key_domain().contains(k) by {
                let j = choose|j: int| 0 <= j < batch.len() && k == pos_key(#[trigger] batch@[j].1.pos);
                assert(f0.contains(batch[j]));
            }
            assert(!holds(e1, end)) by {
                if batch_keys(batch@).contains(pos_key(end)) {
                    let j = choose|j: int| 0 <= j < batch.len() && pos_key(end) == pos_key(#[trigger] batch@[j].1.pos);
                    assert(f0.contains(batch[j]));
                    crate::pos::lemma_key_injective(end, batch[j].1.pos);
                }
            }
            assert forall|j: int| 0 <= j < batch.len() implies holds(e1, (#[trigger] batch[j]).1.pos) by {
                assert(batch_keys(batch@).contains(pos_key(batch@[j].1.pos)));
            }
            assert forall|j: int| 0 <= j < batch.len() implies node_ok(g, (#[trigger] batch[j]).1, e0) by {
                assert(f0.contains(batch[j]));
            }
            crate::node::lemma_frontier_ok_shrinks(g, f0, e0, f1, e1);
        }
        let (found, Ghost(kids)) = expand_batch(graph, &batch, &fresh_of, &mut frontier, Ghost(e0), Ghost(e1));
        if found.is_some() {
            proof {
                let l = list_items(found->0);
                let c = round_children(e0, batch@);
                let i = choose|i: int| {
                    &&& 0 <= i < c.len()
                    &&& (#[trigger] c[i]).1 == end
                    &&& forall|i2: int| 0 <= i2 < i ==> (#[trigger] c[i2]).1 != end
                    &&& l == seq![end] + list_items(batch@[c[i].0].1.path)
                };
                assert(round_taken(f0, batch_size as int, batch@, f1));
                assert(round_finds(g, batch_size as int, f0, e0, l));
                assert(rounds_trace(g, batch_size as int, trace));
            }
            return found;
        }
        proof {
            assert(round_taken(f0, batch_size as int, batch@, f1));
            assert(kids_made(g, batch_nodes(batch@), round_children(e0, batch@), kids));
            assert(round_step(g, batch_size as int, f0, e0, frontier@, e1));
            let t0 = trace;
            trace = trace.push((frontier@, e1));
            assert forall|i: int| 0 < i < trace.len() implies round_step(
                g,
                batch_size as int,
                trace[i - 1].0,
                trace[i - 1].1,
                (#[trigger] trace[i]).0,
                trace[i].1,
            ) by {
                if i < t0.len() {
                    assert(trace[i] == t0[i] && trace[i - 1] == t0[i - 1]);
                }
            }
            lemma_covers_after_batch(g, f0, e0, f1, batch@, frontier@, e1);
            lemma_batch_progress(g.key_domain(), e0, f0, f1, batch@, frontier@);
        }
    }
}

} // verus!
