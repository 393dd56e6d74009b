//! The graph of a maze: its nodes are corners and junctions of corridors,
//! each with up to four neighbours (up, down, right, left).

use std::collections::HashMap;
use vstd::prelude::*;
use crate::pos::{Pos, pos_key, key_of, lemma_key_injective};

verus! {

broadcast use vstd::std_specs::hash::group_hash_axioms;

/// The four neighbour slots of a node, in the order up, down, right, left.
pub type Neighbours = [Option<Pos>; 4];

/// A maze graph with an entrance (`start`) and an exit (`end`).
///
/// Nodes are kept in a hash table keyed by `pos_key` of their position.
/// Every graph satisfies `well_formed`: the entrance is a node, and every
/// neighbour named by a node is itself a node.
pub struct Graph {
    start: Pos,
    end: Pos,
    nodes: HashMap<u64, Neighbours>,
}

/// `v` occupies one of the four slots of `nbrs`.
pub open spec fn lists(nbrs: Neighbours, v: Pos) -> bool {
    ||| nbrs[0] == Some(v)
    ||| nbrs[1] == Some(v)
    ||| nbrs[2] == Some(v)
    ||| nbrs[3] == Some(v)
}

/// Every neighbour named in `m` is a key of `m`, in key space.
pub open spec fn closed_table(m: Map<u64, Neighbours>) -> bool {
    forall|k: u64, i: int|
        #![trigger m[k][i]]
        m.contains_key(k) && 0 <= i < 4 && m[k][i] is Some ==> m.contains_key(
            pos_key(m[k][i]->0),
        )
}

/// No node of `m` names itself as a neighbour, in key space.
pub open spec fn loop_free_table(m: Map<u64, Neighbours>) -> bool {
    forall|k: u64, i: int|
        #![trigger m[k][i]]
        m.contains_key(k) && 0 <= i < 4 && m[k][i] is Some ==> pos_key(m[k][i]->0) != k
}

/// Every neighbour named in `m` lies in the same row or the same column as
/// the node that names it, in key space.
pub open spec fn aligned_table(m: Map<u64, Neighbours>) -> bool {
    forall|k: u64, i: int|
        #![trigger m[k][i]]
        m.contains_key(k) && 0 <= i < 4 && m[k][i] is Some ==> exists|p: Pos| pos_key(p) == k && (p.x
            == m[k][i]->0.x || p.y == m[k][i]->0.y)
}

/// The positions of a table keyed by `pos_key`, with their neighbours.
pub open spec fn table_adjacency(m: Map<u64, Neighbours>) -> Map<Pos, Neighbours> {
    Map::new(|p: Pos| m.contains_key(pos_key(p)), |p: Pos| m[pos_key(p)])
}

impl Graph {
    /// The entrance.
    pub closed spec fn start_node(self) -> Pos {
        self.start
    }

    /// The exit.
    pub closed spec fn end_node(self) -> Pos {
        self.end
    }

    /// Each node with its four neighbour slots.
    pub closed spec fn adjacency(self) -> Map<Pos, Neighbours> {
        table_adjacency(self.nodes@)
    }

    /// The keys (`pos_key`) of the nodes.
    pub closed spec fn key_domain(self) -> Set<u64> {
        self.nodes@.dom()
    }

    /// `p` is a node.
    pub open spec fn has(self, p: Pos) -> bool {
        self.adjacency().contains_key(p)
    }

    /// The neighbour slots of node `p`.
    pub open spec fn nbrs(self, p: Pos) -> Neighbours {
        self.adjacency()[p]
    }

    /// There is an edge from `u` to `v`: `u` is a node that lists `v`.
    pub open spec fn edge(self, u: Pos, v: Pos) -> bool {
        self.has(u) && lists(self.nbrs(u), v)
    }

    /// The entrance is a node, every listed neighbour is a node in the same
    /// row or column, and no node lists itself.
    pub open spec fn well_formed(self) -> bool {
        &&& self.has(self.start_node())
        &&& forall|u: Pos| !#[trigger] self.edge(u, u)
        &&& forall|u: Pos, v: Pos| #[trigger] self.edge(u, v) ==> u.x == v.x || u.y == v.y
        &&& forall|u: Pos, i: int|
            #![trigger self.nbrs(u)[i]]
            self.has(u) && 0 <= i < 4 && self.nbrs(u)[i] is Some ==> self.has(self.nbrs(u)[i]->0)
    }

    /// The invariant that every graph value keeps, in terms of its table.
    #[verifier::type_invariant]
    pub closed spec fn inv(self) -> bool {
        &&& self.nodes@.contains_key(pos_key(self.start))
        &&& closed_table(self.nodes@)
        &&& loop_free_table(self.nodes@)
        &&& aligned_table(self.nodes@)
    }

    /// What is known of the node table: it is finite, it fits in memory,
    /// and its keys are exactly the keys of the nodes.
    pub proof fn lemma_domain(self)
        ensures
            self.key_domain().finite(),
            self.key_domain().len() <= usize::MAX,
            forall|p: Pos| #[trigger] self.has(p) <==> self.key_domain().contains(pos_key(p)),
    {
        assert(vstd::std_specs::hash::spec_hash_map_len(&self.nodes) == self.nodes@.len());
    }

    /// Builds a graph from a node table that is closed under neighbours.
    pub(crate) fn from_table(start: Pos, end: Pos, nodes: HashMap<u64, Neighbours>) -> (g: Graph)
        requires
            nodes@.contains_key(pos_key(start)),
            closed_table(nodes@),
            loop_free_table(nodes@),
            aligned_table(nodes@),
        ensures
            g.start_node() == start,
            g.end_node() == end,
            g.adjacency() == table_adjacency(nodes@),
            g.well_formed(),
    {
        let g = Graph { start, end, nodes };
        proof { g.lemma_well_formed(); }
        g
    }

    /// Every graph that keeps its invariant is well formed.
    pub proof fn lemma_well_formed(self)
        requires
            self.inv(),
        ensures
            self.well_formed(),
    {
        assert forall|u: Pos, i: int|
            #![trigger self.nbrs(u)[i]]
            self.has(u) && 0 <= i < 4 && self.nbrs(u)[i] is Some implies self.has(
                self.nbrs(u)[i]->0,
            ) by {
            assert(self.nodes@[pos_key(u)][i] is Some);
        }
        assert forall|u: Pos| !#[trigger] self.edge(u, u) by {
            if self.edge(u, u) {
                let i = choose|i: int| 0 <= i < 4 && #[trigger] self.nbrs(u)[i] == Some(u);
                assert(self.nodes@[pos_key(u)][i] is Some);
            }
        }
        assert forall|u: Pos, v: Pos| #[trigger] self.edge(u, v) implies u.x == v.x || u.y == v.y by {
            let i = choose|i: int| 0 <= i < 4 && #[trigger] self.nbrs(u)[i] == Some(v);
            let k = pos_key(u);
            assert(self.nodes@[k][i] is Some);
            let p = choose|p: Pos| pos_key(p) == k && (p.x == self.nodes@[k][i]->0.x || p.y == self.nodes@[k][i]->0.y);
            lemma_key_injective(p, u);
        }
    }

    /// The entrance.
    pub fn start(&self) -> (p: Pos)
        ensures
            p == self.start_node(),
    {
        self.start
    }

    /// The exit.
    pub fn end(&self) -> (p: Pos)
        ensures
            p == self.end_node(),
    {
        self.end
    }

    /// The number of nodes.
    pub fn len(&self) -> (n: usize)
        ensures
            n == self.key_domain().len(),
    {
        self.nodes.len()
    }

    /// Whether `p` is a node.
    pub fn contains(&self, p: Pos) -> (b: bool)
        ensures
            b == self.has(p),
    {
        self.nodes.contains_key(&key_of(p))
    }

    /// The neighbour slots of node `p`.
    pub fn neighbours(&self, p: Pos) -> (r: Neighbours)
        requires
            self.has(p),
        ensures
            r == self.nbrs(p),
    {
        let k = key_of(p);
        match self.nodes.get(&k) {
            Some(r) => *r,
            None => {
                assert(false);
                [None, None, None, None]
            },
        }
    }
}

} // verus!
