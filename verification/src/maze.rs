//! Reading a maze image into a graph.
//!
//! The image is given as rows of pixel values (the first channel of each
//! pixel); a pixel is open when its value is 255. A node is made of every
//! open pixel of the top row (the last of them is the entrance), of the
//! bottom row (the last of them is the exit), and of every open pixel
//! inside the border that is not in the middle of a straight corridor and
//! not closed on all four sides. A node links up to the nearest node above
//! it when the pixel above it is open (for bottom-row nodes: always), and
//! left to the nearest node left of it when the pixel left of it is open;
//! the node linked to gets the link back (down or right). The reading
//! fails when there is no entrance, no exit, or a link finds no node.

use std::collections::HashMap;
use vstd::prelude::*;
use crate::graph::{Graph, Neighbours, closed_table, loop_free_table, aligned_table, table_adjacency};
use crate::pos::{Pos, pos_key, key_of, lemma_key_injective};
use crate::routes::exit_has_one_way_in;

verus! {

broadcast use vstd::std_specs::hash::group_hash_axioms;

/// The number of rows.
pub open spec fn height(img: Seq<Seq<u8>>) -> int {
    img.len() as int
}

/// The number of pixels in a row.
pub open spec fn width(img: Seq<Seq<u8>>) -> int {
    if img.len() == 0 {
        0
    } else {
        img[0].len() as int
    }
}

/// All rows have the same number of pixels.
pub open spec fn rectangular(img: Seq<Seq<u8>>) -> bool {
    forall|y: int| 0 <= y < img.len() ==> #[trigger] img[y].len() == width(img)
}

/// The pixel at column `x`, row `y` is inside the image and open.
pub open spec fn open_at(img: Seq<Seq<u8>>, x: int, y: int) -> bool {
    0 <= y < height(img) && 0 <= x < width(img) && img[y][x] == 255
}

/// The pixel is inside the border of the image.
pub open spec fn interior(img: Seq<Seq<u8>>, x: int, y: int) -> bool {
    0 < x < width(img) - 1 && 0 < y < height(img) - 1
}

/// The pixel is in the middle of a horizontal or vertical corridor, or
/// closed on all four sides: it makes no node.
pub open spec fn in_corridor(img: Seq<Seq<u8>>, x: int, y: int) -> bool {
    let north = open_at(img, x, y - 1);
    let south = open_at(img, x, y + 1);
    let east = open_at(img, x + 1, y);
    let west = open_at(img, x - 1, y);
    ||| !north && !south && east && west
    ||| north && south && !east && !west
    ||| !north && !south && !east && !west
}

/// The pixel makes a node of the graph.
pub open spec fn is_node(img: Seq<Seq<u8>>, x: int, y: int) -> bool {
    &&& open_at(img, x, y)
    &&& if interior(img, x, y) {
        !in_corridor(img, x, y)
    } else {
        y == 0 || y == height(img) - 1
    }
}

/// Which open pixels inside the border make nodes, by their four sides: a
/// pixel with an open side both across and along (a corner, a junction or a
/// crossroads) makes one, and so does a dead end, with a single open side;
/// the middle of a straight corridor, and a pixel closed on all four sides,
/// make none. In a graph read from the image, the nodes inside the border
/// are exactly those pixels.
pub proof fn lemma_which_pixels_are_nodes(img: Seq<Seq<u8>>, g: Graph, x: u32, y: u32)
    requires
        reads_as(img, g),
        open_at(img, x as int, y as int),
        interior(img, x as int, y as int),
    ensures
        ({
            let north = open_at(img, x as int, y - 1);
            let south = open_at(img, x as int, y + 1);
            let east = open_at(img, x + 1, y as int);
            let west = open_at(img, x - 1, y as int);
            let p = Pos { x, y };
            &&& (north || south) && (east || west) ==> g.has(p)
            &&& (if north { 1int } else { 0 }) + (if south { 1int } else { 0 }) + (if east { 1int } else { 0 }) + (
            if west { 1int } else { 0 }) == 1 ==> g.has(p)
            &&& north && south && !east && !west ==> !g.has(p)
            &&& !north && !south && east && west ==> !g.has(p)
            &&& !north && !south && !east && !west ==> !g.has(p)
        }),
{
    assert(g.has(Pos { x, y }) == is_node(img, x as int, y as int));
}

/// The node at the pixel links up to the nearest node above it.
pub open spec fn links_up(img: Seq<Seq<u8>>, x: int, y: int) -> bool {
    &&& open_at(img, x, y)
    &&& if interior(img, x, y) {
        !in_corridor(img, x, y) && open_at(img, x, y - 1)
    } else {
        y != 0 && y == height(img) - 1
    }
}

/// The node at the pixel links left to the nearest node left of it.
pub open spec fn links_left(img: Seq<Seq<u8>>, x: int, y: int) -> bool {
    open_at(img, x, y) && interior(img, x, y) && !in_corridor(img, x, y) && open_at(img, x - 1, y)
}

/// Row `y2` holds the nearest node above the pixel at `x`, `y`.
pub open spec fn node_above(img: Seq<Seq<u8>>, x: int, y: int, y2: int) -> bool {
    &&& 0 <= y2 < y
    &&& is_node(img, x, y2)
    &&& forall|y3: int| y2 < y3 < y ==> !#[trigger] is_node(img, x, y3)
}

/// Column `x2` holds the nearest node left of the pixel at `x`, `y`.
pub open spec fn node_left_of(img: Seq<Seq<u8>>, x: int, y: int, x2: int) -> bool {
    &&& 0 <= x2 < x
    &&& is_node(img, x2, y)
    &&& forall|x3: int| x2 < x3 < x ==> !#[trigger] is_node(img, x3, y)
}

/// Some node lies above the pixel at `x`, `y` in its column.
pub open spec fn has_node_above(img: Seq<Seq<u8>>, x: int, y: int) -> bool {
    exists|y2: int| 0 <= y2 < y && #[trigger] is_node(img, x, y2)
}

/// Some node lies left of the pixel at `x`, `y` in its row.
pub open spec fn has_node_left(img: Seq<Seq<u8>>, x: int, y: int) -> bool {
    exists|x2: int| 0 <= x2 < x && #[trigger] is_node(img, x2, y)
}

/// Column `x` is the last open pixel of row `y`.
pub open spec fn last_open_in_row(img: Seq<Seq<u8>>, x: int, y: int) -> bool {
    open_at(img, x, y) && forall|x2: int| x < x2 ==> !#[trigger] open_at(img, x2, y)
}

/// Row `y` has an open pixel.
pub open spec fn row_has_open(img: Seq<Seq<u8>>, y: int) -> bool {
    exists|x: int| #[trigger] open_at(img, x, y)
}

/// The image can be read as a maze: it has an entrance row and a distinct
/// exit row with an open pixel each, and every link finds its node.
pub open spec fn readable(img: Seq<Seq<u8>>) -> bool {
    &&& height(img) >= 2
    &&& row_has_open(img, 0)
    &&& row_has_open(img, height(img) - 1)
    &&& forall|x: int, y: int| #[trigger] links_up(img, x, y) ==> has_node_above(img, x, y)
    &&& forall|x: int, y: int| #[trigger] links_left(img, x, y) ==> has_node_left(img, x, y)
}

/// The pixel at `x2`, `y2` comes before the pixel at `x`, `y` when the image
/// is read row by row, each row from left to right.
pub open spec fn read_before(img: Seq<Seq<u8>>, x2: int, y2: int, x: int, y: int) -> bool {
    &&& 0 <= x2 < width(img)
    &&& 0 <= y2 < height(img)
    &&& (y2 < y || (y2 == y && x2 < x))
}

/// The node at row `y2` of column `p.x` links up to `p`.
pub open spec fn links_down_to(img: Seq<Seq<u8>>, p: Pos, y2: int) -> bool {
    links_up(img, p.x as int, y2) && node_above(img, p.x as int, y2, p.y as int)
}

/// The node at column `x2` of row `p.y` links left to `p`.
pub open spec fn links_right_to(img: Seq<Seq<u8>>, p: Pos, x2: int) -> bool {
    links_left(img, x2, p.y as int) && node_left_of(img, x2, p.y as int, p.x as int)
}

/// The neighbour slots `s` of node `p`, once the image has been read up to
/// (not including) the pixel at `x`, `y`: slot 0 holds the nearest node
/// above when `p` links up, slot 3 the nearest node left when `p` links
/// left, slot 1 the last node read so far that links up to `p`, slot 2 the
/// last node read so far that links left to `p`.
pub open spec fn slots_read(img: Seq<Seq<u8>>, s: Neighbours, p: Pos, x: int, y: int) -> bool {
    let px = p.x as int;
    let py = p.y as int;
    &&& (s[0] is Some <==> links_up(img, px, py))
    &&& (s[0] matches Some(q) ==> q.x == p.x && node_above(img, px, py, q.y as int))
    &&& (s[3] is Some <==> links_left(img, px, py))
    &&& (s[3] matches Some(q) ==> q.y == p.y && node_left_of(img, px, py, q.x as int))
    &&& (s[1] is None ==> forall|y2: int| read_before(img, px, y2, x, y) ==> !#[trigger] links_down_to(img, p, y2))
    &&& (s[1] matches Some(q) ==> {
        &&& q.x == p.x
        &&& read_before(img, px, q.y as int, x, y)
        &&& links_down_to(img, p, q.y as int)
        &&& forall|y2: int| q.y < y2 && read_before(img, px, y2, x, y) ==> !#[trigger] links_down_to(img, p, y2)
    })
    &&& (s[2] is None ==> forall|x2: int| read_before(img, x2, py, x, y) ==> !#[trigger] links_right_to(img, p, x2))
    &&& (s[2] matches Some(q) ==> {
        &&& q.y == p.y
        &&& read_before(img, q.x as int, py, x, y)
        &&& links_right_to(img, p, q.x as int)
        &&& forall|x2: int| q.x < x2 && read_before(img, x2, py, x, y) ==> !#[trigger] links_right_to(img, p, x2)
    })
}

/// The node table holds exactly the nodes read before the pixel at `x`,
/// `y`, each with the slots `slots_read` describes.
pub open spec fn table_read(img: Seq<Seq<u8>>, t: Map<u64, Neighbours>, x: int, y: int) -> bool {
    &&& forall|p: Pos| #[trigger] t.contains_key(pos_key(p)) <==> read_before(img, p.x as int, p.y as int, x, y)
        && is_node(img, p.x as int, p.y as int)
    &&& forall|p: Pos| #[trigger] t.contains_key(pos_key(p)) ==> slots_read(img, t[pos_key(p)], p, x, y)
}

/// `g` is the graph of the maze image `img`: its entrance and exit are the
/// last open pixels of the top and bottom rows, its nodes are the pixels
/// that make nodes, and the slots of each node are as `slots_read`
/// describes once the whole image has been read.
pub open spec fn reads_as(img: Seq<Seq<u8>>, g: Graph) -> bool {
    &&& g.start_node().y == 0
    &&& last_open_in_row(img, g.start_node().x as int, 0)
    &&& g.end_node().y == height(img) - 1
    &&& last_open_in_row(img, g.end_node().x as int, height(img) - 1)
    &&& forall|p: Pos| #[trigger] g.has(p) <==> is_node(img, p.x as int, p.y as int)
    &&& forall|p: Pos| #[trigger] g.has(p) ==> slots_read(img, g.nbrs(p), p, 0, height(img))
}

/// Whether the pixel at `x`, `y` of `rows` is open.
fn open_pixel(rows: &Vec<Vec<u8>>, x: usize, y: usize) -> (b: bool)
    requires
        rectangular(rows.deep_view()),
        y < rows.len(),
        x < width(rows.deep_view()),
    ensures
        b == open_at(rows.deep_view(), x as int, y as int),
{
    proof {
        assert(rows.deep_view()[y as int].len() == width(rows.deep_view()));
    }
    rows[y][x] == 255
}

/// Looks in `nodes` for the nearest key above `x`, `y` in column `x`.
fn find_up(nodes: &HashMap<u64, Neighbours>, x: u32, y: u32) -> (r: Option<u32>)
    ensures
        r matches Some(y2) ==> {
            &&& y2 < y
            &&& nodes@.contains_key(pos_key(Pos { x, y: y2 }))
            &&& forall|q: Pos| q.x == x && y2 < q.y < y ==> !#[trigger] nodes@.contains_key(pos_key(q))
        },
        r is None ==> forall|q: Pos| q.x == x && q.y < y ==> !#[trigger] nodes@.contains_key(pos_key(q)),
{
    let mut y2 = y;
    while y2 > 0
        invariant
            y2 <= y,
            forall|q: Pos| q.x == x && y2 <= q.y < y ==> !#[trigger] nodes@.contains_key(pos_key(q)),
        decreases y2,
    {
        y2 = y2 - 1;
        let k = key_of(Pos { x, y: y2 });
        if nodes.contains_key(&k) {
            return Some(y2);
        }
    }
    None
}

/// Looks in `nodes` for the nearest key left of `x`, `y` in row `y`.
fn find_left(nodes: &HashMap<u64, Neighbours>, x: u32, y: u32) -> (r: Option<u32>)
    ensures
        r matches Some(x2) ==> {
            &&& x2 < x
            &&& nodes@.contains_key(pos_key(Pos { x: x2, y }))
            &&& forall|q: Pos| q.y == y && x2 < q.x < x ==> !#[trigger] nodes@.contains_key(pos_key(q))
        },
        r is None ==> forall|q: Pos| q.y == y && q.x < x ==> !#[trigger] nodes@.contains_key(pos_key(q)),
{
    let mut x2 = x;
    while x2 > 0
        invariant
            x2 <= x,
            forall|q: Pos| q.y == y && x2 <= q.x < x ==> !#[trigger] nodes@.contains_key(pos_key(q)),
        decreases x2,
    {
        x2 = x2 - 1;
        let k = key_of(Pos { x: x2, y });
        if nodes.contains_key(&k) {
            return Some(x2);
        }
    }
    None
}

/// `s` with slot `i` set to `v`.
pub open spec fn with_slot(s: Neighbours, i: int, v: Pos) -> Neighbours {
    [
        if i == 0 { Some(v) } else { s[0] },
        if i == 1 { Some(v) } else { s[1] },
        if i == 2 { Some(v) } else { s[2] },
        if i == 3 { Some(v) } else { s[3] },
    ]
}

/// Sets slot `slot` of the node at `at` to `to`.
fn set_slot(nodes: &mut HashMap<u64, Neighbours>, at: Pos, slot: usize, to: Pos)
    requires
        old(nodes)@.contains_key(pos_key(at)),
        slot < 4,
    ensures
        final(nodes)@ == old(nodes)@.insert(pos_key(at), with_slot(old(nodes)@[pos_key(at)], slot as int, to)),
{
    let k = key_of(at);
    let old_slots: Neighbours = match nodes.get(&k) {
        Some(s) => *s,
        None => {
            assert(false);
            [None, None, None, None]
        },
    };
    let new_slots: Neighbours = [
        if slot == 0 { Some(to) } else { old_slots[0] },
        if slot == 1 { Some(to) } else { old_slots[1] },
        if slot == 2 { Some(to) } else { old_slots[2] },
        if slot == 3 { Some(to) } else { old_slots[3] },
    ];
    nodes.insert(k, new_slots);
}

/// The table after reading node `c`: the node `up` above it (if any) gets
/// `c` in its down slot, the node `left` of it (if any) gets `c` in its
/// right slot, and `c` is added with `up` and `left` in its up and left
/// slots.
pub open spec fn table_with_node(
    t: Map<u64, Neighbours>,
    c: Pos,
    up: Option<Pos>,
    left: Option<Pos>,
) -> Map<u64, Neighbours> {
    let ta = match up {
        Some(q) => t.insert(pos_key(q), with_slot(t[pos_key(q)], 1, c)),
        None => t,
    };
    let tb = match left {
        Some(q) => ta.insert(pos_key(q), with_slot(ta[pos_key(q)], 2, c)),
        None => ta,
    };
    tb.insert(pos_key(c), [up, None, None, left])
}

/// Two nearest nodes above a pixel are the same row.
pub proof fn lemma_node_above_unique(img: Seq<Seq<u8>>, x: int, y: int, a: int, b: int)
    requires
        node_above(img, x, y, a),
        node_above(img, x, y, b),
    ensures
        a == b,
{
    if a < b {
        assert(!is_node(img, x, b));
    } else if b < a {
        assert(!is_node(img, x, a));
    }
}

/// Two nearest nodes left of a pixel are the same column.
pub proof fn lemma_node_left_unique(img: Seq<Seq<u8>>, x: int, y: int, a: int, b: int)
    requires
        node_left_of(img, x, y, a),
        node_left_of(img, x, y, b),
    ensures
        a == b,
{
    if a < b {
        assert(!is_node(img, b, y));
    } else if b < a {
        assert(!is_node(img, a, y));
    }
}

/// Reading the node at `x`, `y` as `table_with_node` describes keeps the
/// table as `table_read` describes.
pub proof fn lemma_read_node(
    img: Seq<Seq<u8>>,
    t: Map<u64, Neighbours>,
    c: Pos,
    up: Option<Pos>,
    left: Option<Pos>,
)
    requires
        table_read(img, t, c.x as int, c.y as int),
        c.x < width(img),
        c.y < height(img),
        is_node(img, c.x as int, c.y as int),
        up is Some <==> links_up(img, c.x as int, c.y as int),
        up matches Some(q) ==> q.x == c.x && node_above(img, c.x as int, c.y as int, q.y as int),
        left is Some <==> links_left(img, c.x as int, c.y as int),
        left matches Some(q) ==> q.y == c.y && node_left_of(img, c.x as int, c.y as int, q.x as int),
    ensures
        table_read(img, table_with_node(t, c, up, left), c.x + 1, c.y as int),
{
    let x = c.x as int;
    let y = c.y as int;
    let t1 = table_with_node(t, c, up, left);
    if let Some(q) = up {
        assert(t.contains_key(pos_key(q)));
        lemma_key_injective(q, c);
    }
    if let Some(q) = left {
        assert(t.contains_key(pos_key(q)));
        lemma_key_injective(q, c);
        if let Some(u) = up {
            lemma_key_injective(q, u);
        }
    }
    assert forall|p: Pos| #[trigger] t1.contains_key(pos_key(p)) <==> read_before(img, p.x as int, p.y as int, x + 1, y)
        && is_node(img, p.x as int, p.y as int) by {
        lemma_key_injective(p, c);
    }
    assert forall|p: Pos| #[trigger] t1.contains_key(pos_key(p)) implies slots_read(img, t1[pos_key(p)], p, x + 1, y) by {
        lemma_key_injective(p, c);
        if p == c {
            let s = t1[pos_key(p)];
            assert(s == [up, None::<Pos>, None::<Pos>, left]);
            assert forall|y2: int| read_before(img, x, y2, x + 1, y) implies !#[trigger] links_down_to(img, p, y2) by {}
            assert forall|x2: int| read_before(img, x2, y, x + 1, y) implies !#[trigger] links_right_to(img, p, x2) by {}
        } else {
            assert(t.contains_key(pos_key(p)));
            let s0 = t[pos_key(p)];
            assert(slots_read(img, s0, p, x, y));
            let is_up = up matches Some(q) && q == p;
            let is_left = left matches Some(q) && q == p;
            if let Some(q) = up {
                lemma_key_injective(p, q);
            }
            if let Some(q) = left {
                lemma_key_injective(p, q);
            }
            // A link from `c` reaches `p` only when `p` is `up` or `left`.
            assert(p.x == c.x && links_down_to(img, p, y) ==> is_up) by {
                if links_down_to(img, p, y) && p.x == c.x {
                    let q = up->0;
                    lemma_node_above_unique(img, x, y, q.y as int, p.y as int);
                }
            }
            assert(p.y == c.y && links_right_to(img, p, x) ==> is_left) by {
                if links_right_to(img, p, x) && p.y == c.y {
                    let q = left->0;
                    lemma_node_left_unique(img, x, y, q.x as int, p.x as int);
                }
            }
            let s = t1[pos_key(p)];
            if is_up {
                assert(s == with_slot(s0, 1, c));
                assert(links_down_to(img, p, y));
                assert forall|x2: int| read_before(img, x2, p.y as int, x + 1, y) implies read_before(img, x2, p.y as int, x, y) by {}
            } else if is_left {
                assert(s == with_slot(s0, 2, c));
                assert(links_right_to(img, p, x));
                assert forall|y2: int| read_before(img, p.x as int, y2, x + 1, y) implies read_before(img, p.x as int, y2, x, y) by {}
            } else {
                assert(s == s0);
                assert forall|y2: int| read_before(img, p.x as int, y2, x + 1, y) && links_down_to(img, p, y2)
                    implies read_before(img, p.x as int, y2, x, y) by {}
                assert forall|x2: int| read_before(img, x2, p.y as int, x + 1, y) && links_right_to(img, p, x2)
                    implies read_before(img, x2, p.y as int, x, y) by {}
            }
        }
    }
}

/// Reading a pixel that makes no node leaves the table as `table_read`
/// describes.
pub proof fn lemma_read_other(img: Seq<Seq<u8>>, t: Map<u64, Neighbours>, x: int, y: int)
    requires
        table_read(img, t, x, y),
        0 <= x < width(img),
        0 <= y < height(img),
        !is_node(img, x, y),
    ensures
        table_read(img, t, x + 1, y),
{
    assert(!links_up(img, x, y));
    assert(!links_left(img, x, y));
    assert forall|p: Pos| #[trigger] t.contains_key(pos_key(p)) implies slots_read(img, t[pos_key(p)], p, x + 1, y) by {
        assert(slots_read(img, t[pos_key(p)], p, x, y));
        assert forall|y2: int| read_before(img, p.x as int, y2, x + 1, y) && links_down_to(img, p, y2)
            implies read_before(img, p.x as int, y2, x, y) by {}
        assert forall|x2: int| read_before(img, x2, p.y as int, x + 1, y) && links_right_to(img, p, x2)
            implies read_before(img, x2, p.y as int, x, y) by {}
    }
}

/// `s` is the last open pixel of row `row` read before the pixel at `x`,
/// `y`, or `None` when no open pixel of that row has been read.
pub open spec fn last_open_read(img: Seq<Seq<u8>>, s: Option<Pos>, row: int, x: int, y: int) -> bool {
    &&& (s is None ==> forall|x2: int| read_before(img, x2, row, x, y) ==> !#[trigger] open_at(img, x2, row))
    &&& (s matches Some(p) ==> {
        &&& p.y == row
        &&& read_before(img, p.x as int, row, x, y)
        &&& open_at(img, p.x as int, row)
        &&& forall|x2: int| p.x < x2 && read_before(img, x2, row, x, y) ==> !#[trigger] open_at(img, x2, row)
    })
}

/// The exit found so far: the last open pixel read in the bottom row, when
/// the image has at least two rows.
pub open spec fn exit_read(img: Seq<Seq<u8>>, e: Option<Pos>, x: int, y: int) -> bool {
    if height(img) >= 2 {
        last_open_read(img, e, height(img) - 1, x, y)
    } else {
        e is None
    }
}

/// Every link of a pixel read before the pixel at `x`, `y` found its node.
pub open spec fn links_found(img: Seq<Seq<u8>>, x: int, y: int) -> bool {
    &&& forall|x2: int, y2: int| read_before(img, x2, y2, x, y) && #[trigger] links_up(img, x2, y2)
        ==> has_node_above(img, x2, y2)
    &&& forall|x2: int, y2: int| read_before(img, x2, y2, x, y) && #[trigger] links_left(img, x2, y2)
        ==> has_node_left(img, x2, y2)
}

/// The state of the reading before the pixel at `x`, `y`: the table, the
/// entrance and exit found so far, and the links found.
pub open spec fn reading(
    img: Seq<Seq<u8>>,
    t: Map<u64, Neighbours>,
    s: Option<Pos>,
    e: Option<Pos>,
    x: int,
    y: int,
) -> bool {
    &&& table_read(img, t, x, y)
    &&& last_open_read(img, s, 0, x, y)
    &&& exit_read(img, e, x, y)
    &&& links_found(img, x, y)
}

/// Reads the pixel at `x`, `y` into the node table, the entrance and the
/// exit; returns `false` when the pixel links to a node that does not exist.
fn read_pixel(
    rows: &Vec<Vec<u8>>,
    x: usize,
    y: usize,
    nodes: &mut HashMap<u64, Neighbours>,
    start: &mut Option<Pos>,
    end: &mut Option<Pos>,
) -> (ok: bool)
    requires
        rectangular(rows.deep_view()),
        y < rows.len(),
        x < width(rows.deep_view()),
        width(rows.deep_view()) <= u32::MAX,
        rows.len() <= u32::MAX,
        reading(rows.deep_view(), old(nodes)@, *old(start), *old(end), x as int, y as int),
    ensures
        ok ==> reading(rows.deep_view(), final(nodes)@, *final(start), *final(end), x + 1, y as int),
        !ok ==> !readable(rows.deep_view()),
{
    let ghost img = rows.deep_view();
    let ghost t0 = nodes@;
    let ghost xi = x as int;
    let ghost yi = y as int;
    proof {
        assert(img[0].len() == rows@[0]@.len());
    }
    let w = rows[0].len();
    let h = rows.len();
    let c = Pos { x: x as u32, y: y as u32 };
    if !open_pixel(rows, x, y) {
        proof {
            lemma_read_other(img, t0, xi, yi);
        }
        return true;
    }
    if x > 0 && x + 1 < w && y > 0 && y + 1 < h {
        let north = open_pixel(rows, x, y - 1);
        let south = open_pixel(rows, x, y + 1);
        let east = open_pixel(rows, x + 1, y);
        let west = open_pixel(rows, x - 1, y);
        if (!north && !south && east && west) || (north && south && !east && !west) || (!north && !south && !east
            && !west) {
            // The middle of a corridor, or a closed pixel: no node.
            proof {
                lemma_read_other(img, t0, xi, yi);
            }
            return true;
        }
        let up = if north {
            match find_up(nodes, c.x, c.y) {
                None => {
                    proof {
                        lemma_no_node_above(img, t0, c);
                    }
                    return false;
                },
                Some(yu) => {
                    let q = Pos { x: c.x, y: yu };
                    proof {
                        lemma_found_node_above(img, t0, c, yu);
                    }
                    set_slot(nodes, q, 1, c);
                    Some(q)
                },
            }
        } else {
            None
        };
        let ghost ta = nodes@;
        let left = if west {
            match find_left(nodes, c.x, c.y) {
                None => {
                    proof {
                        assert(ta.dom() =~= t0.dom());
                        lemma_no_node_left(img, t0, c);
                    }
                    return false;
                },
                Some(xl) => {
                    let q = Pos { x: xl, y: c.y };
                    proof {
                        assert(ta.dom() =~= t0.dom());
                        lemma_found_node_left(img, t0, c, xl);
                    }
                    set_slot(nodes, q, 2, c);
                    Some(q)
                },
            }
        } else {
            None
        };
        nodes.insert(key_of(c), [up, None, None, left]);
        proof {
            assert(nodes@ == table_with_node(t0, c, up, left));
            lemma_read_node(img, t0, c, up, left);
            lemma_links_found_grows(img, xi, yi);
        }
        return true;
    } else if y == 0 {
        nodes.insert(key_of(c), [None, None, None, None]);
        *start = Some(c);
        proof {
            assert(nodes@ == table_with_node(t0, c, None, None));
            lemma_read_node(img, t0, c, None, None);
            lemma_links_found_grows(img, xi, yi);
        }
        return true;
    } else if y + 1 == h {
        match find_up(nodes, c.x, c.y) {
            None => {
                proof {
                    lemma_no_node_above(img, t0, c);
                }
                return false;
            },
            Some(yu) => {
                let q = Pos { x: c.x, y: yu };
                proof {
                    lemma_found_node_above(img, t0, c, yu);
                }
                set_slot(nodes, q, 1, c);
                nodes.insert(key_of(c), [Some(q), None, None, None]);
                *end = Some(c);
                proof {
                    assert(nodes@ == table_with_node(t0, c, Some(q), None));
                    lemma_read_node(img, t0, c, Some(q), None);
                    lemma_links_found_grows(img, xi, yi);
                }
                return true;
            },
        }
    }
    // An open pixel of the left or right border: no node.
    proof {
        lemma_read_other(img, t0, xi, yi);
    }
    true
}

/// When the table holds no node above `c` in its column, no node lies
/// there, so an image where `c` links up cannot be read.
pub proof fn lemma_no_node_above(img: Seq<Seq<u8>>, t: Map<u64, Neighbours>, c: Pos)
    requires
        table_read(img, t, c.x as int, c.y as int),
        c.x < width(img),
        links_up(img, c.x as int, c.y as int),
        forall|q: Pos| q.x == c.x && q.y < c.y ==> !#[trigger] t.contains_key(pos_key(q)),
    ensures
        !readable(img),
{
    if readable(img) {
        assert(has_node_above(img, c.x as int, c.y as int));
        let y2 = choose|y2: int| 0 <= y2 < c.y && #[trigger] is_node(img, c.x as int, y2);
        let q = Pos { x: c.x, y: y2 as u32 };
        assert(!t.contains_key(pos_key(q)));
    }
}

/// When the table holds no node left of `c` in its row, no node lies
/// there, so an image where `c` links left cannot be read.
pub proof fn lemma_no_node_left(img: Seq<Seq<u8>>, t: Map<u64, Neighbours>, c: Pos)
    requires
        table_read(img, t, c.x as int, c.y as int),
        c.y < height(img),
        links_left(img, c.x as int, c.y as int),
        forall|q: Pos| q.y == c.y && q.x < c.x ==> !#[trigger] t.contains_key(pos_key(q)),
    ensures
        !readable(img),
{
    if readable(img) {
        assert(has_node_left(img, c.x as int, c.y as int));
        let x2 = choose|x2: int| 0 <= x2 < c.x && #[trigger] is_node(img, x2, c.y as int);
        let q = Pos { x: x2 as u32, y: c.y };
        assert(!t.contains_key(pos_key(q)));
    }
}

/// The nearest key above `c` in the table is the nearest node above `c`.
pub proof fn lemma_found_node_above(img: Seq<Seq<u8>>, t: Map<u64, Neighbours>, c: Pos, yu: u32)
    requires
        table_read(img, t, c.x as int, c.y as int),
        c.x < width(img),
        yu < c.y,
        t.contains_key(pos_key(Pos { x: c.x, y: yu })),
        forall|q: Pos| q.x == c.x && yu < q.y < c.y ==> !#[trigger] t.contains_key(pos_key(q)),
    ensures
        node_above(img, c.x as int, c.y as int, yu as int),
{
    let q0 = Pos { x: c.x, y: yu };
    assert(is_node(img, q0.x as int, q0.y as int));
    assert forall|y3: int| yu < y3 < c.y implies !#[trigger] is_node(img, c.x as int, y3) by {
        let q = Pos { x: c.x, y: y3 as u32 };
        assert(!t.contains_key(pos_key(q)));
    }
}

/// The nearest key left of `c` in the table is the nearest node left of `c`.
pub proof fn lemma_found_node_left(img: Seq<Seq<u8>>, t: Map<u64, Neighbours>, c: Pos, xl: u32)
    requires
        table_read(img, t, c.x as int, c.y as int),
        c.y < height(img),
        xl < c.x,
        t.contains_key(pos_key(Pos { x: xl, y: c.y })),
        forall|q: Pos| q.y == c.y && xl < q.x < c.x ==> !#[trigger] t.contains_key(pos_key(q)),
    ensures
        node_left_of(img, c.x as int, c.y as int, xl as int),
{
    let q0 = Pos { x: xl, y: c.y };
    assert(is_node(img, q0.x as int, q0.y as int));
    assert forall|x3: int| xl < x3 < c.x implies !#[trigger] is_node(img, x3, c.y as int) by {
        let q = Pos { x: x3 as u32, y: c.y };
        assert(!t.contains_key(pos_key(q)));
    }
}

/// Once the links of the pixel at `x`, `y` have found their nodes, the links
/// of every pixel read up to and including it have.
pub proof fn lemma_links_found_grows(img: Seq<Seq<u8>>, x: int, y: int)
    requires
        links_found(img, x, y),
        links_up(img, x, y) ==> has_node_above(img, x, y),
        links_left(img, x, y) ==> has_node_left(img, x, y),
    ensures
        links_found(img, x + 1, y),
{
}

/// Reads the maze image `rows` (each row a list of pixel values, all rows
/// of the same length, a pixel open when its value is 255) into its graph.
///
/// Returns `None` exactly when the image cannot be read as a maze: no open
/// pixel in the top row, no open pixel in a bottom row distinct from it, or
/// a pixel whose link finds no node. A graph it returns has a single node
/// that leads into the exit.
pub fn try_read_graph(rows: &Vec<Vec<u8>>) -> (r: Option<Graph>)
    requires
        rectangular(rows.deep_view()),
        width(rows.deep_view()) <= u32::MAX,
        rows.len() <= u32::MAX,
    ensures
        r is Some <==> readable(rows.deep_view()),
        r matches Some(g) ==> reads_as(rows.deep_view(), g),
        r matches Some(g) ==> exit_has_one_way_in(g),
{
    let ghost img = rows.deep_view();
    let h = rows.len();
    if h == 0 {
        return None;
    }
    proof {
        assert(img[0].len() == rows@[0]@.len());
    }
    let w = rows[0].len();
    let mut nodes: HashMap<u64, Neighbours> = HashMap::new();
    let mut start: Option<Pos> = None;
    let mut end: Option<Pos> = None;
    let mut y: usize = 0;
    while y < h
        invariant
            img == rows.deep_view(),
            rectangular(img),
            h == rows.len(),
            w == width(img),
            w <= u32::MAX,
            h <= u32::MAX,
            0 <= y <= h,
            reading(img, nodes@, start, end, 0, y as int),
        decreases h - y,
    {
        let mut x: usize = 0;
        while x < w
            invariant
                img == rows.deep_view(),
                rectangular(img),
                h == rows.len(),
                w == width(img),
                w <= u32::MAX,
                h <= u32::MAX,
                0 <= y < h,
                0 <= x <= w,
                reading(img, nodes@, start, end, x as int, y as int),
            decreases w - x,
        {
            if !read_pixel(rows, x, y, &mut nodes, &mut start, &mut end) {
                return None;
            }
            x = x + 1;
        }
        proof {
            lemma_next_row(img, nodes@, start, end, y as int);
        }
        y = y + 1;
    }
    match (start, end) {
        (Some(s), Some(e)) => {
            proof {
                lemma_read_all(img, nodes@, s, e);
            }
            let g = Graph::from_table(s, e, nodes);
            proof {
                lemma_read_exit_has_one_way_in(img, g);
            }
            Some(g)
        },
        _ => {
            proof {
                lemma_read_all_fails(img, nodes@, start, end);
            }
            None
        },
    }
}

/// Having read a whole row is having read up to the start of the next.
pub proof fn lemma_next_row(
    img: Seq<Seq<u8>>,
    t: Map<u64, Neighbours>,
    s: Option<Pos>,
    e: Option<Pos>,
    y: int,
)
    requires
        reading(img, t, s, e, width(img), y),
    ensures
        reading(img, t, s, e, 0, y + 1),
{
    assert forall|x2: int, y2: int| read_before(img, x2, y2, width(img), y) <==> read_before(img, x2, y2, 0, y + 1) by {}
    assert forall|p: Pos| #[trigger] t.contains_key(pos_key(p)) implies slots_read(img, t[pos_key(p)], p, 0, y + 1) by {
        assert(slots_read(img, t[pos_key(p)], p, width(img), y));
    }
}

/// After the whole image, an entrance and an exit mean the image is
/// readable and the table is its graph.
pub proof fn lemma_read_all(img: Seq<Seq<u8>>, t: Map<u64, Neighbours>, s: Pos, e: Pos)
    requires
        reading(img, t, Some(s), Some(e), 0, height(img)),
    ensures
        readable(img),
        t.contains_key(pos_key(s)),
        closed_table(t),
        loop_free_table(t),
        aligned_table(t),
        ({
            let adj = table_adjacency(t);
            &&& forall|p: Pos| #[trigger] adj.contains_key(p) <==> is_node(img, p.x as int, p.y as int)
            &&& forall|p: Pos| #[trigger] adj.contains_key(p) ==> slots_read(img, adj[p], p, 0, height(img))
        }),
        s.y == 0,
        last_open_in_row(img, s.x as int, 0),
        e.y == height(img) - 1,
        last_open_in_row(img, e.x as int, height(img) - 1),
{
    let h = height(img);
    assert(h >= 2);
    assert(row_has_open(img, 0));
    assert(row_has_open(img, h - 1));
    assert forall|x: int, y: int| #[trigger] links_up(img, x, y) implies has_node_above(img, x, y) by {
        assert(read_before(img, x, y, 0, h));
    }
    assert forall|x: int, y: int| #[trigger] links_left(img, x, y) implies has_node_left(img, x, y) by {
        assert(read_before(img, x, y, 0, h));
    }
    assert forall|x2: int| s.x < x2 implies !#[trigger] open_at(img, x2, 0) by {
        if open_at(img, x2, 0) {
            assert(read_before(img, x2, 0, 0, h));
        }
    }
    assert forall|x2: int| e.x < x2 implies !#[trigger] open_at(img, x2, h - 1) by {
        if open_at(img, x2, h - 1) {
            assert(read_before(img, x2, h - 1, 0, h));
        }
    }
    assert(is_node(img, s.x as int, 0));
    assert(t.contains_key(pos_key(s)));
    assert forall|k: u64, i: int| #![trigger t[k][i]] t.contains_key(k) && 0 <= i < 4 && t[k][i] is Some
        implies t.contains_key(pos_key(t[k][i]->0)) by {
        let p = crate::pos::lemma_key_decodes(k);
        let sl = t[k];
        assert(slots_read(img, sl, p, 0, h));
        let q = sl[i]->0;
        if i == 0 {
            assert(is_node(img, q.x as int, q.y as int));
        } else if i == 3 {
            assert(is_node(img, q.x as int, q.y as int));
        } else if i == 1 {
            assert(links_up(img, q.x as int, q.y as int));
            assert(is_node(img, q.x as int, q.y as int));
        } else {
            assert(links_left(img, q.x as int, q.y as int));
            assert(is_node(img, q.x as int, q.y as int));
        }
    }
    assert forall|k: u64, i: int| #![trigger t[k][i]] t.contains_key(k) && 0 <= i < 4 && t[k][i] is Some
        implies pos_key(t[k][i]->0) != k by {
        let p = crate::pos::lemma_key_decodes(k);
        let sl = t[k];
        assert(slots_read(img, sl, p, 0, h));
        let q = sl[i]->0;
        lemma_key_injective(p, q);
    }
    assert forall|k: u64, i: int| #![trigger t[k][i]] t.contains_key(k) && 0 <= i < 4 && t[k][i] is Some
        implies exists|p: Pos| pos_key(p) == k && (p.x == t[k][i]->0.x || p.y == t[k][i]->0.y) by {
        let p = crate::pos::lemma_key_decodes(k);
        assert(slots_read(img, t[k], p, 0, h));
    }
}

/// After the whole image, a missing entrance or exit means the image is not
/// readable.
pub proof fn lemma_read_all_fails(img: Seq<Seq<u8>>, t: Map<u64, Neighbours>, s: Option<Pos>, e: Option<Pos>)
    requires
        reading(img, t, s, e, 0, height(img)),
        s is None || e is None,
    ensures
        !readable(img),
{
    let h = height(img);
    if readable(img) {
        if s is None {
            let x = choose|x: int| #[trigger] open_at(img, x, 0);
            assert(read_before(img, x, 0, 0, h));
        } else {
            let x = choose|x: int| #[trigger] open_at(img, x, h - 1);
            assert(read_before(img, x, h - 1, 0, h));
        }
    }
}

/// Every graph read from an image has a single way into its exit: the
/// nearest node above the exit, the only node that links down to it.
pub proof fn lemma_read_exit_has_one_way_in(img: Seq<Seq<u8>>, g: Graph)
    requires
        reads_as(img, g),
    ensures
        exit_has_one_way_in(g),
{
    let end = g.end_node();
    assert forall|p: Pos, q: Pos| #[trigger] g.edge(p, end) && #[trigger] g.edge(q, end) implies p == q by {
        lemma_links_into_exit(img, g, p);
        lemma_links_into_exit(img, g, q);
        lemma_node_above_unique(img, end.x as int, end.y as int, p.y as int, q.y as int);
    }
}

/// A node of a read graph that lists the exit is the nearest node above
/// the exit in its column.
proof fn lemma_links_into_exit(img: Seq<Seq<u8>>, g: Graph, p: Pos)
    requires
        reads_as(img, g),
        g.edge(p, g.end_node()),
    ensures
        p.x == g.end_node().x,
        node_above(img, p.x as int, g.end_node().y as int, p.y as int),
{
    let end = g.end_node();
    let s = g.nbrs(p);
    assert(slots_read(img, s, p, 0, height(img)));
    assert(is_node(img, p.x as int, p.y as int));
    let i = choose|i: int| 0 <= i < 4 && #[trigger] s[i] == Some(end);
    if i == 0 {
        assert(node_above(img, p.x as int, p.y as int, end.y as int));
    } else if i == 3 {
        assert(links_left(img, p.x as int, p.y as int));
    } else if i == 2 {
        assert(links_right_to(img, p, end.x as int));
        assert(links_left(img, end.x as int, p.y as int));
    } else {
        assert(links_down_to(img, p, end.y as int));
    }
}

/// The image that a PNG file holds, as the decoder reads it: its width, its
/// height, and its pixels in RGBA form, four bytes per pixel, row by row;
/// `None` when the decoder rejects the bytes.
pub uninterp spec fn png_rgba(bytes: Seq<u8>) -> Option<(u32, u32, Seq<u8>)>;

/// Calls `image::load_from_memory_with_format` with the PNG format and turns
/// the image into RGBA bytes (`to_rgba8`, `dimensions`, `into_raw`). What
/// the decoder gives is named, not stated: it depends only on the bytes. The
/// buffer of an image of `w` by `h` RGBA pixels holds at least `w * h * 4`
/// bytes, pixel (`x`, `y`) starting at byte `(y * w + x) * 4`.
#[verifier::external_body]
fn decode_png(bytes: &[u8]) -> (r: Option<(u32, u32, Vec<u8>)>)
    ensures
        r is Some <==> png_rgba(bytes@) is Some,
        r matches Some(t) ==> png_rgba(bytes@) == Some((t.0, t.1, t.2@)),
        r matches Some(t) ==> t.2.len() >= t.0 * t.1 * 4,
{
    match image::load_from_memory_with_format(bytes, image::ImageFormat::Png) {
        Ok(decoded) => {
            let rgba = decoded.to_rgba8();
            let (w, h) = rgba.dimensions();
            Some((w, h, rgba.into_raw()))
        },
        Err(_) => None,
    }
}

/// The first channel of each pixel of an image `w` pixels wide and `h`
/// high whose RGBA bytes are `buf`, row by row.
pub open spec fn first_channel(w: nat, h: nat, buf: Seq<u8>) -> Seq<Seq<u8>> {
    Seq::new(h, |y: int| Seq::new(w, |x: int| buf[(y * w + x) * 4]))
}

/// Takes the first channel of each pixel of an image `w` pixels wide and
/// `h` high whose RGBA bytes are `buf`, row by row.
pub fn first_channel_rows(w: u32, h: u32, buf: &Vec<u8>) -> (rows: Vec<Vec<u8>>)
    requires
        buf.len() >= w * h * 4,
    ensures
        rows.deep_view() == first_channel(w as nat, h as nat, buf@),
{
    let ghost img = first_channel(w as nat, h as nat, buf@);
    let mut rows: Vec<Vec<u8>> = Vec::new();
    let mut y: u32 = 0;
    while y < h
        invariant
            0 <= y <= h,
            buf.len() >= w * h * 4,
            img == first_channel(w as nat, h as nat, buf@),
            rows.len() == y,
            forall|r: int| 0 <= r < y ==> (#[trigger] rows.deep_view()[r]) == img[r],
        decreases h - y,
    {
        let mut row: Vec<u8> = Vec::new();
        let mut x: u32 = 0;
        while x < w
            invariant
                0 <= x <= w,
                y < h,
                buf.len() >= w * h * 4,
                row.len() == x,
                forall|c: int| 0 <= c < x ==> #[trigger] row@[c] == buf@[(y * w + c) * 4],
            decreases w - x,
        {
            assert((y * w + x) * 4 < w * h * 4 && y * w <= (y * w + x) * 4) by (nonlinear_arith)
                requires
                    x < w,
                    y < h,
            ;
            let i: usize = ((y as usize) * (w as usize) + (x as usize)) * 4;
            row.push(buf[i]);
            x = x + 1;
        }
        let ghost before = rows.deep_view();
        rows.push(row);
        proof {
            assert(row.deep_view() =~= img[y as int]);
            assert forall|r: int| 0 <= r < y + 1 implies (#[trigger] rows.deep_view()[r]) == img[r] by {
                if r < y {
                    assert(rows.deep_view()[r] == before[r]);
                }
            }
        }
        y = y + 1;
    }
    proof {
        assert(rows.deep_view() =~= img);
    }
    rows
}

/// Reads a maze from the bytes of a PNG file: decodes them and reads the
/// first channel of its pixels as `try_read_graph` does.
///
/// Returns `None` when the decoder rejects the bytes, and otherwise exactly
/// when the image cannot be read as a maze.
pub fn read_png_graph(bytes: &[u8]) -> (r: Option<Graph>)
    ensures
        png_rgba(bytes@) is None ==> r is None,
        png_rgba(bytes@) matches Some(t) ==> {
            let img = first_channel(t.0 as nat, t.1 as nat, t.2);
            &&& (r is Some <==> readable(img))
            &&& r matches Some(g) ==> reads_as(img, g) && exit_has_one_way_in(g)
        },
{
    match decode_png(bytes) {
        None => None,
        Some((w, h, buf)) => {
            let rows = first_channel_rows(w, h, &buf);
            proof {
                let img = rows.deep_view();
                assert(img.len() == h);
                assert forall|r: int| 0 <= r < img.len() implies #[trigger] img[r].len() == width(img) by {
                    assert(img[0].len() == w);
                }
                assert(width(img) <= u32::MAX) by {
                    if img.len() > 0 {
                        assert(img[0].len() == w);
                    }
                }
            }
            try_read_graph(&rows)
        },
    }
}

/// Reads the maze image `rows`, which can be read as a maze, into its graph.
pub fn read_graph(rows: &Vec<Vec<u8>>) -> (g: Graph)
    requires
        rectangular(rows.deep_view()),
        width(rows.deep_view()) <= u32::MAX,
        rows.len() <= u32::MAX,
        readable(rows.deep_view()),
    ensures
        reads_as(rows.deep_view(), g),
        exit_has_one_way_in(g),
{
    let r = try_read_graph(rows);
    r.unwrap()
}

} // verus!
