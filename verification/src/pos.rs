//! Positions of pixels in a maze image.

use vstd::prelude::*;
use vstd::string::StringExecFns;

verus! {

/// A pixel position: `x` is the column, `y` the row (row 0 is the top).
#[derive(PartialEq, Eq, Clone, Copy, Hash, Structural)]
pub struct Pos {
    pub x: u32,
    pub y: u32,
}

impl From<(u32, u32)> for Pos {
    fn from(xy: (u32, u32)) -> (p: Pos) {
        Pos { x: xy.0, y: xy.1 }
    }
}

impl vstd::std_specs::convert::FromSpecImpl<(u32, u32)> for Pos {
    open spec fn obeys_from_spec() -> bool {
        true
    }

    open spec fn from_spec(v: (u32, u32)) -> Pos {
        Pos { x: v.0, y: v.1 }
    }
}

/// The decimal digits of `n`, most significant first.
pub open spec fn decimal(n: nat) -> Seq<char>
    decreases n,
{
    if n < 10 {
        seq![((n + 48) as u8) as char]
    } else {
        decimal(n / 10).push((((n % 10) + 48) as u8) as char)
    }
}

/// The text of a position: its column and row in decimal, between
/// parentheses and parted by a comma and a space, as in `(3, 7)`.
pub open spec fn pos_text(p: Pos) -> Seq<char> {
    seq!['('] + decimal(p.x as nat) + seq![',', ' '] + decimal(p.y as nat) + seq![')']
}

/// Calls `to_string` on a number, which `Display` for `u32` writes in
/// decimal without leading zeros.
#[verifier::external_body]
fn decimal_text(n: u32) -> (s: String)
    ensures
        s@ == decimal(n as nat),
{
    n.to_string()
}

impl Pos {
    /// The position as text, such as `(3, 7)`.
    pub fn describe(&self) -> (s: String)
        ensures
            s@ == pos_text(*self),
    {
        let x = decimal_text(self.x);
        let y = decimal_text(self.y);
        let mut s = String::from_str("(");
        s.append(x.as_str());
        s.append(", ");
        s.append(y.as_str());
        s.append(")");
        proof {
            reveal_strlit("(");
            reveal_strlit(", ");
            reveal_strlit(")");
            assert(s@ =~= pos_text(*self));
        }
        s
    }
}

/// The number of distinct values of a coordinate.
pub open spec fn coord_range() -> int {
    0x1_0000_0000
}

/// The integer that identifies a position in hash tables: the column in the
/// high 32 bits, the row in the low 32 bits.
pub open spec fn pos_key(p: Pos) -> u64 {
    (p.x * coord_range() + p.y) as u64
}

/// Computes `pos_key(p)`.
pub fn key_of(p: Pos) -> (k: u64)
    ensures
        k == pos_key(p),
        k == p.x * coord_range() + p.y,
{
    let x: u64 = p.x as u64;
    let y: u64 = p.y as u64;
    assert(x * 0x1_0000_0000 <= 0xffff_ffff_0000_0000) by (nonlinear_arith)
        requires x <= 0xffff_ffff;
    x * 0x1_0000_0000 + y
}

/// Two positions with the same key are the same position.
pub proof fn lemma_key_injective(a: Pos, b: Pos)
    ensures
        pos_key(a) == pos_key(b) <==> a == b,
{
    let ka = a.x * coord_range() + a.y;
    let kb = b.x * coord_range() + b.y;
    assert(0 <= ka <= u64::MAX) by (nonlinear_arith)
        requires ka == a.x * 0x1_0000_0000 + a.y, a.x <= 0xffff_ffff, a.y <= 0xffff_ffff;
    assert(0 <= kb <= u64::MAX) by (nonlinear_arith)
        requires kb == b.x * 0x1_0000_0000 + b.y, b.x <= 0xffff_ffff, b.y <= 0xffff_ffff;
    if a.x < b.x {
        assert(ka < kb) by (nonlinear_arith)
            requires ka == a.x * 0x1_0000_0000 + a.y, kb == b.x * 0x1_0000_0000 + b.y,
                a.x < b.x, a.y <= 0xffff_ffff, b.y >= 0;
    } else if b.x < a.x {
        assert(kb < ka) by (nonlinear_arith)
            requires ka == a.x * 0x1_0000_0000 + a.y, kb == b.x * 0x1_0000_0000 + b.y,
                b.x < a.x, b.y <= 0xffff_ffff, a.y >= 0;
    }
}

/// Every 64-bit integer is the key of some position.
pub proof fn lemma_key_decodes(k: u64) -> (p: Pos)
    ensures
        pos_key(p) == k,
{
    let x: int = k as int / coord_range();
    let y: int = k as int % coord_range();
    assert(0 <= x < coord_range() && 0 <= y < coord_range() && x * coord_range() + y == k) by (nonlinear_arith)
        requires x == k as int / 0x1_0000_0000, y == k as int % 0x1_0000_0000, 0 <= k <= 0xffff_ffff_ffff_ffff;
    Pos { x: x as u32, y: y as u32 }
}

} // verus!
