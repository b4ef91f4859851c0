//! Integer positions on the tile and chunk grids.
use vstd::prelude::*;

verus! {

/// A point on an integer grid (a tile or a chunk coordinate).
#[derive(Clone, Copy, Debug, PartialEq, Eq, Structural, Hash)]
pub struct GridPos {
    pub x: i32,
    pub y: i32,
}

impl GridPos {
    /// Builds the point `(x, y)`.
    pub fn new(x: i32, y: i32) -> (p: GridPos)
        ensures
            p.x == x,
            p.y == y,
    {
        GridPos { x, y }
    }
}

/// `a` comes strictly before `b` when ordered by `x`, then by `y`.
pub open spec fn lex_lt(a: GridPos, b: GridPos) -> bool {
    a.x < b.x || (a.x == b.x && a.y < b.y)
}

/// Square of the euclidean distance between `a` and `b`.
pub open spec fn dist_sq(a: GridPos, b: GridPos) -> int {
    (a.x - b.x) * (a.x - b.x) + (a.y - b.y) * (a.y - b.y)
}

/// Absolute value of an integer.
pub open spec fn abs(v: int) -> int {
    if v < 0 { -v } else { v }
}

/// Chebyshev (king-move) distance between `a` and `b`.
pub open spec fn chebyshev(a: GridPos, b: GridPos) -> int {
    let dx = abs(a.x - b.x);
    let dy = abs(a.y - b.y);
    if dx >= dy { dx } else { dy }
}

/// The map key that stands for a point: the bits of `x` above the bits of `y`.
pub open spec fn key_of(p: GridPos) -> u64 {
    ((p.x as u32 as u64) << 32u64) | (p.y as u32 as u64)
}

/// Different points have different keys.
pub proof fn lemma_key_injective(a: GridPos, b: GridPos)
    ensures
        key_of(a) == key_of(b) ==> a == b,
{
    let ax = a.x;
    let ay = a.y;
    let bx = b.x;
    let by = b.y;
    assert(((ax as u32 as u64) << 32u64) | (ay as u32 as u64) == ((bx as u32 as u64) << 32u64) | (
    by as u32 as u64) ==> ax == bx && ay == by) by (bit_vector);
}

/// Computes the map key of a point.
pub fn grid_key(p: GridPos) -> (k: u64)
    ensures
        k == key_of(p),
{
    ((p.x as u32 as u64) << 32u64) | (p.y as u32 as u64)
}

} // verus!
