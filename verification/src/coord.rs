//! Grid coordinates, the 8-connected neighbor relation, and the mapping
//! between coordinates and row-major cell indices.

use vstd::prelude::*;

verus! {

/// A cell position on the board: 0-indexed, bounded by the grid's width and
/// height.
#[derive(Clone, Copy, Debug, PartialEq, Eq, Hash, Structural)]
pub struct Coord {
    pub x: u32,
    pub y: u32,
}

/// Two coordinates are neighbors when both axis deltas are in {-1, 0, 1} and
/// the coordinates differ. A cell is never its own neighbor.
pub open spec fn is_adjacent(a: Coord, b: Coord) -> bool {
    &&& a != b
    &&& -1 <= a.x - b.x <= 1
    &&& -1 <= a.y - b.y <= 1
}

/// Whether `c` lies on a `width` by `height` board.
pub open spec fn in_bounds(c: Coord, width: u32, height: u32) -> bool {
    c.x < width && c.y < height
}

/// Row-major index of a coordinate on a board of the given width.
pub open spec fn cell_index(width: u32, c: Coord) -> int {
    c.y * width + c.x
}

/// Inverse of `cell_index`: the coordinate holding row-major index `i`.
pub open spec fn coord_of_index(width: u32, i: int) -> Coord {
    Coord { x: (i % (width as int)) as u32, y: (i / (width as int)) as u32 }
}

impl Coord {
    pub fn new(x: u32, y: u32) -> (r: Coord)
        ensures
            r.x == x,
            r.y == y,
    {
        Coord { x, y }
    }

    /// The 8-connectivity test used by flood fill and mine counting.
    pub fn is_near(&self, other: &Coord) -> (r: bool)
        ensures
            r == is_adjacent(*self, *other),
    {
        let dx_ok: bool = if self.x >= other.x {
            self.x - other.x <= 1
        } else {
            other.x - self.x <= 1
        };
        let dy_ok: bool = if self.y >= other.y {
            self.y - other.y <= 1
        } else {
            other.y - self.y <= 1
        };
        dx_ok && dy_ok && !(self.x == other.x && self.y == other.y)
    }
}

/// The neighbor relation is symmetric: it is the sole basis for flood-fill
/// propagation and mine counting, so propagation never depends on direction.
pub proof fn lemma_adjacent_symmetric(a: Coord, b: Coord)
    ensures
        is_adjacent(a, b) == is_adjacent(b, a),
{
}

/// A coordinate on the board has a row-major index on the board.
pub proof fn lemma_cell_index_bounds(width: u32, height: u32, c: Coord)
    requires
        in_bounds(c, width, height),
    ensures
        0 <= cell_index(width, c) < width * height,
{
    assert(c.y * width + c.x < width * height) by (nonlinear_arith)
        requires
            c.x < width,
            c.y < height,
    {
    }
}

/// Distinct coordinates on the board have distinct row-major indices.
pub proof fn lemma_cell_index_injective(width: u32, height: u32, a: Coord, b: Coord)
    requires
        in_bounds(a, width, height),
        in_bounds(b, width, height),
        cell_index(width, a) == cell_index(width, b),
    ensures
        a == b,
{
    assert(a.x == b.x && a.y == b.y) by (nonlinear_arith)
        requires
            a.x < width,
            b.x < width,
            a.y * width + a.x == b.y * width + b.x,
    {
    }
}

/// `cell_index` inverts `coord_of_index` on the board.
pub proof fn lemma_coord_index_roundtrip(width: u32, height: u32, c: Coord)
    requires
        in_bounds(c, width, height),
    ensures
        coord_of_index(width, cell_index(width, c)) == c,
{
    lemma_cell_index_bounds(width, height, c);
    lemma_index_coord_inverse(width, height, cell_index(width, c));
    lemma_cell_index_injective(width, height, coord_of_index(width, cell_index(width, c)), c);
}

/// `coord_of_index` inverts `cell_index` on the board.
pub proof fn lemma_index_coord_inverse(width: u32, height: u32, i: int)
    requires
        width > 0,
        0 <= i < width * height,
    ensures
        in_bounds(coord_of_index(width, i), width, height),
        cell_index(width, coord_of_index(width, i)) == i,
{
    let w = width as int;
    assert(0 <= i % w < w && w * (i / w) + i % w == i) by (nonlinear_arith)
        requires
            w > 0,
            i >= 0,
    {
    }
    assert(0 <= i / w < height) by (nonlinear_arith)
        requires
            w > 0,
            0 <= i < w * (height as int),
            w * (i / w) + i % w == i,
            0 <= i % w < w,
    {
    }
    assert((i / w) * w + i % w == i) by (nonlinear_arith)
        requires
            w * (i / w) + i % w == i,
    {
    }
}

} // verus!
