//! Coordinates on a toroidal grid and the steps between them.

use vstd::prelude::*;

verus! {

/// The size of a grid: `width` columns and `height` rows.
#[derive(Debug, Clone, Copy, PartialEq, Eq, Structural, Hash, Default)]
pub struct Boundary {
    pub width: usize,
    pub height: usize,
}

/// A cell of the grid: column `x`, row `y`, origin at the top left.
#[derive(Debug, Clone, Copy, PartialEq, Eq, Structural, Hash)]
pub struct Position {
    pub x: usize,
    pub y: usize,
}

impl Boundary {
    /// Both sides are at least one cell long, and the number of cells fits in a `usize`.
    pub open spec fn valid(self) -> bool {
        &&& self.width >= 1
        &&& self.height >= 1
        &&& self.width * self.height <= usize::MAX
    }

    /// `p` lies on the grid.
    pub open spec fn contains(self, p: (int, int)) -> bool {
        0 <= p.0 < self.width && 0 <= p.1 < self.height
    }
}

impl View for Position {
    type V = (int, int);

    open spec fn view(&self) -> (int, int) {
        (self.x as int, self.y as int)
    }
}

/// One past `n`, where one past `max` is zero.
pub open spec fn wrap_inc(n: int, max: int) -> int {
    if n == max {
        0
    } else {
        n + 1
    }
}

/// One before `n`, where one before zero is `max`.
pub open spec fn wrap_dec(n: int, max: int) -> int {
    if n == 0 {
        max
    } else {
        n - 1
    }
}

/// The cell above `p`; above the top row lies the bottom row.
pub open spec fn up(p: (int, int), b: Boundary) -> (int, int) {
    (p.0, wrap_dec(p.1, b.height - 1))
}

/// The cell below `p`; below the bottom row lies the top row.
pub open spec fn down(p: (int, int), b: Boundary) -> (int, int) {
    (p.0, wrap_inc(p.1, b.height - 1))
}

/// The cell left of `p`; left of the first column lies the last one.
pub open spec fn left(p: (int, int), b: Boundary) -> (int, int) {
    (wrap_dec(p.0, b.width - 1), p.1)
}

/// The cell right of `p`; right of the last column lies the first one.
pub open spec fn right(p: (int, int), b: Boundary) -> (int, int) {
    (wrap_inc(p.0, b.width - 1), p.1)
}

/// The eight cells around `p`, clockwise from the one above it:
/// N, NE, E, SE, S, SW, W, NW. On a grid one cell wide or high some of them
/// coincide with each other or with `p`; none is left out.
pub open spec fn neighbour_seq(p: (int, int), b: Boundary) -> Seq<(int, int)> {
    seq![
        up(p, b),
        right(up(p, b), b),
        right(p, b),
        right(down(p, b), b),
        down(p, b),
        left(down(p, b), b),
        left(p, b),
        left(up(p, b), b),
    ]
}

/// Adds one to `n`, wrapping from `max` to zero.
pub fn wrapping_add(n: usize, max: usize) -> (r: usize)
    requires
        n <= max,
    ensures
        r == wrap_inc(n as int, max as int),
{
    if n == max {
        0
    } else {
        n + 1
    }
}

/// Subtracts one from `n`, wrapping from zero to `max`.
pub fn wrapping_sub(n: usize, max: usize) -> (r: usize)
    ensures
        r == wrap_dec(n as int, max as int),
{
    if n == 0 {
        max
    } else {
        n - 1
    }
}

impl Position {
    /// The cell above this one, wrapping from the top row to the bottom one.
    pub fn top(&self, boundary: &Boundary) -> (r: Position)
        requires
            boundary.valid(),
            boundary.contains(self@),
        ensures
            r@ == up(self@, *boundary),
    {
        Position { x: self.x, y: wrapping_sub(self.y, boundary.height - 1) }
    }

    /// The cell right of this one, wrapping from the last column to the first.
    pub fn right(&self, boundary: &Boundary) -> (r: Position)
        requires
            boundary.valid(),
            boundary.contains(self@),
        ensures
            r@ == right(self@, *boundary),
    {
        Position { x: wrapping_add(self.x, boundary.width - 1), y: self.y }
    }

    /// The cell below this one, wrapping from the bottom row to the top one.
    pub fn down(&self, boundary: &Boundary) -> (r: Position)
        requires
            boundary.valid(),
            boundary.contains(self@),
        ensures
            r@ == down(self@, *boundary),
    {
        Position { x: self.x, y: wrapping_add(self.y, boundary.height - 1) }
    }

    /// The cell left of this one, wrapping from the first column to the last.
    pub fn left(&self, boundary: &Boundary) -> (r: Position)
        requires
            boundary.valid(),
            boundary.contains(self@),
        ensures
            r@ == left(self@, *boundary),
    {
        Position { x: wrapping_sub(self.x, boundary.width - 1), y: self.y }
    }
}

/// The neighbours of a cell lie on the grid, and the cell is a neighbour of each of them.
pub proof fn lemma_neighbours_symmetric(p: (int, int), b: Boundary)
    requires
        b.valid(),
        b.contains(p),
    ensures
        forall|i: int|
            0 <= i < 8 ==> {
                &&& b.contains(#[trigger] neighbour_seq(p, b)[i])
                &&& neighbour_seq(neighbour_seq(p, b)[i], b).contains(p)
            },
{
    let n = neighbour_seq(p, b);
    assert(neighbour_seq(n[0], b)[4] == p);
    assert(neighbour_seq(n[1], b)[5] == p);
    assert(neighbour_seq(n[2], b)[6] == p);
    assert(neighbour_seq(n[3], b)[7] == p);
    assert(neighbour_seq(n[4], b)[0] == p);
    assert(neighbour_seq(n[5], b)[1] == p);
    assert(neighbour_seq(n[6], b)[2] == p);
    assert(neighbour_seq(n[7], b)[3] == p);
}

} // verus!
