//! Facts about the rule of the game, stated over its mathematical model.

use crate::board::{live_neighbours, next_cells, occurrences};
use crate::topology::{neighbour_seq, Boundary};
use vstd::prelude::*;

verus! {

/// The square of four cells whose top left cell is `(x, y)`.
pub open spec fn block(x: int, y: int) -> Set<(int, int)> {
    Set::new(|q: (int, int)| x <= q.0 <= x + 1 && y <= q.1 <= y + 1)
}

/// The live cells `n` generations after `cells`.
pub open spec fn generation(cells: Set<(int, int)>, b: Boundary, n: nat) -> Set<(int, int)>
    decreases n,
{
    if n == 0 {
        cells
    } else {
        next_cells(generation(cells, b, (n - 1) as nat), b)
    }
}

/// One if `cells` holds `q`, else zero.
pub open spec fn indicator(cells: Set<(int, int)>, q: (int, int)) -> nat {
    if cells.contains(q) {
        1
    } else {
        0
    }
}

proof fn lemma_occurrences_step(s: Seq<(int, int)>, cells: Set<(int, int)>, i: int)
    requires
        0 <= i < s.len(),
    ensures
        occurrences(s.take(i + 1), cells) == occurrences(s.take(i), cells) + indicator(cells, s[i]),
{
    assert(s.take(i + 1).drop_last() =~= s.take(i));
}

/// The count of live neighbours is the sum, over the eight places around `p`,
/// of whether the cell at that place is alive.
pub proof fn lemma_live_neighbours_sum(cells: Set<(int, int)>, b: Boundary, p: (int, int))
    ensures
        live_neighbours(cells, b, p) == indicator(cells, neighbour_seq(p, b)[0])
            + indicator(cells, neighbour_seq(p, b)[1]) + indicator(cells, neighbour_seq(p, b)[2])
            + indicator(cells, neighbour_seq(p, b)[3]) + indicator(cells, neighbour_seq(p, b)[4])
            + indicator(cells, neighbour_seq(p, b)[5]) + indicator(cells, neighbour_seq(p, b)[6])
            + indicator(cells, neighbour_seq(p, b)[7]),
{
    let s = neighbour_seq(p, b);
    assert(s.take(0) =~= Seq::<(int, int)>::empty());
    lemma_occurrences_step(s, cells, 0);
    lemma_occurrences_step(s, cells, 1);
    lemma_occurrences_step(s, cells, 2);
    lemma_occurrences_step(s, cells, 3);
    lemma_occurrences_step(s, cells, 4);
    lemma_occurrences_step(s, cells, 5);
    lemma_occurrences_step(s, cells, 6);
    lemma_occurrences_step(s, cells, 7);
    assert(s.take(8) =~= s);
}

/// Advancing depends on the live cells and the grid's size alone: two boards
/// that agree on both agree on the next generation.
pub proof fn lemma_next_gen_deterministic(
    cells1: Set<(int, int)>,
    cells2: Set<(int, int)>,
    b1: Boundary,
    b2: Boundary,
)
    requires
        cells1 == cells2,
        b1 == b2,
    ensures
        next_cells(cells1, b1) == next_cells(cells2, b2),
{
}

/// A board without live cells stays without them.
pub proof fn lemma_empty_stays_empty(b: Boundary)
    requires
        b.valid(),
    ensures
        next_cells(Set::empty(), b) == Set::<(int, int)>::empty(),
{
    assert forall|p: (int, int)| !#[trigger] next_cells(Set::empty(), b).contains(p) by {
        lemma_live_neighbours_sum(Set::empty(), b, p);
    }
    assert(next_cells(Set::empty(), b) =~= Set::<(int, int)>::empty());
}

/// A square of four live cells, on a grid at least four cells wide and high,
/// is the next generation of itself.
pub proof fn lemma_block_is_still(b: Boundary, x: int, y: int)
    requires
        b.valid(),
        b.width >= 4,
        b.height >= 4,
        0 <= x,
        x + 1 < b.width,
        0 <= y,
        y + 1 < b.height,
    ensures
        next_cells(block(x, y), b) == block(x, y),
{
    assert forall|p: (int, int)| #[trigger] next_cells(block(x, y), b).contains(p) <==> block(x, y).contains(p) by {
        lemma_live_neighbours_sum(block(x, y), b, p);
    }
    assert(next_cells(block(x, y), b) =~= block(x, y));
}

/// A square of four live cells, on a grid at least four cells wide and high,
/// stays as it is for any number of generations.
pub proof fn lemma_block_stays_forever(b: Boundary, x: int, y: int, n: nat)
    requires
        b.valid(),
        b.width >= 4,
        b.height >= 4,
        0 <= x,
        x + 1 < b.width,
        0 <= y,
        y + 1 < b.height,
    ensures
        generation(block(x, y), b, n) == block(x, y),
    decreases n,
{
    if n > 0 {
        lemma_block_stays_forever(b, x, y, (n - 1) as nat);
        lemma_block_is_still(b, x, y);
    }
}

/// On a grid one cell wide, the cells east and west of a cell are the cell
/// itself, and the three cells above it (and the three below) are one cell
/// counted three times.
pub proof fn lemma_narrow_grid_neighbours(b: Boundary, p: (int, int))
    requires
        b.valid(),
        b.contains(p),
        b.width == 1,
    ensures
        neighbour_seq(p, b)[2] == p,
        neighbour_seq(p, b)[6] == p,
        neighbour_seq(p, b)[1] == neighbour_seq(p, b)[0],
        neighbour_seq(p, b)[7] == neighbour_seq(p, b)[0],
        neighbour_seq(p, b)[3] == neighbour_seq(p, b)[4],
        neighbour_seq(p, b)[5] == neighbour_seq(p, b)[4],
{
}

/// On a grid one cell high, the cells north and south of a cell are the cell
/// itself, and the three cells left of it (and the three right) are one cell
/// counted three times.
pub proof fn lemma_flat_grid_neighbours(b: Boundary, p: (int, int))
    requires
        b.valid(),
        b.contains(p),
        b.height == 1,
    ensures
        neighbour_seq(p, b)[0] == p,
        neighbour_seq(p, b)[4] == p,
        neighbour_seq(p, b)[1] == neighbour_seq(p, b)[2],
        neighbour_seq(p, b)[3] == neighbour_seq(p, b)[2],
        neighbour_seq(p, b)[5] == neighbour_seq(p, b)[6],
        neighbour_seq(p, b)[7] == neighbour_seq(p, b)[6],
{
}

/// A lone live cell on a grid one cell wide or high is counted among its own
/// neighbours at every place where it wraps onto itself: eight times on a grid
/// of one cell, twice on any other such grid.
pub proof fn lemma_lone_cell_counts_itself(b: Boundary, p: (int, int))
    requires
        b.valid(),
        b.contains(p),
        b.width == 1 || b.height == 1,
    ensures
        live_neighbours(set![p], b, p) == if b.width == 1 && b.height == 1 {
            8nat
        } else {
            2nat
        },
{
    lemma_live_neighbours_sum(set![p], b, p);
}

} // verus!
