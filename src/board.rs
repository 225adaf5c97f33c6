//! The simulation: a sparse set of live cells on a toroidal grid.

use crate::topology::{lemma_neighbours_symmetric, neighbour_seq, Boundary, Position};
use rand::Rng;
use std::collections::HashSet;
use vstd::arithmetic::div_mod::{
    lemma_fundamental_div_mod_converse_div, lemma_fundamental_div_mod_converse_mod,
};
use vstd::prelude::*;
use vstd::std_specs::iter::IteratorSpec;
use vstd::string::StringExecFns;

verus! {

broadcast use vstd::std_specs::hash::group_hash_axioms;

/// Why a board cannot be built.
#[derive(Debug, Clone, Copy, PartialEq, Eq, Structural)]
pub enum BoardError {
    /// A side of the grid is zero cells long, or the rows of a pattern differ in length.
    InvalidDimensions,
}

/// A grid of cells, alive or dead, that advances one generation at a time.
///
/// The live cells are kept as a set of keys, `y * width + x` for the cell `(x, y)`.
#[derive(Debug)]
pub struct Board {
    boundary: Boundary,
    alive_cells: HashSet<usize>,
}

/// The key that stands for the cell `p`.
pub open spec fn key(p: (int, int), b: Boundary) -> int {
    p.1 * b.width + p.0
}

/// The cell that the key `k` stands for.
pub open spec fn cell_of(k: int, b: Boundary) -> (int, int) {
    (k % (b.width as int), k / (b.width as int))
}

/// How many cells of `s` are in `cells`, counting each place of `s`.
pub open spec fn occurrences(s: Seq<(int, int)>, cells: Set<(int, int)>) -> nat
    decreases s.len(),
{
    if s.len() == 0 {
        0
    } else {
        occurrences(s.drop_last(), cells) + if cells.contains(s.last()) {
            1nat
        } else {
            0nat
        }
    }
}

/// How many of the eight neighbours of `p` are alive.
pub open spec fn live_neighbours(cells: Set<(int, int)>, b: Boundary, p: (int, int)) -> nat {
    occurrences(neighbour_seq(p, b), cells)
}

/// Whether `p` is alive in the next generation: a live cell with two or three live
/// neighbours survives, a dead cell with exactly three comes to life.
pub open spec fn alive_next(cells: Set<(int, int)>, b: Boundary, p: (int, int)) -> bool {
    if cells.contains(p) {
        live_neighbours(cells, b, p) == 2 || live_neighbours(cells, b, p) == 3
    } else {
        live_neighbours(cells, b, p) == 3
    }
}

/// The live cells of the generation after `cells`.
pub open spec fn next_cells(cells: Set<(int, int)>, b: Boundary) -> Set<(int, int)> {
    Set::new(|p: (int, int)| b.contains(p) && alive_next(cells, b, p))
}

/// What a live cell looks like when the board is rendered.
pub const ALIVE_GLYPH: &'static str = "\u{1f47e}";

/// What a dead cell looks like when the board is rendered.
pub const DEAD_GLYPH: &'static str = "\u{2b1b}\u{fe0f}";

/// The glyph of a cell.
pub open spec fn glyph(alive: bool) -> Seq<char> {
    if alive {
        ALIVE_GLYPH@
    } else {
        DEAD_GLYPH@
    }
}

/// The first `n` glyphs of row `y`.
pub open spec fn render_row(cells: Set<(int, int)>, y: int, n: nat) -> Seq<char>
    decreases n,
{
    if n == 0 {
        Seq::empty()
    } else {
        render_row(cells, y, (n - 1) as nat) + glyph(cells.contains((n - 1, y)))
    }
}

/// The first `m` rows of the picture, each ended by a line break.
pub open spec fn render_rows(cells: Set<(int, int)>, b: Boundary, m: nat) -> Seq<char>
    decreases m,
{
    if m == 0 {
        Seq::empty()
    } else {
        render_rows(cells, b, (m - 1) as nat) + render_row(cells, m - 1, b.width as nat) + seq!['\n']
    }
}

/// The picture of the whole board: one line per row, top to bottom, one glyph
/// per cell, left to right.
pub open spec fn render(cells: Set<(int, int)>, b: Boundary) -> Seq<char> {
    render_rows(cells, b, b.height as nat)
}

/// A pattern is a non-empty rectangle: at least one row, every row as long as
/// the first, and the first not empty.
pub open spec fn is_rectangular(grid: Seq<Vec<u8>>) -> bool {
    &&& grid.len() > 0
    &&& grid[0]@.len() > 0
    &&& forall|i: int| 0 <= i < grid.len() ==> #[trigger] grid[i]@.len() == grid[0]@.len()
}

/// The size of a rectangular pattern: as wide as its rows, as high as their number.
pub open spec fn pattern_dims(grid: Seq<Vec<u8>>) -> Boundary {
    Boundary { width: grid[0]@.len() as usize, height: grid.len() as usize }
}

/// The cells that a pattern marks alive: those whose entry is not zero.
pub open spec fn pattern_cells(grid: Seq<Vec<u8>>) -> Set<(int, int)> {
    Set::new(|p: (int, int)| pattern_dims(grid).contains(p) && grid[p.1]@[p.0] != 0)
}

/// Draws for seeding a board are taken from `0..DRAW_RANGE`.
pub const DRAW_RANGE: u8 = 100;

/// A draw of at least this much makes a cell alive, which happens with chance
/// (DRAW_RANGE - ALIVE_FROM) / DRAW_RANGE, that is one in five.
pub const ALIVE_FROM: u8 = 80;

/// The cells that a sequence of draws, one per key of the grid, marks alive.
pub open spec fn seeded_cells(draws: Seq<u8>, b: Boundary) -> Set<(int, int)> {
    Set::new(|p: (int, int)| b.contains(p) && draws[key(p, b)] >= ALIVE_FROM)
}

/// Relies on rand::thread_rng and rand::Rng::gen_range: a value drawn uniformly
/// from `0..bound`, which panics only on an empty range.
#[verifier::external_body]
fn random_below(bound: u8) -> (r: u8)
    requires
        bound > 0,
    ensures
        r < bound,
{
    rand::thread_rng().gen_range(0..bound)
}

proof fn lemma_key_of_cell(p: (int, int), b: Boundary)
    requires
        b.valid(),
        b.contains(p),
    ensures
        0 <= key(p, b) < b.width * b.height,
        cell_of(key(p, b), b) == p,
{
    assert(0 <= key(p, b) < b.width * b.height) by (nonlinear_arith)
        requires
            0 <= p.0 < b.width,
            0 <= p.1 < b.height,
            key(p, b) == p.1 * b.width + p.0,
    ;
    lemma_fundamental_div_mod_converse_mod(key(p, b), b.width as int, p.1, p.0);
    lemma_fundamental_div_mod_converse_div(key(p, b), b.width as int, p.1, p.0);
}

proof fn lemma_cell_of_key(k: int, b: Boundary)
    requires
        b.valid(),
        0 <= k < b.width * b.height,
    ensures
        b.contains(cell_of(k, b)),
        key(cell_of(k, b), b) == k,
{
    let w = b.width as int;
    let h = b.height as int;
    assert(0 <= k / w < h && 0 <= k % w < w && k == (k / w) * w + k % w) by (nonlinear_arith)
        requires
            w >= 1,
            0 <= k < w * h,
    {
        vstd::arithmetic::div_mod::lemma_fundamental_div_mod(k, w);
        vstd::arithmetic::div_mod::lemma_div_pos_is_pos(k, w);
        vstd::arithmetic::div_mod::lemma_mod_pos_bound(k, w);
        vstd::arithmetic::div_mod::lemma_div_by_multiple_is_strongly_ordered(k, w * h, h, w);
    };
}

proof fn lemma_occurrence_witness(s: Seq<(int, int)>, cells: Set<(int, int)>)
    requires
        occurrences(s, cells) > 0,
    ensures
        exists|i: int| 0 <= i < s.len() && cells.contains(#[trigger] s[i]),
    decreases s.len(),
{
    if !cells.contains(s.last()) {
        lemma_occurrence_witness(s.drop_last(), cells);
        let i = choose|i: int| 0 <= i < s.len() - 1 && cells.contains(#[trigger] s.drop_last()[i]);
        assert(s[i] == s.drop_last()[i]);
    }
}

impl Board {
    /// The grid's size.
    pub closed spec fn dims(&self) -> Boundary {
        self.boundary
    }

    /// The live cells.
    pub closed spec fn cells(&self) -> Set<(int, int)> {
        Set::new(|p: (int, int)| self.boundary.contains(p) && self.alive_cells@.contains(key(p, self.boundary) as usize))
    }

    /// The grid is valid and every key stands for a cell on it.
    pub closed spec fn wf(&self) -> bool {
        &&& self.boundary.valid()
        &&& forall|k: usize| #[trigger] self.alive_cells@.contains(k) ==> k < self.boundary.width * self.boundary.height
    }

    /// Every live cell of a well-formed board lies on its grid.
    pub proof fn lemma_cells_on_grid(&self)
        requires
            self.wf(),
        ensures
            forall|p: (int, int)| #[trigger] self.cells().contains(p) ==>
                0 <= p.0 < self.dims().width && 0 <= p.1 < self.dims().height,
    {
    }

    /// An empty board of the given size; a side of length zero is refused.
    pub fn new(boundary: Boundary) -> (r: Result<Board, BoardError>)
        requires
            boundary.width * boundary.height <= usize::MAX,
        ensures
            r is Err <==> (boundary.width == 0 || boundary.height == 0),
            r is Err ==> r == Err::<Board, BoardError>(BoardError::InvalidDimensions),
            r is Ok ==> r->Ok_0.wf() && r->Ok_0.dims() == boundary && r->Ok_0.cells() == Set::<(int, int)>::empty(),
    {
        if boundary.width == 0 || boundary.height == 0 {
            return Err(BoardError::InvalidDimensions);
        }
        let board = Board { boundary, alive_cells: HashSet::new() };
        assert(board.cells() =~= Set::<(int, int)>::empty());
        Ok(board)
    }

    /// The key of a cell on the grid.
    fn key_of(&self, p: &Position) -> (r: usize)
        requires
            self.wf(),
            self.boundary.contains(p@),
        ensures
            r == key(p@, self.boundary),
            r < self.boundary.width * self.boundary.height,
            cell_of(r as int, self.boundary) == p@,
    {
        proof {
            lemma_key_of_cell(p@, self.boundary);
        }
        p.y * self.boundary.width + p.x
    }

    /// The cell that a key of the grid stands for.
    fn position_of(&self, k: usize) -> (r: Position)
        requires
            self.wf(),
            k < self.boundary.width * self.boundary.height,
        ensures
            r@ == cell_of(k as int, self.boundary),
            self.boundary.contains(r@),
            key(r@, self.boundary) == k,
    {
        proof {
            lemma_cell_of_key(k as int, self.boundary);
        }
        Position { x: k % self.boundary.width, y: k / self.boundary.width }
    }

    /// The eight neighbours of `p`, clockwise from the one above it.
    pub fn neighbours(&self, p: &Position) -> (r: [Position; 8])
        requires
            self.wf(),
            self.dims().contains(p@),
        ensures
            r@.map_values(|q: Position| q@) == neighbour_seq(p@, self.dims()),
    {
        let b = &self.boundary;
        let r = [
            p.top(b),
            p.top(b).right(b),
            p.right(b),
            p.down(b).right(b),
            p.down(b),
            p.down(b).left(b),
            p.left(b),
            p.top(b).left(b),
        ];
        assert(r@.map_values(|q: Position| q@) =~= neighbour_seq(p@, self.dims()));
        r
    }

    /// How many of the eight neighbours of `p` are alive; a cell that appears
    /// at several of the eight places is counted at each.
    pub fn count_alive_neighbours(&self, p: &Position) -> (r: u8)
        requires
            self.wf(),
            self.dims().contains(p@),
        ensures
            r == live_neighbours(self.cells(), self.dims(), p@),
    {
        let ns = self.neighbours(p);
        let ghost s = neighbour_seq(p@, self.boundary);
        proof {
            lemma_neighbours_symmetric(p@, self.boundary);
        }
        let mut count: u8 = 0;
        let mut i: usize = 0;
        while i < 8
            invariant
                self.wf(),
                i <= 8,
                ns@.map_values(|q: Position| q@) == s,
                s == neighbour_seq(p@, self.boundary),
                forall|j: int| 0 <= j < 8 ==> self.boundary.contains(#[trigger] s[j]),
                count == occurrences(s.take(i as int), self.cells()),
                count <= i,
            decreases 8 - i,
        {
            assert(s.take(i as int + 1).drop_last() =~= s.take(i as int));
            assert(ns[i as int]@ == s[i as int]);
            let k = self.key_of(&ns[i]);
            if self.alive_cells.contains(&k) {
                count = count + 1;
            }
            i = i + 1;
        }
        assert(s.take(8) =~= s);
        count
    }

    /// Advances the board by one generation: every cell is decided from the
    /// generation before, and the new generation replaces it as a whole.
    pub fn next_gen(&mut self)
        requires
            old(self).wf(),
        ensures
            final(self).wf(),
            final(self).dims() == old(self).dims(),
            final(self).cells() == next_cells(old(self).cells(), old(self).dims()),
    {
        let b = self.boundary;
        let ghost cells = self.cells();
        let ghost area = b.width * b.height;
        let mut all_neighbours: HashSet<usize> = HashSet::new();
        let mut next: HashSet<usize> = HashSet::new();
        let alive_iter = self.alive_cells.iter();
        let ghost keys = alive_iter.remaining();
        for k in it: alive_iter
            invariant
                it.seq() == keys,
                self.wf(),
                self.boundary == b,
                area == b.width * b.height,
                cells == self.cells(),
                it.seq().unref().to_set() == self.alive_cells@,
                forall|c: usize| #[trigger] all_neighbours@.contains(c) ==> c < area,
                forall|c: usize| #[trigger] next@.contains(c) ==> self.alive_cells@.contains(c)
                    && alive_next(cells, b, cell_of(c as int, b)),
                forall|j: int, i: int| 0 <= j < it.index() && 0 <= i < 8 ==>
                    all_neighbours@.contains(key(#[trigger] neighbour_seq(cell_of(*keys[j] as int, b), b)[i], b) as usize),
                forall|j: int| 0 <= j < it.index() && alive_next(cells, b, cell_of(*keys[j] as int, b))
                    ==> next@.contains(*keys[j]),
        {
            assert(it.seq().unref()[it.index()] == *k);
            assert(self.alive_cells@.contains(*k));
            let p = self.position_of(*k);
            let ns = self.neighbours(&p);
            proof {
                lemma_neighbours_symmetric(p@, b);
            }
            let mut i: usize = 0;
            while i < 8
                invariant
                    self.wf(),
                    self.boundary == b,
                    i <= 8,
                    area == b.width * b.height,
                    b.contains(p@),
                    ns@.map_values(|q: Position| q@) == neighbour_seq(p@, b),
                    forall|j: int| 0 <= j < 8 ==> b.contains(#[trigger] neighbour_seq(p@, b)[j]),
                    forall|c: usize| #[trigger] all_neighbours@.contains(c) ==> c < area,
                    forall|j: int| 0 <= j < i ==> all_neighbours@.contains(key(#[trigger] neighbour_seq(p@, b)[j], b) as usize),
                    forall|j: int, i: int| 0 <= j < it.index() && 0 <= i < 8 ==>
                        all_neighbours@.contains(key(#[trigger] neighbour_seq(cell_of(*keys[j] as int, b), b)[i], b) as usize),
                decreases 8 - i,
            {
                assert(ns[i as int]@ == neighbour_seq(p@, b)[i as int]);
                all_neighbours.insert(self.key_of(&ns[i]));
                i = i + 1;
            }
            let n = self.count_alive_neighbours(&p);
            if n == 2 || n == 3 {
                next.insert(*k);
            }
        }
        proof {
            assert forall|c: usize| #[trigger] self.alive_cells@.contains(c) implies
                (next@.contains(c) <==> alive_next(cells, b, cell_of(c as int, b))) by {
                assert(keys.unref().to_set().contains(c));
                let j = choose|j: int| 0 <= j < keys.len() && keys.unref()[j] == c;
                assert(*keys[j] == c);
            }
        }
        let cand_iter = all_neighbours.iter();
        let ghost cands = cand_iter.remaining();
        for c in it: cand_iter
            invariant
                it.seq() == cands,
                cands.unref().to_set() == all_neighbours@,
                self.wf(),
                self.boundary == b,
                area == b.width * b.height,
                cells == self.cells(),
                forall|c: usize| #[trigger] all_neighbours@.contains(c) ==> c < area,
                forall|c: usize| #[trigger] next@.contains(c) ==> c < area
                    && alive_next(cells, b, cell_of(c as int, b)),
                forall|c: usize| #[trigger] self.alive_cells@.contains(c) ==>
                    (next@.contains(c) <==> alive_next(cells, b, cell_of(c as int, b))),
                forall|j: int| 0 <= j < it.index() && alive_next(cells, b, cell_of(*cands[j] as int, b))
                    ==> next@.contains(#[trigger] *cands[j]),
        {
            assert(cands.unref()[it.index()] == *c);
            assert(all_neighbours@.contains(*c));
            if !self.alive_cells.contains(c) {
                let p = self.position_of(*c);
                if self.count_alive_neighbours(&p) == 3 {
                    next.insert(*c);
                }
            }
        }
        proof {
            assert forall|c: usize| c < area && #[trigger] alive_next(cells, b, cell_of(c as int, b))
                implies next@.contains(c) by {
                if !self.alive_cells@.contains(c) {
                    let p = cell_of(c as int, b);
                    lemma_cell_of_key(c as int, b);
                    assert(!cells.contains(p));
                    lemma_occurrence_witness(neighbour_seq(p, b), cells);
                    let i = choose|i: int| 0 <= i < 8 && cells.contains(neighbour_seq(p, b)[i]);
                    let q = neighbour_seq(p, b)[i];
                    lemma_neighbours_symmetric(p, b);
                    lemma_neighbours_symmetric(q, b);
                    lemma_key_of_cell(q, b);
                    let kq = key(q, b) as usize;
                    assert(self.alive_cells@.contains(kq));
                    assert(keys.unref().to_set().contains(kq));
                    let j = choose|j: int| 0 <= j < keys.len() && keys.unref()[j] == kq;
                    assert(*keys[j] == kq);
                    let i2 = choose|i2: int| 0 <= i2 < 8 && neighbour_seq(q, b)[i2] == p;
                    assert(all_neighbours@.contains(key(neighbour_seq(cell_of(*keys[j] as int, b), b)[i2], b) as usize));
                    assert(all_neighbours@.contains(c));
                    assert(cands.unref().to_set().contains(c));
                    let j2 = choose|j2: int| 0 <= j2 < cands.len() && cands.unref()[j2] == c;
                    assert(*cands[j2] == c);
                }
            }
        }
        self.alive_cells = next;
        proof {
            assert forall|p: (int, int)| #[trigger] self.cells().contains(p) <==> next_cells(cells, b).contains(p) by {
                if b.contains(p) {
                    lemma_key_of_cell(p, b);
                }
            }
            assert(self.cells() =~= next_cells(cells, b));
        }
    }

    /// The board as text: one line per row, top to bottom, one glyph per cell.
    pub fn pretty(&self) -> (r: String)
        requires
            self.wf(),
        ensures
            r@ == render(self.cells(), self.dims()),
    {
        let b = &self.boundary;
        let mut out = String::new();
        let mut y: usize = 0;
        while y < b.height
            invariant
                self.wf(),
                *b == self.boundary,
                y <= b.height,
                out@ == render_rows(self.cells(), *b, y as nat),
            decreases b.height - y,
        {
            let ghost before = out@;
            let mut x: usize = 0;
            while x < b.width
                invariant
                    self.wf(),
                    *b == self.boundary,
                    y < b.height,
                    x <= b.width,
                    out@ == before + render_row(self.cells(), y as int, x as nat),
                decreases b.width - x,
            {
                let k = self.key_of(&Position { x, y });
                proof {
                    lemma_key_of_cell((x as int, y as int), *b);
                }
                if self.alive_cells.contains(&k) {
                    out.append(ALIVE_GLYPH);
                } else {
                    out.append(DEAD_GLYPH);
                }
                proof {
                    assert(out@ =~= before + render_row(self.cells(), y as int, (x + 1) as nat));
                }
                x = x + 1;
            }
            out.append("\n");
            proof {
                reveal_strlit("\n");
                assert(out@ =~= render_rows(self.cells(), *b, (y + 1) as nat));
            }
            y = y + 1;
        }
        out
    }

    /// A board as wide as the pattern's rows and as high as their number, on
    /// which a cell is alive where the pattern holds anything but zero.
    /// A pattern that is not a non-empty rectangle is refused.
    pub fn load(grid: &Vec<Vec<u8>>) -> (r: Result<Board, BoardError>)
        requires
            forall|i: int| 0 <= i < grid.len() ==> grid.len() * #[trigger] grid[i]@.len() <= usize::MAX,
        ensures
            r is Err <==> !is_rectangular(grid@),
            r is Err ==> r == Err::<Board, BoardError>(BoardError::InvalidDimensions),
            r is Ok ==> r->Ok_0.wf() && r->Ok_0.dims() == pattern_dims(grid@)
                && r->Ok_0.cells() == pattern_cells(grid@),
    {
        if grid.len() == 0 || grid[0].len() == 0 {
            return Err(BoardError::InvalidDimensions);
        }
        let width = grid[0].len();
        let mut i: usize = 0;
        while i < grid.len()
            invariant
                i <= grid.len(),
                width == grid[0]@.len(),
                forall|j: int| 0 <= j < i ==> #[trigger] grid[j]@.len() == width,
            decreases grid.len() - i,
        {
            if grid[i].len() != width {
                return Err(BoardError::InvalidDimensions);
            }
            i = i + 1;
        }
        let boundary = Boundary { width, height: grid.len() };
        assert(boundary.width * boundary.height <= usize::MAX) by (nonlinear_arith)
            requires
                grid.len() * grid[0]@.len() <= usize::MAX,
                boundary.width == grid[0]@.len(),
                boundary.height == grid.len(),
        ;
        let mut board = Board { boundary, alive_cells: HashSet::new() };
        let mut y: usize = 0;
        while y < boundary.height
            invariant
                board.boundary == boundary,
                board.wf(),
                boundary.valid(),
                boundary == pattern_dims(grid@),
                is_rectangular(grid@),
                y <= boundary.height,
                forall|k: usize| #[trigger] board.alive_cells@.contains(k) ==> k < y * boundary.width,
                forall|p: (int, int)| boundary.contains(p) && p.1 < y ==>
                    (board.alive_cells@.contains(#[trigger] key(p, boundary) as usize) <==> grid@[p.1]@[p.0] != 0),
            decreases boundary.height - y,
        {
            let mut x: usize = 0;
            while x < boundary.width
                invariant
                    board.boundary == boundary,
                    board.wf(),
                    boundary.valid(),
                    boundary == pattern_dims(grid@),
                    is_rectangular(grid@),
                    y < boundary.height,
                    x <= boundary.width,
                    forall|k: usize| #[trigger] board.alive_cells@.contains(k) ==> k < y * boundary.width + x,
                    forall|p: (int, int)| boundary.contains(p) && (p.1 < y || (p.1 == y && p.0 < x)) ==>
                        (board.alive_cells@.contains(#[trigger] key(p, boundary) as usize) <==> grid@[p.1]@[p.0] != 0),
                decreases boundary.width - x,
            {
                let here = Position { x, y };
                let k = board.key_of(&here);
                if grid[y][x] != 0 {
                    board.alive_cells.insert(k);
                }
                proof {
                    assert forall|p: (int, int)| boundary.contains(p) && (p.1 < y || (p.1 == y && p.0 < x + 1)) implies
                        (board.alive_cells@.contains(#[trigger] key(p, boundary) as usize) <==> grid@[p.1]@[p.0] != 0) by {
                        lemma_key_of_cell(p, boundary);
                        lemma_key_of_cell(here@, boundary);
                        if p != here@ {
                            assert(key(p, boundary) < k) by (nonlinear_arith)
                                requires
                                    p.1 < y || (p.1 == y && p.0 < x),
                                    0 <= p.0 < boundary.width,
                                    k == y * boundary.width + x,
                                    key(p, boundary) == p.1 * boundary.width + p.0,
                            ;
                        }
                    }
                }
                x = x + 1;
            }
            assert((y + 1) * boundary.width == y * boundary.width + boundary.width) by (nonlinear_arith);
            y = y + 1;
        }
        proof {
            assert forall|p: (int, int)| #[trigger] board.cells().contains(p) <==> pattern_cells(grid@).contains(p) by {
                if boundary.contains(p) {
                    lemma_key_of_cell(p, boundary);
                }
            }
            assert(board.cells() =~= pattern_cells(grid@));
        }
        Ok(board)
    }

    /// Replaces the live cells by those that `draws` marks: the cell with key
    /// `k` is alive where `draws[k]` is at least `ALIVE_FROM`.
    pub fn randomize_with(&mut self, draws: &Vec<u8>)
        requires
            old(self).wf(),
            draws@.len() == old(self).dims().width * old(self).dims().height,
        ensures
            final(self).wf(),
            final(self).dims() == old(self).dims(),
            final(self).cells() == seeded_cells(draws@, old(self).dims()),
    {
        let b = self.boundary;
        let area = b.width * b.height;
        let mut alive: HashSet<usize> = HashSet::new();
        let mut k: usize = 0;
        while k < area
            invariant
                b.valid(),
                area == b.width * b.height,
                draws@.len() == area,
                k <= area,
                forall|c: usize| #[trigger] alive@.contains(c) <==> c < k && draws@[c as int] >= ALIVE_FROM,
            decreases area - k,
        {
            if draws[k] >= ALIVE_FROM {
                alive.insert(k);
            }
            k = k + 1;
        }
        self.alive_cells = alive;
        proof {
            assert forall|p: (int, int)| #[trigger] self.cells().contains(p) <==> seeded_cells(draws@, b).contains(p) by {
                if b.contains(p) {
                    lemma_key_of_cell(p, b);
                }
            }
            assert(self.cells() =~= seeded_cells(draws@, b));
        }
    }

    /// Replaces the live cells by a random choice: each cell of the grid is
    /// alive, independently, with chance one in five.
    pub fn randomize(&mut self)
        requires
            old(self).wf(),
        ensures
            final(self).wf(),
            final(self).dims() == old(self).dims(),
            exists|draws: Seq<u8>|
                draws.len() == old(self).dims().width * old(self).dims().height
                && (forall|i: int| 0 <= i < draws.len() ==> #[trigger] draws[i] < DRAW_RANGE)
                && final(self).cells() == seeded_cells(draws, old(self).dims()),
    {
        let area = self.boundary.width * self.boundary.height;
        let mut draws: Vec<u8> = Vec::new();
        let mut k: usize = 0;
        while k < area
            invariant
                k <= area,
                draws@.len() == k,
                forall|i: int| 0 <= i < k ==> #[trigger] draws@[i] < DRAW_RANGE,
            decreases area - k,
        {
            draws.push(random_below(DRAW_RANGE));
            k = k + 1;
        }
        self.randomize_with(&draws);
    }
}

} // verus!
