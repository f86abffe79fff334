//! The mine field: where the mines are, and what a probe reveals.
use vstd::prelude::*;

use rand::Rng;

use crate::count::{grid_trues, lemma_grid_bound, lemma_grid_filled, lemma_grid_mono, lemma_grid_update, one_if, rows_of_len};
use crate::grid::{max_cells, bool_cells, bool_get, bool_grid, bool_set, filled, neighbour, neighbour_of, updated, Grid, Pos};

verus! {

/// What `probe` returns for a cell that holds a mine.
pub const DANGER_MINE: u8 = 10;

/// Whether a probe result says "mine".
pub fn is_mine(x: u8) -> (r: bool)
    ensures
        r == (x >= DANGER_MINE),
{
    x >= DANGER_MINE
}

#[verifier::external_type_specification]
#[verifier::external_body]
pub struct ExThreadRng(rand::rngs::ThreadRng);

/// Relies on rand::Rng::gen_range: a value drawn from `0..bound`; it panics on
/// an empty range.
#[verifier::external_body]
fn draw_below(rng: &mut rand::rngs::ThreadRng, bound: u32) -> (r: u32)
    requires
        bound > 0,
    ensures
        r < bound,
{
    rng.gen_range(0..bound)
}

/// The hidden ground truth: which cells hold a mine.
pub struct MineField {
    mines: Grid<bool>,
    n_rows: usize,
    n_cols: usize,
    n_mines: usize,
}

impl MineField {
    /// The mine flags, row by row.
    pub closed spec fn cells(&self) -> Seq<Seq<bool>> {
        bool_cells(self.mines)
    }

    pub closed spec fn rows(&self) -> nat {
        self.n_rows as nat
    }

    pub closed spec fn cols(&self) -> nat {
        self.n_cols as nat
    }

    /// The mine counter.
    pub closed spec fn mine_total(&self) -> nat {
        self.n_mines as nat
    }

    pub open spec fn wf(&self) -> bool {
        &&& self.rows() >= 1
        &&& self.cols() >= 1
        &&& self.rows() * self.cols() <= max_cells()
        &&& self.cells().len() == self.rows()
        &&& rows_of_len(self.cells(), self.cols())
        &&& self.mine_total() == grid_trues(self.cells())
    }

    /// Whether `p` lies in the field.
    pub open spec fn in_range(&self, p: Pos) -> bool {
        p.0 < self.rows() && p.1 < self.cols()
    }

    /// Whether `p` lies in the field and holds a mine.
    pub open spec fn mine_at(&self, p: Pos) -> bool {
        self.in_range(p) && self.cells()[p.0 as int][p.1 as int]
    }

    /// The number of mines among the neighbours of `p` in the first `n`
    /// directions.
    pub open spec fn mines_near(&self, p: Pos, n: int) -> nat
        decreases n,
    {
        if n <= 0 { 0 } else { self.mines_near(p, n - 1) + one_if(self.mine_at(neighbour(p, n - 1))) }
    }

    /// At most one mine per direction.
    pub proof fn lemma_mines_near_bound(&self, p: Pos, n: int)
        requires
            0 <= n,
        ensures
            self.mines_near(p, n) <= n,
        decreases n,
    {
        if n > 0 {
            self.lemma_mines_near_bound(p, n - 1);
        }
    }

    /// No cell holds a mine.
    pub open spec fn mine_free(&self) -> bool {
        forall|p: Pos| !#[trigger] self.mine_at(p)
    }

    /// Without mines every count is zero.
    pub proof fn lemma_mine_free_near(&self, p: Pos, n: int)
        requires
            self.mine_free(),
        ensures
            self.mines_near(p, n) == 0,
        decreases n,
    {
        if n > 0 {
            self.lemma_mine_free_near(p, n - 1);
            assert(!self.mine_at(neighbour(p, n - 1)));
        }
    }

    /// What `probe` reveals at `p`.
    pub open spec fn probe_spec(&self, p: Pos) -> u8 {
        if self.mine_at(p) { DANGER_MINE } else { self.mines_near(p, 8) as u8 }
    }

    /// A field of `n_rows` by `n_cols` cells without mines.
    pub fn new(n_rows: usize, n_cols: usize) -> (f: MineField)
        requires
            n_rows >= 1,
            n_cols >= 1,
            n_rows * n_cols <= max_cells(),
        ensures
            f.wf(),
            f.rows() == n_rows,
            f.cols() == n_cols,
            f.cells() == filled(n_rows, n_cols, false),
    {
        assert(n_rows <= n_rows * n_cols) by (nonlinear_arith)
            requires n_cols >= 1;
        assert(n_cols <= n_rows * n_cols) by (nonlinear_arith)
            requires n_rows >= 1;
        let mines = bool_grid(n_rows, n_cols, false);
        proof {
            lemma_grid_filled(n_rows, n_cols, false);
        }
        MineField { mines, n_rows, n_cols, n_mines: 0 }
    }

    pub fn n_rows(&self) -> (r: usize)
        ensures
            r == self.rows(),
    {
        self.n_rows
    }

    pub fn n_cols(&self) -> (r: usize)
        ensures
            r == self.cols(),
    {
        self.n_cols
    }

    /// The number of mines in the field.
    pub fn n_mines(&self) -> (r: usize)
        ensures
            r == self.mine_total(),
    {
        self.n_mines
    }

    /// Whether `p` lies in the field.
    pub fn is_active(&self, p: Pos) -> (r: bool)
        ensures
            r == self.in_range(p),
    {
        p.0 < self.n_rows && p.1 < self.n_cols
    }

    /// Whether `p` holds a mine; `false` outside the field.
    pub fn has_mine(&self, p: Pos) -> (r: bool)
        requires
            self.wf(),
        ensures
            r == self.mine_at(p),
    {
        match bool_get(&self.mines, p.0, p.1) {
            Some(m) => m,
            None => false,
        }
    }

    /// Puts a mine at `p`; the counter grows when the cell had none.
    pub fn place_mine(&mut self, p: Pos)
        requires
            old(self).wf(),
            old(self).in_range(p),
        ensures
            final(self).wf(),
            final(self).rows() == old(self).rows(),
            final(self).cols() == old(self).cols(),
            final(self).cells() == updated(old(self).cells(), p.0, p.1, true),
    {
        let had = self.has_mine(p);
        if !had {
            proof {
                lemma_grid_update(self.cells(), p.0, p.1, true);
                lemma_grid_bound(updated(self.cells(), p.0, p.1, true), self.n_rows, self.n_cols);
            }
            bool_set(&mut self.mines, p.0, p.1, true);
            self.n_mines = self.n_mines + 1;
        } else {
            assert(self.cells()[p.0 as int].update(p.1 as int, true) =~= self.cells()[p.0 as int]);
            assert(updated(self.cells(), p.0, p.1, true) =~= self.cells());
        }
    }

    /// A field laid out as `layout`, one row of flags per field row.
    pub fn from_layout(layout: &Vec<Vec<bool>>) -> (f: MineField)
        requires
            layout.len() >= 1,
            layout[0].len() >= 1,
            layout.len() * layout[0].len() <= max_cells(),
            forall|r: int| 0 <= r < layout.len() ==> #[trigger] layout[r].len() == layout[0].len(),
        ensures
            f.wf(),
            f.rows() == layout.len(),
            f.cols() == layout[0].len(),
            forall|r: int, c: int| 0 <= r < f.rows() && 0 <= c < f.cols()
                ==> f.cells()[r][c] == #[trigger] layout[r]@[c],
    {
        let n_rows = layout.len();
        let n_cols = layout[0].len();
        let mut f = MineField::new(n_rows, n_cols);
        let mut r: usize = 0;
        while r < n_rows
            invariant
                f.wf(),
                f.rows() == n_rows,
                f.cols() == n_cols,
                n_rows == layout.len(),
                n_cols == layout[0].len(),
                r <= n_rows,
                forall|i: int| 0 <= i < layout.len() ==> #[trigger] layout[i].len() == n_cols,
                forall|i: int, j: int| 0 <= i < n_rows && 0 <= j < n_cols
                    ==> #[trigger] f.cells()[i][j] == (i < r && layout[i]@[j]),
            decreases n_rows - r,
        {
            let mut c: usize = 0;
            while c < n_cols
                invariant
                    f.wf(),
                    f.rows() == n_rows,
                    f.cols() == n_cols,
                    n_rows == layout.len(),
                    r < n_rows,
                    c <= n_cols,
                    forall|i: int| 0 <= i < layout.len() ==> #[trigger] layout[i].len() == n_cols,
                    forall|i: int, j: int| 0 <= i < n_rows && 0 <= j < n_cols
                        ==> #[trigger] f.cells()[i][j] == ((i < r || (i == r && j < c)) && layout[i]@[j]),
                decreases n_cols - c,
            {
                assert(layout[r as int].len() == n_cols);
                if layout[r][c] {
                    f.place_mine((r, c));
                }
                c = c + 1;
            }
            r = r + 1;
        }
        f
    }

    /// Places a mine on each cell whose draw falls below `fill_num`; the draws
    /// are taken one per cell, row by row.
    pub fn place_by_draws(&mut self, draws: &Vec<u32>, fill_num: u32)
        requires
            old(self).wf(),
            draws.len() == old(self).rows() * old(self).cols(),
        ensures
            final(self).wf(),
            final(self).rows() == old(self).rows(),
            final(self).cols() == old(self).cols(),
            forall|r: int, c: int| 0 <= r < old(self).rows() && 0 <= c < old(self).cols()
                ==> #[trigger] final(self).cells()[r][c]
                    == (old(self).cells()[r][c] || draws@[r * old(self).cols() + c] < fill_num),
    {
        let ghost start = self.cells();
        let n_rows = self.n_rows;
        let n_cols = self.n_cols;
        let mut r: usize = 0;
        let mut k: usize = 0;
        while r < n_rows
            invariant
                self.wf(),
                self.rows() == n_rows,
                self.cols() == n_cols,
                start.len() == n_rows,
                rows_of_len(start, n_cols as nat),
                draws.len() == n_rows * n_cols,
                r <= n_rows,
                k == r * n_cols,
                forall|i: int, j: int| 0 <= i < n_rows && 0 <= j < n_cols
                    ==> #[trigger] self.cells()[i][j] == (start[i][j] || (i < r && draws@[i * n_cols + j] < fill_num)),
            decreases n_rows - r,
        {
            let mut c: usize = 0;
            while c < n_cols
                invariant
                    self.wf(),
                    self.rows() == n_rows,
                    self.cols() == n_cols,
                    start.len() == n_rows,
                    rows_of_len(start, n_cols as nat),
                    draws.len() == n_rows * n_cols,
                    r < n_rows,
                    c <= n_cols,
                    k == r * n_cols + c,
                    forall|i: int, j: int| 0 <= i < n_rows && 0 <= j < n_cols
                        ==> #[trigger] self.cells()[i][j] == (start[i][j]
                            || ((i < r || (i == r && j < c)) && draws@[i * n_cols + j] < fill_num)),
                decreases n_cols - c,
            {
                proof {
                    assert(r * n_cols + c < n_rows * n_cols) by (nonlinear_arith)
                        requires r < n_rows, c < n_cols;
                }
                if draws[k] < fill_num {
                    self.place_mine((r, c));
                }
                c = c + 1;
                k = k + 1;
            }
            proof {
                assert((r + 1) * n_cols == r * n_cols + n_cols) by (nonlinear_arith);
            }
            r = r + 1;
        }
    }

    /// Places a mine on each cell with probability `fill_num / fill_den`, one
    /// independent draw per cell. Which cells get one depends on the draws
    /// alone, as `place_by_draws` says.
    pub fn random_fill(&mut self, rng: &mut rand::rngs::ThreadRng, fill_num: u32, fill_den: u32)
        requires
            old(self).wf(),
            fill_den > 0,
            fill_num <= fill_den,
        ensures
            final(self).wf(),
            final(self).rows() == old(self).rows(),
            final(self).cols() == old(self).cols(),
            forall|r: int, c: int| 0 <= r < old(self).rows() && 0 <= c < old(self).cols()
                && #[trigger] old(self).cells()[r][c] ==> final(self).cells()[r][c],
            fill_num == fill_den ==> forall|r: int, c: int| 0 <= r < old(self).rows()
                && 0 <= c < old(self).cols() ==> #[trigger] final(self).cells()[r][c],
            fill_num == fill_den ==> final(self).mine_total() == old(self).rows() * old(self).cols(),
            fill_num == 0 ==> final(self).cells() == old(self).cells(),
    {
        let ghost start = self.cells();
        let n = self.n_rows * self.n_cols;
        let mut draws: Vec<u32> = Vec::new();
        let mut k: usize = 0;
        while k < n
            invariant
                k <= n,
                fill_den > 0,
                draws.len() == k,
                forall|i: int| 0 <= i < k ==> #[trigger] draws@[i] < fill_den,
            decreases n - k,
        {
            let d = draw_below(rng, fill_den);
            draws.push(d);
            k = k + 1;
        }
        self.place_by_draws(&draws, fill_num);
        proof {
            let n_rows = self.n_rows;
            let n_cols = self.n_cols;
            if fill_num == 0 {
                assert forall|r: int| 0 <= r < n_rows implies #[trigger] self.cells()[r] =~= start[r] by {
                    assert forall|c: int| 0 <= c < n_cols implies self.cells()[r][c] == start[r][c] by {
                        assert(self.cells()[r][c] == (start[r][c] || draws@[r * n_cols + c] < fill_num));
                    }
                }
                assert(self.cells() =~= start);
            }
            if fill_num == fill_den {
                let g = self.cells();
                let full = filled(n_rows, n_cols, true);
                assert forall|r: int, c: int| 0 <= r < full.len() && 0 <= c < full[r].len() && #[trigger] full[r][c]
                    implies g[r][c] by {
                    assert(0 <= r * n_cols + c < n_rows * n_cols) by (nonlinear_arith)
                        requires 0 <= r < n_rows, 0 <= c < n_cols;
                    assert(g[r][c] == (start[r][c] || draws@[r * n_cols + c] < fill_num));
                }
                assert forall|r: int, c: int| 0 <= r < n_rows && 0 <= c < n_cols implies #[trigger] g[r][c] by {
                    assert(0 <= r * n_cols + c < n_rows * n_cols) by (nonlinear_arith)
                        requires 0 <= r < n_rows, 0 <= c < n_cols;
                    assert(g[r][c] == (start[r][c] || draws@[r * n_cols + c] < fill_num));
                }
                lemma_grid_mono(full, g);
                lemma_grid_filled(n_rows, n_cols, true);
                lemma_grid_bound(g, n_rows, n_cols);
            }
        }
    }

    /// The mine sentinel for a mine at `p`, else the number of mines among the
    /// neighbours of `p`.
    pub fn probe(&self, p: Pos) -> (d: u8)
        requires
            self.wf(),
            self.in_range(p),
        ensures
            d == self.probe_spec(p),
    {
        if self.has_mine(p) {
            return DANGER_MINE;
        }
        let mut count: u8 = 0;
        let mut i: usize = 0;
        while i < 8
            invariant
                self.wf(),
                i <= 8,
                count == self.mines_near(p, i as int),
                count <= i,
            decreases 8 - i,
        {
            let q = neighbour_of(p, i);
            if self.has_mine(q) {
                count = count + 1;
            }
            i = i + 1;
        }
        count
    }
}

} // verus!
