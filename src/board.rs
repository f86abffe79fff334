//! The player's view: what an outside observer sees of each cell.
use vstd::prelude::*;

use crate::grid::{max_cells, filled, state_cells, state_get, state_grid, state_set, updated, Grid, Pos};

verus! {

/// What the player sees of a cell.
#[derive(Clone, Copy, Debug, PartialEq, Eq, Structural)]
pub enum CellState {
    Unknown,
    /// Marked as holding a mine.
    Marked,
    /// Cleared.
    Free,
}

/// Per cell, whether it is in state `s`.
pub open spec fn cells_in(states: Seq<Seq<CellState>>, s: CellState) -> Seq<Seq<bool>> {
    states.map_values(|row: Seq<CellState>| row.map_values(|x: CellState| x == s))
}

/// Changing one state changes the per-cell test for `s` at that cell only.
pub proof fn lemma_cells_in_update(states: Seq<Seq<CellState>>, r: usize, c: usize, v: CellState, s: CellState)
    requires
        r < states.len(),
        c < states[r as int].len(),
    ensures
        cells_in(updated(states, r, c, v), s) == updated(cells_in(states, s), r, c, v == s),
{
    let a = cells_in(updated(states, r, c, v), s);
    let b = updated(cells_in(states, s), r, c, v == s);
    assert forall|i: int| 0 <= i < a.len() implies a[i] =~= b[i] by {
        if i == r {
            assert(a[i] =~= states[i].update(c as int, v).map_values(|x: CellState| x == s));
        }
    }
    assert(a =~= b);
}

/// The states of all cells as the player sees them.
pub struct PlayerView {
    cells: Grid<CellState>,
    n_rows: usize,
    n_cols: usize,
}

impl PlayerView {
    pub closed spec fn states(&self) -> Seq<Seq<CellState>> {
        state_cells(self.cells)
    }

    pub closed spec fn rows(&self) -> nat {
        self.n_rows as nat
    }

    pub closed spec fn cols(&self) -> nat {
        self.n_cols as nat
    }

    pub open spec fn wf(&self) -> bool {
        &&& self.states().len() == self.rows()
        &&& forall|r: int| 0 <= r < self.rows() ==> #[trigger] self.states()[r].len() == self.cols()
    }

    pub open spec fn in_range(&self, p: Pos) -> bool {
        p.0 < self.rows() && p.1 < self.cols()
    }

    /// The state at `p`, for `p` in range.
    pub open spec fn at(&self, p: Pos) -> CellState {
        self.states()[p.0 as int][p.1 as int]
    }

    /// A view of `n_rows` by `n_cols` unknown cells.
    pub fn new(n_rows: usize, n_cols: usize) -> (b: PlayerView)
        requires
            n_rows <= max_cells(),
            n_cols <= max_cells(),
            n_rows * n_cols <= max_cells(),
        ensures
            b.wf(),
            b.rows() == n_rows,
            b.cols() == n_cols,
            b.states() == filled(n_rows, n_cols, CellState::Unknown),
    {
        PlayerView { cells: state_grid(n_rows, n_cols, CellState::Unknown), n_rows, n_cols }
    }

    /// The state at `p`, or `None` outside the view.
    pub fn get(&self, p: Pos) -> (s: Option<CellState>)
        requires
            self.wf(),
        ensures
            s == (if self.in_range(p) { Some(self.at(p)) } else { None }),
    {
        state_get(&self.cells, p.0, p.1)
    }

    /// Marks the unknown cell `p` as holding a mine.
    pub fn mark(&mut self, p: Pos)
        requires
            old(self).wf(),
            old(self).in_range(p),
            old(self).at(p) == CellState::Unknown,
        ensures
            final(self).wf(),
            final(self).rows() == old(self).rows(),
            final(self).cols() == old(self).cols(),
            final(self).states() == updated(old(self).states(), p.0, p.1, CellState::Marked),
    {
        state_set(&mut self.cells, p.0, p.1, CellState::Marked);
    }

    /// Clears the unknown cell `p`.
    pub fn clear(&mut self, p: Pos)
        requires
            old(self).wf(),
            old(self).in_range(p),
            old(self).at(p) == CellState::Unknown,
        ensures
            final(self).wf(),
            final(self).rows() == old(self).rows(),
            final(self).cols() == old(self).cols(),
            final(self).states() == updated(old(self).states(), p.0, p.1, CellState::Free),
    {
        state_set(&mut self.cells, p.0, p.1, CellState::Free);
    }
}

} // verus!
