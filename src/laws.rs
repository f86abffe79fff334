//! Properties of every reachable game state.
use vstd::prelude::*;

use crate::board::{cells_in, CellState};
use crate::count::{grid_trues, lemma_grid_mono, lemma_grid_none, lemma_grid_update};
use crate::decide::{target, Action};
use crate::engine::{is_done, shown, Engine};
use crate::grid::{updated, Pos};
use crate::propagate::sound_at;

verus! {

/// Every frontier cell lies in the grid and holds an estimate or is known to
/// be free; none is unknown, cleared or a mine.
pub proof fn lemma_frontier_sound(e: &Engine)
    requires
        e.inv(),
    ensures
        forall|q: Pos| #[trigger] e.front_of().has(q) ==> e.know_of().in_range(q)
            && (e.know_of().at(q) is Estimate || e.know_of().at(q) is ShouldFree),
{
}

/// No more cells are marked than the field holds mines, every marked cell
/// holds one, and once no cell is left unresolved every cell without a mine
/// is cleared.
pub proof fn lemma_conservation(e: &Engine)
    requires
        e.inv(),
    ensures
        e.marks() <= e.field_of().mine_total(),
        forall|p: Pos| #[trigger] e.field_of().in_range(p) && e.board_of().at(p) == CellState::Marked
            ==> e.field_of().mine_at(p),
        e.left() == 0 ==> forall|p: Pos| #[trigger] e.field_of().in_range(p) && !e.field_of().mine_at(p)
            ==> e.board_of().at(p) == CellState::Free,
{
    let field = e.field_of();
    let board = e.board_of();
    let know = e.know_of();
    assert forall|p: Pos| #[trigger] field.in_range(p) && board.at(p) == CellState::Marked
        implies field.mine_at(p) by {
        assert(know.in_range(p));
        assert(board.at(p) == shown(know.at(p)));
        assert(sound_at(&field, know.at(p), p));
    }
    let a = cells_in(board.states(), CellState::Marked);
    let b = field.cells();
    assert(field.rows() <= field.rows() * field.cols()) by (nonlinear_arith)
        requires field.cols() >= 1;
    assert(field.cols() <= field.rows() * field.cols()) by (nonlinear_arith)
        requires field.rows() >= 1;
    assert forall|r: int, c: int| 0 <= r < a.len() && 0 <= c < a[r].len() && #[trigger] a[r][c]
        implies b[r][c] by {
        let p = (r as usize, c as usize);
        assert(board.states()[r].len() == board.cols());
        assert(a[r] == board.states()[r].map_values(|x: CellState| x == CellState::Marked));
        assert(a[r][c] == (board.states()[r][c] == CellState::Marked));
        assert(field.in_range(p));
        assert(board.at(p) == CellState::Marked);
    }
    assert forall|r: int| 0 <= r < a.len() implies (#[trigger] a[r]).len() == b[r].len() by {
        assert(board.states()[r].len() == board.cols());
    }
    lemma_grid_mono(a, b);
    if e.left() == 0 {
        let u = cells_in(board.states(), CellState::Unknown);
        lemma_grid_none(u);
        assert forall|p: Pos| #[trigger] field.in_range(p) && !field.mine_at(p)
            implies board.at(p) == CellState::Free by {
            assert(board.states()[p.0 as int].len() == board.cols());
            assert(!u[p.0 as int][p.1 as int]);
            assert(know.in_range(p));
            assert(board.at(p) == shown(know.at(p)));
        }
    }
}

/// The number of marks among the first `n` actions.
pub open spec fn mark_count(acts: Seq<Action>, n: int) -> nat
    decreases n,
{
    if n <= 0 {
        0
    } else {
        mark_count(acts, n - 1) + if acts[n - 1] is Mark { 1nat } else { 0nat }
    }
}

/// `base` with the targets of the marks among the first `n` actions set.
proof fn lemma_with_marks(base: Seq<Seq<bool>>, acts: Seq<Action>, n: int) -> (h: Seq<Seq<bool>>)
    requires
        0 <= n <= acts.len(),
        forall|k: int| 0 <= k < n && #[trigger] acts[k] is Mark ==> {
            let t = target(acts[k]);
            &&& t.0 < base.len()
            &&& t.1 < base[t.0 as int].len()
            &&& !base[t.0 as int][t.1 as int]
        },
        forall|k: int, l: int| 0 <= k < l < n ==> target(#[trigger] acts[k]) != target(#[trigger] acts[l]),
    ensures
        h.len() == base.len(),
        forall|r: int| 0 <= r < h.len() ==> (#[trigger] h[r]).len() == base[r].len(),
        grid_trues(h) == grid_trues(base) + mark_count(acts, n),
        forall|r: int, c: int| 0 <= r < h.len() && 0 <= c < h[r].len() && #[trigger] h[r][c]
            ==> base[r][c] || exists|k: int| 0 <= k < n && acts[k] == Action::Mark((r as usize, c as usize)),
    decreases n,
{
    if n == 0 {
        base
    } else {
        let g = lemma_with_marks(base, acts, n - 1);
        let a = acts[n - 1];
        if let Action::Mark(t) = a {
            assert(!g[t.0 as int][t.1 as int]) by {
                if g[t.0 as int][t.1 as int] {
                    if !base[t.0 as int][t.1 as int] {
                        let k = choose|k: int| 0 <= k < n - 1
                            && acts[k] == Action::Mark((t.0 as int as usize, t.1 as int as usize));
                        assert(target(acts[k]) == target(acts[n - 1]));
                    }
                }
            }
            lemma_grid_update(g, t.0, t.1, true);
            let h = updated(g, t.0, t.1, true);
            assert forall|r: int, c: int| 0 <= r < h.len() && 0 <= c < h[r].len() && #[trigger] h[r][c]
                implies base[r][c] || exists|k: int| 0 <= k < n && acts[k] == Action::Mark((r as usize, c as usize)) by {
                if r == t.0 && c == t.1 {
                    assert(acts[n - 1] == Action::Mark((r as usize, c as usize)));
                } else {
                    assert(g[r][c]);
                }
            }
            h
        } else {
            g
        }
    }
}

/// Marks made and marks still to be made together never outnumber the mines.
pub proof fn lemma_marks_bounded(e: &Engine)
    requires
        e.inv(),
    ensures
        e.marks() + mark_count(e.pending(), e.pending().len() as int) <= e.field_of().mine_total(),
{
    lemma_conservation(e);
    let field = e.field_of();
    let board = e.board_of();
    let know = e.know_of();
    let acts = e.pending();
    let base = cells_in(board.states(), CellState::Marked);
    assert(field.rows() <= field.rows() * field.cols()) by (nonlinear_arith)
        requires field.cols() >= 1;
    assert(field.cols() <= field.rows() * field.cols()) by (nonlinear_arith)
        requires field.rows() >= 1;
    assert forall|k: int| 0 <= k < acts.len() && #[trigger] acts[k] is Mark implies {
        let t = target(acts[k]);
        &&& t.0 < base.len()
        &&& t.1 < base[t.0 as int].len()
        &&& !base[t.0 as int][t.1 as int]
    } by {
        let t = target(acts[k]);
        assert(know.in_range(t));
        assert(!is_done(know.at(t)));
        assert(board.at(t) == shown(know.at(t)));
        assert(board.states()[t.0 as int].len() == board.cols());
        assert(base[t.0 as int] == board.states()[t.0 as int].map_values(|x: CellState| x == CellState::Marked));
    }
    let h = lemma_with_marks(base, acts, acts.len() as int);
    let b = field.cells();
    assert forall|r: int, c: int| 0 <= r < h.len() && 0 <= c < h[r].len() && #[trigger] h[r][c]
        implies b[r][c] by {
        assert(board.states()[r].len() == board.cols());
        let p = (r as usize, c as usize);
        assert(field.in_range(p));
        if base[r][c] {
            assert(base[r] == board.states()[r].map_values(|x: CellState| x == CellState::Marked));
            assert(board.at(p) == CellState::Marked);
        } else {
            let k = choose|k: int| 0 <= k < acts.len() && acts[k] == Action::Mark(p);
            assert(target(acts[k]) == p);
        }
    }
    assert forall|r: int| 0 <= r < h.len() implies (#[trigger] h[r]).len() == b[r].len() by {
        assert(board.states()[r].len() == board.cols());
    }
    lemma_grid_mono(h, b);
}

} // verus!
