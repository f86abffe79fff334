//! The step engine: resolves pending actions, spreads what they reveal and
//! chooses the next actions.
use vstd::prelude::*;

use crate::board::{cells_in, lemma_cells_in_update, CellState, PlayerView};
use crate::count::{grid_trues, lemma_grid_bound, lemma_grid_filled, lemma_grid_update, rows_of_len};
use crate::decide::{chosen, decide, lemma_certain_targets, lemma_risky_member, target, Action, certain_moves, risky_pick};
use crate::field::MineField;
use crate::frontier::{without, Frontier};
use crate::grid::{filled, neighbour_of, updated, Pos};
use crate::knowledge::{danger_of, is_open, is_pending, is_settled, lemma_max_member, CellDesc, KnowledgeGrid};
use crate::propagate::{
    adjacent, cell, contributed, dir_to, estimated, frontier_after, in_grid, sound, sound_at, same_shape, tracks,
    update_estimates,
};
use crate::grid::neighbour;

verus! {

/// Where a round of play stands.
#[derive(Clone, Copy, Debug, PartialEq, Eq)]
pub enum Outcome {
    /// Actions are pending.
    Running,
    /// Every cell is resolved.
    Complete,
    /// A probe hit the mine at this position.
    Failed(Pos),
    /// Cells remain unresolved but the frontier offers no move.
    Stuck,
}

/// What the player sees of a cell with belief `d`.
pub open spec fn shown(d: CellDesc) -> CellState {
    match d {
        CellDesc::Mine => CellState::Marked,
        CellDesc::Free(_) => CellState::Free,
        _ => CellState::Unknown,
    }
}

/// The player's view shows exactly what the beliefs resolved.
pub open spec fn agrees(board: &PlayerView, know: &KnowledgeGrid) -> bool {
    &&& board.wf()
    &&& board.rows() == know.rows()
    &&& board.cols() == know.cols()
    &&& forall|p: Pos| know.in_range(p) ==> board.at(p) == shown(#[trigger] know.at(p))
}

/// A belief that a resolved action leaves behind.
pub open spec fn is_done(d: CellDesc) -> bool {
    d is Mine || d is Free
}

/// Pending actions target distinct unresolved cells, and marks target mines.
pub open spec fn actions_ok(field: &MineField, know: &KnowledgeGrid, acts: Seq<Action>) -> bool {
    &&& forall|k: int| 0 <= k < acts.len() ==> {
        let p = target(#[trigger] acts[k]);
        &&& know.in_range(p)
        &&& !is_done(know.at(p))
        &&& (acts[k] is Mark ==> field.mine_at(p))
    }
    &&& forall|k: int, l: int| 0 <= k < l < acts.len()
        ==> target(#[trigger] acts[k]) != target(#[trigger] acts[l])
}

/// One cell of the beliefs becomes a sound resolved belief and leaves the
/// frontier: soundness and tracking are kept.
proof fn lemma_settle(
    field: &MineField,
    kb: &KnowledgeGrid,
    ka: &KnowledgeGrid,
    fb: &Frontier,
    fa: &Frontier,
    q: Pos,
    nd: CellDesc,
)
    requires
        same_shape(field, kb),
        sound(field, kb),
        tracks(fb, kb),
        kb.in_range(q),
        ka.wf(),
        ka.rows() == kb.rows(),
        ka.cols() == kb.cols(),
        ka.descs() == updated(kb.descs(), q.0, q.1, nd),
        sound_at(field, nd, q),
        !is_pending(nd),
        fa.wf(),
        forall|x: Pos| #[trigger] fa.has(x) <==> (fb.has(x) && x != q),
    ensures
        sound(field, ka),
        tracks(fa, ka),
        forall|x: Pos| #[trigger] ka.in_range(x) ==> ka.at(x) == if x == q { nd } else { kb.at(x) },
{
    assert forall|x: Pos| #[trigger] ka.in_range(x) implies ka.at(x) == if x == q { nd } else { kb.at(x) } by {
        if x.0 != q.0 {
            assert(ka.descs()[x.0 as int] == kb.descs()[x.0 as int]);
        }
    }
    assert forall|x: Pos| ka.in_range(x) implies sound_at(field, #[trigger] ka.at(x), x) by {
        if x != q {
            assert(sound_at(field, kb.at(x), x));
        }
    }
    assert forall|x: Pos| #[trigger] fa.has(x) implies ka.in_range(x) && is_pending(ka.at(x)) by {
        assert(fb.has(x));
    }
    assert forall|x: Pos| ka.in_range(x) && is_pending(#[trigger] ka.at(x)) implies fa.has(x) by {
        if x != q {
            assert(is_pending(kb.at(x)));
        }
    }
}

/// One state of the player's view changes; the others stay.
proof fn lemma_board_point(bb: &PlayerView, ba: &PlayerView, q: Pos, v: CellState)
    requires
        bb.wf(),
        bb.in_range(q),
        ba.rows() == bb.rows(),
        ba.cols() == bb.cols(),
        ba.states() == updated(bb.states(), q.0, q.1, v),
    ensures
        forall|x: Pos| #[trigger] ba.in_range(x) ==> ba.at(x) == if x == q { v } else { bb.at(x) },
{
    assert forall|x: Pos| #[trigger] ba.in_range(x) implies ba.at(x) == if x == q { v } else { bb.at(x) } by {
        if x.0 != q.0 {
            assert(ba.states()[x.0 as int] == bb.states()[x.0 as int]);
        }
    }
}

/// The count of cells in state `s` after one cell changes from `from` to `to`.
proof fn lemma_count_change(bb: &PlayerView, ba: &PlayerView, q: Pos, to: CellState, s: CellState)
    requires
        bb.wf(),
        bb.in_range(q),
        ba.states() == updated(bb.states(), q.0, q.1, to),
    ensures
        grid_trues(cells_in(ba.states(), s)) + crate::count::one_if(bb.at(q) == s)
            == grid_trues(cells_in(bb.states(), s)) + crate::count::one_if(to == s),
{
    lemma_cells_in_update(bb.states(), q.0, q.1, to, s);
    let g = cells_in(bb.states(), s);
    assert(g[q.0 as int] == bb.states()[q.0 as int].map_values(|x: CellState| x == s));
    assert(g[q.0 as int][q.1 as int] == (bb.at(q) == s));
    lemma_grid_update(g, q.0, q.1, to == s);
}

/// A neighbour changed by a contribution shows the same and stays resolved
/// when it was.
proof fn lemma_contributed_keeps(before: CellDesc, after: CellDesc, i: int, p: crate::knowledge::Ratio)
    requires
        contributed(before, after, i, p),
    ensures
        shown(after) == shown(before),
        is_settled(before) ==> after == before,
        is_done(after) == is_done(before),
        !is_open(before) ==> !is_open(after),
        p.is_zero() ==> !is_open(after),
{
}

/// No cleared cell neighbours an open one.
pub open spec fn calm(know: &KnowledgeGrid) -> bool {
    forall|x: Pos, y: Pos| #![trigger know.at(x), know.at(y)]
        know.in_range(x) && know.in_range(y) && adjacent(x, y) && know.at(x) is Free
            ==> !is_open(know.at(y))
}

/// Some action among `acts[lo..hi]` targets `x`.
pub open spec fn targeted(acts: Seq<Action>, lo: int, hi: int, x: Pos) -> bool {
    exists|j: int| lo <= j < hi && target(#[trigger] acts[j]) == x
}

/// A frontier always offers a move.
proof fn lemma_chosen_nonempty(know: &KnowledgeGrid, items: Seq<Pos>)
    requires
        items.len() > 0,
    ensures
        chosen(know, items).len() > 0,
{
    let n = items.len() as int;
    assert(certain_moves(know, items, n).len() > 0 || risky_pick(know, items, n) is Some);
}

/// The moves chosen from a frontier that tracks sound beliefs target distinct
/// unresolved cells, and marks target mines.
proof fn lemma_chosen_ok(field: &MineField, know: &KnowledgeGrid, front: &Frontier)
    requires
        same_shape(field, know),
        sound(field, know),
        tracks(front, know),
    ensures
        actions_ok(field, know, chosen(know, front.items())),
{
    let items = front.items();
    let n = items.len() as int;
    lemma_certain_targets(know, items, n);
    lemma_risky_member(know, items, n);
    let acts = chosen(know, items);
    assert forall|k: int| 0 <= k < acts.len() implies {
        let p = target(#[trigger] acts[k]);
        &&& know.in_range(p)
        &&& !is_done(know.at(p))
        &&& (acts[k] is Mark ==> field.mine_at(p))
    } by {
        let p = target(acts[k]);
        if certain_moves(know, items, n).len() > 0 {
            let j = choose|j: int| 0 <= j < n && items[j] == #[trigger] target(certain_moves(know, items, n)[k]);
            assert(front.has(items[j]));
            if acts[k] is Mark {
                assert(danger_of(know.at(p)).is_one());
                if let CellDesc::Estimate(ps) = know.at(p) {
                    lemma_max_member(ps@, 8);
                    let i = choose|i: int| 0 <= i < 8 && crate::knowledge::max_of(ps@, 8) == ps@[i];
                    assert(sound_at(field, know.at(p), p));
                    assert(ps@[i].num == ps@[i].den);
                }
            }
        } else {
            let r = risky_pick(know, items, n)->Some_0;
            let j = choose|j: int| 0 <= j < n && items[j] == r;
            assert(front.has(items[j]));
        }
    }
}

/// Distance between two cells in moves of a king.
pub open spec fn span(a: Pos, b: Pos) -> int {
    (if a.0 < b.0 { b.0 - a.0 } else { a.0 - b.0 }) + (if a.1 < b.1 { b.1 - a.1 } else { a.1 - b.1 })
}

/// In a grid whose cells are all cleared or unknown, a cleared cell and an
/// unknown cell are joined somewhere by a cleared cell next to an unknown one.
proof fn lemma_bridge(know: &KnowledgeGrid, a: Pos, b: Pos) -> (xy: (Pos, Pos))
    requires
        know.wf(),
        know.in_range(a),
        know.in_range(b),
        know.at(a) is Free,
        know.at(b) is Unknown,
        forall|x: Pos| know.in_range(x) ==> (#[trigger] know.at(x) is Free || know.at(x) is Unknown),
    ensures
        know.in_range(xy.0),
        know.in_range(xy.1),
        adjacent(xy.0, xy.1),
        know.at(xy.0) is Free,
        know.at(xy.1) is Unknown,
    decreases span(a, b),
{
    let r: int = if a.0 < b.0 { a.0 + 1 } else if a.0 > b.0 { a.0 - 1 } else { a.0 as int };
    let c: int = if a.1 < b.1 { a.1 + 1 } else if a.1 > b.1 { a.1 - 1 } else { a.1 as int };
    let n = (r as usize, c as usize);
    assert(a != b);
    assert(know.in_range(n));
    assert(adjacent(a, n));
    if know.at(n) is Unknown {
        (a, n)
    } else {
        lemma_bridge(know, n, b)
    }
}

/// Without mines, a calm game with cells left and a cleared cell always has a
/// move.
proof fn lemma_move_without_mines(
    field: &MineField,
    know: &KnowledgeGrid,
    front: &Frontier,
    board: &PlayerView,
    uncleared: usize,
    t: Pos,
)
    requires
        same_shape(field, know),
        sound(field, know),
        tracks(front, know),
        agrees(board, know),
        uncleared == grid_trues(cells_in(board.states(), CellState::Unknown)),
        uncleared > 0,
        field.mine_free(),
        calm(know),
        know.in_range(t),
        know.at(t) is Free,
    ensures
        chosen(know, front.items()).len() > 0,
{
    if front.items().len() > 0 {
        lemma_chosen_nonempty(know, front.items());
        return;
    }
    let g = cells_in(board.states(), CellState::Unknown);
    crate::count::lemma_grid_some(g);
    let (r, c) = choose|r: int, c: int| 0 <= r < g.len() && 0 <= c < g[r].len() && #[trigger] g[r][c];
    assert(board.states()[r].len() == board.cols());
    assert(g[r] == board.states()[r].map_values(|x: CellState| x == CellState::Unknown));
    assert(field.rows() <= field.rows() * field.cols()) by (nonlinear_arith)
        requires field.cols() >= 1;
    assert(field.cols() <= field.rows() * field.cols()) by (nonlinear_arith)
        requires field.rows() >= 1;
    assert(g[r][c] == (board.states()[r][c] == CellState::Unknown));
    let b = (r as usize, c as usize);
    assert(know.in_range(b));
    assert(board.at(b) == shown(know.at(b)));
    assert forall|x: Pos| know.in_range(x) implies (#[trigger] know.at(x) is Free || know.at(x) is Unknown) by {
        assert(sound_at(field, know.at(x), x));
        if is_pending(know.at(x)) {
            assert(front.has(x));
        }
    }
    if is_pending(know.at(b)) {
        assert(front.has(b));
    }
    let (x, y) = lemma_bridge(know, t, b);
}

/// The `m`-th cell of the 3 by 3 patch around `at`, row by row.
pub open spec fn patch_cell(at: Pos, m: int) -> Pos {
    if m < 4 { neighbour(at, m) } else if m == 4 { at } else { neighbour(at, m - 1) }
}

/// Beliefs and frontier after the cleared cells among the first `m` patch
/// cells around `at` spread their counts, one after the other.
pub open spec fn around(d: Seq<Seq<CellDesc>>, items: Seq<Pos>, at: Pos, m: int)
    -> (Seq<Seq<CellDesc>>, Seq<Pos>)
    decreases m,
{
    if m <= 0 {
        (d, items)
    } else {
        let prev = around(d, items, at, m - 1);
        let c = patch_cell(at, m - 1);
        if in_grid(prev.0, c) && cell(prev.0, c) is Free {
            (estimated(prev.0, c, cell(prev.0, c)->Free_0), frontier_after(prev.1, prev.0, c, 8))
        } else {
            prev
        }
    }
}

/// Beliefs and frontier after the patches around the targets of the first
/// `k` actions are spread, in action order.
pub open spec fn propagated(d: Seq<Seq<CellDesc>>, items: Seq<Pos>, acts: Seq<Action>, k: int)
    -> (Seq<Seq<CellDesc>>, Seq<Pos>)
    decreases k,
{
    if k <= 0 {
        (d, items)
    } else {
        let prev = propagated(d, items, acts, k - 1);
        around(prev.0, prev.1, target(acts[k - 1]), 9)
    }
}

/// The belief an action leaves at its target.
pub open spec fn resolved_cell(field: MineField, a: Action) -> CellDesc {
    match a {
        Action::Mark(_) => CellDesc::Mine,
        Action::Probe(p) => CellDesc::Free(field.probe_spec(p)),
    }
}

/// Beliefs after the first `k` actions are resolved.
pub open spec fn resolved(d: Seq<Seq<CellDesc>>, field: MineField, acts: Seq<Action>, k: int)
    -> Seq<Seq<CellDesc>>
    decreases k,
{
    if k <= 0 {
        d
    } else {
        let t = target(acts[k - 1]);
        updated(resolved(d, field, acts, k - 1), t.0, t.1, resolved_cell(field, acts[k - 1]))
    }
}

/// The frontier after the targets of the first `k` actions leave it.
pub open spec fn drop_targets(items: Seq<Pos>, acts: Seq<Action>, k: int) -> Seq<Pos>
    decreases k,
{
    if k <= 0 { items } else { without(drop_targets(items, acts, k - 1), target(acts[k - 1])) }
}

/// One game: the hidden field, the player's view, the solver's beliefs, its
/// frontier and the actions of the next round.
pub struct Engine {
    field: MineField,
    board: PlayerView,
    know: KnowledgeGrid,
    front: Frontier,
    actions: Vec<Action>,
    uncleared: usize,
    n_marked: usize,
    status: Outcome,
}

impl Engine {
    pub closed spec fn field_of(&self) -> MineField {
        self.field
    }

    pub closed spec fn board_of(&self) -> PlayerView {
        self.board
    }

    pub closed spec fn know_of(&self) -> KnowledgeGrid {
        self.know
    }

    pub closed spec fn front_of(&self) -> Frontier {
        self.front
    }

    /// The actions of the next round.
    pub closed spec fn pending(&self) -> Seq<Action> {
        self.actions@
    }

    /// The number of cells not yet marked or cleared.
    pub closed spec fn left(&self) -> nat {
        self.uncleared as nat
    }

    /// The number of marked cells.
    pub closed spec fn marks(&self) -> nat {
        self.n_marked as nat
    }

    pub closed spec fn state(&self) -> Outcome {
        self.status
    }

    /// The invariant of the grids and counters, whatever the pending actions.
    pub open spec fn grids_ok(&self) -> bool {
        &&& same_shape(&self.field_of(), &self.know_of())
        &&& sound(&self.field_of(), &self.know_of())
        &&& tracks(&self.front_of(), &self.know_of())
        &&& agrees(&self.board_of(), &self.know_of())
        &&& self.left() == grid_trues(cells_in(self.board_of().states(), CellState::Unknown))
        &&& self.marks() == grid_trues(cells_in(self.board_of().states(), CellState::Marked))
    }

    pub open spec fn inv(&self) -> bool {
        &&& self.grids_ok()
        &&& if self.state() is Running {
            &&& self.pending().len() > 0
            &&& actions_ok(&self.field_of(), &self.know_of(), self.pending())
        } else {
            self.pending().len() == 0
        }
        &&& self.state() is Complete ==> self.left() == 0
        &&& self.state() is Failed ==> self.field_of().mine_at(self.state()->Failed_0)
        &&& self.state() is Stuck ==> self.left() > 0 && self.front_of().items().len() == 0
        &&& self.field_of().mine_free() ==> {
            &&& !(self.state() is Failed)
            &&& !(self.state() is Stuck)
            &&& (self.state() is Running ==> calm(&self.know_of()))
        }
    }

    /// A game on `field` whose first action probes `start`.
    pub fn new(field: MineField, start: Pos) -> (e: Engine)
        requires
            field.wf(),
            field.in_range(start),
        ensures
            e.inv(),
            e.field_of() == field,
            e.state() == Outcome::Running,
            e.pending() == seq![Action::Probe(start)],
            e.board_of().states() == filled(field.rows() as usize, field.cols() as usize, CellState::Unknown),
            e.know_of().descs() == filled(field.rows() as usize, field.cols() as usize, CellDesc::Unknown),
            e.front_of().items().len() == 0,
            e.left() == field.rows() * field.cols(),
            e.marks() == 0,
    {
        let n_rows = field.n_rows();
        let n_cols = field.n_cols();
        assert(n_rows <= n_rows * n_cols) by (nonlinear_arith)
            requires n_cols >= 1;
        assert(n_cols <= n_rows * n_cols) by (nonlinear_arith)
            requires n_rows >= 1;
        let board = PlayerView::new(n_rows, n_cols);
        let know = KnowledgeGrid::new(n_rows, n_cols);
        let front = Frontier::new();
        let mut actions: Vec<Action> = Vec::new();
        actions.push(Action::Probe(start));
        proof {
            let states = filled(n_rows, n_cols, CellState::Unknown);
            assert(cells_in(states, CellState::Unknown) =~= filled(n_rows, n_cols, true)) by {
                assert forall|r: int| 0 <= r < n_rows implies #[trigger] cells_in(states, CellState::Unknown)[r]
                    =~= filled(n_rows, n_cols, true)[r] by {}
            }
            assert(cells_in(states, CellState::Marked) =~= filled(n_rows, n_cols, false)) by {
                assert forall|r: int| 0 <= r < n_rows implies #[trigger] cells_in(states, CellState::Marked)[r]
                    =~= filled(n_rows, n_cols, false)[r] by {}
            }
            lemma_grid_filled(n_rows, n_cols, true);
            lemma_grid_filled(n_rows, n_cols, false);
        }
        let e = Engine {
            field,
            board,
            know,
            front,
            actions,
            uncleared: n_rows * n_cols,
            n_marked: 0,
            status: Outcome::Running,
        };
        proof {
            assert(e.front_of().items().len() == 0);
            assert forall|q: Pos| #[trigger] e.front_of().has(q) implies false by {}
        }
        e
    }

    /// Resolves one action: a mark marks, a probe of a free cell clears it
    /// and records its count; a probe of a mine changes nothing and returns
    /// `false`.
    fn apply(&mut self, a: Action) -> (ok: bool)
        requires
            old(self).grids_ok(),
            old(self).know_of().in_range(target(a)),
            !is_done(old(self).know_of().at(target(a))),
            a is Mark ==> old(self).field_of().mine_at(target(a)),
        ensures
            final(self).field_of() == old(self).field_of(),
            final(self).pending() == old(self).pending(),
            final(self).state() == old(self).state(),
            ok == !(a is Probe && old(self).field_of().mine_at(target(a))),
            !ok ==> *final(self) == *old(self),
            ok ==> final(self).grids_ok(),
            ok ==> final(self).left() + 1 == old(self).left(),
            ok ==> final(self).know_of().descs() == updated(old(self).know_of().descs(), target(a).0,
                target(a).1, resolved_cell(old(self).field_of(), a)),
            ok ==> final(self).front_of().items() == without(old(self).front_of().items(), target(a)),
            ok ==> final(self).know_of().at(target(a)) == match a {
                Action::Mark(_) => CellDesc::Mine,
                Action::Probe(p) => CellDesc::Free(old(self).field_of().probe_spec(p)),
            },
            ok ==> forall|x: Pos| #[trigger] final(self).know_of().in_range(x) && x != target(a)
                ==> final(self).know_of().at(x) == old(self).know_of().at(x),
            final(self).know_of().rows() == old(self).know_of().rows(),
            final(self).know_of().cols() == old(self).know_of().cols(),
    {
        let p = a.pos();
        let nr = self.field.n_rows();
        let nc = self.field.n_cols();
        let ghost kb = self.know;
        let ghost fb = self.front;
        let ghost bb = self.board;
        assert(self.board.at(p) == shown(self.know.at(p)));
        let nd = match a {
            Action::Mark(_) => {
                self.board.mark(p);
                proof {
                    lemma_count_change(&bb, &self.board, p, CellState::Marked, CellState::Marked);
                    lemma_count_change(&bb, &self.board, p, CellState::Marked, CellState::Unknown);
                    let g = cells_in(self.board.states(), CellState::Marked);
                    assert(g.len() == nr);
                    assert(rows_of_len(g, nc as nat)) by {
                        assert forall|r: int| 0 <= r < g.len() implies #[trigger] g[r].len() == nc by {
                            assert(self.board.states()[r].len() == nc);
                        }
                    }
                    lemma_grid_bound(g, nr, nc);
                }
                self.n_marked = self.n_marked + 1;
                CellDesc::Mine
            },
            Action::Probe(_) => {
                if self.field.has_mine(p) {
                    return false;
                }
                self.board.clear(p);
                proof {
                    lemma_count_change(&bb, &self.board, p, CellState::Free, CellState::Marked);
                    lemma_count_change(&bb, &self.board, p, CellState::Free, CellState::Unknown);
                }
                CellDesc::Free(self.field.probe(p))
            },
        };
        proof {
            self.field.lemma_mines_near_bound(p, 8);
        }
        self.know.set(p, nd);
        self.front.remove(p);
        self.uncleared = self.uncleared - 1;
        proof {
            lemma_settle(&self.field, &kb, &self.know, &fb, &self.front, p, nd);
            lemma_board_point(&bb, &self.board, p, shown(nd));
            assert forall|x: Pos| self.know.in_range(x) implies self.board.at(x) == shown(#[trigger] self.know.at(x)) by {
                if x != p {
                    assert(bb.at(x) == shown(kb.at(x)));
                }
            }
        }
        true
    }

    /// Spreads the counts of the cleared cells in the 3 by 3 patch around
    /// `at`, taken row by row with `at` itself after its fourth neighbour.
    fn propagate_around(&mut self, at: Pos)
        requires
            old(self).grids_ok(),
            old(self).know_of().in_range(at),
        ensures
            final(self).grids_ok(),
            final(self).field_of() == old(self).field_of(),
            final(self).board_of() == old(self).board_of(),
            final(self).pending() == old(self).pending(),
            final(self).state() == old(self).state(),
            final(self).left() == old(self).left(),
            final(self).marks() == old(self).marks(),
            final(self).know_of().rows() == old(self).know_of().rows(),
            final(self).know_of().cols() == old(self).know_of().cols(),
            forall|x: Pos| #[trigger] final(self).know_of().in_range(x) ==> {
                &&& (is_settled(old(self).know_of().at(x)) ==> final(self).know_of().at(x) == old(self).know_of().at(x))
                &&& is_done(final(self).know_of().at(x)) == is_done(old(self).know_of().at(x))
                &&& (!is_open(old(self).know_of().at(x)) ==> !is_open(final(self).know_of().at(x)))
            },
            (final(self).know_of().descs(), final(self).front_of().items())
                == around(old(self).know_of().descs(), old(self).front_of().items(), at, 9),
            final(self).field_of().mine_free() && final(self).know_of().at(at) is Free ==>
                forall|y: Pos| #[trigger] final(self).know_of().in_range(y) && adjacent(at, y)
                    ==> !is_open(final(self).know_of().at(y)),
    {
        let ghost k0 = self.know;
        let ghost f0 = self.front;
        let mut m: usize = 0;
        while m < 9
            invariant
                f0 == old(self).front,
                (self.know.descs(), self.front.items()) == around(k0.descs(), f0.items(), at, m as int),
                self.grids_ok(),
                self.field == old(self).field,
                self.board == old(self).board,
                self.actions == old(self).actions,
                self.status == old(self).status,
                self.uncleared == old(self).uncleared,
                self.n_marked == old(self).n_marked,
                k0 == old(self).know,
                self.know.rows() == k0.rows(),
                self.know.cols() == k0.cols(),
                m <= 9,
                forall|x: Pos| #[trigger] self.know.in_range(x) ==> {
                    &&& (is_settled(k0.at(x)) ==> self.know.at(x) == k0.at(x))
                    &&& is_done(self.know.at(x)) == is_done(k0.at(x))
                    &&& (!is_open(k0.at(x)) ==> !is_open(self.know.at(x)))
                },
                k0.in_range(at),
                m > 4 && self.field.mine_free() && self.know.at(at) is Free ==>
                    forall|y: Pos| #[trigger] self.know.in_range(y) && adjacent(at, y)
                        ==> !is_open(self.know.at(y)),
            decreases 9 - m,
        {
            let c = if m < 4 {
                neighbour_of(at, m)
            } else if m == 4 {
                at
            } else {
                neighbour_of(at, m - 1)
            };
            match self.know.get(c) {
                Some(CellDesc::Free(d)) => {
                    let ghost kb = self.know;
                    assert(sound_at(&self.field, kb.at(c), c));
                    update_estimates(&self.field, &mut self.know, c, d, &mut self.front);
                    proof {
                        assert forall|x: Pos| #[trigger] self.know.in_range(x) implies {
                            &&& shown(self.know.at(x)) == shown(kb.at(x))
                            &&& (is_settled(kb.at(x)) ==> self.know.at(x) == kb.at(x))
                            &&& is_done(self.know.at(x)) == is_done(kb.at(x))
                            &&& (!is_open(kb.at(x)) ==> !is_open(self.know.at(x)))
                            &&& (d == 0 && adjacent(c, x) ==> !is_open(self.know.at(x)))
                        } by {
                            if adjacent(c, x) {
                                lemma_contributed_keeps(kb.at(x), self.know.at(x), dir_to(c, x),
                                    crate::propagate::contribution(d,
                                        crate::propagate::known_mines_near(&kb, c, 8),
                                        crate::propagate::open_near(&kb, c, 8)));
                            }
                        }
                        assert forall|x: Pos| self.know.in_range(x) implies self.board.at(x) == shown(#[trigger] self.know.at(x)) by {
                            assert(self.board.at(x) == shown(kb.at(x)));
                        }
                        assert forall|x: Pos| #[trigger] self.know.in_range(x) implies {
                            &&& (is_settled(k0.at(x)) ==> self.know.at(x) == k0.at(x))
                            &&& is_done(self.know.at(x)) == is_done(k0.at(x))
                            &&& (!is_open(k0.at(x)) ==> !is_open(self.know.at(x)))
                        } by {
                            assert(kb.in_range(x));
                        }
                        if self.field.mine_free() {
                            self.field.lemma_mine_free_near(c, 8);
                            assert(d == 0);
                        }
                        assert(kb.in_range(at));
                        assert(self.know.in_range(at));
                        if m >= 4 && self.field.mine_free() && self.know.at(at) is Free {
                            assert forall|y: Pos| #[trigger] self.know.in_range(y) && adjacent(at, y)
                                implies !is_open(self.know.at(y)) by {
                                assert(kb.in_range(y));
                                if m > 4 {
                                    assert(kb.at(at) is Free);
                                } else {
                                    assert(c == at);
                                }
                            }
                        }
                    }
                },
                _ => {
                    proof {
                        if m == 4 && self.field.mine_free() {
                            assert(c == at);
                            assert(!(self.know.at(at) is Free));
                        }
                    }
                },
            }
            m = m + 1;
        }
    }

    /// Plays one round. Resolves the pending actions in order: a probe of a
    /// mine ends the game as `Failed` at once. When no cell is left
    /// unresolved the game is `Complete`. Otherwise the counts of the cleared
    /// cells around each resolved action are spread over their neighbours and
    /// the next actions are chosen from the frontier; with none to choose the
    /// game is `Stuck`. A finished game is left as it is.
    pub fn step(&mut self) -> (o: Outcome)
        requires
            old(self).inv(),
        ensures
            final(self).inv(),
            o == final(self).state(),
            final(self).field_of() == old(self).field_of(),
            !(old(self).state() is Running) ==> *final(self) == *old(self),
            forall|x: Pos| #[trigger] final(self).know_of().in_range(x) && is_settled(old(self).know_of().at(x))
                ==> is_settled(final(self).know_of().at(x)),
            forall|x: Pos| #[trigger] final(self).know_of().in_range(x) && is_done(old(self).know_of().at(x))
                ==> final(self).know_of().at(x) == old(self).know_of().at(x),
            old(self).state() is Running && o is Failed ==> old(self).pending().contains(Action::Probe(o->Failed_0))
                && old(self).field_of().mine_at(o->Failed_0),
            old(self).state() is Running && !(o is Failed) ==> forall|k: int| 0 <= k < old(self).pending().len()
                ==> match #[trigger] old(self).pending()[k] {
                    Action::Mark(p) => final(self).know_of().at(p) == CellDesc::Mine,
                    Action::Probe(p) => final(self).know_of().at(p) == CellDesc::Free(old(self).field_of().probe_spec(p)),
                },
            old(self).state() is Running && !(o is Failed) ==> final(self).left() + old(self).pending().len() == old(self).left(),
            final(self).left() <= old(self).left(),
            old(self).field_of().mine_free() ==> !(o is Failed) && !(o is Stuck),
            o is Complete ==> final(self).left() == 0,
            old(self).state() is Running && o is Stuck ==> final(self).left() > 0 && final(self).front_of().items().len() == 0,
            o is Running ==> final(self).pending() == chosen(&final(self).know_of(), final(self).front_of().items()),
            old(self).state() is Running && (o is Running || o is Stuck) ==> {
                let n = old(self).pending().len() as int;
                let acts = old(self).pending();
                (final(self).know_of().descs(), final(self).front_of().items()) == propagated(
                    resolved(old(self).know_of().descs(), old(self).field_of(), acts, n),
                    drop_targets(old(self).front_of().items(), acts, n),
                    acts,
                    n,
                )
            },
    {
        match self.status {
            Outcome::Running => {},
            _ => return self.status,
        }
        let ghost e0 = *self;
        let n = self.actions.len();
        let mut k: usize = 0;
        while k < n
            invariant
                self.grids_ok(),
                self.field == e0.field,
                self.actions@ == e0.actions@,
                self.status == e0.status,
                n == e0.actions@.len(),
                e0 == *old(self),
                e0.inv(),
                e0.state() is Running,
                k <= n,
                self.know.rows() == e0.know.rows(),
                self.know.cols() == e0.know.cols(),
                self.uncleared + k == e0.uncleared,
                forall|j: int| k <= j < n ==> {
                    let p = target(#[trigger] e0.actions@[j]);
                    &&& self.know.at(p) == e0.know.at(p)
                },
                forall|j: int| 0 <= j < k ==> match #[trigger] e0.actions@[j] {
                    Action::Mark(p) => self.know.at(p) == CellDesc::Mine,
                    Action::Probe(p) => self.know.at(p) == CellDesc::Free(e0.field.probe_spec(p)),
                },
                forall|x: Pos| #[trigger] self.know.in_range(x) && is_settled(e0.know.at(x))
                    ==> is_settled(self.know.at(x)),
                forall|x: Pos| #[trigger] self.know.in_range(x) && is_done(e0.know.at(x))
                    ==> self.know.at(x) == e0.know.at(x),
                self.know.descs() == resolved(e0.know.descs(), e0.field, e0.actions@, k as int),
                self.front.items() == drop_targets(e0.front.items(), e0.actions@, k as int),
                e0.field.mine_free() ==> forall|x: Pos, y: Pos| #![trigger self.know.at(x), self.know.at(y)]
                    self.know.in_range(x) && self.know.in_range(y) && adjacent(x, y) && self.know.at(x) is Free
                    && !targeted(e0.actions@, 0, k as int, x) ==> !is_open(self.know.at(y)),
            decreases n - k,
        {
            let a = self.actions[k];
            assert(e0.actions@[k as int] == a);
            let ghost kb = self.know;
            let ok = self.apply(a);
            if !ok {
                let p = a.pos();
                self.status = Outcome::Failed(p);
                self.actions = Vec::new();
                proof {
                    assert(e0.pending()[k as int] == Action::Probe(p));
                }
                return self.status;
            }
            proof {
                assert forall|x: Pos| #[trigger] self.know.in_range(x) && is_settled(e0.know.at(x))
                    implies is_settled(self.know.at(x)) by {
                    assert(kb.in_range(x));
                }
                assert forall|x: Pos| #[trigger] self.know.in_range(x) && is_done(e0.know.at(x))
                    implies self.know.at(x) == e0.know.at(x) by {
                    assert(kb.in_range(x));
                    assert(e0.pending()[k as int] == e0.actions@[k as int]);
                    assert(!is_done(e0.know.at(target(a))));
                }
                if e0.field.mine_free() {
                    let t = target(a);
                    assert forall|x: Pos, y: Pos| #![trigger self.know.at(x), self.know.at(y)]
                        self.know.in_range(x) && self.know.in_range(y) && adjacent(x, y) && self.know.at(x) is Free
                        && !targeted(e0.actions@, 0, k + 1, x) implies !is_open(self.know.at(y)) by {
                        assert(kb.in_range(x) && kb.in_range(y));
                        if x == t {
                            assert(target(e0.actions@[k as int]) == x);
                        }
                        assert(kb.at(x) == self.know.at(x));
                        if targeted(e0.actions@, 0, k as int, x) {
                            let j = choose|j: int| 0 <= j < k && target(#[trigger] e0.actions@[j]) == x;
                            assert(0 <= j < k + 1 && target(e0.actions@[j]) == x);
                        }
                        if y != t {
                            assert(kb.at(y) == self.know.at(y));
                        }
                    }
                }
                assert forall|j: int| k + 1 <= j < n implies {
                    let p = target(#[trigger] e0.actions@[j]);
                    &&& self.know.at(p) == e0.know.at(p)
                } by {
                    let p = target(e0.actions@[j]);
                    assert(e0.pending()[j] == e0.actions@[j]);
                    assert(e0.know.in_range(p));
                    assert(self.know.in_range(p));
                    assert(p != target(e0.actions@[k as int]));
                    assert(kb.at(p) == e0.know.at(p));
                }
                assert forall|j: int| 0 <= j < k + 1 implies match #[trigger] e0.actions@[j] {
                    Action::Mark(p) => self.know.at(p) == CellDesc::Mine,
                    Action::Probe(p) => self.know.at(p) == CellDesc::Free(e0.field.probe_spec(p)),
                } by {
                    let p = target(e0.actions@[j]);
                    assert(e0.pending()[j] == e0.actions@[j]);
                    assert(e0.know.in_range(p));
                    assert(self.know.in_range(p));
                    if j < k {
                        assert(p != target(e0.actions@[k as int]));
                    }
                }
            }
            k = k + 1;
        }
        if self.uncleared == 0 {
            self.status = Outcome::Complete;
            self.actions = Vec::new();
            return Outcome::Complete;
        }
        let ghost k1 = self.know;
        let ghost f1 = self.front;
        let mut k: usize = 0;
        while k < n
            invariant
                self.grids_ok(),
                self.field == e0.field,
                self.actions@ == e0.actions@,
                self.status == e0.status,
                n == e0.actions@.len(),
                e0 == *old(self),
                k <= n,
                self.uncleared + n == e0.uncleared,
                self.uncleared > 0,
                self.know.rows() == k1.rows(),
                self.know.cols() == k1.cols(),
                forall|x: Pos| #[trigger] self.know.in_range(x) && is_settled(k1.at(x))
                    ==> self.know.at(x) == k1.at(x),
                forall|x: Pos| #[trigger] k1.in_range(x) && is_settled(e0.know.at(x))
                    ==> is_settled(k1.at(x)),
                forall|j: int| 0 <= j < n ==> match #[trigger] e0.actions@[j] {
                    Action::Mark(p) => k1.at(p) == CellDesc::Mine,
                    Action::Probe(p) => k1.at(p) == CellDesc::Free(e0.field.probe_spec(p)),
                },
                e0.inv(),
                e0.state() is Running,
                k1.rows() == e0.know.rows(),
                k1.cols() == e0.know.cols(),
                k1.descs() == resolved(e0.know.descs(), e0.field, e0.actions@, n as int),
                f1.items() == drop_targets(e0.front.items(), e0.actions@, n as int),
                (self.know.descs(), self.front.items()) == propagated(k1.descs(), f1.items(), e0.actions@, k as int),
                e0.field.mine_free() ==> forall|x: Pos, y: Pos| #![trigger self.know.at(x), self.know.at(y)]
                    self.know.in_range(x) && self.know.in_range(y) && adjacent(x, y) && self.know.at(x) is Free
                    && !targeted(e0.actions@, k as int, n as int, x) ==> !is_open(self.know.at(y)),
            decreases n - k,
        {
            let at = self.actions[k].pos();
            proof {
                assert(e0.pending()[k as int] == e0.actions@[k as int]);
                assert(at == target(e0.actions@[k as int]));
                assert(e0.know.in_range(at));
                assert(self.know.in_range(at));
            }
            let ghost kb = self.know;
            self.propagate_around(at);
            proof {
                if e0.field.mine_free() {
                    assert forall|x: Pos, y: Pos| #![trigger self.know.at(x), self.know.at(y)]
                        self.know.in_range(x) && self.know.in_range(y) && adjacent(x, y) && self.know.at(x) is Free
                        && !targeted(e0.actions@, k + 1, n as int, x) implies !is_open(self.know.at(y)) by {
                        assert(kb.in_range(x) && kb.in_range(y));
                        assert(kb.at(x) is Free);
                        if x != at {
                            if targeted(e0.actions@, k as int, n as int, x) {
                                let j = choose|j: int| k <= j < n && target(#[trigger] e0.actions@[j]) == x;
                                assert(j != k);
                                assert(k + 1 <= j < n && target(e0.actions@[j]) == x);
                            }
                            assert(!is_open(kb.at(y)));
                        }
                    }
                }
            }
            k = k + 1;
        }
        let next = decide(&self.know, &self.front);
        if next.len() == 0 {
            self.status = Outcome::Stuck;
        }
        self.actions = next;
        proof {
            assert(e0.pending() == e0.actions@);
            lemma_chosen_ok(&self.field, &self.know, &self.front);
            if e0.field.mine_free() {
                assert forall|x: Pos, y: Pos| #![trigger self.know.at(x), self.know.at(y)]
                    self.know.in_range(x) && self.know.in_range(y) && adjacent(x, y) && self.know.at(x) is Free
                    implies !is_open(self.know.at(y)) by {
                    assert(!targeted(e0.actions@, n as int, n as int, x));
                }
                if next@.len() == 0 {
                    let t = target(e0.actions@[0]);
                    assert(e0.pending()[0] == e0.actions@[0]);
                    assert(e0.know.in_range(t));
                    assert(self.know.in_range(t));
                    assert(!e0.field.mine_at(t));
                    assert(self.know.at(t) is Free);
                    lemma_move_without_mines(&self.field, &self.know, &self.front, &self.board,
                        self.uncleared, target(e0.actions@[0]));
                }
            }
            assert forall|x: Pos| #[trigger] self.know.in_range(x) && is_settled(e0.know.at(x))
                implies is_settled(self.know.at(x)) by {
                assert(k1.in_range(x));
            }
            assert forall|x: Pos| #[trigger] self.know.in_range(x) && is_done(e0.know.at(x))
                implies self.know.at(x) == e0.know.at(x) by {
                assert(k1.in_range(x));
            }
            if next@.len() == 0 && self.front.items().len() > 0 {
                lemma_chosen_nonempty(&self.know, self.front.items());
            }
            assert forall|j: int| 0 <= j < n implies match #[trigger] e0.actions@[j] {
                Action::Mark(p) => self.know.at(p) == CellDesc::Mine,
                Action::Probe(p) => self.know.at(p) == CellDesc::Free(e0.field.probe_spec(p)),
            } by {
                let p = target(e0.actions@[j]);
                assert(e0.pending()[j] == e0.actions@[j]);
                assert(e0.know.in_range(p));
                assert(self.know.in_range(p));
            }
        }
        self.status
    }

    /// Plays rounds until the game is over.
    pub fn run(&mut self) -> (o: Outcome)
        requires
            old(self).inv(),
        ensures
            final(self).inv(),
            o == final(self).state(),
            !(o is Running),
            final(self).field_of() == old(self).field_of(),
            old(self).field_of().mine_free() ==> o == Outcome::Complete,
            o is Failed ==> final(self).field_of().mine_at(o->Failed_0),
            o is Stuck ==> final(self).left() > 0 && final(self).front_of().items().len() == 0,
            forall|x: Pos| #[trigger] final(self).know_of().in_range(x) && is_settled(old(self).know_of().at(x))
                ==> is_settled(final(self).know_of().at(x)),
            old(self).state() is Running && !(o is Failed) ==> forall|k: int| 0 <= k < old(self).pending().len()
                ==> match #[trigger] old(self).pending()[k] {
                    Action::Mark(p) => final(self).know_of().at(p) == CellDesc::Mine,
                    Action::Probe(p) => final(self).know_of().at(p) == CellDesc::Free(old(self).field_of().probe_spec(p)),
                },
    {
        let ghost e0 = *self;
        let ghost mut stepped = false;
        let mut o = self.status();
        let mut running = matches!(o, Outcome::Running);
        while running
            invariant
                self.inv(),
                o == self.state(),
                running == (o is Running),
                self.field_of() == e0.field_of(),
                e0 == *old(self),
                self.know_of().rows() == e0.know_of().rows(),
                self.know_of().cols() == e0.know_of().cols(),
                forall|x: Pos| #[trigger] self.know_of().in_range(x) && is_settled(e0.know_of().at(x))
                    ==> is_settled(self.know_of().at(x)),
                !stepped ==> o == e0.state() && *self == e0,
                e0.inv(),
                stepped && e0.state() is Running && !(o is Failed) ==> forall|k: int| 0 <= k < e0.pending().len()
                    ==> match #[trigger] e0.pending()[k] {
                        Action::Mark(p) => self.know_of().at(p) == CellDesc::Mine,
                        Action::Probe(p) => self.know_of().at(p) == CellDesc::Free(e0.field_of().probe_spec(p)),
                    },
            decreases self.left() + if self.state() is Running { 1int } else { 0int },
        {
            let ghost before = *self;
            o = self.step();
            running = matches!(o, Outcome::Running);
            proof {
                if stepped && e0.state() is Running && !(o is Failed) {
                    assert forall|k: int| 0 <= k < e0.pending().len() implies match #[trigger] e0.pending()[k] {
                        Action::Mark(p) => self.know_of().at(p) == CellDesc::Mine,
                        Action::Probe(p) => self.know_of().at(p) == CellDesc::Free(e0.field_of().probe_spec(p)),
                    } by {
                        let p = target(e0.pending()[k]);
                        assert(e0.know_of().in_range(p));
                        assert(self.know_of().in_range(p));
                        assert(before.know_of().in_range(p));
                        assert(is_done(before.know_of().at(p)));
                    }
                }
                stepped = true;
                assert forall|x: Pos| #[trigger] self.know_of().in_range(x) && is_settled(e0.know_of().at(x))
                    implies is_settled(self.know_of().at(x)) by {
                    assert(before.know_of().in_range(x));
                }
            }
        }
        o
    }

    /// The hidden field.
    pub fn field(&self) -> (f: &MineField)
        ensures
            *f == self.field_of(),
    {
        &self.field
    }

    /// The player's view.
    pub fn board(&self) -> (b: &PlayerView)
        ensures
            *b == self.board_of(),
    {
        &self.board
    }

    /// The solver's beliefs.
    pub fn knowledge(&self) -> (k: &KnowledgeGrid)
        ensures
            *k == self.know_of(),
    {
        &self.know
    }

    /// The frontier.
    pub fn frontier(&self) -> (f: &Frontier)
        ensures
            *f == self.front_of(),
    {
        &self.front
    }

    /// The actions of the next round.
    pub fn actions(&self) -> (a: &Vec<Action>)
        ensures
            a@ == self.pending(),
    {
        &self.actions
    }

    /// The number of cells not yet marked or cleared.
    pub fn uncleared(&self) -> (n: usize)
        ensures
            n == self.left(),
    {
        self.uncleared
    }

    /// The number of marked cells.
    pub fn n_marked(&self) -> (n: usize)
        ensures
            n == self.marks(),
    {
        self.n_marked
    }

    /// Where the game stands.
    pub fn status(&self) -> (o: Outcome)
        ensures
            o == self.state(),
    {
        self.status
    }
}

} // verus!