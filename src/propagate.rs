//! Spreading what a cleared cell reveals over its neighbours.
use vstd::array::{spec_array_fill_for_copy_type, spec_array_update};
use vstd::prelude::*;

use crate::count::one_if;
use crate::field::MineField;
use crate::frontier::Frontier;
use crate::grid::{neighbour, neighbour_of, Pos};
use crate::knowledge::{is_open, is_pending, is_settled, CellDesc, KnowledgeGrid, Ratio};

verus! {

/// The belief `d` held at `p` agrees with the mines of `field`.
pub open spec fn sound_at(field: &MineField, d: CellDesc, p: Pos) -> bool {
    match d {
        CellDesc::Unknown => true,
        CellDesc::Estimate(ps) => forall|i: int| 0 <= i < 8 ==> (#[trigger] ps@[i]).den >= 1
            && (ps@[i].num == ps@[i].den ==> field.mine_at(p)),
        CellDesc::ShouldFree => !field.mine_at(p),
        CellDesc::Free(n) => !field.mine_at(p) && n as nat == field.mines_near(p, 8),
        CellDesc::Mine => field.mine_at(p),
    }
}

/// Every belief agrees with the mines of `field`.
pub open spec fn sound(field: &MineField, know: &KnowledgeGrid) -> bool {
    forall|p: Pos| know.in_range(p) ==> sound_at(field, #[trigger] know.at(p), p)
}

/// The field and the beliefs are well formed and of one shape.
pub open spec fn same_shape(field: &MineField, know: &KnowledgeGrid) -> bool {
    &&& field.wf()
    &&& know.wf()
    &&& know.rows() == field.rows()
    &&& know.cols() == field.cols()
}

/// The frontier holds exactly the cells whose belief is pending.
pub open spec fn tracks(front: &Frontier, know: &KnowledgeGrid) -> bool {
    &&& front.wf()
    &&& forall|q: Pos| #[trigger] front.has(q) ==> know.in_range(q) && is_pending(know.at(q))
    &&& forall|q: Pos| know.in_range(q) && is_pending(#[trigger] know.at(q)) ==> front.has(q)
}

/// The direction in which `q` neighbours `at`, or -1.
pub open spec fn dir_to(at: Pos, q: Pos) -> int {
    let dr = q.0 - at.0;
    let dc = q.1 - at.1;
    if dr == -1 && dc == -1 { 0 }
    else if dr == -1 && dc == 0 { 1 }
    else if dr == -1 && dc == 1 { 2 }
    else if dr == 0 && dc == -1 { 3 }
    else if dr == 0 && dc == 1 { 4 }
    else if dr == 1 && dc == -1 { 5 }
    else if dr == 1 && dc == 0 { 6 }
    else if dr == 1 && dc == 1 { 7 }
    else { -1 }
}

/// Whether `q` neighbours `at`.
pub open spec fn adjacent(at: Pos, q: Pos) -> bool {
    0 <= dir_to(at, q) < 8
}

/// Neighbours in the field are found by their direction, and back.
pub proof fn lemma_dir_to(field: &MineField, at: Pos)
    requires
        field.wf(),
    ensures
        forall|i: int| 0 <= i < 8 && #[trigger] field.in_range(neighbour(at, i))
            ==> dir_to(at, neighbour(at, i)) == i,
        forall|q: Pos| #[trigger] field.in_range(q) && adjacent(at, q)
            ==> neighbour(at, dir_to(at, q)) == q,
{
    assert(field.rows() <= field.rows() * field.cols()) by (nonlinear_arith)
        requires field.cols() >= 1;
    assert(field.cols() <= field.rows() * field.cols()) by (nonlinear_arith)
        requires field.rows() >= 1;
}

/// The number of neighbours of `at` among the first `n` directions believed
/// to be mines.
pub open spec fn known_mines_near(know: &KnowledgeGrid, at: Pos, n: int) -> nat
    decreases n,
{
    if n <= 0 {
        0
    } else {
        let q = neighbour(at, n - 1);
        known_mines_near(know, at, n - 1) + one_if(know.in_range(q) && know.at(q) is Mine)
    }
}

/// The number of open neighbours of `at` among the first `n` directions.
pub open spec fn open_near(know: &KnowledgeGrid, at: Pos, n: int) -> nat
    decreases n,
{
    if n <= 0 {
        0
    } else {
        let q = neighbour(at, n - 1);
        open_near(know, at, n - 1) + one_if(know.in_range(q) && is_open(know.at(q)))
    }
}

/// The number of open neighbours of `at` among the first `n` directions that
/// hold a mine.
pub open spec fn open_mines_near(field: &MineField, know: &KnowledgeGrid, at: Pos, n: int) -> nat
    decreases n,
{
    if n <= 0 {
        0
    } else {
        let q = neighbour(at, n - 1);
        open_mines_near(field, know, at, n - 1)
            + one_if(know.in_range(q) && is_open(know.at(q)) && field.mine_at(q))
    }
}

/// The mines around `at` are the known ones and the open ones.
proof fn lemma_split(field: &MineField, know: &KnowledgeGrid, at: Pos, n: int)
    requires
        same_shape(field, know),
        sound(field, know),
        0 <= n <= 8,
    ensures
        field.mines_near(at, n) == known_mines_near(know, at, n) + open_mines_near(field, know, at, n),
        open_mines_near(field, know, at, n) <= open_near(know, at, n),
    decreases n,
{
    if n > 0 {
        lemma_split(field, know, at, n - 1);
        let q = neighbour(at, n - 1);
        if know.in_range(q) {
            assert(sound_at(field, know.at(q), q));
        }
    }
}

/// When every open neighbour counts as a mine, each holds one.
proof fn lemma_all_open_mined(field: &MineField, know: &KnowledgeGrid, at: Pos, n: int)
    requires
        same_shape(field, know),
        sound(field, know),
        0 <= n <= 8,
        open_mines_near(field, know, at, n) == open_near(know, at, n),
    ensures
        forall|j: int| 0 <= j < n && know.in_range(#[trigger] neighbour(at, j))
            && is_open(know.at(neighbour(at, j))) ==> field.mine_at(neighbour(at, j)),
    decreases n,
{
    if n > 0 {
        lemma_split(field, know, at, n - 1);
        lemma_all_open_mined(field, know, at, n - 1);
    }
}

/// When no open neighbour counts as a mine, none holds one.
proof fn lemma_no_open_mined(field: &MineField, know: &KnowledgeGrid, at: Pos, n: int)
    requires
        0 <= n <= 8,
        open_mines_near(field, know, at, n) == 0,
    ensures
        forall|j: int| 0 <= j < n && know.in_range(#[trigger] neighbour(at, j))
            && is_open(know.at(neighbour(at, j))) ==> !field.mine_at(neighbour(at, j)),
    decreases n,
{
    if n > 0 {
        lemma_no_open_mined(field, know, at, n - 1);
    }
}

/// The contribution of a cleared cell with `danger` mines around it, `n_mines`
/// neighbours believed mines and `n_open` open neighbours: the remaining
/// danger spread evenly over the open neighbours.
pub open spec fn contribution(danger: u8, n_mines: nat, n_open: nat) -> Ratio {
    if danger == 0 || n_open == 0 {
        Ratio::zero_spec()
    } else {
        Ratio { num: (danger - n_mines) as u8, den: n_open as u8 }
    }
}

/// `after` is what a neighbour in direction `i` holding `before` comes to
/// hold under the contribution `p`: a zero makes an open cell certainly free;
/// anything else becomes the neighbour's contribution from direction `i`.
pub open spec fn contributed(before: CellDesc, after: CellDesc, i: int, p: Ratio) -> bool {
    if p.is_zero() {
        after == (if is_open(before) { CellDesc::ShouldFree } else { before })
    } else {
        match before {
            CellDesc::Unknown => match after {
                CellDesc::Estimate(ps) => forall|j: int| 0 <= j < 8
                    ==> #[trigger] ps@[j] == if j == i { p } else { Ratio::zero_spec() },
                _ => false,
            },
            CellDesc::Estimate(qs) => match after {
                CellDesc::Estimate(ps) => ps@ == qs@.update(i, p),
                _ => false,
            },
            _ => after == before,
        }
    }
}

/// One cell of the beliefs changes to a sound pending belief, and the
/// frontier takes it in: soundness and tracking are kept.
proof fn lemma_after_set(
    field: &MineField,
    kb: &KnowledgeGrid,
    ka: &KnowledgeGrid,
    fb: &Frontier,
    fa: &Frontier,
    q: Pos,
    nd: CellDesc,
)
    requires
        same_shape(field, kb),
        sound(field, kb),
        tracks(fb, kb),
        kb.in_range(q),
        ka.wf(),
        ka.rows() == kb.rows(),
        ka.cols() == kb.cols(),
        ka.descs() == crate::grid::updated(kb.descs(), q.0, q.1, nd),
        sound_at(field, nd, q),
        is_pending(nd),
        fa.wf(),
        fa.items() == if fb.has(q) { fb.items() } else { fb.items().push(q) },
    ensures
        sound(field, ka),
        tracks(fa, ka),
        forall|x: Pos| #[trigger] ka.in_range(x) ==> ka.at(x) == if x == q { nd } else { kb.at(x) },
{
    assert forall|x: Pos| #[trigger] ka.in_range(x) implies ka.at(x) == if x == q { nd } else { kb.at(x) } by {
        if x.0 != q.0 {
            assert(ka.descs()[x.0 as int] == kb.descs()[x.0 as int]);
        }
    }
    assert forall|x: Pos| #[trigger] fa.has(x) <==> (fb.has(x) || x == q) by {
        if !fb.has(q) {
            if fa.has(x) {
                let j = choose|j: int| 0 <= j < fa.items().len() && fa.items()[j] == x;
                if j < fb.items().len() {
                    assert(fb.items()[j] == x);
                }
            }
            if fb.has(x) {
                let j = choose|j: int| 0 <= j < fb.items().len() && fb.items()[j] == x;
                assert(fa.items()[j] == x);
            }
            if x == q {
                assert(fa.items()[fb.items().len() as int] == q);
            }
        }
    }
    assert forall|x: Pos| ka.in_range(x) implies sound_at(field, #[trigger] ka.at(x), x) by {
        if x != q {
            assert(sound_at(field, kb.at(x), x));
        }
    }
    assert forall|x: Pos| #[trigger] fa.has(x) implies ka.in_range(x) && is_pending(ka.at(x)) by {
        if x != q {
            assert(fb.has(x));
        }
    }
    assert forall|x: Pos| ka.in_range(x) && is_pending(#[trigger] ka.at(x)) implies fa.has(x) by {
        if x != q {
            assert(is_pending(kb.at(x)));
        }
    }
}

/// The frontier `items` after the first `n` neighbours of `at` are taken in:
/// each open neighbour in the grid is appended, in direction order, unless it
/// is there already.
pub open spec fn frontier_after(items: Seq<Pos>, d: Seq<Seq<CellDesc>>, at: Pos, n: int) -> Seq<Pos>
    decreases n,
{
    if n <= 0 {
        items
    } else {
        let prev = frontier_after(items, d, at, n - 1);
        let q = neighbour(at, n - 1);
        if in_grid(d, q) && is_open(cell(d, q)) && !prev.contains(q) { prev.push(q) } else { prev }
    }
}

/// Whether `q` lies in the rows `d`.
pub open spec fn in_grid(d: Seq<Seq<CellDesc>>, q: Pos) -> bool {
    q.0 < d.len() && q.1 < d[q.0 as int].len()
}

/// The belief at `q` in the rows `d`.
pub open spec fn cell(d: Seq<Seq<CellDesc>>, q: Pos) -> CellDesc {
    d[q.0 as int][q.1 as int]
}

/// Neighbours of `at` among the first `n` directions believed to be mines,
/// in the rows `d`.
pub open spec fn mines_known(d: Seq<Seq<CellDesc>>, at: Pos, n: int) -> nat
    decreases n,
{
    if n <= 0 {
        0
    } else {
        let q = neighbour(at, n - 1);
        mines_known(d, at, n - 1) + one_if(in_grid(d, q) && cell(d, q) is Mine)
    }
}

/// Open neighbours of `at` among the first `n` directions, in the rows `d`.
pub open spec fn opens(d: Seq<Seq<CellDesc>>, at: Pos, n: int) -> nat
    decreases n,
{
    if n <= 0 {
        0
    } else {
        let q = neighbour(at, n - 1);
        opens(d, at, n - 1) + one_if(in_grid(d, q) && is_open(cell(d, q)))
    }
}

/// What a neighbour in direction `i` holding `before` comes to hold under the
/// contribution `p`.
pub open spec fn after_cell(before: CellDesc, i: int, p: Ratio) -> CellDesc {
    if p.is_zero() {
        if is_open(before) { CellDesc::ShouldFree } else { before }
    } else {
        match before {
            CellDesc::Unknown => CellDesc::Estimate(
                spec_array_update(spec_array_fill_for_copy_type::<Ratio, 8>(Ratio::zero_spec()), i, p),
            ),
            CellDesc::Estimate(qs) => CellDesc::Estimate(spec_array_update(qs, i, p)),
            _ => before,
        }
    }
}

/// The rows `d` after the cleared cell `at`, with `danger` mines around it,
/// spreads its contribution over its neighbours.
pub open spec fn estimated(d: Seq<Seq<CellDesc>>, at: Pos, danger: u8) -> Seq<Seq<CellDesc>> {
    let p = contribution(danger, mines_known(d, at, 8), opens(d, at, 8));
    Seq::new(d.len(), |r: int| Seq::new(d[r].len(), |c: int|
        if adjacent(at, (r as usize, c as usize)) {
            after_cell(d[r][c], dir_to(at, (r as usize, c as usize)), p)
        } else {
            d[r][c]
        }
    ))
}

/// The counts over a grid are the counts over its rows.
proof fn lemma_counts_of_rows(know: &KnowledgeGrid, at: Pos, n: int)
    requires
        know.wf(),
    ensures
        known_mines_near(know, at, n) == mines_known(know.descs(), at, n),
        open_near(know, at, n) == opens(know.descs(), at, n),
    decreases n,
{
    if n > 0 {
        lemma_counts_of_rows(know, at, n - 1);
        let q = neighbour(at, n - 1);
        assert(know.in_range(q) == in_grid(know.descs(), q));
    }
}

/// A contribution as related by `contributed` is the one `after_cell` gives.
proof fn lemma_after_cell(before: CellDesc, after: CellDesc, i: int, p: Ratio)
    requires
        0 <= i < 8,
        contributed(before, after, i, p),
    ensures
        after == after_cell(before, i, p),
{
    if !p.is_zero() {
        match before {
            CellDesc::Unknown => {
                if let CellDesc::Estimate(ps) = after {
                    let z = spec_array_fill_for_copy_type::<Ratio, 8>(Ratio::zero_spec());
                    let e = spec_array_update(z, i, p);
                    assert(e@ == z@.update(i, p));
                    assert(ps =~= e);
                }
            },
            CellDesc::Estimate(qs) => {
                if let CellDesc::Estimate(ps) = after {
                    let e = spec_array_update(qs, i, p);
                    assert(e@ == qs@.update(i, p));
                    assert(ps =~= e);
                }
            },
            _ => {},
        }
    }
}

/// Spreads what the cleared cell `at`, with `danger` mines around it, says of
/// its neighbours, and puts every neighbour it changes on the frontier.
pub fn update_estimates(
    field: &MineField,
    know: &mut KnowledgeGrid,
    at: Pos,
    danger: u8,
    front: &mut Frontier,
)
    requires
        same_shape(field, old(know)),
        sound(field, old(know)),
        tracks(old(front), old(know)),
        field.in_range(at),
        old(know).at(at) == CellDesc::Free(danger),
    ensures
        same_shape(field, final(know)),
        sound(field, final(know)),
        tracks(final(front), final(know)),
        final(front).items() == frontier_after(old(front).items(), old(know).descs(), at, 8),
        final(know).descs() == estimated(old(know).descs(), at, danger),
        forall|q: Pos| #[trigger] final(know).in_range(q) && is_settled(old(know).at(q))
            ==> final(know).at(q) == old(know).at(q),
        field.mine_free() ==> forall|q: Pos| #[trigger] final(know).in_range(q) && adjacent(at, q)
            && is_open(old(know).at(q)) ==> final(know).at(q) == CellDesc::ShouldFree,
        forall|q: Pos| #[trigger] final(know).in_range(q) ==> if adjacent(at, q) {
            contributed(old(know).at(q), final(know).at(q), dir_to(at, q),
                contribution(danger, known_mines_near(old(know), at, 8), open_near(old(know), at, 8)))
        } else {
            final(know).at(q) == old(know).at(q)
        },
{
    let ghost k0 = *know;
    let ghost f0 = *front;
    proof {
        lemma_dir_to(field, at);
        lemma_split(field, know, at, 8);
        assert(sound_at(field, know.at(at), at));
    }
    let mut n_mines: u8 = 0;
    let mut n_open: u8 = 0;
    let mut i: usize = 0;
    while i < 8
        invariant
            same_shape(field, know),
            i <= 8,
            n_mines == known_mines_near(know, at, i as int),
            n_open == open_near(know, at, i as int),
            n_mines <= i,
            n_open <= i,
        decreases 8 - i,
    {
        let q = neighbour_of(at, i);
        match know.get(q) {
            Some(CellDesc::Unknown) | Some(CellDesc::Estimate(_)) => n_open = n_open + 1,
            Some(CellDesc::Mine) => n_mines = n_mines + 1,
            _ => {},
        }
        i = i + 1;
    }
    let p = if danger == 0 || n_open == 0 {
        Ratio::zero()
    } else {
        Ratio { num: danger - n_mines, den: n_open }
    };
    proof {
        let om = open_mines_near(field, know, at, 8);
        if p.is_zero() {
            lemma_no_open_mined(field, know, at, 8);
        }
        if p.num == p.den && p.den > 0 {
            lemma_all_open_mined(field, know, at, 8);
        }
    }
    let mut i: usize = 0;
    while i < 8
        invariant
            same_shape(field, know),
            k0.wf(),
            k0.rows() == know.rows(),
            k0.cols() == know.cols(),
            sound(field, know),
            tracks(front, know),
            front.items() == frontier_after(f0.items(), k0.descs(), at, i as int),
            i <= 8,
            field.in_range(at),
            !p.is_zero() ==> p.den >= 1,
            p == contribution(danger, known_mines_near(&k0, at, 8), open_near(&k0, at, 8)),
            forall|q: Pos| #[trigger] field.in_range(q) && adjacent(at, q) && is_open(k0.at(q)) ==> {
                &&& (p.is_zero() ==> !field.mine_at(q))
                &&& (p.num == p.den ==> field.mine_at(q))
            },
            forall|q: Pos| #[trigger] know.in_range(q) ==> if adjacent(at, q) && dir_to(at, q) < i {
                contributed(k0.at(q), know.at(q), dir_to(at, q), p)
            } else {
                know.at(q) == k0.at(q)
            },
        decreases 8 - i,
    {
        let q = neighbour_of(at, i);
        let ghost kt = *know;
        proof {
            lemma_dir_to(field, at);
        }
        if !field.is_active(q) {
            proof {
                assert forall|x: Pos| #[trigger] know.in_range(x) implies if adjacent(at, x) && dir_to(at, x) < i + 1 {
                    contributed(k0.at(x), know.at(x), dir_to(at, x), p)
                } else {
                    know.at(x) == k0.at(x)
                } by {
                    if adjacent(at, x) && dir_to(at, x) == i {
                        assert(field.in_range(x));
                    }
                }
            }
            i = i + 1;
            continue;
        }
        assert(dir_to(at, q) == i);
        let d = match know.get(q) {
            Some(d) => d,
            None => CellDesc::Unknown,
        };
        let change: Option<CellDesc> = if p.num == 0 {
            match d {
                CellDesc::Unknown | CellDesc::Estimate(_) => Some(CellDesc::ShouldFree),
                _ => None,
            }
        } else {
            match d {
                CellDesc::Unknown => {
                    let mut ps = [Ratio::zero(); 8];
                    ps[i] = p;
                    Some(CellDesc::Estimate(ps))
                },
                CellDesc::Estimate(qs) => {
                    let mut ps = qs;
                    ps[i] = p;
                    assert(ps@ =~= qs@.update(i as int, p));
                    Some(CellDesc::Estimate(ps))
                },
                _ => None,
            }
        };
        let ghost i0 = i as int;
        match change {
            Some(nd) => {
                let ghost kb = *know;
                let ghost fb = *front;
                proof {
                    assert(know.at(q) == k0.at(q));
                    assert(contributed(k0.at(q), nd, i as int, p));
                    assert(sound_at(field, kb.at(q), q));
                    if let CellDesc::Estimate(ps) = nd {
                        assert forall|j: int| 0 <= j < 8 implies (#[trigger] ps@[j]).den >= 1
                            && (ps@[j].num == ps@[j].den ==> field.mine_at(q)) by {
                            if j != i {
                                if let CellDesc::Estimate(qs) = kb.at(q) {
                                    assert(ps@[j] == qs@[j]);
                                }
                            }
                        }
                    }
                }
                know.set(q, nd);
                front.insert(q);
                proof {
                    lemma_after_set(field, &kb, know, &fb, front, q, nd);
                }
            },
            None => {
                proof {
                    assert(know.at(q) == k0.at(q));
                    assert(contributed(k0.at(q), know.at(q), i as int, p));
                }
            },
        }
        proof {
            assert forall|x: Pos| #[trigger] know.in_range(x) implies if adjacent(at, x) && dir_to(at, x) < i0 + 1 {
                contributed(k0.at(x), know.at(x), dir_to(at, x), p)
            } else {
                know.at(x) == k0.at(x)
            } by {
                assert(field.in_range(x));
                if x != q {
                    assert(know.at(x) == kt.at(x));
                    assert(kt.in_range(x));
                    if adjacent(at, x) {
                        assert(dir_to(at, x) != i0);
                    }
                }
            }
        }
        i = i + 1;
    }
    proof {
        lemma_counts_of_rows(&k0, at, 8);
        assert(field.rows() <= field.rows() * field.cols()) by (nonlinear_arith)
            requires field.cols() >= 1;
        assert(field.cols() <= field.rows() * field.cols()) by (nonlinear_arith)
            requires field.rows() >= 1;
        let e = estimated(k0.descs(), at, danger);
        assert forall|r: int| 0 <= r < e.len() implies #[trigger] e[r] =~= know.descs()[r] by {
            assert forall|c: int| 0 <= c < e[r].len() implies e[r][c] == know.descs()[r][c] by {
                assert(k0.descs()[r].len() == k0.cols());
                let q = (r as usize, c as usize);
                assert(know.in_range(q));
                assert(know.at(q) == know.descs()[r][c]);
                if adjacent(at, q) {
                    lemma_after_cell(k0.at(q), know.at(q), dir_to(at, q), p);
                }
            }
        }
        assert(e =~= know.descs());
        if field.mine_free() {
            field.lemma_mine_free_near(at, 8);
            assert(sound_at(field, k0.at(at), at));
            assert(danger == 0);
        }
    }
}

} // verus!
