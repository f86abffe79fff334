//! Choosing the next moves from the frontier.
use vstd::prelude::*;

use crate::frontier::Frontier;
use crate::grid::Pos;
use crate::knowledge::{danger_of, is_pending, KnowledgeGrid};

verus! {

/// A one-shot command against the player's view.
#[derive(Clone, Copy, Debug, PartialEq, Eq)]
pub enum Action {
    /// Mark the cell as holding a mine.
    Mark(Pos),
    /// Clear the cell.
    Probe(Pos),
}

/// The cell an action targets.
pub open spec fn target(a: Action) -> Pos {
    match a {
        Action::Mark(p) => p,
        Action::Probe(p) => p,
    }
}

impl Action {
    /// The cell this action targets.
    pub fn pos(&self) -> (p: Pos)
        ensures
            p == target(*self),
    {
        match self {
            Action::Mark(p) => *p,
            Action::Probe(p) => *p,
        }
    }
}

/// The certain moves among the first `n` frontier cells, in frontier order:
/// a mark for danger 1, a probe for danger 0.
pub open spec fn certain_moves(know: &KnowledgeGrid, items: Seq<Pos>, n: int) -> Seq<Action>
    decreases n,
{
    if n <= 0 {
        Seq::empty()
    } else {
        let prev = certain_moves(know, items, n - 1);
        let p = items[n - 1];
        let d = danger_of(know.at(p));
        if d.is_one() {
            prev.push(Action::Mark(p))
        } else if d.is_zero() {
            prev.push(Action::Probe(p))
        } else {
            prev
        }
    }
}

/// Among the first `n` frontier cells whose danger is neither 0 nor 1, the
/// first one of lowest danger.
pub open spec fn risky_pick(know: &KnowledgeGrid, items: Seq<Pos>, n: int) -> Option<Pos>
    decreases n,
{
    if n <= 0 {
        None
    } else {
        let prev = risky_pick(know, items, n - 1);
        let p = items[n - 1];
        let d = danger_of(know.at(p));
        if d.is_one() || d.is_zero() {
            prev
        } else {
            match prev {
                None => Some(p),
                Some(r) => if d.lt(danger_of(know.at(r))) { Some(p) } else { prev },
            }
        }
    }
}

/// The moves chosen from a frontier: its certain moves, or else a probe of
/// the risky pick, or else none.
pub open spec fn chosen(know: &KnowledgeGrid, items: Seq<Pos>) -> Seq<Action> {
    let certain = certain_moves(know, items, items.len() as int);
    if certain.len() > 0 {
        certain
    } else {
        match risky_pick(know, items, items.len() as int) {
            Some(p) => seq![Action::Probe(p)],
            None => Seq::empty(),
        }
    }
}

/// Each certain move targets an earlier frontier cell, and no two the same.
pub proof fn lemma_certain_targets(know: &KnowledgeGrid, items: Seq<Pos>, n: int)
    requires
        0 <= n <= items.len(),
        items.no_duplicates(),
    ensures
        forall|k: int| 0 <= k < certain_moves(know, items, n).len() ==> exists|j: int|
            0 <= j < n && items[j] == #[trigger] target(certain_moves(know, items, n)[k]),
        forall|k: int, l: int| 0 <= k < l < certain_moves(know, items, n).len()
            ==> target(#[trigger] certain_moves(know, items, n)[k])
                != target(#[trigger] certain_moves(know, items, n)[l]),
        forall|k: int| 0 <= k < certain_moves(know, items, n).len() ==> {
            let a = #[trigger] certain_moves(know, items, n)[k];
            &&& (a is Mark ==> danger_of(know.at(target(a))).is_one())
            &&& (a is Probe ==> danger_of(know.at(target(a))).is_zero())
        },
    decreases n,
{
    if n > 0 {
        lemma_certain_targets(know, items, n - 1);
        let prev = certain_moves(know, items, n - 1);
        let cur = certain_moves(know, items, n);
        assert forall|k: int| 0 <= k < prev.len() implies target(prev[k]) != items[n - 1] by {
            let j = choose|j: int| 0 <= j < n - 1 && items[j] == target(prev[k]);
            assert(items[j] != items[n - 1]);
        }
        assert forall|k: int| 0 <= k < cur.len() implies exists|j: int|
            0 <= j < n && items[j] == #[trigger] target(cur[k]) by {
            if k < prev.len() {
                assert(cur[k] == prev[k]);
                let j = choose|j: int| 0 <= j < n - 1 && items[j] == target(prev[k]);
                assert(0 <= j < n && items[j] == target(cur[k]));
            } else {
                assert(items[n - 1] == target(cur[k]));
            }
        }
        assert forall|k: int, l: int| 0 <= k < l < cur.len()
            implies target(#[trigger] cur[k]) != target(#[trigger] cur[l]) by {
            if l < prev.len() {
                assert(cur[k] == prev[k] && cur[l] == prev[l]);
            } else {
                assert(cur[k] == prev[k]);
            }
        }
        assert forall|k: int| 0 <= k < cur.len() implies {
            let a = #[trigger] cur[k];
            &&& (a is Mark ==> danger_of(know.at(target(a))).is_one())
            &&& (a is Probe ==> danger_of(know.at(target(a))).is_zero())
        } by {
            if k < prev.len() {
                assert(cur[k] == prev[k]);
            }
        }
    }
}

/// The risky pick, if any, is one of the first `n` frontier cells.
pub proof fn lemma_risky_member(know: &KnowledgeGrid, items: Seq<Pos>, n: int)
    requires
        0 <= n <= items.len(),
    ensures
        risky_pick(know, items, n) matches Some(p) ==> exists|j: int| 0 <= j < n && items[j] == p,
    decreases n,
{
    if n > 0 {
        lemma_risky_member(know, items, n - 1);
    }
}

/// The next moves for the frontier `front`: a mark for each cell of danger 1
/// and a probe for each cell of danger 0, in frontier order; when there is
/// none, a probe of the first cell of lowest danger; when the frontier is
/// empty, nothing.
pub fn decide(know: &KnowledgeGrid, front: &Frontier) -> (acts: Vec<Action>)
    requires
        know.wf(),
        forall|q: Pos| #[trigger] front.has(q) ==> know.in_range(q) && is_pending(know.at(q)),
    ensures
        acts@ == chosen(know, front.items()),
{
    let mut acts: Vec<Action> = Vec::new();
    let mut risky: Option<Pos> = None;
    let mut risky_danger = crate::knowledge::Ratio::zero();
    let n = front.len();
    let mut i: usize = 0;
    while i < n
        invariant
            know.wf(),
            forall|q: Pos| #[trigger] front.has(q) ==> know.in_range(q) && is_pending(know.at(q)),
            n == front.items().len(),
            i <= n,
            acts@ == certain_moves(know, front.items(), i as int),
            risky == risky_pick(know, front.items(), i as int),
            risky matches Some(r) ==> risky_danger == danger_of(know.at(r)),
        decreases n - i,
    {
        let p = front.at(i);
        assert(front.has(p));
        let d = match know.get(p) {
            Some(cell) => cell.danger(),
            None => crate::knowledge::Ratio::zero(),
        };
        if d.certain() {
            acts.push(Action::Mark(p));
        } else if d.num == 0 {
            acts.push(Action::Probe(p));
        } else {
            match risky {
                None => {
                    risky = Some(p);
                    risky_danger = d;
                },
                Some(_) => {
                    if d.less_than(&risky_danger) {
                        risky = Some(p);
                        risky_danger = d;
                    }
                },
            }
        }
        i = i + 1;
    }
    if acts.len() == 0 {
        match risky {
            Some(p) => acts.push(Action::Probe(p)),
            None => {},
        }
    }
    proof {
        if acts@.len() == 1 && certain_moves(know, front.items(), n as int).len() == 0 {
            assert(acts@ =~= seq![Action::Probe(risky->Some_0)]);
        }
    }
    acts
}

} // verus!
