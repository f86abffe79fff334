use minesolver::board::CellState;
use minesolver::decide::Action;
use minesolver::engine::{Engine, Outcome};
use minesolver::field::MineField;
use minesolver::knowledge::{CellDesc, Ratio};

fn layout(rows: &[&str]) -> MineField {
    MineField::from_layout(&rows.iter().map(|r| r.chars().map(|c| c == '*').collect()).collect())
}

fn settled(d: CellDesc) -> bool {
    matches!(d, CellDesc::Mine | CellDesc::Free(_) | CellDesc::ShouldFree)
}

fn beliefs(e: &Engine) -> Vec<CellDesc> {
    let k = e.knowledge();
    let f = e.field();
    let mut v = Vec::new();
    for r in 0..f.n_rows() {
        for c in 0..f.n_cols() {
            v.push(k.get((r, c)).unwrap());
        }
    }
    v
}

/// Steps to the end, checking after each round that resolved beliefs stay
/// resolved and that the frontier holds only estimates and certain-free cells.
fn play(e: &mut Engine) -> Outcome {
    loop {
        let before = beliefs(e);
        let o = e.step();
        let after = beliefs(e);
        for (b, a) in before.iter().zip(after.iter()) {
            if settled(*b) {
                assert!(settled(*a));
            }
        }
        let fr = e.frontier();
        for i in 0..fr.len() {
            let d = e.knowledge().get(fr.at(i)).unwrap();
            assert!(matches!(d, CellDesc::Estimate(_) | CellDesc::ShouldFree));
        }
        assert!(e.n_marked() <= e.field().n_mines());
        let pending_marks = e.actions().iter().filter(|a| matches!(a, Action::Mark(_))).count();
        assert!(e.n_marked() + pending_marks <= e.field().n_mines());
        for a in e.actions() {
            if let Action::Mark(p) = a {
                assert!(e.field().has_mine(*p));
            }
        }
        if !matches!(o, Outcome::Running) {
            return o;
        }
    }
}

#[test]
fn center_mine_from_corner() {
    let field = layout(&["...", ".*.", "..."]);
    let mut e = Engine::new(field, (0, 0));
    let mut center_certain = false;
    loop {
        let o = e.step();
        if e.actions().contains(&Action::Mark((1, 1))) {
            let d = e.knowledge().get((1, 1)).unwrap().danger();
            assert!(d.certain());
            let mut ones = 0;
            for p in [(0, 1), (1, 0), (1, 2), (2, 1)] {
                if matches!(e.knowledge().get(p), Some(CellDesc::Free(1))) {
                    ones += 1;
                }
            }
            assert!(ones >= 2);
            center_certain = true;
        }
        if !matches!(o, Outcome::Running) {
            assert_eq!(o, Outcome::Complete);
            break;
        }
    }
    assert!(center_certain);
    assert_eq!(e.board().get((1, 1)), Some(CellState::Marked));
    for r in 0..3 {
        for c in 0..3 {
            if (r, c) != (1, 1) {
                assert_eq!(e.board().get((r, c)), Some(CellState::Free));
            }
        }
    }
}

#[test]
fn center_mine_first_round_estimates() {
    let field = layout(&["...", ".*.", "..."]);
    let mut e = Engine::new(field, (0, 0));
    assert_eq!(e.step(), Outcome::Running);
    assert!(matches!(e.knowledge().get((0, 0)), Some(CellDesc::Free(1))));
    assert_eq!(e.knowledge().get((1, 1)).unwrap().danger(), Ratio { num: 1, den: 3 });
    assert_eq!(e.actions().len(), 1);
    assert_eq!(e.actions()[0], Action::Probe((0, 1)));
}

#[test]
fn all_mines_fails_at_once() {
    for start in [(0, 0), (1, 2), (2, 1)] {
        let field = layout(&["***", "***", "***"]);
        let mut e = Engine::new(field, start);
        assert_eq!(e.step(), Outcome::Failed(start));
        assert_eq!(e.status(), Outcome::Failed(start));
        assert_eq!(e.step(), Outcome::Failed(start));
    }
}

#[test]
fn all_safe_small_completes_after_one_cascade() {
    let field = layout(&["..", ".."]);
    let mut e = Engine::new(field, (0, 0));
    assert_eq!(e.step(), Outcome::Running);
    assert_eq!(e.actions().len(), 3);
    for a in e.actions() {
        assert!(matches!(a, Action::Probe(_)));
    }
    for p in [(0, 1), (1, 0), (1, 1)] {
        assert!(matches!(e.knowledge().get(p), Some(CellDesc::ShouldFree)));
        assert!(e.actions().contains(&Action::Probe(p)));
    }
    assert_eq!(e.step(), Outcome::Complete);
    assert_eq!(e.uncleared(), 0);
}

#[test]
fn all_safe_probes_only_certain_cells() {
    let field = MineField::new(6, 9);
    let mut e = Engine::new(field, (2, 4));
    loop {
        let o = e.step();
        for a in e.actions() {
            match a {
                Action::Probe(p) => assert_eq!(e.knowledge().get(*p).unwrap().danger().num, 0),
                Action::Mark(_) => panic!("no mine to mark"),
            }
        }
        if !matches!(o, Outcome::Running) {
            assert_eq!(o, Outcome::Complete);
            break;
        }
    }
}

#[test]
fn no_mines_terminates_complete_from_any_start() {
    for (rows, cols) in [(2, 2), (2, 5), (4, 3), (7, 7)] {
        for r in 0..rows {
            for c in 0..cols {
                let mut e = Engine::new(MineField::new(rows, cols), (r, c));
                assert_eq!(play(&mut e), Outcome::Complete);
                assert_eq!(e.uncleared(), 0);
                assert_eq!(e.n_marked(), 0);
            }
        }
    }
}

#[test]
fn first_round_probes_the_start() {
    let field = layout(&[".....", ".*...", "....*"]);
    let e = Engine::new(field, (2, 0));
    assert_eq!(e.status(), Outcome::Running);
    assert_eq!(e.actions().len(), 1);
    assert_eq!(e.actions()[0], Action::Probe((2, 0)));
    assert_eq!(e.uncleared(), 15);
}

#[test]
fn wall_of_mines_gets_stuck() {
    let field = layout(&[".*."]);
    let mut e = Engine::new(field, (0, 0));
    assert_eq!(e.step(), Outcome::Running);
    assert_eq!(e.actions()[0], Action::Mark((0, 1)));
    assert_eq!(e.step(), Outcome::Stuck);
    assert_eq!(e.uncleared(), 1);
    assert_eq!(e.n_marked(), 1);
    assert_eq!(e.board().get((0, 1)), Some(CellState::Marked));
}

#[test]
fn marks_are_mines_and_completion_clears_the_rest() {
    let rows = ["..*....", ".......", "....*..", ".......", "*......"];
    let mut e = Engine::new(layout(&rows), (2, 0));
    let o = play(&mut e);
    let f = e.field();
    for r in 0..f.n_rows() {
        for c in 0..f.n_cols() {
            if e.board().get((r, c)) == Some(CellState::Marked) {
                assert!(f.has_mine((r, c)));
            }
            if o == Outcome::Complete && !f.has_mine((r, c)) {
                assert_eq!(e.board().get((r, c)), Some(CellState::Free));
            }
        }
    }
    if let Outcome::Failed(p) = o {
        assert!(f.has_mine(p));
    }
}

#[test]
fn run_ends_the_game() {
    let mut e = Engine::new(layout(&["....", ".*..", "....", "...*"]), (0, 3));
    let o = e.run();
    assert!(!matches!(o, Outcome::Running));
    assert_eq!(e.status(), o);
    assert!(e.actions().is_empty());
}

#[test]
fn random_fields_respect_the_invariants() {
    let mut rng = rand::thread_rng();
    for _ in 0..20 {
        let mut f = MineField::new(8, 12);
        f.random_fill(&mut rng, 12, 100);
        let mut e = Engine::new(f, (0, 0));
        play(&mut e);
    }
}
