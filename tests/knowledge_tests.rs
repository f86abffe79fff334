use minesolver::board::{CellState, PlayerView};
use minesolver::field::MineField;
use minesolver::frontier::Frontier;
use minesolver::knowledge::{max, CellDesc, KnowledgeGrid, Ratio};
use minesolver::propagate::update_estimates;

fn r(num: u8, den: u8) -> Ratio {
    Ratio { num, den }
}

#[test]
fn ratio_order() {
    assert!(r(1, 3).less_than(&r(1, 2)));
    assert!(!r(1, 2).less_than(&r(2, 4)));
    assert!(!r(2, 4).less_than(&r(1, 2)));
    assert!(r(0, 1).less_than(&r(1, 8)));
    assert!(r(3, 3).certain());
    assert!(!r(2, 3).certain());
    assert!(!r(0, 0).certain());
}

#[test]
fn max_takes_largest_and_first_of_equals() {
    let xs = [r(0, 1), r(1, 4), r(1, 2), r(1, 3), r(2, 4), r(0, 1), r(1, 5), r(0, 1)];
    assert_eq!(max(&xs), r(1, 2));
    let ys = [r(0, 1); 8];
    assert_eq!(max(&ys), r(0, 1));
}

#[test]
fn danger_of_each_belief() {
    assert_eq!(CellDesc::Mine.danger(), r(1, 1));
    assert_eq!(CellDesc::ShouldFree.danger(), r(0, 1));
    assert_eq!(CellDesc::Free(3).danger(), r(0, 1));
    let mut ps = [r(0, 1); 8];
    ps[2] = r(1, 3);
    ps[6] = r(1, 2);
    assert_eq!(CellDesc::Estimate(ps).danger(), r(1, 2));
}

#[test]
fn player_view_marks_and_clears() {
    let mut b = PlayerView::new(2, 3);
    assert_eq!(b.get((1, 2)), Some(CellState::Unknown));
    b.mark((1, 2));
    b.clear((0, 0));
    assert_eq!(b.get((1, 2)), Some(CellState::Marked));
    assert_eq!(b.get((0, 0)), Some(CellState::Free));
    assert_eq!(b.get((0, 1)), Some(CellState::Unknown));
    assert_eq!(b.get((2, 0)), None);
}

#[test]
fn frontier_keeps_insertion_order() {
    let mut f = Frontier::new();
    f.insert((1, 1));
    f.insert((0, 2));
    f.insert((1, 1));
    f.insert((3, 0));
    assert_eq!(f.len(), 3);
    assert_eq!(f.at(0), (1, 1));
    assert_eq!(f.at(1), (0, 2));
    f.remove((0, 2));
    f.remove((7, 7));
    assert_eq!(f.len(), 2);
    assert_eq!(f.at(0), (1, 1));
    assert_eq!(f.at(1), (3, 0));
    assert!(f.contains((3, 0)));
    assert!(!f.contains((0, 2)));
}

fn slots(d: Option<CellDesc>) -> [Ratio; 8] {
    match d {
        Some(CellDesc::Estimate(ps)) => ps,
        other => panic!("expected an estimate, got {:?}", other),
    }
}

#[test]
fn corner_spreads_evenly_over_three_unknowns() {
    let field = MineField::from_layout(&vec![
        vec![false, false, false],
        vec![false, true, false],
        vec![false, false, false],
    ]);
    let mut know = KnowledgeGrid::new(3, 3);
    let mut front = Frontier::new();
    know.set((0, 0), CellDesc::Free(1));
    update_estimates(&field, &mut know, (0, 0), 1, &mut front);
    let east = slots(know.get((0, 1)));
    assert_eq!(east[4], r(1, 3));
    assert_eq!(slots(know.get((1, 0)))[6], r(1, 3));
    assert_eq!(slots(know.get((1, 1)))[7], r(1, 3));
    assert_eq!(east[0], r(0, 1));
    assert!(matches!(know.get((2, 2)), Some(CellDesc::Unknown)));
    assert_eq!(front.len(), 3);
    assert_eq!(front.at(0), (0, 1));
    assert_eq!(front.at(1), (1, 0));
    assert_eq!(front.at(2), (1, 1));
}

#[test]
fn zero_count_frees_open_neighbours() {
    let field = MineField::new(3, 3);
    let mut know = KnowledgeGrid::new(3, 3);
    let mut front = Frontier::new();
    let mut ps = [r(0, 1); 8];
    ps[0] = r(1, 2);
    know.set((1, 1), CellDesc::Estimate(ps));
    know.set((0, 1), CellDesc::Mine);
    know.set((0, 0), CellDesc::Free(0));
    update_estimates(&field, &mut know, (0, 0), 0, &mut front);
    assert!(matches!(know.get((1, 1)), Some(CellDesc::ShouldFree)));
    assert!(matches!(know.get((1, 0)), Some(CellDesc::ShouldFree)));
    assert!(matches!(know.get((0, 1)), Some(CellDesc::Mine)));
    assert!(matches!(know.get((2, 2)), Some(CellDesc::Unknown)));
}

#[test]
fn known_mines_are_taken_off_the_count() {
    // Two mines around (1, 0); one is known, so the other two open
    // neighbours share the remaining one.
    let field = MineField::from_layout(&vec![
        vec![true, false],
        vec![false, false],
        vec![true, false],
    ]);
    let mut know = KnowledgeGrid::new(3, 2);
    let mut front = Frontier::new();
    know.set((0, 0), CellDesc::Mine);
    know.set((0, 1), CellDesc::Free(1));
    know.set((1, 1), CellDesc::Free(2));
    know.set((1, 0), CellDesc::Free(2));
    update_estimates(&field, &mut know, (1, 0), 2, &mut front);
    assert_eq!(slots(know.get((2, 0)))[6], r(1, 2));
    assert_eq!(slots(know.get((2, 1)))[7], r(1, 2));
}
