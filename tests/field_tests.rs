use minesolver::field::{is_mine, MineField, DANGER_MINE};
use minesolver::grid::{direction, neighbour_of, offset};

fn layout(rows: &[&str]) -> Vec<Vec<bool>> {
    rows.iter().map(|r| r.chars().map(|c| c == '*').collect()).collect()
}

#[test]
fn test_neigh_values() {
    // Every neighbour lies one step away at most, and no two coincide.
    let mut seen = Vec::new();
    for i in 0..8 {
        let (dr, dc) = direction(i);
        assert!((-1..=1).contains(&dr) && (-1..=1).contains(&dc));
        assert!(!(dr == 0 && dc == 0));
        assert!(!seen.contains(&(dr, dc)));
        seen.push((dr, dc));
    }
}

#[test]
fn offset_shifts_and_wraps_below_zero() {
    assert_eq!(offset(5, -1), 4);
    assert_eq!(offset(5, 1), 6);
    assert_eq!(offset(0, 0), 0);
    assert_eq!(offset(0, -1), usize::MAX);
    assert_eq!(offset(usize::MAX, 1), usize::MAX);
}

#[test]
fn neighbours_of_origin() {
    assert_eq!(neighbour_of((0, 0), 7), (1, 1));
    assert_eq!(neighbour_of((0, 0), 0), (usize::MAX, usize::MAX));
    assert_eq!(neighbour_of((2, 3), 3), (2, 2));
}

#[test]
fn mine_sentinel() {
    assert!(is_mine(DANGER_MINE));
    assert!(is_mine(11));
    assert!(!is_mine(8));
    assert!(!is_mine(0));
}

#[test]
fn new_field_is_empty() {
    let f = MineField::new(3, 4);
    assert_eq!(f.n_rows(), 3);
    assert_eq!(f.n_cols(), 4);
    assert_eq!(f.n_mines(), 0);
    for r in 0..3 {
        for c in 0..4 {
            assert!(!f.has_mine((r, c)));
            assert_eq!(f.probe((r, c)), 0);
        }
    }
}

#[test]
fn layout_places_mines() {
    let f = MineField::from_layout(&layout(&["*..", "..*"]));
    assert_eq!(f.n_mines(), 2);
    assert!(f.has_mine((0, 0)));
    assert!(f.has_mine((1, 2)));
    assert!(!f.has_mine((0, 1)));
    assert!(!f.has_mine((5, 5)));
    assert!(f.is_active((1, 2)));
    assert!(!f.is_active((2, 0)));
}

#[test]
fn probe_counts_neighbour_mines() {
    let f = MineField::from_layout(&layout(&["*.*", "...", "**."]));
    assert_eq!(f.probe((1, 1)), 4);
    assert_eq!(f.probe((0, 1)), 2);
    assert_eq!(f.probe((1, 0)), 3);
    assert_eq!(f.probe((1, 2)), 2);
    assert_eq!(f.probe((2, 2)), 1);
    assert_eq!(f.probe((0, 0)), DANGER_MINE);
}

#[test]
fn probe_matches_brute_force_count() {
    let rows = ["*..*.", ".*...", "...**", "*...."];
    let l = layout(&rows);
    let f = MineField::from_layout(&l);
    for r in 0..4i64 {
        for c in 0..5i64 {
            let mut n = 0;
            for dr in -1..=1i64 {
                for dc in -1..=1i64 {
                    let (rr, cc) = (r + dr, c + dc);
                    if (dr, dc) != (0, 0) && rr >= 0 && cc >= 0 && rr < 4 && cc < 5 && l[rr as usize][cc as usize] {
                        n += 1;
                    }
                }
            }
            let got = f.probe((r as usize, c as usize));
            if l[r as usize][c as usize] {
                assert_eq!(got, DANGER_MINE);
            } else {
                assert_eq!(got, n);
            }
        }
    }
}

#[test]
fn place_mine_counts_once() {
    let mut f = MineField::new(2, 2);
    f.place_mine((1, 1));
    f.place_mine((1, 1));
    assert_eq!(f.n_mines(), 1);
    assert_eq!(f.probe((0, 0)), 1);
}

#[test]
fn random_fill_extremes() {
    let mut rng = rand::thread_rng();
    let mut full = MineField::new(4, 5);
    full.random_fill(&mut rng, 7, 7);
    assert_eq!(full.n_mines(), 20);
    let mut none = MineField::new(4, 5);
    none.random_fill(&mut rng, 0, 3);
    assert_eq!(none.n_mines(), 0);
}

#[test]
fn random_fill_counts_what_it_places() {
    let mut rng = rand::thread_rng();
    let mut f = MineField::new(10, 10);
    f.random_fill(&mut rng, 1, 2);
    let mut n = 0;
    for r in 0..10 {
        for c in 0..10 {
            if f.has_mine((r, c)) {
                n += 1;
            }
        }
    }
    assert_eq!(f.n_mines(), n);
}

#[test]
fn draws_below_density_place_mines_row_by_row() {
    let mut f = MineField::new(2, 3);
    f.place_mine((1, 0));
    let draws = vec![5, 30, 11, 99, 12, 0];
    f.place_by_draws(&draws, 12);
    let expected = [[true, false, true], [true, false, true]];
    for r in 0..2 {
        for c in 0..3 {
            assert_eq!(f.has_mine((r, c)), expected[r][c]);
        }
    }
    assert_eq!(f.n_mines(), 4);
}

#[test]
fn no_draw_below_zero_density() {
    let mut f = MineField::new(2, 2);
    f.place_by_draws(&vec![0, 0, 0, 0], 0);
    assert_eq!(f.n_mines(), 0);
}

#[test]
fn full_density_on_a_mined_field_counts_every_cell_once() {
    let mut rng = rand::thread_rng();
    let mut f = MineField::new(3, 3);
    f.place_mine((1, 1));
    f.random_fill(&mut rng, 4, 4);
    assert_eq!(f.n_mines(), 9);
}
