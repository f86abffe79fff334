//! Two-dimensional storage for the boards, positions and the Moore
//! neighbourhood.
use vstd::prelude::*;

use crate::board::CellState;
use crate::knowledge::CellDesc;

verus! {

/// The largest number of cells, and the largest length of one side, a grid may
/// have: an element takes at most 32 bytes, and the storage of a grid stays
/// within `isize::MAX` bytes.
pub open spec fn max_cells() -> int {
    isize::MAX / 32
}

/// A cell position: (row, column).
pub type Pos = (usize, usize);

/// A rectangular array of cells, kept in an `ndarray` two-dimensional array.
#[verifier::external_body]
#[verifier::reject_recursive_types(T)]
pub struct Grid<T> {
    cells: ndarray::Array2<T>,
}

/// Contents of a grid of mine flags, row by row.
pub uninterp spec fn bool_cells(g: Grid<bool>) -> Seq<Seq<bool>>;

/// Contents of a grid of player-visible states, row by row.
pub uninterp spec fn state_cells(g: Grid<CellState>) -> Seq<Seq<CellState>>;

/// Contents of a grid of solver beliefs, row by row.
pub uninterp spec fn desc_cells(g: Grid<CellDesc>) -> Seq<Seq<CellDesc>>;

/// The grid with `n_rows` rows of `n_cols` copies of `v`.
pub open spec fn filled<T>(n_rows: usize, n_cols: usize, v: T) -> Seq<Seq<T>> {
    Seq::new(n_rows as nat, |r: int| Seq::new(n_cols as nat, |c: int| v))
}

/// `cells` with the entry at (r, c) replaced by `v`.
pub open spec fn updated<T>(cells: Seq<Seq<T>>, r: usize, c: usize, v: T) -> Seq<Seq<T>> {
    cells.update(r as int, cells[r as int].update(c as int, v))
}

/// The entry at (r, c), or `None` outside the grid.
pub open spec fn lookup<T>(cells: Seq<Seq<T>>, r: usize, c: usize) -> Option<T> {
    if r < cells.len() && c < cells[r as int].len() {
        Some(cells[r as int][c as int])
    } else {
        None
    }
}

/// Relies on ndarray::Array::from_elem: an array of shape (n_rows, n_cols)
/// whose elements are all `v`; it panics when the product of the non-zero axis
/// lengths exceeds `isize::MAX`, or when the storage would exceed `isize::MAX`
/// bytes.
#[verifier::external_body]
pub(crate) fn bool_grid(n_rows: usize, n_cols: usize, v: bool) -> (g: Grid<bool>)
    requires
        n_rows <= max_cells(),
        n_cols <= max_cells(),
        n_rows * n_cols <= max_cells(),
    ensures
        bool_cells(g) == filled(n_rows, n_cols, v),
{
    Grid { cells: ndarray::Array2::from_elem((n_rows, n_cols), v) }
}

/// Relies on ndarray::ArrayBase::get: the element at (r, c), or `None` when
/// the index is out of bounds.
#[verifier::external_body]
pub(crate) fn bool_get(g: &Grid<bool>, r: usize, c: usize) -> (x: Option<bool>)
    ensures
        x == lookup(bool_cells(*g), r, c),
{
    g.cells.get((r, c)).copied()
}

/// Relies on ndarray's IndexMut for a two-dimensional array: the element at
/// (r, c) is replaced; it panics when the index is out of bounds.
#[verifier::external_body]
pub(crate) fn bool_set(g: &mut Grid<bool>, r: usize, c: usize, v: bool)
    requires
        r < bool_cells(*old(g)).len(),
        c < bool_cells(*old(g))[r as int].len(),
    ensures
        bool_cells(*final(g)) == updated(bool_cells(*old(g)), r, c, v),
{
    g.cells[(r, c)] = v;
}

/// Relies on ndarray::Array::from_elem: an array of shape (n_rows, n_cols)
/// whose elements are all `v`; it panics when the product of the non-zero axis
/// lengths exceeds `isize::MAX`, or when the storage would exceed `isize::MAX`
/// bytes.
#[verifier::external_body]
pub(crate) fn state_grid(n_rows: usize, n_cols: usize, v: CellState) -> (g: Grid<CellState>)
    requires
        n_rows <= max_cells(),
        n_cols <= max_cells(),
        n_rows * n_cols <= max_cells(),
    ensures
        state_cells(g) == filled(n_rows, n_cols, v),
{
    Grid { cells: ndarray::Array2::from_elem((n_rows, n_cols), v) }
}

/// Relies on ndarray::ArrayBase::get: the element at (r, c), or `None` when
/// the index is out of bounds.
#[verifier::external_body]
pub(crate) fn state_get(g: &Grid<CellState>, r: usize, c: usize) -> (x: Option<CellState>)
    ensures
        x == lookup(state_cells(*g), r, c),
{
    g.cells.get((r, c)).copied()
}

/// Relies on ndarray's IndexMut for a two-dimensional array: the element at
/// (r, c) is replaced; it panics when the index is out of bounds.
#[verifier::external_body]
pub(crate) fn state_set(g: &mut Grid<CellState>, r: usize, c: usize, v: CellState)
    requires
        r < state_cells(*old(g)).len(),
        c < state_cells(*old(g))[r as int].len(),
    ensures
        state_cells(*final(g)) == updated(state_cells(*old(g)), r, c, v),
{
    g.cells[(r, c)] = v;
}

/// Relies on ndarray::Array::from_elem: an array of shape (n_rows, n_cols)
/// whose elements are all `v`; it panics when the product of the non-zero axis
/// lengths exceeds `isize::MAX`, or when the storage would exceed `isize::MAX`
/// bytes.
#[verifier::external_body]
pub(crate) fn desc_grid(n_rows: usize, n_cols: usize, v: CellDesc) -> (g: Grid<CellDesc>)
    requires
        n_rows <= max_cells(),
        n_cols <= max_cells(),
        n_rows * n_cols <= max_cells(),
    ensures
        desc_cells(g) == filled(n_rows, n_cols, v),
{
    Grid { cells: ndarray::Array2::from_elem((n_rows, n_cols), v) }
}

/// Relies on ndarray::ArrayBase::get: the element at (r, c), or `None` when
/// the index is out of bounds.
#[verifier::external_body]
pub(crate) fn desc_get(g: &Grid<CellDesc>, r: usize, c: usize) -> (x: Option<CellDesc>)
    ensures
        x == lookup(desc_cells(*g), r, c),
{
    g.cells.get((r, c)).copied()
}

/// Relies on ndarray's IndexMut for a two-dimensional array: the element at
/// (r, c) is replaced; it panics when the index is out of bounds.
#[verifier::external_body]
pub(crate) fn desc_set(g: &mut Grid<CellDesc>, r: usize, c: usize, v: CellDesc)
    requires
        r < desc_cells(*old(g)).len(),
        c < desc_cells(*old(g))[r as int].len(),
    ensures
        desc_cells(*final(g)) == updated(desc_cells(*old(g)), r, c, v),
{
    g.cells[(r, c)] = v;
}

/// Row offset of the neighbour in direction `i` (0..8, row by row, centre
/// left out).
pub open spec fn dir_row(i: int) -> int {
    if i < 3 { -1 } else if i < 5 { 0 } else { 1 }
}

/// Column offset of the neighbour in direction `i`.
pub open spec fn dir_col(i: int) -> int {
    if i == 0 || i == 3 || i == 5 { -1 } else if i == 1 || i == 6 { 0 } else { 1 }
}

/// What `offset` returns: `x + diff` where that is a `usize`, else `usize::MAX`,
/// which lies outside every grid.
pub open spec fn offset_of(x: int, diff: int) -> int {
    if 0 <= x + diff <= usize::MAX { x + diff } else { usize::MAX as int }
}

/// The neighbour of `p` in direction `i`, as `offset` computes it.
pub open spec fn neighbour(p: Pos, i: int) -> Pos {
    (offset_of(p.0 as int, dir_row(i)) as usize, offset_of(p.1 as int, dir_col(i)) as usize)
}

/// Shifts a coordinate by `diff`; a shift below zero gives `usize::MAX`.
pub fn offset(x: usize, diff: i8) -> (r: usize)
    ensures
        r == offset_of(x as int, diff as int),
{
    if diff < 0 {
        let down: usize = (0i16 - diff as i16) as usize;
        if x < down { usize::MAX } else { x - down }
    } else {
        let up: usize = diff as usize;
        if x > usize::MAX - up { usize::MAX } else { x + up }
    }
}

/// The offsets of the neighbour in direction `i`.
pub fn direction(i: usize) -> (d: (i8, i8))
    requires
        i < 8,
    ensures
        d.0 == dir_row(i as int),
        d.1 == dir_col(i as int),
{
    if i == 0 { (-1, -1) }
    else if i == 1 { (-1, 0) }
    else if i == 2 { (-1, 1) }
    else if i == 3 { (0, -1) }
    else if i == 4 { (0, 1) }
    else if i == 5 { (1, -1) }
    else if i == 6 { (1, 0) }
    else { (1, 1) }
}

/// The neighbour of `p` in direction `i`.
pub fn neighbour_of(p: Pos, i: usize) -> (q: Pos)
    requires
        i < 8,
    ensures
        q == neighbour(p, i as int),
{
    let d = direction(i);
    (offset(p.0, d.0), offset(p.1, d.1))
}

} // verus!
