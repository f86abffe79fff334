//! Counting the set entries of boolean rows and grids.
use vstd::prelude::*;

use crate::grid::{filled, updated};

verus! {

/// 1 for `true`, 0 for `false`.
pub open spec fn one_if(b: bool) -> nat {
    if b { 1 } else { 0 }
}

/// The number of `true` entries of a row.
pub open spec fn row_trues(s: Seq<bool>) -> nat
    decreases s.len(),
{
    if s.len() == 0 { 0 } else { row_trues(s.drop_last()) + one_if(s.last()) }
}

/// The number of `true` entries of a grid.
pub open spec fn grid_trues(g: Seq<Seq<bool>>) -> nat
    decreases g.len(),
{
    if g.len() == 0 { 0 } else { grid_trues(g.drop_last()) + row_trues(g.last()) }
}

/// Every row of `g` has `n_cols` entries.
pub open spec fn rows_of_len<T>(g: Seq<Seq<T>>, n_cols: nat) -> bool {
    forall|r: int| 0 <= r < g.len() ==> #[trigger] g[r].len() == n_cols
}

/// Replacing one entry of a row changes its count by the difference.
pub proof fn lemma_row_update(s: Seq<bool>, c: int, v: bool)
    requires
        0 <= c < s.len(),
    ensures
        row_trues(s.update(c, v)) + one_if(s[c]) == row_trues(s) + one_if(v),
    decreases s.len(),
{
    let t = s.update(c, v);
    if c == s.len() - 1 {
        assert(t.drop_last() =~= s.drop_last());
    } else {
        assert(t.drop_last() =~= s.drop_last().update(c, v));
        lemma_row_update(s.drop_last(), c, v);
    }
}

/// Replacing one entry of a grid changes its count by the difference.
pub proof fn lemma_grid_update(g: Seq<Seq<bool>>, r: usize, c: usize, v: bool)
    requires
        r < g.len(),
        c < g[r as int].len(),
    ensures
        grid_trues(updated(g, r, c, v)) + one_if(g[r as int][c as int])
            == grid_trues(g) + one_if(v),
    decreases g.len(),
{
    let h = updated(g, r, c, v);
    lemma_row_update(g[r as int], c as int, v);
    if r == g.len() - 1 {
        assert(h.drop_last() =~= g.drop_last());
    } else {
        assert(h.drop_last() =~= updated(g.drop_last(), r, c, v));
        lemma_grid_update(g.drop_last(), r, c, v);
    }
}

/// A row whose entries each imply those of another counts no more.
pub proof fn lemma_row_mono(a: Seq<bool>, b: Seq<bool>)
    requires
        a.len() == b.len(),
        forall|i: int| 0 <= i < a.len() && #[trigger] a[i] ==> b[i],
    ensures
        row_trues(a) <= row_trues(b),
    decreases a.len(),
{
    if a.len() > 0 {
        lemma_row_mono(a.drop_last(), b.drop_last());
    }
}

/// A grid whose entries each imply those of another counts no more.
pub proof fn lemma_grid_mono(a: Seq<Seq<bool>>, b: Seq<Seq<bool>>)
    requires
        a.len() == b.len(),
        forall|r: int| 0 <= r < a.len() ==> (#[trigger] a[r]).len() == b[r].len(),
        forall|r: int, c: int|
            0 <= r < a.len() && 0 <= c < a[r].len() && #[trigger] a[r][c] ==> b[r][c],
    ensures
        grid_trues(a) <= grid_trues(b),
    decreases a.len(),
{
    if a.len() > 0 {
        let r = a.len() - 1;
        lemma_row_mono(a[r], b[r]);
        lemma_grid_mono(a.drop_last(), b.drop_last());
    }
}

/// A row of `n` equal entries counts `n` or nothing.
pub proof fn lemma_row_filled(n: nat, v: bool)
    ensures
        row_trues(Seq::new(n, |c: int| v)) == if v { n } else { 0 },
    decreases n,
{
    if n > 0 {
        assert(Seq::new(n, |c: int| v).drop_last() =~= Seq::new((n - 1) as nat, |c: int| v));
        lemma_row_filled((n - 1) as nat, v);
    }
}

/// A filled grid counts all its cells or none.
pub proof fn lemma_grid_filled(n_rows: usize, n_cols: usize, v: bool)
    ensures
        grid_trues(filled(n_rows, n_cols, v)) == if v { n_rows * n_cols } else { 0 },
    decreases n_rows,
{
    lemma_row_filled(n_cols as nat, v);
    if n_rows == 0 {
        assert(0 * n_cols == 0);
    } else {
        let g = filled(n_rows, n_cols, v);
        assert(g.drop_last() =~= filled((n_rows - 1) as usize, n_cols, v));
        assert(g.last() =~= Seq::new(n_cols as nat, |c: int| v));
        lemma_grid_filled((n_rows - 1) as usize, n_cols, v);
        assert(((n_rows - 1) as usize) * n_cols + n_cols == n_rows * n_cols) by (nonlinear_arith)
            requires n_rows > 0;
        assert(grid_trues(g) == grid_trues(g.drop_last()) + row_trues(g.last()));
    }
}

/// A grid of `n_rows` rows of `n_cols` entries counts at most `n_rows * n_cols`.
pub proof fn lemma_grid_bound(g: Seq<Seq<bool>>, n_rows: usize, n_cols: usize)
    requires
        g.len() == n_rows,
        rows_of_len(g, n_cols as nat),
    ensures
        grid_trues(g) <= n_rows * n_cols,
{
    lemma_grid_mono(g, filled(n_rows, n_cols, true));
    lemma_grid_filled(n_rows, n_cols, true);
}

/// A grid that counts nothing has no `true` entry.
pub proof fn lemma_grid_none(g: Seq<Seq<bool>>)
    requires
        grid_trues(g) == 0,
    ensures
        forall|r: int, c: int| 0 <= r < g.len() && 0 <= c < g[r].len() ==> !#[trigger] g[r][c],
    decreases g.len(),
{
    if g.len() > 0 {
        lemma_grid_none(g.drop_last());
        assert forall|c: int| 0 <= c < g.last().len() implies !g.last()[c] by {
            if g.last()[c] {
                lemma_row_positive(g.last(), c);
            }
        }
        assert forall|r: int, c: int| 0 <= r < g.len() && 0 <= c < g[r].len() implies !g[r][c] by {
            if r < g.len() - 1 {
                assert(g[r] == g.drop_last()[r]);
            }
        }
    }
}

/// A grid that counts something has a `true` entry.
pub proof fn lemma_grid_some(g: Seq<Seq<bool>>)
    requires
        grid_trues(g) > 0,
    ensures
        exists|r: int, c: int| 0 <= r < g.len() && 0 <= c < g[r].len() && #[trigger] g[r][c],
    decreases g.len(),
{
    if row_trues(g.last()) > 0 {
        let c = lemma_row_some(g.last());
        assert(g[g.len() - 1][c]);
    } else {
        lemma_grid_some(g.drop_last());
        let (r, c) = choose|r: int, c: int| 0 <= r < g.drop_last().len() && 0 <= c < g.drop_last()[r].len()
            && #[trigger] g.drop_last()[r][c];
        assert(g[r][c]);
    }
}

/// A row that counts something has a `true` entry, returned.
pub proof fn lemma_row_some(s: Seq<bool>) -> (c: int)
    requires
        row_trues(s) > 0,
    ensures
        0 <= c < s.len(),
        s[c],
    decreases s.len(),
{
    if s.last() {
        s.len() - 1
    } else {
        lemma_row_some(s.drop_last())
    }
}

/// A row with a `true` entry counts at least one.
pub proof fn lemma_row_positive(s: Seq<bool>, c: int)
    requires
        0 <= c < s.len(),
        s[c],
    ensures
        row_trues(s) >= 1,
    decreases s.len(),
{
    if c < s.len() - 1 {
        lemma_row_positive(s.drop_last(), c);
    }
}

} // verus!
