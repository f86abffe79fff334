//! The solver's beliefs about each cell.
use vstd::prelude::*;

use crate::grid::{max_cells, desc_cells, desc_get, desc_grid, desc_set, filled, updated, Grid, Pos};

verus! {

/// A probability `num / den` of holding a mine.
#[derive(Clone, Copy, Debug, PartialEq, Eq, Structural)]
pub struct Ratio {
    pub num: u8,
    pub den: u8,
}

impl Ratio {
    /// `self` is below `o` (compared by cross multiplication).
    pub open spec fn lt(self, o: Ratio) -> bool {
        (self.num as int) * (o.den as int) < (o.num as int) * (self.den as int)
    }

    pub open spec fn is_zero(self) -> bool {
        self.num == 0
    }

    pub open spec fn is_one(self) -> bool {
        self.num == self.den && self.den > 0
    }

    pub open spec fn zero_spec() -> Ratio {
        Ratio { num: 0, den: 1 }
    }

    pub open spec fn one_spec() -> Ratio {
        Ratio { num: 1, den: 1 }
    }

    pub fn zero() -> (r: Ratio)
        ensures
            r == Ratio::zero_spec(),
    {
        Ratio { num: 0, den: 1 }
    }

    pub fn one() -> (r: Ratio)
        ensures
            r == Ratio::one_spec(),
    {
        Ratio { num: 1, den: 1 }
    }

    /// Whether `self` is below `o`.
    pub fn less_than(&self, o: &Ratio) -> (r: bool)
        ensures
            r == self.lt(*o),
    {
        let a = self.num as u32;
        let b = o.den as u32;
        let c = o.num as u32;
        let d = self.den as u32;
        proof {
            assert(a * b <= 255 * 255) by (nonlinear_arith)
                requires a <= 255, b <= 255;
            assert(c * d <= 255 * 255) by (nonlinear_arith)
                requires c <= 255, d <= 255;
        }
        a * b < c * d
    }

    /// Whether `self` is certain: a mine for sure.
    pub fn certain(&self) -> (r: bool)
        ensures
            r == self.is_one(),
    {
        self.num == self.den && self.den > 0
    }
}

/// The largest of the first `n` entries, the earliest one among equals.
pub open spec fn max_of(xs: Seq<Ratio>, n: int) -> Ratio
    decreases n,
{
    if n <= 1 {
        xs[0]
    } else {
        let m = max_of(xs, n - 1);
        if m.lt(xs[n - 1]) { xs[n - 1] } else { m }
    }
}

/// The maximum is one of the entries.
pub proof fn lemma_max_member(xs: Seq<Ratio>, n: int)
    requires
        1 <= n <= xs.len(),
    ensures
        exists|j: int| 0 <= j < n && max_of(xs, n) == xs[j],
    decreases n,
{
    if n > 1 {
        lemma_max_member(xs, n - 1);
        if !max_of(xs, n - 1).lt(xs[n - 1]) {
            let j = choose|j: int| 0 <= j < n - 1 && max_of(xs, n - 1) == xs[j];
            assert(0 <= j < n && max_of(xs, n) == xs[j]);
        } else {
            assert(max_of(xs, n) == xs[n - 1]);
        }
    } else {
        assert(max_of(xs, n) == xs[0]);
    }
}

/// The largest contribution.
pub fn max(xs: &[Ratio; 8]) -> (m: Ratio)
    ensures
        m == max_of(xs@, 8),
{
    let mut result = xs[0];
    let mut i: usize = 1;
    while i < 8
        invariant
            1 <= i <= 8,
            result == max_of(xs@, i as int),
        decreases 8 - i,
    {
        if result.less_than(&xs[i]) {
            result = xs[i];
        }
        i = i + 1;
    }
    result
}

/// The solver's belief about one cell.
#[derive(Clone, Copy, Debug)]
pub enum CellDesc {
    Unknown,
    /// One contribution per neighbour direction, indexed as `direction`.
    Estimate([Ratio; 8]),
    /// Known to be free; waits for a probe.
    ShouldFree,
    /// Probed; holds the number of mines around it, known ones included.
    Free(u8),
    Mine,
}

/// Unknown or estimated: still open to new information.
pub open spec fn is_open(d: CellDesc) -> bool {
    d is Unknown || d is Estimate
}

/// A belief that can no longer be revised back to an open one.
pub open spec fn is_settled(d: CellDesc) -> bool {
    d is Mine || d is Free || d is ShouldFree
}

/// A belief held by frontier cells.
pub open spec fn is_pending(d: CellDesc) -> bool {
    d is Estimate || d is ShouldFree
}

/// The danger of a cell that is not `Unknown`.
pub open spec fn danger_of(d: CellDesc) -> Ratio {
    match d {
        CellDesc::Mine => Ratio::one_spec(),
        CellDesc::Estimate(ps) => max_of(ps@, 8),
        _ => Ratio::zero_spec(),
    }
}

impl CellDesc {
    /// The probability of a mine: 1 for `Mine`, 0 for `Free` and `ShouldFree`,
    /// the largest contribution for `Estimate`.
    pub fn danger(&self) -> (r: Ratio)
        requires
            !(*self is Unknown),
        ensures
            r == danger_of(*self),
    {
        match self {
            CellDesc::Mine => Ratio::one(),
            CellDesc::Estimate(ps) => max(ps),
            _ => Ratio::zero(),
        }
    }
}

/// The solver's beliefs, one per cell.
pub struct KnowledgeGrid {
    cells: Grid<CellDesc>,
    n_rows: usize,
    n_cols: usize,
}

impl KnowledgeGrid {
    pub closed spec fn descs(&self) -> Seq<Seq<CellDesc>> {
        desc_cells(self.cells)
    }

    pub closed spec fn rows(&self) -> nat {
        self.n_rows as nat
    }

    pub closed spec fn cols(&self) -> nat {
        self.n_cols as nat
    }

    pub open spec fn wf(&self) -> bool {
        &&& self.descs().len() == self.rows()
        &&& forall|r: int| 0 <= r < self.rows() ==> #[trigger] self.descs()[r].len() == self.cols()
    }

    pub open spec fn in_range(&self, p: Pos) -> bool {
        p.0 < self.rows() && p.1 < self.cols()
    }

    /// The belief at `p`, for `p` in range.
    pub open spec fn at(&self, p: Pos) -> CellDesc {
        self.descs()[p.0 as int][p.1 as int]
    }

    /// A grid of `n_rows` by `n_cols` `Unknown` cells.
    pub fn new(n_rows: usize, n_cols: usize) -> (k: KnowledgeGrid)
        requires
            n_rows <= max_cells(),
            n_cols <= max_cells(),
            n_rows * n_cols <= max_cells(),
        ensures
            k.wf(),
            k.rows() == n_rows,
            k.cols() == n_cols,
            k.descs() == filled(n_rows, n_cols, CellDesc::Unknown),
    {
        KnowledgeGrid { cells: desc_grid(n_rows, n_cols, CellDesc::Unknown), n_rows, n_cols }
    }

    /// The belief at `p`, or `None` outside the grid.
    pub fn get(&self, p: Pos) -> (d: Option<CellDesc>)
        requires
            self.wf(),
        ensures
            d == (if self.in_range(p) { Some(self.at(p)) } else { None }),
    {
        desc_get(&self.cells, p.0, p.1)
    }

    /// Replaces the belief at `p`.
    pub fn set(&mut self, p: Pos, d: CellDesc)
        requires
            old(self).wf(),
            old(self).in_range(p),
        ensures
            final(self).wf(),
            final(self).rows() == old(self).rows(),
            final(self).cols() == old(self).cols(),
            final(self).descs() == updated(old(self).descs(), p.0, p.1, d),
    {
        desc_set(&mut self.cells, p.0, p.1, d);
    }
}

} // verus!
