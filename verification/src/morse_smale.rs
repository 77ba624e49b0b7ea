//! Morse-Smale complexes and their boundary matrices.

use vstd::prelude::*;
use crate::critical_point::CriticalPoint;
use crate::gradient_flow::FlowLine;
use crate::z2::{
    column_dependent, lemma_column_dependent, lemma_column_independent, lemma_row_add_same_null,
    lemma_same_null_refl, lemma_same_null_trans, lemma_swap_same_null, same_null, square,
};

verus! {

/// The largest entry of `s` (0 for the empty sequence).
pub open spec fn seq_max(s: Seq<usize>) -> usize
    decreases s.len(),
{
    if s.len() == 0 {
        0
    } else {
        let m = seq_max(s.drop_last());
        if s.last() > m { s.last() } else { m }
    }
}

pub proof fn lemma_seq_max(s: Seq<usize>)
    ensures
        forall|i: int| 0 <= i < s.len() ==> #[trigger] s[i] <= seq_max(s),
        s.len() > 0 ==> exists|i: int| 0 <= i < s.len() && s[i] == seq_max(s),
    decreases s.len(),
{
    if s.len() > 0 {
        lemma_seq_max(s.drop_last());
        assert forall|i: int| 0 <= i < s.len() implies #[trigger] s[i] <= seq_max(s) by {
            if i < s.len() - 1 {
                assert(s[i] == s.drop_last()[i]);
            }
        }
        if s.len() > 1 && s.last() <= seq_max(s.drop_last()) {
            let i = choose|i: int| 0 <= i < s.drop_last().len() && s.drop_last()[i] == seq_max(s.drop_last());
            assert(s[i] == seq_max(s));
        } else {
            assert(s[s.len() - 1] == seq_max(s));
        }
    }
}

/// A cell of a Morse-Smale complex, one per critical point.
#[derive(Clone, Copy, Debug, PartialEq, Eq, Structural)]
pub struct MorseSmaleCell {
    /// The critical point this cell is associated with.
    pub critical_point: CriticalPoint,
    /// Dimension of the cell (the index of its critical point).
    pub dimension: usize,
}

/// A Morse-Smale complex.
pub struct MorseSmaleComplex {
    /// Dimension of the manifold.
    pub dimension: usize,
    /// Cells of the complex, one per critical point.
    pub cells: Vec<MorseSmaleCell>,
    /// Flow lines connecting critical points of adjacent index.
    pub flow_lines: Vec<FlowLine>,
    /// For each flow line, the positions of its source and of its target
    /// among the cells.
    pub flow_ends: Vec<(usize, usize)>,
}

/// The cell of a critical point.
pub open spec fn cell_of(cp: CriticalPoint) -> MorseSmaleCell {
    MorseSmaleCell { critical_point: cp, dimension: cp.index }
}

/// Point `i` flows down to point `j`: they differ, the index of `i` is one
/// more than that of `j`, and its value is higher.
pub open spec fn flows_to(cps: Seq<CriticalPoint>, i: int, j: int) -> bool {
    i != j && cps[i].index == cps[j].index + 1 && cps[i].value > cps[j].value
}

/// The flow lines from point `i` to the points `j < m` it flows to, in
/// order of `j`.
pub open spec fn flow_row(cps: Seq<CriticalPoint>, i: int, m: int) -> Seq<FlowLine>
    decreases m,
{
    if m <= 0 {
        Seq::empty()
    } else {
        flow_row(cps, i, m - 1) + if flows_to(cps, i, m - 1) {
            seq![FlowLine { source: cps[i], target: cps[m - 1] }]
        } else {
            Seq::empty()
        }
    }
}

/// The flow lines out of the first `m` points, row by row.
pub open spec fn flow_lines_of(cps: Seq<CriticalPoint>, m: int) -> Seq<FlowLine>
    decreases m,
{
    if m <= 0 {
        Seq::empty()
    } else {
        flow_lines_of(cps, m - 1) + flow_row(cps, m - 1, cps.len() as int)
    }
}

/// The ends `(i, j)` of the flow lines from point `i` to the points `j < m`
/// it flows to, in order of `j`: the positions of the source and the target
/// among the critical points.
pub open spec fn end_row(cps: Seq<CriticalPoint>, i: int, m: int) -> Seq<(usize, usize)>
    decreases m,
{
    if m <= 0 {
        Seq::empty()
    } else {
        end_row(cps, i, m - 1) + if flows_to(cps, i, m - 1) {
            seq![(i as usize, (m - 1) as usize)]
        } else {
            Seq::empty()
        }
    }
}

/// The ends of the flow lines out of the first `m` points, row by row.
pub open spec fn flow_ends_of(cps: Seq<CriticalPoint>, m: int) -> Seq<(usize, usize)>
    decreases m,
{
    if m <= 0 {
        Seq::empty()
    } else {
        flow_ends_of(cps, m - 1) + end_row(cps, m - 1, cps.len() as int)
    }
}

/// The number of cells of dimension `d`.
pub open spec fn cell_count(cells: Seq<MorseSmaleCell>, d: int) -> nat
    decreases cells.len(),
{
    if cells.len() == 0 {
        0
    } else {
        cell_count(cells.drop_last(), d) + if cells.last().dimension == d { 1nat } else { 0nat }
    }
}

/// The largest dimension of a cell (0 when there is none).
pub open spec fn max_cell_dimension(cells: Seq<MorseSmaleCell>) -> usize
    decreases cells.len(),
{
    if cells.len() == 0 {
        0
    } else {
        let m = max_cell_dimension(cells.drop_last());
        if cells.last().dimension > m { cells.last().dimension } else { m }
    }
}

/// `Σ (-1)^dimension` over the cells.
pub open spec fn cell_euler(cells: Seq<MorseSmaleCell>) -> int
    decreases cells.len(),
{
    if cells.len() == 0 {
        0
    } else {
        cell_euler(cells.drop_last()) + if cells.last().dimension % 2 == 0 { 1int } else { -1int }
    }
}

/// Every flow line goes down by one index.
pub open spec fn all_adjacent(fls: Seq<FlowLine>) -> bool {
    forall|t: int| 0 <= t < fls.len() ==> (#[trigger] fls[t]).source.index == fls[t].target.index + 1
}

impl MorseSmaleComplex {
    /// Build a Morse-Smale complex from a list of critical points: one cell
    /// per point, and a flow line from each point to each other point of
    /// one index less and lower value.
    pub fn from_critical_points(dimension: usize, critical_points: &[CriticalPoint]) -> (ms: Self)
        requires
            critical_points@.len() >= 2 ==> forall|t: int|
                0 <= t < critical_points@.len() ==> (#[trigger] critical_points@[t]).index < usize::MAX,
        ensures
            ms.dimension == dimension,
            ms.cells@ == critical_points@.map_values(|cp: CriticalPoint| cell_of(cp)),
            ms.flow_lines@ == flow_lines_of(critical_points@, critical_points@.len() as int),
            ms.flow_ends@ == flow_ends_of(critical_points@, critical_points@.len() as int),
            ms.flow_ends@.len() == ms.flow_lines@.len(),
            forall|t: int|
                0 <= t < ms.flow_lines@.len() ==> {
                    let (a, b) = #[trigger] ms.flow_ends@[t];
                    &&& a < critical_points@.len()
                    &&& b < critical_points@.len()
                    &&& ms.flow_lines@[t].source == critical_points@[a as int]
                    &&& ms.flow_lines@[t].target == critical_points@[b as int]
                },
    {
        let ghost cps = critical_points@;
        let n = critical_points.len();
        let mut cells: Vec<MorseSmaleCell> = Vec::new();
        let mut i: usize = 0;
        while i < n
            invariant
                i <= n,
                n == cps.len(),
                cps == critical_points@,
                cells@ == cps.take(i as int).map_values(|cp: CriticalPoint| cell_of(cp)),
            decreases n - i,
        {
            let cp = critical_points[i];
            cells.push(MorseSmaleCell { dimension: cp.index, critical_point: cp });
            i = i + 1;
            assert(cells@ =~= cps.take(i as int).map_values(|cp: CriticalPoint| cell_of(cp)));
        }
        assert(cps.take(n as int) =~= cps);
        let mut flow_lines: Vec<FlowLine> = Vec::new();
        let mut flow_ends: Vec<(usize, usize)> = Vec::new();
        let mut i: usize = 0;
        while i < n
            invariant
                i <= n,
                n == cps.len(),
                cps == critical_points@,
                n >= 2 ==> forall|t: int| 0 <= t < n ==> (#[trigger] cps[t]).index < usize::MAX,
                flow_lines@ == flow_lines_of(cps, i as int),
                flow_ends@ == flow_ends_of(cps, i as int),
                flow_ends@.len() == flow_lines@.len(),
                forall|t: int|
                    0 <= t < flow_lines@.len() ==> {
                        let (a, b) = #[trigger] flow_ends@[t];
                        &&& a < n
                        &&& b < n
                        &&& flow_lines@[t].source == cps[a as int]
                        &&& flow_lines@[t].target == cps[b as int]
                    },
            decreases n - i,
        {
            let high = critical_points[i];
            let ghost before = flow_lines@;
            let ghost before_ends = flow_ends@;
            let mut j: usize = 0;
            while j < n
                invariant
                    j <= n,
                    i < n,
                    n == cps.len(),
                    cps == critical_points@,
                    high == cps[i as int],
                    n >= 2 ==> forall|t: int| 0 <= t < n ==> (#[trigger] cps[t]).index < usize::MAX,
                    flow_lines@ == before + flow_row(cps, i as int, j as int),
                    flow_ends@ == before_ends + end_row(cps, i as int, j as int),
                    flow_ends@.len() == flow_lines@.len(),
                    forall|t: int|
                        0 <= t < flow_lines@.len() ==> {
                            let (a, b) = #[trigger] flow_ends@[t];
                            &&& a < n
                            &&& b < n
                            &&& flow_lines@[t].source == cps[a as int]
                            &&& flow_lines@[t].target == cps[b as int]
                        },
                decreases n - j,
            {
                let low = critical_points[j];
                if i != j && high.index == low.index + 1 && high.value > low.value {
                    flow_lines.push(FlowLine::new(high, low));
                    flow_ends.push((i, j));
                    assert(flow_lines@ =~= before + flow_row(cps, i as int, j + 1));
                    assert(flow_ends@ =~= before_ends + end_row(cps, i as int, j + 1));
                } else {
                    assert(flow_lines@ =~= before + flow_row(cps, i as int, j + 1));
                    assert(flow_ends@ =~= before_ends + end_row(cps, i as int, j + 1));
                }
                j = j + 1;
            }
            i = i + 1;
        }
        MorseSmaleComplex { dimension, cells, flow_lines, flow_ends }
    }

    /// Cells of a given dimension, in order.
    pub fn cells_of_dimension(&self, dim: usize) -> (cs: Vec<MorseSmaleCell>)
        ensures
            cs@ == self.cells@.filter(|c: MorseSmaleCell| c.dimension == dim),
    {
        let ghost p = |c: MorseSmaleCell| c.dimension == dim;
        let mut out: Vec<MorseSmaleCell> = Vec::new();
        let mut i: usize = 0;
        while i < self.cells.len()
            invariant
                i <= self.cells@.len(),
                p == (|c: MorseSmaleCell| c.dimension == dim),
                out@ == self.cells@.take(i as int).filter(p),
            decreases self.cells@.len() - i,
        {
            proof {
                self.cells@.take(i as int).lemma_filter_push(self.cells@[i as int], p);
                assert(self.cells@.take(i + 1) =~= self.cells@.take(i as int).push(self.cells@[i as int]));
            }
            if self.cells[i].dimension == dim {
                out.push(self.cells[i]);
            }
            i = i + 1;
        }
        assert(self.cells@.take(self.cells@.len() as int) =~= self.cells@);
        out
    }

    /// Count of cells per dimension, from 0 up to the largest dimension.
    pub fn cell_counts(&self) -> (counts: Vec<usize>)
        requires
            max_cell_dimension(self.cells@) < usize::MAX,
        ensures
            counts@ == Seq::new(
                (max_cell_dimension(self.cells@) + 1) as nat,
                |d: int| cell_count(self.cells@, d) as usize,
            ),
    {
        let ghost s = self.cells@;
        let mut max_dim: usize = 0;
        let mut i: usize = 0;
        while i < self.cells.len()
            invariant
                i <= s.len(),
                s == self.cells@,
                max_dim == max_cell_dimension(s.take(i as int)),
            decreases s.len() - i,
        {
            assert(s.take(i + 1).drop_last() =~= s.take(i as int));
            if self.cells[i].dimension > max_dim {
                max_dim = self.cells[i].dimension;
            }
            i = i + 1;
        }
        assert(s.take(s.len() as int) =~= s);
        let mut counts: Vec<usize> = Vec::new();
        let mut d: usize = 0;
        while d <= max_dim
            invariant
                d <= max_dim + 1,
                max_dim < usize::MAX,
                max_dim == max_cell_dimension(s),
                s == self.cells@,
                counts@ == Seq::new(d as nat, |q: int| cell_count(s, q) as usize),
            decreases max_dim + 1 - d,
        {
            let mut c: usize = 0;
            let mut j: usize = 0;
            while j < self.cells.len()
                invariant
                    j <= s.len(),
                    s == self.cells@,
                    c == cell_count(s.take(j as int), d as int),
                    c <= j,
                decreases s.len() - j,
            {
                assert(s.take(j + 1).drop_last() =~= s.take(j as int));
                if self.cells[j].dimension == d {
                    c = c + 1;
                }
                j = j + 1;
            }
            assert(s.take(s.len() as int) =~= s);
            counts.push(c);
            d = d + 1;
            assert(counts@ =~= Seq::new(d as nat, |q: int| cell_count(s, q) as usize));
        }
        counts
    }

    /// Euler characteristic of the complex: `Σ (-1)^dim` over the cells.
    pub fn euler_characteristic(&self) -> (chi: i64)
        requires
            self.cells@.len() <= i64::MAX,
        ensures
            chi == cell_euler(self.cells@),
    {
        let ghost s = self.cells@;
        let mut acc: i64 = 0;
        let mut i: usize = 0;
        while i < self.cells.len()
            invariant
                i <= s.len(),
                s == self.cells@,
                s.len() <= i64::MAX,
                acc == cell_euler(s.take(i as int)),
                -i <= acc <= i,
            decreases s.len() - i,
        {
            assert(s.take(i + 1).drop_last() =~= s.take(i as int));
            if self.cells[i].dimension % 2 == 0 {
                acc = acc + 1;
            } else {
                acc = acc - 1;
            }
            i = i + 1;
        }
        assert(s.take(s.len() as int) =~= s);
        acc
    }

    /// Number of flow lines.
    pub fn num_flow_lines(&self) -> (n: usize)
        ensures
            n == self.flow_lines@.len(),
    {
        self.flow_lines.len()
    }

    /// The Smale transversality condition, in its simplified form: every
    /// flow line connects critical points of adjacent index.
    pub fn is_transverse(&self) -> (b: bool)
        requires
            forall|t: int|
                0 <= t < self.flow_lines@.len() && all_adjacent(self.flow_lines@.take(t)) ==> (
                #[trigger] self.flow_lines@[t]).target.index < usize::MAX,
        ensures
            b == all_adjacent(self.flow_lines@),
    {
        let mut i: usize = 0;
        while i < self.flow_lines.len()
            invariant
                i <= self.flow_lines@.len(),
                forall|t: int|
                    0 <= t < self.flow_lines@.len() && all_adjacent(self.flow_lines@.take(t)) ==> (
                    #[trigger] self.flow_lines@[t]).target.index < usize::MAX,
                forall|t: int| 0 <= t < i ==> (#[trigger] self.flow_lines@[t]).source.index == self.flow_lines@[t].target.index + 1,
            decreases self.flow_lines@.len() - i,
        {
            let fl = self.flow_lines[i];
            assert(all_adjacent(self.flow_lines@.take(i as int)));
            if fl.source.index != fl.target.index + 1 {
                return false;
            }
            i = i + 1;
        }
        true
    }

    /// The first cell of dimension `d` that `at` marks.
    fn first_marked_cell(&self, at: &Vec<bool>, d: usize) -> (found: Option<usize>)
        requires
            at@.len() == self.cells@.len(),
        ensures
            found == first_marked(self.cells@, at@, d as int, self.cells@.len() as int),
    {
        let n = self.cells.len();
        let mut c: usize = 0;
        while c < n
            invariant
                c <= n,
                n == self.cells@.len(),
                at@.len() == n,
                first_marked(self.cells@, at@, d as int, c as int) is None,
            decreases n - c,
        {
            if self.cells[c].dimension == d && at[c] {
                proof {
                    lemma_first_marked_from(self.cells@, at@, d as int, c as int + 1, n as int);
                }
                return Some(c);
            }
            c = c + 1;
        }
        None
    }

    /// The cells of dimension `k - 1` that the flow lines out of cell `kc`
    /// reach, one entry per such flow line, in the order of the flow lines.
    fn boundary_row(&self, k: usize, kc: usize, source_at: &[Vec<bool>], target_at: &[Vec<bool>]) -> (row: Vec<usize>)
        requires
            kc < self.cells@.len(),
            source_at@.len() == self.flow_lines@.len(),
            target_at@.len() == self.flow_lines@.len(),
            forall|t: int| 0 <= t < source_at@.len() ==> (#[trigger] source_at@[t])@.len() == self.cells@.len(),
            forall|t: int| 0 <= t < target_at@.len() ==> (#[trigger] target_at@[t])@.len() == self.cells@.len(),
        ensures
            row@ == boundary_of_cell(
                self.flow_lines@,
                self.cells@,
                source_at@,
                target_at@,
                k as int,
                kc as int,
                self.flow_lines@.len() as int,
            ),
    {
        let m = self.flow_lines.len();
        let mut row: Vec<usize> = Vec::new();
        let mut t: usize = 0;
        while t < m
            invariant
                t <= m,
                kc < self.cells@.len(),
                m == self.flow_lines@.len(),
                source_at@.len() == m,
                target_at@.len() == m,
                forall|t2: int| 0 <= t2 < m ==> (#[trigger] source_at@[t2])@.len() == self.cells@.len(),
                forall|t2: int| 0 <= t2 < m ==> (#[trigger] target_at@[t2])@.len() == self.cells@.len(),
                row@ == boundary_of_cell(self.flow_lines@, self.cells@, source_at@, target_at@, k as int, kc as int, t as int),
            decreases m - t,
        {
            let fl = self.flow_lines[t];
            if fl.source.index == k && k >= 1 && fl.target.index == k - 1 && source_at[t][kc] {
                match self.first_marked_cell(&target_at[t], k - 1) {
                    Some(c) => {
                        row.push(c);
                    },
                    None => {},
                }
            }
            t = t + 1;
            assert(row@ =~= boundary_of_cell(self.flow_lines@, self.cells@, source_at@, target_at@, k as int, kc as int, t as int));
        }
        row
    }

    /// Boundary operator: for each cell of dimension `k`, in order, the
    /// cells of dimension `k - 1` in its boundary. Positions are not held
    /// here, so the caller says which cells lie at the ends of each flow
    /// line: `source_at[t][c]` when the source of flow line `t` lies at
    /// cell `c`, and `target_at[t][c]` when its target does. For each flow
    /// line from `k` down to `k - 1` whose source lies at the cell, the row
    /// holds the first cell of dimension `k - 1` at its target, if any. The
    /// rows of the 0-cells are empty.
    pub fn boundary(&self, k: usize, source_at: &[Vec<bool>], target_at: &[Vec<bool>]) -> (rows: Vec<Vec<usize>>)
        requires
            source_at@.len() == self.flow_lines@.len(),
            target_at@.len() == self.flow_lines@.len(),
            forall|t: int| 0 <= t < source_at@.len() ==> (#[trigger] source_at@[t])@.len() == self.cells@.len(),
            forall|t: int| 0 <= t < target_at@.len() ==> (#[trigger] target_at@[t])@.len() == self.cells@.len(),
        ensures
            rows@.len() == cells_of_dimension_at(self.cells@, k as int, self.cells@.len() as int).len(),
            forall|r: int|
                0 <= r < rows@.len() ==> (#[trigger] rows@[r])@ == boundary_of_cell(
                    self.flow_lines@,
                    self.cells@,
                    source_at@,
                    target_at@,
                    k as int,
                    cells_of_dimension_at(self.cells@, k as int, self.cells@.len() as int)[r],
                    self.flow_lines@.len() as int,
                ),
            forall|r: int, e: int|
                0 <= r < rows@.len() && 0 <= e < rows@[r]@.len() ==> {
                    let c = #[trigger] rows@[r]@[e];
                    &&& c < self.cells@.len()
                    &&& self.cells@[c as int].dimension == k - 1
                },
    {
        let n = self.cells.len();
        let ghost fls = self.flow_lines@;
        let ghost cells = self.cells@;
        let mut rows: Vec<Vec<usize>> = Vec::new();
        let mut kc: usize = 0;
        while kc < n
            invariant
                kc <= n,
                n == cells.len(),
                cells == self.cells@,
                fls == self.flow_lines@,
                source_at@.len() == fls.len(),
                target_at@.len() == fls.len(),
                forall|t: int| 0 <= t < source_at@.len() ==> (#[trigger] source_at@[t])@.len() == n,
                forall|t: int| 0 <= t < target_at@.len() ==> (#[trigger] target_at@[t])@.len() == n,
                rows@.len() == cells_of_dimension_at(cells, k as int, kc as int).len(),
                forall|r: int|
                    0 <= r < rows@.len() ==> (#[trigger] rows@[r])@ == boundary_of_cell(
                        fls,
                        cells,
                        source_at@,
                        target_at@,
                        k as int,
                        cells_of_dimension_at(cells, k as int, kc as int)[r],
                        fls.len() as int,
                    ),
            decreases n - kc,
        {
            if self.cells[kc].dimension == k {
                let row = self.boundary_row(k, kc, source_at, target_at);
                rows.push(row);
            }
            kc = kc + 1;
            proof {
                let prev = cells_of_dimension_at(cells, k as int, kc - 1);
                let cur = cells_of_dimension_at(cells, k as int, kc as int);
                assert forall|r: int| 0 <= r < rows@.len() implies (#[trigger] rows@[r])@ == boundary_of_cell(
                    fls,
                    cells,
                    source_at@,
                    target_at@,
                    k as int,
                    cur[r],
                    fls.len() as int,
                ) by {
                    if r < prev.len() {
                        assert(cur[r] == prev[r]);
                    }
                }
            }
        }
        proof {
            assert forall|r: int, e: int|
                0 <= r < rows@.len() && 0 <= e < rows@[r]@.len() implies {
                    let c = #[trigger] rows@[r]@[e];
                    &&& c < self.cells@.len()
                    &&& self.cells@[c as int].dimension == k - 1
                } by {
                let kc = cells_of_dimension_at(cells, k as int, n as int)[r];
                lemma_boundary_of_cell_lower(fls, cells, source_at@, target_at@, k as int, kc, fls.len() as int);
            }
        }
        rows
    }
}

/// The first cell `c < m` of dimension `d` that `at` marks.
pub open spec fn first_marked(cells: Seq<MorseSmaleCell>, at: Seq<bool>, d: int, m: int) -> Option<usize>
    decreases m,
{
    if m <= 0 {
        None
    } else {
        match first_marked(cells, at, d, m - 1) {
            Some(c) => Some(c),
            None => if cells[m - 1].dimension == d && at[m - 1] {
                Some((m - 1) as usize)
            } else {
                None
            },
        }
    }
}

proof fn lemma_first_marked_from(cells: Seq<MorseSmaleCell>, at: Seq<bool>, d: int, lo: int, m: int)
    requires
        1 <= lo <= m,
        0 <= lo - 1 < cells.len(),
        lo - 1 <= usize::MAX,
        first_marked(cells, at, d, lo) == Some((lo - 1) as usize),
    ensures
        first_marked(cells, at, d, m) == Some((lo - 1) as usize),
    decreases m - lo,
{
    if m > lo {
        lemma_first_marked_from(cells, at, d, lo, m - 1);
    }
}

/// The indices of the cells of dimension `k` among the first `m`, in order.
pub open spec fn cells_of_dimension_at(cells: Seq<MorseSmaleCell>, k: int, m: int) -> Seq<int>
    decreases m,
{
    if m <= 0 {
        Seq::empty()
    } else {
        cells_of_dimension_at(cells, k, m - 1) + if cells[m - 1].dimension == k {
            seq![m - 1]
        } else {
            Seq::empty()
        }
    }
}

/// The boundary row of cell `kc` from the first `m` flow lines: for each
/// flow line from dimension `k` to `k - 1` whose source lies at `kc`, the
/// first cell of dimension `k - 1` at its target, when there is one.
pub open spec fn boundary_of_cell(
    fls: Seq<FlowLine>,
    cells: Seq<MorseSmaleCell>,
    source_at: Seq<Vec<bool>>,
    target_at: Seq<Vec<bool>>,
    k: int,
    kc: int,
    m: int,
) -> Seq<usize>
    decreases m,
{
    if m <= 0 {
        Seq::empty()
    } else {
        let fl = fls[m - 1];
        boundary_of_cell(fls, cells, source_at, target_at, k, kc, m - 1) + if fl.source.index == k
            && fl.target.index == k - 1 && source_at[m - 1]@[kc] {
            match first_marked(cells, target_at[m - 1]@, k - 1, cells.len() as int) {
                Some(c) => seq![c],
                None => Seq::empty(),
            }
        } else {
            Seq::empty()
        }
    }
}

proof fn lemma_first_marked_cell(cells: Seq<MorseSmaleCell>, at: Seq<bool>, d: int, m: int)
    requires
        m <= cells.len(),
        m <= usize::MAX,
    ensures
        first_marked(cells, at, d, m) matches Some(c) ==> c < m && cells[c as int].dimension == d,
    decreases m,
{
    if m > 0 {
        lemma_first_marked_cell(cells, at, d, m - 1);
    }
}

/// Every entry of a boundary row is a cell of dimension `k - 1`.
proof fn lemma_boundary_of_cell_lower(
    fls: Seq<FlowLine>,
    cells: Seq<MorseSmaleCell>,
    source_at: Seq<Vec<bool>>,
    target_at: Seq<Vec<bool>>,
    k: int,
    kc: int,
    m: int,
)
    requires
        cells.len() <= usize::MAX,
    ensures
        forall|e: int|
            0 <= e < boundary_of_cell(fls, cells, source_at, target_at, k, kc, m).len() ==> {
                let c = #[trigger] boundary_of_cell(fls, cells, source_at, target_at, k, kc, m)[e];
                &&& c < cells.len()
                &&& cells[c as int].dimension == k - 1
            },
    decreases m,
{
    if m > 0 {
        lemma_boundary_of_cell_lower(fls, cells, source_at, target_at, k, kc, m - 1);
        lemma_first_marked_cell(cells, target_at[m - 1]@, k - 1, cells.len() as int);
        let prev = boundary_of_cell(fls, cells, source_at, target_at, k, kc, m - 1);
        let cur = boundary_of_cell(fls, cells, source_at, target_at, k, kc, m);
        assert forall|e: int| 0 <= e < cur.len() implies {
            let c = #[trigger] cur[e];
            &&& c < cells.len()
            &&& cells[c as int].dimension == k - 1
        } by {
            if e < prev.len() {
                assert(cur[e] == prev[e]);
            }
        }
    }
}

proof fn lemma_flow_row_adjacent(cps: Seq<CriticalPoint>, i: int, m: int)
    ensures
        forall|t: int|
            0 <= t < flow_row(cps, i, m).len() ==> {
                let fl = #[trigger] flow_row(cps, i, m)[t];
                &&& fl.source.index == fl.target.index + 1
                &&& fl.source.value > fl.target.value
            },
    decreases m,
{
    if m > 0 {
        lemma_flow_row_adjacent(cps, i, m - 1);
        let r = flow_row(cps, i, m);
        let prev = flow_row(cps, i, m - 1);
        assert forall|t: int| 0 <= t < r.len() implies {
            let fl = #[trigger] r[t];
            &&& fl.source.index == fl.target.index + 1
            &&& fl.source.value > fl.target.value
        } by {
            if t < prev.len() {
                assert(r[t] == prev[t]);
            }
        }
    }
}

/// Every flow line of a complex built from critical points goes from a
/// point of index k + 1 down to one of index k and lower value: such a
/// complex satisfies the transversality condition.
pub proof fn law_built_complex_is_transverse(cps: Seq<CriticalPoint>, m: int)
    ensures
        all_adjacent(flow_lines_of(cps, m)),
        forall|t: int|
            0 <= t < flow_lines_of(cps, m).len() ==> (#[trigger] flow_lines_of(cps, m)[t]).source.value
                > flow_lines_of(cps, m)[t].target.value,
    decreases m,
{
    if m > 0 {
        law_built_complex_is_transverse(cps, m - 1);
        lemma_flow_row_adjacent(cps, m - 1, cps.len() as int);
        let all = flow_lines_of(cps, m);
        let prev = flow_lines_of(cps, m - 1);
        let row = flow_row(cps, m - 1, cps.len() as int);
        assert forall|t: int| 0 <= t < all.len() implies (#[trigger] all[t]).source.index == all[t].target.index + 1
            && all[t].source.value > all[t].target.value by {
            if t < prev.len() {
                assert(all[t] == prev[t]);
            } else {
                assert(all[t] == row[t - prev.len()]);
            }
        }
    }
}

/// The number of the first `m` flow lines whose ends are cells `i` and `j`.
pub open spec fn incidence_count(endpoints: Seq<(Option<usize>, Option<usize>)>, i: int, j: int, m: int) -> nat
    decreases m,
{
    if m <= 0 {
        0
    } else {
        incidence_count(endpoints, i, j, m - 1) + match endpoints[m - 1] {
            (Some(a), Some(b)) => if a == i && b == j { 1nat } else { 0nat },
            _ => 0nat,
        }
    }
}

/// The rows of a matrix held as vectors.
pub open spec fn rows_of(m: Seq<Vec<bool>>) -> Seq<Seq<bool>> {
    m.map_values(|r: Vec<bool>| r@)
}

/// Boundary matrix of a Morse-Smale complex: `matrix[i][j]` counts the flow
/// lines from cell `i` down to cell `j`, and `dimensions[j]` is the dimension
/// of cell `j`.
pub struct BoundaryMatrix {
    pub matrix: Vec<Vec<usize>>,
    pub dimensions: Vec<usize>,
}

/// The cells at the two ends of each flow line: for the source, the first
/// cell that `source_at` marks and whose dimension is the source's index;
/// for the target likewise.
pub open spec fn matched_ends(
    fls: Seq<FlowLine>,
    cells: Seq<MorseSmaleCell>,
    source_at: Seq<Vec<bool>>,
    target_at: Seq<Vec<bool>>,
) -> Seq<(Option<usize>, Option<usize>)> {
    Seq::new(
        fls.len(),
        |t: int|
            (
                first_marked(cells, source_at[t]@, fls[t].source.index as int, cells.len() as int),
                first_marked(cells, target_at[t]@, fls[t].target.index as int, cells.len() as int),
            ),
    )
}

impl BoundaryMatrix {
    /// Construct the boundary matrix of a complex. Positions are not held
    /// here, so the caller says which cells lie at the ends of each flow
    /// line: `source_at[t][c]` when the source of flow line `t` lies at cell
    /// `c`, and `target_at[t][c]` when its target does. Each end is matched
    /// to the first cell there whose dimension is the end's index, and entry
    /// `[i][j]` counts the flow lines matched from cell `i` to cell `j`.
    pub fn from_complex(complex: &MorseSmaleComplex, source_at: &[Vec<bool>], target_at: &[Vec<bool>]) -> (bm: Self)
        requires
            source_at@.len() == complex.flow_lines@.len(),
            target_at@.len() == complex.flow_lines@.len(),
            forall|t: int| 0 <= t < source_at@.len() ==> (#[trigger] source_at@[t])@.len() == complex.cells@.len(),
            forall|t: int| 0 <= t < target_at@.len() ==> (#[trigger] target_at@[t])@.len() == complex.cells@.len(),
        ensures
            bm.dimensions@ == complex.cells@.map_values(|c: MorseSmaleCell| c.dimension),
            bm.matrix@.len() == complex.cells@.len(),
            forall|i: int|
                0 <= i < complex.cells@.len() ==> (#[trigger] bm.matrix@[i]).len() == complex.cells@.len(),
            forall|i: int, j: int|
                0 <= i < complex.cells@.len() && 0 <= j < complex.cells@.len() ==> #[trigger] bm.matrix@[i]@[j]
                    == incidence_count(
                    matched_ends(complex.flow_lines@, complex.cells@, source_at@, target_at@),
                    i,
                    j,
                    complex.flow_lines@.len() as int,
                ),
    {
        let ghost want = matched_ends(complex.flow_lines@, complex.cells@, source_at@, target_at@);
        let m = complex.flow_lines.len();
        let mut endpoints: Vec<(Option<usize>, Option<usize>)> = Vec::new();
        let mut t: usize = 0;
        while t < m
            invariant
                t <= m,
                m == complex.flow_lines@.len(),
                source_at@.len() == m,
                target_at@.len() == m,
                forall|t2: int| 0 <= t2 < m ==> (#[trigger] source_at@[t2])@.len() == complex.cells@.len(),
                forall|t2: int| 0 <= t2 < m ==> (#[trigger] target_at@[t2])@.len() == complex.cells@.len(),
                want == matched_ends(complex.flow_lines@, complex.cells@, source_at@, target_at@),
                endpoints@ == want.take(t as int),
            decreases m - t,
        {
            let fl = complex.flow_lines[t];
            let si = complex.first_marked_cell(&source_at[t], fl.source.index);
            let ti = complex.first_marked_cell(&target_at[t], fl.target.index);
            endpoints.push((si, ti));
            t = t + 1;
            assert(endpoints@ =~= want.take(t as int));
        }
        assert(want.take(m as int) =~= want);
        let n = complex.cells.len();
        proof {
            assert forall|t2: int| 0 <= t2 < endpoints@.len() implies {
                &&& ((#[trigger] endpoints@[t2]).0 matches Some(i) ==> i < complex.cells@.len())
                &&& (endpoints@[t2].1 matches Some(j) ==> j < complex.cells@.len())
            } by {
                let fl = complex.flow_lines@[t2];
                lemma_first_marked_cell(complex.cells@, source_at@[t2]@, fl.source.index as int, n as int);
                lemma_first_marked_cell(complex.cells@, target_at@[t2]@, fl.target.index as int, n as int);
            }
        }
        Self::count_incidences(complex, endpoints.as_slice())
    }

    /// The boundary matrix of a complex whose flow lines are matched to the
    /// cells given by `endpoints` (`None` where no cell lies at that end).
    fn count_incidences(complex: &MorseSmaleComplex, endpoints: &[(Option<usize>, Option<usize>)]) -> (bm: Self)
        requires
            forall|t: int|
                0 <= t < endpoints@.len() ==> {
                    &&& ((#[trigger] endpoints@[t]).0 matches Some(i) ==> i < complex.cells@.len())
                    &&& (endpoints@[t].1 matches Some(j) ==> j < complex.cells@.len())
                },
        ensures
            bm.dimensions@ == complex.cells@.map_values(|c: MorseSmaleCell| c.dimension),
            bm.matrix@.len() == complex.cells@.len(),
            forall|i: int|
                0 <= i < complex.cells@.len() ==> (#[trigger] bm.matrix@[i]).len() == complex.cells@.len(),
            forall|i: int, j: int|
                0 <= i < complex.cells@.len() && 0 <= j < complex.cells@.len() ==> #[trigger] bm.matrix@[i]@[j]
                    == incidence_count(endpoints@, i, j, endpoints@.len() as int),
    {
        let n = complex.cells.len();
        let mut dimensions: Vec<usize> = Vec::new();
        let mut i: usize = 0;
        while i < n
            invariant
                i <= n,
                n == complex.cells@.len(),
                dimensions@ == complex.cells@.take(i as int).map_values(|c: MorseSmaleCell| c.dimension),
            decreases n - i,
        {
            dimensions.push(complex.cells[i].dimension);
            i = i + 1;
            assert(dimensions@ =~= complex.cells@.take(i as int).map_values(|c: MorseSmaleCell| c.dimension));
        }
        assert(complex.cells@.take(n as int) =~= complex.cells@);
        let mut matrix: Vec<Vec<usize>> = Vec::new();
        let mut r: usize = 0;
        while r < n
            invariant
                r <= n,
                matrix@.len() == r,
                forall|a: int| 0 <= a < r ==> (#[trigger] matrix@[a])@.len() == n,
                forall|a: int, b: int| 0 <= a < r && 0 <= b < n ==> #[trigger] matrix@[a]@[b] == 0,
            decreases n - r,
        {
            matrix.push(zeros(n));
            r = r + 1;
        }
        let mut t: usize = 0;
        while t < endpoints.len()
            invariant
                t <= endpoints@.len(),
                n == complex.cells@.len(),
                matrix@.len() == n,
                forall|t2: int|
                    0 <= t2 < endpoints@.len() ==> {
                        &&& ((#[trigger] endpoints@[t2]).0 matches Some(i) ==> i < n)
                        &&& (endpoints@[t2].1 matches Some(j) ==> j < n)
                    },
                forall|a: int| 0 <= a < n ==> (#[trigger] matrix@[a])@.len() == n,
                forall|a: int, b: int|
                    0 <= a < n && 0 <= b < n ==> #[trigger] matrix@[a]@[b] == incidence_count(endpoints@, a, b, t as int),
                forall|a: int, b: int| 0 <= a < n && 0 <= b < n ==> #[trigger] incidence_count(endpoints@, a, b, t as int) <= t,
            decreases endpoints@.len() - t,
        {
            match endpoints[t] {
                (Some(si), Some(ti)) => {
                    let mut row: Vec<usize> = Vec::new();
                    matrix.set_and_swap(si, &mut row);
                    let v = row[ti] + 1;
                    row.set(ti, v);
                    matrix.set_and_swap(si, &mut row);
                },
                _ => {},
            }
            t = t + 1;
            assert forall|a: int, b: int| 0 <= a < n && 0 <= b < n implies #[trigger] incidence_count(endpoints@, a, b, t as int) <= t by {
                assert(incidence_count(endpoints@, a, b, t - 1) <= t - 1);
            }
            assert forall|a: int, b: int| 0 <= a < n && 0 <= b < n implies #[trigger] matrix@[a]@[b] == incidence_count(endpoints@, a, b, t as int) by {
            }
        }
        BoundaryMatrix { matrix, dimensions }
    }

    /// The number of cells.
    pub open spec fn size(&self) -> int {
        self.matrix@.len() as int
    }

    /// The matrix is square and every cell has a dimension.
    pub open spec fn well_formed(&self) -> bool {
        &&& forall|i: int| 0 <= i < self.size() ==> (#[trigger] self.matrix@[i]).len() >= self.size()
        &&& self.dimensions@.len() >= self.size()
    }

    /// The matrix reduced modulo 2.
    pub open spec fn z2(&self) -> Seq<Seq<bool>> {
        Seq::new(
            self.matrix@.len(),
            |i: int| Seq::new(self.matrix@.len(), |j: int| self.matrix@[i]@[j] % 2 == 1),
        )
    }

    /// Column `j` of the reduced matrix is not a GF(2) sum of the columns
    /// before it: elimination finds a pivot in it.
    pub open spec fn is_pivot(&self, j: int) -> bool {
        !column_dependent(self.z2(), self.size(), j)
    }

    /// The number of columns `j < m` of cells of dimension `k` that are pivot
    /// columns (`pivot`) or not (`!pivot`).
    pub open spec fn column_count(&self, k: int, pivot: bool, m: int) -> nat
        decreases m,
    {
        if m <= 0 {
            0
        } else {
            self.column_count(k, pivot, m - 1) + if self.dimensions@[m - 1] == k && self.is_pivot(m - 1)
                == pivot {
                1nat
            } else {
                0nat
            }
        }
    }

    /// The mod-2 Betti numbers this matrix yields: for each dimension `k` up
    /// to the largest, the non-pivot columns of dimension `k` less the pivot
    /// columns of dimension `k - 1` (never below zero). Row `i` of the matrix
    /// is the boundary of cell `i`, so the columns of dimension `d` hold the
    /// boundary map from dimension `d + 1` to `d`, and their pivots number
    /// its rank: the value is `c_k - rank ∂_{k+1} - rank ∂_k`, the dimension
    /// of the k-th homology over Z/2Z. An empty complex yields `[1]`.
    pub open spec fn betti_z2_spec(&self) -> Seq<usize> {
        if self.size() == 0 {
            seq![1usize]
        } else {
            Seq::new(
                (seq_max(self.dimensions@) + 1) as nat,
                |k: int| {
                    let free = self.column_count(k, false, self.size());
                    let bound = if k == 0 { 0 } else { self.column_count(k - 1, true, self.size()) };
                    (if free >= bound { free - bound } else { 0 }) as usize
                },
            )
        }
    }

    proof fn lemma_column_count_bound(&self, k: int, pivot: bool, m: int)
        requires
            0 <= m,
        ensures
            self.column_count(k, pivot, m) <= m,
        decreases m,
    {
        if m > 0 {
            self.lemma_column_count_bound(k, pivot, m - 1);
        }
    }

    /// Betti numbers over Z/2Z, by Gaussian elimination of the boundary
    /// matrix.
    pub fn betti_numbers_z2(&self) -> (betti: Vec<usize>)
        requires
            self.well_formed(),
            self.size() > 0 ==> seq_max(self.dimensions@) + 2 <= usize::MAX,
        ensures
            betti@ == self.betti_z2_spec(),
    {
        let n = self.matrix.len();
        if n == 0 {
            let mut one: Vec<usize> = Vec::new();
            one.push(1);
            assert(one@ =~= seq![1usize]);
            return one;
        }
        let max_dim = max_of(&self.dimensions);
        let ghost m = self.z2();
        let mut mat = reduce_mod2(&self.matrix);
        assert(rows_of(mat@) =~= m);
        let is_pivot = eliminate_columns_z2(&mut mat, n, Ghost(m));
        let ghost dims = self.dimensions@;
        proof {
            lemma_seq_max(dims);
        }
        let mut boundary_rank: Vec<usize> = zeros(max_dim + 2);
        let mut cycle_rank: Vec<usize> = zeros(max_dim + 1);
        let mut col: usize = 0;
        while col < n
            invariant
                col <= n,
                n == self.size(),
                self.well_formed(),
                max_dim == seq_max(dims),
                max_dim + 2 <= usize::MAX,
                dims == self.dimensions@,
                forall|i: int| 0 <= i < dims.len() ==> #[trigger] dims[i] <= max_dim,
                is_pivot@.len() == n,
                forall|j: int| 0 <= j < n ==> is_pivot@[j] == self.is_pivot(j),
                boundary_rank@.len() == max_dim + 2,
                cycle_rank@.len() == max_dim + 1,
                forall|d: int| 0 <= d < max_dim + 2 ==> #[trigger] boundary_rank@[d] == self.column_count(d, true, col as int),
                forall|d: int| 0 <= d < max_dim + 1 ==> #[trigger] cycle_rank@[d] == self.column_count(d, false, col as int),
            decreases n - col,
        {
            let dim = self.dimensions[col];
            assert(dims[col as int] <= max_dim);
            proof {
                self.lemma_column_count_bound(dim as int, true, col as int);
                self.lemma_column_count_bound(dim as int, false, col as int);
            }
            if is_pivot[col] {
                let v = boundary_rank[dim] + 1;
                boundary_rank.set(dim, v);
            } else {
                let v = cycle_rank[dim] + 1;
                cycle_rank.set(dim, v);
            }
            col = col + 1;
            assert forall|d: int| 0 <= d < max_dim + 2 implies #[trigger] boundary_rank@[d] == self.column_count(d, true, col as int) by {
                assert(self.column_count(d, true, col as int) == self.column_count(d, true, col - 1) + if dims[col - 1] == d && self.is_pivot(col - 1) { 1nat } else { 0nat });
            }
            assert forall|d: int| 0 <= d < max_dim + 1 implies #[trigger] cycle_rank@[d] == self.column_count(d, false, col as int) by {
                assert(self.column_count(d, false, col as int) == self.column_count(d, false, col - 1) + if dims[col - 1] == d && !self.is_pivot(col - 1) { 1nat } else { 0nat });
            }
        }
        let mut betti: Vec<usize> = Vec::new();
        let mut k: usize = 0;
        while k <= max_dim
            invariant
                k <= max_dim + 1,
                max_dim + 2 <= usize::MAX,
                n == self.size(),
                n > 0,
                max_dim == seq_max(self.dimensions@),
                boundary_rank@.len() == max_dim + 2,
                cycle_rank@.len() == max_dim + 1,
                forall|d: int| 0 <= d < max_dim + 2 ==> #[trigger] boundary_rank@[d] == self.column_count(d, true, n as int),
                forall|d: int| 0 <= d < max_dim + 1 ==> #[trigger] cycle_rank@[d] == self.column_count(d, false, n as int),
                betti@ == self.betti_z2_spec().take(k as int),
            decreases max_dim + 1 - k,
        {
            let free = cycle_rank[k];
            let bound = if k == 0 { 0 } else { boundary_rank[k - 1] };
            let b = if free >= bound { free - bound } else { 0 };
            betti.push(b);
            k = k + 1;
            assert(betti@ =~= self.betti_z2_spec().take(k as int));
        }
        assert(betti@ =~= self.betti_z2_spec());
        betti
    }
}

/// The `n × n` matrix of the entries of `matrix` modulo 2.
fn reduce_mod2(matrix: &Vec<Vec<usize>>) -> (mat: Vec<Vec<bool>>)
    requires
        forall|i: int| 0 <= i < matrix@.len() ==> (#[trigger] matrix@[i]).len() >= matrix@.len(),
    ensures
        rows_of(mat@) == Seq::new(
            matrix@.len(),
            |i: int| Seq::new(matrix@.len(), |j: int| matrix@[i]@[j] % 2 == 1),
        ),
{
    let n = matrix.len();
    let ghost target = Seq::new(
        matrix@.len(),
        |i: int| Seq::new(matrix@.len(), |j: int| matrix@[i]@[j] % 2 == 1),
    );
    let mut mat: Vec<Vec<bool>> = Vec::new();
    let mut i: usize = 0;
    while i < n
        invariant
            i <= n,
            n == matrix@.len(),
            forall|r: int| 0 <= r < matrix@.len() ==> (#[trigger] matrix@[r]).len() >= matrix@.len(),
            target == Seq::new(
                matrix@.len(),
                |i: int| Seq::new(matrix@.len(), |j: int| matrix@[i]@[j] % 2 == 1),
            ),
            rows_of(mat@) =~= target.take(i as int),
            mat@.len() == i,
        decreases n - i,
    {
        let mut row: Vec<bool> = Vec::new();
        let mut j: usize = 0;
        while j < n
            invariant
                j <= n,
                i < n,
                n == matrix@.len(),
                matrix@[i as int].len() >= n,
                target == Seq::new(
                    matrix@.len(),
                    |i: int| Seq::new(matrix@.len(), |j: int| matrix@[i]@[j] % 2 == 1),
                ),
                row@ =~= target[i as int].take(j as int),
                rows_of(mat@) =~= target.take(i as int),
                mat@.len() == i,
            decreases n - j,
        {
            row.push(matrix[i][j] % 2 == 1);
            j = j + 1;
        }
        assert(row@ =~= target[i as int]);
        let ghost prev = mat@;
        mat.push(row);
        assert forall|k: int| 0 <= k < i implies rows_of(mat@)[k] == rows_of(prev)[k] by {
            assert(mat@[k] == prev[k]);
        }
        assert(rows_of(mat@)[i as int] == target[i as int]);
        i = i + 1;
        assert(rows_of(mat@) =~= target.take(i as int));
    }
    mat
}

/// A copy of a row.
fn copy_row(row: &Vec<bool>) -> (r: Vec<bool>)
    ensures
        r@ == row@,
{
    let mut r: Vec<bool> = Vec::new();
    let mut j: usize = 0;
    while j < row.len()
        invariant
            j <= row.len(),
            r@ =~= row@.take(j as int),
        decreases row.len() - j,
    {
        r.push(row[j]);
        j = j + 1;
    }
    assert(r@ =~= row@);
    r
}

/// The first row at or after `from` whose entry in column `col` is set.
fn find_pivot_row(mat: &Vec<Vec<bool>>, n: usize, from: usize, col: usize) -> (found: Option<usize>)
    requires
        square(rows_of(mat@), n as int),
        from <= n,
        col < n,
    ensures
        match found {
            Some(r) => from <= r < n && rows_of(mat@)[r as int][col as int],
            None => forall|i: int| from <= i < n ==> !#[trigger] rows_of(mat@)[i][col as int],
        },
{
    let ghost a = rows_of(mat@);
    let mut r = from;
    while r < n
        invariant
            from <= r <= n,
            a == rows_of(mat@),
            square(a, n as int),
            col < n,
            forall|i: int| from <= i < r ==> !#[trigger] a[i][col as int],
        decreases n - r,
    {
        assert(a[r as int] == mat@[r as int]@);
        if mat[r][col] {
            return Some(r);
        }
        r = r + 1;
    }
    None
}

/// Exchanges rows `p` and `q`.
fn swap_rows(mat: &mut Vec<Vec<bool>>, p: usize, q: usize)
    requires
        p < old(mat)@.len(),
        q < old(mat)@.len(),
    ensures
        final(mat)@.len() == old(mat)@.len(),
        final(mat)@[p as int] == old(mat)@[q as int],
        final(mat)@[q as int] == old(mat)@[p as int],
        forall|i: int| 0 <= i < old(mat)@.len() && i != p && i != q ==> final(mat)@[i] == old(mat)@[i],
{
    if p != q {
        let mut tmp: Vec<bool> = Vec::new();
        mat.set_and_swap(p, &mut tmp);
        mat.set_and_swap(q, &mut tmp);
        mat.set_and_swap(p, &mut tmp);
    }
}

/// Adds row `p` to every other row that has a set entry in column `col`,
/// clearing column `col` outside row `p`.
fn clear_column(mat: &mut Vec<Vec<bool>>, n: usize, p: usize, col: usize)
    requires
        square(rows_of(old(mat)@), n as int),
        p < n,
        col < n,
    ensures
        square(rows_of(final(mat)@), n as int),
        same_null(rows_of(old(mat)@), rows_of(final(mat)@), n as int),
        rows_of(final(mat)@)[p as int] == rows_of(old(mat)@)[p as int],
        forall|i: int, j: int|
            0 <= i < n && 0 <= j < n && i != p ==> #[trigger] rows_of(final(mat)@)[i][j] == if rows_of(
                old(mat)@,
            )[i][col as int] {
                rows_of(old(mat)@)[i][j] != rows_of(old(mat)@)[p as int][j]
            } else {
                rows_of(old(mat)@)[i][j]
            },
{
    let ghost a0 = rows_of(mat@);
    let mut r: usize = 0;
    while r < n
        invariant
            r <= n,
            p < n,
            col < n,
            a0 == rows_of(old(mat)@),
            square(a0, n as int),
            square(rows_of(mat@), n as int),
            same_null(a0, rows_of(mat@), n as int),
            rows_of(mat@)[p as int] == a0[p as int],
            forall|i: int| r <= i < n ==> #[trigger] rows_of(mat@)[i] == a0[i],
            forall|i: int, j: int|
                0 <= i < r && 0 <= j < n && i != p ==> #[trigger] rows_of(mat@)[i][j] == if a0[i][col as int] {
                    a0[i][j] != a0[p as int][j]
                } else {
                    a0[i][j]
                },
        decreases n - r,
    {
        let ghost before = rows_of(mat@);
        assert(before[r as int] == mat@[r as int]@);
        assert(before[p as int] == mat@[p as int]@);
        if r != p && mat[r][col] {
            let mut row: Vec<bool> = Vec::new();
            let mut j: usize = 0;
            while j < n
                invariant
                    j <= n,
                    r < n,
                    p < n,
                    before == rows_of(mat@),
                    square(before, n as int),
                    mat@[r as int]@ == before[r as int],
                    mat@[p as int]@ == before[p as int],
                    forall|k: int| 0 <= k < j ==> #[trigger] row@[k] == (before[r as int][k] != before[p as int][k]),
                    row@.len() == j,
                decreases n - j,
            {
                row.push(mat[r][j] != mat[p][j]);
                j = j + 1;
            }
            mat.set(r, row);
            let ghost after = rows_of(mat@);
            assert(after =~= before.update(r as int, row@));
            proof {
                lemma_row_add_same_null(before, after, n as int, r as int, p as int);
                lemma_same_null_trans(a0, before, after, n as int);
            }
        }
        r = r + 1;
    }
}

/// Gauss-Jordan elimination over GF(2), column by column. Returns, for each
/// column, whether it received a pivot; a column does exactly when it is not
/// a sum of the columns before it.
fn eliminate_columns_z2(mat: &mut Vec<Vec<bool>>, n: usize, m: Ghost<Seq<Seq<bool>>>) -> (is_pivot: Vec<bool>)
    requires
        rows_of(old(mat)@) == m@,
        square(m@, n as int),
    ensures
        is_pivot@.len() == n,
        forall|j: int| 0 <= j < n ==> #[trigger] is_pivot@[j] == !column_dependent(m@, n as int, j),
{
    let ghost mm = m@;
    let mut is_pivot: Vec<bool> = Vec::new();
    let ghost mut prow: Seq<int> = Seq::empty();
    let ghost mut owner: Seq<int> = Seq::empty();
    let mut rank: usize = 0;
    let mut col: usize = 0;
    proof {
        lemma_same_null_refl(mm, n as int);
    }
    while col < n
        invariant
            rank <= col <= n,
            square(mm, n as int),
            square(rows_of(mat@), n as int),
            same_null(rows_of(mat@), mm, n as int),
            is_pivot@.len() == col,
            prow.len() == col,
            owner.len() == rank,
            forall|j: int| 0 <= j < col && #[trigger] is_pivot@[j] ==> 0 <= prow[j] < rank && owner[prow[j]] == j,
            forall|j: int, i: int|
                0 <= j < col && is_pivot@[j] && 0 <= i < n ==> #[trigger] rows_of(mat@)[i][j] == (i == prow[j]),
            forall|j: int, i: int|
                0 <= j < col && !is_pivot@[j] && rank <= i < n ==> !#[trigger] rows_of(mat@)[i][j],
            forall|p: int| 0 <= p < rank ==> 0 <= #[trigger] owner[p] < col && is_pivot@[owner[p]] && prow[owner[p]] == p,
            forall|j: int| 0 <= j < col ==> #[trigger] is_pivot@[j] == !column_dependent(mm, n as int, j),
        decreases n - col,
    {
        let found = find_pivot_row(mat, n, rank, col);
        match found {
            None => {
                proof {
                    lemma_column_dependent(rows_of(mat@), mm, n as int, rank as int, col as int, is_pivot@, prow, owner);
                }
                is_pivot.push(false);
                proof {
                    prow = prow.push(0);
                }
            },
            Some(r0) => {
                proof {
                    lemma_column_independent(rows_of(mat@), mm, n as int, rank as int, col as int, is_pivot@, prow, r0 as int);
                }
                let ghost a0 = rows_of(mat@);
                swap_rows(mat, rank, r0);
                let ghost a1 = rows_of(mat@);
                proof {
                    assert(a1[rank as int] == a0[r0 as int]);
                    assert(a1[r0 as int] == a0[rank as int]);
                    assert forall|i: int| 0 <= i < n && i != rank && i != r0 implies a1[i] == a0[i] by {
                        assert(a1[i] == mat@[i]@);
                    }
                    assert forall|i: int| 0 <= i < n implies (#[trigger] a1[i]).len() == n by {
                        if i != rank && i != r0 {
                            assert(a1[i] == a0[i]);
                        }
                    }
                    lemma_swap_same_null(a0, a1, n as int, rank as int, r0 as int);
                    lemma_same_null_trans(a1, a0, mm, n as int);
                }
                clear_column(mat, n, rank, col);
                let ghost a2 = rows_of(mat@);
                proof {
                    lemma_same_null_trans(a2, a1, mm, n as int);
                    assert forall|j: int, i: int|
                        0 <= j < col && 0 <= i < n implies #[trigger] a2[i][j] == a0[if i == rank {
                            r0 as int
                        } else if i == r0 {
                            rank as int
                        } else {
                            i
                        }][j] by {
                        assert(!a1[rank as int][j]) by {
                            if is_pivot@[j] {
                                assert(a0[r0 as int][j] == (r0 == prow[j]));
                            } else {
                                assert(!a0[r0 as int][j]);
                            }
                        }
                        if i != rank && i != r0 {
                            assert(a1[i] == a0[i]);
                        }
                    }
                    assert forall|i: int| 0 <= i < n implies #[trigger] a2[i][col as int] == (i == rank) by {
                        if i != rank && i != r0 {
                            assert(a1[i] == a0[i]);
                        }
                    }
                    assert forall|j: int, i: int|
                        0 <= j < col && is_pivot@[j] && 0 <= i < n implies #[trigger] a2[i][j] == (i == prow[j]) by {
                        assert(a2[i][j] == a0[if i == rank {
                            r0 as int
                        } else if i == r0 {
                            rank as int
                        } else {
                            i
                        }][j]);
                    }
                    assert forall|j: int, i: int|
                        0 <= j < col && !is_pivot@[j] && rank < i < n implies !#[trigger] a2[i][j] by {
                        assert(a2[i][j] == a0[if i == rank {
                            r0 as int
                        } else if i == r0 {
                            rank as int
                        } else {
                            i
                        }][j]);
                    }
                }
                is_pivot.push(true);
                proof {
                    prow = prow.push(rank as int);
                    owner = owner.push(col as int);
                }
                rank = rank + 1;
            },
        }
        col = col + 1;
    }
    is_pivot
}

/// A vector of `len` zeros.
fn zeros(len: usize) -> (v: Vec<usize>)
    ensures
        v@.len() == len,
        forall|i: int| 0 <= i < len ==> #[trigger] v@[i] == 0,
{
    let mut v: Vec<usize> = Vec::new();
    let mut i: usize = 0;
    while i < len
        invariant
            i <= len,
            v@.len() == i,
            forall|j: int| 0 <= j < i ==> #[trigger] v@[j] == 0,
        decreases len - i,
    {
        v.push(0);
        i = i + 1;
    }
    v
}

/// The largest entry of `v` (0 when `v` is empty).
fn max_of(v: &Vec<usize>) -> (m: usize)
    ensures
        m == seq_max(v@),
{
    let mut m: usize = 0;
    let mut i: usize = 0;
    while i < v.len()
        invariant
            i <= v.len(),
            m == seq_max(v@.take(i as int)),
        decreases v.len() - i,
    {
        assert(v@.take(i + 1).drop_last() =~= v@.take(i as int));
        if v[i] > m {
            m = v[i];
        }
        i = i + 1;
    }
    assert(v@.take(v.len() as int) =~= v@);
    m
}

} // verus!
