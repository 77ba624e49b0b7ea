//! The Euler-Poincaré identity for the mod-2 Betti numbers of a boundary
//! matrix: the alternating sum of the Betti numbers is the alternating count
//! of the cells.

use vstd::prelude::*;
use crate::morse_smale::{lemma_seq_max, seq_max, BoundaryMatrix};
use crate::z2::{column_dependent, dependence_witness, dot, lemma_dot_one, lemma_dot_zero};
use crate::rank::{dependent_set, graded_by, lemma_pivots_fit, pivot_set, squares_to_zero};

verus! {

/// `(-1)^k`.
pub open spec fn sign(k: int) -> int {
    if k % 2 == 0 { 1 } else { -1 }
}

/// `Σ_k (-1)^k b[k]`.
pub open spec fn betti_euler(b: Seq<usize>) -> int
    decreases b.len(),
{
    if b.len() == 0 {
        0
    } else {
        betti_euler(b.drop_last()) + sign(b.len() - 1) * b.last()
    }
}

/// `Σ_{j < m} (-1)^dims[j]`: the alternating count of the first `m` cells.
pub open spec fn dimension_euler(dims: Seq<usize>, m: int) -> int
    decreases m,
{
    if m <= 0 {
        0
    } else {
        dimension_euler(dims, m - 1) + sign(dims[m - 1] as int)
    }
}

/// `Σ_{k < m} (-1)^k f(k)`.
pub open spec fn alt_total(f: spec_fn(int) -> int, m: int) -> int
    decreases m,
{
    if m <= 0 {
        0
    } else {
        alt_total(f, m - 1) + sign(m - 1) * f(m - 1)
    }
}

/// The number of the first `m` cells of dimension `k`.
pub open spec fn dim_count(dims: Seq<usize>, k: int, m: int) -> int
    decreases m,
{
    if m <= 0 {
        0
    } else {
        dim_count(dims, k, m - 1) + if dims[m - 1] == k { 1int } else { 0int }
    }
}

impl BoundaryMatrix {
    /// The matrix only joins a cell to cells one dimension lower: an odd
    /// entry `[i][j]` has `dimensions[i] == dimensions[j] + 1`.
    pub open spec fn graded(&self) -> bool {
        forall|i: int, j: int|
            0 <= i < self.size() && 0 <= j < self.size() && #[trigger] self.matrix@[i]@[j] % 2 == 1
                ==> self.dimensions@[i] == self.dimensions@[j] + 1
    }

    /// The matrix is the boundary map of a chain complex over Z/2Z: it is
    /// graded, and `∂∘∂ = 0`, so that for all cells `i` and `l` an even
    /// number of cells `j` have `[i][j]` and `[j][l]` both odd.
    pub open spec fn is_chain_complex(&self) -> bool {
        &&& self.graded()
        &&& squares_to_zero(self.z2(), self.size())
    }

    /// In every dimension `k`, the pivot columns of dimension `k - 1` (the
    /// rank of the boundary map out of dimension `k`) are no more than the
    /// non-pivot columns of dimension `k`, so no Betti number is cut off at
    /// zero. Every chain complex has it (`law_chain_complex_boundaries_fit`).
    pub open spec fn boundaries_fit(&self) -> bool {
        forall|k: int|
            0 <= k <= seq_max(self.dimensions@) ==> #[trigger] self.column_count(k, false, self.size())
                >= if k == 0 { 0 } else { self.column_count(k - 1, true, self.size()) }
    }
}

proof fn lemma_alt_total_ext(f: spec_fn(int) -> int, g: spec_fn(int) -> int, m: int)
    requires
        forall|k: int| 0 <= k < m ==> #[trigger] f(k) == g(k),
    ensures
        alt_total(f, m) == alt_total(g, m),
    decreases m,
{
    if m > 0 {
        lemma_alt_total_ext(f, g, m - 1);
    }
}

proof fn lemma_alt_total_add(f: spec_fn(int) -> int, g: spec_fn(int) -> int, h: spec_fn(int) -> int, m: int)
    requires
        forall|k: int| 0 <= k < m ==> #[trigger] h(k) == f(k) + g(k),
    ensures
        alt_total(h, m) == alt_total(f, m) + alt_total(g, m),
    decreases m,
{
    if m > 0 {
        lemma_alt_total_add(f, g, h, m - 1);
        assert(sign(m - 1) * h(m - 1) == sign(m - 1) * f(m - 1) + sign(m - 1) * g(m - 1)) by (nonlinear_arith)
            requires
                h(m - 1) == f(m - 1) + g(m - 1),
        ;
    }
}

/// Raising one value `f(d)` by one raises the alternating total by `(-1)^d`.
proof fn lemma_alt_total_bump(f: spec_fn(int) -> int, g: spec_fn(int) -> int, d: int, m: int)
    requires
        0 <= d,
        forall|k: int| 0 <= k < m && k != d ==> #[trigger] g(k) == f(k),
        d < m ==> g(d) == f(d) + 1,
    ensures
        alt_total(g, m) == alt_total(f, m) + if d < m { sign(d) } else { 0 },
    decreases m,
{
    if m > 0 {
        lemma_alt_total_bump(f, g, d, m - 1);
        if m - 1 == d {
            assert(sign(d) * g(d) == sign(d) * f(d) + sign(d)) by (nonlinear_arith)
                requires
                    g(d) == f(d) + 1,
            ;
        }
    }
}

/// Moving every value up one place (with 0 in front) negates the total.
proof fn lemma_alt_total_shift(f: spec_fn(int) -> int, g: spec_fn(int) -> int, m: int)
    requires
        0 <= m,
        g(0) == 0,
        forall|k: int| 1 <= k <= m ==> #[trigger] g(k) == f(k - 1),
    ensures
        alt_total(g, m + 1) == -alt_total(f, m),
    decreases m,
{
    if m == 0 {
        assert(alt_total(g, 1) == alt_total(g, 0) + sign(0) * g(0));
    } else {
        lemma_alt_total_shift(f, g, m - 1);
        assert(alt_total(g, m + 1) == alt_total(g, m) + sign(m) * g(m));
        assert(alt_total(f, m) == alt_total(f, m - 1) + sign(m - 1) * f(m - 1));
        assert(sign(m) == -sign(m - 1));
        assert(sign(m) * g(m) == -(sign(m - 1) * f(m - 1))) by (nonlinear_arith)
            requires
                g(m) == f(m - 1),
                sign(m) == -sign(m - 1),
        ;
    }
}

/// The alternating count of cells, gathered by dimension.
proof fn lemma_dimension_euler_by_dimension(dims: Seq<usize>, m: int, top: int)
    requires
        0 <= m <= dims.len(),
        forall|j: int| 0 <= j < m ==> dims[j] < top,
    ensures
        dimension_euler(dims, m) == alt_total(|k: int| dim_count(dims, k, m), top),
    decreases m,
{
    if m <= 0 {
        lemma_alt_total_ext(|k: int| dim_count(dims, k, m), |k: int| 0int, top);
        lemma_alt_total_zero(top);
    } else {
        lemma_dimension_euler_by_dimension(dims, m - 1, top);
        lemma_alt_total_bump(
            |k: int| dim_count(dims, k, m - 1),
            |k: int| dim_count(dims, k, m),
            dims[m - 1] as int,
            top,
        );
    }
}

proof fn lemma_alt_total_zero(m: int)
    ensures
        alt_total(|k: int| 0int, m) == 0,
    decreases m,
{
    if m > 0 {
        lemma_alt_total_zero(m - 1);
    }
}

proof fn lemma_betti_euler_total(b: Seq<usize>)
    ensures
        betti_euler(b) == alt_total(|k: int| b[k] as int, b.len() as int),
    decreases b.len(),
{
    if b.len() > 0 {
        lemma_betti_euler_total(b.drop_last());
        lemma_alt_total_ext(|k: int| b.drop_last()[k] as int, |k: int| b[k] as int, b.len() - 1);
    }
}

/// Each column of dimension `k` is a pivot column or not.
proof fn lemma_column_split(bm: BoundaryMatrix, k: int, m: int)
    requires
        0 <= m <= bm.dimensions@.len(),
    ensures
        bm.column_count(k, false, m) + bm.column_count(k, true, m) == dim_count(bm.dimensions@, k, m),
    decreases m,
{
    if m > 0 {
        lemma_column_split(bm, k, m - 1);
    }
}

/// In a graded matrix the columns of the top dimension vanish modulo 2, so
/// none of them is a pivot column.
proof fn lemma_no_top_pivot(bm: BoundaryMatrix, m: int)
    requires
        bm.well_formed(),
        bm.graded(),
        bm.dimensions@.len() == bm.size(),
        0 <= m <= bm.size(),
    ensures
        bm.column_count(seq_max(bm.dimensions@) as int, true, m) == 0,
    decreases m,
{
    if m > 0 {
        lemma_no_top_pivot(bm, m - 1);
        let n = bm.size();
        let dims = bm.dimensions@;
        let top = seq_max(dims);
        let j = m - 1;
        if dims[j] == top {
            lemma_seq_max(dims);
            let a = bm.z2();
            let x = Seq::new(n as nat, |t: int| t == j);
            assert forall|i: int| 0 <= i < n implies !#[trigger] dot(a[i], x, n) by {
                lemma_dot_one(a[i], x, n, j);
                if a[i][j] {
                    assert(bm.matrix@[i]@[j] % 2 == 1);
                    assert(dims[i] <= top);
                }
            }
            assert(dependence_witness(a, n, j, x));
        }
    }
}

/// The pivot columns of dimension `k` (or the other columns of dimension
/// `k`) before `m`, as a set.
pub open spec fn column_set(bm: BoundaryMatrix, k: int, pivot: bool, m: int) -> Set<int> {
    Set::new(|j: int| 0 <= j < m && bm.dimensions@[j] == k && bm.is_pivot(j) == pivot)
}

proof fn lemma_column_set(bm: BoundaryMatrix, k: int, pivot: bool, m: int)
    requires
        0 <= m,
    ensures
        column_set(bm, k, pivot, m).finite(),
        bm.column_count(k, pivot, m) == column_set(bm, k, pivot, m).len(),
    decreases m,
{
    if m == 0 {
        assert(column_set(bm, k, pivot, 0) =~= Set::empty());
    } else {
        lemma_column_set(bm, k, pivot, m - 1);
        let prev = column_set(bm, k, pivot, m - 1);
        if bm.dimensions@[m - 1] == k && bm.is_pivot(m - 1) == pivot {
            assert(column_set(bm, k, pivot, m) =~= prev.insert(m - 1));
        } else {
            assert(column_set(bm, k, pivot, m) =~= prev);
        }
    }
}

/// Rank-nullity: in a chain complex no Betti number is cut off at zero, for
/// the rank of the boundary map out of dimension `k` is at most the
/// dimension of the cycles it leaves among the columns of dimension `k`.
pub proof fn law_chain_complex_boundaries_fit(bm: BoundaryMatrix)
    requires
        bm.well_formed(),
        bm.dimensions@.len() == bm.size(),
        bm.is_chain_complex(),
    ensures
        bm.boundaries_fit(),
{
    let a = bm.z2();
    let n = bm.size();
    let dims = bm.dimensions@;
    assert(graded_by(a, dims, n)) by {
        assert forall|i: int, j: int| 0 <= i < n && 0 <= j < n && #[trigger] a[i][j] implies dims[i] == dims[j] + 1 by {
            assert(bm.matrix@[i]@[j] % 2 == 1);
        }
    }
    assert forall|k: int| 0 <= k <= seq_max(dims) implies #[trigger] bm.column_count(k, false, n) >= if k == 0 {
        0
    } else {
        bm.column_count(k - 1, true, n)
    } by {
        if k > 0 {
            lemma_pivots_fit(a, dims, n, k - 1);
            lemma_column_set(bm, k, false, n);
            lemma_column_set(bm, k - 1, true, n);
            assert(column_set(bm, k, false, n) =~= dependent_set(a, dims, n, k));
            assert(column_set(bm, k - 1, true, n) =~= pivot_set(a, dims, n, k - 1, n));
        }
    }
}

/// Euler-Poincaré: for the boundary matrix of a chain complex over Z/2Z, the
/// alternating sum of the mod-2 Betti numbers equals the alternating count
/// of the cells, `Σ_k (-1)^k β_k = Σ_cells (-1)^dim`.
pub proof fn law_betti_euler_poincare(bm: BoundaryMatrix)
    requires
        bm.well_formed(),
        bm.dimensions@.len() == bm.size(),
        bm.size() > 0,
        bm.is_chain_complex(),
    ensures
        betti_euler(bm.betti_z2_spec()) == dimension_euler(bm.dimensions@, bm.size()),
{
    law_chain_complex_boundaries_fit(bm);
    let n = bm.size();
    let dims = bm.dimensions@;
    let top = seq_max(dims) as int;
    let b = bm.betti_z2_spec();
    let free = |k: int| bm.column_count(k, false, n) as int;
    let piv = |k: int| bm.column_count(k, true, n) as int;
    let below = |k: int| if k == 0 { 0int } else { bm.column_count(k - 1, true, n) as int };
    let betti = |k: int| b[k] as int;
    let diff = |k: int| free(k) - below(k);
    let cells = |k: int| dim_count(dims, k, n);
    lemma_seq_max(dims);
    lemma_betti_euler_total(b);
    assert(bm.matrix@.len() == bm.matrix.len());
    assert(b.len() == top + 1);
    assert forall|k: int| 0 <= k < top + 1 implies #[trigger] betti(k) == diff(k) by {
        assert(bm.column_count(k, false, n) >= below(k));
        lemma_count_le(bm, k, false, n);
        let fr = bm.column_count(k, false, n);
        let bo = if k == 0 { 0 } else { bm.column_count(k - 1, true, n) };
        assert(b[k] == (if fr >= bo { fr - bo } else { 0 }) as usize);
    }
    lemma_alt_total_ext(betti, diff, top + 1);
    // Σ (-1)^k (free_k - piv_{k-1}) = Σ (-1)^k free_k + Σ_{k < top} (-1)^k piv_k
    let neg_below = |k: int| -below(k);
    lemma_alt_total_add(free, neg_below, diff, top + 1);
    lemma_alt_total_neg(below, neg_below, top + 1);
    lemma_alt_total_shift(piv, below, top);
    // piv_top = 0, so the sum of piv may run up to top too.
    lemma_no_top_pivot(bm, n);
    assert(alt_total(piv, top + 1) == alt_total(piv, top));
    assert forall|k: int| 0 <= k < top + 1 implies #[trigger] cells(k) == free(k) + piv(k) by {
        lemma_column_split(bm, k, n);
    }
    lemma_alt_total_add(free, piv, cells, top + 1);
    lemma_dimension_euler_by_dimension(dims, n, top + 1);
}

/// Column `j` of the `n × n` matrix `a` is a GF(2) sum of earlier columns of
/// its own dimension.
pub open spec fn dependent_within_dimension(a: Seq<Seq<bool>>, dims: Seq<usize>, n: int, j: int) -> bool {
    exists|x: Seq<bool>|
        dependence_witness(a, n, j, x) && forall|t: int| 0 <= t < n && #[trigger] x[t] ==> dims[t] == dims[j]
}

proof fn lemma_dot_same(r: Seq<bool>, x: Seq<bool>, y: Seq<bool>, m: int)
    requires
        forall|t: int| 0 <= t < m ==> (r[t] && x[t]) == (#[trigger] r[t] && y[t]),
    ensures
        dot(r, x, m) == dot(r, y, m),
    decreases m,
{
    if m > 0 {
        lemma_dot_same(r, x, y, m - 1);
    }
}

/// In a graded matrix a column is a GF(2) sum of earlier columns exactly when
/// it is a sum of earlier columns of its own dimension. The pivot columns of
/// dimension `d` are therefore a greedy basis of the columns of dimension
/// `d`, the block of the boundary map from dimension `d + 1` to `d`: their
/// number, `column_count(d, true, n)`, is the rank of that map.
pub proof fn law_pivots_within_dimension(bm: BoundaryMatrix, j: int)
    requires
        bm.well_formed(),
        bm.dimensions@.len() == bm.size(),
        bm.graded(),
        0 <= j < bm.size(),
    ensures
        column_dependent(bm.z2(), bm.size(), j) <==> dependent_within_dimension(
            bm.z2(),
            bm.dimensions@,
            bm.size(),
            j,
        ),
{
    let a = bm.z2();
    let n = bm.size();
    let dims = bm.dimensions@;
    if column_dependent(a, n, j) {
        let x = choose|x: Seq<bool>| dependence_witness(a, n, j, x);
        let y = Seq::new(n as nat, |t: int| x[t] && dims[t] == dims[j]);
        assert forall|i: int| 0 <= i < n implies !#[trigger] dot(a[i], y, n) by {
            assert(!dot(a[i], x, n));
            if dims[i] == dims[j] + 1 {
                assert forall|t: int| 0 <= t < n implies (a[i][t] && x[t]) == (#[trigger] a[i][t] && y[t]) by {
                    if a[i][t] {
                        assert(bm.matrix@[i]@[t] % 2 == 1);
                    }
                }
                lemma_dot_same(a[i], x, y, n);
            } else {
                assert forall|t: int| 0 <= t < n implies !(#[trigger] a[i][t] && y[t]) by {
                    if a[i][t] {
                        assert(bm.matrix@[i]@[t] % 2 == 1);
                    }
                }
                lemma_dot_zero(a[i], y, n);
            }
        }
        assert(dependence_witness(a, n, j, y));
    }
    if dependent_within_dimension(a, dims, n, j) {
        let x = choose|x: Seq<bool>|
            dependence_witness(a, n, j, x) && forall|t: int| 0 <= t < n && #[trigger] x[t] ==> dims[t] == dims[j];
        assert(dependence_witness(a, n, j, x));
    }
}

proof fn lemma_alt_total_neg(f: spec_fn(int) -> int, g: spec_fn(int) -> int, m: int)
    requires
        forall|k: int| 0 <= k < m ==> #[trigger] g(k) == -f(k),
    ensures
        alt_total(g, m) == -alt_total(f, m),
    decreases m,
{
    if m > 0 {
        lemma_alt_total_neg(f, g, m - 1);
        assert(sign(m - 1) * g(m - 1) == -(sign(m - 1) * f(m - 1))) by (nonlinear_arith)
            requires
                g(m - 1) == -f(m - 1),
        ;
    }
}

proof fn lemma_count_le(bm: BoundaryMatrix, k: int, pivot: bool, m: int)
    requires
        0 <= m,
    ensures
        bm.column_count(k, pivot, m) <= m,
    decreases m,
{
    if m > 0 {
        lemma_count_le(bm, k, pivot, m - 1);
    }
}

} // verus!
