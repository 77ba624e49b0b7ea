//! Rank and nullity of a graded chain complex over Z/2Z.
//!
//! The `n × n` matrix `a` has `a[i][j]` when cell `j` lies in the boundary of
//! cell `i`, so column `l` is the coboundary of cell `l`. When the matrix is
//! graded and `∂∘∂ = 0`, the coboundary of a pivot column of dimension `d`
//! is a relation among the columns of dimension `d + 1`. Reducing those
//! relations against each other gives one dependent column of dimension
//! `d + 1` for each pivot column of dimension `d`.

use vstd::prelude::*;
use crate::z2::{column_dependent, dependence_witness, dot, in_null, lemma_dot_one};

verus! {

/// Column `l` of `a`, as a selection vector over the rows.
pub open spec fn column(a: Seq<Seq<bool>>, l: int, n: int) -> Seq<bool> {
    Seq::new(n as nat, |j: int| a[j][l])
}

/// The sum over GF(2) of two vectors of length `n`.
pub open spec fn xor(x: Seq<bool>, y: Seq<bool>, n: int) -> Seq<bool> {
    Seq::new(n as nat, |i: int| x[i] != y[i])
}

/// Every set entry joins a cell to a cell one dimension lower.
pub open spec fn graded_by(a: Seq<Seq<bool>>, dims: Seq<usize>, n: int) -> bool {
    forall|i: int, j: int| 0 <= i < n && 0 <= j < n && #[trigger] a[i][j] ==> dims[i] == dims[j] + 1
}

/// `∂∘∂ = 0` over GF(2): for all `i` and `l`, an even number of `j` have
/// both `a[i][j]` and `a[j][l]`.
pub open spec fn squares_to_zero(a: Seq<Seq<bool>>, n: int) -> bool {
    forall|i: int, l: int| 0 <= i < n && 0 <= l < n ==> !#[trigger] dot(a[i], column(a, l, n), n)
}

/// The columns `l < m` of dimension `d` that are not sums of earlier columns.
pub open spec fn pivot_set(a: Seq<Seq<bool>>, dims: Seq<usize>, n: int, d: int, m: int) -> Set<int> {
    Set::new(|l: int| 0 <= l < m && dims[l] == d && !column_dependent(a, n, l))
}

/// The columns of dimension `k` that are sums of earlier columns.
pub open spec fn dependent_set(a: Seq<Seq<bool>>, dims: Seq<usize>, n: int, k: int) -> Set<int> {
    Set::new(|j: int| 0 <= j < n && dims[j] == k && column_dependent(a, n, j))
}

/// A reduced relation `y` for the pivot column `l`: `y` selects columns of
/// dimension `k` that sum to zero, its last selected column is `t`, and `y`
/// is the sum of the columns selected by `coef`, in which `l` is the last.
pub open spec fn good_entry(
    a: Seq<Seq<bool>>,
    dims: Seq<usize>,
    n: int,
    k: int,
    l: int,
    e: (Seq<bool>, Seq<bool>, int),
) -> bool {
    let (y, coef, t) = e;
    &&& y.len() == n
    &&& coef.len() == n
    &&& 0 <= t < n
    &&& y[t]
    &&& forall|s: int| t < s < n ==> !#[trigger] y[s]
    &&& forall|s: int| 0 <= s < n && #[trigger] y[s] ==> dims[s] == k
    &&& in_null(a, y, n)
    &&& forall|i: int| 0 <= i < n ==> #[trigger] y[i] == dot(a[i], coef, n)
    &&& 0 <= l < n
    &&& coef[l]
    &&& forall|s: int| l < s < n ==> !#[trigger] coef[s]
}

/// One reduced relation for each pivot column of dimension `d` before `m`,
/// with pairwise distinct last columns.
pub open spec fn good_state(
    a: Seq<Seq<bool>>,
    dims: Seq<usize>,
    n: int,
    d: int,
    st: Map<int, (Seq<bool>, Seq<bool>, int)>,
    m: int,
) -> bool {
    &&& st.dom() == pivot_set(a, dims, n, d, m)
    &&& forall|l: int| #[trigger] st.dom().contains(l) ==> good_entry(a, dims, n, d + 1, l, st[l])
    &&& forall|l1: int, l2: int|
        st.dom().contains(l1) && st.dom().contains(l2) && l1 != l2 ==> #[trigger] st[l1].2 != #[trigger] st[l2].2
}

/// The dot product is linear in the selection vector.
proof fn lemma_dot_xor_right(r: Seq<bool>, x: Seq<bool>, y: Seq<bool>, z: Seq<bool>, m: int)
    requires
        forall|j: int| 0 <= j < m ==> #[trigger] z[j] == (x[j] != y[j]),
    ensures
        dot(r, z, m) == (dot(r, x, m) != dot(r, y, m)),
    decreases m,
{
    if m > 0 {
        lemma_dot_xor_right(r, x, y, z, m - 1);
    }
}

/// Reduce the relation `y` of the pivot column `m` against the relations
/// already built until its last column is new.
proof fn reduce(
    a: Seq<Seq<bool>>,
    dims: Seq<usize>,
    n: int,
    d: int,
    m: int,
    st: Map<int, (Seq<bool>, Seq<bool>, int)>,
    y: Seq<bool>,
    coef: Seq<bool>,
    t: int,
) -> (r: (Seq<bool>, Seq<bool>, int))
    requires
        good_state(a, dims, n, d, st, m),
        0 <= m < n,
        !column_dependent(a, n, m),
        y.len() == n,
        coef.len() == n,
        0 <= t <= n,
        forall|s: int| t <= s < n ==> !#[trigger] y[s],
        forall|s: int| 0 <= s < n && #[trigger] y[s] ==> dims[s] == d + 1,
        in_null(a, y, n),
        forall|i: int| 0 <= i < n ==> #[trigger] y[i] == dot(a[i], coef, n),
        coef[m],
        forall|s: int| m < s < n ==> !#[trigger] coef[s],
    ensures
        good_entry(a, dims, n, d + 1, m, r),
        forall|l: int| #[trigger] st.dom().contains(l) ==> st[l].2 != r.2,
    decreases t,
{
    if t == 0 {
        assert forall|i: int| 0 <= i < n implies !#[trigger] dot(a[i], coef, n) by {
            assert(!y[i]);
        }
        assert(dependence_witness(a, n, m, coef));
        (y, coef, 0)
    } else if !y[t - 1] {
        reduce(a, dims, n, d, m, st, y, coef, t - 1)
    } else if exists|l: int| #[trigger] st.dom().contains(l) && st[l].2 == t - 1 {
        let l = choose|l: int| #[trigger] st.dom().contains(l) && st[l].2 == t - 1;
        let e = st[l];
        assert(good_entry(a, dims, n, d + 1, l, e));
        let y2 = xor(y, e.0, n);
        let c2 = xor(coef, e.1, n);
        assert forall|i: int| 0 <= i < n implies !#[trigger] dot(a[i], y2, n) by {
            lemma_dot_xor_right(a[i], y, e.0, y2, n);
            assert(!dot(a[i], y, n));
            assert(!dot(a[i], e.0, n));
        }
        assert forall|i: int| 0 <= i < n implies #[trigger] y2[i] == dot(a[i], c2, n) by {
            lemma_dot_xor_right(a[i], coef, e.1, c2, n);
            assert(y[i] == dot(a[i], coef, n));
            assert(e.0[i] == dot(a[i], e.1, n));
        }
        assert forall|s: int| t - 1 <= s < n implies !#[trigger] y2[s] by {
            if s > t - 1 {
                assert(!y[s]);
                assert(!e.0[s]);
            }
        }
        assert forall|s: int| 0 <= s < n && #[trigger] y2[s] implies dims[s] == d + 1 by {
            if y[s] {
            } else {
                assert(e.0[s]);
            }
        }
        assert(!e.1[m]);
        assert forall|s: int| m < s < n implies !#[trigger] c2[s] by {
            assert(!coef[s]);
            assert(!e.1[s]);
        }
        reduce(a, dims, n, d, m, st, y2, c2, t - 1)
    } else {
        (y, coef, t - 1)
    }
}

/// Build the reduced relations of all pivot columns of dimension `d`
/// before `m`.
proof fn build(a: Seq<Seq<bool>>, dims: Seq<usize>, n: int, d: int, m: int) -> (st: Map<
    int,
    (Seq<bool>, Seq<bool>, int),
>)
    requires
        graded_by(a, dims, n),
        squares_to_zero(a, n),
        0 <= m <= n,
    ensures
        good_state(a, dims, n, d, st, m),
    decreases m,
{
    if m == 0 {
        let st = Map::<int, (Seq<bool>, Seq<bool>, int)>::empty();
        assert(st.dom() =~= pivot_set(a, dims, n, d, 0));
        st
    } else {
        let st = build(a, dims, n, d, m - 1);
        let l = m - 1;
        if dims[l] == d && !column_dependent(a, n, l) {
            let y = column(a, l, n);
            let coef = Seq::new(n as nat, |s: int| s == l);
            assert forall|i: int| 0 <= i < n implies !#[trigger] dot(a[i], y, n) by {
                assert(!dot(a[i], column(a, l, n), n));
            }
            assert forall|s: int| 0 <= s < n && #[trigger] y[s] implies dims[s] == d + 1 by {
                assert(a[s][l]);
            }
            assert forall|i: int| 0 <= i < n implies #[trigger] y[i] == dot(a[i], coef, n) by {
                lemma_dot_one(a[i], coef, n, l);
            }
            let r = reduce(a, dims, n, d, l, st, y, coef, n);
            let st2 = st.insert(l, r);
            assert(st2.dom() =~= pivot_set(a, dims, n, d, m));
            assert forall|l1: int| #[trigger] st2.dom().contains(l1) implies good_entry(a, dims, n, d + 1, l1, st2[l1]) by {
                if l1 != l {
                    assert(st.dom().contains(l1));
                }
            }
            assert forall|l1: int, l2: int|
                st2.dom().contains(l1) && st2.dom().contains(l2) && l1 != l2 implies #[trigger] st2[l1].2
                != #[trigger] st2[l2].2 by {
                if l1 != l && l2 != l {
                    assert(st.dom().contains(l1) && st.dom().contains(l2));
                } else if l1 == l {
                    assert(st.dom().contains(l2));
                } else {
                    assert(st.dom().contains(l1));
                }
            }
            st2
        } else {
            assert(st.dom() =~= pivot_set(a, dims, n, d, m));
            st
        }
    }
}

/// Rank-nullity for a graded chain complex: there are no more pivot
/// columns of dimension `d` (the rank of the boundary map from dimension
/// `d + 1` to `d`) than dependent columns of dimension `d + 1`.
pub proof fn lemma_pivots_fit(a: Seq<Seq<bool>>, dims: Seq<usize>, n: int, d: int)
    requires
        graded_by(a, dims, n),
        squares_to_zero(a, n),
        0 <= n,
    ensures
        pivot_set(a, dims, n, d, n).finite(),
        dependent_set(a, dims, n, d + 1).finite(),
        pivot_set(a, dims, n, d, n).len() <= dependent_set(a, dims, n, d + 1).len(),
{
    let st = build(a, dims, n, d, n);
    let dom = pivot_set(a, dims, n, d, n);
    let dep = dependent_set(a, dims, n, d + 1);
    let f = |l: int| st[l].2;
    vstd::set_lib::lemma_int_range(0, n);
    vstd::set_lib::lemma_len_subset(dom, vstd::set_lib::set_int_range(0, n));
    vstd::set_lib::lemma_len_subset(dep, vstd::set_lib::set_int_range(0, n));
    assert(vstd::relations::injective_on(f, dom)) by {
        assert forall|l1: int, l2: int| dom.contains(l1) && dom.contains(l2) && #[trigger] f(l1) == #[trigger] f(l2) implies l1
            == l2 by {
            if l1 != l2 {
                assert(st.dom().contains(l1) && st.dom().contains(l2));
                assert(st[l1].2 != st[l2].2);
            }
        }
    }
    let img = dom.map(f);
    vstd::set_lib::lemma_map_size(dom, img, f);
    assert forall|t: int| #[trigger] img.contains(t) implies dep.contains(t) by {
        let l = choose|l: int| dom.contains(l) && f(l) == t;
        assert(st.dom().contains(l));
        let e = st[l];
        assert(good_entry(a, dims, n, d + 1, l, e));
        assert(dependence_witness(a, n, t, e.0));
    }
    vstd::set_lib::lemma_len_subset(img, dep);
}

} // verus!
