//! Linear algebra over the two-element field, as used by the boundary
//! matrices of Morse-Smale complexes.
//!
//! A matrix is a sequence of rows; the columns of an `n × n` matrix are
//! combined by selection vectors `x` of length `n`.

use vstd::prelude::*;

verus! {

/// `Σ_{j < m} row[j]·x[j]` over GF(2).
pub open spec fn dot(row: Seq<bool>, x: Seq<bool>, m: int) -> bool
    decreases m,
{
    if m <= 0 {
        false
    } else {
        dot(row, x, m - 1) != (row[m - 1] && x[m - 1])
    }
}

/// `x` lies in the null space of the `n × n` matrix `a`: the columns that
/// `x` selects sum to zero.
pub open spec fn in_null(a: Seq<Seq<bool>>, x: Seq<bool>, n: int) -> bool {
    forall|i: int| 0 <= i < n ==> !#[trigger] dot(a[i], x, n)
}

/// A relation among the columns of `a` in which column `j` takes part and no
/// later column does: column `j` is a sum of earlier columns.
pub open spec fn dependence_witness(a: Seq<Seq<bool>>, n: int, j: int, x: Seq<bool>) -> bool {
    &&& x.len() == n
    &&& x[j]
    &&& forall|k: int| j < k < n ==> !#[trigger] x[k]
    &&& in_null(a, x, n)
}

/// Column `j` of the `n × n` matrix `a` is a GF(2) sum of the columns before
/// it (the empty sum being the zero column).
pub open spec fn column_dependent(a: Seq<Seq<bool>>, n: int, j: int) -> bool {
    exists|x: Seq<bool>| dependence_witness(a, n, j, x)
}

/// Two `n × n` matrices have the same null space.
pub open spec fn same_null(a: Seq<Seq<bool>>, b: Seq<Seq<bool>>, n: int) -> bool {
    forall|x: Seq<bool>| x.len() == n ==> (#[trigger] in_null(a, x, n) <==> in_null(b, x, n))
}

pub proof fn lemma_dot_zero(row: Seq<bool>, x: Seq<bool>, m: int)
    requires
        forall|j: int| 0 <= j < m ==> !(row[j] && x[j]),
    ensures
        !dot(row, x, m),
    decreases m,
{
    if m > 0 {
        lemma_dot_zero(row, x, m - 1);
    }
}

pub proof fn lemma_dot_one(row: Seq<bool>, x: Seq<bool>, m: int, a: int)
    requires
        0 <= a < m,
        forall|j: int| 0 <= j < m && j != a ==> !(row[j] && x[j]),
    ensures
        dot(row, x, m) == (row[a] && x[a]),
    decreases m,
{
    if m - 1 == a {
        lemma_dot_zero(row, x, m - 1);
    } else {
        lemma_dot_one(row, x, m - 1, a);
    }
}

pub proof fn lemma_dot_two(row: Seq<bool>, x: Seq<bool>, m: int, a: int, b: int)
    requires
        0 <= a < m,
        0 <= b < m,
        a != b,
        forall|j: int| 0 <= j < m && j != a && j != b ==> !(row[j] && x[j]),
    ensures
        dot(row, x, m) == ((row[a] && x[a]) != (row[b] && x[b])),
    decreases m,
{
    if m - 1 == a {
        lemma_dot_one(row, x, m - 1, b);
    } else if m - 1 == b {
        lemma_dot_one(row, x, m - 1, a);
    } else {
        lemma_dot_two(row, x, m - 1, a, b);
    }
}

/// The dot product is linear in the row.
pub proof fn lemma_dot_xor(r1: Seq<bool>, r2: Seq<bool>, r3: Seq<bool>, x: Seq<bool>, m: int)
    requires
        forall|j: int| 0 <= j < m ==> r3[j] == (r1[j] != r2[j]),
    ensures
        dot(r3, x, m) == (dot(r1, x, m) != dot(r2, x, m)),
    decreases m,
{
    if m > 0 {
        lemma_dot_xor(r1, r2, r3, x, m - 1);
    }
}

/// Exchanging two rows keeps the null space.
pub proof fn lemma_swap_same_null(a: Seq<Seq<bool>>, b: Seq<Seq<bool>>, n: int, p: int, q: int)
    requires
        0 <= p < n,
        0 <= q < n,
        a.len() == n,
        b.len() == n,
        b[p] == a[q],
        b[q] == a[p],
        forall|i: int| 0 <= i < n && i != p && i != q ==> b[i] == a[i],
    ensures
        same_null(a, b, n),
{
    assert forall|x: Seq<bool>| x.len() == n implies (#[trigger] in_null(a, x, n) <==> in_null(b, x, n)) by {
        if in_null(a, x, n) {
            assert forall|i: int| 0 <= i < n implies !#[trigger] dot(b[i], x, n) by {
                if i == p {
                    assert(!dot(a[q], x, n));
                } else if i == q {
                    assert(!dot(a[p], x, n));
                } else {
                    assert(!dot(a[i], x, n));
                }
            }
        }
        if in_null(b, x, n) {
            assert forall|i: int| 0 <= i < n implies !#[trigger] dot(a[i], x, n) by {
                if i == p {
                    assert(!dot(b[q], x, n));
                } else if i == q {
                    assert(!dot(b[p], x, n));
                } else {
                    assert(!dot(b[i], x, n));
                }
            }
        }
    }
}

/// Adding row `p` to another row `r` keeps the null space.
pub proof fn lemma_row_add_same_null(a: Seq<Seq<bool>>, b: Seq<Seq<bool>>, n: int, r: int, p: int)
    requires
        0 <= p < n,
        0 <= r < n,
        p != r,
        a.len() == n,
        b.len() == n,
        forall|j: int| 0 <= j < n ==> b[r][j] == (a[r][j] != a[p][j]),
        forall|i: int| 0 <= i < n && i != r ==> b[i] == a[i],
    ensures
        same_null(a, b, n),
{
    assert forall|x: Seq<bool>| x.len() == n implies (#[trigger] in_null(a, x, n) <==> in_null(b, x, n)) by {
        lemma_dot_xor(a[r], a[p], b[r], x, n);
        if in_null(a, x, n) {
            assert(!dot(a[r], x, n));
            assert(!dot(a[p], x, n));
            assert forall|i: int| 0 <= i < n implies !#[trigger] dot(b[i], x, n) by {
                if i != r {
                    assert(!dot(a[i], x, n));
                }
            }
        }
        if in_null(b, x, n) {
            assert(!dot(b[r], x, n));
            assert(!dot(b[p], x, n));
            assert forall|i: int| 0 <= i < n implies !#[trigger] dot(a[i], x, n) by {
                if i != r {
                    assert(!dot(b[i], x, n));
                }
            }
        }
    }
}

pub proof fn lemma_same_null_refl(a: Seq<Seq<bool>>, n: int)
    ensures
        same_null(a, a, n),
{
}

pub proof fn lemma_same_null_trans(a: Seq<Seq<bool>>, b: Seq<Seq<bool>>, c: Seq<Seq<bool>>, n: int)
    requires
        same_null(a, b, n),
        same_null(b, c, n),
    ensures
        same_null(a, c, n),
{
    assert forall|x: Seq<bool>| x.len() == n implies (#[trigger] in_null(a, x, n) <==> in_null(c, x, n)) by {
        assert(in_null(a, x, n) <==> in_null(b, x, n));
        assert(in_null(b, x, n) <==> in_null(c, x, n));
    }
}

/// During elimination, a column with no set entry at or below the current
/// rank is the sum of the earlier pivot columns that its upper entries
/// select, so it depends on the columns before it.
pub proof fn lemma_column_dependent(
    a: Seq<Seq<bool>>,
    m: Seq<Seq<bool>>,
    n: int,
    rank: int,
    col: int,
    is_pivot: Seq<bool>,
    prow: Seq<int>,
    owner: Seq<int>,
)
    requires
        0 <= rank <= col < n,
        square(a, n),
        same_null(a, m, n),
        is_pivot.len() == col,
        prow.len() == col,
        owner.len() == rank,
        forall|j: int| 0 <= j < col && #[trigger] is_pivot[j] ==> 0 <= prow[j] < rank && owner[prow[j]] == j,
        forall|j: int, i: int|
            0 <= j < col && is_pivot[j] && 0 <= i < n ==> #[trigger] a[i][j] == (i == prow[j]),
        forall|p: int| 0 <= p < rank ==> 0 <= #[trigger] owner[p] < col && is_pivot[owner[p]] && prow[owner[p]] == p,
        forall|i: int| rank <= i < n ==> !#[trigger] a[i][col],
    ensures
        column_dependent(m, n, col),
{
    let x = Seq::new(
        n as nat,
        |k: int|
            if k == col {
                true
            } else if k < col && is_pivot[k] {
                a[prow[k]][col]
            } else {
                false
            },
    );
    assert forall|i: int| 0 <= i < n implies !#[trigger] dot(a[i], x, n) by {
        if i < rank {
            let js = owner[i];
            assert forall|k: int| 0 <= k < n && k != js && k != col implies !(a[i][k] && x[k]) by {
                if k < col && is_pivot[k] {
                    assert(a[i][k] == (i == prow[k]));
                    if i == prow[k] {
                        assert(owner[prow[k]] == k);
                    }
                }
            }
            assert(a[i][js] == (i == prow[js]));
            lemma_dot_two(a[i], x, n, js, col);
        } else {
            assert forall|k: int| 0 <= k < n implies !(a[i][k] && x[k]) by {
                if k < col && is_pivot[k] {
                    assert(a[i][k] == (i == prow[k]));
                }
            }
            lemma_dot_zero(a[i], x, n);
        }
    }
    assert(in_null(a, x, n));
    assert(in_null(m, x, n));
    assert(dependence_witness(m, n, col, x));
}

/// During elimination, a column with a set entry at or below the current
/// rank is not a sum of the columns before it.
pub proof fn lemma_column_independent(
    a: Seq<Seq<bool>>,
    m: Seq<Seq<bool>>,
    n: int,
    rank: int,
    col: int,
    is_pivot: Seq<bool>,
    prow: Seq<int>,
    i0: int,
)
    requires
        0 <= rank <= col < n,
        rank <= i0 < n,
        a[i0][col],
        square(a, n),
        same_null(a, m, n),
        is_pivot.len() == col,
        prow.len() == col,
        forall|j: int| 0 <= j < col && #[trigger] is_pivot[j] ==> 0 <= prow[j] < rank,
        forall|j: int, i: int|
            0 <= j < col && is_pivot[j] && 0 <= i < n ==> #[trigger] a[i][j] == (i == prow[j]),
        forall|j: int, i: int|
            0 <= j < col && !is_pivot[j] && rank <= i < n ==> !#[trigger] a[i][j],
    ensures
        !column_dependent(m, n, col),
{
    if column_dependent(m, n, col) {
        let x = choose|x: Seq<bool>| dependence_witness(m, n, col, x);
        assert(in_null(m, x, n));
        assert(in_null(a, x, n));
        assert forall|k: int| 0 <= k < n && k != col implies !(a[i0][k] && x[k]) by {
            if k < col {
                if is_pivot[k] {
                    assert(a[i0][k] == (i0 == prow[k]));
                } else {
                    assert(!a[i0][k]);
                }
            }
        }
        lemma_dot_one(a[i0], x, n, col);
        assert(!dot(a[i0], x, n));
    }
}

/// `a` is an `n × n` matrix.
pub open spec fn square(a: Seq<Seq<bool>>, n: int) -> bool {
    a.len() == n && forall|i: int| 0 <= i < n ==> (#[trigger] a[i]).len() == n
}

} // verus!
