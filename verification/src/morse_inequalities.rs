//! Morse inequalities, weak and strong.
//!
//! Weak Morse inequalities: `μ_k ≥ β_k` for all k.
//! Strong Morse inequalities: `μ_k - μ_{k-1} + … ± μ_0 ≥ β_k - β_{k-1} + … ± β_0`.
//! Equality for k ≥ n: `χ(M) = Σ(-1)^k μ_k = Σ(-1)^k β_k`.

use vstd::prelude::*;
use crate::manifold::{euler_sum, euler_sum_fits, euler_term, seq_sum, BettiNumbers, Manifold};
use crate::morse_function::{index_count, index_counts, indices_countable, max_index, MorseFunction};
use crate::critical_point::CriticalPoint;

verus! {

/// `s` extended (or cut) to length `n`, with zeros past its end.
pub open spec fn padded(s: Seq<usize>, n: int) -> Seq<usize> {
    Seq::new(n as nat, |k: int| if k < s.len() { s[k] } else { 0usize })
}

/// The `j`-th term of an alternating sum ending at degree `shift`: the count
/// read as an `i64`, with the sign `(-1)^(shift - j)`.
pub open spec fn alt_term(s: Seq<usize>, shift: int, j: int) -> int {
    if (shift - j) % 2 == 0 {
        (s[j] as i64) as int
    } else {
        -((s[j] as i64) as int)
    }
}

/// `Σ_{j < m} (-1)^(shift - j) · s[j]`.
pub open spec fn alt_sum(s: Seq<usize>, shift: int, m: int) -> int
    decreases m,
{
    if m <= 0 {
        0
    } else {
        alt_sum(s, shift, m - 1) + alt_term(s, shift, m - 1)
    }
}

/// The alternating sum `alt_sum(s, shift, m)` can be computed term by term
/// in `i64` without overflow.
pub open spec fn alt_fits(s: Seq<usize>, shift: int, m: int) -> bool {
    &&& forall|p: int| 0 <= p <= m ==> i64::MIN <= #[trigger] alt_sum(s, shift, p) <= i64::MAX
    &&& forall|j: int| 0 <= j < m && (shift - j) % 2 != 0 ==> (#[trigger] s[j] as i64) != i64::MIN
}

/// Every strong Morse sum of degree `k < n` of `s` fits in an `i64`.
pub open spec fn strong_sums_fit(s: Seq<usize>, n: int) -> bool {
    forall|k: int| 0 <= k < n ==> #[trigger] alt_fits(s, k, k + 1)
}

/// The nonzero coefficients of `s`, as `(degree, coefficient)` pairs in
/// order of degree.
pub open spec fn nonzero_terms(s: Seq<usize>) -> Seq<(usize, usize)>
    decreases s.len(),
{
    if s.len() == 0 {
        Seq::empty()
    } else {
        let rest = nonzero_terms(s.drop_last());
        if s.last() > 0 {
            rest.push(((s.len() - 1) as usize, s.last()))
        } else {
            rest
        }
    }
}

/// Result of verifying Morse inequalities.
pub struct MorseInequalityResult {
    /// Whether all weak Morse inequalities are satisfied.
    pub weak_satisfied: bool,
    /// Whether all strong Morse inequalities are satisfied.
    pub strong_satisfied: bool,
    /// Individual weak inequality results: (k, μ_k, β_k, satisfied).
    pub weak_results: Vec<(usize, usize, usize, bool)>,
    /// Individual strong inequality results: (k, lhs, rhs, satisfied).
    pub strong_results: Vec<(usize, i64, i64, bool)>,
    /// Euler characteristic from critical points.
    pub euler_from_critical: i64,
    /// Euler characteristic from Betti numbers.
    pub euler_from_betti: i64,
    /// Whether the Euler characteristic equality holds.
    pub euler_equality: bool,
}

/// The number of degrees the inequalities of `f` against `betti` range over.
pub open spec fn inequality_degrees(cps: Seq<CriticalPoint>, betti: Seq<usize>) -> int {
    let mu = index_counts(cps);
    if mu.len() >= betti.len() { mu.len() as int } else { betti.len() as int }
}

/// `Σ_{k < upto} μ_k`.
pub open spec fn counts_upto(cps: Seq<CriticalPoint>, upto: int) -> nat
    decreases upto,
{
    if upto <= 0 {
        0
    } else {
        counts_upto(cps, upto - 1) + index_count(cps, upto - 1)
    }
}

proof fn lemma_counts_upto_push(cps: Seq<CriticalPoint>, x: CriticalPoint, upto: int)
    ensures
        counts_upto(cps.push(x), upto) == counts_upto(cps, upto) + if 0 <= x.index < upto { 1nat } else { 0nat },
    decreases upto,
{
    if upto > 0 {
        lemma_counts_upto_push(cps, x, upto - 1);
        assert(cps.push(x).drop_last() =~= cps);
    }
}

/// The counts by index never add up to more than the number of points.
proof fn lemma_counts_upto_bound(cps: Seq<CriticalPoint>, upto: int)
    ensures
        counts_upto(cps, upto) <= cps.len(),
    decreases cps.len(),
{
    if cps.len() == 0 {
        lemma_counts_upto_empty(cps, upto);
    } else {
        lemma_counts_upto_bound(cps.drop_last(), upto);
        lemma_counts_upto_push(cps.drop_last(), cps.last(), upto);
        assert(cps.drop_last().push(cps.last()) =~= cps);
    }
}

proof fn lemma_counts_upto_empty(cps: Seq<CriticalPoint>, upto: int)
    requires
        cps.len() == 0,
    ensures
        counts_upto(cps, upto) == 0,
    decreases upto,
{
    if upto > 0 {
        lemma_counts_upto_empty(cps, upto - 1);
    }
}

/// The alternating sums of the padded counts by index are bounded by the
/// number of critical points.
proof fn lemma_alt_sum_counts(cps: Seq<CriticalPoint>, n: int, shift: int, m: int)
    requires
        indices_countable(cps),
        cps.len() <= i64::MAX,
        0 <= m <= n,
    ensures
        -(counts_upto(cps, m) as int) <= alt_sum(padded(index_counts(cps), n), shift, m) <= counts_upto(cps, m),
        forall|j: int| 0 <= j < m ==> (#[trigger] padded(index_counts(cps), n)[j] as i64) as int == padded(index_counts(cps), n)[j],
    decreases m,
{
    let s = padded(index_counts(cps), n);
    if m > 0 {
        lemma_alt_sum_counts(cps, n, shift, m - 1);
        let j = m - 1;
        crate::morse_function::lemma_index_count_bound(cps, j);
        lemma_counts_upto_bound(cps, m);
        if cps.len() > 0 && j >= index_counts(cps).len() {
            crate::morse_function::lemma_index_count_beyond_max(cps, j);
        }
        assert(s[j] <= index_count(cps, j));
        assert forall|t: int| 0 <= t < m implies (#[trigger] s[t] as i64) as int == s[t] by {
            if t < j {
            } else {
                assert(s[t] <= cps.len());
            }
        }
    }
}

/// The alternating Euler sum of a prefix, in the form of `alt_sum`.
proof fn lemma_euler_sum_take(s: Seq<usize>, m: int)
    requires
        0 <= m <= s.len(),
    ensures
        euler_sum(s.take(m)) == alt_sum(s, 0, m),
    decreases m,
{
    if m > 0 {
        lemma_euler_sum_take(s, m - 1);
        assert(s.take(m).drop_last() =~= s.take(m - 1));
        assert(euler_term(m - 1, s[m - 1]) == alt_term(s, 0, m - 1));
    }
}

/// Given bounded counts, every alternating sum the inequalities need fits.
proof fn lemma_counts_fit(cps: Seq<CriticalPoint>, n: int)
    requires
        indices_countable(cps),
        cps.len() <= i64::MAX,
        n >= 0,
    ensures
        strong_sums_fit(padded(index_counts(cps), n), n),
        euler_sum_fits(padded(index_counts(cps), n)),
{
    let s = padded(index_counts(cps), n);
    assert forall|k: int| 0 <= k < n implies #[trigger] alt_fits(s, k, k + 1) by {
        assert forall|p: int| 0 <= p <= k + 1 implies i64::MIN <= #[trigger] alt_sum(s, k, p) <= i64::MAX by {
            lemma_alt_sum_counts(cps, n, k, p);
            lemma_counts_upto_bound(cps, p);
        }
        lemma_alt_sum_counts(cps, n, k, k + 1);
        lemma_counts_upto_bound(cps, k + 1);
    }
    assert forall|m: int| 0 <= m <= s.len() implies i64::MIN <= #[trigger] euler_sum(s.take(m)) <= i64::MAX by {
        lemma_euler_sum_take(s, m);
        lemma_alt_sum_counts(cps, n, 0, m);
        lemma_counts_upto_bound(cps, m);
    }
    assert forall|k: int| 0 <= k < s.len() && k % 2 == 1 implies (#[trigger] s[k] as i64) != i64::MIN by {
        lemma_alt_sum_counts(cps, n, 0, n);
    }
}

proof fn lemma_counts_upto_total(cps: Seq<CriticalPoint>, upto: int)
    requires
        forall|t: int| 0 <= t < cps.len() ==> (#[trigger] cps[t]).index < upto,
    ensures
        counts_upto(cps, upto) == cps.len(),
    decreases cps.len(),
{
    if cps.len() == 0 {
        lemma_counts_upto_empty(cps, upto);
    } else {
        let rest = cps.drop_last();
        assert forall|t: int| 0 <= t < rest.len() implies (#[trigger] rest[t]).index < upto by {
            assert(rest[t] == cps[t]);
        }
        lemma_counts_upto_total(rest, upto);
        lemma_counts_upto_push(rest, cps.last(), upto);
        assert(rest.push(cps.last()) =~= cps);
    }
}

proof fn lemma_seq_sum_counts(cps: Seq<CriticalPoint>, m: int)
    requires
        cps.len() > 0,
        cps.len() <= usize::MAX,
        0 <= m <= max_index(cps) + 1,
    ensures
        seq_sum(index_counts(cps).take(m)) == counts_upto(cps, m),
    decreases m,
{
    if m > 0 {
        lemma_seq_sum_counts(cps, m - 1);
        assert(index_counts(cps).take(m).drop_last() =~= index_counts(cps).take(m - 1));
        crate::morse_function::lemma_index_count_bound(cps, m - 1);
    }
}

/// The counts by index add up to the number of critical points:
/// `Σ_k μ_k = #critical points`.
pub proof fn law_counts_add_up(cps: Seq<CriticalPoint>)
    requires
        cps.len() <= usize::MAX,
    ensures
        seq_sum(index_counts(cps)) == cps.len(),
{
    if cps.len() == 0 {
        assert(index_counts(cps) =~= Seq::<usize>::empty());
    } else {
        let m = max_index(cps) + 1;
        crate::morse_function::lemma_max_index(cps);
        lemma_seq_sum_counts(cps, m);
        assert(index_counts(cps).take(m) =~= index_counts(cps));
        lemma_counts_upto_total(cps, m);
    }
}

/// The two sign conventions of the strong Morse sums differ by `(-1)^k`:
/// `Σ_j (-1)^(k-j) s_j = (-1)^k Σ_j (-1)^j s_j`.
pub proof fn law_strong_sum_sign_conventions(s: Seq<usize>, k: int, m: int)
    ensures
        alt_sum(s, k, m) == if k % 2 == 0 { alt_sum(s, 0, m) } else { -alt_sum(s, 0, m) },
    decreases m,
{
    if m > 0 {
        law_strong_sum_sign_conventions(s, k, m - 1);
    }
}

/// The strong Morse sum of the top degree is, up to the sign `(-1)^k`, the
/// Euler characteristic `Σ_k (-1)^k s_k`.
pub proof fn law_top_strong_sum_is_euler(s: Seq<usize>)
    requires
        s.len() > 0,
    ensures
        alt_sum(s, s.len() - 1, s.len() as int) == if (s.len() - 1) % 2 == 0 {
            euler_sum(s)
        } else {
            -euler_sum(s)
        },
{
    law_strong_sum_sign_conventions(s, s.len() - 1, s.len() as int);
    lemma_euler_sum_take(s, s.len() as int);
    assert(s.take(s.len() as int) =~= s);
}

/// Padding the counts with zeros does not change the Euler characteristic.
pub proof fn law_padding_keeps_euler(s: Seq<usize>, n: int)
    requires
        n >= s.len(),
    ensures
        euler_sum(padded(s, n)) == euler_sum(s),
    decreases n,
{
    if n > s.len() {
        law_padding_keeps_euler(s, n - 1);
        assert(padded(s, n).drop_last() =~= padded(s, n - 1));
    } else {
        assert(padded(s, n) =~= s);
    }
}

/// At a degree `k` that reaches past both sequences of counts, the two
/// sides of the strong Morse inequality are the Euler characteristics of the
/// critical-point counts and of the Betti numbers: `Σ_{j ≤ k} (-1)^j μ_j =
/// χ(μ)` and `Σ_{j ≤ k} (-1)^j β_j = χ(β)`.
pub proof fn law_strong_inequality_at_top_is_euler(mu: Seq<usize>, betti: Seq<usize>, k: int)
    requires
        k + 1 >= mu.len(),
        k + 1 >= betti.len(),
        k >= 0,
    ensures
        alt_sum(padded(mu, k + 1), 0, k + 1) == euler_sum(mu),
        alt_sum(padded(betti, k + 1), 0, k + 1) == euler_sum(betti),
{
    lemma_euler_sum_take(padded(mu, k + 1), k + 1);
    assert(padded(mu, k + 1).take(k + 1) =~= padded(mu, k + 1));
    law_padding_keeps_euler(mu, k + 1);
    lemma_euler_sum_take(padded(betti, k + 1), k + 1);
    assert(padded(betti, k + 1).take(k + 1) =~= padded(betti, k + 1));
    law_padding_keeps_euler(betti, k + 1);
}

/// `Σ_{j ≤ k} (-1)^(k-j) s[j]`, computed in `i64` (`k < s.len()`).
fn strong_sum(s: &Vec<usize>, k: usize) -> (r: i64)
    requires
        k < s@.len(),
        alt_fits(s@, k as int, k + 1),
    ensures
        r == alt_sum(s@, k as int, k + 1),
{
    let mut acc: i64 = 0;
    let mut j: usize = 0;
    while j <= k
        invariant
            j <= k + 1,
            k < s@.len(),
            k < s.len(),
            alt_fits(s@, k as int, k + 1),
            acc == alt_sum(s@, k as int, j as int),
        decreases k + 1 - j,
    {
        #[verifier::truncate]
        let x: i64 = s[j] as i64;
        assert(i64::MIN <= alt_sum(s@, k as int, j + 1) <= i64::MAX);
        let term: i64 = if (k - j) % 2 == 0 {
            x
        } else {
            assert((s@[j as int] as i64) != i64::MIN);
            -x
        };
        assert(term == alt_term(s@, k as int, j as int));
        acc = acc + term;
        j = j + 1;
    }
    acc
}

/// `s` extended or cut to length `n`.
fn pad(s: &Vec<usize>, n: usize) -> (r: Vec<usize>)
    ensures
        r@ == padded(s@, n as int),
{
    let mut r: Vec<usize> = Vec::new();
    let mut k: usize = 0;
    while k < n
        invariant
            k <= n,
            r@ == padded(s@, n as int).take(k as int),
        decreases n - k,
    {
        if k < s.len() {
            r.push(s[k]);
        } else {
            r.push(0);
        }
        k = k + 1;
        assert(r@ =~= padded(s@, n as int).take(k as int));
    }
    assert(r@ =~= padded(s@, n as int));
    r
}

/// Verify all Morse inequalities for a Morse function against Betti
/// numbers: counts by index and Betti numbers are both padded with zeros to
/// the longer of the two, then compared degree by degree.
pub fn verify_morse_inequalities(f: &MorseFunction, betti: &BettiNumbers) -> (r: MorseInequalityResult)
    requires
        indices_countable(f.critical_points@),
        f.critical_points@.len() <= i64::MAX,
        strong_sums_fit(
            padded(betti.numbers@, inequality_degrees(f.critical_points@, betti.numbers@)),
            inequality_degrees(f.critical_points@, betti.numbers@),
        ),
        euler_sum_fits(betti.numbers@),
    ensures
        ({
            let n = inequality_degrees(f.critical_points@, betti.numbers@);
            let me = padded(index_counts(f.critical_points@), n);
            let be = padded(betti.numbers@, n);
            &&& r.weak_results@.len() == n
            &&& forall|k: int|
                0 <= k < n ==> #[trigger] r.weak_results@[k] == (k as usize, me[k], be[k], me[k] >= be[k])
            &&& r.weak_satisfied == forall|k: int| 0 <= k < n ==> #[trigger] me[k] >= be[k]
            &&& r.strong_results@.len() == n
            &&& forall|k: int|
                0 <= k < n ==> {
                    &&& (#[trigger] r.strong_results@[k]).0 == k
                    &&& r.strong_results@[k].1 == alt_sum(me, k, k + 1)
                    &&& r.strong_results@[k].2 == alt_sum(be, k, k + 1)
                    &&& r.strong_results@[k].3 == (alt_sum(me, k, k + 1) >= alt_sum(be, k, k + 1))
                }
            &&& r.strong_satisfied == forall|k: int|
                0 <= k < n ==> #[trigger] alt_sum(me, k, k + 1) >= alt_sum(be, k, k + 1)
            &&& r.euler_from_critical == euler_sum(me)
            &&& r.euler_from_betti == euler_sum(betti.numbers@)
            &&& r.euler_equality == (euler_sum(me) == euler_sum(betti.numbers@))
        }),
{
    let mu = f.count_by_index();
    let n = if mu.len() >= betti.numbers.len() { mu.len() } else { betti.numbers.len() };
    let mu_ext = pad(&mu, n);
    let beta_ext = pad(&betti.numbers, n);
    let ghost me = mu_ext@;
    let ghost be = beta_ext@;
    proof {
        lemma_counts_fit(f.critical_points@, n as int);
    }
    // Weak Morse inequalities: μ_k ≥ β_k.
    let mut weak_results: Vec<(usize, usize, usize, bool)> = Vec::new();
    let mut weak_satisfied = true;
    let mut k: usize = 0;
    while k < n
        invariant
            k <= n,
            me == mu_ext@,
            be == beta_ext@,
            me.len() == n,
            be.len() == n,
            weak_results@.len() == k,
            forall|t: int| 0 <= t < k ==> #[trigger] weak_results@[t] == (t as usize, me[t], be[t], me[t] >= be[t]),
            weak_satisfied == forall|t: int| 0 <= t < k ==> #[trigger] me[t] >= be[t],
        decreases n - k,
    {
        let m = mu_ext[k];
        let b = beta_ext[k];
        weak_results.push((k, m, b, m >= b));
        weak_satisfied = weak_satisfied && m >= b;
        k = k + 1;
    }
    // Strong Morse inequalities.
    let mut strong_results: Vec<(usize, i64, i64, bool)> = Vec::new();
    let mut strong_satisfied = true;
    let mut k: usize = 0;
    while k < n
        invariant
            k <= n,
            me == mu_ext@,
            be == beta_ext@,
            me.len() == n,
            be.len() == n,
            strong_sums_fit(me, n as int),
            strong_sums_fit(be, n as int),
            strong_results@.len() == k,
            forall|t: int|
                0 <= t < k ==> {
                    &&& (#[trigger] strong_results@[t]).0 == t
                    &&& strong_results@[t].1 == alt_sum(me, t, t + 1)
                    &&& strong_results@[t].2 == alt_sum(be, t, t + 1)
                    &&& strong_results@[t].3 == (alt_sum(me, t, t + 1) >= alt_sum(be, t, t + 1))
                },
            strong_satisfied == forall|t: int| 0 <= t < k ==> #[trigger] alt_sum(me, t, t + 1) >= alt_sum(be, t, t + 1),
        decreases n - k,
    {
        assert(alt_fits(me, k as int, k + 1));
        assert(alt_fits(be, k as int, k + 1));
        let lhs = strong_sum(&mu_ext, k);
        let rhs = strong_sum(&beta_ext, k);
        strong_results.push((k, lhs, rhs, lhs >= rhs));
        strong_satisfied = strong_satisfied && lhs >= rhs;
        k = k + 1;
    }
    // Euler characteristic.
    let euler_from_critical = Manifold::euler_characteristic(mu_ext.as_slice());
    let euler_from_betti = betti.euler_characteristic();
    let euler_equality = euler_from_critical == euler_from_betti;
    MorseInequalityResult {
        weak_satisfied,
        strong_satisfied,
        weak_results,
        strong_results,
        euler_from_critical,
        euler_from_betti,
        euler_equality,
    }
}

/// The nonzero coefficients of `s` as `(degree, coefficient)` pairs.
fn nonzero_coefficients(s: &[usize]) -> (r: Vec<(usize, usize)>)
    ensures
        r@ == nonzero_terms(s@),
{
    let mut r: Vec<(usize, usize)> = Vec::new();
    let mut k: usize = 0;
    while k < s.len()
        invariant
            k <= s@.len(),
            r@ == nonzero_terms(s@.take(k as int)),
        decreases s@.len() - k,
    {
        assert(s@.take(k + 1).drop_last() =~= s@.take(k as int));
        if s[k] > 0 {
            r.push((k, s[k]));
        }
        k = k + 1;
    }
    assert(s@.take(s@.len() as int) =~= s@);
    r
}

/// The Morse polynomial `M(t) = Σ μ_k t^k`, as its nonzero terms
/// `(k, μ_k)` in order of degree.
pub fn morse_polynomial(mu: &[usize]) -> (p: Vec<(usize, usize)>)
    ensures
        p@ == nonzero_terms(mu@),
{
    nonzero_coefficients(mu)
}

/// The Poincaré polynomial `P(t) = Σ β_k t^k`, as its nonzero terms
/// `(k, β_k)` in order of degree.
pub fn poincare_polynomial(betti: &[usize]) -> (p: Vec<(usize, usize)>)
    ensures
        p@ == nonzero_terms(betti@),
{
    nonzero_coefficients(betti)
}

/// `Σ_{j ≤ k} (-1)^j s_j`, with `s_j = 0` past the end of `s`.
fn alternating_prefix(s: &[usize], k: usize) -> (r: i64)
    requires
        alt_fits(padded(s@, k + 1), 0, k + 1),
    ensures
        r == alt_sum(padded(s@, k + 1), 0, k + 1),
{
    let ghost t = padded(s@, k + 1);
    let upto: usize = if k < s.len() { k + 1 } else { s.len() };
    let mut acc: i64 = 0;
    let mut j: usize = 0;
    while j < upto
        invariant
            j <= upto,
            upto <= k + 1,
            upto <= s@.len(),
            t == padded(s@, k + 1),
            alt_fits(t, 0, k + 1),
            acc == alt_sum(t, 0, j as int),
        decreases upto - j,
    {
        #[verifier::truncate]
        let x: i64 = s[j] as i64;
        assert(t[j as int] == s@[j as int]);
        assert(i64::MIN <= alt_sum(t, 0, j + 1) <= i64::MAX);
        let term: i64 = if j % 2 == 0 {
            x
        } else {
            assert((t[j as int] as i64) != i64::MIN);
            -x
        };
        assert(term == alt_term(t, 0, j as int));
        acc = acc + term;
        j = j + 1;
    }
    proof {
        lemma_alt_sum_zero_tail(t, upto as int, k + 1);
    }
    acc
}

/// Terms past the end of the counts add nothing.
proof fn lemma_alt_sum_zero_tail(t: Seq<usize>, from: int, to: int)
    requires
        0 <= from <= to <= t.len(),
        forall|j: int| from <= j < to ==> t[j] == 0,
    ensures
        alt_sum(t, 0, to) == alt_sum(t, 0, from),
    decreases to - from,
{
    if to > from {
        lemma_alt_sum_zero_tail(t, from, to - 1);
        assert((t[to - 1] as i64) as int == 0);
    }
}

/// Strong Morse inequality of degree `k`:
/// `μ_0 - μ_1 + … ± μ_k ≥ β_0 - β_1 + … ± β_k`, the sign of each term
/// being `(-1)^j`; counts past the end of a slice are 0. Returns both sides
/// and whether the inequality holds.
pub fn strong_morse_inequality(mu: &[usize], betti: &[usize], k: usize) -> (r: (i64, i64, bool))
    requires
        alt_fits(padded(mu@, k + 1), 0, k + 1),
        alt_fits(padded(betti@, k + 1), 0, k + 1),
    ensures
        r.0 == alt_sum(padded(mu@, k + 1), 0, k + 1),
        r.1 == alt_sum(padded(betti@, k + 1), 0, k + 1),
        r.2 == (r.0 >= r.1),
{
    let lhs = alternating_prefix(mu, k);
    let rhs = alternating_prefix(betti, k);
    (lhs, rhs, lhs >= rhs)
}

} // verus!
