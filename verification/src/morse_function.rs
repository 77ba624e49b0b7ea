//! Morse functions, known by their critical points.
//!
//! Critical values are integers on whatever scale the caller picks; the
//! built-in examples below give them in whole units.

use vstd::prelude::*;
use crate::critical_point::CriticalPoint;

verus! {

/// The number of critical points of index `k` in `cps`.
pub open spec fn index_count(cps: Seq<CriticalPoint>, k: int) -> nat
    decreases cps.len(),
{
    if cps.len() == 0 {
        0
    } else {
        index_count(cps.drop_last(), k) + if cps.last().index == k { 1nat } else { 0nat }
    }
}

/// The largest index among `cps` (0 when there is none).
pub open spec fn max_index(cps: Seq<CriticalPoint>) -> usize
    decreases cps.len(),
{
    if cps.len() == 0 {
        0
    } else {
        let m = max_index(cps.drop_last());
        if cps.last().index > m { cps.last().index } else { m }
    }
}

/// The critical points counted by index: `μ_0, μ_1, …, μ_max` (empty when
/// there are no critical points).
pub open spec fn index_counts(cps: Seq<CriticalPoint>) -> Seq<usize> {
    if cps.len() == 0 {
        Seq::empty()
    } else {
        Seq::new((max_index(cps) + 1) as nat, |k: int| index_count(cps, k) as usize)
    }
}

/// No index is so large that the table of counts by index cannot be sized.
pub open spec fn indices_countable(cps: Seq<CriticalPoint>) -> bool {
    forall|i: int| 0 <= i < cps.len() ==> (#[trigger] cps[i]).index < usize::MAX
}

pub proof fn lemma_max_index(cps: Seq<CriticalPoint>)
    ensures
        forall|i: int| 0 <= i < cps.len() ==> #[trigger] cps[i].index <= max_index(cps),
        cps.len() > 0 ==> exists|i: int| 0 <= i < cps.len() && cps[i].index == max_index(cps),
    decreases cps.len(),
{
    if cps.len() > 0 {
        lemma_max_index(cps.drop_last());
        assert forall|i: int| 0 <= i < cps.len() implies #[trigger] cps[i].index <= max_index(cps) by {
            if i < cps.len() - 1 {
                assert(cps[i] == cps.drop_last()[i]);
            }
        }
        if cps.len() > 1 && cps.last().index <= max_index(cps.drop_last()) {
            let i = choose|i: int|
                0 <= i < cps.drop_last().len() && cps.drop_last()[i].index == max_index(cps.drop_last());
            assert(cps[i].index == max_index(cps));
        } else {
            assert(cps[cps.len() - 1].index == max_index(cps));
        }
    }
}

pub proof fn lemma_index_count_bound(cps: Seq<CriticalPoint>, k: int)
    ensures
        index_count(cps, k) <= cps.len(),
    decreases cps.len(),
{
    if cps.len() > 0 {
        lemma_index_count_bound(cps.drop_last(), k);
    }
}

/// No critical point has an index above the largest one.
pub proof fn lemma_index_count_beyond_max(cps: Seq<CriticalPoint>, k: int)
    requires
        k > max_index(cps),
    ensures
        index_count(cps, k) == 0,
    decreases cps.len(),
{
    if cps.len() > 0 {
        lemma_index_count_beyond_max(cps.drop_last(), k);
    }
}

/// The counts by index of a prefix grow by one point at a time.
pub proof fn lemma_index_count_take(cps: Seq<CriticalPoint>, i: int, k: int)
    requires
        0 <= i < cps.len(),
    ensures
        index_count(cps.take(i + 1), k) == index_count(cps.take(i), k) + if cps[i].index == k {
            1nat
        } else {
            0nat
        },
{
    assert(cps.take(i + 1).drop_last() =~= cps.take(i));
}

/// A smooth function on a manifold, known by its critical points.
pub struct MorseFunction {
    /// Name of the function.
    pub name: String,
    /// Dimension of the domain manifold.
    pub dimension: usize,
    /// Known critical points (precomputed).
    pub critical_points: Vec<CriticalPoint>,
}

impl MorseFunction {
    /// Create from known critical points.
    pub fn from_critical_points(name: &str, dimension: usize, cps: Vec<CriticalPoint>) -> (f: Self)
        ensures
            f.name@ == name@,
            f.dimension == dimension,
            f.critical_points@ == cps@,
    {
        MorseFunction { name: String::from_str(name), dimension, critical_points: cps }
    }

    /// Count critical points by index: entry `k` is the number of critical
    /// points of index `k`, up to the largest index.
    pub fn count_by_index(&self) -> (counts: Vec<usize>)
        requires
            indices_countable(self.critical_points@),
        ensures
            counts@ == index_counts(self.critical_points@),
    {
        let cps = &self.critical_points;
        if cps.len() == 0 {
            let v: Vec<usize> = Vec::new();
            assert(v@ =~= index_counts(cps@));
            return v;
        }
        let ghost s = cps@;
        let mut max_idx: usize = 0;
        let mut i: usize = 0;
        while i < cps.len()
            invariant
                i <= cps.len(),
                s == cps@,
                max_idx == max_index(s.take(i as int)),
            decreases cps.len() - i,
        {
            assert(s.take(i + 1).drop_last() =~= s.take(i as int));
            if cps[i].index > max_idx {
                max_idx = cps[i].index;
            }
            i = i + 1;
        }
        assert(s.take(cps.len() as int) =~= s);
        proof {
            lemma_max_index(s);
        }
        let mut counts: Vec<usize> = Vec::new();
        let mut z: usize = 0;
        while z <= max_idx
            invariant
                z <= max_idx + 1,
                max_idx < usize::MAX,
                counts@.len() == z,
                forall|k: int| 0 <= k < z ==> #[trigger] counts@[k] == 0,
            decreases max_idx + 1 - z,
        {
            counts.push(0);
            z = z + 1;
        }
        let mut j: usize = 0;
        while j < cps.len()
            invariant
                j <= cps.len(),
                s == cps@,
                max_idx == max_index(s),
                max_idx < usize::MAX,
                forall|t: int| 0 <= t < s.len() ==> #[trigger] s[t].index <= max_idx,
                counts@.len() == max_idx + 1,
                forall|k: int| 0 <= k <= max_idx ==> #[trigger] counts@[k] == index_count(s.take(j as int), k),
            decreases cps.len() - j,
        {
            let k = cps[j].index;
            proof {
                lemma_index_count_bound(s.take(j as int), k as int);
            }
            let v = counts[k] + 1;
            counts.set(k, v);
            proof {
                assert forall|q: int| 0 <= q <= max_idx implies #[trigger] counts@[q] == index_count(s.take(j + 1), q) by {
                    lemma_index_count_take(s, j as int, q);
                }
            }
            j = j + 1;
        }
        assert(s.take(cps.len() as int) =~= s);
        assert(counts@ =~= index_counts(s));
        counts
    }

    /// Number of critical points of index `k`.
    pub fn mu_k(&self, k: usize) -> (m: usize)
        requires
            indices_countable(self.critical_points@),
        ensures
            m == index_count(self.critical_points@, k as int),
    {
        let counts = self.count_by_index();
        proof {
            lemma_index_count_bound(self.critical_points@, k as int);
            assert(self.critical_points@.len() == self.critical_points.len());
        }
        if k < counts.len() {
            counts[k]
        } else {
            proof {
                if self.critical_points@.len() > 0 {
                    lemma_index_count_beyond_max(self.critical_points@, k as int);
                }
            }
            0
        }
    }

    /// Total number of critical points.
    pub fn total_critical_points(&self) -> (n: usize)
        ensures
            n == self.critical_points@.len(),
    {
        self.critical_points.len()
    }

    /// All critical points are non-degenerate.
    pub open spec fn spec_is_morse(&self) -> bool {
        forall|i: int|
            0 <= i < self.critical_points@.len() ==> (#[trigger] self.critical_points@[i]).spec_is_non_degenerate()
    }

    /// Check if this is a valid Morse function (all critical points
    /// non-degenerate).
    pub fn is_morse(&self) -> (b: bool)
        ensures
            b == self.spec_is_morse(),
    {
        let mut i: usize = 0;
        while i < self.critical_points.len()
            invariant
                i <= self.critical_points@.len(),
                forall|t: int| 0 <= t < i ==> (#[trigger] self.critical_points@[t]).spec_is_non_degenerate(),
            decreases self.critical_points@.len() - i,
        {
            if !self.critical_points[i].is_non_degenerate() {
                return false;
            }
            i = i + 1;
        }
        true
    }

    /// The standard Morse function on R^n, `f(x) = Σ x_i^2`, with its one
    /// critical point (a minimum of value 0) at the origin. Its critical
    /// value is given in whole units.
    pub fn standard(dim: usize) -> (f: Self)
        ensures
            f.name@ == "standard_quadratic"@,
            f.dimension == dim,
            f.critical_points@ == seq![CriticalPoint::new_spec(dim, 0, 0)],
    {
        let mut cps: Vec<CriticalPoint> = Vec::new();
        cps.push(CriticalPoint::new(dim, 0, 0));
        proof {
            reveal_strlit("standard_quadratic");
        }
        assert(cps@ =~= seq![CriticalPoint::new_spec(dim, 0, 0)]);
        Self::from_critical_points("standard_quadratic", dim, cps)
    }

    /// Height function on S^1, `f(θ) = sin(θ)`: a minimum of value 1 and a
    /// point of index 1 of value -1, in whole units.
    pub fn height_s1() -> (f: Self)
        ensures
            f.name@ == "height_S1"@,
            f.dimension == 1,
            f.critical_points@ == seq![CriticalPoint::new_spec(1, 0, 1), CriticalPoint::new_spec(1, 1, -1i64)],
    {
        let mut cps: Vec<CriticalPoint> = Vec::new();
        cps.push(CriticalPoint::new(1, 0, 1));
        cps.push(CriticalPoint::new(1, 1, -1));
        assert(cps@ =~= seq![CriticalPoint::new_spec(1, 0, 1), CriticalPoint::new_spec(1, 1, -1i64)]);
        Self::from_critical_points("height_S1", 1, cps)
    }

    /// Height function on S^2, `f(φ,θ) = cos(φ)`: a minimum of value -1 at
    /// the south pole and a maximum (index 2) of value 1 at the north pole,
    /// in whole units.
    pub fn height_s2() -> (f: Self)
        ensures
            f.name@ == "height_S2"@,
            f.dimension == 2,
            f.critical_points@ == seq![CriticalPoint::new_spec(2, 0, -1i64), CriticalPoint::new_spec(2, 2, 1)],
    {
        let mut cps: Vec<CriticalPoint> = Vec::new();
        cps.push(CriticalPoint::new(2, 0, -1));
        cps.push(CriticalPoint::new(2, 2, 1));
        assert(cps@ =~= seq![CriticalPoint::new_spec(2, 0, -1i64), CriticalPoint::new_spec(2, 2, 1)]);
        Self::from_critical_points("height_S2", 2, cps)
    }

    /// Morse function on the torus T^2 with four critical points: a minimum
    /// of value 0, saddles of values 2 and 1, a maximum of value 3, in whole
    /// units.
    pub fn height_torus() -> (f: Self)
        ensures
            f.name@ == "height_T2"@,
            f.dimension == 2,
            f.critical_points@ == seq![
                CriticalPoint::new_spec(2, 0, 0),
                CriticalPoint::new_spec(2, 1, 2),
                CriticalPoint::new_spec(2, 1, 1),
                CriticalPoint::new_spec(2, 2, 3),
            ],
    {
        let mut cps: Vec<CriticalPoint> = Vec::new();
        cps.push(CriticalPoint::new(2, 0, 0));
        cps.push(CriticalPoint::new(2, 1, 2));
        cps.push(CriticalPoint::new(2, 1, 1));
        cps.push(CriticalPoint::new(2, 2, 3));
        assert(cps@ =~= seq![
            CriticalPoint::new_spec(2, 0, 0),
            CriticalPoint::new_spec(2, 1, 2),
            CriticalPoint::new_spec(2, 1, 1),
            CriticalPoint::new_spec(2, 2, 3),
        ]);
        Self::from_critical_points("height_T2", 2, cps)
    }
}

/// A builder for Morse functions on R^n, one critical point at a time.
pub struct MorseFunctionBuilder {
    name: String,
    dimension: usize,
    critical_points: Vec<CriticalPoint>,
}

impl MorseFunctionBuilder {
    /// The name the built function will carry.
    pub closed spec fn spec_name(&self) -> Seq<char> {
        self.name@
    }

    /// The dimension the built function will have.
    pub closed spec fn spec_dimension(&self) -> usize {
        self.dimension
    }

    /// The critical points added so far, in order.
    pub closed spec fn spec_critical_points(&self) -> Seq<CriticalPoint> {
        self.critical_points@
    }

    pub fn new(name: &str, dimension: usize) -> (b: Self)
        ensures
            b.spec_name() == name@,
            b.spec_dimension() == dimension,
            b.spec_critical_points() == Seq::<CriticalPoint>::empty(),
    {
        MorseFunctionBuilder { name: String::from_str(name), dimension, critical_points: Vec::new() }
    }

    /// Adds a critical point with the given ambient dimension, index and value.
    pub fn critical_point(self, dimension: usize, index: usize, value: i64) -> (b: Self)
        ensures
            b.spec_name() == self.spec_name(),
            b.spec_dimension() == self.spec_dimension(),
            b.spec_critical_points() == self.spec_critical_points().push(
                CriticalPoint::new_spec(dimension, index, value),
            ),
    {
        let mut s = self;
        s.critical_points.push(CriticalPoint::new(dimension, index, value));
        s
    }

    pub fn build(self) -> (f: MorseFunction)
        ensures
            f.name@ == self.spec_name(),
            f.dimension == self.spec_dimension(),
            f.critical_points@ == self.spec_critical_points(),
    {
        MorseFunction { name: self.name, dimension: self.dimension, critical_points: self.critical_points }
    }
}

} // verus!
