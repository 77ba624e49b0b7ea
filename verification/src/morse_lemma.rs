//! Morse lemma: near a non-degenerate critical point of index λ, coordinates
//! exist in which `f = f(p) - y_1^2 - … - y_λ^2 + y_{λ+1}^2 + … + y_n^2`.
//! The local data kept here are the dimensions of the two disks.

use vstd::prelude::*;
use crate::critical_point::CriticalPoint;

verus! {

/// The Morse lemma applied at a non-degenerate critical point: in Morse
/// coordinates `y`, `f(y) = f(p) - y_1^2 - … - y_λ^2 + y_{λ+1}^2 + … + y_n^2`
/// with `λ = index` and `f(p) = critical_value`.
#[derive(Clone, Copy, Debug, PartialEq, Eq, Structural)]
pub struct MorseLemmaResult {
    /// The critical point.
    pub critical_point: CriticalPoint,
    /// The Morse index (number of negative terms).
    pub index: usize,
    /// The function value at the critical point.
    pub critical_value: i64,
}

/// The message of the refusal to apply the Morse lemma at a degenerate
/// critical point.
pub open spec fn degenerate_message() -> Seq<char> {
    "Critical point is degenerate; Morse lemma does not apply"@
}

impl MorseLemmaResult {
    /// Apply the Morse lemma: refused at a degenerate critical point (one
    /// whose Hessian has a kernel), otherwise the canonical form of index
    /// `cp.index` about the value `cp.value`.
    pub fn apply(cp: &CriticalPoint) -> (r: Result<Self, String>)
        ensures
            r is Err <==> cp.kernel_dimension > 0,
            r matches Err(e) ==> e@ == degenerate_message(),
            r matches Ok(m) ==> m == (MorseLemmaResult { critical_point: *cp, index: cp.index, critical_value: cp.value }),
    {
        if !cp.is_non_degenerate() {
            return Err(String::from_str("Critical point is degenerate; Morse lemma does not apply"));
        }
        Ok(MorseLemmaResult { critical_point: *cp, index: cp.index, critical_value: cp.value })
    }
}

/// The local Morse data at a critical point.
#[derive(Clone, Copy, Debug, PartialEq, Eq, Structural)]
pub struct LocalMorseData {
    /// The ascending disk dimension (n - index).
    pub ascending_dimension: usize,
    /// The descending disk dimension (index).
    pub descending_dimension: usize,
    /// The Morse index.
    pub index: usize,
    /// The ambient dimension.
    pub ambient_dimension: usize,
}

impl LocalMorseData {
    pub fn from_critical_point(cp: &CriticalPoint) -> (d: Self)
        requires
            cp.index <= cp.dimension,
        ensures
            d.ascending_dimension == cp.dimension - cp.index,
            d.descending_dimension == cp.index,
            d.index == cp.index,
            d.ambient_dimension == cp.dimension,
            d.ascending_dimension + d.descending_dimension == d.ambient_dimension,
    {
        let n = cp.ambient_dimension();
        LocalMorseData {
            ascending_dimension: n - cp.index,
            descending_dimension: cp.index,
            index: cp.index,
            ambient_dimension: n,
        }
    }
}

} // verus!
