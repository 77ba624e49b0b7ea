//! Gradient flow lines and stable/unstable manifolds.

use vstd::prelude::*;
use crate::critical_point::CriticalPoint;

verus! {

/// A gradient flow line from one critical point down to another.
#[derive(Clone, Copy, Debug, PartialEq, Eq, Structural)]
pub struct FlowLine {
    /// Starting critical point (higher value).
    pub source: CriticalPoint,
    /// Ending critical point (lower value).
    pub target: CriticalPoint,
}

impl FlowLine {
    /// Create a flow line between two critical points.
    pub fn new(source: CriticalPoint, target: CriticalPoint) -> (fl: Self)
        ensures
            fl.source == source,
            fl.target == target,
    {
        FlowLine { source, target }
    }
}

/// Stable (ascending) manifold of a critical point: the points that flow to
/// it under the negative gradient flow.
#[derive(Clone, Copy, Debug, PartialEq, Eq, Structural)]
pub struct StableManifold {
    /// The critical point.
    pub critical_point: CriticalPoint,
    /// Dimension of the stable manifold: n - index.
    pub dimension: usize,
}

impl StableManifold {
    pub fn new(cp: &CriticalPoint, n: usize) -> (sm: Self)
        requires
            cp.index <= n,
        ensures
            sm.critical_point == *cp,
            sm.dimension == n - cp.index,
    {
        StableManifold { dimension: n - cp.index, critical_point: *cp }
    }

    /// Is the stable manifold open (dimension > 0)?
    pub fn is_open(&self) -> (b: bool)
        ensures
            b == (self.dimension > 0),
    {
        self.dimension > 0
    }
}

/// Unstable (descending) manifold of a critical point: the points that flow
/// from it under the negative gradient flow.
#[derive(Clone, Copy, Debug, PartialEq, Eq, Structural)]
pub struct UnstableManifold {
    /// The critical point.
    pub critical_point: CriticalPoint,
    /// Dimension of the unstable manifold: the index.
    pub dimension: usize,
}

impl UnstableManifold {
    pub fn new(cp: &CriticalPoint) -> (um: Self)
        ensures
            um.critical_point == *cp,
            um.dimension == cp.index,
    {
        UnstableManifold { dimension: cp.index, critical_point: *cp }
    }

    /// Is the unstable manifold open (dimension > 0)?
    pub fn is_open(&self) -> (b: bool)
        ensures
            b == (self.dimension > 0),
    {
        self.dimension > 0
    }
}

/// The stable and unstable manifolds of a critical point of an
/// n-dimensional manifold have complementary dimensions.
pub proof fn law_stable_unstable_complementary(sm: StableManifold, um: UnstableManifold, cp: CriticalPoint, n: usize)
    requires
        cp.index <= n,
        sm == (StableManifold { critical_point: cp, dimension: (n - cp.index) as usize }),
        um == (UnstableManifold { critical_point: cp, dimension: cp.index }),
    ensures
        sm.dimension + um.dimension == n,
{
}

} // verus!
