//! Critical points of Morse functions.

use vstd::prelude::*;

verus! {

/// A critical point of a Morse function.
///
/// At a critical point the gradient vanishes; its Morse index is the number
/// of negative eigenvalues of the Hessian there. The point is known here by
/// the dimension of its ambient space, its index, its critical value on an
/// integer scale (values are compared, and differences of values taken, on
/// that scale), and the dimension
/// of the kernel of its Hessian (the eigenvalues within `1e-10` of zero;
/// 0 when no Hessian is known).
#[derive(Clone, Copy, Debug, PartialEq, Eq, Structural)]
pub struct CriticalPoint {
    /// Dimension of the ambient space (the length of the position vector).
    pub dimension: usize,
    /// Morse index (number of negative eigenvalues of the Hessian).
    pub index: usize,
    /// Function value at the critical point, on an integer scale.
    pub value: i64,
    /// Dimension of the kernel of the Hessian (0 when no Hessian is given).
    pub kernel_dimension: usize,
}

impl CriticalPoint {
    /// The critical point that `new` makes.
    pub open spec fn new_spec(dimension: usize, index: usize, value: i64) -> Self {
        CriticalPoint { dimension, index, value, kernel_dimension: 0 }
    }

    /// Create a new critical point, with no Hessian known.
    pub fn new(dimension: usize, index: usize, value: i64) -> (cp: Self)
        ensures
            cp == (CriticalPoint { dimension, index, value, kernel_dimension: 0 }),
    {
        CriticalPoint { dimension, index, value, kernel_dimension: 0 }
    }

    /// Create a critical point whose Hessian has a kernel of the given
    /// dimension.
    pub fn with_hessian(dimension: usize, index: usize, value: i64, kernel_dimension: usize) -> (cp: Self)
        ensures
            cp == (CriticalPoint { dimension, index, value, kernel_dimension }),
    {
        CriticalPoint { dimension, index, value, kernel_dimension }
    }

    /// Dimension of the ambient space.
    pub fn ambient_dimension(&self) -> (n: usize)
        ensures
            n == self.dimension,
    {
        self.dimension
    }

    /// The critical point is non-degenerate: its Hessian has no zero
    /// eigenvalue (a point with no known Hessian counts as non-degenerate).
    pub open spec fn spec_is_non_degenerate(&self) -> bool {
        self.kernel_dimension == 0
    }

    /// Check if the critical point is non-degenerate.
    pub fn is_non_degenerate(&self) -> (b: bool)
        ensures
            b == self.spec_is_non_degenerate(),
    {
        self.kernel_dimension == 0
    }

    /// Nullity of the critical point (dimension of the kernel of the Hessian).
    pub fn nullity(&self) -> (k: usize)
        ensures
            k == self.kernel_dimension,
    {
        self.kernel_dimension
    }

    pub open spec fn spec_is_minimum(&self) -> bool {
        self.index == 0
    }

    pub open spec fn spec_is_maximum(&self) -> bool {
        self.index == self.dimension
    }

    pub open spec fn spec_is_saddle(&self) -> bool {
        0 < self.index < self.dimension
    }

    /// A local minimum: index 0.
    pub fn is_minimum(&self) -> (b: bool)
        ensures
            b == self.spec_is_minimum(),
    {
        self.index == 0
    }

    /// A local maximum: index equal to the ambient dimension.
    pub fn is_maximum(&self) -> (b: bool)
        ensures
            b == self.spec_is_maximum(),
    {
        self.index == self.ambient_dimension()
    }

    /// A saddle point: index strictly between 0 and the ambient dimension.
    pub fn is_saddle(&self) -> (b: bool)
        ensures
            b == self.spec_is_saddle(),
    {
        self.index > 0 && self.index < self.ambient_dimension()
    }
}

/// On a space of positive dimension, a critical point whose index does not
/// exceed the dimension is exactly one of a minimum, a saddle and a maximum.
pub proof fn law_critical_point_kinds(cp: CriticalPoint)
    requires
        cp.dimension > 0,
        cp.index <= cp.dimension,
    ensures
        cp.spec_is_minimum() || cp.spec_is_saddle() || cp.spec_is_maximum(),
        !(cp.spec_is_minimum() && cp.spec_is_saddle()),
        !(cp.spec_is_minimum() && cp.spec_is_maximum()),
        !(cp.spec_is_saddle() && cp.spec_is_maximum()),
{
}

} // verus!
