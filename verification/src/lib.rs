//! Morse theory for agent state spaces: critical points and their indices,
//! handlebody decompositions, Morse-Smale complexes and their boundary
//! matrices, persistence and Reeb graphs, and the Morse inequalities.
//!
//! A critical point is known here by the dimension of its ambient space, its
//! Morse index, its critical value on an integer scale and the dimension of
//! the kernel of its Hessian; positions and Hessians themselves are not held.

pub mod manifold;
pub mod critical_point;
pub mod morse_function;
pub mod ordering;
pub mod handlebody;
pub mod morse_inequalities;
pub mod persistence;
pub mod gradient_flow;
pub mod morse_lemma;
pub mod z2;
pub mod morse_smale;
pub mod agent_state;
pub mod euler;
pub mod homology;
pub mod rank;

pub use manifold::{BettiNumbers, Manifold};
pub use critical_point::CriticalPoint;
pub use morse_function::{MorseFunction, MorseFunctionBuilder};
pub use handlebody::{Handle, HandlebodyDecomposition};
pub use morse_inequalities::{
    morse_polynomial, poincare_polynomial, strong_morse_inequality, verify_morse_inequalities,
    MorseInequalityResult,
};
pub use persistence::{PersistenceBar, PersistenceDiagram, ReebEdge, ReebGraph, ReebNode};
pub use gradient_flow::{FlowLine, StableManifold, UnstableManifold};
pub use morse_lemma::{LocalMorseData, MorseLemmaResult};
pub use morse_smale::{BoundaryMatrix, MorseSmaleCell, MorseSmaleComplex};
pub use agent_state::{count_barrier_crossings, AgentStateSpace};
