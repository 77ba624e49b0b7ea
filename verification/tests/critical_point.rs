use lau_morse_theory::{CriticalPoint, LocalMorseData, MorseLemmaResult, StableManifold, UnstableManifold};

#[test]
fn test_critical_point_creation() {
    let cp = CriticalPoint::new(2, 1, 3);
    assert_eq!(cp.index, 1);
    assert_eq!(cp.value, 3);
    assert_eq!(cp.ambient_dimension(), 2);
}

#[test]
fn test_minimum_detection() {
    let cp = CriticalPoint::new(3, 0, 0);
    assert!(cp.is_minimum());
    assert!(!cp.is_maximum());
    assert!(!cp.is_saddle());
}

#[test]
fn test_maximum_detection() {
    let cp = CriticalPoint::new(3, 3, 1);
    assert!(cp.is_maximum());
    assert!(!cp.is_minimum());
}

#[test]
fn test_saddle_detection() {
    let cp = CriticalPoint::new(3, 1, 0);
    assert!(cp.is_saddle());
}

#[test]
fn degenerate_hessian_kernel_gives_nullity() {
    let cp = CriticalPoint::with_hessian(2, 0, 0, 1);
    assert!(!cp.is_non_degenerate());
    assert_eq!(cp.nullity(), 1);
    let cp = CriticalPoint::with_hessian(2, 0, 0, 0);
    assert!(cp.is_non_degenerate());
    assert_eq!(cp.nullity(), 0);
    let cp = CriticalPoint::new(2, 1, 5);
    assert!(cp.is_non_degenerate());
    assert_eq!(cp.nullity(), 0);
}

#[test]
fn each_point_of_a_surface_is_one_kind() {
    for index in 0..=2 {
        let cp = CriticalPoint::new(2, index, 0);
        let kinds = [cp.is_minimum(), cp.is_saddle(), cp.is_maximum()];
        assert_eq!(kinds.iter().filter(|&&k| k).count(), 1);
    }
}

#[test]
fn test_local_morse_data() {
    let cp = CriticalPoint::new(3, 1, 0);
    let data = LocalMorseData::from_critical_point(&cp);
    assert_eq!(data.ascending_dimension, 2);
    assert_eq!(data.descending_dimension, 1);
    assert_eq!(data.index, 1);
}

#[test]
fn test_stable_manifold() {
    let cp = CriticalPoint::new(3, 1, 0);
    let sm = StableManifold::new(&cp, 3);
    assert_eq!(sm.dimension, 2); // n - index = 3 - 1 = 2
}

#[test]
fn test_unstable_manifold() {
    let cp = CriticalPoint::new(3, 1, 0);
    let um = UnstableManifold::new(&cp);
    assert_eq!(um.dimension, 1); // index = 1
}

#[test]
fn test_stable_manifold_minimum() {
    let cp = CriticalPoint::new(2, 0, 0);
    let sm = StableManifold::new(&cp, 2);
    assert_eq!(sm.dimension, 2); // Whole manifold flows to minimum
}

#[test]
fn test_unstable_manifold_minimum() {
    let cp = CriticalPoint::new(2, 0, 0);
    let um = UnstableManifold::new(&cp);
    assert_eq!(um.dimension, 0); // Just the point itself
}

#[test]
fn stable_and_unstable_dimensions_add_up() {
    let cp = CriticalPoint::new(4, 3, 0);
    let sm = StableManifold::new(&cp, 4);
    let um = UnstableManifold::new(&cp);
    assert_eq!(sm.dimension + um.dimension, 4);
    assert!(sm.is_open());
    assert!(um.is_open());
    let top = CriticalPoint::new(4, 4, 0);
    assert!(!StableManifold::new(&top, 4).is_open());
}

#[test]
fn morse_lemma_applies_at_non_degenerate_points() {
    let cp = CriticalPoint::with_hessian(2, 1, 5, 0);
    let r = MorseLemmaResult::apply(&cp).unwrap();
    assert_eq!(r.index, 1);
    assert_eq!(r.critical_value, 5);
    assert_eq!(r.critical_point, cp);
    let max = CriticalPoint::new(2, 2, 10);
    assert_eq!(MorseLemmaResult::apply(&max).unwrap().index, 2);
}

#[test]
fn morse_lemma_refuses_degenerate_points() {
    let cp = CriticalPoint::with_hessian(2, 0, 0, 1);
    let err = MorseLemmaResult::apply(&cp).unwrap_err();
    assert_eq!(err, "Critical point is degenerate; Morse lemma does not apply");
}

// The Hessians of the following points are diagonal; the kernel dimension is
// the number of zero entries on the diagonal.

#[test]
fn test_degenerate_hessian() {
    // diag(1, 0): one zero eigenvalue -> degenerate
    let cp = CriticalPoint::with_hessian(2, 0, 0, 1);
    assert!(!cp.is_non_degenerate());
    assert_eq!(cp.nullity(), 1);
}

#[test]
fn test_morse_lemma_minimum() {
    // diag(2, 3): positive definite, index 0
    let cp = CriticalPoint::with_hessian(2, 0, 5, 0);
    let result = MorseLemmaResult::apply(&cp).unwrap();
    assert_eq!(result.index, 0);
    assert_eq!(result.critical_value, 5);
}

#[test]
fn test_morse_lemma_saddle() {
    // diag(-1, 1): index 1 in R^2
    let cp = CriticalPoint::with_hessian(2, 1, 0, 0);
    let result = MorseLemmaResult::apply(&cp).unwrap();
    assert_eq!(result.index, 1);
}

#[test]
fn test_morse_lemma_maximum() {
    // diag(-2, -3): negative definite, index 2 in R^2
    let cp = CriticalPoint::with_hessian(2, 2, 10, 0);
    let result = MorseLemmaResult::apply(&cp).unwrap();
    assert_eq!(result.index, 2);
}

#[test]
fn test_degenerate_rejected() {
    // diag(1, 0)
    let cp = CriticalPoint::with_hessian(2, 0, 0, 1);
    assert!(MorseLemmaResult::apply(&cp).is_err());
}
