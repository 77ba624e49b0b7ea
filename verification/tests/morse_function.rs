use lau_morse_theory::{CriticalPoint, MorseFunction, MorseFunctionBuilder};

#[test]
fn test_standard_morse_function() {
    let f = MorseFunction::standard(3);
    assert_eq!(f.total_critical_points(), 1);
    assert_eq!(f.mu_k(0), 1);
    assert!(f.is_morse());
}

#[test]
fn test_height_s1() {
    let f = MorseFunction::height_s1();
    assert_eq!(f.total_critical_points(), 2);
    assert_eq!(f.mu_k(0), 1);
    assert_eq!(f.mu_k(1), 1);
    assert!(f.is_morse());
}

#[test]
fn test_height_s2() {
    let f = MorseFunction::height_s2();
    assert_eq!(f.total_critical_points(), 2);
    assert_eq!(f.mu_k(0), 1);
    assert_eq!(f.mu_k(2), 1);
}

#[test]
fn test_height_torus() {
    let f = MorseFunction::height_torus();
    assert_eq!(f.total_critical_points(), 4);
    assert_eq!(f.mu_k(0), 1);
    assert_eq!(f.mu_k(1), 2);
    assert_eq!(f.mu_k(2), 1);
}

#[test]
fn test_count_by_index() {
    let f = MorseFunction::height_torus();
    let counts = f.count_by_index();
    assert_eq!(counts, vec![1, 2, 1]);
}

#[test]
fn test_builder() {
    let f = MorseFunctionBuilder::new("custom", 2)
        .critical_point(2, 0, 0)
        .critical_point(2, 1, 1)
        .critical_point(2, 1, 2)
        .critical_point(2, 2, 3)
        .build();
    assert_eq!(f.total_critical_points(), 4);
    assert_eq!(f.mu_k(0), 1);
    assert_eq!(f.mu_k(1), 2);
    assert_eq!(f.mu_k(2), 1);
}

#[test]
fn counts_by_index_of_empty_and_sparse_functions() {
    let f = MorseFunction::from_critical_points("empty", 2, vec![]);
    assert_eq!(f.count_by_index(), Vec::<usize>::new());
    assert_eq!(f.mu_k(0), 0);
    let f = MorseFunction::from_critical_points(
        "sparse",
        4,
        vec![CriticalPoint::new(4, 3, 0), CriticalPoint::new(4, 0, 1), CriticalPoint::new(4, 3, 2)],
    );
    assert_eq!(f.count_by_index(), vec![1, 0, 0, 2]);
    assert_eq!(f.mu_k(3), 2);
    assert_eq!(f.mu_k(7), 0);
    let total: usize = f.count_by_index().iter().sum();
    assert_eq!(total, f.total_critical_points());
}

#[test]
fn degenerate_point_spoils_morse_property() {
    let f = MorseFunction::from_critical_points(
        "degenerate",
        2,
        vec![CriticalPoint::new(2, 0, 0), CriticalPoint::with_hessian(2, 1, 1, 1)],
    );
    assert!(!f.is_morse());
    assert_eq!(f.name, "degenerate");
}

#[test]
fn built_in_functions_carry_their_names() {
    assert_eq!(MorseFunction::standard(2).name, "standard_quadratic");
    assert_eq!(MorseFunction::height_s1().name, "height_S1");
    assert_eq!(MorseFunction::height_s2().name, "height_S2");
    assert_eq!(MorseFunction::height_torus().name, "height_T2");
    assert_eq!(MorseFunction::height_torus().dimension, 2);
}
