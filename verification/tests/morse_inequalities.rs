use lau_morse_theory::{
    morse_polynomial, poincare_polynomial, strong_morse_inequality, verify_morse_inequalities, BettiNumbers,
    CriticalPoint, Manifold, MorseFunction,
};

#[test]
fn test_weak_inequalities_s2() {
    // S^2: μ = [1, 0, 1], β = [1, 0, 1]
    let f = MorseFunction::height_s2();
    let betti = BettiNumbers::new(vec![1, 0, 1]);
    let result = verify_morse_inequalities(&f, &betti);
    assert!(result.weak_satisfied);
    assert!(result.strong_satisfied);
    assert!(result.euler_equality);
}

#[test]
fn test_weak_inequalities_torus() {
    // T^2: μ = [1, 2, 1], β = [1, 2, 1]
    let f = MorseFunction::height_torus();
    let betti = BettiNumbers::new(vec![1, 2, 1]);
    let result = verify_morse_inequalities(&f, &betti);
    assert!(result.weak_satisfied);
    assert!(result.strong_satisfied);
    assert!(result.euler_equality);
}

#[test]
fn test_weak_inequalities_s1() {
    // S^1: μ = [1, 1], β = [1, 1]
    let f = MorseFunction::height_s1();
    let betti = BettiNumbers::new(vec![1, 1]);
    let result = verify_morse_inequalities(&f, &betti);
    assert!(result.weak_satisfied);
    assert!(result.euler_equality);
}

#[test]
fn test_euler_characteristic_s2() {
    let f = MorseFunction::height_s2();
    let mu = f.count_by_index();
    let euler: i64 = mu.iter().enumerate().map(|(k, &m)| if k % 2 == 0 { m as i64 } else { -(m as i64) }).sum();
    assert_eq!(euler, 2); // χ(S^2) = 2
}

#[test]
fn test_euler_characteristic_torus() {
    let f = MorseFunction::height_torus();
    let mu = f.count_by_index();
    let euler: i64 = mu.iter().enumerate().map(|(k, &m)| if k % 2 == 0 { m as i64 } else { -(m as i64) }).sum();
    assert_eq!(euler, 0); // χ(T^2) = 0
}

#[test]
fn test_strong_inequality_torus() {
    // T^2: μ = [1, 2, 1], β = [1, 2, 1]
    let mu = vec![1, 2, 1];
    let betti = vec![1, 2, 1];
    // k=0: 1 ≥ 1
    let (lhs, rhs, sat) = strong_morse_inequality(&mu, &betti, 0);
    assert!(sat);
    assert_eq!(lhs, 1);
    assert_eq!(rhs, 1);
    // k=1: 1 - 2 = -1 ≥ 1 - 2 = -1
    let (_lhs, _rhs, sat) = strong_morse_inequality(&mu, &betti, 1);
    assert!(sat);
    // k=2: 1 - 2 + 1 = 0 ≥ 1 - 2 + 1 = 0
    let (lhs, _rhs, sat) = strong_morse_inequality(&mu, &betti, 2);
    assert!(sat);
    assert_eq!(lhs, 0);
}

#[test]
fn test_morse_polynomial() {
    let mp = morse_polynomial(&[1, 2, 1]);
    assert_eq!(mp, vec![(0, 1), (1, 2), (2, 1)]);
}

#[test]
fn test_poincare_polynomial() {
    let pp = poincare_polynomial(&[1, 2, 1]);
    assert_eq!(pp, vec![(0, 1), (1, 2), (2, 1)]);
}

#[test]
fn test_complex_projective_plane() {
    // CP^2: betti = [1, 0, 1, 0, 1]
    // Morse function with μ = [1, 0, 2, 0, 1]
    let f = MorseFunction::from_critical_points(
        "CP2",
        4,
        vec![
            CriticalPoint::new(4, 0, 0),
            CriticalPoint::new(4, 2, 1),
            CriticalPoint::new(4, 2, 2),
            CriticalPoint::new(4, 4, 3),
        ],
    );
    let betti = BettiNumbers::new(vec![1, 0, 1, 0, 1]);
    let result = verify_morse_inequalities(&f, &betti);
    assert!(result.weak_satisfied);
    // μ_2 = 2 ≥ β_2 = 1 (strict inequality)
    assert!(result.weak_results[2].1 > result.weak_results[2].2);
    assert_eq!(result.euler_from_critical, 1 - 0 + 2 - 0 + 1);
}

#[test]
fn test_weak_with_extra_critical_points() {
    // More critical points than the minimum still satisfy the weak inequalities.
    let f = MorseFunction::from_critical_points(
        "extra",
        2,
        vec![
            CriticalPoint::new(2, 0, 0),
            CriticalPoint::new(2, 0, 1),
            CriticalPoint::new(2, 1, 2),
            CriticalPoint::new(2, 1, 3),
            CriticalPoint::new(2, 2, 4),
        ],
    );
    let betti = BettiNumbers::new(vec![1, 0, 1]); // S^2 betti
    let result = verify_morse_inequalities(&f, &betti);
    assert!(result.weak_satisfied); // 2 ≥ 1, 2 ≥ 0, 1 ≥ 1
}

#[test]
fn readme_sphere_example_satisfies_all_inequalities() {
    let sphere = Manifold::sphere(2);
    let morse = MorseFunction::height_s2();
    let betti = BettiNumbers::new(vec![1, 0, 1]);
    let verified = verify_morse_inequalities(&morse, &betti);
    assert_eq!(sphere.dimension, morse.dimension);
    assert!(verified.weak_satisfied);
    assert!(verified.strong_satisfied);
}

#[test]
fn verify_reports_each_degree_exactly() {
    // μ = [1, 2, 1] against β = [1, 0, 0, 1]: padded to four degrees.
    let f = MorseFunction::height_torus();
    let betti = BettiNumbers::new(vec![1, 0, 0, 1]);
    let r = verify_morse_inequalities(&f, &betti);
    assert_eq!(r.weak_results, vec![(0, 1, 1, true), (1, 2, 0, true), (2, 1, 0, true), (3, 0, 1, false)]);
    assert!(!r.weak_satisfied);
    // Strong sums, sign (-1)^(k-j): μ: 1, 1, 0, 0 ; β: 1, -1, 1, 0
    assert_eq!(r.strong_results, vec![(0, 1, 1, true), (1, 1, -1, true), (2, 0, 1, false), (3, 0, 0, true)]);
    assert!(!r.strong_satisfied);
    assert_eq!(r.euler_from_critical, 0);
    assert_eq!(r.euler_from_betti, 0);
    assert!(r.euler_equality);
}

#[test]
fn euler_mismatch_is_reported() {
    let f = MorseFunction::height_s1();
    let betti = BettiNumbers::new(vec![1, 0, 1]);
    let r = verify_morse_inequalities(&f, &betti);
    assert_eq!(r.euler_from_critical, 0);
    assert_eq!(r.euler_from_betti, 2);
    assert!(!r.euler_equality);
}

#[test]
fn polynomials_skip_zero_coefficients() {
    assert_eq!(morse_polynomial(&[1, 0, 2, 0, 1]), vec![(0, 1), (2, 2), (4, 1)]);
    assert_eq!(poincare_polynomial(&[0, 0]), vec![]);
    assert_eq!(morse_polynomial(&[]), vec![]);
}

#[test]
fn strong_inequality_pads_with_zeros_and_flips_sign_by_degree() {
    // Beyond the end of a slice the counts are 0.
    let (lhs, rhs, sat) = strong_morse_inequality(&[1, 1], &[1], 5);
    assert_eq!(lhs, 0);
    assert_eq!(rhs, 1);
    assert!(!sat);
    // The two sign conventions differ by (-1)^k.
    let f = MorseFunction::height_torus();
    let betti = BettiNumbers::new(vec![1, 2, 1]);
    let r = verify_morse_inequalities(&f, &betti);
    let (lhs1, _, _) = strong_morse_inequality(&[1, 2, 1], &[1, 2, 1], 1);
    assert_eq!(lhs1, -r.strong_results[1].1);
}

#[test]
fn strong_inequality_at_top_degree_compares_euler_characteristics() {
    let mu = [1usize, 3, 4];
    let betti = [1usize, 2];
    for k in 2..5 {
        let (lhs, rhs, holds) = strong_morse_inequality(&mu, &betti, k);
        assert_eq!(lhs, Manifold::euler_characteristic(&mu));
        assert_eq!(rhs, Manifold::euler_characteristic(&betti));
        assert_eq!(holds, lhs >= rhs);
    }
}
