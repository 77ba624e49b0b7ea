use lau_morse_theory::{BettiNumbers, Manifold};

#[test]
fn test_manifold_creation() {
    let m = Manifold::new(3);
    assert_eq!(m.dimension, 3);
}

#[test]
fn test_sphere_creation() {
    let s = Manifold::sphere(2);
    assert_eq!(s.dimension, 2);
    assert_eq!(s.name, "S^2");
}

#[test]
fn test_euler_characteristic() {
    // S^2: betti = [1, 0, 1] -> chi = 1 - 0 + 1 = 2
    assert_eq!(Manifold::euler_characteristic(&[1, 0, 1]), 2);
    // Torus T^2: betti = [1, 2, 1] -> chi = 1 - 2 + 1 = 0
    assert_eq!(Manifold::euler_characteristic(&[1, 2, 1]), 0);
    // Klein bottle: betti = [1, 1, 0] -> chi = 1 - 1 + 0 = 0
    assert_eq!(Manifold::euler_characteristic(&[1, 1, 0]), 0);
}

#[test]
fn test_betti_numbers() {
    let b = BettiNumbers::new(vec![1, 0, 1]);
    assert_eq!(b.get(0), 1);
    assert_eq!(b.get(1), 0);
    assert_eq!(b.get(2), 1);
    assert_eq!(b.get(3), 0); // out of range
    assert_eq!(b.total_rank(), 2);
}

#[test]
fn manifold_names_carry_multi_digit_dimensions() {
    assert_eq!(Manifold::torus(12).name, "T^12");
    assert_eq!(Manifold::euclidean(0).name, "R^0");
    assert_eq!(Manifold::sphere(105).name, "S^105");
    assert_eq!(Manifold::named(4, "CP^2").name, "CP^2");
    assert_eq!(Manifold::new(5).name, "");
}

#[test]
fn euler_characteristic_of_empty_and_large_betti_numbers() {
    assert_eq!(Manifold::euler_characteristic(&[]), 0);
    assert_eq!(Manifold::euler_characteristic(&[1, 0, 0, 0, 1]), 2);
    assert_eq!(Manifold::euler_characteristic(&[3, 7]), -4);
    let b = BettiNumbers::new(vec![1, 2, 1]);
    assert_eq!(b.euler_characteristic(), 0);
    assert_eq!(b.total_rank(), 4);
    assert_eq!(BettiNumbers::new(vec![]).total_rank(), 0);
}

#[test]
fn euler_characteristic_of_joined_counts() {
    let a = [1usize, 2, 1];
    let b = [3usize, 1];
    let joined = [1usize, 2, 1, 3, 1];
    // a has odd length, so b's terms change sign.
    assert_eq!(Manifold::euler_characteristic(&a), 0);
    assert_eq!(Manifold::euler_characteristic(&b), 2);
    assert_eq!(Manifold::euler_characteristic(&joined), 0 - 2);
    let c = [1usize, 1];
    let joined2 = [1usize, 1, 3, 1];
    assert_eq!(Manifold::euler_characteristic(&joined2), Manifold::euler_characteristic(&c) + 2);
}
