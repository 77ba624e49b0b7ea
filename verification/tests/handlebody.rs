use lau_morse_theory::{CriticalPoint, Handle, HandlebodyDecomposition, MorseFunction};

#[test]
fn test_handle_creation() {
    let cp = CriticalPoint::new(3, 1, 0);
    let handle = Handle::from_critical_point(&cp, 3);
    assert_eq!(handle.index, 1);
    assert_eq!(handle.attachment_sphere_dim, 0);
    assert_eq!(handle.belt_sphere_dim, 1);
}

#[test]
fn test_zero_handle() {
    let cp = CriticalPoint::new(2, 0, 0);
    let handle = Handle::from_critical_point(&cp, 2);
    assert!(handle.is_zero_handle());
    assert_eq!(handle.attachment_sphere_dim, -1); // S^{-1} = ∅
}

#[test]
fn test_handlebody_s1() {
    let f = MorseFunction::height_s1();
    let hb = HandlebodyDecomposition::from_morse_function(&f);
    assert_eq!(hb.handles.len(), 2);
    assert_eq!(hb.num_handles(0), 1);
    assert_eq!(hb.num_handles(1), 1);
}

#[test]
fn test_handlebody_s2() {
    let f = MorseFunction::height_s2();
    let hb = HandlebodyDecomposition::from_morse_function(&f);
    assert_eq!(hb.handles.len(), 2);
    assert_eq!(hb.num_handles(0), 1);
    assert_eq!(hb.num_handles(2), 1);
    assert_eq!(hb.euler_characteristic(), 1 + 1); // 2
}

#[test]
fn test_handlebody_torus() {
    let f = MorseFunction::height_torus();
    let hb = HandlebodyDecomposition::from_morse_function(&f);
    assert_eq!(hb.handles.len(), 4);
    assert_eq!(hb.num_handles(0), 1);
    assert_eq!(hb.num_handles(1), 2);
    assert_eq!(hb.num_handles(2), 1);
    assert_eq!(hb.euler_characteristic(), 1 - 2 + 1); // 0
}

#[test]
fn test_sublevel_set() {
    let f = MorseFunction::height_torus();
    let hb = HandlebodyDecomposition::from_morse_function(&f);
    // Critical values 0, 1, 2, 3 on the integer scale: at level 1 the minimum
    // (0) and one saddle (1) are attached.
    let sub = hb.sublevel_set(1);
    assert_eq!(sub.len(), 2);
}

#[test]
fn test_cancel_handle_pairs() {
    let f = MorseFunction::height_torus();
    let mut hb = HandlebodyDecomposition::from_morse_function(&f);
    // Cancel pairs: (0,1) and (1,2) -> should cancel 2 pairs
    let canceled = hb.cancel_handle_pairs();
    assert_eq!(canceled, 2); // Two pairs cancelled
    assert_eq!(hb.handles.len(), 0); // All cancelled
}

#[test]
fn test_handle_counts() {
    let f = MorseFunction::height_torus();
    let hb = HandlebodyDecomposition::from_morse_function(&f);
    let counts = hb.handle_counts();
    assert_eq!(counts, vec![1, 2, 1]);
}

#[test]
fn test_euler_from_handles_matches_manifold() {
    // Torus: χ = 0
    let f = MorseFunction::height_torus();
    let hb = HandlebodyDecomposition::from_morse_function(&f);
    assert_eq!(hb.euler_characteristic(), 0);

    // S^2: χ = 2
    let f = MorseFunction::height_s2();
    let hb = HandlebodyDecomposition::from_morse_function(&f);
    assert_eq!(hb.euler_characteristic(), 2);
}

#[test]
fn handles_are_sorted_by_value_then_index_stably() {
    let f = MorseFunction::from_critical_points(
        "ties",
        3,
        vec![
            CriticalPoint::new(3, 2, 5),
            CriticalPoint::new(3, 1, 5),
            CriticalPoint::new(3, 0, -2),
            CriticalPoint::with_hessian(3, 1, 5, 1),
            CriticalPoint::new(3, 3, 9),
        ],
    );
    let hb = HandlebodyDecomposition::from_morse_function(&f);
    let order: Vec<(i64, usize, usize)> =
        hb.handles.iter().map(|h| (h.critical_point.value, h.index, h.critical_point.kernel_dimension)).collect();
    assert_eq!(order, vec![(-2, 0, 0), (5, 1, 0), (5, 1, 1), (5, 2, 0), (9, 3, 0)]);
    assert!(hb.is_sorted_by_index());
    assert_eq!(hb.dimension, 3);
    let top = hb.handles[4];
    assert!(top.is_top_handle(3));
    assert_eq!(top.belt_sphere_dim, -1);
    assert_eq!(top.attachment_sphere_dim, 2);
}

#[test]
fn cancellation_keeps_euler_characteristic_and_unpaired_handles() {
    let f = MorseFunction::from_critical_points(
        "unpaired",
        3,
        vec![
            CriticalPoint::new(3, 0, 0),
            CriticalPoint::new(3, 0, 1),
            CriticalPoint::new(3, 2, 2),
            CriticalPoint::new(3, 1, 3),
            CriticalPoint::new(3, 3, 4),
        ],
    );
    let mut hb = HandlebodyDecomposition::from_morse_function(&f);
    let before = hb.euler_characteristic();
    let n = hb.handles.len();
    let canceled = hb.cancel_handle_pairs();
    // 0-handle (value 0) with the 1-handle; 2-handle with the 3-handle.
    assert_eq!(canceled, 2);
    assert_eq!(hb.handles.len() + 2 * canceled, n);
    assert_eq!(hb.euler_characteristic(), before);
    assert_eq!(hb.handles.len(), 1);
    assert_eq!(hb.handles[0].critical_point.value, 1);
}

#[test]
fn handles_of_index_and_unsorted_detection() {
    let f = MorseFunction::height_torus();
    let hb = HandlebodyDecomposition::from_morse_function(&f);
    let saddles = hb.handles_of_index(1);
    assert_eq!(saddles.len(), 2);
    assert_eq!(saddles[0].critical_point.value, 1);
    assert_eq!(saddles[1].critical_point.value, 2);
    assert!(hb.handles_of_index(5).is_empty());
    let unsorted = HandlebodyDecomposition {
        dimension: 2,
        handles: vec![
            Handle::from_critical_point(&CriticalPoint::new(2, 2, 0), 2),
            Handle::from_critical_point(&CriticalPoint::new(2, 0, 1), 2),
        ],
    };
    assert!(!unsorted.is_sorted_by_index());
    assert_eq!(unsorted.handle_counts(), vec![1, 0, 1]);
}

#[test]
fn cancel_skips_a_largest_index_with_nothing_after_it() {
    // The 0-handle cancels with the 1-handle; the handle of index
    // usize::MAX then has no uncancelled handle after it.
    let hs: Vec<Handle> = [0, usize::MAX, 1]
        .iter()
        .map(|&k| Handle::from_critical_point(&CriticalPoint::new(2, k, 0), 2))
        .collect();
    let mut hb = HandlebodyDecomposition { dimension: 2, handles: hs };
    let before = hb.euler_characteristic();
    assert_eq!(hb.cancel_handle_pairs(), 1);
    assert_eq!(hb.handles.len(), 1);
    assert_eq!(hb.handles[0].index, usize::MAX);
    assert_eq!(hb.euler_characteristic(), before);
}
