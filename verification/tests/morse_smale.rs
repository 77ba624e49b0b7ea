use lau_morse_theory::{BoundaryMatrix, CriticalPoint, FlowLine, MorseSmaleComplex};

#[test]
fn test_morse_smale_s1() {
    let cps = vec![CriticalPoint::new(1, 0, -1), CriticalPoint::new(1, 1, 1)];
    let ms = MorseSmaleComplex::from_critical_points(1, &cps);
    assert_eq!(ms.cells.len(), 2);
    assert_eq!(ms.cell_counts(), vec![1, 1]);
    assert_eq!(ms.euler_characteristic(), 0);
}

#[test]
fn test_morse_smale_s2() {
    let cps = vec![CriticalPoint::new(2, 0, -1), CriticalPoint::new(2, 2, 1)];
    let ms = MorseSmaleComplex::from_critical_points(2, &cps);
    assert_eq!(ms.cells.len(), 2);
    assert_eq!(ms.euler_characteristic(), 1 + 1); // 2
}

#[test]
fn test_morse_smale_torus() {
    let cps = vec![
        // Values 0, 1, 1.5 and 2, doubled to stay whole.
        CriticalPoint::new(2, 0, 0),
        CriticalPoint::new(2, 1, 2),
        CriticalPoint::new(2, 1, 3),
        CriticalPoint::new(2, 2, 4),
    ];
    let ms = MorseSmaleComplex::from_critical_points(2, &cps);
    assert_eq!(ms.cells.len(), 4);
    assert_eq!(ms.cell_counts(), vec![1, 2, 1]);
    assert_eq!(ms.euler_characteristic(), 0);
}

#[test]
fn test_transversality() {
    let cps = vec![CriticalPoint::new(2, 0, 0), CriticalPoint::new(2, 1, 1), CriticalPoint::new(2, 2, 3)];
    let ms = MorseSmaleComplex::from_critical_points(2, &cps);
    assert!(ms.is_transverse());
}

#[test]
fn test_flow_lines_adjacent_index() {
    let cps = vec![CriticalPoint::new(2, 0, 0), CriticalPoint::new(2, 1, 1), CriticalPoint::new(2, 2, 3)];
    let ms = MorseSmaleComplex::from_critical_points(2, &cps);
    // 1→0 and 2→1 flows
    assert_eq!(ms.num_flow_lines(), 2);
}

#[test]
fn test_boundary_matrix() {
    let cps = vec![CriticalPoint::new(1, 0, 0), CriticalPoint::new(1, 1, 1)];
    let ms = MorseSmaleComplex::from_critical_points(1, &cps);
    // The one flow line runs from cell 1 down to cell 0.
    let (sources, targets) = own_places(&ms);
    let bm = BoundaryMatrix::from_complex(&ms, &sources, &targets);
    assert_eq!(bm.dimensions, vec![0, 1]);
}

#[test]
fn test_betti_z2_simple() {
    // A single point
    let cps = vec![CriticalPoint::new(1, 0, 0)];
    let ms = MorseSmaleComplex::from_critical_points(1, &cps);
    let bm = BoundaryMatrix::from_complex(&ms, &[], &[]);
    let betti = bm.betti_numbers_z2();
    assert_eq!(betti[0], 1);
}

#[test]
fn flow_lines_need_lower_value_and_adjacent_index() {
    let cps = vec![
        CriticalPoint::new(2, 0, 5),
        CriticalPoint::new(2, 1, 1),
        CriticalPoint::new(2, 2, 3),
        CriticalPoint::new(2, 0, 0),
    ];
    let ms = MorseSmaleComplex::from_critical_points(2, &cps);
    // 1(value 1) → 0(value 0) only; 1 is below the value-5 minimum; 2(value 3) → 1(value 1).
    let pairs: Vec<(i64, i64)> = ms.flow_lines.iter().map(|fl| (fl.source.value, fl.target.value)).collect();
    assert_eq!(pairs, vec![(1, 0), (3, 1)]);
    assert!(ms.is_transverse());
    assert_eq!(ms.cells_of_dimension(0).len(), 2);
}

#[test]
fn boundary_matrix_counts_incidences() {
    let cps = vec![CriticalPoint::new(1, 0, 0), CriticalPoint::new(1, 1, 1), CriticalPoint::new(1, 1, 2)];
    let ms = MorseSmaleComplex::from_critical_points(1, &cps);
    // Flow lines: 1 -> 0 and 2 -> 0.
    assert_eq!(ms.flow_ends, vec![(1, 0), (2, 0)]);
    let (sources, targets) = own_places(&ms);
    let bm = BoundaryMatrix::from_complex(&ms, &sources, &targets);
    assert_eq!(bm.matrix, vec![vec![0, 0, 0], vec![1, 0, 0], vec![1, 0, 0]]);
    assert_eq!(bm.dimensions, vec![0, 1, 1]);
    // Each end goes to the first marked cell whose dimension is the end's
    // index: the second source also lies at cells 0 and 1, and 1 comes first
    // among those of dimension 1.
    let mut sources2 = sources.clone();
    sources2[1][0] = true;
    sources2[1][1] = true;
    let bm = BoundaryMatrix::from_complex(&ms, &sources2, &targets);
    assert_eq!(bm.matrix, vec![vec![0, 0, 0], vec![2, 0, 0], vec![0, 0, 0]]);
    // A target at no cell of its dimension is not counted.
    let targets2 = marks(&[Some(0), Some(1)], 3);
    let bm = BoundaryMatrix::from_complex(&ms, &sources, &targets2);
    assert_eq!(bm.matrix, vec![vec![0, 0, 0], vec![1, 0, 0], vec![0, 0, 0]]);
}

/// Every critical point at a place of its own: each end of a flow line lies
/// at exactly the cell it came from.
fn own_places(ms: &MorseSmaleComplex) -> (Vec<Vec<bool>>, Vec<Vec<bool>>) {
    let n = ms.cells.len();
    let sources: Vec<Option<usize>> = ms.flow_ends.iter().map(|e| Some(e.0)).collect();
    let targets: Vec<Option<usize>> = ms.flow_ends.iter().map(|e| Some(e.1)).collect();
    (marks(&sources, n), marks(&targets, n))
}

#[test]
fn flow_ends_tell_equal_points_apart() {
    // Two minima with the same data, and a saddle above both.
    let cps = vec![CriticalPoint::new(1, 0, 0), CriticalPoint::new(1, 0, 0), CriticalPoint::new(1, 1, 1)];
    let ms = MorseSmaleComplex::from_critical_points(1, &cps);
    assert_eq!(ms.flow_ends, vec![(2, 0), (2, 1)]);
    let (sources, targets) = own_places(&ms);
    assert_eq!(ms.boundary(1, &sources, &targets), vec![vec![0, 1]]);
    let bm = BoundaryMatrix::from_complex(&ms, &sources, &targets);
    assert_eq!(bm.matrix, vec![vec![0, 0, 0], vec![0, 0, 0], vec![1, 1, 0]]);
    // An interval: one component, no loop.
    assert_eq!(bm.betti_numbers_z2(), vec![1, 0]);
}

#[test]
fn betti_z2_by_elimination() {
    // Column 0 is zero: no pivot. Columns 1 and 2 are equal: only 1 pivots.
    let bm = BoundaryMatrix {
        matrix: vec![vec![0, 1, 3], vec![0, 0, 0], vec![0, 1, 1]],
        dimensions: vec![0, 1, 1],
    };
    // dim 0: one non-pivot column, nothing below -> 1
    // dim 1: one non-pivot column (2), less the pivot columns of dim 0 (none) -> 1
    assert_eq!(bm.betti_numbers_z2(), vec![1, 1]);
    let empty = BoundaryMatrix { matrix: vec![], dimensions: vec![] };
    assert_eq!(empty.betti_numbers_z2(), vec![1]);
    // An identity block: every column pivots.
    let id = BoundaryMatrix { matrix: vec![vec![1, 0], vec![0, 3]], dimensions: vec![0, 0] };
    assert_eq!(id.betti_numbers_z2(), vec![0]);
    // Even entries vanish modulo 2.
    let even = BoundaryMatrix { matrix: vec![vec![2, 4], vec![6, 8]], dimensions: vec![1, 0] };
    assert_eq!(even.betti_numbers_z2(), vec![1, 1]);
}

#[test]
fn betti_z2_of_an_interval_and_a_circle() {
    // Interval: 0-cells 0 and 1, 1-cell 2 bounded by both.
    let interval = BoundaryMatrix {
        matrix: vec![vec![0, 0, 0], vec![0, 0, 0], vec![1, 1, 0]],
        dimensions: vec![0, 0, 1],
    };
    assert_eq!(interval.betti_numbers_z2(), vec![1, 0]);
    // Circle: 0-cells 0 and 1, 1-cells 2 and 3, each bounded by both.
    let circle = BoundaryMatrix {
        matrix: vec![vec![0, 0, 0, 0], vec![0, 0, 0, 0], vec![1, 1, 0, 0], vec![1, 1, 0, 0]],
        dimensions: vec![0, 0, 1, 1],
    };
    assert_eq!(circle.betti_numbers_z2(), vec![1, 1]);
    // Filled triangle: vertices 0..3, edges 3..6, face 6.
    let triangle = BoundaryMatrix {
        matrix: vec![
            vec![0, 0, 0, 0, 0, 0, 0],
            vec![0, 0, 0, 0, 0, 0, 0],
            vec![0, 0, 0, 0, 0, 0, 0],
            vec![1, 1, 0, 0, 0, 0, 0],
            vec![0, 1, 1, 0, 0, 0, 0],
            vec![1, 0, 1, 0, 0, 0, 0],
            vec![0, 0, 0, 1, 1, 1, 0],
        ],
        dimensions: vec![0, 0, 0, 1, 1, 1, 2],
    };
    assert_eq!(triangle.betti_numbers_z2(), vec![1, 0, 0]);
    // Euler-Poincaré: the alternating sums of Betti numbers and of cells agree.
    for bm in [&interval, &circle, &triangle] {
        let betti = bm.betti_numbers_z2();
        let from_betti: i64 = betti.iter().enumerate().map(|(k, &b)| if k % 2 == 0 { b as i64 } else { -(b as i64) }).sum();
        let from_cells: i64 = bm.dimensions.iter().map(|&d| if d % 2 == 0 { 1 } else { -1 }).sum();
        assert_eq!(from_betti, from_cells);
    }
}

/// `at[t][c]` is true when flow line `t` ends at cell `ends[t]`, and that
/// cell is `c`.
fn marks(ends: &[Option<usize>], cells: usize) -> Vec<Vec<bool>> {
    ends.iter().map(|e| (0..cells).map(|c| *e == Some(c)).collect()).collect()
}

#[test]
fn boundary_lists_lower_cells_per_cell() {
    let cps = vec![
        CriticalPoint::new(2, 0, 0),
        CriticalPoint::new(2, 1, 1),
        CriticalPoint::new(2, 1, 2),
        CriticalPoint::new(2, 2, 3),
    ];
    let ms = MorseSmaleComplex::from_critical_points(2, &cps);
    // Flow lines, in order: 1->0, 2->0, 3->1, 3->2.
    assert_eq!(ms.num_flow_lines(), 4);
    let sources = marks(&[Some(1), Some(2), Some(3), Some(3)], 4);
    let targets = marks(&[Some(0), Some(0), Some(1), Some(2)], 4);
    assert_eq!(ms.boundary(1, &sources, &targets), vec![vec![0], vec![0]]);
    assert_eq!(ms.boundary(2, &sources, &targets), vec![vec![1, 2]]);
    assert_eq!(ms.boundary(3, &sources, &targets), Vec::<Vec<usize>>::new());
    // The one 0-cell has an empty boundary.
    assert_eq!(ms.boundary(0, &sources, &targets), vec![Vec::<usize>::new()]);
    // A target at no cell adds nothing; a source at no cell adds nothing.
    let targets = marks(&[Some(0), Some(0), None, Some(2)], 4);
    let sources2 = marks(&[Some(1), None, Some(3), Some(3)], 4);
    assert_eq!(ms.boundary(2, &sources2, &targets), vec![vec![2]]);
    assert_eq!(ms.boundary(1, &sources2, &targets), vec![vec![0], vec![]]);
    // A target at two cells of the right dimension takes the first.
    let mut both = marks(&[Some(0), Some(0), Some(1), Some(2)], 4);
    both[3][1] = true;
    assert_eq!(ms.boundary(2, &sources, &both), vec![vec![1, 1]]);
}

#[test]
fn transversality_stops_at_the_first_bad_flow_line() {
    let a = CriticalPoint::new(1, 0, 0);
    let b = CriticalPoint::new(1, 5, 1);
    let top = CriticalPoint::new(1, usize::MAX, 2);
    let ms = MorseSmaleComplex {
        dimension: 1,
        cells: vec![],
        flow_lines: vec![FlowLine::new(a, b), FlowLine::new(a, top)],
        flow_ends: vec![],
    };
    assert!(!ms.is_transverse());
}
