use lau_morse_theory::{CriticalPoint, MorseFunction, PersistenceBar, PersistenceDiagram, ReebGraph};

#[test]
fn test_persistence_s1() {
    let f = MorseFunction::height_s1();
    let pd = PersistenceDiagram::from_morse_function(&f);
    // S^1 has 1 essential H_0 feature and 1 essential H_1 feature
    assert!(pd.num_essential() >= 1);
}

#[test]
fn circle_has_essential_features_in_dimensions_zero_and_one() {
    // The saddle (value -1) comes first and finds nothing to kill, so it
    // gives birth to a feature of dimension 1; the minimum then gives birth
    // to one of dimension 0.
    let pd = PersistenceDiagram::from_morse_function(&MorseFunction::height_s1());
    assert_eq!(pd.num_essential(), 2);
    assert_eq!(pd.bars_of_dimension(0).len(), 1);
    assert_eq!(pd.bars_of_dimension(1).len(), 1);
    assert_eq!(pd.betti_numbers(), vec![1, 1]);
}

#[test]
fn test_persistence_s2() {
    let f = MorseFunction::height_s2();
    let pd = PersistenceDiagram::from_morse_function(&f);
    // S^2: min (index 0) and max (index 2), both essential
    assert_eq!(pd.num_essential(), 2);
}

#[test]
fn test_persistence_bars() {
    let bar = PersistenceBar { dimension: 0, birth: 0, death: Some(1), birth_index: 0, death_index: Some(1) };
    assert!(!bar.is_essential());
    assert!(bar.is_finite());
    assert_eq!(bar.persistence(), Some(1));
}

#[test]
fn test_essential_bar() {
    let bar = PersistenceBar { dimension: 0, birth: 0, death: None, birth_index: 0, death_index: None };
    assert!(bar.is_essential());
    assert!(!bar.is_finite());
    assert_eq!(bar.persistence(), None);
}

#[test]
fn test_reeb_graph_s2() {
    let f = MorseFunction::height_s2();
    let rg = ReebGraph::from_morse_function(&f);
    assert_eq!(rg.num_nodes(), 2);
    assert_eq!(rg.num_edges(), 1);
}

#[test]
fn test_reeb_graph_torus() {
    let f = MorseFunction::height_torus();
    let rg = ReebGraph::from_morse_function(&f);
    assert_eq!(rg.num_nodes(), 4);
}

#[test]
fn test_betti_from_persistence_s2() {
    let f = MorseFunction::height_s2();
    let pd = PersistenceDiagram::from_morse_function(&f);
    let betti = pd.betti_numbers();
    assert!(betti.len() >= 1);
    assert_eq!(betti[0], 1);
}

#[test]
fn test_persistence_diagram_dimension_filter() {
    let f = MorseFunction::height_torus();
    let pd = PersistenceDiagram::from_morse_function(&f);
    let dim0 = pd.bars_of_dimension(0);
    assert!(!dim0.is_empty());
}

#[test]
fn torus_pairs_minimum_with_first_saddle() {
    // Sorted by value: min 0, saddle 1, saddle 2, max 3. The first saddle
    // kills the minimum's feature; the second finds nothing of dimension 0
    // alive and gives birth to a feature of dimension 1, which the maximum
    // kills.
    let f = MorseFunction::height_torus();
    let pd = PersistenceDiagram::from_morse_function(&f);
    assert_eq!(pd.function_name, "height_T2");
    assert_eq!(
        pd.bars,
        vec![
            PersistenceBar { dimension: 0, birth: 0, death: Some(1), birth_index: 0, death_index: Some(1) },
            PersistenceBar { dimension: 1, birth: 2, death: Some(3), birth_index: 1, death_index: Some(2) },
        ]
    );
    assert_eq!(pd.max_finite_persistence(), Some(1));
    assert_eq!(pd.betti_numbers(), vec![0, 0]);
    // Every critical point opens or closes exactly one bar.
    assert_eq!(pd.bars.len(), 2);
}

#[test]
fn persistence_kills_most_recent_feature() {
    let f = MorseFunction::from_critical_points(
        "two_minima",
        1,
        vec![CriticalPoint::new(1, 0, 0), CriticalPoint::new(1, 0, 2), CriticalPoint::new(1, 1, 5)],
    );
    let pd = PersistenceDiagram::from_morse_function(&f);
    assert_eq!(pd.bars.len(), 2);
    assert_eq!(pd.bars[0].birth, 2);
    assert_eq!(pd.bars[0].death, Some(5));
    assert_eq!(pd.bars[1].birth, 0);
    assert!(pd.bars[1].is_essential());
    assert_eq!(pd.max_finite_persistence(), Some(3));
    assert_eq!(pd.num_essential(), 1);
}

#[test]
fn max_finite_persistence_absent_when_all_essential() {
    let pd = PersistenceDiagram::from_morse_function(&MorseFunction::height_s2());
    assert_eq!(pd.max_finite_persistence(), None);
    assert_eq!(pd.bars_of_dimension(2).len(), 1);
}

#[test]
fn reeb_graph_is_a_path_through_values() {
    let f = MorseFunction::height_torus();
    let rg = ReebGraph::from_morse_function(&f);
    assert_eq!(rg.num_edges(), 3);
    for e in &rg.edges {
        assert_eq!(e.target, e.source + 1);
    }
    let values: Vec<i64> = rg.nodes.iter().map(|n| n.value).collect();
    assert_eq!(values, vec![0, 1, 2, 3]);
    let components: Vec<usize> = rg.nodes.iter().map(|n| n.components).collect();
    assert_eq!(components, vec![1, 1, 1, 1]);
    let two_minima = MorseFunction::from_critical_points(
        "two_minima",
        2,
        vec![CriticalPoint::new(2, 0, 0), CriticalPoint::new(2, 0, 1), CriticalPoint::new(2, 1, 2)],
    );
    let rg = ReebGraph::from_morse_function(&two_minima);
    let components: Vec<usize> = rg.nodes.iter().map(|n| n.components).collect();
    assert_eq!(components, vec![1, 2, 1]);
    assert_eq!(rg.num_edges(), 2);
}
