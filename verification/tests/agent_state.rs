use lau_morse_theory::{count_barrier_crossings, AgentStateSpace, Manifold, MorseFunction};

#[test]
fn test_agent_state_space() {
    let manifold = Manifold::sphere(2);
    let morse = MorseFunction::height_s2();
    let space = AgentStateSpace::new(manifold, morse);
    assert!(space.stable_states().is_empty() == false);
    assert_eq!(space.stable_states().len(), 1);
}

#[test]
fn test_saddle_states() {
    let manifold = Manifold::euclidean(2);
    let morse = MorseFunction::height_torus();
    let space = AgentStateSpace::new(manifold, morse);
    assert_eq!(space.saddle_states().len(), 2);
}

#[test]
fn test_stable_states_count() {
    let manifold = Manifold::euclidean(2);
    let morse = MorseFunction::height_torus();
    let space = AgentStateSpace::new(manifold, morse);
    assert_eq!(space.stable_states().len(), 1); // One minimum
    assert_eq!(space.unstable_states().len(), 1); // One maximum
}

#[test]
fn barrier_crossings_count_value_changes() {
    assert_eq!(count_barrier_crossings(&[]), 0);
    assert_eq!(count_barrier_crossings(&[Some(1)]), 0);
    assert_eq!(count_barrier_crossings(&[Some(0), Some(0), Some(1), Some(1), Some(0)]), 2);
    assert_eq!(count_barrier_crossings(&[None, None]), 0);
}
