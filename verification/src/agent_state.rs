//! Agent state spaces as manifolds with an energy landscape given by a Morse
//! function.

use vstd::prelude::*;
use crate::critical_point::CriticalPoint;
use crate::manifold::Manifold;
use crate::morse_function::MorseFunction;

verus! {

/// An agent state space: a manifold with a Morse function describing
/// fitness or energy.
pub struct AgentStateSpace {
    /// The underlying manifold.
    pub manifold: Manifold,
    /// The Morse function (objective/energy landscape).
    pub morse_function: MorseFunction,
}

impl AgentStateSpace {
    /// Create a new agent state space.
    pub fn new(manifold: Manifold, morse_function: MorseFunction) -> (s: Self)
        ensures
            s.manifold == manifold,
            s.morse_function == morse_function,
    {
        AgentStateSpace { manifold, morse_function }
    }

    /// All stable states (local minima), in order.
    pub fn stable_states(&self) -> (cps: Vec<CriticalPoint>)
        ensures
            cps@ == self.morse_function.critical_points@.filter(|cp: CriticalPoint| cp.spec_is_minimum()),
    {
        let ghost p = |cp: CriticalPoint| cp.spec_is_minimum();
        let all = &self.morse_function.critical_points;
        let mut out: Vec<CriticalPoint> = Vec::new();
        let mut i: usize = 0;
        while i < all.len()
            invariant
                i <= all@.len(),
                p == (|cp: CriticalPoint| cp.spec_is_minimum()),
                out@ == all@.take(i as int).filter(p),
            decreases all@.len() - i,
        {
            proof {
                all@.take(i as int).lemma_filter_push(all@[i as int], p);
                assert(all@.take(i + 1) =~= all@.take(i as int).push(all@[i as int]));
            }
            if all[i].is_minimum() {
                out.push(all[i]);
            }
            i = i + 1;
        }
        assert(all@.take(all@.len() as int) =~= all@);
        out
    }

    /// All unstable states (local maxima), in order.
    pub fn unstable_states(&self) -> (cps: Vec<CriticalPoint>)
        ensures
            cps@ == self.morse_function.critical_points@.filter(|cp: CriticalPoint| cp.spec_is_maximum()),
    {
        let ghost p = |cp: CriticalPoint| cp.spec_is_maximum();
        let all = &self.morse_function.critical_points;
        let mut out: Vec<CriticalPoint> = Vec::new();
        let mut i: usize = 0;
        while i < all.len()
            invariant
                i <= all@.len(),
                p == (|cp: CriticalPoint| cp.spec_is_maximum()),
                out@ == all@.take(i as int).filter(p),
            decreases all@.len() - i,
        {
            proof {
                all@.take(i as int).lemma_filter_push(all@[i as int], p);
                assert(all@.take(i + 1) =~= all@.take(i as int).push(all@[i as int]));
            }
            if all[i].is_maximum() {
                out.push(all[i]);
            }
            i = i + 1;
        }
        assert(all@.take(all@.len() as int) =~= all@);
        out
    }

    /// All saddle states, in order.
    pub fn saddle_states(&self) -> (cps: Vec<CriticalPoint>)
        ensures
            cps@ == self.morse_function.critical_points@.filter(|cp: CriticalPoint| cp.spec_is_saddle()),
    {
        let ghost p = |cp: CriticalPoint| cp.spec_is_saddle();
        let all = &self.morse_function.critical_points;
        let mut out: Vec<CriticalPoint> = Vec::new();
        let mut i: usize = 0;
        while i < all.len()
            invariant
                i <= all@.len(),
                p == (|cp: CriticalPoint| cp.spec_is_saddle()),
                out@ == all@.take(i as int).filter(p),
            decreases all@.len() - i,
        {
            proof {
                all@.take(i as int).lemma_filter_push(all@[i as int], p);
                assert(all@.take(i + 1) =~= all@.take(i as int).push(all@[i as int]));
            }
            if all[i].is_saddle() {
                out.push(all[i]);
            }
            i = i + 1;
        }
        assert(all@.take(all@.len() as int) =~= all@);
        out
    }
}

/// The number of steps `t` of a trajectory at which the critical value of
/// the nearest critical point is known on both sides and changes.
pub open spec fn level_changes(levels: Seq<Option<i64>>) -> nat
    decreases levels.len(),
{
    if levels.len() <= 1 {
        0
    } else {
        let n = levels.len();
        level_changes(levels.drop_last()) + match (levels[n - 2], levels[n - 1]) {
            (Some(a), Some(b)) => if a != b { 1nat } else { 0nat },
            _ => 0nat,
        }
    }
}

/// Count the barrier crossings of a trajectory, given for each state of the
/// trajectory the critical value of its nearest critical point (`None` when
/// there is no critical point): the consecutive pairs whose values differ.
pub fn count_barrier_crossings(levels: &[Option<i64>]) -> (c: usize)
    ensures
        c == level_changes(levels@),
{
    let n = levels.len();
    if n < 2 {
        return 0;
    }
    let mut crossings: usize = 0;
    let mut t: usize = 1;
    while t < n
        invariant
            1 <= t <= n,
            n == levels@.len(),
            crossings == level_changes(levels@.take(t as int)),
            crossings < t,
        decreases n - t,
    {
        assert(levels@.take(t + 1).drop_last() =~= levels@.take(t as int));
        match (levels[t - 1], levels[t]) {
            (Some(a), Some(b)) => {
                if a != b {
                    crossings = crossings + 1;
                }
            },
            _ => {},
        }
        t = t + 1;
    }
    assert(levels@.take(n as int) =~= levels@);
    crossings
}

/// The level changes between step `t - 1` and step `t`: both levels are
/// known and they differ.
pub open spec fn changes_at(levels: Seq<Option<i64>>, t: int) -> bool {
    match (levels[t - 1], levels[t]) {
        (Some(a), Some(b)) => a != b,
        _ => false,
    }
}

/// The steps `t` in `1..levels.len()` at which the level changes.
pub open spec fn change_steps(levels: Seq<Option<i64>>) -> Set<int> {
    Set::new(|t: int| 1 <= t < levels.len() && changes_at(levels, t))
}

/// The barrier crossings of a trajectory are exactly its steps `t` (from the
/// first pair of states on) whose two levels are both known and differ:
/// every consecutive pair is compared once.
pub proof fn law_barrier_crossings_are_change_steps(levels: Seq<Option<i64>>)
    ensures
        change_steps(levels).finite(),
        level_changes(levels) == change_steps(levels).len(),
    decreases levels.len(),
{
    if levels.len() <= 1 {
        assert(change_steps(levels) =~= Set::empty());
    } else {
        let n = levels.len() as int;
        let prev = levels.drop_last();
        law_barrier_crossings_are_change_steps(prev);
        assert forall|t: int| 1 <= t < n - 1 implies changes_at(levels, t) == changes_at(prev, t) by {
            assert(levels[t - 1] == prev[t - 1]);
            assert(levels[t] == prev[t]);
        }
        if changes_at(levels, n - 1) {
            assert(change_steps(levels) =~= change_steps(prev).insert(n - 1));
        } else {
            assert(change_steps(levels) =~= change_steps(prev));
        }
    }
}

/// A trajectory of two states crosses a barrier exactly when both levels
/// are known and differ.
pub proof fn law_two_states_cross_when_levels_differ(a: Option<i64>, b: Option<i64>)
    ensures
        level_changes(seq![a, b]) == match (a, b) {
            (Some(x), Some(y)) => if x != y { 1nat } else { 0nat },
            _ => 0nat,
        },
{
    let l = seq![a, b];
    assert(l.drop_last() =~= seq![a]);
    assert(level_changes(seq![a]) == 0);
    assert(l[0] == a && l[1] == b);
}

} // verus!
