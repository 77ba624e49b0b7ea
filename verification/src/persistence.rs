//! Persistence from Morse functions via Reeb graphs and sublevel set
//! persistence.

use vstd::prelude::*;
use crate::critical_point::CriticalPoint;
use crate::morse_function::MorseFunction;
use crate::ordering::{first_lowest, lemma_sorted_first, sort_critical_points, sorted_by_value, stable_sort_of};

verus! {

/// A persistence bar: interval `[birth, death)` for a topological feature.
#[derive(Clone, Copy, Debug, PartialEq, Eq)]
pub struct PersistenceBar {
    /// Dimension of the feature (homology degree).
    pub dimension: usize,
    /// Birth value (critical value where the feature appears).
    pub birth: i64,
    /// Death value (critical value where it disappears); `None` for a
    /// feature that never dies.
    pub death: Option<i64>,
    /// Index of the critical point that gives birth.
    pub birth_index: usize,
    /// Index of the critical point that kills the feature.
    pub death_index: Option<usize>,
}

/// The length `death - birth` of a finite bar can be taken in `i64`.
pub open spec fn length_fits(b: PersistenceBar) -> bool {
    b.death matches Some(d) ==> i64::MIN <= d - b.birth <= i64::MAX
}

impl PersistenceBar {
    /// Persistence length `death - birth`; `None` for an essential feature.
    pub fn persistence(&self) -> (p: Option<i64>)
        requires
            length_fits(*self),
        ensures
            p is Some <==> self.death is Some,
            p matches Some(l) ==> l == self.death->0 - self.birth,
    {
        match self.death {
            Some(d) => Some(d - self.birth),
            None => None,
        }
    }

    /// Is this an essential feature (infinite persistence)?
    pub fn is_essential(&self) -> (b: bool)
        ensures
            b == (self.death is None),
    {
        self.death.is_none()
    }

    /// Is this a non-essential feature with finite persistence?
    pub fn is_finite(&self) -> (b: bool)
        ensures
            b == (self.death is Some),
    {
        self.death.is_some()
    }
}

/// The bar of a feature born at `b` and killed at `d`.
pub open spec fn finite_bar(b: CriticalPoint, d: CriticalPoint) -> PersistenceBar {
    PersistenceBar {
        dimension: b.index,
        birth: b.value,
        death: Some(d.value),
        birth_index: b.index,
        death_index: Some(d.index),
    }
}

/// The bar of a feature born at `b` that never dies.
pub open spec fn essential_bar(b: CriticalPoint) -> PersistenceBar {
    PersistenceBar { dimension: b.index, birth: b.value, death: None, birth_index: b.index, death_index: None }
}

/// The last of the first `m` active features that a critical point of index
/// `k` can kill (one of index `k - 1`).
pub open spec fn last_partner(active: Seq<CriticalPoint>, k: usize, m: int) -> Option<int>
    decreases m,
{
    if m <= 0 {
        None
    } else if active[m - 1].index + 1 == k {
        Some(m - 1)
    } else {
        last_partner(active, k, m - 1)
    }
}

/// The finite bars and the features still alive after the critical points
/// of `s` have been met in order: a point of index `k + 1` kills the most
/// recently born living feature of dimension `k`, if there is one; every
/// other point of index `k` gives birth to a feature of dimension `k`.
pub open spec fn pairing_state(s: Seq<CriticalPoint>) -> (Seq<PersistenceBar>, Seq<CriticalPoint>)
    decreases s.len(),
{
    if s.len() == 0 {
        (Seq::empty(), Seq::empty())
    } else {
        let (bars, active) = pairing_state(s.drop_last());
        let cp = s.last();
        match last_partner(active, cp.index, active.len() as int) {
            Some(p) => (bars.push(finite_bar(active[p], cp)), active.remove(p)),
            None => (bars, active.push(cp)),
        }
    }
}

/// All bars of `s`: the finite ones in order of death, then the essential
/// ones in order of birth.
pub open spec fn persistence_bars(s: Seq<CriticalPoint>) -> Seq<PersistenceBar> {
    pairing_state(s).0 + pairing_state(s).1.map_values(|cp: CriticalPoint| essential_bar(cp))
}

/// The number of essential bars of dimension `k` among `bars`.
pub open spec fn essential_count(bars: Seq<PersistenceBar>, k: int) -> nat
    decreases bars.len(),
{
    if bars.len() == 0 {
        0
    } else {
        essential_count(bars.drop_last(), k) + if bars.last().dimension == k && bars.last().death is None {
            1nat
        } else {
            0nat
        }
    }
}

/// The number of essential bars among `bars`.
pub open spec fn essential_total(bars: Seq<PersistenceBar>) -> nat
    decreases bars.len(),
{
    if bars.len() == 0 {
        0
    } else {
        essential_total(bars.drop_last()) + if bars.last().death is None { 1nat } else { 0nat }
    }
}

/// The largest dimension of a bar (0 when there is none).
pub open spec fn max_bar_dimension(bars: Seq<PersistenceBar>) -> usize
    decreases bars.len(),
{
    if bars.len() == 0 {
        0
    } else {
        let m = max_bar_dimension(bars.drop_last());
        if bars.last().dimension > m { bars.last().dimension } else { m }
    }
}

/// A persistence diagram: collection of persistence bars.
pub struct PersistenceDiagram {
    /// Name of the function.
    pub function_name: String,
    /// Persistence bars.
    pub bars: Vec<PersistenceBar>,
}

proof fn lemma_last_partner(active: Seq<CriticalPoint>, k: usize, m: int)
    requires
        0 <= m <= active.len(),
    ensures
        last_partner(active, k, m) matches Some(p) ==> 0 <= p < m && active[p].index + 1 == k,
        last_partner(active, k, m) is None ==> forall|t: int| 0 <= t < m ==> #[trigger] active[t].index + 1 != k,
    decreases m,
{
    if m > 0 {
        lemma_last_partner(active, k, m - 1);
    }
}

impl PersistenceDiagram {
    /// Compute persistence from a Morse function's critical points, met in
    /// stable order of critical value: a critical point of index `k + 1`
    /// kills the most recent living feature of dimension `k` when there is
    /// one, and otherwise a critical point of index `k` gives birth to a
    /// feature of dimension `k`; the features left alive are essential.
    pub fn from_morse_function(f: &MorseFunction) -> (pd: Self)
        ensures
            pd.function_name@ == f.name@,
            pd.bars@ == persistence_bars(sorted_by_value(f.critical_points@, false)),
    {
        let sorted = sort_critical_points(&f.critical_points, false);
        let ghost s = sorted@;
        let mut bars: Vec<PersistenceBar> = Vec::new();
        let mut active: Vec<CriticalPoint> = Vec::new();
        let mut i: usize = 0;
        while i < sorted.len()
            invariant
                i <= s.len(),
                s == sorted@,
                (bars@, active@) == pairing_state(s.take(i as int)),
            decreases s.len() - i,
        {
            let cp = sorted[i];
            assert(s.take(i + 1).drop_last() =~= s.take(i as int));
            {
                let mut p: usize = active.len();
                let mut found = false;
                proof {
                    lemma_last_partner(active@, cp.index, active@.len() as int);
                }
                while p > 0 && !found
                    invariant
                        p <= active@.len(),
                        !found ==> last_partner(active@, cp.index, active@.len() as int) == last_partner(
                            active@,
                            cp.index,
                            p as int,
                        ),
                        found ==> p < active@.len() && last_partner(active@, cp.index, active@.len() as int)
                            == Some(p as int),
                    decreases p as int + if found { 0int } else { 1int },
                {
                    if cp.index >= 1 && active[p - 1].index == cp.index - 1 {
                        p = p - 1;
                        found = true;
                    } else {
                        p = p - 1;
                    }
                }
                if found {
                    let birth = active.remove(p);
                    bars.push(
                        PersistenceBar {
                            dimension: birth.index,
                            birth: birth.value,
                            death: Some(cp.value),
                            birth_index: birth.index,
                            death_index: Some(cp.index),
                        },
                    );
                } else {
                    active.push(cp);
                }
            }
            i = i + 1;
        }
        assert(s.take(s.len() as int) =~= s);
        let ghost finite = bars@;
        let ghost alive = active@;
        let mut k: usize = 0;
        while k < active.len()
            invariant
                k <= alive.len(),
                alive == active@,
                bars@ == finite + alive.take(k as int).map_values(|cp: CriticalPoint| essential_bar(cp)),
            decreases alive.len() - k,
        {
            let cp = active[k];
            bars.push(
                PersistenceBar {
                    dimension: cp.index,
                    birth: cp.value,
                    death: None,
                    birth_index: cp.index,
                    death_index: None,
                },
            );
            k = k + 1;
            assert(bars@ =~= finite + alive.take(k as int).map_values(|cp: CriticalPoint| essential_bar(cp)));
        }
        assert(alive.take(alive.len() as int) =~= alive);
        PersistenceDiagram { function_name: f.name.clone(), bars }
    }

    /// Bars of a given dimension, in order.
    pub fn bars_of_dimension(&self, dim: usize) -> (bs: Vec<PersistenceBar>)
        ensures
            bs@ == self.bars@.filter(|b: PersistenceBar| b.dimension == dim),
    {
        let ghost p = |b: PersistenceBar| b.dimension == dim;
        let mut out: Vec<PersistenceBar> = Vec::new();
        let mut i: usize = 0;
        while i < self.bars.len()
            invariant
                i <= self.bars@.len(),
                p == (|b: PersistenceBar| b.dimension == dim),
                out@ == self.bars@.take(i as int).filter(p),
            decreases self.bars@.len() - i,
        {
            proof {
                self.bars@.take(i as int).lemma_filter_push(self.bars@[i as int], p);
                assert(self.bars@.take(i + 1) =~= self.bars@.take(i as int).push(self.bars@[i as int]));
            }
            if self.bars[i].dimension == dim {
                out.push(self.bars[i]);
            }
            i = i + 1;
        }
        assert(self.bars@.take(self.bars@.len() as int) =~= self.bars@);
        out
    }

    /// The largest persistence of a finite bar; `None` when every bar is
    /// essential.
    pub fn max_finite_persistence(&self) -> (m: Option<i64>)
        requires
            forall|i: int| 0 <= i < self.bars@.len() ==> length_fits(#[trigger] self.bars@[i]),
        ensures
            m is None <==> forall|i: int| 0 <= i < self.bars@.len() ==> (#[trigger] self.bars@[i]).death is None,
            m matches Some(l) ==> {
                &&& exists|i: int|
                    0 <= i < self.bars@.len() && (#[trigger] self.bars@[i]).death is Some && l
                        == self.bars@[i].death->0 - self.bars@[i].birth
                &&& forall|i: int|
                    0 <= i < self.bars@.len() && (#[trigger] self.bars@[i]).death is Some ==> self.bars@[i].death->0
                        - self.bars@[i].birth <= l
            },
    {
        let mut best: Option<i64> = None;
        let mut i: usize = 0;
        while i < self.bars.len()
            invariant
                i <= self.bars@.len(),
                forall|t: int| 0 <= t < self.bars@.len() ==> length_fits(#[trigger] self.bars@[t]),
                best is None <==> forall|t: int| 0 <= t < i ==> (#[trigger] self.bars@[t]).death is None,
                best matches Some(l) ==> {
                    &&& exists|t: int|
                        0 <= t < i && (#[trigger] self.bars@[t]).death is Some && l == self.bars@[t].death->0
                            - self.bars@[t].birth
                    &&& forall|t: int|
                        0 <= t < i && (#[trigger] self.bars@[t]).death is Some ==> self.bars@[t].death->0
                            - self.bars@[t].birth <= l
                },
            decreases self.bars@.len() - i,
        {
            let b = self.bars[i];
            assert(length_fits(self.bars@[i as int]));
            match b.persistence() {
                Some(p) => {
                    match best {
                        Some(l) => {
                            if p >= l {
                                best = Some(p);
                            }
                        },
                        None => {
                            best = Some(p);
                        },
                    }
                },
                None => {},
            }
            i = i + 1;
        }
        best
    }

    /// Number of essential features.
    pub fn num_essential(&self) -> (c: usize)
        ensures
            c == essential_total(self.bars@),
    {
        let ghost s = self.bars@;
        let mut c: usize = 0;
        let mut i: usize = 0;
        while i < self.bars.len()
            invariant
                i <= s.len(),
                s == self.bars@,
                c == essential_total(s.take(i as int)),
                c <= i,
            decreases s.len() - i,
        {
            assert(s.take(i + 1).drop_last() =~= s.take(i as int));
            if self.bars[i].is_essential() {
                c = c + 1;
            }
            i = i + 1;
        }
        assert(s.take(s.len() as int) =~= s);
        c
    }

    /// Betti numbers from the persistence diagram: for each dimension up to
    /// the largest, the number of essential features of that dimension.
    pub fn betti_numbers(&self) -> (betti: Vec<usize>)
        requires
            max_bar_dimension(self.bars@) < usize::MAX,
        ensures
            betti@ == Seq::new(
                (max_bar_dimension(self.bars@) + 1) as nat,
                |k: int| essential_count(self.bars@, k) as usize,
            ),
    {
        let ghost s = self.bars@;
        let mut max_dim: usize = 0;
        let mut i: usize = 0;
        while i < self.bars.len()
            invariant
                i <= s.len(),
                s == self.bars@,
                max_dim == max_bar_dimension(s.take(i as int)),
            decreases s.len() - i,
        {
            assert(s.take(i + 1).drop_last() =~= s.take(i as int));
            if self.bars[i].dimension > max_dim {
                max_dim = self.bars[i].dimension;
            }
            i = i + 1;
        }
        assert(s.take(s.len() as int) =~= s);
        let mut betti: Vec<usize> = Vec::new();
        let mut k: usize = 0;
        while k <= max_dim
            invariant
                k <= max_dim + 1,
                max_dim < usize::MAX,
                max_dim == max_bar_dimension(s),
                s == self.bars@,
                betti@ == Seq::new(k as nat, |d: int| essential_count(s, d) as usize),
            decreases max_dim + 1 - k,
        {
            let mut c: usize = 0;
            let mut j: usize = 0;
            while j < self.bars.len()
                invariant
                    j <= s.len(),
                    s == self.bars@,
                    c == essential_count(s.take(j as int), k as int),
                    c <= j,
                decreases s.len() - j,
            {
                assert(s.take(j + 1).drop_last() =~= s.take(j as int));
                if self.bars[j].dimension == k && self.bars[j].is_essential() {
                    c = c + 1;
                }
                j = j + 1;
            }
            assert(s.take(s.len() as int) =~= s);
            betti.push(c);
            k = k + 1;
            assert(betti@ =~= Seq::new(k as nat, |d: int| essential_count(s, d) as usize));
        }
        betti
    }
}

/// A node of a Reeb graph.
#[derive(Clone, Copy, Debug, PartialEq, Eq, Structural)]
pub struct ReebNode {
    /// Critical value.
    pub value: i64,
    /// Index of the associated critical point.
    pub critical_index: usize,
    /// Number of connected components of the sublevel set.
    pub components: usize,
}

/// An edge of a Reeb graph, between node positions.
#[derive(Clone, Copy, Debug, PartialEq, Eq, Structural)]
pub struct ReebEdge {
    pub source: usize,
    pub target: usize,
}

/// A Reeb graph of a Morse function.
pub struct ReebGraph {
    pub nodes: Vec<ReebNode>,
    pub edges: Vec<ReebEdge>,
}

/// One fewer component, but never fewer than one.
pub open spec fn merged(c: nat) -> nat {
    if c <= 1 { 1 } else { (c - 1) as nat }
}

/// The nodes, the edges and the running number of components after the
/// critical points of `s` have been met in order, on a manifold of dimension
/// `dim`: a minimum adds a component, a maximum merges one away, a saddle of
/// odd index merges and one of even index adds; each point after the first
/// is joined to the one before it.
pub open spec fn reeb_state(s: Seq<CriticalPoint>, dim: usize) -> (Seq<ReebNode>, Seq<ReebEdge>, nat)
    decreases s.len(),
{
    if s.len() == 0 {
        (Seq::empty(), Seq::empty(), 0)
    } else {
        let (nodes, edges, c) = reeb_state(s.drop_last(), dim);
        let i = s.len() - 1;
        let cp = s.last();
        let c2: nat = if cp.index == 0 {
            c + 1
        } else if cp.index == dim {
            merged(c)
        } else if cp.index % 2 == 1 {
            merged(c)
        } else {
            c + 1
        };
        let node = ReebNode {
            value: cp.value,
            critical_index: if cp.index == 0 { 0 } else { cp.index },
            components: c2 as usize,
        };
        let edges2 = if cp.index == 0 && i == 0 {
            edges
        } else {
            edges.push(ReebEdge { source: (i - 1) as usize, target: i as usize })
        };
        (nodes.push(node), edges2, c2)
    }
}

/// Node `j` is the node the prefix of `j + 1` points ends with, and its
/// component count is the running count after that prefix.
proof fn lemma_reeb_prefix(s: Seq<CriticalPoint>, dim: usize, j: int)
    requires
        0 <= j < s.len(),
    ensures
        reeb_state(s, dim).0[j] == reeb_state(s.take(j + 1), dim).0.last(),
        reeb_state(s, dim).0[j].components == reeb_state(s.take(j + 1), dim).2 as usize,
    decreases s.len(),
{
    lemma_reeb_state(s, dim);
    lemma_reeb_state(s.take(j + 1), dim);
    if j < s.len() - 1 {
        lemma_reeb_prefix(s.drop_last(), dim, j);
        assert(s.drop_last().take(j + 1) =~= s.take(j + 1));
        lemma_reeb_state(s.drop_last(), dim);
        assert(reeb_state(s, dim).0[j] == reeb_state(s.drop_last(), dim).0[j]);
    } else {
        assert(s.take(j + 1) =~= s);
    }
}

/// How the number of components changes from one node of the Reeb graph to
/// the next: a minimum (index 0) opens a new component; a maximum (index
/// equal to the dimension) merges two into one, never going below one; a
/// saddle of odd index merges likewise and one of even index opens a
/// component. The first node has one component.
pub proof fn law_reeb_component_steps(s: Seq<CriticalPoint>, dim: usize, i: int)
    requires
        0 <= i < s.len(),
        s.len() <= usize::MAX,
    ensures
        i == 0 ==> reeb_state(s, dim).0[0].components == 1,
        i > 0 ==> {
            let prev = reeb_state(s, dim).0[i - 1].components;
            let cur = reeb_state(s, dim).0[i].components;
            let k = s[i].index;
            &&& (k == 0 ==> cur == prev + 1)
            &&& (k != 0 && k == dim ==> cur == if prev <= 1 { 1 } else { prev - 1 })
            &&& (k != 0 && k != dim && k % 2 == 1 ==> cur == if prev <= 1 { 1 } else { prev - 1 })
            &&& (k != 0 && k != dim && k % 2 == 0 ==> cur == prev + 1)
        },
        reeb_state(s, dim).0[i].value == s[i].value,
        reeb_state(s, dim).0[i].critical_index == s[i].index,
{
    lemma_reeb_prefix(s, dim, i);
    let t = s.take(i + 1);
    lemma_reeb_state(t, dim);
    assert(t.drop_last() =~= s.take(i));
    assert(t.last() == s[i]);
    if i > 0 {
        lemma_reeb_prefix(s, dim, i - 1);
        lemma_reeb_state(s.take(i), dim);
    } else {
        assert(t.drop_last() =~= Seq::<CriticalPoint>::empty());
    }
}

proof fn lemma_reeb_state(s: Seq<CriticalPoint>, dim: usize)
    ensures
        reeb_state(s, dim).0.len() == s.len(),
        reeb_state(s, dim).2 <= s.len(),
        s.len() > 0 ==> reeb_state(s, dim).1.len() == s.len() - if s[0].index == 0 { 1int } else { 0int },
    decreases s.len(),
{
    if s.len() > 0 {
        lemma_reeb_state(s.drop_last(), dim);
        if s.len() > 1 {
            assert(s.drop_last()[0] == s[0]);
        }
    }
}

impl ReebGraph {
    /// Construct a Reeb graph from a Morse function, meeting its critical
    /// points in stable order of critical value.
    pub fn from_morse_function(f: &MorseFunction) -> (rg: Self)
        requires
            forall|i: int| first_lowest(f.critical_points@, i) ==> #[trigger] f.critical_points@[i].index == 0,
        ensures
            rg.nodes@ == reeb_state(sorted_by_value(f.critical_points@, false), f.dimension).0,
            rg.edges@ == reeb_state(sorted_by_value(f.critical_points@, false), f.dimension).1,
    {
        let sorted = sort_critical_points(&f.critical_points, false);
        let ghost s = sorted@;
        proof {
            if s.len() > 0 {
                lemma_sorted_first(f.critical_points@, s);
            }
        }
        let mut nodes: Vec<ReebNode> = Vec::new();
        let mut edges: Vec<ReebEdge> = Vec::new();
        let mut components: usize = 0;
        let mut i: usize = 0;
        while i < sorted.len()
            invariant
                i <= s.len(),
                s == sorted@,
                s.len() > 0 ==> s[0].index == 0,
                (nodes@, edges@, components as nat) == reeb_state(s.take(i as int), f.dimension),
            decreases s.len() - i,
        {
            let cp = sorted[i];
            proof {
                assert(s.take(i + 1).drop_last() =~= s.take(i as int));
                lemma_reeb_state(s.take(i as int), f.dimension);
            }
            if cp.index == 0 {
                components = components + 1;
                nodes.push(ReebNode { value: cp.value, critical_index: 0, components });
                if i > 0 {
                    edges.push(ReebEdge { source: i - 1, target: i });
                }
            } else if cp.index == f.dimension {
                components = if components <= 1 { 1 } else { components - 1 };
                nodes.push(ReebNode { value: cp.value, critical_index: f.dimension, components });
                edges.push(ReebEdge { source: i - 1, target: i });
            } else {
                if cp.index % 2 == 1 {
                    components = if components <= 1 { 1 } else { components - 1 };
                } else {
                    components = components + 1;
                }
                nodes.push(ReebNode { value: cp.value, critical_index: cp.index, components });
                edges.push(ReebEdge { source: i - 1, target: i });
            }
            i = i + 1;
        }
        assert(s.take(s.len() as int) =~= s);
        ReebGraph { nodes, edges }
    }

    /// Number of nodes.
    pub fn num_nodes(&self) -> (n: usize)
        ensures
            n == self.nodes@.len(),
    {
        self.nodes.len()
    }

    /// Number of edges.
    pub fn num_edges(&self) -> (n: usize)
        ensures
            n == self.edges@.len(),
    {
        self.edges.len()
    }
}

/// The Reeb graph has one node per critical point and, when there is a
/// critical point, one edge fewer than nodes: it is a path through the
/// critical points in order of value.
pub proof fn law_reeb_graph_is_a_path(cps: Seq<CriticalPoint>, s: Seq<CriticalPoint>, dim: usize)
    requires
        stable_sort_of(s, cps, false),
        cps.len() <= usize::MAX,
        forall|i: int| first_lowest(cps, i) ==> #[trigger] cps[i].index == 0,
    ensures
        reeb_state(s, dim).0.len() == cps.len(),
        cps.len() > 0 ==> reeb_state(s, dim).1.len() == cps.len() - 1,
        forall|e: int|
            0 <= e < reeb_state(s, dim).1.len() ==> {
                let edge = #[trigger] reeb_state(s, dim).1[e];
                edge.target == edge.source + 1
            },
{
    if s.len() > 0 {
        lemma_sorted_first(cps, s);
    }
    assert(s.len() == cps.len());
    lemma_reeb_state(s, dim);
    lemma_reeb_edges(s, dim);
}

proof fn lemma_reeb_edges(s: Seq<CriticalPoint>, dim: usize)
    requires
        s.len() <= usize::MAX,
        s.len() > 0 ==> s[0].index == 0,
    ensures
        forall|e: int|
            0 <= e < reeb_state(s, dim).1.len() ==> {
                let edge = #[trigger] reeb_state(s, dim).1[e];
                edge.target == edge.source + 1
            },
    decreases s.len(),
{
    if s.len() > 0 {
        if s.len() > 1 {
            assert(s.drop_last()[0] == s[0]);
        }
        lemma_reeb_edges(s.drop_last(), dim);
        let (nodes, edges, c) = reeb_state(s.drop_last(), dim);
        let all = reeb_state(s, dim).1;
        assert forall|e: int| 0 <= e < all.len() implies {
            let edge = #[trigger] all[e];
            edge.target == edge.source + 1
        } by {
            if e < edges.len() {
                assert(all[e] == edges[e]);
            }
        }
    }
}

/// Every critical point opens or closes exactly one bar: twice the number
/// of finite bars plus the number of essential bars is the number of
/// critical points.
pub proof fn law_each_point_opens_or_closes_a_bar(s: Seq<CriticalPoint>)
    ensures
        2 * finite_total(persistence_bars(s)) + essential_total(persistence_bars(s)) == s.len(),
{
    lemma_pairing_counts(s);
    lemma_pairing_shape(s);
    let (bars, active) = pairing_state(s);
    let ess = active.map_values(|cp: CriticalPoint| essential_bar(cp));
    lemma_totals_concat(bars, ess);
    lemma_totals_finite(bars);
    lemma_totals_essential(ess);
}

/// The number of finite bars among `bars`.
pub open spec fn finite_total(bars: Seq<PersistenceBar>) -> nat
    decreases bars.len(),
{
    if bars.len() == 0 {
        0
    } else {
        finite_total(bars.drop_last()) + if bars.last().death is Some { 1nat } else { 0nat }
    }
}

proof fn lemma_totals_concat(a: Seq<PersistenceBar>, b: Seq<PersistenceBar>)
    ensures
        finite_total(a + b) == finite_total(a) + finite_total(b),
        essential_total(a + b) == essential_total(a) + essential_total(b),
    decreases b.len(),
{
    if b.len() > 0 {
        lemma_totals_concat(a, b.drop_last());
        assert((a + b).drop_last() =~= a + b.drop_last());
    } else {
        assert(a + b =~= a);
    }
}

proof fn lemma_totals_finite(a: Seq<PersistenceBar>)
    requires
        forall|t: int| 0 <= t < a.len() ==> (#[trigger] a[t]).death is Some,
    ensures
        finite_total(a) == a.len(),
        essential_total(a) == 0,
    decreases a.len(),
{
    if a.len() > 0 {
        lemma_totals_finite(a.drop_last());
    }
}

proof fn lemma_totals_essential(a: Seq<PersistenceBar>)
    requires
        forall|t: int| 0 <= t < a.len() ==> (#[trigger] a[t]).death is None,
    ensures
        finite_total(a) == 0,
        essential_total(a) == a.len(),
    decreases a.len(),
{
    if a.len() > 0 {
        lemma_totals_essential(a.drop_last());
    }
}

/// A finite bar is born at a point of index k and killed at a point of index
/// k + 1; every bar has the dimension of the point that gave it birth.
pub proof fn law_bars_pair_adjacent_indices(s: Seq<CriticalPoint>)
    ensures
        forall|i: int|
            0 <= i < persistence_bars(s).len() ==> {
                let b = #[trigger] persistence_bars(s)[i];
                &&& b.dimension == b.birth_index
                &&& (b.death_index matches Some(d) ==> d == b.birth_index + 1)
                &&& (b.death is None <==> b.death_index is None)
            },
{
    lemma_pairing_shape(s);
    let (bars, active) = pairing_state(s);
    let all = persistence_bars(s);
    assert forall|i: int| 0 <= i < all.len() implies {
        let b = #[trigger] all[i];
        &&& b.dimension == b.birth_index
        &&& (b.death_index matches Some(d) ==> d == b.birth_index + 1)
        &&& (b.death is None <==> b.death_index is None)
    } by {
        if i >= bars.len() {
            assert(all[i] == essential_bar(active[i - bars.len()]));
        } else {
            assert(all[i] == bars[i]);
        }
    }
}

proof fn lemma_pairing_counts(s: Seq<CriticalPoint>)
    ensures
        2 * pairing_state(s).0.len() + pairing_state(s).1.len() == s.len(),
    decreases s.len(),
{
    if s.len() > 0 {
        lemma_pairing_counts(s.drop_last());
        let (bars, active) = pairing_state(s.drop_last());
        lemma_last_partner(active, s.last().index, active.len() as int);
    }
}

proof fn lemma_pairing_shape(s: Seq<CriticalPoint>)
    ensures
        forall|t: int|
            0 <= t < pairing_state(s).0.len() ==> {
                let b = #[trigger] pairing_state(s).0[t];
                &&& b.dimension == b.birth_index
                &&& b.death is Some
                &&& b.death_index is Some
                &&& b.death_index->0 == b.birth_index + 1
            },
    decreases s.len(),
{
    if s.len() > 0 {
        lemma_pairing_shape(s.drop_last());
        let (bars, active) = pairing_state(s.drop_last());
        let cp = s.last();
        lemma_last_partner(active, cp.index, active.len() as int);
    }
}

/// A critical point as it is recorded at a bar's end: its index and value.
pub open spec fn point_of(cp: CriticalPoint) -> (usize, i64) {
    (cp.index, cp.value)
}

/// The number of critical points of `s` recorded as `p`.
pub open spec fn point_count(s: Seq<CriticalPoint>, p: (usize, i64)) -> nat
    decreases s.len(),
{
    if s.len() == 0 {
        0
    } else {
        point_count(s.drop_last(), p) + if point_of(s.last()) == p { 1nat } else { 0nat }
    }
}

/// The number of ends of `bar` recorded as `p`: its birth, and its death
/// when it has one.
pub open spec fn bar_ends(bar: PersistenceBar, p: (usize, i64)) -> nat {
    (if (bar.birth_index, bar.birth) == p { 1nat } else { 0nat }) + match (bar.death_index, bar.death) {
        (Some(k), Some(v)) => if (k, v) == p { 1nat } else { 0nat },
        _ => 0nat,
    }
}

/// The number of bar ends among `bars` recorded as `p`.
pub open spec fn endpoint_count(bars: Seq<PersistenceBar>, p: (usize, i64)) -> nat
    decreases bars.len(),
{
    if bars.len() == 0 {
        0
    } else {
        endpoint_count(bars.drop_last(), p) + bar_ends(bars.last(), p)
    }
}

proof fn lemma_point_count_concat(a: Seq<CriticalPoint>, b: Seq<CriticalPoint>, p: (usize, i64))
    ensures
        point_count(a + b, p) == point_count(a, p) + point_count(b, p),
    decreases b.len(),
{
    if b.len() == 0 {
        assert(a + b =~= a);
    } else {
        lemma_point_count_concat(a, b.drop_last(), p);
        assert((a + b).drop_last() =~= a + b.drop_last());
    }
}

proof fn lemma_endpoint_count_concat(a: Seq<PersistenceBar>, b: Seq<PersistenceBar>, p: (usize, i64))
    ensures
        endpoint_count(a + b, p) == endpoint_count(a, p) + endpoint_count(b, p),
    decreases b.len(),
{
    if b.len() == 0 {
        assert(a + b =~= a);
    } else {
        lemma_endpoint_count_concat(a, b.drop_last(), p);
        assert((a + b).drop_last() =~= a + b.drop_last());
    }
}

proof fn lemma_point_count_remove(s: Seq<CriticalPoint>, q: int, p: (usize, i64))
    requires
        0 <= q < s.len(),
    ensures
        point_count(s, p) == point_count(s.remove(q), p) + if point_of(s[q]) == p { 1nat } else { 0nat },
{
    let a = s.take(q);
    let b = s.skip(q + 1);
    assert(s.remove(q) =~= a + b);
    assert(s =~= (a + seq![s[q]]) + b);
    lemma_point_count_concat(a, b, p);
    lemma_point_count_concat(a + seq![s[q]], b, p);
    lemma_point_count_concat(a, seq![s[q]], p);
    let one = seq![s[q]];
    assert(one.drop_last() =~= Seq::<CriticalPoint>::empty());
    assert(one.last() == s[q]);
    assert(point_count(one.drop_last(), p) == 0);
    assert(point_count(one, p) == if point_of(s[q]) == p { 1nat } else { 0nat });
    assert(point_count(s, p) == point_count((a + one) + b, p));
}

proof fn lemma_essential_ends(active: Seq<CriticalPoint>, p: (usize, i64))
    ensures
        endpoint_count(active.map_values(|cp: CriticalPoint| essential_bar(cp)), p) == point_count(active, p),
    decreases active.len(),
{
    if active.len() > 0 {
        lemma_essential_ends(active.drop_last(), p);
        assert(active.map_values(|cp: CriticalPoint| essential_bar(cp)).drop_last() =~= active.drop_last().map_values(
            |cp: CriticalPoint| essential_bar(cp),
        ));
    }
}

proof fn lemma_pairing_ends(s: Seq<CriticalPoint>, p: (usize, i64))
    ensures
        endpoint_count(pairing_state(s).0, p) + point_count(pairing_state(s).1, p) == point_count(s, p),
    decreases s.len(),
{
    if s.len() > 0 {
        lemma_pairing_ends(s.drop_last(), p);
        let (bars, active) = pairing_state(s.drop_last());
        let cp = s.last();
        lemma_last_partner(active, cp.index, active.len() as int);
        match last_partner(active, cp.index, active.len() as int) {
            Some(q) => {
                lemma_point_count_remove(active, q, p);
                assert(bars.push(finite_bar(active[q], cp)).drop_last() =~= bars);
            },
            None => {
                assert(active.push(cp).drop_last() =~= active);
            },
        }
    }
}

/// Every critical point is the end of exactly one bar: counted with
/// multiplicity, the births of all bars together with the deaths of the
/// finite bars are the critical points themselves, each recorded by its
/// index and value. No point is left out and none opens or closes two bars.
pub proof fn law_bar_ends_are_the_critical_points(s: Seq<CriticalPoint>, p: (usize, i64))
    ensures
        endpoint_count(persistence_bars(s), p) == point_count(s, p),
{
    lemma_pairing_ends(s, p);
    let (bars, active) = pairing_state(s);
    lemma_endpoint_count_concat(bars, active.map_values(|cp: CriticalPoint| essential_bar(cp)), p);
    lemma_essential_ends(active, p);
}

/// Meeting a critical point of index `k`: if some living feature has
/// dimension `k - 1`, the most recently born such feature (the last of them
/// in order of birth) dies at this point, closing a finite bar from its birth
/// to this point; otherwise the point gives birth to a feature of dimension
/// `k`. Nothing else changes.
pub proof fn law_pairing_step(s: Seq<CriticalPoint>)
    requires
        s.len() > 0,
    ensures
        ({
            let (bars, active) = pairing_state(s.drop_last());
            let cp = s.last();
            let (bars2, active2) = pairing_state(s);
            if exists|q: int| 0 <= q < active.len() && #[trigger] active[q].index + 1 == cp.index {
                exists|q: int|
                    0 <= q < active.len() && #[trigger] active[q].index + 1 == cp.index && (forall|r: int|
                        q < r < active.len() ==> #[trigger] active[r].index + 1 != cp.index) && bars2 == bars.push(
                        PersistenceBar {
                            dimension: active[q].index,
                            birth: active[q].value,
                            death: Some(cp.value),
                            birth_index: active[q].index,
                            death_index: Some(cp.index),
                        },
                    ) && active2 == active.remove(q)
            } else {
                bars2 == bars && active2 == active.push(cp)
            }
        }),
{
    let (bars, active) = pairing_state(s.drop_last());
    let cp = s.last();
    lemma_last_partner_latest(active, cp.index, active.len() as int);
    lemma_last_partner(active, cp.index, active.len() as int);
    match last_partner(active, cp.index, active.len() as int) {
        Some(q) => {
            assert(0 <= q < active.len() && active[q].index + 1 == cp.index);
        },
        None => {},
    }
}

proof fn lemma_last_partner_latest(active: Seq<CriticalPoint>, k: usize, m: int)
    requires
        0 <= m <= active.len(),
    ensures
        last_partner(active, k, m) matches Some(q) ==> forall|r: int| q < r < m ==> #[trigger] active[r].index + 1 != k,
    decreases m,
{
    if m > 0 {
        lemma_last_partner_latest(active, k, m - 1);
    }
}

} // verus!
