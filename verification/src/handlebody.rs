//! Handlebody decomposition from critical points: each critical point of
//! index k attaches a k-handle.

use vstd::prelude::*;
use crate::critical_point::CriticalPoint;
use crate::morse_function::{index_count, MorseFunction};
use crate::ordering::{sort_critical_points, stable_sort_of};

verus! {

/// A k-handle attached during handlebody decomposition.
#[derive(Clone, Copy, Debug, PartialEq, Eq, Structural)]
pub struct Handle {
    /// Index of the handle (dimension of the core disk).
    pub index: usize,
    /// The critical point that generates this handle.
    pub critical_point: CriticalPoint,
    /// Attachment sphere dimension (index - 1).
    pub attachment_sphere_dim: isize,
    /// Belt sphere dimension (n - index - 1).
    pub belt_sphere_dim: isize,
}

/// The handle that the critical point `cp` attaches in a manifold of
/// dimension `n`; a sphere of dimension -1 is empty.
pub open spec fn handle_of(cp: CriticalPoint, n: usize) -> Handle {
    Handle {
        index: cp.index,
        critical_point: cp,
        attachment_sphere_dim: if cp.index > 0 { (cp.index - 1) as isize } else { -1isize },
        belt_sphere_dim: if n > cp.index { (n - cp.index - 1) as isize } else { -1isize },
    }
}

/// `+1` for a handle of even index, `-1` for odd.
pub open spec fn index_sign(k: usize) -> int {
    if k % 2 == 0 { 1 } else { -1 }
}

/// The number of handles of index `k` in `hs`.
pub open spec fn handle_count(hs: Seq<Handle>, k: int) -> nat
    decreases hs.len(),
{
    if hs.len() == 0 {
        0
    } else {
        handle_count(hs.drop_last(), k) + if hs.last().index == k { 1nat } else { 0nat }
    }
}

/// The largest handle index in `hs` (0 when there is none).
pub open spec fn max_handle_index(hs: Seq<Handle>) -> usize
    decreases hs.len(),
{
    if hs.len() == 0 {
        0
    } else {
        let m = max_handle_index(hs.drop_last());
        if hs.last().index > m { hs.last().index } else { m }
    }
}

/// `Σ (-1)^index` over the handles of `hs`.
pub open spec fn handle_euler(hs: Seq<Handle>) -> int
    decreases hs.len(),
{
    if hs.len() == 0 {
        0
    } else {
        handle_euler(hs.drop_last()) + index_sign(hs.last().index)
    }
}

impl Handle {
    /// Create a handle from a critical point in an n-dimensional manifold.
    pub fn from_critical_point(cp: &CriticalPoint, n: usize) -> (h: Self)
        ensures
            h == handle_of(*cp, n),
    {
        let k = cp.index;
        Handle {
            index: k,
            critical_point: *cp,
            attachment_sphere_dim: if k > 0 {
                #[verifier::truncate]
                ((k - 1) as isize)
            } else {
                -1
            },
            belt_sphere_dim: if n > k {
                #[verifier::truncate]
                ((n - k - 1) as isize)
            } else {
                -1
            },
        }
    }

    /// Is this a 0-handle (corresponding to a minimum)?
    pub fn is_zero_handle(&self) -> (b: bool)
        ensures
            b == (self.index == 0),
    {
        self.index == 0
    }

    /// Is this an n-handle (corresponding to a maximum)?
    pub fn is_top_handle(&self, n: usize) -> (b: bool)
        ensures
            b == (self.index == n),
    {
        self.index == n
    }
}

/// A complete handlebody decomposition of a manifold.
pub struct HandlebodyDecomposition {
    /// Dimension of the manifold.
    pub dimension: usize,
    /// Handles, sorted by critical value then index.
    pub handles: Vec<Handle>,
}

/// The critical points of a sequence of handles.
pub open spec fn handle_points(hs: Seq<Handle>) -> Seq<CriticalPoint> {
    hs.map_values(|h: Handle| h.critical_point)
}

impl HandlebodyDecomposition {
    /// Construct a handlebody decomposition from a Morse function: one handle
    /// per critical point, in stable order of critical value, then index.
    pub fn from_morse_function(f: &MorseFunction) -> (hb: Self)
        ensures
            hb.dimension == f.dimension,
            stable_sort_of(handle_points(hb.handles@), f.critical_points@, true),
            forall|i: int|
                0 <= i < hb.handles@.len() ==> #[trigger] hb.handles@[i] == handle_of(
                    hb.handles@[i].critical_point,
                    f.dimension,
                ),
            forall|k: int| #[trigger] handle_count(hb.handles@, k) == index_count(f.critical_points@, k),
    {
        let n = f.dimension;
        let sorted = sort_critical_points(&f.critical_points, true);
        let mut handles: Vec<Handle> = Vec::new();
        let mut i: usize = 0;
        while i < sorted.len()
            invariant
                i <= sorted@.len(),
                handles@.len() == i,
                forall|t: int| 0 <= t < i ==> #[trigger] handles@[t] == handle_of(sorted@[t], n),
                forall|k: int| #[trigger] handle_count(handles@, k) == index_count(sorted@.take(i as int), k),
            decreases sorted@.len() - i,
        {
            let h = Handle::from_critical_point(&sorted[i], n);
            let ghost before = handles@;
            handles.push(h);
            proof {
                assert(handles@.drop_last() =~= before);
                assert(sorted@.take(i + 1).drop_last() =~= sorted@.take(i as int));
                assert forall|k: int| #[trigger] handle_count(handles@, k) == index_count(sorted@.take(i + 1), k) by {
                    assert(handle_count(handles@, k) == handle_count(before, k) + if h.index == k { 1nat } else { 0nat });
                    assert(index_count(sorted@.take(i + 1), k) == index_count(sorted@.take(i as int), k) + if sorted@[i as int].index == k { 1nat } else { 0nat });
                }
            }
            i = i + 1;
        }
        assert(sorted@.take(sorted@.len() as int) =~= sorted@);
        assert(handle_points(handles@) =~= sorted@);
        HandlebodyDecomposition { dimension: n, handles }
    }

    /// Handles of a specific index, in order.
    pub fn handles_of_index(&self, k: usize) -> (hs: Vec<Handle>)
        ensures
            hs@ == self.handles@.filter(|h: Handle| h.index == k),
    {
        let ghost p = |h: Handle| h.index == k;
        let mut out: Vec<Handle> = Vec::new();
        let mut i: usize = 0;
        while i < self.handles.len()
            invariant
                i <= self.handles@.len(),
                p == (|h: Handle| h.index == k),
                out@ == self.handles@.take(i as int).filter(p),
            decreases self.handles@.len() - i,
        {
            proof {
                self.handles@.take(i as int).lemma_filter_push(self.handles@[i as int], p);
                assert(self.handles@.take(i + 1) =~= self.handles@.take(i as int).push(self.handles@[i as int]));
            }
            if self.handles[i].index == k {
                out.push(self.handles[i]);
            }
            i = i + 1;
        }
        assert(self.handles@.take(self.handles@.len() as int) =~= self.handles@);
        out
    }

    /// Count of handles of each index, from 0 up to the largest index.
    pub fn handle_counts(&self) -> (counts: Vec<usize>)
        requires
            max_handle_index(self.handles@) < usize::MAX,
        ensures
            counts@ == Seq::new(
                (max_handle_index(self.handles@) + 1) as nat,
                |k: int| handle_count(self.handles@, k) as usize,
            ),
    {
        let ghost s = self.handles@;
        let mut max_idx: usize = 0;
        let mut i: usize = 0;
        while i < self.handles.len()
            invariant
                i <= s.len(),
                s == self.handles@,
                max_idx == max_handle_index(s.take(i as int)),
            decreases s.len() - i,
        {
            assert(s.take(i + 1).drop_last() =~= s.take(i as int));
            if self.handles[i].index > max_idx {
                max_idx = self.handles[i].index;
            }
            i = i + 1;
        }
        assert(s.take(s.len() as int) =~= s);
        proof {
            lemma_max_handle_index(s);
        }
        let mut counts: Vec<usize> = Vec::new();
        let mut z: usize = 0;
        while z <= max_idx
            invariant
                z <= max_idx + 1,
                max_idx < usize::MAX,
                counts@.len() == z,
                forall|k: int| 0 <= k < z ==> #[trigger] counts@[k] == 0,
            decreases max_idx + 1 - z,
        {
            counts.push(0);
            z = z + 1;
        }
        let mut j: usize = 0;
        while j < self.handles.len()
            invariant
                j <= s.len(),
                s == self.handles@,
                max_idx == max_handle_index(s),
                max_idx < usize::MAX,
                forall|t: int| 0 <= t < s.len() ==> #[trigger] s[t].index <= max_idx,
                counts@.len() == max_idx + 1,
                forall|k: int| 0 <= k <= max_idx ==> #[trigger] counts@[k] == handle_count(s.take(j as int), k),
            decreases s.len() - j,
        {
            let k = self.handles[j].index;
            proof {
                lemma_handle_count_bound(s.take(j as int), k as int);
            }
            let v = counts[k] + 1;
            counts.set(k, v);
            proof {
                assert forall|q: int| 0 <= q <= max_idx implies #[trigger] counts@[q] == handle_count(s.take(j + 1), q) by {
                    assert(s.take(j + 1).drop_last() =~= s.take(j as int));
                }
            }
            j = j + 1;
        }
        assert(s.take(s.len() as int) =~= s);
        proof {
            assert forall|k: int| 0 <= k <= max_idx implies (handle_count(s, k) as usize) == handle_count(s, k) by {
                lemma_handle_count_bound(s, k);
            }
        }
        assert(counts@ =~= Seq::new((max_idx + 1) as nat, |k: int| handle_count(s, k) as usize));
        counts
    }

    /// Number of k-handles.
    pub fn num_handles(&self, k: usize) -> (c: usize)
        ensures
            c == handle_count(self.handles@, k as int),
    {
        let hs = self.handles_of_index(k);
        proof {
            lemma_handle_count_filter(self.handles@, k);
        }
        hs.len()
    }

    /// The handles attached at critical values at most `value`, in order.
    pub fn sublevel_set(&self, value: i64) -> (hs: Vec<Handle>)
        ensures
            hs@ == self.handles@.filter(|h: Handle| h.critical_point.value <= value),
    {
        let ghost p = |h: Handle| h.critical_point.value <= value;
        let mut out: Vec<Handle> = Vec::new();
        let mut i: usize = 0;
        while i < self.handles.len()
            invariant
                i <= self.handles@.len(),
                p == (|h: Handle| h.critical_point.value <= value),
                out@ == self.handles@.take(i as int).filter(p),
            decreases self.handles@.len() - i,
        {
            proof {
                self.handles@.take(i as int).lemma_filter_push(self.handles@[i as int], p);
                assert(self.handles@.take(i + 1) =~= self.handles@.take(i as int).push(self.handles@[i as int]));
            }
            if self.handles[i].critical_point.value <= value {
                out.push(self.handles[i]);
            }
            i = i + 1;
        }
        assert(self.handles@.take(self.handles@.len() as int) =~= self.handles@);
        out
    }

    /// Euler characteristic from the handle decomposition:
    /// `χ = Σ (-1)^k · (number of k-handles)`.
    pub fn euler_characteristic(&self) -> (chi: i64)
        requires
            self.handles@.len() <= i64::MAX,
        ensures
            chi == handle_euler(self.handles@),
    {
        let ghost s = self.handles@;
        let mut acc: i64 = 0;
        let mut i: usize = 0;
        while i < self.handles.len()
            invariant
                i <= s.len(),
                s == self.handles@,
                s.len() <= i64::MAX,
                acc == handle_euler(s.take(i as int)),
                -i <= acc <= i,
            decreases s.len() - i,
        {
            assert(s.take(i + 1).drop_last() =~= s.take(i as int));
            if self.handles[i].index % 2 == 0 {
                acc = acc + 1;
            } else {
                acc = acc - 1;
            }
            i = i + 1;
        }
        assert(s.take(s.len() as int) =~= s);
        acc
    }

    /// Simplify by cancelling handle pairs: a k-handle cancels with the first
    /// later uncancelled (k+1)-handle. Returns the number of cancelled pairs
    /// and keeps the other handles in order.
    pub fn cancel_handle_pairs(&mut self) -> (canceled: usize)
        requires
            cancel_in_range(old(self).handles@),
        ensures
            final(self).dimension == old(self).dimension,
            canceled == cancel_marks(old(self).handles@, old(self).handles@.len() as int).1,
            final(self).handles@ == kept(
                old(self).handles@,
                cancel_marks(old(self).handles@, old(self).handles@.len() as int).0,
            ),
    {
        let ghost hs = self.handles@;
        let n = self.handles.len();
        let mut to_remove: Vec<bool> = Vec::new();
        let mut z: usize = 0;
        while z < n
            invariant
                z <= n,
                to_remove@ =~= Seq::new(z as nat, |t: int| false),
            decreases n - z,
        {
            to_remove.push(false);
            z = z + 1;
        }
        let mut canceled: usize = 0;
        let mut i: usize = 0;
        while i < n
            invariant
                i <= n,
                n == hs.len(),
                hs == self.handles@,
                cancel_in_range(hs),
                (to_remove@, canceled as nat) == cancel_marks(hs, i as int),
            decreases n - i,
        {
            proof {
                lemma_cancel_marks(hs, i as int);
                lemma_kept(hs, to_remove@);
            }
            if !to_remove[i] {
                let mut j: usize = i + 1;
                let ghost m = to_remove@;
                let ghost c0 = canceled;
                proof {
                    lemma_mark_count_bound(m, n as int);
                }
                let mut done = false;
                while j < n && !done
                    invariant
                        i < j <= n,
                        n == hs.len(),
                        hs == self.handles@,
                        cancel_in_range(hs),
                        cancel_marks(hs, i as int) == (m, c0 as nat),
                        !m[i as int],
                        m.len() == n,
                        2 * c0 <= n,
                        !done ==> to_remove@ == m && canceled == c0,
                        !done ==> first_partner(hs, m, i as int, i + 1) == first_partner(hs, m, i as int, j as int),
                        done ==> canceled == c0 + 1 && cancel_marks(hs, i + 1) == (to_remove@, canceled as nat),
                    decreases (n - j) as int + if done { 0int } else { 1int },
                {
                    let unmarked = !to_remove[j];
                    proof {
                        if unmarked {
                            assert(!cancel_marks(hs, i as int).0[j as int]);
                        }
                    }
                    if unmarked && self.handles[j].index == self.handles[i].index + 1 {
                        to_remove.set(i, true);
                        to_remove.set(j, true);
                        canceled = canceled + 1;
                        done = true;
                    } else {
                        j = j + 1;
                    }
                }
            }
            i = i + 1;
        }
        proof {
            lemma_cancel_marks(hs, n as int);
        }
        let ghost marks = to_remove@;
        let mut kept_handles: Vec<Handle> = Vec::new();
        let mut t: usize = 0;
        while t < n
            invariant
                t <= n,
                n == hs.len(),
                hs == self.handles@,
                marks == to_remove@,
                marks.len() == n,
                kept_handles@ == kept(hs.take(t as int), marks),
            decreases n - t,
        {
            assert(hs.take(t + 1).drop_last() =~= hs.take(t as int));
            if !to_remove[t] {
                kept_handles.push(self.handles[t]);
            }
            t = t + 1;
        }
        assert(hs.take(n as int) =~= hs);
        self.handles = kept_handles;
        canceled
    }

    /// The handles come in order of index.
    pub fn is_sorted_by_index(&self) -> (b: bool)
        ensures
            b == (forall|i: int|
                0 <= i < self.handles@.len() - 1 ==> #[trigger] self.handles@[i].index <= self.handles@[i + 1].index),
    {
        let n = self.handles.len();
        if n < 2 {
            return true;
        }
        let mut i: usize = 0;
        while i < n - 1
            invariant
                n == self.handles@.len(),
                n >= 2,
                forall|t: int| 0 <= t < i && t < self.handles@.len() - 1 ==> #[trigger] self.handles@[t].index <= self.handles@[t + 1].index,
            decreases self.handles@.len() - i,
        {
            if self.handles[i].index > self.handles[i + 1].index {
                return false;
            }
            i = i + 1;
        }
        true
    }
}

/// The first position at or after `j` of a handle not yet cancelled whose
/// index is one more than that of handle `i`.
pub open spec fn first_partner(hs: Seq<Handle>, marks: Seq<bool>, i: int, j: int) -> Option<int>
    decreases hs.len() - j,
{
    if j >= hs.len() || j < 0 {
        None
    } else if !marks[j] && hs[j].index == hs[i].index + 1 {
        Some(j)
    } else {
        first_partner(hs, marks, i, j + 1)
    }
}

/// The cancellation marks and the number of cancelled pairs after the first
/// `i` handles have been considered: each handle not yet cancelled cancels
/// with the first later uncancelled handle whose index is one more.
pub open spec fn cancel_marks(hs: Seq<Handle>, i: int) -> (Seq<bool>, nat)
    decreases i,
{
    if i <= 0 {
        (Seq::new(hs.len(), |t: int| false), 0)
    } else {
        let (m, c) = cancel_marks(hs, i - 1);
        let t = i - 1;
        if m[t] {
            (m, c)
        } else {
            match first_partner(hs, m, t, t + 1) {
                Some(j) => (m.update(t, true).update(j, true), c + 1),
                None => (m, c),
            }
        }
    }
}

/// The handles of `hs` whose mark is not set, in order.
pub open spec fn kept(hs: Seq<Handle>, marks: Seq<bool>) -> Seq<Handle>
    decreases hs.len(),
{
    if hs.len() == 0 {
        Seq::empty()
    } else {
        let rest = kept(hs.drop_last(), marks);
        if marks[hs.len() - 1] { rest } else { rest.push(hs.last()) }
    }
}

/// The number of set marks among the first `m`.
pub open spec fn mark_count(marks: Seq<bool>, m: int) -> nat
    decreases m,
{
    if m <= 0 {
        0
    } else {
        mark_count(marks, m - 1) + if marks[m - 1] { 1nat } else { 0nat }
    }
}

/// No handle still uncancelled when its turn comes has index `usize::MAX`
/// while an uncancelled handle follows it: the search for its partner never
/// has to form `usize::MAX + 1`.
pub open spec fn cancel_in_range(hs: Seq<Handle>) -> bool {
    forall|i: int, j: int|
        0 <= i < j < hs.len() && !cancel_marks(hs, i).0[i] && !#[trigger] cancel_marks(hs, i).0[j] ==> hs[i].index
            < usize::MAX
}

/// `Σ (-1)^index` over the marked handles among the first `m`.
pub open spec fn marked_euler(hs: Seq<Handle>, marks: Seq<bool>, m: int) -> int
    decreases m,
{
    if m <= 0 {
        0
    } else {
        marked_euler(hs, marks, m - 1) + if marks[m - 1] { index_sign(hs[m - 1].index) } else { 0 }
    }
}

proof fn lemma_first_partner(hs: Seq<Handle>, marks: Seq<bool>, i: int, j: int)
    requires
        0 <= j,
    ensures
        first_partner(hs, marks, i, j) matches Some(p) ==> j <= p < hs.len() && !marks[p] && hs[p].index
            == hs[i].index + 1,
    decreases hs.len() - j,
{
    if j < hs.len() && !(!marks[j] && hs[j].index == hs[i].index + 1) {
        lemma_first_partner(hs, marks, i, j + 1);
    }
}

proof fn lemma_mark_update(hs: Seq<Handle>, marks: Seq<bool>, t: int, m: int)
    requires
        0 <= t < marks.len(),
        !marks[t],
        0 <= m <= marks.len(),
    ensures
        mark_count(marks.update(t, true), m) == mark_count(marks, m) + if t < m { 1nat } else { 0nat },
        marked_euler(hs, marks.update(t, true), m) == marked_euler(hs, marks, m) + if t < m {
            index_sign(hs[t].index)
        } else {
            0
        },
    decreases m,
{
    if m > 0 {
        lemma_mark_update(hs, marks, t, m - 1);
    }
}

/// The marks come in cancelled pairs of adjacent indices: twice as many
/// marks as pairs, and the marked handles' signs cancel out.
proof fn lemma_cancel_marks(hs: Seq<Handle>, i: int)
    requires
        0 <= i <= hs.len(),
    ensures
        cancel_marks(hs, i).0.len() == hs.len(),
        mark_count(cancel_marks(hs, i).0, hs.len() as int) == 2 * cancel_marks(hs, i).1,
        marked_euler(hs, cancel_marks(hs, i).0, hs.len() as int) == 0,
    decreases i,
{
    if i <= 0 {
        lemma_no_marks(hs, Seq::new(hs.len(), |t: int| false), hs.len() as int);
    } else {
        lemma_cancel_marks(hs, i - 1);
        let (m, c) = cancel_marks(hs, i - 1);
        let t = i - 1;
        if !m[t] {
            lemma_first_partner(hs, m, t, t + 1);
            match first_partner(hs, m, t, t + 1) {
                Some(j) => {
                    let n = hs.len() as int;
                    lemma_mark_update(hs, m, t, n);
                    lemma_mark_update(hs, m.update(t, true), j, n);
                    assert(index_sign(hs[t].index) + index_sign(hs[j].index) == 0);
                },
                None => {},
            }
        }
    }
}

proof fn lemma_mark_count_bound(marks: Seq<bool>, m: int)
    requires
        0 <= m,
    ensures
        mark_count(marks, m) <= m,
    decreases m,
{
    if m > 0 {
        lemma_mark_count_bound(marks, m - 1);
    }
}

proof fn lemma_no_marks(hs: Seq<Handle>, marks: Seq<bool>, m: int)
    requires
        forall|t: int| 0 <= t < marks.len() ==> !marks[t],
        m <= marks.len(),
    ensures
        mark_count(marks, m) == 0,
        marked_euler(hs, marks, m) == 0,
    decreases m,
{
    if m > 0 {
        lemma_no_marks(hs, marks, m - 1);
    }
}

/// Splitting a sequence of handles into its kept and its marked ones: the
/// lengths and the Euler sums add up.
proof fn lemma_kept(hs: Seq<Handle>, marks: Seq<bool>)
    requires
        marks.len() >= hs.len(),
    ensures
        kept(hs, marks).len() + mark_count(marks, hs.len() as int) == hs.len(),
        handle_euler(kept(hs, marks)) + marked_euler(hs, marks, hs.len() as int) == handle_euler(hs),
    decreases hs.len(),
{
    if hs.len() > 0 {
        lemma_kept(hs.drop_last(), marks);
        lemma_marked_prefix(hs, marks, hs.len() - 1);
        let rest = kept(hs.drop_last(), marks);
        if !marks[hs.len() - 1] {
            assert(rest.push(hs.last()).drop_last() =~= rest);
        }
    }
}

/// The marked Euler sum of a prefix only looks at the prefix.
proof fn lemma_marked_prefix(hs: Seq<Handle>, marks: Seq<bool>, m: int)
    requires
        0 <= m < hs.len(),
    ensures
        marked_euler(hs.drop_last(), marks, m) == marked_euler(hs, marks, m),
    decreases m,
{
    if m > 0 {
        lemma_marked_prefix(hs, marks, m - 1);
    }
}

/// The attaching sphere (dimension `k - 1`) and the belt sphere (dimension
/// `n - k - 1`) of a k-handle in an n-manifold have dimensions adding up to
/// `n - 2`, with the empty sphere counted as dimension -1.
pub proof fn law_handle_spheres(cp: CriticalPoint, n: usize)
    requires
        cp.index <= n,
        n <= isize::MAX,
    ensures
        handle_of(cp, n).attachment_sphere_dim + handle_of(cp, n).belt_sphere_dim == n - 2,
        cp.index >= 1 ==> handle_of(cp, n).attachment_sphere_dim == cp.index - 1,
        cp.index < n ==> handle_of(cp, n).belt_sphere_dim == n - cp.index - 1,
        handle_of(cp, n).index == cp.index,
        handle_of(cp, n).critical_point == cp,
{
}

proof fn lemma_first_partner_at(hs: Seq<Handle>, marks: Seq<bool>, i: int, start: int, j: int)
    requires
        0 <= start <= j < hs.len(),
        !marks[j],
        hs[j].index == hs[i].index + 1,
        forall|t: int| start <= t < j ==> marks[t] || #[trigger] hs[t].index != hs[i].index + 1,
    ensures
        first_partner(hs, marks, i, start) == Some(j),
    decreases j - start,
{
    if start < j {
        lemma_first_partner_at(hs, marks, i, start + 1, j);
    }
}

proof fn lemma_first_partner_exists(hs: Seq<Handle>, marks: Seq<bool>, i: int, start: int, j: int)
    requires
        0 <= start <= j < hs.len(),
        !marks[j],
        hs[j].index == hs[i].index + 1,
    ensures
        first_partner(hs, marks, i, start) is Some,
    decreases j - start,
{
    if start < j && !(!marks[start] && hs[start].index == hs[i].index + 1) {
        lemma_first_partner_exists(hs, marks, i, start + 1, j);
    }
}

/// Marks once set stay set.
proof fn lemma_marks_grow(hs: Seq<Handle>, i: int, k: int)
    requires
        0 <= i <= k <= hs.len(),
    ensures
        forall|t: int| 0 <= t < hs.len() && #[trigger] cancel_marks(hs, i).0[t] ==> cancel_marks(hs, k).0[t],
    decreases k - i,
{
    if i < k {
        lemma_marks_grow(hs, i, k - 1);
        lemma_cancel_marks(hs, k - 1);
        let (m, c) = cancel_marks(hs, k - 1);
        let t0 = k - 1;
        if !m[t0] {
            lemma_first_partner(hs, m, t0, t0 + 1);
        }
    }
}

/// Greedy cancellation: when the turn of handle `i` comes and it is still
/// uncancelled, it cancels with the first later uncancelled handle `j` whose
/// index is one more (the very next handle, if that one qualifies). Exactly
/// those two are marked at this turn, the count of pairs goes up by one,
/// and neither handle is kept in the end.
pub proof fn law_cancel_with_first_later_partner(hs: Seq<Handle>, i: int, j: int)
    requires
        0 <= i < j < hs.len(),
        !cancel_marks(hs, i).0[i],
        !cancel_marks(hs, i).0[j],
        hs[j].index == hs[i].index + 1,
        forall|t: int| i < t < j ==> cancel_marks(hs, i).0[t] || #[trigger] hs[t].index != hs[i].index + 1,
    ensures
        cancel_marks(hs, i + 1).0 == cancel_marks(hs, i).0.update(i, true).update(j, true),
        cancel_marks(hs, i + 1).1 == cancel_marks(hs, i).1 + 1,
        cancel_marks(hs, hs.len() as int).0[i],
        cancel_marks(hs, hs.len() as int).0[j],
{
    lemma_first_partner_at(hs, cancel_marks(hs, i).0, i, i + 1, j);
    lemma_cancel_marks(hs, i);
    lemma_marks_grow(hs, i + 1, hs.len() as int);
    assert(cancel_marks(hs, i + 1).0[i]);
    assert(cancel_marks(hs, i + 1).0[j]);
}

/// A handle still uncancelled when its turn comes is cancelled whenever some
/// later uncancelled handle has index one more; otherwise it stays.
pub proof fn law_cancel_when_partner_exists(hs: Seq<Handle>, i: int)
    requires
        0 <= i < hs.len(),
        !cancel_marks(hs, i).0[i],
    ensures
        (exists|j: int|
            i < j < hs.len() && !cancel_marks(hs, i).0[j] && #[trigger] hs[j].index == hs[i].index + 1)
            ==> cancel_marks(hs, hs.len() as int).0[i],
        cancel_marks(hs, i + 1).0[i] ==> cancel_marks(hs, i + 1).1 == cancel_marks(hs, i).1 + 1,
{
    lemma_cancel_marks(hs, i);
    lemma_marks_grow(hs, i + 1, hs.len() as int);
    if exists|j: int| i < j < hs.len() && !cancel_marks(hs, i).0[j] && #[trigger] hs[j].index == hs[i].index + 1 {
        let j = choose|j: int| i < j < hs.len() && !cancel_marks(hs, i).0[j] && #[trigger] hs[j].index == hs[i].index + 1;
        lemma_first_partner_exists(hs, cancel_marks(hs, i).0, i, i + 1, j);
        lemma_first_partner(hs, cancel_marks(hs, i).0, i, i + 1);
        assert(cancel_marks(hs, i + 1).0[i]);
    }
}

/// Cancelling handle pairs removes exactly two handles per cancelled pair.
pub proof fn law_cancel_removes_two_per_pair(hs: Seq<Handle>)
    ensures
        kept(hs, cancel_marks(hs, hs.len() as int).0).len() + 2 * cancel_marks(hs, hs.len() as int).1 == hs.len(),
{
    lemma_cancel_marks(hs, hs.len() as int);
    lemma_kept(hs, cancel_marks(hs, hs.len() as int).0);
}

/// Cancelling a k-handle against a (k+1)-handle leaves the Euler
/// characteristic of the decomposition unchanged.
pub proof fn law_cancel_keeps_euler(hs: Seq<Handle>)
    ensures
        handle_euler(kept(hs, cancel_marks(hs, hs.len() as int).0)) == handle_euler(hs),
{
    lemma_cancel_marks(hs, hs.len() as int);
    lemma_kept(hs, cancel_marks(hs, hs.len() as int).0);
}

pub proof fn lemma_handle_count_bound(hs: Seq<Handle>, k: int)
    ensures
        handle_count(hs, k) <= hs.len(),
    decreases hs.len(),
{
    if hs.len() > 0 {
        lemma_handle_count_bound(hs.drop_last(), k);
    }
}

pub proof fn lemma_handle_count_filter(hs: Seq<Handle>, k: usize)
    ensures
        hs.filter(|h: Handle| h.index == k).len() == handle_count(hs, k as int),
    decreases hs.len(),
{
    if hs.len() > 0 {
        lemma_handle_count_filter(hs.drop_last(), k);
        hs.drop_last().lemma_filter_push(hs.last(), |h: Handle| h.index == k);
        assert(hs.drop_last().push(hs.last()) =~= hs);
    }
}

pub proof fn lemma_max_handle_index(hs: Seq<Handle>)
    ensures
        forall|i: int| 0 <= i < hs.len() ==> #[trigger] hs[i].index <= max_handle_index(hs),
    decreases hs.len(),
{
    if hs.len() > 0 {
        lemma_max_handle_index(hs.drop_last());
        assert forall|i: int| 0 <= i < hs.len() implies #[trigger] hs[i].index <= max_handle_index(hs) by {
            if i < hs.len() - 1 {
                assert(hs[i] == hs.drop_last()[i]);
            }
        }
    }
}

} // verus!
