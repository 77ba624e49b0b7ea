//! The Euler characteristic counted three ways: from the critical points
//! by index, from the handles of a handlebody decomposition, and from the
//! cells of a Morse-Smale complex.

use vstd::prelude::*;
use crate::critical_point::CriticalPoint;
use crate::handlebody::{handle_count, handle_euler, index_sign, max_handle_index, Handle};
use crate::manifold::euler_sum;
use crate::morse_function::{index_count, index_counts, max_index};
use crate::morse_smale::{cell_count, cell_euler, cell_of, max_cell_dimension, MorseSmaleCell};

verus! {

/// `Σ_{k < upto} (-1)^k c(k)`.
pub open spec fn signed_counts(c: spec_fn(int) -> nat, upto: int) -> int
    decreases upto,
{
    if upto <= 0 {
        0
    } else {
        signed_counts(c, upto - 1) + if (upto - 1) % 2 == 0 { c(upto - 1) as int } else { -(c(upto - 1) as int) }
    }
}

proof fn lemma_signed_counts_bump(c1: spec_fn(int) -> nat, c2: spec_fn(int) -> nat, x: int, upto: int)
    requires
        forall|k: int| #[trigger] c2(k) == c1(k) + if k == x { 1nat } else { 0nat },
    ensures
        signed_counts(c2, upto) == signed_counts(c1, upto) + if 0 <= x < upto {
            if x % 2 == 0 { 1int } else { -1int }
        } else {
            0int
        },
    decreases upto,
{
    if upto > 0 {
        lemma_signed_counts_bump(c1, c2, x, upto - 1);
    }
}

proof fn lemma_signed_counts_ext(c1: spec_fn(int) -> nat, c2: spec_fn(int) -> nat, upto: int)
    requires
        forall|k: int| 0 <= k < upto ==> #[trigger] c1(k) == c2(k),
    ensures
        signed_counts(c1, upto) == signed_counts(c2, upto),
    decreases upto,
{
    if upto > 0 {
        lemma_signed_counts_ext(c1, c2, upto - 1);
    }
}

proof fn lemma_signed_counts_zero_tail(c: spec_fn(int) -> nat, from: int, upto: int)
    requires
        0 <= from <= upto,
        forall|k: int| from <= k < upto ==> #[trigger] c(k) == 0,
    ensures
        signed_counts(c, upto) == signed_counts(c, from),
    decreases upto - from,
{
    if upto > from {
        lemma_signed_counts_zero_tail(c, from, upto - 1);
    }
}

/// The handles' Euler sum is the alternating sum of their counts by index.
proof fn lemma_handle_euler_counts(hs: Seq<Handle>, upto: int)
    requires
        upto > max_handle_index(hs),
    ensures
        handle_euler(hs) == signed_counts(|k: int| handle_count(hs, k), upto),
    decreases hs.len(),
{
    if hs.len() == 0 {
        lemma_signed_counts_zero_tail(|k: int| handle_count(hs, k), 0, upto);
    } else {
        let rest = hs.drop_last();
        lemma_handle_euler_counts(rest, upto);
        lemma_signed_counts_bump(|k: int| handle_count(rest, k), |k: int| handle_count(hs, k), hs.last().index as int, upto);
    }
}

/// The cells' Euler sum is the alternating sum of their counts by dimension.
proof fn lemma_cell_euler_counts(cells: Seq<MorseSmaleCell>, upto: int)
    requires
        upto > max_cell_dimension(cells),
    ensures
        cell_euler(cells) == signed_counts(|d: int| cell_count(cells, d), upto),
    decreases cells.len(),
{
    if cells.len() == 0 {
        lemma_signed_counts_zero_tail(|d: int| cell_count(cells, d), 0, upto);
    } else {
        let rest = cells.drop_last();
        lemma_cell_euler_counts(rest, upto);
        lemma_signed_counts_bump(|d: int| cell_count(rest, d), |d: int| cell_count(cells, d), cells.last().dimension as int, upto);
    }
}

/// The alternating sum of the counts by index, as `euler_sum` computes it.
proof fn lemma_euler_sum_counts(cps: Seq<CriticalPoint>, m: int)
    requires
        cps.len() > 0,
        cps.len() <= i64::MAX,
        cps.len() <= usize::MAX,
        0 <= m <= max_index(cps) + 1,
    ensures
        euler_sum(index_counts(cps).take(m)) == signed_counts(|k: int| index_count(cps, k), m),
    decreases m,
{
    if m > 0 {
        lemma_euler_sum_counts(cps, m - 1);
        let s = index_counts(cps);
        assert(s.take(m).drop_last() =~= s.take(m - 1));
        crate::morse_function::lemma_index_count_bound(cps, m - 1);
        assert(s.take(m).last() == index_count(cps, m - 1));
    }
}

proof fn lemma_zero_beyond(cps: Seq<CriticalPoint>, from: int, upto: int)
    requires
        0 <= from <= upto,
        cps.len() == 0 || from > max_index(cps),
    ensures
        signed_counts(|k: int| index_count(cps, k), upto) == signed_counts(|k: int| index_count(cps, k), from),
{
    assert forall|k: int| from <= k < upto implies #[trigger] index_count(cps, k) == 0 by {
        if cps.len() > 0 {
            crate::morse_function::lemma_index_count_beyond_max(cps, k);
        }
    }
    lemma_signed_counts_zero_tail(|k: int| index_count(cps, k), from, upto);
}

/// `Σ_k (-1)^k μ_k` as the alternating sum of the counts up to any bound
/// past the largest index.
proof fn lemma_counts_euler(cps: Seq<CriticalPoint>, upto: int)
    requires
        cps.len() <= i64::MAX,
        cps.len() <= usize::MAX,
        upto >= 0,
        cps.len() == 0 || upto > max_index(cps),
    ensures
        euler_sum(index_counts(cps)) == signed_counts(|k: int| index_count(cps, k), upto),
{
    if cps.len() == 0 {
        lemma_zero_beyond(cps, 0, upto);
    } else {
        let m = max_index(cps) + 1;
        lemma_euler_sum_counts(cps, m);
        assert(index_counts(cps).take(m) =~= index_counts(cps));
        lemma_zero_beyond(cps, m, upto);
    }
}

proof fn lemma_max_from_counts(cps: Seq<CriticalPoint>, hs: Seq<Handle>)
    requires
        forall|k: int| #[trigger] handle_count(hs, k) == index_count(cps, k),
    ensures
        hs.len() > 0 ==> cps.len() > 0,
        forall|t: int| 0 <= t < hs.len() ==> cps.len() > 0 && (#[trigger] hs[t]).index <= max_index(cps),
{
    assert forall|t: int| 0 <= t < hs.len() implies cps.len() > 0 && (#[trigger] hs[t]).index <= max_index(cps) by {
        lemma_handle_count_positive(hs, t);
        if cps.len() == 0 || hs[t].index > max_index(cps) {
            if cps.len() > 0 {
                crate::morse_function::lemma_index_count_beyond_max(cps, hs[t].index as int);
            }
        }
    }
    if hs.len() > 0 {
        assert(cps.len() > 0 && hs[0].index <= max_index(cps));
    }
}

proof fn lemma_handle_count_positive(hs: Seq<Handle>, t: int)
    requires
        0 <= t < hs.len(),
    ensures
        handle_count(hs, hs[t].index as int) > 0,
    decreases hs.len(),
{
    if t < hs.len() - 1 {
        lemma_handle_count_positive(hs.drop_last(), t);
        assert(hs.drop_last()[t] == hs[t]);
    }
}

proof fn lemma_cell_counts(cps: Seq<CriticalPoint>, d: int)
    ensures
        cell_count(cps.map_values(|cp: CriticalPoint| cell_of(cp)), d) == index_count(cps, d),
    decreases cps.len(),
{
    if cps.len() > 0 {
        lemma_cell_counts(cps.drop_last(), d);
        assert(cps.map_values(|cp: CriticalPoint| cell_of(cp)).drop_last() =~= cps.drop_last().map_values(
            |cp: CriticalPoint| cell_of(cp),
        ));
    }
}

proof fn lemma_max_cell_dimension(cps: Seq<CriticalPoint>)
    ensures
        max_cell_dimension(cps.map_values(|cp: CriticalPoint| cell_of(cp))) == max_index(cps),
    decreases cps.len(),
{
    if cps.len() > 0 {
        lemma_max_cell_dimension(cps.drop_last());
        assert(cps.map_values(|cp: CriticalPoint| cell_of(cp)).drop_last() =~= cps.drop_last().map_values(
            |cp: CriticalPoint| cell_of(cp),
        ));
    }
}

proof fn lemma_max_handle_index_bound(hs: Seq<Handle>, bound: int)
    requires
        forall|t: int| 0 <= t < hs.len() ==> (#[trigger] hs[t]).index <= bound,
        bound >= 0,
    ensures
        max_handle_index(hs) <= bound,
    decreases hs.len(),
{
    if hs.len() > 0 {
        lemma_max_handle_index_bound(hs.drop_last(), bound);
    }
}

/// A handlebody decomposition with one k-handle per critical point of index
/// k has Euler characteristic `χ = Σ (-1)^k μ_k`.
pub proof fn law_handle_euler_matches_counts(hs: Seq<Handle>, cps: Seq<CriticalPoint>)
    requires
        forall|k: int| #[trigger] handle_count(hs, k) == index_count(cps, k),
        cps.len() <= i64::MAX,
        cps.len() <= usize::MAX,
    ensures
        handle_euler(hs) == euler_sum(index_counts(cps)),
{
    lemma_max_from_counts(cps, hs);
    let upto = if cps.len() == 0 { 1int } else { max_index(cps) + 1 };
    lemma_max_handle_index_bound(hs, upto - 1);
    lemma_handle_euler_counts(hs, upto);
    lemma_signed_counts_ext(|k: int| handle_count(hs, k), |k: int| index_count(cps, k), upto);
    lemma_counts_euler(cps, upto);
}

/// The Morse-Smale complex with one cell per critical point has Euler
/// characteristic `χ = Σ (-1)^k μ_k`.
pub proof fn law_cell_euler_matches_counts(cps: Seq<CriticalPoint>)
    requires
        cps.len() <= i64::MAX,
        cps.len() <= usize::MAX,
    ensures
        cell_euler(cps.map_values(|cp: CriticalPoint| cell_of(cp))) == euler_sum(index_counts(cps)),
{
    let cells = cps.map_values(|cp: CriticalPoint| cell_of(cp));
    lemma_max_cell_dimension(cps);
    let upto = max_index(cps) + 1;
    lemma_cell_euler_counts(cells, upto);
    assert forall|d: int| 0 <= d < upto implies #[trigger] cell_count(cells, d) == index_count(cps, d) by {
        lemma_cell_counts(cps, d);
    }
    lemma_signed_counts_ext(|d: int| cell_count(cells, d), |k: int| index_count(cps, k), upto);
    lemma_counts_euler(cps, upto);
}

} // verus!
