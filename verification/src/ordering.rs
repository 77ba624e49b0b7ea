//! Stable ordering of critical points by critical value.

use vstd::prelude::*;
use crate::critical_point::CriticalPoint;
use crate::morse_function::index_count;

verus! {

/// `a` comes no later than `b` when ordering by value, and then (when
/// `by_index`) by index.
pub open spec fn key_le(a: CriticalPoint, b: CriticalPoint, by_index: bool) -> bool {
    a.value < b.value || (a.value == b.value && (!by_index || a.index <= b.index))
}

/// The points that order level with `c`: the same value and, when
/// `by_index`, the same index.
pub open spec fn same_key(c: CriticalPoint, by_index: bool) -> spec_fn(CriticalPoint) -> bool {
    |x: CriticalPoint| x.value == c.value && (!by_index || x.index == c.index)
}

/// `s` is ordered by value (then by index, when `by_index`).
pub open spec fn sorted_by_key(s: Seq<CriticalPoint>, by_index: bool) -> bool {
    forall|i: int, j: int| 0 <= i < j < s.len() ==> key_le(#[trigger] s[i], #[trigger] s[j], by_index)
}

/// `out` is the stable sort of `inp`: it is ordered, and the points of each
/// level come in the order they had in `inp`.
pub open spec fn stable_sort_of(out: Seq<CriticalPoint>, inp: Seq<CriticalPoint>, by_index: bool) -> bool {
    &&& out.len() == inp.len()
    &&& sorted_by_key(out, by_index)
    &&& forall|c: CriticalPoint| #[trigger] out.filter(same_key(c, by_index)) == inp.filter(same_key(c, by_index))
}

/// The stable sort of `inp` by value (then by index, when `by_index`).
pub open spec fn sorted_by_value(inp: Seq<CriticalPoint>, by_index: bool) -> Seq<CriticalPoint> {
    choose|s: Seq<CriticalPoint>| stable_sort_of(s, inp, by_index)
}

proof fn lemma_filter_last(s: Seq<CriticalPoint>, p: spec_fn(CriticalPoint) -> bool)
    requires
        s.len() > 0,
    ensures
        s.filter(p) == if p(s.last()) { s.drop_last().filter(p).push(s.last()) } else { s.drop_last().filter(p) },
{
    s.drop_last().lemma_filter_push(s.last(), p);
    assert(s.drop_last().push(s.last()) =~= s);
}

proof fn lemma_filter_member(s: Seq<CriticalPoint>, p: spec_fn(CriticalPoint) -> bool, x: CriticalPoint)
    requires
        s.filter(p).contains(x),
    ensures
        p(x),
        s.contains(x),
{
    broadcast use Seq::lemma_filter_contains_rev, Seq::lemma_filter_pred;
    let i = choose|i: int| 0 <= i < s.filter(p).len() && s.filter(p)[i] == x;
    assert(p(s.filter(p)[i]));
}

/// Two ordered sequences whose levels hold the same points in the same
/// order are equal.
pub proof fn lemma_sorted_same_levels_equal(a: Seq<CriticalPoint>, b: Seq<CriticalPoint>, by_index: bool)
    requires
        sorted_by_key(a, by_index),
        sorted_by_key(b, by_index),
        forall|c: CriticalPoint| #[trigger] a.filter(same_key(c, by_index)) == b.filter(same_key(c, by_index)),
    ensures
        a == b,
    decreases a.len() + b.len(),
{
    broadcast use Seq::lemma_filter_contains;
    if a.len() == 0 && b.len() == 0 {
        assert(a =~= b);
    } else if a.len() == 0 {
        let y = b.last();
        lemma_filter_last(b, same_key(y, by_index));
        reveal(Seq::filter);
        assert(a.filter(same_key(y, by_index)).len() == 0);
    } else if b.len() == 0 {
        let x = a.last();
        lemma_filter_last(a, same_key(x, by_index));
        reveal(Seq::filter);
        assert(b.filter(same_key(x, by_index)).len() == 0);
    } else {
        let x = a.last();
        let y = b.last();
        let px = same_key(x, by_index);
        let py = same_key(y, by_index);
        lemma_filter_last(a, px);
        lemma_filter_last(b, py);
        assert(a.filter(px).contains(x));
        assert(b.filter(py).contains(y));
        assert(b.filter(px).contains(x));
        assert(a.filter(py).contains(y));
        lemma_filter_member(b, px, x);
        lemma_filter_member(a, py, y);
        let tb = choose|t: int| 0 <= t < b.len() && b[t] == x;
        let ta = choose|t: int| 0 <= t < a.len() && a[t] == y;
        if tb < b.len() - 1 {
            assert(key_le(b[tb], b[b.len() - 1], by_index));
        }
        if ta < a.len() - 1 {
            assert(key_le(a[ta], a[a.len() - 1], by_index));
        }
        assert(px(y));
        assert(px(x));
        lemma_filter_last(b, px);
        assert(a.filter(px) == b.filter(px));
        assert(a.filter(px) == a.drop_last().filter(px).push(x));
        assert(b.filter(px) == b.drop_last().filter(px).push(y));
        assert(a.filter(px).last() == x);
        assert(x == y);
        assert forall|c: CriticalPoint| #[trigger] a.drop_last().filter(same_key(c, by_index)) == b.drop_last().filter(
            same_key(c, by_index),
        ) by {
            let pc = same_key(c, by_index);
            lemma_filter_last(a, pc);
            lemma_filter_last(b, pc);
            assert(a.filter(pc) == b.filter(pc));
            if pc(x) {
                assert(a.drop_last().filter(pc) =~= a.filter(pc).drop_last());
                assert(b.drop_last().filter(pc) =~= b.filter(pc).drop_last());
            }
        }
        lemma_sorted_same_levels_equal(a.drop_last(), b.drop_last(), by_index);
        assert(a =~= a.drop_last().push(x));
        assert(b =~= b.drop_last().push(y));
    }
}

/// A sequence has exactly one stable sort.
pub proof fn law_stable_sort_unique(a: Seq<CriticalPoint>, b: Seq<CriticalPoint>, inp: Seq<CriticalPoint>, by_index: bool)
    requires
        stable_sort_of(a, inp, by_index),
        stable_sort_of(b, inp, by_index),
    ensures
        a == b,
{
    assert forall|c: CriticalPoint| #[trigger] a.filter(same_key(c, by_index)) == b.filter(same_key(c, by_index)) by {
        assert(a.filter(same_key(c, by_index)) == inp.filter(same_key(c, by_index)));
        assert(b.filter(same_key(c, by_index)) == inp.filter(same_key(c, by_index)));
    }
    lemma_sorted_same_levels_equal(a, b, by_index);
}

/// `cps[i]` is the earliest of the critical points of least value.
pub open spec fn first_lowest(cps: Seq<CriticalPoint>, i: int) -> bool {
    &&& 0 <= i < cps.len()
    &&& forall|j: int| 0 <= j < cps.len() ==> cps[i].value <= #[trigger] cps[j].value
    &&& forall|j: int| 0 <= j < i ==> #[trigger] cps[j].value != cps[i].value
}

/// The first element of a filter is the first element that passes it.
proof fn lemma_filter_first(s: Seq<CriticalPoint>, p: spec_fn(CriticalPoint) -> bool) -> (i: int)
    requires
        s.filter(p).len() > 0,
    ensures
        0 <= i < s.len(),
        p(s[i]),
        forall|j: int| 0 <= j < i ==> !p(#[trigger] s[j]),
        s.filter(p)[0] == s[i],
    decreases s.len(),
{
    if s.len() == 0 {
        reveal(Seq::filter);
        assert(false);
        0
    } else {
        let rest = s.skip(1);
        assert(s =~= seq![s[0]] + rest);
        rest.lemma_filter_prepend(s[0], p);
        if p(s[0]) {
            0
        } else {
            assert(s.filter(p) =~= rest.filter(p));
            let k = lemma_filter_first(rest, p);
            assert forall|j: int| 0 <= j < k + 1 implies !p(#[trigger] s[j]) by {
                if j > 0 {
                    assert(s[j] == rest[j - 1]);
                }
            }
            k + 1
        }
    }
}

/// The first point of the stable sort by value is the earliest critical
/// point of least value.
pub proof fn lemma_sorted_first(cps: Seq<CriticalPoint>, s: Seq<CriticalPoint>)
    requires
        stable_sort_of(s, cps, false),
        s.len() > 0,
    ensures
        exists|i: int| first_lowest(cps, i) && s[0] == cps[i],
{
    broadcast use Seq::lemma_filter_contains;
    let x = s[0];
    let p = same_key(x, false);
    let rest = s.skip(1);
    assert(s =~= seq![x] + rest);
    rest.lemma_filter_prepend(x, p);
    assert(s.filter(p)[0] == x);
    assert(cps.filter(p) == s.filter(p));
    let i = lemma_filter_first(cps, p);
    assert forall|j: int| 0 <= j < cps.len() implies cps[i].value <= #[trigger] cps[j].value by {
        let q = same_key(cps[j], false);
        assert(cps.filter(q).contains(cps[j]));
        assert(s.filter(q) == cps.filter(q));
        lemma_filter_member(s, q, cps[j]);
        let t = choose|t: int| 0 <= t < s.len() && s[t] == cps[j];
        if t > 0 {
            assert(key_le(s[0], s[t], false));
        }
    }
    assert(first_lowest(cps, i));
}

pub proof fn lemma_index_count_add(a: Seq<CriticalPoint>, b: Seq<CriticalPoint>, k: int)
    ensures
        index_count(a + b, k) == index_count(a, k) + index_count(b, k),
    decreases b.len(),
{
    if b.len() > 0 {
        assert((a + b).drop_last() =~= a + b.drop_last());
        lemma_index_count_add(a, b.drop_last(), k);
    } else {
        assert(a + b =~= a);
    }
}

pub proof fn lemma_index_count_insert(s: Seq<CriticalPoint>, pos: int, x: CriticalPoint, k: int)
    requires
        0 <= pos <= s.len(),
    ensures
        index_count(s.insert(pos, x), k) == index_count(s, k) + if x.index == k { 1nat } else { 0nat },
{
    let a = s.subrange(0, pos);
    let b = s.subrange(pos, s.len() as int);
    assert(s =~= a + b);
    lemma_index_count_add(a, b, k);
    assert(a.push(x).drop_last() =~= a);
    lemma_index_count_add(a.push(x), b, k);
}

/// The critical points in stable order of value (then of index, when
/// `by_index`).
pub fn sort_critical_points(cps: &Vec<CriticalPoint>, by_index: bool) -> (out: Vec<CriticalPoint>)
    ensures
        stable_sort_of(out@, cps@, by_index),
        out@ == sorted_by_value(cps@, by_index),
        forall|k: int| #[trigger] index_count(out@, k) == index_count(cps@, k),
{
    let mut out: Vec<CriticalPoint> = Vec::new();
    let mut i: usize = 0;
    while i < cps.len()
        invariant
            i <= cps.len(),
            out@.len() == i,
            sorted_by_key(out@, by_index),
            forall|c: CriticalPoint| #[trigger] out@.filter(same_key(c, by_index)) == cps@.take(i as int).filter(same_key(c, by_index)),
            forall|k: int| #[trigger] index_count(out@, k) == index_count(cps@.take(i as int), k),
        decreases cps.len() - i,
    {
        let h = cps[i];
        let mut pos: usize = 0;
        while pos < out.len() && key_le_exec(&out[pos], &h, by_index)
            invariant
                pos <= out@.len(),
                forall|t: int| 0 <= t < pos ==> key_le(#[trigger] out@[t], h, by_index),
            decreases out@.len() - pos,
        {
            pos = pos + 1;
        }
        let ghost old_out = out@;
        proof {
            assert forall|t: int| pos <= t < old_out.len() implies !key_le(#[trigger] old_out[t], h, by_index) by {
                assert(key_le(old_out[pos as int], old_out[t], by_index) || t == pos);
            }
        }
        out.insert(pos, h);
        proof {
            let a = old_out.subrange(0, pos as int);
            let b = old_out.subrange(pos as int, old_out.len() as int);
            assert(old_out =~= a + b);
            assert(out@ =~= a.push(h) + b);
            assert(cps@.take(i + 1) =~= cps@.take(i as int).push(h));
            old_out.insert_ensures(pos as int, h);
            assert forall|p: int, q: int| 0 <= p < q < out@.len() implies key_le(#[trigger] out@[p], #[trigger] out@[q], by_index) by {
                if q < pos {
                    assert(out@[p] == old_out[p] && out@[q] == old_out[q]);
                } else if q == pos {
                    assert(out@[p] == old_out[p]);
                } else if p < pos {
                    assert(out@[p] == old_out[p] && out@[q] == old_out[q - 1]);
                } else if p == pos {
                    assert(out@[q] == old_out[q - 1]);
                } else {
                    assert(out@[p] == old_out[p - 1] && out@[q] == old_out[q - 1]);
                }
            }
            assert forall|c: CriticalPoint| #[trigger] out@.filter(same_key(c, by_index)) == cps@.take(i + 1).filter(same_key(c, by_index)) by {
                let f = same_key(c, by_index);
                Seq::filter_distributes_over_add(a.push(h), b, f);
                Seq::filter_distributes_over_add(a, b, f);
                a.lemma_filter_push(h, f);
                cps@.take(i as int).lemma_filter_push(h, f);
                if f(h) {
                    assert forall|t: int| 0 <= t < b.len() implies !f(#[trigger] b[t]) by {
                        assert(b[t] == old_out[pos + t]);
                    }
                    b.lemma_all_neg_filter_empty(f);
                    assert(b.filter(f) =~= Seq::<CriticalPoint>::empty());
                    assert(a.filter(f) + b.filter(f) =~= a.filter(f));
                    assert(a.filter(f).push(h) + b.filter(f) =~= a.filter(f).push(h));
                }
            }
            assert forall|k: int| #[trigger] index_count(out@, k) == index_count(cps@.take(i + 1), k) by {
                lemma_index_count_insert(old_out, pos as int, h, k);
                assert(cps@.take(i + 1).drop_last() =~= cps@.take(i as int));
            }
        }
        i = i + 1;
    }
    assert(cps@.take(cps.len() as int) =~= cps@);
    proof {
        assert(stable_sort_of(out@, cps@, by_index));
        law_stable_sort_unique(out@, sorted_by_value(cps@, by_index), cps@, by_index);
    }
    out
}

fn key_le_exec(a: &CriticalPoint, b: &CriticalPoint, by_index: bool) -> (r: bool)
    ensures
        r == key_le(*a, *b, by_index),
{
    a.value < b.value || (a.value == b.value && (!by_index || a.index <= b.index))
}

} // verus!
