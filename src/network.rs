//! The bitonic network as spec functions over sequences, and the proofs that
//! it sorts and only permutes.
use vstd::prelude::*;
use vstd::arithmetic::power2::is_pow2;
use vstd::seq_lib::{group_to_multiset_ensures, lemma_multiset_commutative, to_multiset_len, to_multiset_remove, to_multiset_update};
use core::cmp::Ordering;
use crate::order::{above, then_with, lemma_above_step, lemma_asymmetric, lemma_flip, lemma_irreflexive, total_order};
use crate::zero_one::{bitonic01, interval_form, lemma_falling_split, lemma_half_clean01, lemma_rising_split, lower_half, rising, falling, upper_half};

verus! {

/// Which of `a` and `b` a compare-exchange keeps in the lower position.
pub open spec fn lower_of<T>(c: spec_fn(T, T) -> Ordering, forward: bool, a: T, b: T) -> T {
    if above(c, forward, a, b) {
        b
    } else {
        a
    }
}

/// Which of `a` and `b` a compare-exchange puts in the upper position.
pub open spec fn upper_of<T>(c: spec_fn(T, T) -> Ordering, forward: bool, a: T, b: T) -> T {
    if above(c, forward, a, b) {
        a
    } else {
        b
    }
}

/// `s` after compare-exchanging the first `k` pairs `(i, i + s.len() / 2)`.
pub open spec fn clean_prefix<T>(c: spec_fn(T, T) -> Ordering, forward: bool, s: Seq<T>, k: int) -> Seq<T> {
    let h = s.len() / 2;
    Seq::new(
        s.len(),
        |i: int|
            if i < k && i < h {
                lower_of(c, forward, s[i], s[i + h])
            } else if h <= i && i < h + k && i < 2 * h {
                upper_of(c, forward, s[i - h], s[i])
            } else {
                s[i]
            },
    )
}

/// One compare-exchange pass across the middle of `s`.
pub open spec fn half_clean<T>(c: spec_fn(T, T) -> Ordering, forward: bool, s: Seq<T>) -> Seq<T> {
    clean_prefix(c, forward, s, (s.len() / 2) as int)
}

/// The bitonic merger: a pass across the middle, then each half merged alike.
pub open spec fn merge<T>(c: spec_fn(T, T) -> Ordering, forward: bool, s: Seq<T>) -> Seq<T>
    decreases s.len(),
{
    if s.len() <= 1 {
        s
    } else {
        let t = half_clean(c, forward, s);
        let h = s.len() / 2;
        merge(c, forward, t.subrange(0, h as int)) + merge(c, forward, t.subrange(h as int, s.len() as int))
    }
}

/// The bitonic builder: the first half built forward, the second backward,
/// then the whole merged in direction `forward`.
pub open spec fn build<T>(c: spec_fn(T, T) -> Ordering, forward: bool, s: Seq<T>) -> Seq<T>
    decreases s.len(),
{
    if s.len() <= 1 {
        s
    } else {
        let h = s.len() / 2;
        merge(
            c,
            forward,
            build(c, true, s.subrange(0, h as int)) + build(c, false, s.subrange(h as int, s.len() as int)),
        )
    }
}

/// What the sorter makes of `s` under the order `c`.
pub open spec fn bitonic_sort<T>(c: spec_fn(T, T) -> Ordering, s: Seq<T>) -> Seq<T> {
    build(c, true, s)
}

/// `s` is sorted by `c`, ascending when `forward`, descending otherwise.
pub open spec fn sorted_by<T>(c: spec_fn(T, T) -> Ordering, forward: bool, s: Seq<T>) -> bool {
    forall|i: int, j: int| 0 <= i < j < s.len() ==> !above(c, forward, #[trigger] s[i], #[trigger] s[j])
}

/// Which elements of `s` lie above the pivot `p`.
pub open spec fn pattern<T>(c: spec_fn(T, T) -> Ordering, forward: bool, s: Seq<T>, p: T) -> Seq<bool> {
    Seq::new(s.len(), |i: int| above(c, forward, s[i], p))
}

/// Against every pivot, `s` rises and falls at most once.
pub open spec fn bitonic<T>(c: spec_fn(T, T) -> Ordering, forward: bool, s: Seq<T>) -> bool {
    forall|p: T| bitonic01(#[trigger] pattern(c, forward, s, p))
}

proof fn lemma_swap_multiset<T>(s: Seq<T>, i: int, j: int)
    requires
        0 <= i < s.len(),
        0 <= j < s.len(),
        i != j,
    ensures
        s.update(i, s[j]).update(j, s[i]).to_multiset() =~= s.to_multiset(),
{
    broadcast use group_to_multiset_ensures, vstd::multiset::group_multiset_axioms;

    let s1 = s.update(i, s[j]);
    assert(s.contains(s[i]));
    assert(s1[i] == s[j]);
    assert(s1.contains(s[j]));
    to_multiset_update(s, i, s[j]);
    to_multiset_update(s1, j, s[i]);
    assert(s1[j] == s[j]);
}

/// A compare-exchange pass only permutes.
pub proof fn lemma_half_clean_multiset<T>(c: spec_fn(T, T) -> Ordering, forward: bool, s: Seq<T>, k: int)
    requires
        0 <= k <= s.len() / 2,
    ensures
        clean_prefix(c, forward, s, k).to_multiset() =~= s.to_multiset(),
    decreases k,
{
    if k == 0 {
        assert(clean_prefix(c, forward, s, 0) =~= s);
    } else {
        let h = s.len() / 2;
        let prev = clean_prefix(c, forward, s, k - 1);
        lemma_half_clean_multiset(c, forward, s, k - 1);
        let i = k - 1;
        if above(c, forward, s[i], s[i + h]) {
            assert(prev[i] == s[i] && prev[i + h] == s[i + h]);
            assert(clean_prefix(c, forward, s, k) =~= prev.update(i, prev[i + h]).update(i + h, prev[i]));
            lemma_swap_multiset(prev, i, i + h);
        } else {
            assert(clean_prefix(c, forward, s, k) =~= prev);
        }
    }
}

/// The merger only permutes.
pub proof fn lemma_merge_multiset<T>(c: spec_fn(T, T) -> Ordering, forward: bool, s: Seq<T>)
    ensures
        merge(c, forward, s).to_multiset() =~= s.to_multiset(),
        merge(c, forward, s).len() == s.len(),
    decreases s.len(),
{
    broadcast use group_to_multiset_ensures;

    if s.len() > 1 {
        let t = half_clean(c, forward, s);
        let h = s.len() / 2;
        let lo = t.subrange(0, h as int);
        let hi = t.subrange(h as int, s.len() as int);
        lemma_half_clean_multiset(c, forward, s, h as int);
        lemma_merge_multiset(c, forward, lo);
        lemma_merge_multiset(c, forward, hi);
        lemma_multiset_commutative(merge(c, forward, lo), merge(c, forward, hi));
        lemma_multiset_commutative(lo, hi);
        assert(lo + hi =~= t);
    }
}

/// The builder only permutes.
pub proof fn lemma_build_multiset<T>(c: spec_fn(T, T) -> Ordering, forward: bool, s: Seq<T>)
    ensures
        build(c, forward, s).to_multiset() =~= s.to_multiset(),
        build(c, forward, s).len() == s.len(),
    decreases s.len(),
{
    broadcast use group_to_multiset_ensures;

    if s.len() > 1 {
        let h = s.len() / 2;
        let lo = s.subrange(0, h as int);
        let hi = s.subrange(h as int, s.len() as int);
        let a = build(c, true, lo);
        let b = build(c, false, hi);
        lemma_build_multiset(c, true, lo);
        lemma_build_multiset(c, false, hi);
        lemma_merge_multiset(c, forward, a + b);
        lemma_multiset_commutative(a, b);
        lemma_multiset_commutative(lo, hi);
        assert(lo + hi =~= s);
    }
}

/// Against any pivot, the lower half after a pass is the "and" of the two
/// halves before it, and the upper half their "or".
proof fn lemma_half_patterns<T>(c: spec_fn(T, T) -> Ordering, forward: bool, s: Seq<T>, p: T)
    requires
        total_order(c),
        s.len() % 2 == 0,
    ensures
        pattern(c, forward, half_clean(c, forward, s).subrange(0, (s.len() / 2) as int), p) =~= lower_half(
            pattern(c, forward, s, p),
        ),
        pattern(c, forward, half_clean(c, forward, s).subrange((s.len() / 2) as int, s.len() as int), p)
            =~= upper_half(pattern(c, forward, s, p)),
{
    let h = s.len() / 2;
    let b = pattern(c, forward, s, p);
    assert forall|k: int| #![trigger b[k]] 0 <= k < h implies (above(c, forward, lower_of(c, forward, s[k], s[k + h]), p)
        == (b[k] && b[k + h])) && (above(c, forward, upper_of(c, forward, s[k], s[k + h]), p) == (b[k]
        || b[k + h])) by {
        let x = s[k];
        let y = s[k + h];
        if above(c, forward, x, y) {
            lemma_asymmetric(c, forward, x, y);
            if above(c, forward, y, p) {
                lemma_above_step(c, forward, y, x, p);
            }
        } else {
            if above(c, forward, x, p) {
                lemma_above_step(c, forward, x, y, p);
            }
        }
    }
}

/// Against any pivot, a run sorted in the pivot's own direction rises, and
/// one sorted the other way falls.
pub proof fn lemma_pattern_of_sorted<T>(c: spec_fn(T, T) -> Ordering, d: bool, e: bool, s: Seq<T>, p: T)
    requires
        total_order(c),
        sorted_by(c, d, s),
    ensures
        d == e ==> rising(pattern(c, e, s, p)),
        d != e ==> falling(pattern(c, e, s, p)),
{
    let b = pattern(c, e, s, p);
    if d == e {
        assert forall|i: int, j: int| 0 <= i < j < b.len() && #[trigger] b[i] implies #[trigger] b[j] by {
            assert(!above(c, d, s[i], s[j]));
            lemma_above_step(c, e, s[i], s[j], p);
        }
    } else {
        assert forall|i: int, j: int| 0 <= i < j < b.len() && #[trigger] b[j] implies #[trigger] b[i] by {
            assert(!above(c, d, s[i], s[j]));
            lemma_flip(c, e, s[i], s[j]);
            lemma_above_step(c, e, s[j], s[i], p);
        }
    }
}

proof fn lemma_merge_step<T>(c: spec_fn(T, T) -> Ordering, forward: bool, s: Seq<T>, p: T)
    requires
        total_order(c),
        s.len() % 2 == 0,
        bitonic(c, forward, s),
    ensures
        ({
            let h = s.len() / 2;
            let t = half_clean(c, forward, s);
            let lo = pattern(c, forward, t.subrange(0, h as int), p);
            let hi = pattern(c, forward, t.subrange(h as int, s.len() as int), p);
            &&& bitonic01(lo)
            &&& bitonic01(hi)
            &&& (forall|k: int| 0 <= k < h ==> !#[trigger] lo[k]) || (forall|k: int|
                0 <= k < h ==> #[trigger] hi[k])
        }),
{
    let b = pattern(c, forward, s, p);
    assert(bitonic01(b));
    lemma_half_clean01(b);
    lemma_half_patterns(c, forward, s, p);
}

/// A sequence with each neighbouring pair in order is sorted.
pub proof fn lemma_sorted_from_adjacent<T>(c: spec_fn(T, T) -> Ordering, forward: bool, s: Seq<T>)
    requires
        total_order(c),
        forall|k: int| 0 <= k < s.len() - 1 ==> !above(c, forward, #[trigger] s[k], s[k + 1]),
    ensures
        sorted_by(c, forward, s),
{
    assert forall|i: int, j: int| 0 <= i < j < s.len() implies !above(c, forward, #[trigger] s[i], #[trigger] s[j]) by {
        lemma_adjacent_chain(c, forward, s, i, j);
    }
}

proof fn lemma_adjacent_chain<T>(c: spec_fn(T, T) -> Ordering, forward: bool, s: Seq<T>, i: int, j: int)
    requires
        total_order(c),
        forall|k: int| 0 <= k < s.len() - 1 ==> !above(c, forward, #[trigger] s[k], s[k + 1]),
        0 <= i < j < s.len(),
    ensures
        !above(c, forward, s[i], s[j]),
    decreases j - i,
{
    if j > i + 1 {
        lemma_adjacent_chain(c, forward, s, i, j - 1);
        assert(!above(c, forward, s[j - 1], s[j]));
        if above(c, forward, s[i], s[j]) {
            lemma_above_step(c, forward, s[i], s[j - 1], s[j]);
        }
    }
}

/// The merger sorts every bitonic sequence whose length is a power of two.
pub proof fn lemma_merge_sorted<T>(c: spec_fn(T, T) -> Ordering, forward: bool, s: Seq<T>)
    requires
        total_order(c),
        is_pow2(s.len() as int),
        bitonic(c, forward, s),
    ensures
        sorted_by(c, forward, merge(c, forward, s)),
    decreases s.len(),
{
    broadcast use group_to_multiset_ensures;

    if s.len() > 1 {
        reveal(is_pow2);
        let n = s.len() as int;
        let h = n / 2;
        let t = half_clean(c, forward, s);
        let lo = t.subrange(0, h);
        let hi = t.subrange(h, n);
        assert forall|p: T| bitonic01(#[trigger] pattern(c, forward, lo, p)) by {
            lemma_merge_step(c, forward, s, p);
        }
        assert forall|p: T| bitonic01(#[trigger] pattern(c, forward, hi, p)) by {
            lemma_merge_step(c, forward, s, p);
        }
        lemma_merge_sorted(c, forward, lo);
        lemma_merge_sorted(c, forward, hi);
        lemma_merge_multiset(c, forward, lo);
        lemma_merge_multiset(c, forward, hi);
        let ml = merge(c, forward, lo);
        let mh = merge(c, forward, hi);
        let m = ml + mh;
        assert(merge(c, forward, s) == m);
        assert forall|i: int, j: int| 0 <= i < j < n implies !above(c, forward, #[trigger] m[i], #[trigger] m[j]) by {
            if j < h {
                assert(m[i] == ml[i] && m[j] == ml[j]);
            } else if i >= h {
                assert(m[i] == mh[i - h] && m[j] == mh[j - h]);
            } else {
                let x = ml[i];
                let y = mh[j - h];
                assert(m[i] == x && m[j] == y);
                if above(c, forward, x, y) {
                    lemma_merge_step(c, forward, s, y);
                    assert(ml.contains(x));
                    assert(lo.to_multiset().count(x) > 0);
                    assert(lo.contains(x));
                    let k1 = choose|k: int| 0 <= k < lo.len() && lo[k] == x;
                    assert(pattern(c, forward, lo, y)[k1]);
                    assert(mh.contains(y));
                    assert(hi.to_multiset().count(y) > 0);
                    assert(hi.contains(y));
                    let k2 = choose|k: int| 0 <= k < hi.len() && hi[k] == y;
                    assert(pattern(c, forward, hi, y)[k2]);
                    lemma_irreflexive(c, forward, y);
                }
            }
        }
    }
}

/// The builder sorts every sequence whose length is a power of two.
pub proof fn lemma_build_sorted<T>(c: spec_fn(T, T) -> Ordering, forward: bool, s: Seq<T>)
    requires
        total_order(c),
        is_pow2(s.len() as int),
    ensures
        sorted_by(c, forward, build(c, forward, s)),
    decreases s.len(),
{
    if s.len() > 1 {
        reveal(is_pow2);
        let n = s.len() as int;
        let h = n / 2;
        let lo = s.subrange(0, h);
        let hi = s.subrange(h, n);
        let a = build(c, true, lo);
        let b = build(c, false, hi);
        lemma_build_sorted(c, true, lo);
        lemma_build_sorted(c, false, hi);
        lemma_build_multiset(c, true, lo);
        lemma_build_multiset(c, false, hi);
        let m = a + b;
        assert forall|p: T| bitonic01(#[trigger] pattern(c, forward, m, p)) by {
            let pa = pattern(c, forward, a, p);
            let pb = pattern(c, forward, b, p);
            let pm = pattern(c, forward, m, p);
            lemma_pattern_of_sorted(c, true, forward, a, p);
            lemma_pattern_of_sorted(c, false, forward, b, p);
            assert(pm =~= pa + pb);
            if forward {
                let ka = lemma_rising_split(pa);
                let kb = lemma_falling_split(pb);
                assert forall|i: int| 0 <= i < pm.len() implies #[trigger] pm[i] == (false != (ka <= i
                    && i < h + kb)) by {
                    if i < h {
                        assert(pm[i] == pa[i]);
                    } else {
                        assert(pm[i] == pb[i - h]);
                    }
                }
                assert(interval_form(pm, ka, h + kb, false));
            } else {
                let ka = lemma_falling_split(pa);
                let kb = lemma_rising_split(pb);
                assert forall|i: int| 0 <= i < pm.len() implies #[trigger] pm[i] == (true != (ka <= i
                    && i < h + kb)) by {
                    if i < h {
                        assert(pm[i] == pa[i]);
                    } else {
                        assert(pm[i] == pb[i - h]);
                    }
                }
                assert(interval_form(pm, ka, h + kb, true));
            }
        }
        lemma_merge_sorted(c, forward, m);
    }
}

/// Under an order that finds only identical elements equal, two sorted
/// sequences with the same elements are the same sequence.
pub proof fn lemma_sorted_unique<T>(c: spec_fn(T, T) -> Ordering, s: Seq<T>, t: Seq<T>)
    requires
        total_order(c),
        forall|a: T, b: T| #[trigger] c(a, b) == Ordering::Equal ==> a == b,
        sorted_by(c, true, s),
        sorted_by(c, true, t),
        s.to_multiset() == t.to_multiset(),
    ensures
        s == t,
    decreases s.len(),
{
    broadcast use group_to_multiset_ensures;

    to_multiset_len(s);
    to_multiset_len(t);
    assert(s.len() == t.len());
    if s.len() == 0 {
        assert(s =~= t);
    } else {
        let x = s[0];
        let y = t[0];
        assert(s.to_multiset().count(x) > 0);
        assert(t.contains(x));
        assert(t.to_multiset().count(y) > 0);
        assert(s.contains(y));
        let k = choose|k: int| 0 <= k < t.len() && t[k] == x;
        let m = choose|m: int| 0 <= m < s.len() && s[m] == y;
        lemma_irreflexive(c, true, x);
        lemma_irreflexive(c, true, y);
        assert(c(y, x) != Ordering::Greater) by {
            if k > 0 {
                assert(!above(c, true, t[0], t[k]));
            }
        }
        assert(c(x, y) != Ordering::Greater) by {
            if m > 0 {
                assert(!above(c, true, s[0], s[m]));
            }
        }
        lemma_flip(c, true, x, y);
        assert(x == y);
        to_multiset_remove(s, 0);
        to_multiset_remove(t, 0);
        assert(s.remove(0) =~= s.drop_first());
        assert(t.remove(0) =~= t.drop_first());
        lemma_sorted_unique(c, s.drop_first(), t.drop_first());
        assert(s =~= t) by {
            assert(s =~= seq![x] + s.drop_first());
            assert(t =~= seq![y] + t.drop_first());
        }
    }
}

/// A sequence sorted by a comparison on `first` that breaks ties by `second`
/// is in lexicographic order of the two: each element comes before every
/// later one by `first`, or ties with it there and does not follow it by
/// `second`.
pub proof fn lemma_sorted_then_with<T>(
    first: spec_fn(T, T) -> Ordering,
    second: spec_fn(T, T) -> Ordering,
    s: Seq<T>,
)
    requires
        sorted_by(then_with(first, second), true, s),
    ensures
        forall|i: int, j: int|
            0 <= i < j < s.len() ==> #[trigger] first(s[i], s[j]) == Ordering::Less || (first(s[i], s[j])
                == Ordering::Equal && #[trigger] second(s[i], s[j]) != Ordering::Greater),
{
    assert forall|i: int, j: int| 0 <= i < j < s.len() implies #[trigger] first(s[i], s[j]) == Ordering::Less
        || (first(s[i], s[j]) == Ordering::Equal && #[trigger] second(s[i], s[j]) != Ordering::Greater) by {
        assert(!above(then_with(first, second), true, s[i], s[j]));
    }
}

} // verus!
