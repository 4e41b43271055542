//! Boolean sequences that rise and fall at most once, and what one
//! compare-exchange pass across the middle does to them.
use vstd::prelude::*;

verus! {

/// `b` holds `v` outside `[lo, hi)` and `!v` inside it.
pub open spec fn interval_form(b: Seq<bool>, lo: int, hi: int, v: bool) -> bool {
    &&& 0 <= lo <= hi <= b.len()
    &&& forall|i: int| 0 <= i < b.len() ==> #[trigger] b[i] == (v != (lo <= i && i < hi))
}

/// `b` is a run of one value, then the other, then the first again
/// (each run possibly empty).
pub open spec fn bitonic01(b: Seq<bool>) -> bool {
    exists|lo: int, hi: int, v: bool| #[trigger] interval_form(b, lo, hi, v)
}

/// Pairwise "and" of the two halves of `b`.
pub open spec fn lower_half(b: Seq<bool>) -> Seq<bool> {
    Seq::new(b.len() / 2, |i: int| b[i] && b[i + b.len() / 2])
}

/// Pairwise "or" of the two halves of `b`.
pub open spec fn upper_half(b: Seq<bool>) -> Seq<bool> {
    Seq::new(b.len() / 2, |i: int| b[i] || b[i + b.len() / 2])
}

/// Once true, stays true.
pub open spec fn rising(b: Seq<bool>) -> bool {
    forall|i: int, j: int| 0 <= i < j < b.len() && #[trigger] b[i] ==> #[trigger] b[j]
}

/// Once false, stays false.
pub open spec fn falling(b: Seq<bool>) -> bool {
    forall|i: int, j: int| 0 <= i < j < b.len() && #[trigger] b[j] ==> #[trigger] b[i]
}

/// A rising sequence is false before some index and true from it on.
pub proof fn lemma_rising_split(b: Seq<bool>) -> (k: int)
    requires
        rising(b),
    ensures
        0 <= k <= b.len(),
        forall|i: int| 0 <= i < b.len() ==> #[trigger] b[i] == (k <= i),
    decreases b.len(),
{
    if b.len() == 0 {
        0
    } else if !b[b.len() - 1] {
        assert forall|i: int| 0 <= i < b.len() implies #[trigger] b[i] == (b.len() <= i) by {
            if i < b.len() - 1 && b[i] {
                assert(b[b.len() - 1]);
            }
        }
        b.len() as int
    } else {
        let p = b.drop_last();
        assert forall|i: int, j: int| 0 <= i < j < p.len() && #[trigger] p[i] implies #[trigger] p[j] by {
            assert(b[i] ==> b[j]);
        }
        let k = lemma_rising_split(p);
        assert forall|i: int| 0 <= i < b.len() implies #[trigger] b[i] == (k <= i) by {
            if i < b.len() - 1 {
                assert(p[i] == b[i]);
            }
        }
        k
    }
}

/// A falling sequence is true before some index and false from it on.
pub proof fn lemma_falling_split(b: Seq<bool>) -> (k: int)
    requires
        falling(b),
    ensures
        0 <= k <= b.len(),
        forall|i: int| 0 <= i < b.len() ==> #[trigger] b[i] == (i < k),
{
    let n = Seq::new(b.len(), |i: int| !b[i]);
    assert forall|i: int, j: int| 0 <= i < j < n.len() && #[trigger] n[i] implies #[trigger] n[j] by {
        assert(b[j] ==> b[i]);
    }
    let k = lemma_rising_split(n);
    assert forall|i: int| 0 <= i < b.len() implies #[trigger] b[i] == (i < k) by {
        assert(n[i] == !b[i]);
    }
    k
}

/// One compare-exchange pass across the middle of an even-length bitonic
/// sequence leaves both halves bitonic, and one of them uniform: the "and"
/// half all false, or the "or" half all true.
pub proof fn lemma_half_clean01(b: Seq<bool>)
    requires
        b.len() % 2 == 0,
        bitonic01(b),
    ensures
        bitonic01(lower_half(b)),
        bitonic01(upper_half(b)),
        (forall|i: int| 0 <= i < b.len() / 2 ==> !#[trigger] lower_half(b)[i]) || (forall|i: int|
            0 <= i < b.len() / 2 ==> #[trigger] upper_half(b)[i]),
{
    let (lo, hi, v) = choose|lo: int, hi: int, v: bool| #[trigger] interval_form(b, lo, hi, v);
    let h = b.len() / 2;
    let l = lower_half(b);
    let u = upper_half(b);
    assert forall|i: int| 0 <= i < h implies #[trigger] l[i] == (b[i] && b[i + h]) && u[i] == (b[i]
        || b[i + h]) by {}
    assert forall|i: int| 0 <= i < h implies #[trigger] b[i] == (v != (lo <= i && i < hi)) && b[i + h]
        == (v != (lo <= i + h && i + h < hi)) by {}
    if !v {
        if hi <= h {
            assert(interval_form(l, 0, 0, false));
            assert(interval_form(u, lo, hi, false));
        } else if lo >= h {
            assert(interval_form(l, 0, 0, false));
            assert(interval_form(u, lo - h, hi - h, false));
        } else {
            let m = if hi - h < lo { lo } else { hi - h };
            let n = if hi - h < lo { hi - h } else { lo };
            assert(interval_form(l, lo, m, false));
            if hi - h <= lo {
                assert(interval_form(u, n, lo, true));
            } else {
                assert(interval_form(u, 0, 0, true));
            }
        }
    } else {
        if hi <= h {
            assert(interval_form(l, lo, hi, true));
            assert(interval_form(u, 0, 0, true));
        } else if lo >= h {
            assert(interval_form(l, lo - h, hi - h, true));
            assert(interval_form(u, 0, 0, true));
        } else {
            let n = if hi - h < lo { hi - h } else { lo };
            let m = if hi - h < lo { lo } else { hi - h };
            assert(interval_form(l, n, lo, false));
            assert(interval_form(u, lo, m, true));
        }
    }
}

} // verus!
