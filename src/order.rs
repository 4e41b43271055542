//! Orders over elements, as spec functions, and the comparators that compute them.
use vstd::prelude::*;
use vstd::laws_cmp::*;
use vstd::laws_eq::*;
use vstd::std_specs::cmp::{OrdSpec, PartialEqSpec, PartialOrdSpec};
use core::cmp::Ordering;

verus! {

/// `c` is a total order: comparing in the other direction gives the opposite
/// answer, and "not greater" is transitive.
#[verifier::opaque]
pub open spec fn total_order<T>(c: spec_fn(T, T) -> Ordering) -> bool {
    &&& forall|a: T, b: T| #[trigger] c(a, b) == Ordering::Less <==> c(b, a) == Ordering::Greater
    &&& forall|a: T, b: T, d: T|
        #![trigger c(a, b), c(b, d)]
        c(a, b) != Ordering::Greater && c(b, d) != Ordering::Greater ==> c(a, d) != Ordering::Greater
}

/// `a` must come after `b` in a run sorted by `c` in direction `forward`
/// (ascending per `c` when `forward`, descending otherwise).
pub open spec fn above<T>(c: spec_fn(T, T) -> Ordering, forward: bool, a: T, b: T) -> bool {
    if forward {
        c(a, b) == Ordering::Greater
    } else {
        c(a, b) == Ordering::Less
    }
}

/// The comparator may be called on any two elements.
pub open spec fn callable<T, F: Fn(&T, &T) -> Ordering>(f: F) -> bool {
    forall|a: T, b: T| #[trigger] f.requires((&a, &b))
}

/// Every answer that the comparator `f` gives agrees with the order `c`.
pub open spec fn implements<T, F: Fn(&T, &T) -> Ordering>(f: F, c: spec_fn(T, T) -> Ordering) -> bool {
    forall|a: T, b: T, o: Ordering| #[trigger] f.ensures((&a, &b), o) ==> o == c(a, b)
}

/// The comparator can be called on any pair and computes some total order.
pub open spec fn lawful_comparator<T, F: Fn(&T, &T) -> Ordering>(f: F) -> bool {
    &&& callable(f)
    &&& exists|c: spec_fn(T, T) -> Ordering| implements(f, c) && total_order(c)
}

/// The order of `Ord::cmp`.
pub open spec fn natural<T: Ord>() -> spec_fn(T, T) -> Ordering {
    |a: T, b: T| a.cmp_spec(&b)
}

/// The order of `Ord::cmp` with its arguments exchanged.
pub open spec fn reversed<T: Ord>() -> spec_fn(T, T) -> Ordering {
    |a: T, b: T| b.cmp_spec(&a)
}

/// Compare by `first`, and by `second` where `first` finds the two equal.
pub open spec fn then_with<T>(
    first: spec_fn(T, T) -> Ordering,
    second: spec_fn(T, T) -> Ordering,
) -> spec_fn(T, T) -> Ordering {
    |a: T, b: T|
        if first(a, b) == Ordering::Equal {
            second(a, b)
        } else {
            first(a, b)
        }
}

pub proof fn lemma_irreflexive<T>(c: spec_fn(T, T) -> Ordering, forward: bool, a: T)
    requires
        total_order(c),
    ensures
        !above(c, forward, a, a),
{
    reveal(total_order);
    assert(c(a, a) == Ordering::Less <==> c(a, a) == Ordering::Greater);
}

pub proof fn lemma_flip<T>(c: spec_fn(T, T) -> Ordering, forward: bool, a: T, b: T)
    requires
        total_order(c),
    ensures
        above(c, !forward, a, b) == above(c, forward, b, a),
{
    reveal(total_order);
    assert(c(a, b) == Ordering::Less <==> c(b, a) == Ordering::Greater);
    assert(c(b, a) == Ordering::Less <==> c(a, b) == Ordering::Greater);
}

pub proof fn lemma_asymmetric<T>(c: spec_fn(T, T) -> Ordering, forward: bool, a: T, b: T)
    requires
        total_order(c),
    ensures
        above(c, forward, a, b) ==> !above(c, forward, b, a),
{
    reveal(total_order);
    assert(c(a, b) == Ordering::Less <==> c(b, a) == Ordering::Greater);
    assert(c(b, a) == Ordering::Less <==> c(a, b) == Ordering::Greater);
}

/// If `a` is above `p` and `b` is not below `a`, then `b` is above `p`.
pub proof fn lemma_above_step<T>(c: spec_fn(T, T) -> Ordering, forward: bool, a: T, b: T, p: T)
    requires
        total_order(c),
        above(c, forward, a, p),
        !above(c, forward, a, b),
    ensures
        above(c, forward, b, p),
{
    reveal(total_order);
    assert(c(a, b) == Ordering::Less <==> c(b, a) == Ordering::Greater);
    assert(c(a, p) == Ordering::Less <==> c(p, a) == Ordering::Greater);
    assert(c(b, p) == Ordering::Less <==> c(p, b) == Ordering::Greater);
    if forward {
        if c(b, p) != Ordering::Greater {
            assert(c(a, p) != Ordering::Greater);
        }
    } else {
        if c(b, p) != Ordering::Less {
            assert(c(p, b) != Ordering::Greater);
            assert(c(b, a) != Ordering::Greater);
            assert(c(p, a) != Ordering::Greater);
        }
    }
}

/// Exchanging the arguments of a total order gives a total order.
pub proof fn lemma_reversed_total<T>(c: spec_fn(T, T) -> Ordering)
    requires
        total_order(c),
    ensures
        total_order(|a: T, b: T| c(b, a)),
{
    reveal(total_order);
    let r = |a: T, b: T| c(b, a);
    assert forall|a: T, b: T, d: T|
        #![trigger r(a, b), r(b, d)]
        r(a, b) != Ordering::Greater && r(b, d) != Ordering::Greater implies r(a, d)
            != Ordering::Greater by {
        assert(c(b, a) == Ordering::Less <==> c(a, b) == Ordering::Greater);
        assert(c(d, b) == Ordering::Less <==> c(b, d) == Ordering::Greater);
        assert(c(d, a) == Ordering::Less <==> c(a, d) == Ordering::Greater);
        if r(a, d) == Ordering::Greater {
            assert(c(a, d) == Ordering::Less);
            assert(c(d, b) != Ordering::Greater);
            assert(c(b, a) != Ordering::Greater);
            assert(c(d, a) != Ordering::Greater);
        }
    }
}

/// The laws of `Ord` make `cmp` a total order, in either direction.
pub proof fn lemma_natural_total<T: Ord>()
    requires
        obeys_cmp::<T>(),
    ensures
        total_order(natural::<T>()),
        total_order(reversed::<T>()),
{
    reveal(obeys_cmp_ord);
    reveal(obeys_partial_cmp_spec_properties);
    reveal(obeys_eq_spec_properties);
    reveal(total_order);
    let c = natural::<T>();
    assert forall|a: T, b: T| #[trigger] c(a, b) == Ordering::Less <==> c(b, a) == Ordering::Greater by {
        assert(a.partial_cmp_spec(&b) == Some(a.cmp_spec(&b)));
        assert(b.partial_cmp_spec(&a) == Some(b.cmp_spec(&a)));
    }
    assert forall|a: T, b: T, d: T|
        #![trigger c(a, b), c(b, d)]
        c(a, b) != Ordering::Greater && c(b, d) != Ordering::Greater implies c(a, d)
            != Ordering::Greater by {
        assert(a.partial_cmp_spec(&b) == Some(a.cmp_spec(&b)));
        assert(b.partial_cmp_spec(&a) == Some(b.cmp_spec(&a)));
        assert(b.partial_cmp_spec(&d) == Some(b.cmp_spec(&d)));
        assert(d.partial_cmp_spec(&b) == Some(d.cmp_spec(&b)));
        assert(a.partial_cmp_spec(&d) == Some(a.cmp_spec(&d)));
        assert(d.partial_cmp_spec(&a) == Some(d.cmp_spec(&a)));
        if c(a, d) == Ordering::Greater {
            assert(d.partial_cmp_spec(&a) == Some(Ordering::Less));
            if c(a, b) == Ordering::Equal {
                assert(a.eq_spec(&b));
                assert(b.eq_spec(&a));
                if c(b, d) == Ordering::Equal {
                    assert(b.eq_spec(&d));
                    assert(a.eq_spec(&d));
                } else {
                    assert(b.partial_cmp_spec(&d) == Some(Ordering::Less));
                    assert(b.partial_cmp_spec(&a) == Some(Ordering::Less));
                }
            } else {
                assert(a.partial_cmp_spec(&b) == Some(Ordering::Less));
                assert(d.partial_cmp_spec(&b) == Some(Ordering::Less));
            }
        }
    }
    lemma_reversed_total(c);
    assert(reversed::<T>() =~= (|a: T, b: T| c(b, a)));
}

/// Comparing by one total order and breaking its ties by another is again
/// a total order.
pub proof fn lemma_then_with_total<T>(first: spec_fn(T, T) -> Ordering, second: spec_fn(T, T) -> Ordering)
    requires
        total_order(first),
        total_order(second),
    ensures
        total_order(then_with(first, second)),
{
    reveal(total_order);
    let c = then_with(first, second);
    assert forall|a: T, b: T| #[trigger] c(a, b) == Ordering::Less <==> c(b, a) == Ordering::Greater by {
        assert(first(a, b) == Ordering::Less <==> first(b, a) == Ordering::Greater);
        assert(first(b, a) == Ordering::Less <==> first(a, b) == Ordering::Greater);
        assert(second(a, b) == Ordering::Less <==> second(b, a) == Ordering::Greater);
    }
    assert forall|a: T, b: T, d: T|
        #![trigger c(a, b), c(b, d)]
        c(a, b) != Ordering::Greater && c(b, d) != Ordering::Greater implies c(a, d)
            != Ordering::Greater by {
        assert(first(a, b) == Ordering::Less <==> first(b, a) == Ordering::Greater);
        assert(first(b, d) == Ordering::Less <==> first(d, b) == Ordering::Greater);
        assert(first(a, d) == Ordering::Less <==> first(d, a) == Ordering::Greater);
        assert(first(a, b) != Ordering::Greater);
        assert(first(b, d) != Ordering::Greater);
        assert(first(a, d) != Ordering::Greater);
        if first(a, d) == Ordering::Equal {
            assert(first(d, a) != Ordering::Greater);
            assert(first(d, b) != Ordering::Greater);
            assert(first(b, a) != Ordering::Greater);
            assert(first(a, b) == Ordering::Equal);
            assert(first(b, d) == Ordering::Equal);
            assert(second(a, b) != Ordering::Greater);
            assert(second(b, d) != Ordering::Greater);
        }
    }
}

} // verus!
