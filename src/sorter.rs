//! The sorter itself: a builder and a merger that work in place on halves of
//! one slice, handing the two halves to parallel tasks above a size threshold.
use vstd::prelude::*;
use vstd::arithmetic::power2::{is_pow2, is_pow2_equiv, is_pow2_exists};
use vstd::laws_cmp::{obeys_cmp, obeys_cmp_ord};
use vstd::std_specs::cmp::OrdSpec;
use core::cmp::Ordering;
use crate::network::{
    bitonic_sort, build, lemma_sorted_unique, clean_prefix, half_clean, lemma_build_multiset, lemma_build_sorted, merge,
    sorted_by,
};
use crate::order::{
    callable, implements, lawful_comparator, lemma_natural_total, natural, reversed, total_order,
};
use crate::{SortError, SortOrder};

verus! {

/// Relies on `usize::is_power_of_two`: true exactly when the value is `2^k` for some `k`.
pub assume_specification[ usize::is_power_of_two ](n: usize) -> (r: bool)
    ensures
        r == is_pow2_exists(n as int),
;

/// Relies on `<[T]>::swap`: exchanges the elements at the two indices, and
/// panics when either is out of bounds.
pub assume_specification<V>[ <[V]>::swap ](slice: &mut [V], a: usize, b: usize)
    requires
        a < old(slice)@.len(),
        b < old(slice)@.len(),
    ensures
        final(slice)@ == old(slice)@.update(a as int, old(slice)@[b as int]).update(
            b as int,
            old(slice)@[a as int],
        ),
;

/// Halves at least this long are sorted by two parallel tasks.
pub const PARALLEL_THRESHOLD: usize = 4096;

/// Ascending by `Ord::cmp`.
pub open spec fn ascending<T: Ord>(s: Seq<T>) -> bool {
    forall|i: int, j: int| 0 <= i < j < s.len() ==> #[trigger] s[i].cmp_spec(&#[trigger] s[j]) != Ordering::Greater
}

/// Descending by `Ord::cmp`.
pub open spec fn descending<T: Ord>(s: Seq<T>) -> bool {
    forall|i: int, j: int| 0 <= i < j < s.len() ==> #[trigger] s[j].cmp_spec(&#[trigger] s[i]) != Ordering::Greater
}

/// The two recursive steps of the network.
#[derive(Clone, Copy)]
enum Stage {
    Build,
    Merge,
}

spec fn stage_result<T>(c: spec_fn(T, T) -> Ordering, stage: Stage, forward: bool, s: Seq<T>) -> Seq<T> {
    match stage {
        Stage::Build => build(c, forward, s),
        Stage::Merge => merge(c, forward, s),
    }
}

/// Relies on `rayon::join`: it runs both closures to completion, possibly in
/// parallel, and returns once both have returned. Each closure runs
/// `run_stage` on its own half.
#[verifier::external_body]
fn fork_join<T: Send, F: Sync + Fn(&T, &T) -> Ordering>(
    first: &mut [T],
    second: &mut [T],
    stage: Stage,
    forward_first: bool,
    forward_second: bool,
    comparator: &F,
    threshold: usize,
)
    requires
        callable(*comparator),
    ensures
        final(first)@.len() == old(first)@.len(),
        final(second)@.len() == old(second)@.len(),
        forall|c: spec_fn(T, T) -> Ordering| #[trigger] implements(*comparator, c) ==> final(first)@
            == stage_result(c, stage, forward_first, old(first)@),
        forall|c: spec_fn(T, T) -> Ordering| #[trigger] implements(*comparator, c) ==> final(second)@
            == stage_result(c, stage, forward_second, old(second)@),
{
    rayon::join(
        || run_stage(first, stage, forward_first, comparator, threshold),
        || run_stage(second, stage, forward_second, comparator, threshold),
    );
}

fn run_stage<T: Send, F: Sync + Fn(&T, &T) -> Ordering>(
    x: &mut [T],
    stage: Stage,
    forward: bool,
    comparator: &F,
    threshold: usize,
)
    requires
        callable(*comparator),
    ensures
        final(x)@.len() == old(x)@.len(),
        forall|c: spec_fn(T, T) -> Ordering| #[trigger] implements(*comparator, c) ==> final(x)@
            == stage_result(c, stage, forward, old(x)@),
{
    match stage {
        Stage::Build => do_sort(x, forward, comparator, threshold),
        Stage::Merge => sub_sort(x, forward, comparator, threshold),
    }
}

/// Compare-exchanges each element of the first half with its partner in the
/// second half, so that the pair ends up in direction `forward`.
fn compare_and_swap<T, F: Fn(&T, &T) -> Ordering>(x: &mut [T], forward: bool, comparator: &F)
    requires
        callable(*comparator),
    ensures
        final(x)@.len() == old(x)@.len(),
        forall|c: spec_fn(T, T) -> Ordering| #[trigger] implements(*comparator, c) ==> final(x)@
            == half_clean(c, forward, old(x)@),
{
    let ghost s = x@;
    let mid_point = x.len() / 2;
    let mut i: usize = 0;
    while i < mid_point
        invariant
            callable(*comparator),
            mid_point == s.len() / 2,
            x@.len() == s.len(),
            0 <= i <= mid_point,
            forall|c: spec_fn(T, T) -> Ordering| #[trigger] implements(*comparator, c) ==> x@
                == clean_prefix(c, forward, s, i as int),
        decreases mid_point - i,
    {
        let ghost before = x@;
        let result = comparator(&x[i], &x[mid_point + i]);
        let out_of_order = if forward {
            matches!(result, Ordering::Greater)
        } else {
            matches!(result, Ordering::Less)
        };
        if out_of_order {
            x.swap(i, mid_point + i);
        }
        proof {
            assert forall|c: spec_fn(T, T) -> Ordering| #[trigger] implements(*comparator, c) implies x@
                == clean_prefix(c, forward, s, i + 1) by {
                assert(before[i as int] == s[i as int]);
                assert(before[mid_point + i] == s[mid_point + i]);
                assert(x@ =~= clean_prefix(c, forward, s, i + 1));
            }
        }
        i += 1;
    }
}

/// The merger: turns a bitonic slice into one sorted in direction `forward`.
fn sub_sort<T: Send, F: Sync + Fn(&T, &T) -> Ordering>(
    x: &mut [T],
    forward: bool,
    comparator: &F,
    threshold: usize,
)
    requires
        callable(*comparator),
    ensures
        final(x)@.len() == old(x)@.len(),
        forall|c: spec_fn(T, T) -> Ordering| #[trigger] implements(*comparator, c) ==> final(x)@
            == merge(c, forward, old(x)@),
    decreases old(x)@.len(),
{
    if x.len() > 1 {
        let ghost s = x@;
        compare_and_swap(x, forward, comparator);
        let ghost t = x@;
        let mid_point = x.len() / 2;
        let (first, second) = x.split_at_mut(mid_point);
        if mid_point >= threshold {
            fork_join(first, second, Stage::Merge, forward, forward, comparator, threshold);
        } else {
            sub_sort(first, forward, comparator, threshold);
            sub_sort(second, forward, comparator, threshold);
        }
        proof {
            assert forall|c: spec_fn(T, T) -> Ordering| #[trigger] implements(*comparator, c) implies x@
                == merge(c, forward, s) by {
                assert(t == half_clean(c, forward, s));
            }
        }
    }
}

/// The builder: sorts the slice in direction `forward` by building each half
/// in opposite directions and merging the result.
fn do_sort<T: Send, F: Sync + Fn(&T, &T) -> Ordering>(
    x: &mut [T],
    forward: bool,
    comparator: &F,
    threshold: usize,
)
    requires
        callable(*comparator),
    ensures
        final(x)@.len() == old(x)@.len(),
        forall|c: spec_fn(T, T) -> Ordering| #[trigger] implements(*comparator, c) ==> final(x)@
            == build(c, forward, old(x)@),
    decreases old(x)@.len(),
{
    if x.len() > 1 {
        let ghost s = x@;
        let mid_point = x.len() / 2;
        let (first, second) = x.split_at_mut(mid_point);
        if mid_point >= threshold {
            fork_join(first, second, Stage::Build, true, false, comparator, threshold);
        } else {
            do_sort(first, true, comparator, threshold);
            do_sort(second, false, comparator, threshold);
        }
        let ghost t = x@;
        sub_sort(x, forward, comparator, threshold);
        proof {
            assert forall|c: spec_fn(T, T) -> Ordering| #[trigger] implements(*comparator, c) implies x@
                == build(c, forward, s) by {
                assert(t == build(c, true, s.subrange(0, mid_point as int)) + build(
                    c,
                    false,
                    s.subrange(mid_point as int, s.len() as int),
                ));
            }
        }
    }
}

/// Sorts `x` in place by `comparator`, handing halves of at least
/// `threshold` elements to parallel tasks. The result does not depend on
/// `threshold`.
pub fn sort_by_with_threshold<T: Send, F: Sync + Fn(&T, &T) -> Ordering>(
    x: &mut [T],
    comparator: &F,
    threshold: usize,
) -> (r: Result<(), SortError>)
    requires
        lawful_comparator(*comparator),
    ensures
        r is Ok <==> is_pow2(old(x)@.len() as int),
        r is Err ==> r == Err::<(), SortError>(SortError::LengthNotPowerOfTwo(old(x)@.len() as usize))
            && final(x)@ == old(x)@,
        r is Ok ==> final(x)@.to_multiset() == old(x)@.to_multiset(),
        r is Ok ==> forall|c: spec_fn(T, T) -> Ordering| #[trigger] implements(*comparator, c)
            ==> final(x)@ == bitonic_sort(c, old(x)@),
        r is Ok ==> forall|c: spec_fn(T, T) -> Ordering|
            #[trigger] implements(*comparator, c) && total_order(c) ==> sorted_by(c, true, final(x)@),
{
    let ghost s = x@;
    proof {
        is_pow2_equiv(s.len() as int);
    }
    if x.len().is_power_of_two() {
        do_sort(x, true, comparator, threshold);
        proof {
            let c0 = choose|c: spec_fn(T, T) -> Ordering| implements(*comparator, c) && total_order(c);
            lemma_build_multiset(c0, true, s);
            assert forall|c: spec_fn(T, T) -> Ordering|
                #[trigger] implements(*comparator, c) && total_order(c) implies sorted_by(c, true, x@) by {
                lemma_build_sorted(c, true, s);
            }
        }
        Ok(())
    } else {
        Err(SortError::LengthNotPowerOfTwo(x.len()))
    }
}

/// Sorts `x` in place by `comparator`, in parallel above `PARALLEL_THRESHOLD`.
pub fn sort_by<T: Send, F: Sync + Fn(&T, &T) -> Ordering>(x: &mut [T], comparator: &F) -> (r: Result<
    (),
    SortError,
>)
    requires
        lawful_comparator(*comparator),
    ensures
        r is Ok <==> is_pow2(old(x)@.len() as int),
        r is Err ==> r == Err::<(), SortError>(SortError::LengthNotPowerOfTwo(old(x)@.len() as usize))
            && final(x)@ == old(x)@,
        r is Ok ==> final(x)@.to_multiset() == old(x)@.to_multiset(),
        r is Ok ==> forall|c: spec_fn(T, T) -> Ordering| #[trigger] implements(*comparator, c)
            ==> final(x)@ == bitonic_sort(c, old(x)@),
        r is Ok ==> forall|c: spec_fn(T, T) -> Ordering|
            #[trigger] implements(*comparator, c) && total_order(c) ==> sorted_by(c, true, final(x)@),
{
    sort_by_with_threshold(x, comparator, PARALLEL_THRESHOLD)
}

/// Sorts `x` in place by `Ord::cmp`, ascending or descending.
pub fn sort<T: Ord + Send>(x: &mut [T], order: &SortOrder) -> (r: Result<(), SortError>)
    requires
        obeys_cmp::<T>(),
    ensures
        r is Ok <==> is_pow2(old(x)@.len() as int),
        r is Err ==> r == Err::<(), SortError>(SortError::LengthNotPowerOfTwo(old(x)@.len() as usize))
            && final(x)@ == old(x)@,
        r is Ok ==> final(x)@.to_multiset() == old(x)@.to_multiset(),
        r is Ok && *order == SortOrder::Ascending ==> final(x)@ == bitonic_sort(natural::<T>(), old(x)@)
            && ascending(final(x)@),
        r is Ok && *order == SortOrder::Descending ==> final(x)@ == bitonic_sort(reversed::<T>(), old(x)@)
            && descending(final(x)@),
{
    proof {
        lemma_natural_total::<T>();
        reveal(obeys_cmp_ord);
    }
    match *order {
        SortOrder::Ascending => {
            let natural_cmp = |a: &T, b: &T| -> (o: Ordering)
                requires
                    T::obeys_cmp_spec(),
                ensures
                    o == a.cmp_spec(b),
                { a.cmp(b) };
            proof {
                assert(callable(natural_cmp));
                assert(implements(natural_cmp, natural::<T>()) && total_order(natural::<T>()));
            }
            let r = sort_by(x, &natural_cmp);
            proof {
                if r is Ok {
                    assert(implements(natural_cmp, natural::<T>()));
                    assert(sorted_by(natural::<T>(), true, x@));
                }
            }
            r
        },
        SortOrder::Descending => {
            let reversed_cmp = |a: &T, b: &T| -> (o: Ordering)
                requires
                    T::obeys_cmp_spec(),
                ensures
                    o == b.cmp_spec(a),
                { b.cmp(a) };
            proof {
                assert(callable(reversed_cmp));
                assert(implements(reversed_cmp, reversed::<T>()) && total_order(reversed::<T>()));
            }
            let r = sort_by(x, &reversed_cmp);
            proof {
                if r is Ok {
                    assert(implements(reversed_cmp, reversed::<T>()));
                    assert(sorted_by(reversed::<T>(), true, x@));
                }
            }
            r
        },
    }
}

/// Sorting an ascending slice again with `SortOrder::Ascending` gives back
/// the same slice, where `cmp` finds only identical elements equal.
pub proof fn lemma_sort_ascending_idempotent<T: Ord>(s: Seq<T>)
    requires
        obeys_cmp::<T>(),
        forall|a: T, b: T| #[trigger] a.cmp_spec(&b) == Ordering::Equal ==> a == b,
        is_pow2(s.len() as int),
        ascending(s),
    ensures
        bitonic_sort(natural::<T>(), s) == s,
{
    let c = natural::<T>();
    lemma_natural_total::<T>();
    lemma_build_sorted(c, true, s);
    lemma_build_multiset(c, true, s);
    assert forall|a: T, b: T| #[trigger] c(a, b) == Ordering::Equal implies a == b by {
        assert(a.cmp_spec(&b) == Ordering::Equal);
    }
    assert(sorted_by(c, true, s));
    lemma_sorted_unique(c, bitonic_sort(c, s), s);
}

} // verus!
