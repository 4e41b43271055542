//! Helpers around the sorter: sortedness checks and reproducible input data.
use vstd::prelude::*;
use vstd::laws_cmp::{obeys_cmp, obeys_cmp_ord, obeys_cmp_partial_ord};
use vstd::std_specs::cmp::{OrdSpec, PartialOrdSpec};
use core::cmp::Ordering;
use rand::distributions::Standard;
use rand::{Rng, SeedableRng};
use rand_pcg::Pcg64Mcg;
use crate::network::lemma_sorted_from_adjacent;
use crate::order::{lemma_natural_total, natural, reversed};
use crate::sorter::{ascending, descending};

verus! {

/// The first `n` values that `Pcg64Mcg` seeded with sixteen zero bytes yields
/// through rand's `Standard` distribution for `u32`.
pub uninterp spec fn seeded_u32s(n: nat) -> Seq<u32>;

/// Relies on rand_pcg's `Pcg64Mcg::from_seed` and rand's `Rng::sample_iter`
/// with `Standard`: a fixed seed gives the same stream on every machine, and
/// `take(n)` of that endless stream has `n` items.
#[verifier::external_body]
fn draw_seeded_u32s(n: usize) -> (r: Vec<u32>)
    ensures
        r@ == seeded_u32s(n as nat),
        r@.len() == n,
{
    let rng = Pcg64Mcg::from_seed([0; 16]);
    rng.sample_iter(&Standard).take(n).collect()
}

/// `n` pseudo-random values, the same for the same `n` on every run.
pub fn new_u32_vec(n: usize) -> (r: Vec<u32>)
    ensures
        r@ == seeded_u32s(n as nat),
        r@.len() == n,
{
    draw_seeded_u32s(n)
}

/// Whether `x` is ascending by `Ord::cmp`.
pub fn is_sorted_ascending<T: Ord>(x: &[T]) -> (r: bool)
    requires
        obeys_cmp::<T>(),
    ensures
        r == ascending(x@),
{
    proof {
        reveal(obeys_cmp_partial_ord);
        reveal(obeys_cmp_ord);
        lemma_natural_total::<T>();
    }
    let mut i: usize = 0;
    while i < x.len() && i + 1 < x.len()
        invariant
            obeys_cmp::<T>(),
            T::obeys_partial_cmp_spec(),
            forall|a: T, b: T| a.partial_cmp_spec(&b) == Some(#[trigger] a.cmp_spec(&b)),
            i <= x@.len(),
            forall|k: int| 0 <= k < i ==> #[trigger] x@[k].cmp_spec(&x@[k + 1]) != Ordering::Greater,
        decreases x@.len() - i,
    {
        if !(x[i] <= x[i + 1]) {
            assert(x@[i as int].cmp_spec(&x@[i + 1]) == Ordering::Greater);
            return false;
        }
        i += 1;
    }
    proof {
        lemma_sorted_from_adjacent(natural::<T>(), true, x@);
    }
    true
}

/// Whether `x` is descending by `Ord::cmp`.
pub fn is_sorted_descending<T: Ord>(x: &[T]) -> (r: bool)
    requires
        obeys_cmp::<T>(),
    ensures
        r == descending(x@),
{
    proof {
        reveal(obeys_cmp_partial_ord);
        reveal(obeys_cmp_ord);
        lemma_natural_total::<T>();
    }
    let mut i: usize = 0;
    while i < x.len() && i + 1 < x.len()
        invariant
            obeys_cmp::<T>(),
            T::obeys_partial_cmp_spec(),
            forall|a: T, b: T| a.partial_cmp_spec(&b) == Some(#[trigger] a.cmp_spec(&b)),
            i <= x@.len(),
            forall|k: int| 0 <= k < i ==> #[trigger] x@[k + 1].cmp_spec(&x@[k]) != Ordering::Greater,
        decreases x@.len() - i,
    {
        if !(x[i] >= x[i + 1]) {
            assert(x@[i + 1].cmp_spec(&x@[i as int]) == Ordering::Greater) by {
                reveal(vstd::laws_cmp::obeys_partial_cmp_spec_properties);
                let a = x@[i as int];
                let b = x@[i + 1];
                assert(a.partial_cmp_spec(&b) == Some(a.cmp_spec(&b)));
                assert(b.partial_cmp_spec(&a) == Some(b.cmp_spec(&a)));
                assert(a.partial_cmp_spec(&b) == Some(Ordering::Less));
            }
            return false;
        }
        proof {
            reveal(vstd::laws_cmp::obeys_partial_cmp_spec_properties);
            let a = x@[i as int];
            let b = x@[i + 1];
            assert(a.partial_cmp_spec(&b) == Some(a.cmp_spec(&b)));
            assert(b.partial_cmp_spec(&a) == Some(b.cmp_spec(&a)));
            assert(x@[i + 1].cmp_spec(&x@[i as int]) != Ordering::Greater);
        }
        i += 1;
    }
    proof {
        lemma_sorted_from_adjacent(reversed::<T>(), true, x@);
    }
    true
}

} // verus!
