//! Small generic utilities: ordering a pair and walking a slice two elements
//! at a time.

use core::cmp::Ordering;
use vstd::prelude::*;
use vstd::slice::slice_subrange;
use vstd::std_specs::cmp::OrdSpec;

pub mod delta;

verus! {

/// The two values in ascending order. Of two values that compare equal the
/// first argument comes first.
pub open spec fn ordered_pair<T: Ord + Copy>(a0: T, a1: T) -> (T, T) {
    if a1.cmp_spec(&a0) == Ordering::Less {
        (a1, a0)
    } else {
        (a0, a1)
    }
}

/// Given two input numbers, returns them in a tuple `(min, max)`.
pub fn min_max<T: Ord + Copy>(a0: T, a1: T) -> (r: (T, T))
    ensures
        T::obeys_cmp_spec() ==> r == ordered_pair(a0, a1),
{
    (a0.min(a1), a0.max(a1))
}

/// The non-overlapping chunks of two consecutive elements of `input`, in
/// order. A last element without a partner is left out.
pub fn pairs<T>(input: &[T]) -> (chunks: Vec<&[T]>)
    ensures
        chunks@.len() == input@.len() / 2,
        forall|i: int|
            0 <= i < chunks@.len() ==> (#[trigger] chunks@[i])@ == input@.subrange(
                2 * i,
                2 * i + 2,
            ),
{
    let n = input.len();
    let mut chunks: Vec<&[T]> = Vec::new();
    let mut i: usize = 0;
    while n - i >= 2
        invariant
            n == input@.len(),
            i <= n,
            i == 2 * chunks@.len(),
            forall|k: int|
                0 <= k < chunks@.len() ==> (#[trigger] chunks@[k])@ == input@.subrange(
                    2 * k,
                    2 * k + 2,
                ),
        decreases n - i,
    {
        chunks.push(slice_subrange(input, i, i + 2));
        i += 2;
    }
    chunks
}

/// The elements of `input` taken two at a time: element `2i` together with
/// element `2i + 1`. A last element without a partner is left out.
pub fn pairs_zip<T>(input: &[T]) -> (zipped: Vec<(&T, &T)>)
    ensures
        zipped@.len() == input@.len() / 2,
        forall|i: int|
            0 <= i < zipped@.len() ==> *(#[trigger] zipped@[i]).0 == input@[2 * i]
                && *zipped@[i].1 == input@[2 * i + 1],
{
    let n = input.len();
    let mut zipped: Vec<(&T, &T)> = Vec::new();
    let mut i: usize = 0;
    while n - i >= 2
        invariant
            n == input@.len(),
            i <= n,
            i == 2 * zipped@.len(),
            forall|k: int|
                0 <= k < zipped@.len() ==> *(#[trigger] zipped@[k]).0 == input@[2 * k]
                    && *zipped@[k].1 == input@[2 * k + 1],
        decreases n - i,
    {
        zipped.push((&input[i], &input[i + 1]));
        i += 2;
    }
    zipped
}

} // verus!
