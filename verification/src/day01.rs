//! Depth measurements.
//!
//! From a list of unsigned integer values representing measurements:
//!
//! 1. count the number of times a measurement increases in relation to the
//!    previous one;
//!
//! 2. using a sliding window of three measurements, count how many times
//!    the total value of the window increases in relation to the previous one.

use itertools::Itertools;
use vstd::prelude::*;
use vstd::slice::slice_subrange;

verus! {

/// How many measurements are greater than the one before them.
pub open spec fn increases(depths: Seq<u32>) -> nat
    decreases depths.len(),
{
    if depths.len() < 2 {
        0
    } else {
        increases(depths.drop_last()) + if depths[depths.len() - 1] > depths[depths.len() - 2] {
            1nat
        } else {
            0nat
        }
    }
}

/// The windows of three consecutive measurements, in order.
pub open spec fn windows(depths: Seq<u32>) -> Seq<(u32, u32, u32)> {
    Seq::new(
        if depths.len() < 2 {
            0
        } else {
            (depths.len() - 2) as nat
        },
        |i: int| (depths[i], depths[i + 1], depths[i + 2]),
    )
}

/// The sum of the three measurements of a window.
pub open spec fn total(window: (u32, u32, u32)) -> int {
    window.0 + window.1 + window.2
}

/// Every window sum can be held in a measurement.
pub open spec fn sums_fit(depths: Seq<u32>) -> bool {
    forall|i: int|
        0 <= i < windows(depths).len() ==> total(#[trigger] windows(depths)[i]) <= u32::MAX
}

/// The sum of each window of three consecutive measurements, in order.
pub open spec fn window_sums(depths: Seq<u32>) -> Seq<u32> {
    Seq::new(windows(depths).len(), |i: int| total(windows(depths)[i]) as u32)
}

/// Tests whether the depth increases can be counted both ways: there is a
/// window, and every window sum can be held in a measurement.
pub fn can_run(depths: &[u32]) -> (ok: bool)
    ensures
        ok <==> depths@.len() >= 3 && sums_fit(depths@),
{
    if depths.len() < 3 {
        return false;
    }
    let mut i: usize = 2;
    while i < depths.len()
        invariant
            2 <= i <= depths@.len(),
            forall|k: int| 0 <= k < i - 2 ==> total(#[trigger] windows(depths@)[k]) <= u32::MAX,
        decreases depths@.len() - i,
    {
        let sum: u64 = depths[i - 2] as u64 + depths[i - 1] as u64 + depths[i] as u64;
        if sum > u32::MAX as u64 {
            assert(total(windows(depths@)[i - 2]) > u32::MAX);
            return false;
        }
        i += 1;
    }
    true
}

/// Counts the depth increases of the measurements and of their three value
/// windows.
pub fn run(depths: &[u32]) -> (counts: (usize, usize))
    requires
        depths@.len() >= 3,
        sums_fit(depths@),
    ensures
        counts.0 == increases(depths@),
        counts.1 == increases(window_sums(depths@)),
{
    let first = count_depth_increases(depths);
    let sums = depth_slice_window(depths);
    let second = count_depth_increases(sums.as_slice());
    (first, second)
}

/// Returns the count for how many times a measurement increased in relation
/// to the previous one. There must be a first measurement.
pub fn count_depth_increases(depths: &[u32]) -> (count: usize)
    requires
        depths@.len() >= 1,
    ensures
        count == increases(depths@),
{
    let mut count: usize = 0;
    let mut i: usize = 1;
    assert(depths@.take(1).len() < 2);
    while i < depths.len()
        invariant
            1 <= i <= depths@.len(),
            count == increases(depths@.take(i as int)),
            count < i,
        decreases depths@.len() - i,
    {
        proof {
            assert(depths@.take(i + 1).drop_last() =~= depths@.take(i as int));
        }
        if depths[i] > depths[i - 1] {
            count += 1;
        }
        i += 1;
    }
    assert(depths@.take(i as int) =~= depths@);
    count
}

/// Applies a three measurements sliding window to the input and returns a
/// `Vec` with the sums for each window, walking the windows of the slice.
pub fn depth_slice_window(depths: &[u32]) -> (sums: Vec<u32>)
    requires
        sums_fit(depths@),
    ensures
        sums@ == window_sums(depths@),
{
    let mut sums: Vec<u32> = Vec::new();
    let mut start: usize = 0;
    while depths.len() - start >= 3
        invariant
            sums_fit(depths@),
            start <= depths@.len(),
            start <= window_sums(depths@).len(),
            sums@.len() == start,
            forall|i: int| 0 <= i < sums@.len() ==> #[trigger] sums@[i] == window_sums(depths@)[i],
        decreases depths@.len() - start,
    {
        let window = slice_subrange(depths, start, start + 3);
        assert(total(windows(depths@)[start as int]) <= u32::MAX);
        let mut sum: u32 = 0;
        let mut k: usize = 0;
        while k < 3
            invariant
                window@ == depths@.subrange(start as int, start + 3),
                start + 3 <= depths@.len(),
                depths@[start as int] + depths@[start + 1] + depths@[start + 2] <= u32::MAX,
                k <= 3,
                sum == (if k >= 1 {
                    window@[0] as int
                } else {
                    0
                }) + (if k >= 2 {
                    window@[1] as int
                } else {
                    0
                }) + (if k >= 3 {
                    window@[2] as int
                } else {
                    0
                }),
            decreases 3 - k,
        {
            sum = sum + window[k];
            k += 1;
        }
        sums.push(sum);
        start += 1;
    }
    assert(sums@ =~= window_sums(depths@));
    sums
}

/// Applies a three measurements sliding window to the input and returns a
/// `Vec` with the sums for each window, with a loop over the position of the
/// window's last measurement. There must be at least one window.
pub fn depth_window_loop(depths: &[u32]) -> (sums: Vec<u32>)
    requires
        depths@.len() >= 3,
        sums_fit(depths@),
    ensures
        sums@ == window_sums(depths@),
{
    let len = depths.len();
    let mut ret = Vec::with_capacity(len - 3 + 1);

    let mut i: usize = 3 - 1;
    while i < len
        invariant
            sums_fit(depths@),
            len == depths@.len(),
            2 <= i <= len,
            ret@.len() == i - 2,
            forall|k: int| 0 <= k < ret@.len() ==> #[trigger] ret@[k] == window_sums(depths@)[k],
        decreases len - i,
    {
        assert(total(windows(depths@)[i - 2]) <= u32::MAX);
        ret.push(depths[i - 2] + depths[i - 1] + depths[i]);
        i += 1;
    }
    assert(ret@ =~= window_sums(depths@));

    ret
}

/// Applies a three measurements sliding window to the input and returns a
/// `Vec` with the sums for each window, walking the measurements, those from
/// the second on and those from the third on side by side. There must be at
/// least two measurements.
pub fn depth_window_izip(depths: &[u32]) -> (sums: Vec<u32>)
    requires
        depths@.len() >= 2,
        sums_fit(depths@),
    ensures
        sums@ == window_sums(depths@),
{
    let second = slice_subrange(depths, 1, depths.len());
    let third = slice_subrange(depths, 2, depths.len());
    let mut sums: Vec<u32> = Vec::new();
    let mut i: usize = 0;
    while i < depths.len() && i < second.len() && i < third.len()
        invariant
            sums_fit(depths@),
            depths@.len() >= 2,
            second@ == depths@.subrange(1, depths@.len() as int),
            third@ == depths@.subrange(2, depths@.len() as int),
            i <= third@.len(),
            sums@.len() == i,
            forall|k: int| 0 <= k < sums@.len() ==> #[trigger] sums@[k] == window_sums(depths@)[k],
        decreases third@.len() - i,
    {
        assert(total(windows(depths@)[i as int]) <= u32::MAX);
        sums.push(depths[i] + second[i] + third[i]);
        i += 1;
    }
    assert(sums@ =~= window_sums(depths@));
    sums
}

/// Hands out the windows of three consecutive measurements with
/// `itertools::Itertools::tuple_windows`, which returns all contiguous
/// windows of an iterator's items as tuples, none where there are fewer items
/// than a tuple holds. The contract says so for tuples of three: window `i`
/// holds the measurements `i`, `i + 1` and `i + 2`.
#[verifier::external_body]
fn tuple_windows(depths: &[u32]) -> (triples: Vec<(u32, u32, u32)>)
    ensures
        triples@ == windows(depths@),
{
    depths.iter().copied().tuple_windows().collect()
}

/// Applies a three measurements sliding window to the input and returns a
/// `Vec` with the sums for each window, taking the windows as tuples.
pub fn depth_window_tuple(depths: &[u32]) -> (sums: Vec<u32>)
    requires
        sums_fit(depths@),
    ensures
        sums@ == window_sums(depths@),
{
    let triples = tuple_windows(depths);
    let mut sums: Vec<u32> = Vec::new();
    let mut i: usize = 0;
    while i < triples.len()
        invariant
            sums_fit(depths@),
            triples@ == windows(depths@),
            i <= triples@.len(),
            sums@.len() == i,
            forall|k: int| 0 <= k < sums@.len() ==> #[trigger] sums@[k] == window_sums(depths@)[k],
        decreases triples@.len() - i,
    {
        let (a, b, c) = triples[i];
        assert(total(windows(depths@)[i as int]) <= u32::MAX);
        sums.push(a + b + c);
        i += 1;
    }
    assert(sums@ =~= window_sums(depths@));
    sums
}

} // verus!
