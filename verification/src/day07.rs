//! Aligning crabs.
//!
//! From a list of integers representing positions on a line, find the cost
//! of grouping all elements at one position by the following rules:
//!
//! 1. moving an element costs the distance moved, and all elements move to
//!    their median, which costs the least;
//!
//! 2. moving an element costs the sum of the integers from zero to the
//!    distance moved, and all elements move to their mean.

use vstd::prelude::*;
use vstd::relations::{sorted_by, total_ordering};
use vstd::seq_lib::lemma_sorted_unique;

verus! {

/// The distance between two positions.
pub open spec fn gap(a: int, b: int) -> int {
    if a <= b {
        b - a
    } else {
        a - b
    }
}

/// The fuel that the fleet needs to reach `target` when a move costs the
/// distance moved.
pub open spec fn linear_cost(fleet: Seq<u16>, target: int) -> int
    decreases fleet.len(),
{
    if fleet.len() == 0 {
        0
    } else {
        linear_cost(fleet.drop_last(), target) + gap(fleet.last() as int, target)
    }
}

/// The sum of the integers from zero to `distance`.
pub open spec fn triangle(distance: int) -> int {
    distance * (distance + 1) / 2
}

/// The fuel that the fleet needs to reach `target` when a move costs the sum
/// of the integers from zero to the distance moved.
pub open spec fn rising_cost(fleet: Seq<u16>, target: int) -> int
    decreases fleet.len(),
{
    if fleet.len() == 0 {
        0
    } else {
        rising_cost(fleet.drop_last(), target) + triangle(gap(fleet.last() as int, target))
    }
}

/// The sum of the positions.
pub open spec fn sum(fleet: Seq<u16>) -> int
    decreases fleet.len(),
{
    if fleet.len() == 0 {
        0
    } else {
        sum(fleet.drop_last()) + fleet.last()
    }
}

/// The order of positions.
pub open spec fn at_most() -> spec_fn(u16, u16) -> bool {
    |a: u16, b: u16| a <= b
}

/// The positions in ascending order.
pub open spec fn ascending(fleet: Seq<u16>) -> Seq<u16> {
    fleet.sort_by(at_most())
}

/// The median of the fleet: with the positions in ascending order, the one
/// in the middle, or the one after the middle where the fleet is even.
pub open spec fn median(fleet: Seq<u16>) -> u16 {
    ascending(fleet)[fleet.len() as int / 2]
}

/// The mean that the second set of rules moves to: the sum of the positions
/// and one more, divided by the number of positions as far as 32 bits count
/// it, of which the lower 16 bits are kept.
pub open spec fn mean(fleet: Seq<u16>) -> u16 {
    (((sum(fleet) + 1) / (fleet.len() % 0x1_0000_0000) as int) % 0x1_0000) as u16
}

/// Sorts the positions with `sort_unstable` of std's slices, which sorts a
/// slice in ascending order without keeping the order of equal elements
/// (of which integers show nothing): afterwards the positions ascend, and
/// each is there as often as before.
#[verifier::external_body]
fn sort_unstable(fleet: &mut Vec<u16>)
    ensures
        sorted_by(final(fleet)@, at_most()),
        final(fleet)@.to_multiset() == old(fleet)@.to_multiset(),
{
    fleet.sort_unstable();
}

/// The fuel to reach a target does not depend on the order of the fleet.
pub proof fn lemma_linear_cost_reordered(a: Seq<u16>, b: Seq<u16>, target: int)
    requires
        a.to_multiset() == b.to_multiset(),
    ensures
        linear_cost(a, target) == linear_cost(b, target),
    decreases a.len(),
{
    a.to_multiset_ensures();
    b.to_multiset_ensures();
    if a.len() == 0 {
        assert(b.len() == 0);
    } else {
        let e = a.last();
        assert(a.contains(e));
        assert(b.to_multiset().count(e) > 0);
        assert(b.contains(e));
        let j = choose|j: int| 0 <= j < b.len() && b[j] == e;
        assert(a.remove(a.len() - 1) =~= a.drop_last());
        assert(a.drop_last().to_multiset() =~= b.remove(j).to_multiset());
        lemma_linear_cost_reordered(a.drop_last(), b.remove(j), target);
        lemma_linear_cost_remove(b, j, target);
    }
}

/// Taking an element out of the fleet takes its fuel out of the cost.
proof fn lemma_linear_cost_remove(fleet: Seq<u16>, j: int, target: int)
    requires
        0 <= j < fleet.len(),
    ensures
        linear_cost(fleet, target) == linear_cost(fleet.remove(j), target) + gap(
            fleet[j] as int,
            target,
        ),
    decreases fleet.len(),
{
    if j == fleet.len() - 1 {
        assert(fleet.remove(j) =~= fleet.drop_last());
    } else {
        lemma_linear_cost_remove(fleet.drop_last(), j, target);
        assert(fleet.remove(j).drop_last() =~= fleet.drop_last().remove(j));
        assert(fleet.remove(j).last() == fleet.last());
    }
}

/// The cost of a part of the fleet is no more than the cost of all of it.
proof fn lemma_linear_cost_monotone(fleet: Seq<u16>, n: int, target: int)
    requires
        0 <= n <= fleet.len(),
    ensures
        0 <= linear_cost(fleet.take(n), target) <= linear_cost(fleet, target),
    decreases fleet.len() - n,
{
    if n == fleet.len() {
        assert(fleet.take(n) =~= fleet);
        lemma_linear_cost_nonnegative(fleet, target);
    } else {
        lemma_linear_cost_monotone(fleet, n + 1, target);
        assert(fleet.take(n + 1).drop_last() =~= fleet.take(n));
        lemma_linear_cost_nonnegative(fleet.take(n), target);
    }
}

/// No cost is below zero.
proof fn lemma_linear_cost_nonnegative(fleet: Seq<u16>, target: int)
    ensures
        0 <= linear_cost(fleet, target),
    decreases fleet.len(),
{
    if fleet.len() > 0 {
        lemma_linear_cost_nonnegative(fleet.drop_last(), target);
    }
}

/// Positions in ascending order need the least fuel to reach the one in
/// their middle.
proof fn lemma_middle_is_cheapest(sorted: Seq<u16>, target: int)
    requires
        sorted.len() > 0,
        sorted_by(sorted, at_most()),
    ensures
        linear_cost(sorted, sorted[sorted.len() as int / 2] as int) <= linear_cost(sorted, target),
    decreases sorted.len(),
{
    let n = sorted.len() as int;
    let middle = sorted[n / 2] as int;
    if n == 1 {
        assert(sorted.drop_last() =~= Seq::empty());
        lemma_linear_cost_nonnegative(sorted, target);
        assert(linear_cost(sorted.drop_last(), middle) == 0);
    } else {
        let first = sorted[0] as int;
        let last = sorted[n - 1] as int;
        let inner = sorted.subrange(1, n - 1);
        assert(sorted.drop_last().remove(0) =~= inner);
        lemma_linear_cost_remove(sorted.drop_last(), 0, middle);
        lemma_linear_cost_remove(sorted.drop_last(), 0, target);
        assert(at_most()(sorted[0], sorted[n / 2]));
        assert(at_most()(sorted[n / 2], sorted[n - 1]));
        if n == 2 {
            assert(inner =~= Seq::empty());
        } else {
            assert forall|i: int, j: int| 0 <= i < j < inner.len() implies (at_most())(
                inner[i],
                inner[j],
            ) by {
                assert(at_most()(sorted[i + 1], sorted[j + 1]));
            }
            assert(inner[inner.len() as int / 2] == sorted[n / 2]);
            lemma_middle_is_cheapest(inner, target);
        }
    }
}

/// No position needs less fuel than the median when a move costs the
/// distance moved.
pub proof fn lemma_median_is_cheapest(fleet: Seq<u16>, target: int)
    requires
        fleet.len() > 0,
    ensures
        linear_cost(fleet, median(fleet) as int) <= linear_cost(fleet, target),
{
    lemma_at_most_is_total();
    fleet.lemma_sort_by_ensures(at_most());
    let sorted = ascending(fleet);
    sorted.to_multiset_ensures();
    fleet.to_multiset_ensures();
    lemma_middle_is_cheapest(sorted, target);
    lemma_linear_cost_reordered(sorted, fleet, median(fleet) as int);
    lemma_linear_cost_reordered(sorted, fleet, target);
}

/// The positions of the fleet in ascending order.
fn sorted_copy(fleet: &[u16]) -> (sorted: Vec<u16>)
    ensures
        sorted@ == ascending(fleet@),
        sorted@.to_multiset() == fleet@.to_multiset(),
        sorted@.len() == fleet@.len(),
{
    let mut sorted: Vec<u16> = Vec::new();
    let mut i: usize = 0;
    while i < fleet.len()
        invariant
            i <= fleet@.len(),
            sorted@ == fleet@.take(i as int),
        decreases fleet@.len() - i,
    {
        sorted.push(fleet[i]);
        assert(sorted@ =~= fleet@.take(i + 1));
        i += 1;
    }
    assert(fleet@.take(i as int) =~= fleet@);
    sort_unstable(&mut sorted);
    proof {
        lemma_at_most_is_total();
        fleet@.lemma_sort_by_ensures(at_most());
        lemma_sorted_unique(sorted@, ascending(fleet@), at_most());
        sorted@.to_multiset_ensures();
        fleet@.to_multiset_ensures();
    }
    sorted
}

/// Returns the minimum amount of fuel to group all elements into a single
/// position when the fuel consumption is given by the absolute distance
/// between the origin and the destination: the amount that takes them to
/// their median. The fleet must not be empty, and the amount must fit.
pub fn min_fuel_pt1(fleet: &[u16]) -> (fuel: u32)
    requires
        fleet@.len() > 0,
        linear_cost(fleet@, median(fleet@) as int) <= u32::MAX,
    ensures
        fuel == linear_cost(fleet@, median(fleet@) as int),
        forall|target: int| fuel <= #[trigger] linear_cost(fleet@, target),
{
    proof {
        assert forall|target: int| linear_cost(fleet@, median(fleet@) as int)
            <= #[trigger] linear_cost(fleet@, target) by {
            lemma_median_is_cheapest(fleet@, target);
        }
    }
    let sorted = sorted_copy(fleet);

    let half = sorted.len() / 2;
    let median = sorted[half];
    proof {
        lemma_linear_cost_reordered(sorted@, fleet@, median as int);
    }

    let mut fuel: u32 = 0;
    let mut k: usize = 0;
    assert(sorted@.take(0) =~= Seq::empty());
    while k < sorted.len()
        invariant
            k <= sorted@.len(),
            linear_cost(sorted@, median as int) <= u32::MAX,
            fuel == linear_cost(sorted@.take(k as int), median as int),
        decreases sorted@.len() - k,
    {
        let n = sorted[k];
        proof {
            assert(sorted@.take(k + 1).drop_last() =~= sorted@.take(k as int));
            lemma_linear_cost_monotone(sorted@, k + 1, median as int);
        }
        let far: u16 = if n > median {
            n - median
        } else {
            median - n
        };
        fuel += far as u32;
        k += 1;
    }
    assert(sorted@.take(k as int) =~= sorted@);
    fuel
}

/// The cost of a part of the fleet is no more than the cost of all of it.
proof fn lemma_rising_cost_monotone(fleet: Seq<u16>, n: int, target: int)
    requires
        0 <= n <= fleet.len(),
    ensures
        0 <= rising_cost(fleet.take(n), target) <= rising_cost(fleet, target),
    decreases fleet.len() - n,
{
    if n == fleet.len() {
        assert(fleet.take(n) =~= fleet);
        lemma_rising_cost_nonnegative(fleet, target);
    } else {
        lemma_rising_cost_monotone(fleet, n + 1, target);
        assert(fleet.take(n + 1).drop_last() =~= fleet.take(n));
        lemma_rising_cost_nonnegative(fleet.take(n), target);
        lemma_triangle_bounds(gap(fleet[n] as int, target));
    }
}

/// No cost is below zero.
proof fn lemma_rising_cost_nonnegative(fleet: Seq<u16>, target: int)
    ensures
        0 <= rising_cost(fleet, target),
    decreases fleet.len(),
{
    if fleet.len() > 0 {
        lemma_rising_cost_nonnegative(fleet.drop_last(), target);
        lemma_triangle_bounds(gap(fleet.last() as int, target));
    }
}

/// The sum of the integers from zero to a distance is not below zero, and
/// for a distance between positions its double fits in 32 bits.
proof fn lemma_triangle_bounds(distance: int)
    requires
        0 <= distance,
    ensures
        0 <= triangle(distance),
        distance <= u16::MAX ==> distance * (distance + 1) <= u32::MAX,
{
    assert(0 <= distance * (distance + 1)) by (nonlinear_arith)
        requires
            0 <= distance,
    ;
    if distance <= u16::MAX {
        assert(distance * (distance + 1) <= 65535 * 65536) by (nonlinear_arith)
            requires
                0 <= distance <= 65535,
        ;
    }
}

/// The sum of a part of the fleet is no more than the sum of all of it.
proof fn lemma_sum_monotone(fleet: Seq<u16>, n: int)
    requires
        0 <= n <= fleet.len(),
    ensures
        0 <= sum(fleet.take(n)) <= sum(fleet),
    decreases fleet.len() - n,
{
    if n == fleet.len() {
        assert(fleet.take(n) =~= fleet);
        lemma_sum_nonnegative(fleet);
    } else {
        lemma_sum_monotone(fleet, n + 1);
        assert(fleet.take(n + 1).drop_last() =~= fleet.take(n));
        lemma_sum_nonnegative(fleet.take(n));
    }
}

/// No sum of positions is below zero.
proof fn lemma_sum_nonnegative(fleet: Seq<u16>)
    ensures
        0 <= sum(fleet),
    decreases fleet.len(),
{
    if fleet.len() > 0 {
        lemma_sum_nonnegative(fleet.drop_last());
    }
}

/// Returns the amount of fuel to group all elements at their mean when the
/// fuel consumption is given by the sum of the integers from zero to the
/// distance between the origin and the destination. The number of elements
/// must not vanish in 32 bits, and their sum and one more, and the amount,
/// must fit.
pub fn min_fuel_pt2(fleet: &[u16]) -> (fuel: u32)
    requires
        fleet@.len() % 0x1_0000_0000 != 0,
        sum(fleet@) + 1 <= u32::MAX,
        rising_cost(fleet@, mean(fleet@) as int) <= u32::MAX,
    ensures
        fuel == rising_cost(fleet@, mean(fleet@) as int),
{
    let length = fleet.len();
    let len = #[verifier::truncate]
    (length as u32);
    assert(len as u64 == (length as u64) % 0x1_0000_0000u64) by (bit_vector)
        requires
            len == #[verifier::truncate]
            (length as u32),
    ;
    let mut sum: u32 = 0;
    let mut i: usize = 0;
    assert(fleet@.take(0) =~= Seq::empty());
    while i < fleet.len()
        invariant
            i <= fleet@.len(),
            self::sum(fleet@) + 1 <= u32::MAX,
            sum == self::sum(fleet@.take(i as int)),
        decreases fleet@.len() - i,
    {
        proof {
            assert(fleet@.take(i + 1).drop_last() =~= fleet@.take(i as int));
            lemma_sum_monotone(fleet@, i + 1);
        }
        sum += fleet[i] as u32;
        i += 1;
    }
    assert(fleet@.take(i as int) =~= fleet@);
    let quotient = (sum + 1) / len;  // +1 for integer division
    let mean = #[verifier::truncate]
    (quotient as u16);
    assert(mean == quotient % 0x1_0000) by (bit_vector)
        requires
            mean == #[verifier::truncate]
            (quotient as u16),
    ;
    assert(mean == self::mean(fleet@));

    let mut fuel: u32 = 0;
    let mut k: usize = 0;
    while k < fleet.len()
        invariant
            k <= fleet@.len(),
            rising_cost(fleet@, mean as int) <= u32::MAX,
            fuel == rising_cost(fleet@.take(k as int), mean as int),
        decreases fleet@.len() - k,
    {
        let n = fleet[k];
        let delta: u32 = if n > mean {
            (n - mean) as u32
        } else {
            (mean - n) as u32
        };
        proof {
            assert(fleet@.take(k + 1).drop_last() =~= fleet@.take(k as int));
            lemma_rising_cost_monotone(fleet@, k + 1, mean as int);
            lemma_triangle_bounds(delta as int);
        }
        fuel += delta * (delta + 1) / 2;
        k += 1;
    }
    assert(fleet@.take(k as int) =~= fleet@);
    fuel
}

/// Tests whether the fuel for both sets of rules can be counted, by counting
/// it in a wider range.
pub fn can_run(crab_fleet: &[u16]) -> (ok: bool)
    ensures
        ok <==> {
            &&& crab_fleet@.len() > 0
            &&& crab_fleet@.len() % 0x1_0000_0000 != 0
            &&& linear_cost(crab_fleet@, median(crab_fleet@) as int) <= u32::MAX
            &&& sum(crab_fleet@) + 1 <= u32::MAX
            &&& rising_cost(crab_fleet@, mean(crab_fleet@) as int) <= u32::MAX
        },
{
    let length = crab_fleet.len();
    let len = #[verifier::truncate]
    (length as u32);
    assert(len as u64 == (length as u64) % 0x1_0000_0000u64) by (bit_vector)
        requires
            len == #[verifier::truncate]
            (length as u32),
    ;
    if length == 0 || len == 0 {
        return false;
    }
    // the fuel to reach the median
    let sorted = sorted_copy(crab_fleet);
    let median = sorted[sorted.len() / 2];
    proof {
        lemma_linear_cost_reordered(sorted@, crab_fleet@, median as int);
    }
    let mut fuel: u64 = 0;
    let mut k: usize = 0;
    assert(sorted@.take(0) =~= Seq::empty());
    while k < sorted.len()
        invariant
            k <= sorted@.len(),
            fuel == linear_cost(sorted@.take(k as int), median as int),
            fuel <= u32::MAX,
            linear_cost(sorted@, median as int) == linear_cost(
                crab_fleet@,
                self::median(crab_fleet@) as int,
            ),
        decreases sorted@.len() - k,
    {
        let n = sorted[k];
        proof {
            assert(sorted@.take(k + 1).drop_last() =~= sorted@.take(k as int));
            lemma_linear_cost_monotone(sorted@, k + 1, median as int);
        }
        let far: u16 = if n > median {
            n - median
        } else {
            median - n
        };
        fuel += far as u64;
        if fuel > u32::MAX as u64 {
            return false;
        }
        k += 1;
    }
    assert(sorted@.take(k as int) =~= sorted@);
    // the sum of the positions, and one more
    let mut sum: u64 = 0;
    let mut i: usize = 0;
    assert(crab_fleet@.take(0) =~= Seq::empty());
    while i < crab_fleet.len()
        invariant
            i <= crab_fleet@.len(),
            sum == self::sum(crab_fleet@.take(i as int)),
            sum < u32::MAX,
        decreases crab_fleet@.len() - i,
    {
        proof {
            assert(crab_fleet@.take(i + 1).drop_last() =~= crab_fleet@.take(i as int));
            lemma_sum_monotone(crab_fleet@, i + 1);
        }
        sum += crab_fleet[i] as u64;
        if sum >= u32::MAX as u64 {
            return false;
        }
        i += 1;
    }
    assert(crab_fleet@.take(i as int) =~= crab_fleet@);
    // the fuel to reach the mean
    let quotient = (sum + 1) / (len as u64);
    let mean = #[verifier::truncate]
    (quotient as u16);
    assert(mean as u64 == quotient % 0x1_0000u64) by (bit_vector)
        requires
            mean == #[verifier::truncate]
            (quotient as u16),
    ;
    assert(mean == self::mean(crab_fleet@));
    let mut fuel: u64 = 0;
    let mut k: usize = 0;
    while k < crab_fleet.len()
        invariant
            k <= crab_fleet@.len(),
            fuel == rising_cost(crab_fleet@.take(k as int), mean as int),
            fuel <= u32::MAX,
            mean == self::mean(crab_fleet@),
        decreases crab_fleet@.len() - k,
    {
        let n = crab_fleet[k];
        let delta: u64 = if n > mean {
            (n - mean) as u64
        } else {
            (mean - n) as u64
        };
        proof {
            assert(crab_fleet@.take(k + 1).drop_last() =~= crab_fleet@.take(k as int));
            lemma_rising_cost_monotone(crab_fleet@, k + 1, mean as int);
            lemma_triangle_bounds(delta as int);
        }
        fuel += delta * (delta + 1) / 2;
        if fuel > u32::MAX as u64 {
            return false;
        }
        k += 1;
    }
    assert(crab_fleet@.take(k as int) =~= crab_fleet@);
    true
}

/// The fuel for both sets of rules.
pub fn run(crab_fleet: &[u16]) -> (fuel: (u32, u32))
    requires
        crab_fleet@.len() > 0,
        crab_fleet@.len() % 0x1_0000_0000 != 0,
        linear_cost(crab_fleet@, median(crab_fleet@) as int) <= u32::MAX,
        sum(crab_fleet@) + 1 <= u32::MAX,
        rising_cost(crab_fleet@, mean(crab_fleet@) as int) <= u32::MAX,
    ensures
        fuel.0 == linear_cost(crab_fleet@, median(crab_fleet@) as int),
        forall|target: int| fuel.0 <= #[trigger] linear_cost(crab_fleet@, target),
        fuel.1 == rising_cost(crab_fleet@, mean(crab_fleet@) as int),
{
    (min_fuel_pt1(crab_fleet), min_fuel_pt2(crab_fleet))
}

/// The order of positions is a total order.
proof fn lemma_at_most_is_total()
    ensures
        total_ordering(at_most()),
{
    let leq = at_most();
    assert(vstd::relations::reflexive(leq));
    assert(vstd::relations::antisymmetric(leq));
    assert(vstd::relations::transitive(leq));
    assert(vstd::relations::strongly_connected(leq));
}

} // verus!
