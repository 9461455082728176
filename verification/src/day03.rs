//! A diagnostic report of binary numbers.
//!
//! From a list of binary numbers, one to a line:
//!
//! 1. determine which bit is the most common for each position and
//!    calculate the power consumption rate from it;
//!
//! 2. determine the oxygen generator rating and the CO2 scrubber rating, by
//!    filtering the numbers position by position until just one remains: for
//!    the first rating the numbers with the most common bit in the position
//!    are kept, for the second those with the least common one.
//!
//! A tie counts as a one being the most common.
//!
//! A line is taken as its bytes; the byte `1` is a one and every other byte
//! counts as a zero.

use crate::helpers::read::{lines, lines_of, texts};
use vstd::arithmetic::power2::{lemma2_to64, lemma_pow2_unfold, pow2};
use vstd::prelude::*;
use vstd::string::StringSliceAdditionalSpecFns;

verus! {

/// The byte that writes a one.
pub const ONE: u8 = 49;

/// The byte that writes a zero.
pub const ZERO: u8 = 48;

/// The number that the bits write, the first bit counting most.
pub open spec fn binary_value(bits: Seq<u8>) -> nat
    decreases bits.len(),
{
    if bits.len() == 0 {
        0
    } else {
        2 * binary_value(bits.drop_last()) + if bits.last() == ONE {
            1nat
        } else {
            0nat
        }
    }
}

/// Half of the elements, rounded up, as far as 32 bits count it.
pub open spec fn half_of(total_elements: int) -> int {
    ((total_elements + 1) / 2) % 0x1_0000_0000
}

/// The most common bit where `bit_1_count` of `total_elements` bits are
/// ones: a one if the ones are at least half of the elements.
pub open spec fn most_common(total_elements: int, bit_1_count: int) -> u8 {
    if bit_1_count >= half_of(total_elements) {
        ONE
    } else {
        ZERO
    }
}

/// The bytes of each line.
pub open spec fn bytes_of(lines: Seq<&str>) -> Seq<Seq<u8>> {
    lines.map_values(|line: &str| line.spec_bytes())
}

/// How many of the lines have a one in position `at`.
pub open spec fn ones_at(lines: Seq<Seq<u8>>, at: int) -> nat
    decreases lines.len(),
{
    if lines.len() == 0 {
        0
    } else {
        ones_at(lines.drop_last(), at) + if at < lines.last().len() && lines.last()[at] == ONE {
            1nat
        } else {
            0nat
        }
    }
}

/// Whether every line has a position `at`.
pub open spec fn all_reach(lines: Seq<Seq<u8>>, at: int) -> bool {
    forall|i: int| 0 <= i < lines.len() ==> at < (#[trigger] lines[i]).len()
}

/// The most common bit in position `at` of the lines, if there are lines
/// and each has that position.
pub open spec fn most_common_at(lines: Seq<Seq<u8>>, at: int) -> Option<u8> {
    if lines.len() == 0 || !all_reach(lines, at) {
        None
    } else {
        Some(most_common(lines.len() as int, ones_at(lines, at) as int))
    }
}

/// No more lines have a one in a position than there are lines.
pub proof fn lemma_ones_at_most_len(lines: Seq<Seq<u8>>, at: int)
    ensures
        ones_at(lines, at) <= lines.len(),
    decreases lines.len(),
{
    if lines.len() > 0 {
        lemma_ones_at_most_len(lines.drop_last(), at);
    }
}

/// A part of the lines has a one in a position no more often than all lines.
proof fn lemma_ones_at_monotone(lines: Seq<Seq<u8>>, at: int, n: int)
    requires
        0 <= n <= lines.len(),
    ensures
        ones_at(lines.take(n), at) <= ones_at(lines, at),
    decreases lines.len() - n,
{
    if n == lines.len() {
        assert(lines.take(n) =~= lines);
    } else {
        lemma_ones_at_monotone(lines, at, n + 1);
        assert(lines.take(n + 1).drop_last() =~= lines.take(n));
    }
}

/// Returns the ascii code for one if `bit_1_count` is equal to or greater
/// than half of `total_elements`, otherwise returns the ascii code for zero.
pub fn most_common_bit_as_ascii(total_elements: usize, bit_1_count: u32) -> (bit: u8)
    requires
        total_elements < usize::MAX,
    ensures
        bit == most_common(total_elements as int, bit_1_count as int),
{
    let half = (total_elements + 1) / 2;
    let half32 = #[verifier::truncate]
    (half as u32);
    assert(half32 as u64 == (half as u64) % 0x1_0000_0000u64) by (bit_vector)
        requires
            half32 == #[verifier::truncate]
            (half as u32),
    ;
    if bit_1_count >= half32 {
        ONE
    } else {
        ZERO
    }
}

/// From a list of lines of binary numbers, finds the most common bit at the
/// given position. There is none if there are no lines or a line is too
/// short.
pub fn most_common_bit(lines: &[&[u8]], at: usize) -> (bit: Option<u8>)
    requires
        lines@.len() < usize::MAX,
        ones_at(texts(lines@), at as int) <= u32::MAX,
    ensures
        bit == most_common_at(texts(lines@), at as int),
{
    let mut freq: u32 = 0;

    if lines.len() == 0 {
        return None;
    }
    let ghost all = texts(lines@);
    let mut i: usize = 0;
    assert(all.take(0) =~= Seq::empty());
    // counting the occurrences of bit `1`
    while i < lines.len()
        invariant
            all == texts(lines@),
            i <= lines@.len(),
            ones_at(all, at as int) <= u32::MAX,
            all_reach(all.take(i as int), at as int),
            freq == ones_at(all.take(i as int), at as int),
        decreases lines@.len() - i,
    {
        let s = lines[i];
        proof {
            assert(all.take(i + 1).drop_last() =~= all.take(i as int));
            assert(all.take(i + 1).last() == s@);
            lemma_ones_at_monotone(all, at as int, i + 1);
        }
        if at >= s.len() {
            assert(all[i as int] == s@);
            return None;
        }
        if s[at] == ONE {
            freq += 1;
        }
        proof {
            assert forall|k: int| 0 <= k < i + 1 implies at < (#[trigger] all.take(i + 1)[k]).len() by {
                if k < i {
                    assert(all.take(i as int)[k] == all[k]);
                }
            }
        }
        i += 1;
    }
    assert(all.take(i as int) =~= all);
    Some(most_common_bit_as_ascii(lines.len(), freq))
}

/// The bytes of each line, for reading.
fn as_bytes<'a>(input: &[&'a str]) -> (lines: Vec<&'a [u8]>)
    ensures
        texts(lines@) == bytes_of(input@),
{
    let mut lines: Vec<&'a [u8]> = Vec::new();
    let mut i: usize = 0;
    while i < input.len()
        invariant
            i <= input@.len(),
            lines@.len() == i,
            forall|k: int| 0 <= k < i ==> (#[trigger] lines@[k])@ == input@[k].spec_bytes(),
        decreases input@.len() - i,
    {
        lines.push(input[i].as_bytes());
        i += 1;
    }
    assert(texts(lines@) =~= bytes_of(input@));
    lines
}

/// From a list of string values representing binary numbers, finds the most
/// common bit `at` the given position and returns it as ascii code. There is
/// none if the list is empty or a value is too short.
pub fn most_common_bit_at(input: &[&str], at: usize) -> (bit: Option<u8>)
    requires
        input@.len() < usize::MAX,
        ones_at(bytes_of(input@), at as int) <= u32::MAX,
    ensures
        bit == most_common_at(bytes_of(input@), at as int),
{
    let lines = as_bytes(input);
    most_common_bit(lines.as_slice(), at)
}

/// The bit at the top of 32 bits, moved down by `shift` places, is the power
/// of two that many places below the top.
proof fn lemma_mask(shift: u32)
    requires
        shift <= 31,
    ensures
        (0x8000_0000u32 >> shift) == pow2((31 - shift) as nat),
    decreases shift,
{
    if shift == 0 {
        lemma2_to64();
        assert(0x8000_0000u32 >> 0u32 == 0x8000_0000u32) by (bit_vector);
    } else {
        lemma_mask((shift - 1) as u32);
        let lower = (shift - 1) as u32;
        assert((0x8000_0000u32 >> shift) * 2 == (0x8000_0000u32 >> lower)) by (bit_vector)
            requires
                1 <= shift <= 31,
                lower == shift - 1,
        ;
        lemma_pow2_unfold((31 - lower) as nat);
    }
}

/// As many bits as `bits` holds write a number below that power of two.
proof fn lemma_binary_value_bound(bits: Seq<u8>)
    ensures
        binary_value(bits) < pow2(bits.len()),
    decreases bits.len(),
{
    if bits.len() == 0 {
        lemma2_to64();
    } else {
        lemma_binary_value_bound(bits.drop_last());
        lemma_pow2_unfold(bits.len());
    }
}

/// Parses bytes representing binary numbers up to 32 bits. Also returns zero
/// if the input is empty.
pub fn parse_bits(bits: &[u8]) -> (value: u32)
    requires
        bits@.len() <= 32,
    ensures
        value == binary_value(bits@),
{
    let number_of_bits = bits.len();
    let mut acc: u32 = 0;
    let mut i: usize = 0;
    proof {
        assert(bits@.take(0) =~= Seq::empty());
        assert(0 == 0 * pow2(number_of_bits as nat)) by (nonlinear_arith);
    }
    while i < number_of_bits
        invariant
            number_of_bits == bits@.len(),
            number_of_bits <= 32,
            i <= number_of_bits,
            acc == binary_value(bits@.take(i as int)) * pow2((number_of_bits - i) as nat),
        decreases number_of_bits - i,
    {
        let shift = 32 - number_of_bits + i;
        let mask: u32 = 0x8000_0000u32 >> shift;
        proof {
            let before = binary_value(bits@.take(i as int));
            let after = binary_value(bits@.take(i + 1));
            let unit = pow2((number_of_bits - i - 1) as nat);
            lemma_mask(shift as u32);
            assert(mask == unit);
            lemma_pow2_unfold((number_of_bits - i) as nat);
            assert(acc == before * (2 * unit));
            assert(bits@.take(i + 1).drop_last() =~= bits@.take(i as int));
            assert(bits@.take(i + 1).last() == bits@[i as int]);
            lemma_binary_value_bound(bits@.take(i + 1));
            vstd::arithmetic::power2::lemma_pow2_adds(
                (i + 1) as nat,
                (number_of_bits - i - 1) as nat,
            );
            if number_of_bits < 32 {
                vstd::arithmetic::power2::lemma_pow2_strictly_increases(number_of_bits as nat, 32);
            }
            lemma2_to64();
            vstd::arithmetic::power2::lemma_pow2_pos((number_of_bits - i - 1) as nat);
            assert(after * unit < pow2((i + 1) as nat) * unit) by (nonlinear_arith)
                requires
                    after < pow2((i + 1) as nat),
                    unit > 0,
            ;
            assert(after * unit < 0x1_0000_0000);
            if bits@[i as int] == ONE {
                assert(before * (2 * unit) + unit == after * unit) by (nonlinear_arith)
                    requires
                        after == 2 * before + 1,
                ;
            } else {
                assert(before * (2 * unit) == after * unit) by (nonlinear_arith)
                    requires
                        after == 2 * before,
                ;
            }
        }
        if bits[i] == ONE {
            acc = acc + mask;
        }
        i += 1;
    }
    proof {
        assert(bits@.take(i as int) =~= bits@);
        lemma2_to64();
        assert(binary_value(bits@) * 1 == binary_value(bits@)) by (nonlinear_arith);
    }
    acc
}

/// Parses strings representing binary numbers up to 32 bits. Also returns
/// zero if the input is empty.
pub fn parse_binary(s: &str) -> (value: u32)
    requires
        s.spec_bytes().len() <= 32,
    ensures
        value == binary_value(s.spec_bytes()),
{
    parse_bits(s.as_bytes())
}

/// Whether the byte begins a character.
pub open spec fn starts_char(byte: u8) -> bool {
    byte < 128 || byte >= 192
}

/// How many characters of the line begin before the byte `k`.
pub open spec fn char_index(line: Seq<u8>, k: int) -> nat
    decreases k,
{
    if k <= 0 {
        0
    } else {
        char_index(line, k - 1) + if starts_char(line[k - 1]) {
            1nat
        } else {
            0nat
        }
    }
}

/// How many ones stand among the first `upto` bytes of the line as its
/// character number `column`.
pub open spec fn ones_in(line: Seq<u8>, column: int, upto: int) -> nat
    decreases upto,
{
    if upto <= 0 {
        0
    } else {
        ones_in(line, column, upto - 1) + if line[upto - 1] == ONE && char_index(line, upto - 1)
            == column {
            1nat
        } else {
            0nat
        }
    }
}

/// How many ones stand in the lines as character number `column` of their
/// line.
pub open spec fn column_ones(lines: Seq<Seq<u8>>, column: int) -> nat
    decreases lines.len(),
{
    if lines.len() == 0 {
        0
    } else {
        column_ones(lines.drop_last(), column) + ones_in(
            lines.last(),
            column,
            lines.last().len() as int,
        )
    }
}

/// What counting the ones needs of the lines: no one stands beyond the
/// twelfth character of its line, and no column holds more ones than 32 bits
/// can count.
pub open spec fn frequencies_fit(lines: Seq<Seq<u8>>) -> bool {
    &&& forall|i: int, k: int|
        0 <= i < lines.len() && 0 <= k < lines[i].len() && (#[trigger] lines[i][k]) == ONE
            ==> char_index(lines[i], k) < 12
    &&& forall|column: int| 0 <= column < 12 ==> #[trigger] column_ones(lines, column) <= u32::MAX
}

/// The first bytes of a line hold no more ones than the line.
proof fn lemma_ones_in_monotone(line: Seq<u8>, column: int, upto: int)
    requires
        0 <= upto <= line.len(),
    ensures
        ones_in(line, column, upto) <= ones_in(line, column, line.len() as int),
    decreases line.len() - upto,
{
    if upto < line.len() {
        lemma_ones_in_monotone(line, column, upto + 1);
    }
}

/// The first lines hold no more ones than all lines.
proof fn lemma_column_ones_monotone(lines: Seq<Seq<u8>>, column: int, n: int)
    requires
        0 <= n <= lines.len(),
    ensures
        column_ones(lines.take(n), column) <= column_ones(lines, column),
    decreases lines.len() - n,
{
    if n == lines.len() {
        assert(lines.take(n) =~= lines);
    } else {
        lemma_column_ones_monotone(lines, column, n + 1);
        assert(lines.take(n + 1).drop_last() =~= lines.take(n));
    }
}

/// Returns the total of elements in the list and an array of `frequencies`
/// for the occurrences of bit `1` in each position. The input is a list of
/// binary numbers of up to 12 bits, one to a line; a number of fewer bits
/// counts as if zeros followed it. An input without lines gives a total of
/// one.
pub fn get_frequencies(input: &str) -> (counted: (usize, [u32; 12]))
    requires
        frequencies_fit(lines_of(input.spec_bytes())),
    ensures
        counted.0 == if lines_of(input.spec_bytes()).len() == 0 {
            1
        } else {
            lines_of(input.spec_bytes()).len() as int
        },
        forall|column: int|
            0 <= column < 12 ==> counted.1@[column] == #[trigger] column_ones(
                lines_of(input.spec_bytes()),
                column,
            ),
{
    let mut frequencies: [u32; 12] = [0;12];
    let mut size: usize = 0;

    let found = lines(input.as_bytes());
    let ghost all = texts(found@);
    let mut line_count: usize = 0;
    assert(all.take(0) =~= Seq::empty());
    while line_count < found.len()
        invariant
            all == texts(found@),
            frequencies_fit(all),
            line_count <= found@.len(),
            size == if line_count == 0 {
                0
            } else {
                line_count - 1
            },
            forall|column: int|
                0 <= column < 12 ==> frequencies@[column] == #[trigger] column_ones(
                    all.take(line_count as int),
                    column,
                ),
        decreases found@.len() - line_count,
    {
        let s = found[line_count];
        let ghost before = all.take(line_count as int);
        proof {
            assert(all.take(line_count + 1).drop_last() =~= before);
            assert(all.take(line_count + 1).last() == s@);
            assert(all[line_count as int] == s@);
        }
        let mut i: usize = 0;
        let mut k: usize = 0;
        while k < s.len()
            invariant
                all == texts(found@),
                frequencies_fit(all),
                line_count < found@.len(),
                all[line_count as int] == s@,
                before == all.take(line_count as int),
                all.take(line_count + 1).drop_last() == before,
                all.take(line_count + 1).last() == s@,
                k <= s@.len(),
                i == char_index(s@, k as int),
                i <= k,
                forall|column: int|
                    0 <= column < 12 ==> frequencies@[column] == #[trigger] column_ones(
                        before,
                        column,
                    ) + ones_in(s@, column, k as int),
            decreases s@.len() - k,
        {
            let ch = s[k];
            if ch == ONE {
                proof {
                    assert(all[line_count as int][k as int] == ONE);
                    assert(i < 12);
                    lemma_ones_in_monotone(s@, i as int, k + 1);
                    lemma_column_ones_monotone(all, i as int, line_count + 1);
                    assert(column_ones(all.take(line_count + 1), i as int) == column_ones(
                        before,
                        i as int,
                    ) + ones_in(s@, i as int, s@.len() as int));
                    assert(column_ones(all, i as int) <= u32::MAX);
                }
                frequencies[i] += 1;
            }
            if ch < 128 || ch >= 192 {
                i += 1;
            }
            k += 1;
        }
        proof {
            assert forall|column: int| 0 <= column < 12 implies frequencies@[column]
                == #[trigger] column_ones(all.take(line_count + 1), column) by {
                assert(frequencies@[column] == column_ones(before, column) + ones_in(
                    s@,
                    column,
                    s@.len() as int,
                ));
            }
        }
        size = line_count;
        line_count += 1;
    }
    assert(all.take(line_count as int) =~= all);
    size += 1;  // +1 because counting started at zero

    (size, frequencies)
}

/// The most common bit of each of the twelve positions.
pub open spec fn gamma_bits(total_elements: int, bit_1_frequencies: Seq<u32>) -> Seq<u8> {
    Seq::new(12, |i: int| most_common(total_elements, bit_1_frequencies[i] as int))
}

/// Returns the power consumption rate: gamma, the number that the most
/// common bits of the twelve positions write, times epsilon, the number that
/// the least common bits write.
pub fn power_consumption_rate(total_elements: usize, bit_1_frequencies: &[u32; 12]) -> (rate: u32)
    requires
        total_elements < usize::MAX,
    ensures
        rate == binary_value(gamma_bits(total_elements as int, bit_1_frequencies@)) * (4095
            - binary_value(gamma_bits(total_elements as int, bit_1_frequencies@))),
{
    // gamma is composed by the most common bits on diagnostic report
    let mut gamma: [u8; 12] = [0;12];
    let mut i: usize = 0;
    while i < 12
        invariant
            total_elements < usize::MAX,
            i <= 12,
            forall|k: int|
                0 <= k < i ==> gamma@[k] == most_common(
                    total_elements as int,
                    bit_1_frequencies@[k] as int,
                ),
        decreases 12 - i,
    {
        gamma[i] = most_common_bit_as_ascii(total_elements, bit_1_frequencies[i]);
        i += 1;
    }
    assert(gamma@ =~= gamma_bits(total_elements as int, bit_1_frequencies@));
    let gamma = parse_bits(gamma.as_slice());
    proof {
        lemma_binary_value_bound(gamma_bits(total_elements as int, bit_1_frequencies@));
        lemma2_to64();
    }

    // epsilon is the reverse of gamma, the least common digits
    let epsilon = gamma ^ 0b111111111111u32;
    assert(epsilon == 4095 - gamma) by (bit_vector)
        requires
            gamma < 4096,
            epsilon == gamma ^ 0b111111111111u32,
    ;
    assert(gamma * epsilon <= 4095 * 4095) by (nonlinear_arith)
        requires
            gamma <= 4095,
            epsilon <= 4095,
    ;

    gamma * epsilon
}

/// The number of elements that the report counts: its lines, or one where it
/// has none.
pub open spec fn total_of(lines: Seq<Seq<u8>>) -> int {
    if lines.len() == 0 {
        1
    } else {
        lines.len() as int
    }
}

/// The number that the most common bits of the twelve positions of the
/// report write.
pub open spec fn gamma_of(lines: Seq<Seq<u8>>) -> nat {
    binary_value(
        gamma_bits(total_of(lines), Seq::new(12, |column: int| column_ones(lines, column) as u32)),
    )
}

/// The lines that a round of filtering keeps: for the oxygen generator
/// rating those with `bit` in position `at`, for the other rating those
/// without it.
pub open spec fn kept(lines: Seq<Seq<u8>>, at: int, bit: u8, is_ogr: bool) -> Seq<Seq<u8>>
    decreases lines.len(),
{
    if lines.len() == 0 {
        Seq::empty()
    } else if (lines.last()[at] == bit) == is_ogr {
        kept(lines.drop_last(), at, bit, is_ogr).push(lines.last())
    } else {
        kept(lines.drop_last(), at, bit, is_ogr)
    }
}

/// Whether the filtering ends with these lines at position `at`: one line is
/// left, or none, or a line has no such position.
pub open spec fn settled(lines: Seq<Seq<u8>>, at: int) -> bool {
    most_common_at(lines, at) is None || lines.len() == 1
}

/// The lines after `rounds` rounds of filtering, round `k` filtering by the
/// most common bit in position `k`. Once the filtering has ended, further
/// rounds change nothing.
pub open spec fn narrowed(lines: Seq<Seq<u8>>, is_ogr: bool, rounds: nat) -> Seq<Seq<u8>>
    decreases rounds,
{
    if rounds == 0 {
        lines
    } else {
        let before = narrowed(lines, is_ogr, (rounds - 1) as nat);
        if settled(before, rounds - 1) {
            before
        } else {
            kept(before, rounds - 1, most_common_at(before, rounds - 1)->0, is_ogr)
        }
    }
}

/// The length of the longest line.
pub open spec fn longest(lines: Seq<Seq<u8>>) -> nat
    decreases lines.len(),
{
    if lines.len() == 0 {
        0
    } else if lines.last().len() > longest(lines.drop_last()) {
        lines.last().len()
    } else {
        longest(lines.drop_last())
    }
}

/// The lines that are left when the filtering has ended: after as many
/// rounds as the longest line has positions it has.
pub open spec fn remaining(lines: Seq<Seq<u8>>, is_ogr: bool) -> Seq<Seq<u8>> {
    narrowed(lines, is_ogr, longest(lines))
}

/// Whether the filtering leaves a number: there are fewer lines than 32
/// bits can count, a line is left at the end, and the first of those left has
/// at most 32 bits.
pub open spec fn ratable(lines: Seq<Seq<u8>>, is_ogr: bool) -> bool {
    &&& lines.len() < u32::MAX
    &&& remaining(lines, is_ogr).len() > 0
    &&& remaining(lines, is_ogr)[0].len() <= 32
}

/// Whether no line is longer than `bound`.
spec fn within(lines: Seq<Seq<u8>>, bound: nat) -> bool {
    forall|i: int| 0 <= i < lines.len() ==> (#[trigger] lines[i]).len() <= bound
}

/// No line is longer than the longest.
proof fn lemma_longest(lines: Seq<Seq<u8>>)
    ensures
        within(lines, longest(lines)),
    decreases lines.len(),
{
    if lines.len() > 0 {
        lemma_longest(lines.drop_last());
        assert forall|i: int| 0 <= i < lines.len() implies (#[trigger] lines[i]).len() <= longest(
            lines,
        ) by {
            if i < lines.len() - 1 {
                assert(lines.drop_last()[i] == lines[i]);
            }
        }
    }
}

/// Filtering keeps lines only, and no more than there were.
proof fn lemma_kept(lines: Seq<Seq<u8>>, at: int, bit: u8, is_ogr: bool, bound: nat)
    requires
        within(lines, bound),
    ensures
        within(kept(lines, at, bit, is_ogr), bound),
        kept(lines, at, bit, is_ogr).len() <= lines.len(),
    decreases lines.len(),
{
    if lines.len() > 0 {
        lemma_kept(lines.drop_last(), at, bit, is_ogr, bound);
        assert forall|i: int| 0 <= i < lines.drop_last().len() implies (
        #[trigger] lines.drop_last()[i]).len() <= bound by {
            assert(lines.drop_last()[i] == lines[i]);
        }
        assert(lines.last() == lines[lines.len() - 1]);
    }
}

/// Rounds of filtering keep lines only, and no more than there were.
proof fn lemma_narrowed(lines: Seq<Seq<u8>>, is_ogr: bool, rounds: nat, bound: nat)
    requires
        within(lines, bound),
    ensures
        within(narrowed(lines, is_ogr, rounds), bound),
        narrowed(lines, is_ogr, rounds).len() <= lines.len(),
    decreases rounds,
{
    if rounds > 0 {
        let before = narrowed(lines, is_ogr, (rounds - 1) as nat);
        lemma_narrowed(lines, is_ogr, (rounds - 1) as nat, bound);
        if !settled(before, rounds - 1) {
            lemma_kept(before, rounds - 1, most_common_at(before, rounds - 1)->0, is_ogr, bound);
        }
    }
}

/// Once the filtering has ended, further rounds change nothing.
proof fn lemma_settled_stays(lines: Seq<Seq<u8>>, is_ogr: bool, ended: nat, later: nat)
    requires
        settled(narrowed(lines, is_ogr, ended), ended as int),
        ended <= later,
    ensures
        narrowed(lines, is_ogr, later) == narrowed(lines, is_ogr, ended),
        settled(narrowed(lines, is_ogr, later), later as int),
    decreases later,
{
    if ended < later {
        lemma_settled_stays(lines, is_ogr, ended, (later - 1) as nat);
        let left = narrowed(lines, is_ogr, ended);
        if left.len() != 1 && left.len() != 0 {
            let short = choose|i: int| 0 <= i < left.len() && !(ended < (#[trigger] left[i]).len());
            assert(!(later < left[short].len()));
        }
    }
}

/// The filtering has ended after as many rounds as the longest line has
/// positions.
proof fn lemma_settles(lines: Seq<Seq<u8>>, is_ogr: bool)
    ensures
        settled(remaining(lines, is_ogr), longest(lines) as int),
{
    lemma_longest(lines);
    lemma_narrowed(lines, is_ogr, longest(lines), longest(lines));
    let left = remaining(lines, is_ogr);
    if left.len() > 0 {
        assert(!(longest(lines) < left[0].len()));
    }
}

/// Returns a life support parameter: the number that the first of the lines
/// writes that the filtering leaves, if it leaves a number. If the flag
/// `is_ogr` is set, it is the oxygen generator rating, otherwise the CO2
/// scrubber rating.
pub fn life_support_rating(lines: &[&[u8]], is_ogr: bool) -> (rating: Option<u32>)
    ensures
        rating is Some <==> ratable(texts(lines@), is_ogr),
        rating is Some ==> rating->0 == binary_value(remaining(texts(lines@), is_ogr)[0]),
{
    let ghost all = texts(lines@);
    if lines.len() >= u32::MAX as usize {
        return None;
    }
    // copies the input because filtered elements are removed
    let mut values: Vec<&[u8]> = Vec::new();
    let mut c: usize = 0;
    while c < lines.len()
        invariant
            c <= lines@.len(),
            values@ == lines@.take(c as int),
        decreases lines@.len() - c,
    {
        values.push(lines[c]);
        assert(values@ =~= lines@.take(c + 1));
        c += 1;
    }
    assert(lines@.take(c as int) =~= lines@);
    let mut idx: usize = 0;
    loop
        invariant
            all == texts(lines@),
            all.len() < u32::MAX,
            texts(values@) == narrowed(all, is_ogr, idx as nat),
        ensures
            texts(values@) == narrowed(all, is_ogr, idx as nat),
            settled(texts(values@), idx as int),
        decreases longest(all) + 1 - idx,
    {
        proof {
            lemma_longest(all);
            lemma_narrowed(all, is_ogr, idx as nat, longest(all));
            lemma_ones_at_most_len(texts(values@), idx as int);
        }
        let most_common = match most_common_bit(values.as_slice(), idx) {
            Some(bit) => bit,
            None => {
                break ;
            },
        };
        if values.len() == 1 {
            break ;
        }
        proof {
            assert(texts(values@)[0] == values@[0]@);
            assert(idx < values@[0]@.len());
            assert(values[0].len() <= usize::MAX);
        }
        let ghost before = texts(values@);
        let mut filtered: Vec<&[u8]> = Vec::new();
        let mut i: usize = 0;
        assert(before.take(0) =~= Seq::empty());
        assert(texts(filtered@) =~= Seq::empty());
        while i < values.len()
            invariant
                before == texts(values@),
                all_reach(before, idx as int),
                idx < usize::MAX,
                i <= values@.len(),
                texts(filtered@) == kept(before.take(i as int), idx as int, most_common, is_ogr),
            decreases values@.len() - i,
        {
            let s = values[i];
            proof {
                assert(before.take(i + 1).drop_last() =~= before.take(i as int));
                assert(before.take(i + 1).last() == s@);
                assert(before[i as int] == s@);
            }
            // keeps the most common for the first rating and the least
            // common for the other
            if !((s[idx] == most_common) ^ is_ogr) {
                let ghost so_far = texts(filtered@);
                filtered.push(s);
                assert(texts(filtered@) =~= so_far.push(s@));
            }
            i += 1;
        }
        assert(before.take(i as int) =~= before);
        values = filtered;
        idx += 1;
    }
    proof {
        lemma_settles(all, is_ogr);
        if idx <= longest(all) {
            lemma_settled_stays(all, is_ogr, idx as nat, longest(all));
        } else {
            lemma_settled_stays(all, is_ogr, longest(all), idx as nat);
        }
        assert(texts(values@) == remaining(all, is_ogr));
    }
    if values.len() == 0 {
        return None;
    }
    assert(texts(values@)[0] == values@[0]@);
    if values[0].len() > 32 {
        return None;
    }

    Some(parse_bits(values[0]))
}

/// Returns life support parameters. If the flag `is_ogr` is set, it returns
/// the oxygen generator rating, otherwise returns the CO2 scrubber rating.
pub fn calc_life_support_params(input: &[&str], is_ogr: bool) -> (rating: u32)
    requires
        ratable(bytes_of(input@), is_ogr),
    ensures
        rating == binary_value(remaining(bytes_of(input@), is_ogr)[0]),
{
    let lines = as_bytes(input);
    life_support_rating(lines.as_slice(), is_ogr).unwrap()
}

/// A line has at most one one in a column, and none in a column that its
/// first bytes do not reach.
proof fn lemma_ones_in_at_most_one(line: Seq<u8>, column: int, upto: int)
    requires
        0 <= upto <= line.len(),
    ensures
        ones_in(line, column, upto) <= if char_index(line, upto) > column {
            1nat
        } else {
            0nat
        },
    decreases upto,
{
    if upto > 0 {
        lemma_ones_in_at_most_one(line, column, upto - 1);
    }
}

/// No column holds more ones than there are lines.
proof fn lemma_column_ones_at_most_len(lines: Seq<Seq<u8>>, column: int)
    ensures
        column_ones(lines, column) <= lines.len(),
    decreases lines.len(),
{
    if lines.len() > 0 {
        lemma_column_ones_at_most_len(lines.drop_last(), column);
        lemma_ones_in_at_most_one(lines.last(), column, lines.last().len() as int);
    }
}

/// Tests whether the rates of the report can be found: no one stands beyond
/// the twelfth character of its line, the filtering leaves a number for
/// either rating, and the product of the two ratings fits.
pub fn can_run(diagnostic_report: &str) -> (ok: bool)
    ensures
        ok <==> {
            &&& frequencies_fit(lines_of(diagnostic_report.spec_bytes()))
            &&& ratable(lines_of(diagnostic_report.spec_bytes()), true)
            &&& ratable(lines_of(diagnostic_report.spec_bytes()), false)
            &&& binary_value(remaining(lines_of(diagnostic_report.spec_bytes()), true)[0])
                * binary_value(remaining(lines_of(diagnostic_report.spec_bytes()), false)[0])
                <= u32::MAX
        },
{
    let report = lines(diagnostic_report.as_bytes());
    let ghost all = texts(report@);
    let ogr = match life_support_rating(report.as_slice(), true) {
        Some(rating) => rating,
        None => {
            return false;
        },
    };
    let co2sr = match life_support_rating(report.as_slice(), false) {
        Some(rating) => rating,
        None => {
            return false;
        },
    };
    assert(ogr * co2sr <= u32::MAX * u32::MAX) by (nonlinear_arith)
        requires
            0 <= ogr <= u32::MAX,
            0 <= co2sr <= u32::MAX,
    ;
    if ogr as u64 * co2sr as u64 > u32::MAX as u64 {
        return false;
    }
    let mut line_count: usize = 0;
    while line_count < report.len()
        invariant
            all == texts(report@),
            all == lines_of(diagnostic_report.spec_bytes()),
            line_count <= report@.len(),
            forall|i: int, k: int|
                0 <= i < line_count && 0 <= k < all[i].len() && (#[trigger] all[i][k]) == ONE
                    ==> char_index(all[i], k) < 12,
        decreases report@.len() - line_count,
    {
        let s = report[line_count];
        assert(all[line_count as int] == s@);
        let mut i: usize = 0;
        let mut k: usize = 0;
        while k < s.len()
            invariant
                all == texts(report@),
                all == lines_of(diagnostic_report.spec_bytes()),
                line_count < report@.len(),
                all[line_count as int] == s@,
                k <= s@.len(),
                i == char_index(s@, k as int),
                i <= k,
                forall|j: int|
                    0 <= j < k && (#[trigger] s@[j]) == ONE ==> char_index(s@, j) < 12,
            decreases s@.len() - k,
        {
            let ch = s[k];
            if ch == ONE && i >= 12 {
                assert(all[line_count as int][k as int] == ONE);
                return false;
            }
            if ch < 128 || ch >= 192 {
                i += 1;
            }
            k += 1;
        }
        line_count += 1;
    }
    proof {
        assert forall|column: int| 0 <= column < 12 implies #[trigger] column_ones(all, column)
            <= u32::MAX by {
            lemma_column_ones_at_most_len(all, column);
        }
    }
    true
}

/// Returns the power consumption rate and the life support rate of the
/// report: the latter is the oxygen generator rating times the CO2 scrubber
/// rating.
pub fn run(diagnostic_report: &str) -> (rates: (u32, u32))
    requires
        frequencies_fit(lines_of(diagnostic_report.spec_bytes())),
        ratable(lines_of(diagnostic_report.spec_bytes()), true),
        ratable(lines_of(diagnostic_report.spec_bytes()), false),
        binary_value(remaining(lines_of(diagnostic_report.spec_bytes()), true)[0]) * binary_value(
            remaining(lines_of(diagnostic_report.spec_bytes()), false)[0],
        ) <= u32::MAX,
    ensures
        rates.0 == gamma_of(lines_of(diagnostic_report.spec_bytes())) * (4095 - gamma_of(
            lines_of(diagnostic_report.spec_bytes()),
        )),
        rates.1 == binary_value(remaining(lines_of(diagnostic_report.spec_bytes()), true)[0])
            * binary_value(remaining(lines_of(diagnostic_report.spec_bytes()), false)[0]),
{
    // Part 01 - Power consumption parameters
    let (size, frequencies) = get_frequencies(diagnostic_report);
    let pcr = power_consumption_rate(size, &frequencies);
    proof {
        let all = lines_of(diagnostic_report.spec_bytes());
        assert(frequencies@ =~= Seq::new(12, |column: int| column_ones(all, column) as u32));
    }

    // Part 02 - Life support parameters
    let report = lines(diagnostic_report.as_bytes());
    let ogr = life_support_rating(report.as_slice(), true).unwrap();
    let co2sr = life_support_rating(report.as_slice(), false).unwrap();

    (pcr, ogr * co2sr)
}

} // verus!
