//! Reading values out of text.
//!
//! Text is taken as its bytes. It is cut into lines, into the pieces between
//! the occurrences of a separator or into words, and each piece is read as a
//! value of a type that says, with `FromText`, which texts stand for which of
//! its values. Pieces that stand for no value are left out.

use vstd::prelude::*;
use vstd::slice::slice_subrange;
use vstd::string::StringSliceAdditionalSpecFns;

verus! {

/// A type whose values can be written as text.
pub trait FromText: Sized {
    /// The value that a text stands for, if it stands for one.
    spec fn parsed(text: Seq<u8>) -> Option<Self>;

    /// Reads a value from the text that stands for it.
    fn from_text(text: &[u8]) -> (value: Option<Self>)
        ensures
            value == Self::parsed(text@),
    ;
}

/// The text stands for no value.
#[derive(Copy, Clone, Debug, PartialEq, Eq)]
pub struct ParseError;

/// Reads a value from the string that stands for it.
pub fn parse<T: FromText>(s: &str) -> (value: Result<T, ParseError>)
    ensures
        value == match T::parsed(s.spec_bytes()) {
            Some(value) => Ok::<T, ParseError>(value),
            None => Err(ParseError),
        },
{
    match T::from_text(s.as_bytes()) {
        Some(value) => Ok(value),
        None => Err(ParseError),
    }
}

/// The texts of the pieces.
pub open spec fn texts(pieces: Seq<&[u8]>) -> Seq<Seq<u8>> {
    pieces.map_values(|piece: &[u8]| piece@)
}

/// Whether `pattern` stands in `text` at position `at`.
pub open spec fn found_at(text: Seq<u8>, pattern: Seq<u8>, at: int) -> bool {
    0 <= at && at + pattern.len() <= text.len() && text.subrange(at, at + pattern.len()) == pattern
}

/// The pieces of `text` from `start` on, cut at the occurrences of `pattern`
/// from `at` on: the leftmost first, the next one after its end.
pub open spec fn split_from(text: Seq<u8>, pattern: Seq<u8>, start: int, at: int) -> Seq<Seq<u8>>
    decreases text.len() - at,
    when pattern.len() > 0
{
    if at + pattern.len() > text.len() {
        seq![text.subrange(start, text.len() as int)]
    } else if found_at(text, pattern, at) {
        seq![text.subrange(start, at)] + split_from(
            text,
            pattern,
            at + pattern.len(),
            at + pattern.len(),
        )
    } else {
        split_from(text, pattern, start, at + 1)
    }
}

/// The pieces of `text` between the occurrences of `pattern`, which is not
/// empty: one more piece than there are occurrences, empty pieces included.
pub open spec fn split_text(text: Seq<u8>, pattern: Seq<u8>) -> Seq<Seq<u8>> {
    split_from(text, pattern, 0, 0)
}

/// The line without the carriage return that it may end with.
pub open spec fn without_return(line: Seq<u8>) -> Seq<u8> {
    if line.len() > 0 && line.last() == 13 {
        line.drop_last()
    } else {
        line
    }
}

/// The lines of `text` from `start` on, with the line feeds looked for from
/// `at` on.
pub open spec fn lines_from(text: Seq<u8>, start: int, at: int) -> Seq<Seq<u8>>
    decreases text.len() - at,
{
    if at >= text.len() {
        if start < text.len() {
            seq![text.subrange(start, text.len() as int)]
        } else {
            Seq::empty()
        }
    } else if text[at] == 10 {
        seq![without_return(text.subrange(start, at))] + lines_from(text, at + 1, at + 1)
    } else {
        lines_from(text, start, at + 1)
    }
}

/// The lines of `text`. A line ends with a line feed or with a carriage
/// return and a line feed, neither of which belongs to it; the last line may
/// end with the text instead, and is then kept as it is. After the last
/// line ending no empty line follows.
pub open spec fn lines_of(text: Seq<u8>) -> Seq<Seq<u8>> {
    lines_from(text, 0, 0)
}

/// Whether the byte is white space of ASCII: a space, a tab, a line feed, a
/// form feed or a carriage return.
pub open spec fn is_space(byte: u8) -> bool {
    byte == 32 || byte == 9 || byte == 10 || byte == 12 || byte == 13
}

/// The words of `text` from `start` on, with the white space looked for from
/// `at` on.
pub open spec fn words_from(text: Seq<u8>, start: int, at: int) -> Seq<Seq<u8>>
    decreases text.len() - at,
{
    if at >= text.len() {
        if start < text.len() {
            seq![text.subrange(start, text.len() as int)]
        } else {
            Seq::empty()
        }
    } else if is_space(text[at]) {
        if start < at {
            seq![text.subrange(start, at)] + words_from(text, at + 1, at + 1)
        } else {
            words_from(text, at + 1, at + 1)
        }
    } else {
        words_from(text, start, at + 1)
    }
}

/// The words of `text`: the pieces between white space of ASCII that are
/// not empty.
pub open spec fn words_of(text: Seq<u8>) -> Seq<Seq<u8>> {
    words_from(text, 0, 0)
}

/// The values that the pieces stand for, in order; pieces that stand for no
/// value are left out.
pub open spec fn parsed_each<T: FromText>(pieces: Seq<Seq<u8>>) -> Seq<T>
    decreases pieces.len(),
{
    if pieces.len() == 0 {
        Seq::empty()
    } else {
        match T::parsed(pieces.last()) {
            Some(value) => parsed_each::<T>(pieces.drop_last()).push(value),
            None => parsed_each::<T>(pieces.drop_last()),
        }
    }
}

/// Whether the byte is a decimal digit.
pub open spec fn is_digit(byte: u8) -> bool {
    48 <= byte <= 57
}

/// Whether the text holds decimal digits only.
pub open spec fn all_digits(digits: Seq<u8>) -> bool {
    forall|i: int| 0 <= i < digits.len() ==> is_digit(#[trigger] digits[i])
}

/// The number that decimal digits write.
pub open spec fn digits_value(digits: Seq<u8>) -> int
    decreases digits.len(),
{
    if digits.len() == 0 {
        0
    } else {
        digits_value(digits.drop_last()) * 10 + (digits.last() - 48)
    }
}

/// The number from `min` to `max` that the text writes: decimal digits, at
/// least one, after a plus sign or none, or after a minus sign where `min`
/// admits numbers below zero. Nothing else may stand in the text.
pub open spec fn parsed_number(text: Seq<u8>, min: int, max: int) -> Option<int> {
    let signed = text.len() > 0 && (text[0] == 43 || (text[0] == 45 && min < 0));
    let digits = if signed {
        text.skip(1)
    } else {
        text
    };
    let value = if signed && text[0] == 45 {
        -digits_value(digits)
    } else {
        digits_value(digits)
    };
    if digits.len() > 0 && all_digits(digits) && min <= value <= max {
        Some(value)
    } else {
        None
    }
}

/// More digits write no smaller number.
proof fn lemma_digits_grow(digits: Seq<u8>, n: int)
    requires
        all_digits(digits),
        0 <= n <= digits.len(),
    ensures
        0 <= digits_value(digits.take(n)) <= digits_value(digits),
    decreases digits.len() - n,
{
    if n == digits.len() {
        assert(digits.take(n) =~= digits);
        lemma_digits_nonnegative(digits);
    } else {
        lemma_digits_grow(digits, n + 1);
        assert(digits.take(n + 1).drop_last() =~= digits.take(n));
        assert(is_digit(digits[n]));
        lemma_digits_nonnegative(digits.take(n));
    }
}

/// Digits write no number below zero.
proof fn lemma_digits_nonnegative(digits: Seq<u8>)
    requires
        all_digits(digits),
    ensures
        0 <= digits_value(digits),
    decreases digits.len(),
{
    if digits.len() > 0 {
        assert(is_digit(digits.last()));
        lemma_digits_nonnegative(digits.drop_last());
    }
}

/// Reads the number that the digits write, if there is at least one of
/// them, nothing else among them and the number is at most `max`.
fn read_digits(digits: &[u8], max: u64) -> (value: Option<u64>)
    ensures
        value is Some <==> digits@.len() > 0 && all_digits(digits@) && digits_value(digits@)
            <= max,
        value is Some ==> value->0 == digits_value(digits@),
{
    if digits.len() == 0 {
        return None;
    }
    let mut value: u64 = 0;
    let mut i: usize = 0;
    assert(digits@.take(0) =~= Seq::empty());
    while i < digits.len()
        invariant
            i <= digits@.len(),
            all_digits(digits@.take(i as int)),
            value == digits_value(digits@.take(i as int)),
            value <= max,
        decreases digits@.len() - i,
    {
        let byte = digits[i];
        if byte < 48 || byte > 57 {
            assert(!is_digit(digits@[i as int]));
            return None;
        }
        let digit = (byte - 48) as u64;
        proof {
            assert(digits@.take(i + 1).drop_last() =~= digits@.take(i as int));
            assert forall|k: int| 0 <= k < i + 1 implies is_digit(
                #[trigger] digits@.take(i + 1)[k],
            ) by {
                if k < i {
                    assert(is_digit(digits@.take(i as int)[k]));
                }
            }
            if all_digits(digits@) {
                lemma_digits_grow(digits@, i + 1);
            }
        }
        if value > max / 10 {
            return None;
        }
        let shifted = value * 10;
        if digit > max - shifted {
            return None;
        }
        value = shifted + digit;
        i += 1;
    }
    assert(digits@.take(i as int) =~= digits@);
    Some(value)
}

/// Reads the number that the text writes, if it writes one that is at most
/// `max`; no number below zero is read.
fn read_natural(text: &[u8], max: u64) -> (value: Option<u64>)
    ensures
        value is Some <==> parsed_number(text@, 0, max as int) is Some,
        value is Some ==> value->0 == parsed_number(text@, 0, max as int)->0,
{
    if text.len() > 0 && text[0] == 43 {
        let digits = slice_subrange(text, 1, text.len());
        assert(digits@ =~= text@.skip(1));
        let value = read_digits(digits, max);
        proof {
            if all_digits(digits@) {
                lemma_digits_nonnegative(digits@);
            }
        }
        value
    } else {
        let value = read_digits(text, max);
        proof {
            if all_digits(text@) {
                lemma_digits_nonnegative(text@);
            }
        }
        value
    }
}

impl FromText for u8 {
    open spec fn parsed(text: Seq<u8>) -> Option<u8> {
        match parsed_number(text, 0, u8::MAX as int) {
            Some(value) => Some(value as u8),
            None => None,
        }
    }

    fn from_text(text: &[u8]) -> (value: Option<u8>) {
        match read_natural(text, 255) {
            Some(value) => Some(value as u8),
            None => None,
        }
    }
}

impl FromText for u16 {
    open spec fn parsed(text: Seq<u8>) -> Option<u16> {
        match parsed_number(text, 0, u16::MAX as int) {
            Some(value) => Some(value as u16),
            None => None,
        }
    }

    fn from_text(text: &[u8]) -> (value: Option<u16>) {
        match read_natural(text, 65535) {
            Some(value) => Some(value as u16),
            None => None,
        }
    }
}

impl FromText for u32 {
    open spec fn parsed(text: Seq<u8>) -> Option<u32> {
        match parsed_number(text, 0, u32::MAX as int) {
            Some(value) => Some(value as u32),
            None => None,
        }
    }

    fn from_text(text: &[u8]) -> (value: Option<u32>) {
        match read_natural(text, 4294967295) {
            Some(value) => Some(value as u32),
            None => None,
        }
    }
}

impl FromText for usize {
    open spec fn parsed(text: Seq<u8>) -> Option<usize> {
        match parsed_number(text, 0, usize::MAX as int) {
            Some(value) => Some(value as usize),
            None => None,
        }
    }

    fn from_text(text: &[u8]) -> (value: Option<usize>) {
        match read_natural(text, usize::MAX as u64) {
            Some(value) => Some(value as usize),
            None => None,
        }
    }
}

impl FromText for i32 {
    open spec fn parsed(text: Seq<u8>) -> Option<i32> {
        match parsed_number(text, i32::MIN as int, i32::MAX as int) {
            Some(value) => Some(value as i32),
            None => None,
        }
    }

    fn from_text(text: &[u8]) -> (value: Option<i32>) {
        if text.len() > 0 && text[0] == 45 {
            let digits = slice_subrange(text, 1, text.len());
            assert(digits@ =~= text@.skip(1));
            proof {
                if all_digits(digits@) {
                    lemma_digits_nonnegative(digits@);
                }
            }
            match read_digits(digits, 2147483648) {
                Some(value) => Some((-(value as i64)) as i32),
                None => None,
            }
        } else {
            proof {
                if text@.len() > 0 && text@[0] == 43 {
                    if all_digits(text@.skip(1)) {
                        lemma_digits_nonnegative(text@.skip(1));
                    }
                } else if all_digits(text@) {
                    lemma_digits_nonnegative(text@);
                }
            }
            match read_natural(text, 2147483647) {
                Some(value) => Some(value as i32),
                None => None,
            }
        }
    }
}

/// Whether `pattern` stands in `text` at position `at`.
fn matches_at(text: &[u8], pattern: &[u8], at: usize) -> (found: bool)
    requires
        at + pattern@.len() <= text@.len(),
    ensures
        found == found_at(text@, pattern@, at as int),
{
    let mut i: usize = 0;
    let length = text.len();
    while i < pattern.len()
        invariant
            length == text@.len(),
            at + pattern@.len() <= text@.len(),
            i <= pattern@.len(),
            forall|k: int| 0 <= k < i ==> text@[at + k] == pattern@[k],
        decreases pattern@.len() - i,
    {
        if text[at + i] != pattern[i] {
            assert(text@.subrange(at as int, at + pattern@.len())[i as int] != pattern@[i as int]);
            return false;
        }
        i += 1;
    }
    assert(text@.subrange(at as int, at + pattern@.len()) =~= pattern@);
    true
}

/// Cuts `text` at the occurrences of `pattern`, which must not be empty.
pub fn split<'a>(text: &'a [u8], pattern: &[u8]) -> (pieces: Vec<&'a [u8]>)
    requires
        pattern@.len() > 0,
    ensures
        texts(pieces@) == split_text(text@, pattern@),
        pieces@.len() >= 1,
{
    let mut pieces: Vec<&'a [u8]> = Vec::new();
    let mut start: usize = 0;
    let mut at: usize = 0;
    assert(texts(pieces@) =~= Seq::empty());
    while text.len() - at >= pattern.len()
        invariant
            pattern@.len() > 0,
            start <= at <= text@.len(),
            texts(pieces@) + split_from(text@, pattern@, start as int, at as int) == split_text(
                text@,
                pattern@,
            ),
        decreases text@.len() - at,
    {
        let ghost before = texts(pieces@);
        let ghost rest = split_from(text@, pattern@, at + pattern@.len(), at + pattern@.len());
        if matches_at(text, pattern, at) {
            pieces.push(slice_subrange(text, start, at));
            assert(texts(pieces@) =~= before + seq![text@.subrange(start as int, at as int)]);
            assert(texts(pieces@) + rest =~= before + (seq![
                text@.subrange(start as int, at as int),
            ] + rest));
            at += pattern.len();
            start = at;
        } else {
            at += 1;
        }
    }
    let ghost before = texts(pieces@);
    pieces.push(slice_subrange(text, start, text.len()));
    assert(texts(pieces@) =~= before + seq![text@.subrange(start as int, text@.len() as int)]);
    pieces
}

/// Cuts `text` into its lines.
pub fn lines<'a>(text: &'a [u8]) -> (found: Vec<&'a [u8]>)
    ensures
        texts(found@) == lines_of(text@),
{
    let mut found: Vec<&'a [u8]> = Vec::new();
    let mut start: usize = 0;
    let mut at: usize = 0;
    assert(texts(found@) =~= Seq::empty());
    while at < text.len()
        invariant
            start <= at <= text@.len(),
            texts(found@) + lines_from(text@, start as int, at as int) == lines_of(text@),
        decreases text@.len() - at,
    {
        let ghost before = texts(found@);
        let ghost rest = lines_from(text@, at + 1, at + 1);
        if text[at] == 10 {
            let end = if at > start && text[at - 1] == 13 {
                at - 1
            } else {
                at
            };
            let line = slice_subrange(text, start, end);
            assert(line@ =~= without_return(text@.subrange(start as int, at as int)));
            found.push(line);
            assert(texts(found@) =~= before + seq![line@]);
            assert(texts(found@) + rest =~= before + (seq![line@] + rest));
            start = at + 1;
        }
        at += 1;
    }
    if start < text.len() {
        let ghost before = texts(found@);
        found.push(slice_subrange(text, start, text.len()));
        assert(texts(found@) =~= before + seq![text@.subrange(start as int, text@.len() as int)]);
    } else {
        assert(texts(found@) + Seq::<Seq<u8>>::empty() =~= texts(found@));
    }
    found
}

/// Cuts `text` into its words.
pub fn split_ascii_whitespace<'a>(text: &'a [u8]) -> (words: Vec<&'a [u8]>)
    ensures
        texts(words@) == words_of(text@),
{
    let mut words: Vec<&'a [u8]> = Vec::new();
    let mut start: usize = 0;
    let mut at: usize = 0;
    assert(texts(words@) =~= Seq::empty());
    while at < text.len()
        invariant
            start <= at <= text@.len(),
            texts(words@) + words_from(text@, start as int, at as int) == words_of(text@),
        decreases text@.len() - at,
    {
        let ghost before = texts(words@);
        let ghost rest = words_from(text@, at + 1, at + 1);
        let byte = text[at];
        if byte == 32 || byte == 9 || byte == 10 || byte == 12 || byte == 13 {
            if start < at {
                let word = slice_subrange(text, start, at);
                words.push(word);
                assert(texts(words@) =~= before + seq![word@]);
                assert(texts(words@) + rest =~= before + (seq![word@] + rest));
            }
            start = at + 1;
        }
        at += 1;
    }
    if start < text.len() {
        let ghost before = texts(words@);
        words.push(slice_subrange(text, start, text.len()));
        assert(texts(words@) =~= before + seq![text@.subrange(start as int, text@.len() as int)]);
    } else {
        assert(texts(words@) + Seq::<Seq<u8>>::empty() =~= texts(words@));
    }
    words
}

/// Reads each piece as a value and collects the values in order; pieces that
/// stand for no value are left out.
pub fn parse_each<T: FromText>(pieces: &Vec<&[u8]>) -> (values: Vec<T>)
    ensures
        values@ == parsed_each::<T>(texts(pieces@)),
{
    let mut values: Vec<T> = Vec::new();
    let mut i: usize = 0;
    assert(texts(pieces@).take(0) =~= Seq::empty());
    while i < pieces.len()
        invariant
            i <= pieces@.len(),
            values@ == parsed_each::<T>(texts(pieces@).take(i as int)),
        decreases pieces@.len() - i,
    {
        proof {
            assert(texts(pieces@).take(i + 1).drop_last() =~= texts(pieces@).take(i as int));
            assert(texts(pieces@).take(i + 1).last() == pieces@[i as int]@);
        }
        match T::from_text(pieces[i]) {
            Some(value) => values.push(value),
            None => {},
        }
        i += 1;
    }
    assert(texts(pieces@).take(i as int) =~= texts(pieces@));
    values
}

/// Parses an `input` where each line is an entry into a `Vec`. Lines that
/// are no entry are left out.
pub fn lines_into_vec<T: FromText>(input: &str) -> (values: Vec<T>)
    ensures
        values@ == parsed_each::<T>(lines_of(input.spec_bytes())),
{
    let found = lines(input.as_bytes());
    parse_each(&found)
}

/// Returns the parsed values of an `input` string slice where the entries
/// are separated by a new line, in order.
pub fn parsed_lines_iter<T: FromText>(input: &str) -> (values: Vec<T>)
    ensures
        values@ == parsed_each::<T>(lines_of(input.spec_bytes())),
{
    let found = lines(input.as_bytes());
    parse_each(&found)
}

/// Returns the parsed values of an `input` string slice where the entries
/// are separated by a new line, in order, for values that can be cloned.
pub fn parsed_lines_iter_cloneable<T: FromText + Clone>(input: &str) -> (values: Vec<T>)
    ensures
        values@ == parsed_each::<T>(lines_of(input.spec_bytes())),
{
    let found = lines(input.as_bytes());
    parse_each(&found)
}

/// Parses an `input` into a `Vec<T>`. Entries in the string slice are
/// separated by the `split_at` characters, of which there must be at least
/// one. Entries that stand for no value are left out.
pub fn split_into_vec<T: FromText>(input: &str, split_at: &str) -> (values: Vec<T>)
    requires
        split_at.spec_bytes().len() > 0,
    ensures
        values@ == parsed_each::<T>(split_text(input.spec_bytes(), split_at.spec_bytes())),
{
    let pieces = split(input.as_bytes(), split_at.as_bytes());
    parse_each(&pieces)
}

/// Returns the parsed values of an `input` string where the entries are
/// separated by the `split_at` characters, of which there must be at least
/// one, in order.
pub fn parsed_split_iter<T: FromText>(input: &str, split_at: &str) -> (values: Vec<T>)
    requires
        split_at.spec_bytes().len() > 0,
    ensures
        values@ == parsed_each::<T>(split_text(input.spec_bytes(), split_at.spec_bytes())),
{
    let pieces = split(input.as_bytes(), split_at.as_bytes());
    parse_each(&pieces)
}

} // verus!
