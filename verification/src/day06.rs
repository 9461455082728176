//! The growth of a school of lanternfish.
//!
//! Each fish carries a timer: the days until it creates a new fish. A fish
//! whose timer is at zero creates a new one and starts over at six; the new
//! fish starts at eight.
//!
//! - `part01` simulates each fish as an element of a `Vec`;
//!
//! - `part02` keeps, in a circular buffer, how many fish there are of each
//!   timer value; an index marks the position that holds the fish at zero.

use crate::helpers::read::{
    lines, lines_of, parse, parse_each, parsed_each, split, split_text, texts, FromText, ParseError,
};
use core::str::FromStr;
use vstd::prelude::*;
use vstd::string::StringSliceAdditionalSpecFns;

verus! {

/// Represents a lanternfish. Holds the remaining time until this fish can
/// reproduce.
#[derive(Copy, Clone, Debug, PartialEq, Eq)]
pub struct Lanternfish(pub u8);

/// The timer of a fish on the next day.
pub open spec fn next_timer(timer: u8) -> u8 {
    if timer == 0 {
        6
    } else {
        (timer - 1) as u8
    }
}

/// The fish that the first `upto` fish of a school create in a day: one with
/// its timer at eight for each fish with its timer at zero.
pub open spec fn newborn(school: Seq<Lanternfish>, upto: int) -> Seq<Lanternfish>
    decreases upto,
{
    if upto <= 0 {
        Seq::empty()
    } else if school[upto - 1].0 == 0 {
        newborn(school, upto - 1).push(Lanternfish(8))
    } else {
        newborn(school, upto - 1)
    }
}

/// A school a day later: every fish with its next timer, followed by the new
/// fish.
pub open spec fn next_day(school: Seq<Lanternfish>) -> Seq<Lanternfish> {
    school.map_values(|fish: Lanternfish| Lanternfish(next_timer(fish.0))) + newborn(
        school,
        school.len() as int,
    )
}

/// A school some days later.
pub open spec fn after_days(school: Seq<Lanternfish>, days: nat) -> Seq<Lanternfish>
    decreases days,
{
    if days == 0 {
        school
    } else {
        next_day(after_days(school, (days - 1) as nat))
    }
}

/// How many fish there are of each timer value, from zero to eight, a day
/// after there were `census` of each.
pub open spec fn next_census(census: Seq<int>) -> Seq<int> {
    Seq::new(
        9,
        |timer: int|
            if timer == 8 {
                census[0]
            } else if timer == 6 {
                census[7] + census[0]
            } else {
                census[timer + 1]
            },
    )
}

/// How many fish there are of each timer value some days later.
pub open spec fn census_after(census: Seq<int>, days: nat) -> Seq<int>
    decreases days,
{
    if days == 0 {
        census
    } else {
        next_census(census_after(census, (days - 1) as nat))
    }
}

/// The number of fish in a census.
pub open spec fn population(census: Seq<int>) -> int {
    census[0] + census[1] + census[2] + census[3] + census[4] + census[5] + census[6] + census[7]
        + census[8]
}

/// A census: nine counts, none below zero.
pub open spec fn is_census(census: Seq<int>) -> bool {
    census.len() == 9 && forall|timer: int| 0 <= timer < 9 ==> census[timer] >= 0
}

/// A school never shrinks, and a census stays a census.
pub proof fn lemma_census_grows(census: Seq<int>, days: nat, later: nat)
    requires
        is_census(census),
        days <= later,
    ensures
        is_census(census_after(census, days)),
        population(census_after(census, days)) <= population(census_after(census, later)),
    decreases later,
{
    if days < later {
        lemma_census_grows(census, days, (later - 1) as nat);
        lemma_census_grows(census, (later - 1) as nat, (later - 1) as nat);
    } else if days > 0 {
        lemma_census_grows(census, (days - 1) as nat, (days - 1) as nat);
    }
}

/// The timers of the fish of a school.
pub open spec fn timers(school: Seq<Lanternfish>) -> Seq<usize> {
    school.map_values(|fish: Lanternfish| fish.0 as usize)
}

/// One fish more makes one more in the census, at its timer.
proof fn lemma_census_push(school: Seq<Lanternfish>, fish: Lanternfish)
    requires
        fish.0 < 9,
    ensures
        census_of(timers(school.push(fish))) == Seq::new(
            9,
            |timer: int|
                census_of(timers(school))[timer] + if timer == fish.0 {
                    1int
                } else {
                    0int
                },
        ),
{
    broadcast use vstd::multiset::group_multiset_axioms;

    assert(timers(school.push(fish)) =~= timers(school).push(fish.0 as usize));
    vstd::seq_lib::to_multiset_build(timers(school), fish.0 as usize);
    assert(census_of(timers(school.push(fish))) =~= Seq::new(
        9,
        |timer: int|
            census_of(timers(school))[timer] + if timer == fish.0 {
                1int
            } else {
                0int
            },
    ));
}

/// The census of no fish counts none.
proof fn lemma_census_empty()
    ensures
        census_of(timers(Seq::empty())) == Seq::new(9, |timer: int| 0int),
{
    let none = timers(Seq::<Lanternfish>::empty());
    none.to_multiset_ensures();
    assert forall|timer: int| 0 <= timer < 9 implies census_of(none)[timer] == 0 by {
        assert(!none.contains(timer as usize));
    }
    assert(census_of(none) =~= Seq::new(9, |timer: int| 0int));
}

/// Letting a day pass for each fish and counting then gives what counting
/// first and letting a day pass for the counts gives; and a census counts
/// every fish.
pub proof fn lemma_census_of_next_day(school: Seq<Lanternfish>)
    requires
        timers_fit(timers(school)),
    ensures
        timers_fit(timers(next_day(school))),
        census_of(timers(next_day(school))) == next_census(census_of(timers(school))),
        population(census_of(timers(school))) == school.len(),
    decreases school.len(),
{
    if school.len() == 0 {
        lemma_census_empty();
        assert(school =~= Seq::empty());
        assert(next_day(school) =~= Seq::empty());
        assert(census_of(timers(next_day(school))) =~= next_census(census_of(timers(school))));
    } else {
        let rest = school.drop_last();
        let fish = school.last();
        assert(school =~= rest.push(fish));
        assert(timers(school)[school.len() - 1] < 9);
        assert forall|i: int| 0 <= i < rest.len() implies #[trigger] timers(rest)[i] < 9 by {
            assert(timers(school)[i] < 9);
        }
        lemma_census_of_next_day(rest);
        lemma_census_push(rest, fish);
        let aged = rest.map_values(|fish: Lanternfish| Lanternfish(next_timer(fish.0)));
        let young = newborn(rest, rest.len() as int);
        let older = Lanternfish(next_timer(fish.0));
        assert(newborn(school, school.len() as int) == if fish.0 == 0 {
            young.push(Lanternfish(8))
        } else {
            young
        }) by {
            lemma_newborn_prefix(school, rest.len() as int);
        }
        // the fish of the next day, with those of the last fish moved to the end
        let moved = if fish.0 == 0 {
            next_day(rest).push(older).push(Lanternfish(8))
        } else {
            next_day(rest).push(older)
        };
        assert(timers(next_day(school)).to_multiset() == timers(moved).to_multiset()) by {
            let first = timers(aged);
            let second = timers(young);
            let one = seq![older.0 as usize];
            if fish.0 == 0 {
                let born = seq![8usize];
                assert(timers(next_day(school)) =~= first + one + (second + born));
                assert(timers(moved) =~= first + second + (one + born));
                vstd::seq_lib::lemma_multiset_commutative(first + one, second + born);
                vstd::seq_lib::lemma_multiset_commutative(first, one);
                vstd::seq_lib::lemma_multiset_commutative(second, born);
                vstd::seq_lib::lemma_multiset_commutative(first + second, one + born);
                vstd::seq_lib::lemma_multiset_commutative(first, second);
                vstd::seq_lib::lemma_multiset_commutative(one, born);
                assert(timers(next_day(school)).to_multiset() =~= timers(moved).to_multiset());
            } else {
                assert(timers(next_day(school)) =~= first + one + second);
                assert(timers(moved) =~= first + second + one);
                vstd::seq_lib::lemma_multiset_commutative(first + one, second);
                vstd::seq_lib::lemma_multiset_commutative(first, one);
                vstd::seq_lib::lemma_multiset_commutative(first + second, one);
                vstd::seq_lib::lemma_multiset_commutative(first, second);
                assert(timers(next_day(school)).to_multiset() =~= timers(moved).to_multiset());
            }
        }
        lemma_census_push(next_day(rest), older);
        if fish.0 == 0 {
            lemma_census_push(next_day(rest).push(older), Lanternfish(8));
        }
        assert(census_of(timers(next_day(school))) =~= census_of(timers(moved)));
        assert(census_of(timers(next_day(school))) =~= next_census(census_of(timers(school))));
        assert forall|i: int| 0 <= i < timers(next_day(school)).len() implies #[trigger] timers(
            next_day(school),
        )[i] < 9 by {
            if i < school.len() {
                assert(timers(school)[i] < 9);
            } else {
                lemma_newborn_are_eight(school, school.len() as int, i - school.len());
            }
        }
    }
}

/// The first fish of a school create what they create in the first part of
/// a longer school.
proof fn lemma_newborn_prefix(school: Seq<Lanternfish>, upto: int)
    requires
        0 <= upto < school.len(),
    ensures
        newborn(school.drop_last(), upto) == newborn(school, upto),
    decreases upto,
{
    if upto > 0 {
        lemma_newborn_prefix(school, upto - 1);
    }
}

/// Every new fish starts at eight.
proof fn lemma_newborn_are_eight(school: Seq<Lanternfish>, upto: int, i: int)
    requires
        0 <= i < newborn(school, upto).len(),
    ensures
        newborn(school, upto)[i] == Lanternfish(8),
    decreases upto,
{
    if upto > 0 {
        if i < newborn(school, upto - 1).len() {
            lemma_newborn_are_eight(school, upto - 1, i);
        }
    }
}

/// Counting each fish and counting by timer agree on the size of the school,
/// day after day.
pub proof fn lemma_census_of_after_days(school: Seq<Lanternfish>, days: nat)
    requires
        timers_fit(timers(school)),
    ensures
        timers_fit(timers(after_days(school, days))),
        census_of(timers(after_days(school, days))) == census_after(
            census_of(timers(school)),
            days,
        ),
        after_days(school, days).len() == population(
            census_after(census_of(timers(school)), days),
        ),
    decreases days,
{
    if days > 0 {
        lemma_census_of_after_days(school, (days - 1) as nat);
        lemma_census_of_next_day(after_days(school, (days - 1) as nat));
    }
    lemma_census_of_next_day(after_days(school, days));
}

impl FromText for Lanternfish {
    /// A fish is written as its timer.
    open spec fn parsed(text: Seq<u8>) -> Option<Self> {
        match u8::parsed(text) {
            Some(timer) => Some(Lanternfish(timer)),
            None => None,
        }
    }

    fn from_text(text: &[u8]) -> (value: Option<Self>) {
        match u8::from_text(text) {
            Some(timer) => Some(Lanternfish(timer)),
            None => None,
        }
    }
}

impl FromStr for Lanternfish {
    type Err = ParseError;

    /// Reads the value that the string stands for; a string that stands for
    /// none gives the error.
    fn from_str(s: &str) -> (value: Result<Self, ParseError>)
        ensures
            value == match Self::parsed(s.spec_bytes()) {
                Some(read) => Ok::<Self, ParseError>(read),
                None => Err(ParseError),
            },
    {
        parse(s)
    }
}

/// The timers that a text holds: the numbers among the pieces between its
/// commas.
pub open spec fn timers_of(text: Seq<u8>) -> Seq<usize> {
    parsed_each::<usize>(split_text(text, seq![44u8]))
}

/// How many of the timers stand at each value from zero to eight.
pub open spec fn census_of(timers: Seq<usize>) -> Seq<int> {
    Seq::new(9, |timer: int| timers.to_multiset().count(timer as usize) as int)
}

/// Whether no timer stands above eight.
pub open spec fn timers_fit(timers: Seq<usize>) -> bool {
    forall|i: int| 0 <= i < timers.len() ==> #[trigger] timers[i] < 9
}

/// Reads the school for part 1 from the first line of the input, which must
/// have one: each timer between the commas of that line is a fish.
pub fn parse_input(input: &str) -> (fishes: Vec<Lanternfish>)
    requires
        lines_of(input.spec_bytes()).len() > 0,
    ensures
        fishes@ == parsed_each::<Lanternfish>(
            split_text(lines_of(input.spec_bytes())[0], seq![44u8]),
        ),
{
    let found = lines(input.as_bytes());
    assert(texts(found@).len() == found@.len());
    assert(texts(found@)[0] == found@[0]@);
    let comma: [u8; 1] = [44];
    assert(comma@ =~= seq![44u8]);
    let pieces = split(found[0], comma.as_slice());
    parse_each(&pieces)
}

/// Reads the school for part 2 from the first line of the input, which must
/// have one and hold no timer above eight.
pub fn parse_input_pt2(input: &str) -> (school: SchoolOfLanternfish)
    requires
        lines_of(input.spec_bytes()).len() > 0,
        timers_fit(timers_of(lines_of(input.spec_bytes())[0])),
    ensures
        school@ == census_of(timers_of(lines_of(input.spec_bytes())[0])),
{
    let found = lines(input.as_bytes());
    assert(texts(found@).len() == found@.len());
    assert(texts(found@)[0] == found@[0]@);
    SchoolOfLanternfish::from_text(found[0]).unwrap()
}

impl Lanternfish {
    /// Lets a day pass for this fish. A fish with its timer at zero starts
    /// over at six and returns the fish that it creates, which starts at
    /// eight; any other fish counts down by one.
    pub fn try_reproduce(&mut self) -> (young: Option<Lanternfish>)
        ensures
            final(self).0 == next_timer(old(self).0),
            young == if old(self).0 == 0 {
                Some(Lanternfish(8))
            } else {
                None
            },
    {
        if self.0 == 0 {
            self.0 = 6;
            return Some(Lanternfish(8));
        }
        self.0 -= 1;
        None
    }
}

/// Tests whether the input can be run: it has a first line, that line holds
/// no timer above eight, and the school is still countable after 256 days.
pub fn can_run(input: &str) -> (ok: bool)
    ensures
        ok <==> {
            &&& lines_of(input.spec_bytes()).len() > 0
            &&& timers_fit(timers_of(lines_of(input.spec_bytes())[0]))
            &&& population(
                census_after(census_of(timers_of(lines_of(input.spec_bytes())[0])), 256),
            ) <= u64::MAX
        },
{
    let found = lines(input.as_bytes());
    assert(texts(found@).len() == found@.len());
    if found.len() == 0 {
        return false;
    }
    assert(texts(found@)[0] == found@[0]@);
    match SchoolOfLanternfish::from_text(found[0]) {
        Some(school) => school.can_grow(256),
        None => false,
    }
}

/// Reads the school from the first line of the input and returns its size
/// after 80 days, from part 1, and after 256 days, from part 2.
pub fn run(input: &str) -> (sizes: (usize, u64))
    requires
        lines_of(input.spec_bytes()).len() > 0,
        timers_fit(timers_of(lines_of(input.spec_bytes())[0])),
        population(census_after(census_of(timers_of(lines_of(input.spec_bytes())[0])), 256))
            <= u64::MAX,
    ensures
        sizes.0 == after_days(
            parsed_each::<Lanternfish>(split_text(lines_of(input.spec_bytes())[0], seq![44u8])),
            80,
        ).len(),
        sizes.1 == population(
            census_after(census_of(timers_of(lines_of(input.spec_bytes())[0])), 256),
        ),
{
    let mut fishes = parse_input(input);
    let ans_pt1 = part01(&mut fishes, 80);
    let mut fish_school = parse_input_pt2(input);
    let ans_pt2 = part02(&mut fish_school, 256);
    (ans_pt1, ans_pt2)
}

/// Solution for part 1 simulating each individual fish: lets `days` days pass
/// for the school and returns its size.
pub fn part01(fish_school: &mut Vec<Lanternfish>, days: usize) -> (size: usize)
    requires
        days < usize::MAX,
    ensures
        final(fish_school)@ == after_days(old(fish_school)@, days as nat),
        size == final(fish_school)@.len(),
{
    let ghost start = fish_school@;
    let mut day: usize = 1;
    while day < days + 1
        invariant
            days < usize::MAX,
            1 <= day <= days + 1,
            fish_school@ == after_days(start, (day - 1) as nat),
        decreases days + 1 - day,
    {
        let ghost before = fish_school@;
        let mut younglings: Vec<Lanternfish> = Vec::new();
        let mut i: usize = 0;
        while i < fish_school.len()
            invariant
                fish_school@.len() == before.len(),
                i <= before.len(),
                forall|k: int| 0 <= k < i ==> (#[trigger] fish_school@[k]).0 == next_timer(before[k].0),
                forall|k: int| i <= k < before.len() ==> #[trigger] fish_school@[k] == before[k],
                younglings@ == newborn(before, i as int),
            decreases before.len() - i,
        {
            let mut f = fish_school[i];
            let young = f.try_reproduce();
            fish_school[i] = f;
            if let Some(lf) = young {
                younglings.push(lf);
            }
            i += 1;
        }
        fish_school.append(&mut younglings);
        assert(fish_school@ =~= next_day(before));
        day += 1;
    }
    fish_school.len()
}

/// Models the school of lanternfish as a circular buffer to simulate its
/// reproductive behaviour.
#[derive(Copy, Clone, Debug)]
pub struct SchoolOfLanternfish {
    school: [u64; 9],  // an array to use as a circular buffer and hold day 0 to day 8
    idx0: usize,  // the index for day 0 in the buffer
}

impl View for SchoolOfLanternfish {
    type V = Seq<int>;

    /// How many fish there are of each timer value, from zero to eight.
    closed spec fn view(&self) -> Seq<int> {
        Seq::new(9, |timer: int| self.school@[(self.idx0 + timer) % 9] as int)
    }
}

impl SchoolOfLanternfish {
    /// The index for day 0 lies inside the buffer.
    #[verifier::type_invariant]
    spec fn inv(self) -> bool {
        self.idx0 < 9
    }

    /// A school holds a census: nine counts, none below zero.
    pub proof fn lemma_is_census(&self)
        ensures
            is_census(self@),
    {
    }

    /// Reads a school from its timers, written with commas between them, as
    /// in `3,4,3,1,2`. Pieces that are no number are left out; a timer
    /// above eight makes the text stand for no school.
    pub fn from_text(text: &[u8]) -> (school: Option<SchoolOfLanternfish>)
        ensures
            school is Some <==> timers_fit(timers_of(text@)),
            school is Some ==> school->0@ == census_of(timers_of(text@)),
    {
        let comma: [u8; 1] = [44];
        assert(comma@ =~= seq![44u8]);
        let pieces = split(text, comma.as_slice());
        let fish_timers: Vec<usize> = parse_each(&pieces);
        let mut school: [u64; 9] = [0;9];
        let mut i: usize = 0;
        proof {
            fish_timers@.take(0).to_multiset_ensures();
            assert forall|timer: usize| timer < 9 implies #[trigger] fish_timers@.take(
                0,
            ).to_multiset().count(timer) == 0 by {
                assert(!fish_timers@.take(0).contains(timer));
            }
        }
        while i < fish_timers.len()
            invariant
                fish_timers@ == timers_of(text@),
                i <= fish_timers@.len(),
                timers_fit(fish_timers@.take(i as int)),
                forall|timer: usize|
                    timer < 9 ==> school@[timer as int] == #[trigger] fish_timers@.take(
                        i as int,
                    ).to_multiset().count(timer) && school@[timer as int] <= i,
            decreases fish_timers@.len() - i,
        {
            let t = fish_timers[i];
            if t >= 9 {
                return None;
            }
            proof {
                broadcast use vstd::multiset::group_multiset_axioms;

                let before = fish_timers@.take(i as int);
                assert(school@[t as int] == before.to_multiset().count(t));
                assert(fish_timers@.take(i + 1) =~= before.push(t));
                vstd::seq_lib::to_multiset_build(before, t);
                assert forall|timer: usize| timer < 9 implies #[trigger] fish_timers@.take(
                    i + 1,
                ).to_multiset().count(timer) == before.to_multiset().count(timer) + if timer
                    == t {
                    1nat
                } else {
                    0nat
                } by {
                    assert(before.push(t).to_multiset() =~= before.to_multiset().insert(t));
                }
                assert forall|k: int| 0 <= k < i + 1 implies #[trigger] fish_timers@.take(i + 1)[k]
                    < 9 by {
                    if k < i {
                        assert(before[k] < 9);
                    }
                }
            }
            school[t] += 1;
            i += 1;
        }
        assert(fish_timers@.take(i as int) =~= fish_timers@);
        let school = SchoolOfLanternfish { school, idx0: 0 };
        assert(school@ =~= census_of(fish_timers@));
        Some(school)
    }

    /// Lets a day pass for the school. Moving the index for day 0 to the next
    /// position turns the fish that were at zero into the newborn at eight;
    /// as many are added to day 6, for the fish that start over.
    pub fn try_reproduce(&mut self)
        requires
            old(self)@[7] + old(self)@[0] <= u64::MAX,
        ensures
            final(self)@ == next_census(old(self)@),
    {
        proof {
            use_type_invariant(&*self);
        }
        let ghost before = self@;
        let curr = self.school[self.idx0];
        let idx0 = (self.idx0 + 1) % 9;  // updates current day 0 idx
        let reset_idx = (idx0 + 6) % 9;  // define reset idx
        assert(self.school@[reset_idx as int] == before[7]) by {
            assert((self.idx0 + 7) % 9 == reset_idx as int);
        }
        let mut school = self.school;
        school[reset_idx] += curr;  // adds the reseted fishes to reset day
        *self = SchoolOfLanternfish { school, idx0 };
        assert(self@ =~= next_census(before));
    }
}

impl FromStr for SchoolOfLanternfish {
    type Err = ParseError;

    /// Reads a school from its timers, written with commas between them;
    /// a timer above eight gives the error.
    fn from_str(s: &str) -> (value: Result<Self, ParseError>)
        ensures
            value is Ok <==> timers_fit(timers_of(s.spec_bytes())),
            match value {
                Ok(school) => school@ == census_of(timers_of(s.spec_bytes())),
                Err(error) => error == ParseError,
            },
    {
        match SchoolOfLanternfish::from_text(s.as_bytes()) {
            Some(school) => Ok(school),
            None => Err(ParseError),
        }
    }
}

/// Solution for part 2 simulating the behaviour of the group: lets `days`
/// days pass for the school and returns its size.
pub fn part02(fish_school: &mut SchoolOfLanternfish, days: usize) -> (size: u64)
    requires
        days < usize::MAX,
        population(census_after(old(fish_school)@, days as nat)) <= u64::MAX,
    ensures
        final(fish_school)@ == census_after(old(fish_school)@, days as nat),
        size == population(final(fish_school)@),
{
    let ghost start = fish_school@;
    proof {
        fish_school.lemma_is_census();
    }
    let mut day: usize = 1;
    while day < days + 1
        invariant
            days < usize::MAX,
            1 <= day <= days + 1,
            is_census(start),
            population(census_after(start, days as nat)) <= u64::MAX,
            fish_school@ == census_after(start, (day - 1) as nat),
        decreases days + 1 - day,
    {
        proof {
            lemma_census_grows(start, (day - 1) as nat, day as nat);
            lemma_census_grows(start, day as nat, days as nat);
        }
        fish_school.try_reproduce();
        day += 1;
    }
    proof {
        lemma_census_grows(start, days as nat, days as nat);
    }
    fish_school.total()
}

impl SchoolOfLanternfish {
    /// How many fish of the school have their timer at `timer`.
    pub fn count(&self, timer: usize) -> (fish: u64)
        requires
            timer < 9,
        ensures
            fish == self@[timer as int],
    {
        proof {
            use_type_invariant(self);
        }
        self.school[(self.idx0 + timer) % 9]
    }

    /// Tests whether the school is still countable after `days` days, by
    /// letting the days pass for a copy of it.
    pub fn can_grow(&self, days: usize) -> (ok: bool)
        requires
            days < usize::MAX,
        ensures
            ok <==> population(census_after(self@, days as nat)) <= u64::MAX,
    {
        let ghost start = self@;
        proof {
            self.lemma_is_census();
        }
        let mut school = *self;
        let mut day: usize = 1;
        while day < days + 1
            invariant
                days < usize::MAX,
                1 <= day <= days + 1,
                start == self@,
                is_census(start),
                school@ == census_after(start, (day - 1) as nat),
            decreases days + 1 - day,
        {
            proof {
                lemma_census_grows(start, day as nat, days as nat);
            }
            if school.count(0) > u64::MAX - school.count(7) {
                proof {
                    let next = census_after(start, day as nat);
                    assert(next == next_census(school@));
                    assert(next[6] == school@[7] + school@[0]);
                    assert(population(next) >= next[6]);
                }
                return false;
            }
            school.try_reproduce();
            day += 1;
        }
        proof {
            lemma_census_grows(start, days as nat, days as nat);
        }
        let mut size: u128 = 0;
        let mut timer: usize = 0;
        while timer < 9
            invariant
                timer <= 9,
                is_census(school@),
                size == tally(school@, timer as int),
                size <= timer * u64::MAX,
            decreases 9 - timer,
        {
            size += school.count(timer) as u128;
            timer += 1;
        }
        proof {
            reveal_with_fuel(tally, 10);
        }
        size <= u64::MAX as u128
    }

    /// The number of fish in the school.
    fn total(&self) -> (size: u64)
        requires
            population(self@) <= u64::MAX,
        ensures
            size == population(self@),
    {
        proof {
            use_type_invariant(self);
        }
        let mut size: u64 = 0;
        let mut i: usize = 0;
        let ghost census = self@;
        while i < 9
            invariant
                i <= 9,
                self.idx0 < 9,
                census == self@,
                population(census) <= u64::MAX,
                size == partial(self.school@, i as int),
                forall|k: int| 0 <= k < 9 ==> 0 <= #[trigger] self.school@[k],
            decreases 9 - i,
        {
            proof {
                lemma_partial_bound(self.school@, i + 1);
                lemma_rotation(self.school@, self.idx0 as int);
            }
            size += self.school[i];
            i += 1;
        }
        proof {
            lemma_partial_bound(self.school@, 9);
            lemma_rotation(self.school@, self.idx0 as int);
        }
        size
    }
}

/// The number of the fish with their timer below `below`.
spec fn tally(census: Seq<int>, below: int) -> int
    decreases below,
{
    if below <= 0 {
        0
    } else {
        tally(census, below - 1) + census[below - 1]
    }
}

/// The sum of the first `n` counts of the buffer.
spec fn partial(buffer: Seq<u64>, n: int) -> int
    decreases n,
{
    if n <= 0 {
        0
    } else {
        partial(buffer, n - 1) + buffer[n - 1]
    }
}

/// The first counts of the buffer add up to no more than all nine.
proof fn lemma_partial_bound(buffer: Seq<u64>, n: int)
    requires
        buffer.len() == 9,
        0 <= n <= 9,
    ensures
        partial(buffer, n) <= partial(buffer, 9),
        partial(buffer, 9) == buffer[0] + buffer[1] + buffer[2] + buffer[3] + buffer[4]
            + buffer[5] + buffer[6] + buffer[7] + buffer[8],
{
    reveal_with_fuel(partial, 10);
}

/// The counts of the buffer add up to the same number from whichever
/// position one starts.
proof fn lemma_rotation(buffer: Seq<u64>, idx0: int)
    requires
        buffer.len() == 9,
        0 <= idx0 < 9,
    ensures
        population(Seq::new(9, |timer: int| buffer[(idx0 + timer) % 9] as int)) == buffer[0]
            + buffer[1] + buffer[2] + buffer[3] + buffer[4] + buffer[5] + buffer[6] + buffer[7]
            + buffer[8],
{
    let census = Seq::new(9, |timer: int| buffer[(idx0 + timer) % 9] as int);
    assert(census[0] == buffer[(idx0 + 0) % 9]);
    assert(census[1] == buffer[(idx0 + 1) % 9]);
    assert(census[2] == buffer[(idx0 + 2) % 9]);
    assert(census[3] == buffer[(idx0 + 3) % 9]);
    assert(census[4] == buffer[(idx0 + 4) % 9]);
    assert(census[5] == buffer[(idx0 + 5) % 9]);
    assert(census[6] == buffer[(idx0 + 6) % 9]);
    assert(census[7] == buffer[(idx0 + 7) % 9]);
    assert(census[8] == buffer[(idx0 + 8) % 9]);
}

} // verus!
