//! Steering a submarine.
//!
//! From a list of commands for a submarine:
//!
//! 1. determine depth and distance travelled by the submarine by the first
//!    set of rules, under which a command moves the submarine;
//!
//! 2. determine depth and distance by the second set of rules, under which
//!    a command up or down changes the aim and only a command forward moves
//!    the submarine.
//!
//! A command is kept in two forms: as a `SubCommand`, a direction beside a
//! value, and as a `SubmarineCommands`, a direction that carries its value.

use crate::helpers::read::{parse, split, split_text, texts, FromText, ParseError};
use core::str::FromStr;
use vstd::prelude::*;
use vstd::string::StringSliceAdditionalSpecFns;

verus! {

/// The direction of a command.
#[derive(Copy, Clone, Debug, PartialEq, Eq)]
pub enum Direction {
    Forward,
    Downward,
    Upward,
}

/// A command: a direction and how far to go.
#[derive(Copy, Clone, Debug, PartialEq, Eq)]
pub struct SubCommand {
    pub dir: Direction,
    pub val: i32,
}

/// A command as a direction that carries how far to go.
#[derive(Copy, Clone, Debug, PartialEq, Eq)]
pub enum SubmarineCommands {
    Forward(i32),
    Downward(i32),
    Upward(i32),
}

impl FromText for Direction {
    /// A direction is read from the first letter of its name: `f`, `d` or
    /// `u`. What follows the letter is not looked at.
    open spec fn parsed(text: Seq<u8>) -> Option<Self> {
        if text.len() == 0 {
            None
        } else if text[0] == 102 {
            Some(Direction::Forward)
        } else if text[0] == 100 {
            Some(Direction::Downward)
        } else if text[0] == 117 {
            Some(Direction::Upward)
        } else {
            None
        }
    }

    fn from_text(text: &[u8]) -> (value: Option<Self>) {
        if text.len() == 0 {
            None
        } else if text[0] == 102 {
            Some(Direction::Forward)
        } else if text[0] == 100 {
            Some(Direction::Downward)
        } else if text[0] == 117 {
            Some(Direction::Upward)
        } else {
            None
        }
    }
}

impl FromStr for Direction {
    type Err = ParseError;

    /// Reads the value that the string stands for; a string that stands for
    /// none gives the error.
    fn from_str(s: &str) -> (value: Result<Self, ParseError>)
        ensures
            value == match Self::parsed(s.spec_bytes()) {
                Some(read) => Ok::<Self, ParseError>(read),
                None => Err(ParseError),
            },
    {
        parse(s)
    }
}

/// The second of the pieces that single spaces cut the text into, if there
/// are as many.
pub open spec fn second_word(text: Seq<u8>) -> Option<Seq<u8>> {
    if split_text(text, seq![32u8]).len() < 2 {
        None
    } else {
        Some(split_text(text, seq![32u8])[1])
    }
}

impl FromText for SubCommand {
    /// A command is written as a direction, a space and a value, as in
    /// `forward 5`.
    open spec fn parsed(text: Seq<u8>) -> Option<Self> {
        match (Direction::parsed(split_text(text, seq![32u8])[0]), second_word(text)) {
            (Some(dir), Some(word)) => match i32::parsed(word) {
                Some(val) => Some(SubCommand { dir, val }),
                None => None,
            },
            _ => None,
        }
    }

    fn from_text(text: &[u8]) -> (value: Option<Self>) {
        let space: [u8; 1] = [32];
        assert(space@ =~= seq![32u8]);
        let words = split(text, space.as_slice());
        assert(texts(words@).len() == words@.len());
        assert(texts(words@)[0] == words@[0]@);
        let dir = match Direction::from_text(words[0]) {
            Some(dir) => dir,
            None => {
                return None;
            },
        };
        if words.len() < 2 {
            return None;
        }
        assert(texts(words@)[1] == words@[1]@);
        match i32::from_text(words[1]) {
            Some(val) => Some(SubCommand { dir, val }),
            None => None,
        }
    }
}

impl FromStr for SubCommand {
    type Err = ParseError;

    /// Reads the value that the string stands for; a string that stands for
    /// none gives the error.
    fn from_str(s: &str) -> (value: Result<Self, ParseError>)
        ensures
            value == match Self::parsed(s.spec_bytes()) {
                Some(read) => Ok::<Self, ParseError>(read),
                None => Err(ParseError),
            },
    {
        parse(s)
    }
}

impl FromText for SubmarineCommands {
    /// A command is written as a direction, a space and a value, as in
    /// `forward 5`.
    open spec fn parsed(text: Seq<u8>) -> Option<Self> {
        match SubCommand::parsed(text) {
            Some(command) => Some(
                match command.dir {
                    Direction::Forward => SubmarineCommands::Forward(command.val),
                    Direction::Downward => SubmarineCommands::Downward(command.val),
                    Direction::Upward => SubmarineCommands::Upward(command.val),
                },
            ),
            None => None,
        }
    }

    fn from_text(text: &[u8]) -> (value: Option<Self>) {
        match SubCommand::from_text(text) {
            Some(command) => Some(
                match command.dir {
                    Direction::Forward => SubmarineCommands::Forward(command.val),
                    Direction::Downward => SubmarineCommands::Downward(command.val),
                    Direction::Upward => SubmarineCommands::Upward(command.val),
                },
            ),
            None => None,
        }
    }
}

impl FromStr for SubmarineCommands {
    type Err = ParseError;

    /// Reads the value that the string stands for; a string that stands for
    /// none gives the error.
    fn from_str(s: &str) -> (value: Result<Self, ParseError>)
        ensures
            value == match Self::parsed(s.spec_bytes()) {
                Some(read) => Ok::<Self, ParseError>(read),
                None => Err(ParseError),
            },
    {
        parse(s)
    }
}

/// Whether a value can be held in an `i32`.
pub open spec fn fits_i32(v: int) -> bool {
    i32::MIN <= v <= i32::MAX
}

/// Where one command takes a submarine at `(x, y)` by the first set of
/// rules: up and down change the depth `y`, forward the distance `x`.
pub open spec fn step1(at: (int, int), command: SubCommand) -> (int, int) {
    match command.dir {
        Direction::Upward => (at.0, at.1 - command.val),
        Direction::Downward => (at.0, at.1 + command.val),
        Direction::Forward => (at.0 + command.val, at.1),
    }
}

/// Where the commands take a submarine from `(0, 0)` by the first set of
/// rules.
pub open spec fn course1(commands: Seq<SubCommand>) -> (int, int)
    decreases commands.len(),
{
    if commands.len() == 0 {
        (0, 0)
    } else {
        step1(course1(commands.drop_last()), commands.last())
    }
}

/// The first set of rules never leaves the range of `i32`: not after any of
/// the commands.
pub open spec fn course1_fits(commands: Seq<SubCommand>) -> bool {
    forall|n: int|
        0 <= n <= commands.len() ==> fits_i32((#[trigger] course1(commands.take(n))).0)
            && fits_i32(course1(commands.take(n)).1)
}

/// Where one command takes a submarine at `(x, y)` with a given aim by the
/// second set of rules: up and down change the aim; forward adds the value to
/// the distance `x` and the value times the aim to the depth `y`. The result
/// is `(x, y, aim)`.
pub open spec fn step2(at: (int, int, int), command: SubCommand) -> (int, int, int) {
    match command.dir {
        Direction::Upward => (at.0, at.1, at.2 - command.val),
        Direction::Downward => (at.0, at.1, at.2 + command.val),
        Direction::Forward => (at.0 + command.val, at.1 + command.val * at.2, at.2),
    }
}

/// Where the commands take a submarine from `(0, 0)` with aim 0 by the second
/// set of rules, as `(x, y, aim)`.
pub open spec fn course2(commands: Seq<SubCommand>) -> (int, int, int)
    decreases commands.len(),
{
    if commands.len() == 0 {
        (0, 0, 0)
    } else {
        step2(course2(commands.drop_last()), commands.last())
    }
}

/// The second set of rules never leaves the range of `i32`: not after any of
/// the commands, nor with the product that a command forward forms.
pub open spec fn course2_fits(commands: Seq<SubCommand>) -> bool {
    &&& forall|n: int|
        0 <= n <= commands.len() ==> fits_i32((#[trigger] course2(commands.take(n))).0)
            && fits_i32(course2(commands.take(n)).1) && fits_i32(course2(commands.take(n)).2)
    &&& forall|n: int|
        0 <= n < commands.len() && commands[n].dir == Direction::Forward ==> fits_i32(
            commands[n].val * (#[trigger] course2(commands.take(n))).2,
        )
}

/// The command in its other form.
pub open spec fn as_sub_command(command: SubmarineCommands) -> SubCommand {
    match command {
        SubmarineCommands::Forward(val) => SubCommand { dir: Direction::Forward, val },
        SubmarineCommands::Downward(val) => SubCommand { dir: Direction::Downward, val },
        SubmarineCommands::Upward(val) => SubCommand { dir: Direction::Upward, val },
    }
}

/// The commands in their other form.
pub open spec fn as_sub_commands(commands: Seq<SubmarineCommands>) -> Seq<SubCommand> {
    commands.map_values(|command: SubmarineCommands| as_sub_command(command))
}

/// Tests whether the commands can be followed by both sets of rules without
/// leaving the range of `i32`, by following them in a wider range.
pub fn can_run(commands: &[SubCommand]) -> (ok: bool)
    ensures
        ok <==> course1_fits(commands@) && course2_fits(commands@),
{
    let mut x: i64 = 0;
    let mut y1: i64 = 0;
    let mut y2: i64 = 0;
    let mut aim: i64 = 0;
    let mut i: usize = 0;
    assert(commands@.take(0) =~= Seq::empty());
    while i < commands.len()
        invariant
            i <= commands@.len(),
            course1(commands@.take(i as int)) == (x as int, y1 as int),
            course2(commands@.take(i as int)) == (x as int, y2 as int, aim as int),
            forall|n: int|
                0 <= n <= i ==> fits_i32((#[trigger] course1(commands@.take(n))).0) && fits_i32(
                    course1(commands@.take(n)).1,
                ),
            forall|n: int|
                0 <= n <= i ==> fits_i32((#[trigger] course2(commands@.take(n))).0) && fits_i32(
                    course2(commands@.take(n)).1,
                ) && fits_i32(course2(commands@.take(n)).2),
            forall|n: int|
                0 <= n < i && commands@[n].dir == Direction::Forward ==> fits_i32(
                    commands@[n].val * (#[trigger] course2(commands@.take(n))).2,
                ),
        decreases commands@.len() - i,
    {
        let sc = &commands[i];
        let val = sc.val as i64;
        proof {
            assert(commands@.take(i + 1).drop_last() =~= commands@.take(i as int));
            assert(-0x8000_0000 * 0x8000_0000 <= val * aim <= 0x8000_0000 * 0x8000_0000)
                by (nonlinear_arith)
                requires
                    -0x8000_0000 <= val <= 0x8000_0000,
                    -0x8000_0000 <= aim <= 0x8000_0000,
            ;
        }
        match sc.dir {
            Direction::Upward => {
                y1 -= val;
                aim -= val;
            },
            Direction::Downward => {
                y1 += val;
                aim += val;
            },
            Direction::Forward => {
                let product = val * aim;
                if product < i32::MIN as i64 || product > i32::MAX as i64 {
                    assert(!fits_i32(commands@[i as int].val * course2(commands@.take(i as int)).2));
                    return false;
                }
                x += val;
                y2 += product;
            },
        };
        if x < i32::MIN as i64 || x > i32::MAX as i64 || y1 < i32::MIN as i64 || y1
            > i32::MAX as i64 || y2 < i32::MIN as i64 || y2 > i32::MAX as i64 || aim
            < i32::MIN as i64 || aim > i32::MAX as i64 {
            assert(course1(commands@.take(i + 1)) == (x as int, y1 as int));
            assert(course2(commands@.take(i + 1)) == (x as int, y2 as int, aim as int));
            return false;
        }
        i += 1;
    }
    true
}

/// Follows the commands by both sets of rules and returns the two final
/// positions, each as `(x, y)`.
pub fn run(commands: &[SubCommand]) -> (positions: ((i32, i32), (i32, i32)))
    requires
        course1_fits(commands@),
        course2_fits(commands@),
    ensures
        positions.0.0 == course1(commands@).0,
        positions.0.1 == course1(commands@).1,
        positions.1.0 == course2(commands@).0,
        positions.1.1 == course2(commands@).1,
{
    (navigate_part1(commands), navigate_part2(commands))
}

/// Returns a tuple `(x, y)` as the final position of the submarine by the
/// first set of rules.
pub fn navigate_part1(commands: &[SubCommand]) -> (position: (i32, i32))
    requires
        course1_fits(commands@),
    ensures
        position.0 == course1(commands@).0,
        position.1 == course1(commands@).1,
{
    let mut x: i32 = 0;
    let mut y: i32 = 0;
    let mut i: usize = 0;
    assert(commands@.take(0) =~= Seq::empty());
    while i < commands.len()
        invariant
            course1_fits(commands@),
            i <= commands@.len(),
            course1(commands@.take(i as int)) == (x as int, y as int),
        decreases commands@.len() - i,
    {
        let sc = &commands[i];
        proof {
            assert(commands@.take(i + 1).drop_last() =~= commands@.take(i as int));
            assert(fits_i32(course1(commands@.take(i + 1)).0));
        }
        match sc.dir {
            Direction::Upward => y -= sc.val,
            Direction::Downward => y += sc.val,
            Direction::Forward => x += sc.val,
        };
        i += 1;
    }
    assert(commands@.take(i as int) =~= commands@);
    (x, y)
}

/// Returns a tuple `(x, y)` as the final position of the submarine by the
/// second set of rules.
pub fn navigate_part2(commands: &[SubCommand]) -> (position: (i32, i32))
    requires
        course2_fits(commands@),
    ensures
        position.0 == course2(commands@).0,
        position.1 == course2(commands@).1,
{
    let mut x: i32 = 0;
    let mut y: i32 = 0;
    let mut aim: i32 = 0;
    let mut i: usize = 0;
    assert(commands@.take(0) =~= Seq::empty());
    while i < commands.len()
        invariant
            course2_fits(commands@),
            i <= commands@.len(),
            course2(commands@.take(i as int)) == (x as int, y as int, aim as int),
        decreases commands@.len() - i,
    {
        let sc = &commands[i];
        proof {
            assert(commands@.take(i + 1).drop_last() =~= commands@.take(i as int));
            assert(fits_i32(course2(commands@.take(i + 1)).0));
            assert(sc.dir == Direction::Forward ==> fits_i32(
                commands@[i as int].val * course2(commands@.take(i as int)).2,
            ));
        }
        match sc.dir {
            Direction::Upward => aim -= sc.val,
            Direction::Downward => aim += sc.val,
            Direction::Forward => {
                x += sc.val;
                y += sc.val * aim;
            },
        };
        i += 1;
    }
    assert(commands@.take(i as int) =~= commands@);
    (x, y)
}

/// Returns a tuple `(x, y)` as the final position of the submarine by the
/// first set of rules, for commands that carry their value.
pub fn navigate_part1z(commands: &[SubmarineCommands]) -> (position: (i32, i32))
    requires
        course1_fits(as_sub_commands(commands@)),
    ensures
        position.0 == course1(as_sub_commands(commands@)).0,
        position.1 == course1(as_sub_commands(commands@)).1,
{
    let ghost all = as_sub_commands(commands@);
    let mut x: i32 = 0;
    let mut y: i32 = 0;
    let mut i: usize = 0;
    assert(all.take(0) =~= Seq::empty());
    while i < commands.len()
        invariant
            all == as_sub_commands(commands@),
            course1_fits(all),
            i <= commands@.len(),
            course1(all.take(i as int)) == (x as int, y as int),
        decreases commands@.len() - i,
    {
        let sc = commands[i];
        proof {
            assert(all.take(i + 1).drop_last() =~= all.take(i as int));
            assert(fits_i32(course1(all.take(i + 1)).0));
        }
        match sc {
            SubmarineCommands::Upward(v) => y -= v,
            SubmarineCommands::Downward(v) => y += v,
            SubmarineCommands::Forward(v) => x += v,
        };
        i += 1;
    }
    assert(all.take(i as int) =~= all);
    (x, y)
}

/// Returns a tuple `(x, y)` as the final position of the submarine by the
/// second set of rules, for commands that carry their value.
pub fn navigate_part2z(commands: &[SubmarineCommands]) -> (position: (i32, i32))
    requires
        course2_fits(as_sub_commands(commands@)),
    ensures
        position.0 == course2(as_sub_commands(commands@)).0,
        position.1 == course2(as_sub_commands(commands@)).1,
{
    let ghost all = as_sub_commands(commands@);
    let mut x: i32 = 0;
    let mut y: i32 = 0;
    let mut aim: i32 = 0;
    let mut i: usize = 0;
    assert(all.take(0) =~= Seq::empty());
    while i < commands.len()
        invariant
            all == as_sub_commands(commands@),
            course2_fits(all),
            i <= commands@.len(),
            course2(all.take(i as int)) == (x as int, y as int, aim as int),
        decreases commands@.len() - i,
    {
        let sc = commands[i];
        proof {
            assert(all.take(i + 1).drop_last() =~= all.take(i as int));
            assert(fits_i32(course2(all.take(i + 1)).0));
            assert(all[i as int].dir == Direction::Forward ==> fits_i32(
                all[i as int].val * course2(all.take(i as int)).2,
            ));
        }
        match sc {
            SubmarineCommands::Upward(v) => aim -= v,
            SubmarineCommands::Downward(v) => aim += v,
            SubmarineCommands::Forward(v) => {
                x += v;
                y += v * aim;
            },
        };
        i += 1;
    }
    assert(all.take(i as int) =~= all);
    (x, y)
}

} // verus!
