//! Bingo.
//!
//! From the drawn numbers and the bingo boards:
//!
//! 1. determine the first winner and return its score;
//!
//! 2. determine the last winner and return its score.
//!
//! A board has five rows of five numbers and wins when a row or a column is
//! complete. Its score is the sum of all numbers that are not marked times
//! the number drawn when the board won.

use crate::helpers::read::{
    parse_each, parsed_each, split, split_ascii_whitespace, split_text, texts, words_of,
    ParseError,
};
use core::str::FromStr;
use vstd::prelude::*;
use vstd::string::StringSliceAdditionalSpecFns;

verus! {

/// What a board holds, as contracts see it.
pub struct Marks {
    /// The 25 numbers, row after row.
    pub numbers: Seq<u8>,
    /// For each number, whether it has been marked.
    pub markers: Seq<bool>,
    /// For each row, how often a number in it has been marked.
    pub row_scores: Seq<int>,
    /// For each column, how often a number in it has been marked.
    pub col_scores: Seq<int>,
    /// The number drawn when the board won.
    pub winning_number: Option<u8>,
}

/// Whether `idx` is the first place on the board that holds `n`.
pub open spec fn is_first(numbers: Seq<u8>, n: u8, idx: int) -> bool {
    &&& 0 <= idx < numbers.len()
    &&& numbers[idx] == n
    &&& forall|j: int| 0 <= j < idx ==> numbers[j] != n
}

/// Whether the board holds `n`.
pub open spec fn on_board(numbers: Seq<u8>, n: u8) -> bool {
    exists|idx: int| is_first(numbers, n, idx)
}

/// The first place on the board that holds `n`.
pub open spec fn place(numbers: Seq<u8>, n: u8) -> int {
    choose|idx: int| is_first(numbers, n, idx)
}

/// The sum of the numbers that are not marked.
pub open spec fn unmarked_sum(numbers: Seq<u8>, markers: Seq<bool>) -> int
    decreases numbers.len(),
{
    if numbers.len() == 0 {
        0
    } else {
        unmarked_sum(numbers.drop_last(), markers.drop_last()) + if markers.last() {
            0int
        } else {
            numbers.last() as int
        }
    }
}

impl Marks {
    /// Five rows of five numbers, with a count for each row and column, none
    /// below zero.
    pub open spec fn wf(self) -> bool {
        &&& self.numbers.len() == 25
        &&& self.markers.len() == 25
        &&& self.row_scores.len() == 5
        &&& self.col_scores.len() == 5
        &&& self.counts_at_most(u8::MAX as int)
    }

    /// Whether no count of a row or a column is above `bound`.
    pub open spec fn counts_at_most(self, bound: int) -> bool {
        forall|i: int|
            0 <= i < 5 ==> (#[trigger] self.row_scores[i]) <= bound && self.col_scores[i] <= bound
    }

    /// Every count can be held in a byte.
    pub open spec fn fits(self) -> bool {
        &&& forall|i: int| 0 <= i < self.row_scores.len() ==> self.row_scores[i] <= u8::MAX
        &&& forall|i: int| 0 <= i < self.col_scores.len() ==> self.col_scores[i] <= u8::MAX
    }

    /// The board after `n` has been drawn: where the board holds `n`, the
    /// first such place is marked and counted for its row and its column,
    /// whether or not it was marked before; if that brings either count to
    /// exactly five, the board has won with `n`.
    pub open spec fn mark(self, n: u8) -> Marks {
        if !on_board(self.numbers, n) {
            self
        } else {
            let idx = place(self.numbers, n);
            let rows = self.row_scores.update(idx / 5, self.row_scores[idx / 5] + 1);
            let cols = self.col_scores.update(idx % 5, self.col_scores[idx % 5] + 1);
            Marks {
                numbers: self.numbers,
                markers: self.markers.update(idx, true),
                row_scores: rows,
                col_scores: cols,
                winning_number: if rows[idx / 5] == 5 || cols[idx % 5] == 5 {
                    Some(n)
                } else {
                    self.winning_number
                },
            }
        }
    }

    /// Whether drawing `n` completes a row or a column.
    pub open spec fn wins_with(self, n: u8) -> bool {
        on_board(self.numbers, n) && {
            let idx = place(self.numbers, n);
            self.mark(n).row_scores[idx / 5] == 5 || self.mark(n).col_scores[idx % 5] == 5
        }
    }

    /// The sum of all numbers that are not marked times the number drawn at
    /// the winning moment; zero if the board has not yet won.
    pub open spec fn score(self) -> int {
        unmarked_sum(self.numbers, self.markers) * match self.winning_number {
            Some(n) => n as int,
            None => 0,
        }
    }

    /// The board with nothing marked.
    pub open spec fn fresh(numbers: Seq<u8>) -> Marks {
        Marks {
            numbers,
            markers: Seq::new(25, |i: int| false),
            row_scores: Seq::new(5, |i: int| 0int),
            col_scores: Seq::new(5, |i: int| 0int),
            winning_number: None,
        }
    }
}

/// The boards after `n` has been drawn, where the boards that have won sit
/// out: every board that is still playing marks `n`.
pub open spec fn draw(boards: Seq<Marks>, n: u8) -> Seq<Marks> {
    boards.map_values(
        |board: Marks|
            if board.winning_number is None {
                board.mark(n)
            } else {
                board
            },
    )
}

/// The places, among the first `upto` boards, of those that are still
/// playing and win with `n`, in ascending order.
pub open spec fn winners_of_draw(boards: Seq<Marks>, n: u8, upto: int) -> Seq<int>
    decreases upto,
{
    if upto <= 0 {
        Seq::empty()
    } else if boards[upto - 1].winning_number is None && boards[upto - 1].wins_with(n) {
        winners_of_draw(boards, n, upto - 1).push(upto - 1)
    } else {
        winners_of_draw(boards, n, upto - 1)
    }
}

/// The boards after the numbers have been drawn one after the other.
pub open spec fn play(boards: Seq<Marks>, numbers: Seq<u8>) -> Seq<Marks>
    decreases numbers.len(),
{
    if numbers.len() == 0 {
        boards
    } else {
        draw(play(boards, numbers.drop_last()), numbers.last())
    }
}

/// The places of the boards in the order in which they win while the
/// numbers are drawn; boards that win with the same number come in the order
/// of their places.
pub open spec fn winners(boards: Seq<Marks>, numbers: Seq<u8>) -> Seq<int>
    decreases numbers.len(),
{
    if numbers.len() == 0 {
        Seq::empty()
    } else {
        winners(boards, numbers.drop_last()) + winners_of_draw(
            play(boards, numbers.drop_last()),
            numbers.last(),
            boards.len() as int,
        )
    }
}

/// While the numbers are drawn, no board that marks a number counts past
/// what a byte can hold.
pub open spec fn play_fits(boards: Seq<Marks>, numbers: Seq<u8>) -> bool {
    forall|k: int, i: int|
        0 <= k < numbers.len() && 0 <= i < boards.len() && (#[trigger] play(
            boards,
            numbers.take(k),
        )[i]).winning_number is None ==> play(boards, numbers.take(k))[i].mark(numbers[k]).fits()
}

/// One draw with the winners leaving: every board marks `n`; the boards that
/// win with it leave, the others stay in their order. The result holds the
/// boards that stay and, where a board has won, the last one that did.
pub open spec fn drain(boards: Seq<Marks>, n: u8) -> (Seq<Marks>, Option<Marks>)
    decreases boards.len(),
{
    if boards.len() == 0 {
        (Seq::empty(), None)
    } else {
        let (stay, winner) = drain(boards.drop_last(), n);
        if boards.last().wins_with(n) {
            (stay, Some(boards.last().mark(n)))
        } else {
            (stay.push(boards.last().mark(n)), winner)
        }
    }
}

/// The numbers drawn one after the other with the winners leaving, until no
/// board is left. The result holds the boards that are left and, for each
/// draw with a winner, the score of the last board that won in it.
pub open spec fn drain_play(boards: Seq<Marks>, numbers: Seq<u8>) -> (Seq<Marks>, Seq<int>)
    decreases numbers.len(),
{
    if numbers.len() == 0 {
        (boards, Seq::empty())
    } else {
        let (left, scores) = drain_play(boards, numbers.drop_last());
        let (stay, winner) = drain(left, numbers.last());
        (
            stay,
            match winner {
                Some(board) => scores.push(board.score()),
                None => scores,
            },
        )
    }
}

/// While the numbers are drawn with the winners leaving, no board counts
/// past what a byte can hold.
pub open spec fn drain_fits(boards: Seq<Marks>, numbers: Seq<u8>) -> bool {
    forall|k: int, i: int|
        0 <= k < numbers.len() && 0 <= i < drain_play(boards, numbers.take(k)).0.len() ==> (
        #[trigger] drain_play(boards, numbers.take(k)).0[i]).mark(numbers[k]).fits()
}

/// Whether the boards of the input can be played with its drawn numbers: no
/// count grows past a byte, and a board wins.
pub open spec fn playable(text: Seq<u8>) -> bool {
    let drawn = parsed_each::<u8>(split_text(parts_of(text)[0], seq![44u8]));
    let boards = boards_of(parts_of(text).skip(1));
    play_fits(boards, drawn) && winners(boards, drawn).len() > 0
}

/// The scores of the first and last winner among the boards of the input,
/// played with its drawn numbers.
pub open spec fn results(text: Seq<u8>) -> (u32, u32) {
    let drawn = parsed_each::<u8>(split_text(parts_of(text)[0], seq![44u8]));
    let boards = boards_of(parts_of(text).skip(1));
    (
        play(boards, drawn)[winners(boards, drawn).first()].score() as u32,
        play(boards, drawn)[winners(boards, drawn).last()].score() as u32,
    )
}

/// Marking a number raises no count by more than one.
proof fn lemma_mark_counts(board: Marks, n: u8, bound: int)
    requires
        board.wf(),
        board.counts_at_most(bound),
    ensures
        board.mark(n).numbers.len() == 25,
        board.mark(n).markers.len() == 25,
        board.mark(n).row_scores.len() == 5,
        board.mark(n).col_scores.len() == 5,
        board.mark(n).counts_at_most(bound + 1),
        bound < u8::MAX ==> board.mark(n).fits() && board.mark(n).wf(),
{
    if on_board(board.numbers, n) {
        let idx = place(board.numbers, n);
        assert(is_first(board.numbers, n, idx));
        assert forall|i: int| 0 <= i < 5 implies (#[trigger] board.mark(n).row_scores[i]) <= bound
            + 1 && board.mark(n).col_scores[i] <= bound + 1 by {
            assert(board.row_scores[i] <= bound);
            assert(board.col_scores[i] <= bound);
        }
    } else {
        assert forall|i: int| 0 <= i < 5 implies (#[trigger] board.mark(n).row_scores[i]) <= bound
            + 1 && board.mark(n).col_scores[i] <= bound + 1 by {
            assert(board.row_scores[i] <= bound);
        }
    }
    if bound < u8::MAX {
        let marked = board.mark(n);
        assert forall|i: int| 0 <= i < 5 implies (#[trigger] marked.row_scores[i]) <= 255
            && marked.col_scores[i] <= 255 by {
            assert(marked.row_scores[i] <= bound + 1);
        }
        assert forall|i: int| 0 <= i < marked.row_scores.len() implies marked.row_scores[i]
            <= u8::MAX by {
            assert(marked.row_scores[i] <= bound + 1);
        }
        assert forall|i: int| 0 <= i < marked.col_scores.len() implies marked.col_scores[i]
            <= u8::MAX by {
            assert(marked.row_scores[i] <= bound + 1);
        }
    }
}

/// The boards as contracts see them.
pub open spec fn views(boards: Seq<BingoBoard>) -> Seq<Marks> {
    boards.map_values(|board: BingoBoard| board@)
}

/// Every winner is one of the boards.
pub proof fn lemma_winners_of_draw_in_range(boards: Seq<Marks>, n: u8, upto: int)
    requires
        upto <= boards.len(),
    ensures
        forall|k: int|
            0 <= k < winners_of_draw(boards, n, upto).len() ==> 0 <= #[trigger] winners_of_draw(
                boards,
                n,
                upto,
            )[k] < upto,
    decreases upto,
{
    if upto > 0 {
        lemma_winners_of_draw_in_range(boards, n, upto - 1);
        let found = winners_of_draw(boards, n, upto);
        let earlier = winners_of_draw(boards, n, upto - 1);
        assert forall|k: int| 0 <= k < found.len() implies 0 <= #[trigger] found[k] < upto by {
            if k < earlier.len() {
                assert(found[k] == earlier[k]);
            }
        }
    }
}

/// The numbers that a text holds: those among its words that can be held in
/// a byte.
pub open spec fn numbers_of(text: Seq<u8>) -> Seq<u8> {
    parsed_each::<u8>(words_of(text))
}

/// The boards that the texts stand for, in order. A text stands for a board
/// if it holds 25 numbers; the others are left out.
pub open spec fn boards_of(pieces: Seq<Seq<u8>>) -> Seq<Marks>
    decreases pieces.len(),
{
    if pieces.len() == 0 {
        Seq::empty()
    } else if numbers_of(pieces.last()).len() == 25 {
        boards_of(pieces.drop_last()).push(Marks::fresh(numbers_of(pieces.last())))
    } else {
        boards_of(pieces.drop_last())
    }
}

/// The parts of the input: what empty lines separate.
pub open spec fn parts_of(text: Seq<u8>) -> Seq<Seq<u8>> {
    split_text(text, seq![10u8, 10u8])
}

/// Parses the input and returns a tuple containing the drawn numbers and the
/// boards. The first part of the input holds the drawn numbers with commas
/// between them; each further part holds a board.
pub fn parse_input(input: &str) -> (game: (Vec<u8>, Vec<BingoBoard>))
    ensures
        game.0@ == parsed_each::<u8>(split_text(parts_of(input.spec_bytes())[0], seq![44u8])),
        views(game.1@) == boards_of(parts_of(input.spec_bytes()).skip(1)),
{
    let blank: [u8; 2] = [10, 10];
    assert(blank@ =~= seq![10u8, 10u8]);
    let comma: [u8; 1] = [44];
    assert(comma@ =~= seq![44u8]);
    let parts = split(input.as_bytes(), blank.as_slice());
    assert(texts(parts@).len() == parts@.len());
    assert(texts(parts@)[0] == parts@[0]@);
    let numbers = split(parts[0], comma.as_slice());
    let drawn_numbers: Vec<u8> = parse_each(&numbers);
    let ghost rest = texts(parts@).skip(1);
    let mut boards: Vec<BingoBoard> = Vec::new();
    let mut i: usize = 1;
    assert(rest.take(0) =~= Seq::empty());
    assert(views(boards@) =~= Seq::empty());
    while i < parts.len()
        invariant
            rest == texts(parts@).skip(1),
            1 <= i <= parts@.len(),
            views(boards@) == boards_of(rest.take(i - 1)),
        decreases parts@.len() - i,
    {
        proof {
            assert(rest.take(i as int).drop_last() =~= rest.take(i - 1));
            assert(rest.take(i as int).last() == parts@[i as int]@);
        }
        let ghost before = views(boards@);
        match BingoBoard::from_text(parts[i]) {
            Some(board) => {
                boards.push(board);
                assert(views(boards@) =~= before.push(board@));
            },
            None => {},
        }
        i += 1;
    }
    assert(rest.take(i - 1) =~= rest);
    (drawn_numbers, boards)
}

/// A struct representing a Bingo Board; complete a row or column to win.
#[derive(Copy, Clone)]
pub struct BingoBoard {
    board_numbers: [u8; 25],  // the numbers of the board, row after row
    board_markers: [bool; 25],  // markers for the board, mirrors the board_numbers
    board_row_scores: [u8; 5],  // keeps track of marked numbers in each row
    board_col_scores: [u8; 5],  // keeps track of marked numbers in each column
    winning_number: Option<u8>,  // saves the drawn number at the winning moment
}

impl View for BingoBoard {
    type V = Marks;

    closed spec fn view(&self) -> Marks {
        Marks {
            numbers: self.board_numbers@,
            markers: self.board_markers@,
            row_scores: self.board_row_scores@.map_values(|v: u8| v as int),
            col_scores: self.board_col_scores@.map_values(|v: u8| v as int),
            winning_number: self.winning_number,
        }
    }
}

/// An unmarked sum of 25 bytes stays small.
proof fn lemma_unmarked_sum_bound(numbers: Seq<u8>, markers: Seq<bool>)
    ensures
        0 <= unmarked_sum(numbers, markers) <= 255 * numbers.len(),
    decreases numbers.len(),
{
    if numbers.len() > 0 {
        lemma_unmarked_sum_bound(numbers.drop_last(), markers.drop_last());
    }
}

impl BingoBoard {
    /// A board of the given numbers with nothing marked.
    pub fn new(board: [u8; 25]) -> (fresh: Self)
        ensures
            fresh@ == Marks::fresh(board@),
    {
        let fresh = Self {
            board_numbers: board,
            board_markers: [false;25],
            board_row_scores: [0;5],
            board_col_scores: [0;5],
            winning_number: None,
        };
        assert(fresh@.markers =~= Marks::fresh(board@).markers);
        assert(fresh@.row_scores =~= Marks::fresh(board@).row_scores);
        assert(fresh@.col_scores =~= Marks::fresh(board@).col_scores);
        fresh
    }

    /// Reads a board from its 25 numbers, written with white space between
    /// them. Words that are no number are left out; a text that then holds
    /// more or fewer than 25 numbers stands for no board.
    pub fn from_text(text: &[u8]) -> (board: Option<BingoBoard>)
        ensures
            board is Some <==> numbers_of(text@).len() == 25,
            board is Some ==> board->0@ == Marks::fresh(numbers_of(text@)),
    {
        let words = split_ascii_whitespace(text);
        let numbers: Vec<u8> = parse_each(&words);
        if numbers.len() != 25 {
            return None;
        }
        let mut board: [u8; 25] = [0;25];
        let mut i: usize = 0;
        while i < 25
            invariant
                numbers@.len() == 25,
                i <= 25,
                forall|k: int| 0 <= k < i ==> board@[k] == numbers@[k],
            decreases 25 - i,
        {
            board[i] = numbers[i];
            i += 1;
        }
        assert(board@ =~= numbers@);
        Some(BingoBoard::new(board))
    }

    /// Every board holds five rows of five numbers, and counts that a byte
    /// can hold.
    pub proof fn lemma_wf(&self)
        ensures
            self@.wf(),
    {
        assert forall|i: int| 0 <= i < 5 implies (#[trigger] self@.row_scores[i]) <= 255
            && self@.col_scores[i] <= 255 by {
            assert(self@.row_scores[i] == self.board_row_scores@[i]);
            assert(self@.col_scores[i] == self.board_col_scores@[i]);
        }
    }

    /// The largest of the counts of the rows and columns, or a number above
    /// it.
    pub fn highest_count(&self) -> (highest: u8)
        ensures
            self@.counts_at_most(highest as int),
            self@ == Marks::fresh(self@.numbers) ==> highest == 0,
    {
        let mut highest: u8 = 0;
        let mut i: usize = 0;
        while i < 5
            invariant
                i <= 5,
                forall|k: int|
                    0 <= k < i ==> self.board_row_scores@[k] <= highest
                        && self.board_col_scores@[k] <= highest,
                (forall|k: int|
                    0 <= k < 5 ==> self.board_row_scores@[k] == 0 && self.board_col_scores@[k]
                        == 0) ==> highest == 0,
            decreases 5 - i,
        {
            if self.board_row_scores[i] > highest {
                highest = self.board_row_scores[i];
            }
            if self.board_col_scores[i] > highest {
                highest = self.board_col_scores[i];
            }
            i += 1;
        }
        proof {
            assert forall|k: int| 0 <= k < 5 implies (#[trigger] self@.row_scores[k]) <= highest
                && self@.col_scores[k] <= highest by {
                assert(self@.row_scores[k] == self.board_row_scores@[k]);
                assert(self@.col_scores[k] == self.board_col_scores@[k]);
            }
            if self@ == Marks::fresh(self@.numbers) {
                assert forall|k: int| 0 <= k < 5 implies self.board_row_scores@[k] == 0
                    && self.board_col_scores@[k] == 0 by {
                    assert(self@.row_scores[k] == self.board_row_scores@[k]);
                    assert(self@.col_scores[k] == self.board_col_scores@[k]);
                }
            }
        }
        highest
    }

    /// Marks the input on the board; returns true if this board has won.
    pub fn mark_number(&mut self, n: u8) -> (won: bool)
        requires
            old(self)@.mark(n).fits(),
        ensures
            final(self)@ == old(self)@.mark(n),
            won == old(self)@.wins_with(n),
    {
        let mut idx: usize = 0;
        while idx < 25 && self.board_numbers[idx] != n
            invariant
                idx <= 25,
                forall|j: int| 0 <= j < idx ==> self.board_numbers@[j] != n,
            decreases 25 - idx,
        {
            idx += 1;
        }
        if idx < 25 {
            let ghost before = self@;
            assert(is_first(before.numbers, n, idx as int));
            assert(place(before.numbers, n) == idx);
            self.board_markers[idx] = true;
            let row_idx = idx / 5;
            let col_idx = idx % 5;
            assert(before.mark(n).row_scores[row_idx as int] == before.row_scores[row_idx as int]
                + 1);
            assert(before.mark(n).col_scores[col_idx as int] == before.col_scores[col_idx as int]
                + 1);
            self.board_row_scores[row_idx] += 1;
            self.board_col_scores[col_idx] += 1;
            let has_won = self.board_row_scores[row_idx] == 5 || self.board_col_scores[col_idx]
                == 5;
            if has_won {
                self.winning_number = Some(n);
            }
            assert(self@.row_scores =~= before.mark(n).row_scores);
            assert(self@.col_scores =~= before.mark(n).col_scores);
            assert(self@.markers =~= before.mark(n).markers);
            return has_won;
        }
        assert(!on_board(self@.numbers, n));
        false
    }

    /// Score: the sum of all unmarked numbers times the number drawn at the
    /// winning moment. Also, returns zero if the board has not yet won.
    pub fn calculate_score(&self) -> (score: u32)
        ensures
            score == self@.score(),
    {
        let mut sum: u32 = 0;
        let mut i: usize = 0;
        assert(self.board_numbers@.take(0) =~= Seq::empty());
        while i < 25
            invariant
                i <= 25,
                sum == unmarked_sum(
                    self.board_numbers@.take(i as int),
                    self.board_markers@.take(i as int),
                ),
                sum <= 255 * i,
            decreases 25 - i,
        {
            proof {
                assert(self.board_numbers@.take(i + 1).drop_last() =~= self.board_numbers@.take(
                    i as int,
                ));
                assert(self.board_markers@.take(i + 1).drop_last() =~= self.board_markers@.take(
                    i as int,
                ));
            }
            if !self.board_markers[i] {
                sum += self.board_numbers[i] as u32;
            }
            i += 1;
        }
        assert(self.board_numbers@.take(25) =~= self.board_numbers@);
        assert(self.board_markers@.take(25) =~= self.board_markers@);
        let factor: u32 = match self.winning_number {
            Some(n) => n as u32,
            None => 0,
        };
        assert(sum * factor <= 255 * 25 * 255) by (nonlinear_arith)
            requires
                sum <= 255 * 25,
                factor <= 255,
        ;
        sum * factor
    }

    /// Returns true if a board has not yet won.
    pub fn is_playing(&self) -> (playing: bool)
        ensures
            playing == (self@.winning_number is None),
    {
        self.winning_number.is_none()
    }

    /// Cleans the state of the board to start anew.
    pub fn clean(&mut self)
        ensures
            final(self)@ == Marks::fresh(old(self)@.numbers),
    {
        self.board_markers = [false;25];
        self.board_row_scores = [0;5];
        self.board_col_scores = [0;5];
        self.winning_number = None;
        assert(self@.markers =~= Marks::fresh(self@.numbers).markers);
        assert(self@.row_scores =~= Marks::fresh(self@.numbers).row_scores);
        assert(self@.col_scores =~= Marks::fresh(self@.numbers).col_scores);
    }
}

impl FromStr for BingoBoard {
    type Err = ParseError;

    /// Reads a board from its 25 numbers, written with white space between
    /// them; more or fewer numbers give the error.
    fn from_str(s: &str) -> (value: Result<Self, ParseError>)
        ensures
            value is Ok <==> numbers_of(s.spec_bytes()).len() == 25,
            match value {
                Ok(board) => board@ == Marks::fresh(numbers_of(s.spec_bytes())),
                Err(error) => error == ParseError,
            },
    {
        match BingoBoard::from_text(s.as_bytes()) {
            Some(board) => Ok(board),
            None => Err(ParseError),
        }
    }
}

/// Tests whether the boards can be played with the drawn numbers: a board
/// wins, and there are no more drawn numbers than every count of the boards
/// has room for. Boards with less room may be playable and not pass.
pub fn can_play(boards: &[BingoBoard], draw_numbers: &[u8]) -> (ok: bool)
    ensures
        ok ==> play_fits(views(boards@), draw_numbers@) && winners(
            views(boards@),
            draw_numbers@,
        ).len() > 0,
        (forall|i: int| 0 <= i < boards@.len() ==> (#[trigger] boards@[i])@ == Marks::fresh(
            boards@[i]@.numbers,
        )) && draw_numbers@.len() <= u8::MAX ==> (ok <==> winners(
            views(boards@),
            draw_numbers@,
        ).len() > 0),
{
    let ghost start = views(boards@);
    let mut highest: u8 = 0;
    let mut copies: Vec<BingoBoard> = Vec::new();
    let mut i: usize = 0;
    while i < boards.len()
        invariant
            i <= boards@.len(),
            copies@ == boards@.take(i as int),
            forall|k: int| 0 <= k < i ==> (#[trigger] boards@[k])@.counts_at_most(highest as int),
            (forall|k: int| 0 <= k < boards@.len() ==> (#[trigger] boards@[k])@ == Marks::fresh(
                boards@[k]@.numbers,
            )) ==> highest == 0,
        decreases boards@.len() - i,
    {
        let count = boards[i].highest_count();
        if count > highest {
            highest = count;
        }
        copies.push(boards[i]);
        assert(copies@ =~= boards@.take(i + 1));
        i += 1;
    }
    assert(boards@.take(i as int) =~= boards@);
    if draw_numbers.len() > (u8::MAX - highest) as usize {
        return false;
    }
    let mut winning_boards_indexes: Vec<usize> = Vec::new();
    let mut d: usize = 0;
    proof {
        assert(draw_numbers@.take(0) =~= Seq::empty());
        assert(places(winning_boards_indexes@) =~= Seq::empty());
        assert forall|i: int| 0 <= i < copies@.len() implies (#[trigger] views(copies@)[i]).wf()
            && views(copies@)[i].counts_at_most(highest + 0) by {
            copies@[i].lemma_wf();
        }
    }
    while d < draw_numbers.len()
        invariant
            start == views(boards@),
            highest + draw_numbers@.len() <= u8::MAX,
            d <= draw_numbers@.len(),
            copies@.len() == start.len(),
            views(copies@) == play(start, draw_numbers@.take(d as int)),
            places(winning_boards_indexes@) == winners(start, draw_numbers@.take(d as int)),
            forall|i: int|
                0 <= i < copies@.len() ==> (#[trigger] views(copies@)[i]).wf() && views(
                    copies@,
                )[i].counts_at_most(highest + d),
            forall|k: int, i: int|
                0 <= k < d && 0 <= i < start.len() && (#[trigger] play(
                    start,
                    draw_numbers@.take(k),
                )[i]).winning_number is None ==> play(start, draw_numbers@.take(k))[i].mark(
                    draw_numbers@[k],
                ).fits(),
        decreases draw_numbers@.len() - d,
    {
        let n = draw_numbers[d];
        let ghost before = views(copies@);
        proof {
            assert(draw_numbers@.take(d + 1).drop_last() =~= draw_numbers@.take(d as int));
            assert forall|i: int| 0 <= i < before.len() implies (#[trigger] before[i]).mark(
                n,
            ).fits() && draw(before, n)[i].wf() && draw(before, n)[i].counts_at_most(
                highest + d + 1,
            ) by {
                lemma_mark_counts(before[i], n, highest + d);
                assert forall|j: int| 0 <= j < 5 implies (#[trigger] before[i].row_scores[j])
                    <= highest + d + 1 && before[i].col_scores[j] <= highest + d + 1 by {
                    assert(before[i].row_scores[j] <= highest + d);
                }
                assert(before[i].counts_at_most(highest + d + 1));
            }
            assert forall|i: int|
                0 <= i < copies@.len() && (#[trigger] copies@[i])@.winning_number is None
                    implies copies@[i]@.mark(n).fits() by {
                assert(before[i] == copies@[i]@);
            }
        }
        draw_number(copies.as_mut_slice(), n, &mut winning_boards_indexes);
        d += 1;
    }
    assert(draw_numbers@.take(d as int) =~= draw_numbers@);
    assert(places(winning_boards_indexes@).len() == winning_boards_indexes@.len());
    winning_boards_indexes.len() > 0
}

/// Tests whether the boards of the input can be played with its drawn
/// numbers: there are no more of these than a byte can count, and a board
/// wins.
pub fn can_run(input: &str) -> (ok: bool)
    ensures
        ok ==> playable(input.spec_bytes()),
        parsed_each::<u8>(split_text(parts_of(input.spec_bytes())[0], seq![44u8])).len()
            <= u8::MAX ==> (ok <==> playable(input.spec_bytes())),
{
    let (draw_numbers, boards) = parse_input(input);
    proof {
        lemma_boards_are_fresh(parts_of(input.spec_bytes()).skip(1));
        assert forall|i: int| 0 <= i < boards@.len() implies (#[trigger] boards@[i])@
            == Marks::fresh(boards@[i]@.numbers) by {
            assert(views(boards@)[i] == boards@[i]@);
        }
    }
    can_play(boards.as_slice(), draw_numbers.as_slice())
}

/// The boards that texts stand for have nothing marked.
proof fn lemma_boards_are_fresh(pieces: Seq<Seq<u8>>)
    ensures
        forall|i: int|
            0 <= i < boards_of(pieces).len() ==> (#[trigger] boards_of(pieces)[i]) == Marks::fresh(
                boards_of(pieces)[i].numbers,
            ),
    decreases pieces.len(),
{
    if pieces.len() > 0 {
        lemma_boards_are_fresh(pieces.drop_last());
    }
}

/// Plays the boards of the input with its drawn numbers and returns the
/// scores of the first and last winner.
pub fn run(input: &str) -> (scores: (u32, u32))
    requires
        playable(input.spec_bytes()),
    ensures
        scores == results(input.spec_bytes()),
{
    let (draw_numbers, mut boards) = parse_input(input);
    let (first_winner, last_winner) = go_bingo_new(boards.as_mut_slice(), draw_numbers.as_slice());
    (first_winner, last_winner)
}

/// The places as contracts see them.
pub open spec fn places(indexes: Seq<usize>) -> Seq<int> {
    indexes.map_values(|index: usize| index as int)
}

/// Draws one number: every board that is still playing marks it, and the
/// places of those that win with it are added to the winners, in order.
fn draw_number(boards: &mut [BingoBoard], n: u8, winning_boards_indexes: &mut Vec<usize>)
    requires
        forall|i: int|
            0 <= i < old(boards)@.len() && (#[trigger] old(boards)@[i])@.winning_number is None
                ==> old(boards)@[i]@.mark(n).fits(),
    ensures
        final(boards)@.len() == old(boards)@.len(),
        views(final(boards)@) == draw(views(old(boards)@), n),
        places(final(winning_boards_indexes)@) == places(old(winning_boards_indexes)@)
            + winners_of_draw(views(old(boards)@), n, old(boards)@.len() as int),
{
    let ghost before = views(boards@);
    let ghost earlier = places(winning_boards_indexes@);
    let total_boards = boards.len();
    let mut idx: usize = 0;
    assert(places(winning_boards_indexes@) =~= earlier + winners_of_draw(before, n, 0));
    while idx < boards.len()
        invariant
            before.len() == total_boards,
            boards@.len() == total_boards,
            idx <= total_boards,
            forall|i: int|
                0 <= i < total_boards && before[i].winning_number is None ==> before[i].mark(
                    n,
                ).fits(),
            forall|i: int| 0 <= i < idx ==> (#[trigger] boards@[i])@ == draw(before, n)[i],
            forall|i: int| idx <= i < total_boards ==> (#[trigger] boards@[i])@ == before[i],
            places(winning_boards_indexes@) == earlier + winners_of_draw(before, n, idx as int),
        decreases total_boards - idx,
    {
        let mut board = boards[idx];
        assert(before[idx as int] == board@);
        if board.is_playing() {
            if board.mark_number(n) {
                let ghost so_far = places(winning_boards_indexes@);
                winning_boards_indexes.push(idx);
                assert(places(winning_boards_indexes@) =~= so_far.push(idx as int));
                assert(so_far.push(idx as int) =~= earlier + winners_of_draw(before, n, idx + 1));
            }
            boards[idx] = board;
        }
        idx += 1;
    }
    assert(views(boards@) =~= draw(before, n));
}

/// Runs the bingo simulation and returns a tuple containing the scores of
/// the first and last winner. A board that has won sits out the rest of the
/// draws; of boards that win with the same number, the one that comes first
/// in `boards` wins first. At least one board must win.
pub fn go_bingo_new(boards: &mut [BingoBoard], draw_numbers: &[u8]) -> (scores: (u32, u32))
    requires
        play_fits(views(old(boards)@), draw_numbers@),
        winners(views(old(boards)@), draw_numbers@).len() > 0,
    ensures
        views(final(boards)@) == play(views(old(boards)@), draw_numbers@),
        scores.0 == play(views(old(boards)@), draw_numbers@)[winners(
            views(old(boards)@),
            draw_numbers@,
        ).first()].score(),
        scores.1 == play(views(old(boards)@), draw_numbers@)[winners(
            views(old(boards)@),
            draw_numbers@,
        ).last()].score(),
{
    let ghost start = views(boards@);
    let total_boards = boards.len();
    let mut winning_boards_indexes: Vec<usize> = Vec::with_capacity(total_boards);

    let mut d: usize = 0;
    assert(draw_numbers@.take(0) =~= Seq::empty());
    assert(places(winning_boards_indexes@) =~= Seq::empty());
    while d < draw_numbers.len()
        invariant
            play_fits(start, draw_numbers@),
            d <= draw_numbers@.len(),
            boards@.len() == total_boards,
            start.len() == total_boards,
            views(boards@) == play(start, draw_numbers@.take(d as int)),
            places(winning_boards_indexes@) == winners(start, draw_numbers@.take(d as int)),
            forall|k: int|
                0 <= k < winning_boards_indexes@.len() ==> #[trigger] winning_boards_indexes@[k]
                    < total_boards,
        decreases draw_numbers@.len() - d,
    {
        let n = draw_numbers[d];
        let ghost before = views(boards@);
        let ghost earlier = places(winning_boards_indexes@);
        proof {
            assert(draw_numbers@.take(d + 1).drop_last() =~= draw_numbers@.take(d as int));
            lemma_winners_of_draw_in_range(before, n, total_boards as int);
            assert forall|i: int|
                0 <= i < boards@.len() && (#[trigger] boards@[i])@.winning_number is None
                    implies boards@[i]@.mark(n).fits() by {
                assert(play(start, draw_numbers@.take(d as int))[i] == boards@[i]@);
            }
        }
        draw_number(boards, n, &mut winning_boards_indexes);
        proof {
            let found = winners_of_draw(before, n, total_boards as int);
            assert(places(winning_boards_indexes@).len() == winning_boards_indexes@.len());
            assert(places(winning_boards_indexes@).len() == earlier.len() + found.len());
            assert forall|k: int|
                0 <= k < winning_boards_indexes@.len() implies #[trigger] winning_boards_indexes@[k]
                < total_boards by {
                assert(places(winning_boards_indexes@)[k] == (earlier + found)[k]);
                if k < earlier.len() {
                    assert(earlier[k] == places(winning_boards_indexes@)[k]);
                } else {
                    assert((earlier + found)[k] == found[k - earlier.len()]);
                }
            }
        }
        d += 1;
    }
    assert(draw_numbers@.take(d as int) =~= draw_numbers@);
    assert(places(winning_boards_indexes@).len() == winning_boards_indexes@.len());

    let first_win_idx = winning_boards_indexes[0];
    let last_win_idx = winning_boards_indexes[winning_boards_indexes.len() - 1];
    assert(places(winning_boards_indexes@)[0] == first_win_idx);
    assert(places(winning_boards_indexes@).last() == last_win_idx);

    (boards[first_win_idx].calculate_score(), boards[last_win_idx].calculate_score())
}

/// Runs the bingo simulation and returns a tuple containing the scores of
/// the first and last winner, where a board that has won leaves the game. At
/// least two draws must have a winner. Of several boards that win with the
/// same number, only the last counts, also for the first winner.
pub fn go_bingo(boards: Vec<BingoBoard>, draw_numbers: &[u8]) -> (scores: (u32, u32))
    requires
        drain_fits(views(boards@), draw_numbers@),
        drain_play(views(boards@), draw_numbers@).1.len() >= 2,
    ensures
        scores.0 == drain_play(views(boards@), draw_numbers@).1.first(),
        scores.1 == drain_play(views(boards@), draw_numbers@).1.last(),
{
    let ghost start = views(boards@);
    let mut boards = boards;
    let mut first: Option<u32> = None;
    let mut last: Option<u32> = None;
    let ghost mut winning: Seq<int> = Seq::empty();
    let mut d: usize = 0;
    assert(draw_numbers@.take(0) =~= Seq::empty());
    while d < draw_numbers.len()
        invariant
            drain_fits(start, draw_numbers@),
            d <= draw_numbers@.len(),
            drain_play(start, draw_numbers@.take(d as int)) == (views(boards@), winning),
            winning.len() == 0 ==> first is None && last is None,
            winning.len() >= 1 ==> first == Some(winning.first() as u32) && 0 <= winning.first()
                <= u32::MAX,
            winning.len() == 1 ==> last is None,
            winning.len() >= 2 ==> last == Some(winning.last() as u32) && 0 <= winning.last()
                <= u32::MAX,
        decreases draw_numbers@.len() - d,
    {
        let x = draw_numbers[d];
        let ghost before = views(boards@);
        proof {
            assert(draw_numbers@.take(d + 1).drop_last() =~= draw_numbers@.take(d as int));
            assert forall|j: int| 0 <= j < before.len() implies (#[trigger] before[j]).mark(
                x,
            ).fits() by {
                assert(drain_play(start, draw_numbers@.take(d as int)).0[j] == before[j]);
            }
        }
        let mut stay: Vec<BingoBoard> = Vec::new();
        let mut winner: Option<BingoBoard> = None;
        let mut i: usize = 0;
        assert(before.take(0) =~= Seq::empty());
        while i < boards.len()
            invariant
                before == views(boards@),
                i <= boards@.len(),
                forall|j: int| 0 <= j < before.len() ==> (#[trigger] before[j]).mark(x).fits(),
                drain(before.take(i as int), x).0 == views(stay@),
                match drain(before.take(i as int), x).1 {
                    Some(board) => winner is Some && winner->0@ == board,
                    None => winner is None,
                },
            decreases boards@.len() - i,
        {
            let mut board = boards[i];
            proof {
                assert(before.take(i + 1).drop_last() =~= before.take(i as int));
                assert(before[i as int] == board@);
            }
            let ghost stayed = views(stay@);
            if board.mark_number(x) {
                winner = Some(board);
            } else {
                stay.push(board);
                assert(views(stay@) =~= stayed.push(board@));
            }
            i += 1;
        }
        assert(before.take(i as int) =~= before);
        boards = stay;
        match winner {
            Some(board) => {
                let score = board.calculate_score();
                if first.is_none() {
                    first = Some(score);
                } else {
                    last = Some(score);
                }
                proof {
                    winning = winning.push(board@.score());
                }
            },
            None => {},
        }
        d += 1;
    }
    assert(draw_numbers@.take(d as int) =~= draw_numbers@);
    (first.unwrap(), last.unwrap())
}

} // verus!
