use adv21::day04::{go_bingo, go_bingo_new, parse_input, run, BingoBoard};

const GAME: &str = "7,4,9,5,11,17,23,2,0,14,21,24,10,16,13,6,15,25,12,22,18,20,8,19,3,26,1

22 13 17 11  0
 8  2 23  4 24
21  9 14 16  7
 6 10  3 18  5
 1 12 20 15 19

 3 15  0  2 22
 9 18 13 17  5
19  8  7 25 23
20 11 10 24  4
14 21 16 12  6

14 21 17 24  4
10 16 15  9 19
18  8 23 26 20
22 11 13  6  5
 2  0 12  3  7
";

fn counting_board() -> BingoBoard {
    let mut numbers = [0u8; 25];
    for (i, number) in numbers.iter_mut().enumerate() {
        *number = i as u8;
    }
    BingoBoard::new(numbers)
}

#[test]
fn a_complete_row_wins() {
    let mut board = counting_board();
    assert!(board.is_playing());
    for n in 5..9 {
        assert!(!board.mark_number(n));
    }
    assert!(board.is_playing());
    assert_eq!(board.calculate_score(), 0);
    assert!(board.mark_number(9));
    assert!(!board.is_playing());
    // all numbers but those of the second row, times the winning number
    assert_eq!(board.calculate_score(), (300 - 35) * 9);
}

#[test]
fn a_complete_column_wins() {
    let mut board = counting_board();
    for n in [2, 7, 12, 17] {
        assert!(!board.mark_number(n));
    }
    assert!(board.mark_number(22));
    assert_eq!(board.calculate_score(), (300 - 60) * 22);
}

#[test]
fn a_number_that_is_not_on_the_board_changes_nothing() {
    let mut board = counting_board();
    assert!(!board.mark_number(99));
    assert!(board.is_playing());
    for n in 0..4 {
        board.mark_number(n);
    }
    assert!(!board.mark_number(99));
    assert!(board.mark_number(4));
}

#[test]
fn a_number_drawn_again_is_counted_again() {
    let mut board = counting_board();
    for _ in 0..4 {
        assert!(!board.mark_number(0));
    }
    // the fifth count completes the row and the column of the one number
    assert!(board.mark_number(0));
    assert_eq!(board.calculate_score(), 0);
    let mut other = counting_board();
    for _ in 0..5 {
        other.mark_number(6);
    }
    assert_eq!(other.calculate_score(), (300 - 6) * 6);
}

#[test]
fn clean_starts_the_board_anew() {
    let mut board = counting_board();
    for n in 0..5 {
        board.mark_number(n);
    }
    assert!(!board.is_playing());
    board.clean();
    assert!(board.is_playing());
    assert_eq!(board.calculate_score(), 0);
    for n in 0..4 {
        assert!(!board.mark_number(n));
    }
    assert!(board.mark_number(4));
    assert_eq!(board.calculate_score(), (300 - 10) * 4);
}

#[test]
fn the_game_is_read_from_its_parts() {
    let (drawn, boards) = parse_input(GAME);
    assert_eq!(drawn.len(), 27);
    assert_eq!(&drawn[..5], &[7, 4, 9, 5, 11]);
    assert_eq!(boards.len(), 3);
    let mut first = boards[0];
    for n in [22, 13, 17, 11] {
        assert!(!first.mark_number(n));
    }
    assert!(first.mark_number(0));
}

#[test]
fn a_board_needs_twenty_five_numbers() {
    assert!("1 2 3".parse::<BingoBoard>().is_err());
    let numbers: Vec<String> = (0..25).map(|n| n.to_string()).collect();
    assert!(numbers.join(" ").parse::<BingoBoard>().is_ok());
    assert!(numbers.join("\n").parse::<BingoBoard>().is_ok());
    assert!((numbers.join(" ") + " 25").parse::<BingoBoard>().is_err());
    // words that are no number of a byte are left out
    assert!((numbers.join(" ") + " 256 x").parse::<BingoBoard>().is_ok());
    let (_, boards) = parse_input("1,2\n\n1 2 3\n\n");
    assert_eq!(boards.len(), 0);
}

#[test]
fn first_and_last_winner() {
    let (drawn, mut boards) = parse_input(GAME);
    assert_eq!(go_bingo_new(&mut boards, &drawn), (4512, 1924));
    assert!(boards.iter().all(|board| !board.is_playing()));
}

#[test]
fn first_and_last_winner_with_the_winners_leaving() {
    let (drawn, boards) = parse_input(GAME);
    assert_eq!(go_bingo(boards, &drawn), (4512, 1924));
}

#[test]
fn boards_that_win_together_win_in_their_order() {
    let mut boards = vec![counting_board(), counting_board()];
    let mut late = [0u8; 25];
    for (i, number) in late.iter_mut().enumerate() {
        *number = 100 + i as u8;
    }
    boards.push(BingoBoard::new(late));
    let drawn = [0, 1, 2, 3, 4, 100, 101, 102, 103, 104, 7];
    let tie = (300 - 10) * 4;
    let last = (25 * 100 + 300 - 510) * 104;
    assert_eq!(go_bingo_new(&mut boards, &drawn), (tie, last));
    assert_eq!(go_bingo(vec![counting_board(), counting_board(), BingoBoard::new(late)], &drawn), (tie, last));
}

#[test]
fn a_single_winner_is_first_and_last() {
    let mut boards = vec![counting_board()];
    assert_eq!(go_bingo_new(&mut boards, &[20, 21, 22, 23, 24, 1]), (190 * 24, 190 * 24));
}

#[test]
fn run_plays_the_input() {
    assert_eq!(run(GAME), (4512, 1924));
}
