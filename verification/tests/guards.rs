use adv21::day02::{Direction, SubCommand};
use adv21::day04::BingoBoard;
use adv21::day06::SchoolOfLanternfish;
use adv21::helpers::base2d::Base2d;

#[test]
fn depths_need_a_window_and_sums_that_fit() {
    assert!(adv21::day01::can_run(&[1, 2, 3]));
    assert!(adv21::day01::can_run(&[u32::MAX, 0, 0, u32::MAX]));
    assert!(!adv21::day01::can_run(&[]));
    assert!(!adv21::day01::can_run(&[1, 2]));
    assert!(!adv21::day01::can_run(&[u32::MAX, 1, 0]));
    assert!(!adv21::day01::can_run(&[0, 0, 0, u32::MAX, 0, 1]));
}

#[test]
fn commands_must_stay_in_range() {
    let far = SubCommand { dir: Direction::Forward, val: i32::MAX };
    let one = SubCommand { dir: Direction::Forward, val: 1 };
    let down = SubCommand { dir: Direction::Downward, val: 65536 };
    let up = SubCommand { dir: Direction::Upward, val: i32::MAX };
    assert!(adv21::day02::can_run(&[]));
    assert!(adv21::day02::can_run(&[far]));
    assert!(!adv21::day02::can_run(&[far, one]));
    assert!(adv21::day02::can_run(&[up, one]));
    assert!(!adv21::day02::can_run(&[up, up, up]));
    // the aim of 65536 times a value of 65536 is beyond the range
    let forward = SubCommand { dir: Direction::Forward, val: 65536 };
    assert!(adv21::day02::can_run(&[down, one]));
    assert!(!adv21::day02::can_run(&[down, forward]));
}

#[test]
fn a_report_needs_ratings() {
    assert!(adv21::day03::can_run("00100\n11110\n10110\n10111\n10101\n01111"));
    assert!(adv21::day03::can_run("101"));
    // no line is left
    assert!(!adv21::day03::can_run(""));
    // of lines that all begin alike none has the least common bit
    assert!(!adv21::day03::can_run("10\n11"));
    // a one beyond the twelfth character
    assert!(adv21::day03::can_run("0000000000000"));
    assert!(!adv21::day03::can_run("0000000000001"));
    // more than 32 bits
    assert!(!adv21::day03::can_run("000000000000000000000000000000000"));
    // ratings whose product is too large
    assert!(!adv21::day03::can_run("111111111111000000000000"));
}

#[test]
fn a_game_needs_a_winner() {
    let numbers: Vec<String> = (0..25).map(|n| n.to_string()).collect();
    let board = numbers.join(" ");
    assert!(adv21::day04::can_run(&format!("0,1,2,3,4\n\n{}", board)));
    assert!(!adv21::day04::can_run(&format!("0,1,2,3\n\n{}", board)));
    assert!(!adv21::day04::can_run("0,1,2,3,4"));
    let boards = vec![board.parse::<BingoBoard>().unwrap()];
    assert!(adv21::day04::can_play(&boards, &[5, 10, 15, 20, 0]));
    assert!(!adv21::day04::can_play(&boards, &[5, 10, 15, 20, 1]));
    assert!(!adv21::day04::can_play(&[], &[1, 2, 3]));
    // more drawn numbers than a count has room for
    let mut many = vec![99u8; 255];
    many.push(0);
    assert!(!adv21::day04::can_play(&boards, &many));
    assert_eq!(boards[0].highest_count(), 0);
    let mut played = boards[0];
    played.mark_number(7);
    played.mark_number(7);
    assert_eq!(played.highest_count(), 2);
}

#[test]
fn points_must_describe_drawable_segments() {
    let p = |x, y| Base2d::new(x, y);
    assert!(adv21::day05::can_count(&[]));
    assert!(adv21::day05::can_count(&[p(0, 0), p(3, 3), p(5, 1), p(1, 5), p(2, 2)]));
    assert!(adv21::day05::can_count(&[p(4, 4), p(4, 4)]));
    assert!(!adv21::day05::can_count(&[p(0, 0), p(3, 2)]));
    assert!(!adv21::day05::can_count(&[p(0, 0), p(3, 3), p(1, 0), p(0, 2)]));
    // the last point has no partner and describes no segment
    assert!(adv21::day05::can_count(&[p(0, 0), p(3, 3), p(9, 1)]));
}

#[test]
fn a_school_must_stay_countable() {
    assert!(adv21::day06::can_run("3,4,3,1,2\n"));
    assert!(!adv21::day06::can_run(""));
    assert!(!adv21::day06::can_run("3,9\n"));
    let school: SchoolOfLanternfish = "0,1".parse().unwrap();
    assert_eq!(school.count(0), 1);
    assert_eq!(school.count(1), 1);
    assert_eq!(school.count(2), 0);
    assert!(school.can_grow(256));
    // a fish has more than 2^64 of its kind after 500 days
    assert!(school.can_grow(400));
    assert!(!school.can_grow(500));
}

#[test]
fn fuel_must_fit() {
    assert!(adv21::day07::can_run(&[16, 1, 2, 0, 4, 2, 7, 1, 2, 14]));
    assert!(adv21::day07::can_run(&[65535]));
    assert!(!adv21::day07::can_run(&[]));
    // the mean of 32767 is 32768 places from either crab
    assert!(adv21::day07::can_run(&[0, 65535]));
    assert!(!adv21::day07::can_run(&[0, 65535, 0, 65535, 0, 65535, 0, 65535, 0, 65535]));
}
