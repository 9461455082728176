use adv21::day07::{min_fuel_pt1, min_fuel_pt2, run};

fn test_input() -> Vec<u16> {
    vec![16, 1, 2, 0, 4, 2, 7, 1, 2, 14]
}

#[test]
fn day07_test_part01() {
    assert_eq!(min_fuel_pt1(&test_input()), 37);
}

#[test]
fn day07_test_part02() {
    assert_eq!(min_fuel_pt2(&test_input()), 168);
}

#[test]
fn the_median_is_taken_of_the_sorted_fleet() {
    // in the given order the middle is 100, in ascending order it is 1
    assert_eq!(min_fuel_pt1(&[0, 100, 1]), 100);
    assert_eq!(min_fuel_pt1(&[9, 1, 5, 3]), 10);
}

#[test]
fn an_even_fleet_moves_to_the_upper_middle() {
    assert_eq!(min_fuel_pt1(&[0, 10]), 10);
    assert_eq!(min_fuel_pt1(&[7]), 0);
    assert_eq!(min_fuel_pt1(&[0, 0, 10, 10]), 20);
}

#[test]
fn the_mean_counts_one_more_than_the_sum() {
    // (0 + 3 + 1) / 2 = 2: 0 moves two places for 3, 3 one place for 1
    assert_eq!(min_fuel_pt2(&[0, 3]), 4);
    // (65535 + 1) / 1 = 65536, of which 16 bits keep 0: 65535 places
    assert_eq!(min_fuel_pt2(&[65535]), 65535 * 65536 / 2);
    // (5 + 1) / 1 = 6, one place away
    assert_eq!(min_fuel_pt2(&[5]), 1);
    assert_eq!(min_fuel_pt2(&[1, 1, 1]), 0);
}

#[test]
fn run_gives_both_amounts() {
    assert_eq!(run(&test_input()), (37, 168));
}
