use adv21::day06::{
    parse_input, parse_input_pt2, part01, part02, run, Lanternfish, SchoolOfLanternfish,
};

fn test_input() -> Vec<Lanternfish> {
    vec![Lanternfish(3), Lanternfish(4), Lanternfish(3), Lanternfish(1), Lanternfish(2)]
}

fn test_input2() -> SchoolOfLanternfish {
    "3,4,3,1,2".parse().unwrap()
}

#[test]
fn day06_test_part01() {
    let mut fishes = test_input();
    assert_eq!(part01(&mut fishes, 18), 26);
    assert_eq!(part01(&mut fishes, 62), 5934); // total = 80 days
}

#[test]
fn day06_test_part02() {
    let mut fish_school = test_input2();
    assert_eq!(part02(&mut fish_school, 18), 26);
    assert_eq!(part02(&mut fish_school, 62), 5934); // total = 80 days
    assert_eq!(part02(&mut fish_school, 176), 26984457539); // total = 256 days
}

#[test]
fn a_fish_at_zero_starts_over_and_creates_one() {
    let mut fish = Lanternfish(1);
    assert_eq!(fish.try_reproduce(), None);
    assert_eq!(fish, Lanternfish(0));
    assert_eq!(fish.try_reproduce(), Some(Lanternfish(8)));
    assert_eq!(fish, Lanternfish(6));
}

#[test]
fn the_new_fish_follow_the_old() {
    let mut fishes = test_input();
    assert_eq!(part01(&mut fishes, 0), 5);
    assert_eq!(fishes, test_input());
    assert_eq!(part01(&mut fishes, 2), 6);
    assert_eq!(
        fishes,
        vec![
            Lanternfish(1),
            Lanternfish(2),
            Lanternfish(1),
            Lanternfish(6),
            Lanternfish(0),
            Lanternfish(8)
        ]
    );
}

#[test]
fn both_parts_count_alike() {
    for days in 0..40 {
        let mut fishes = test_input();
        let mut school = test_input2();
        assert_eq!(part01(&mut fishes, days) as u64, part02(&mut school, days));
    }
}

#[test]
fn the_school_is_read_from_the_first_line() {
    assert_eq!(parse_input("3,4,3,1,2\n9,9\n"), test_input());
    assert_eq!(parse_input("3,x,4,,300,1"), vec![Lanternfish(3), Lanternfish(4), Lanternfish(1)]);
    let mut school = parse_input_pt2("3,4,3,1,2\n0,0\n");
    assert_eq!(part02(&mut school, 18), 26);
    let mut sparse = parse_input_pt2("8,x,0\n");
    assert_eq!(part02(&mut sparse, 0), 2);
    assert_eq!(part02(&mut sparse, 1), 3);
}

#[test]
fn a_timer_above_eight_is_no_school() {
    assert!("3,9".parse::<SchoolOfLanternfish>().is_err());
    assert!("8".parse::<SchoolOfLanternfish>().is_ok());
    assert!("".parse::<SchoolOfLanternfish>().is_ok());
    assert_eq!("7".parse::<Lanternfish>(), Ok(Lanternfish(7)));
    assert!("256".parse::<Lanternfish>().is_err());
}

#[test]
fn run_gives_both_sizes() {
    assert_eq!(run("3,4,3,1,2\n"), (5934, 26984457539));
}
