use adv21::day02::{
    navigate_part1, navigate_part1z, navigate_part2, navigate_part2z, run, Direction, SubCommand,
    SubmarineCommands,
};
use adv21::helpers::read::{lines_into_vec, ParseError};

const COURSE: &str = "forward 5\ndown 5\nforward 8\nup 3\ndown 8\nforward 2";

fn commands() -> Vec<SubCommand> {
    vec![
        SubCommand { dir: Direction::Forward, val: 5 },
        SubCommand { dir: Direction::Downward, val: 5 },
        SubCommand { dir: Direction::Forward, val: 8 },
        SubCommand { dir: Direction::Upward, val: 3 },
        SubCommand { dir: Direction::Downward, val: 8 },
        SubCommand { dir: Direction::Forward, val: 2 },
    ]
}

#[test]
fn first_rules_move_the_submarine() {
    assert_eq!(navigate_part1(&commands()), (15, 10));
}

#[test]
fn second_rules_move_along_the_aim() {
    assert_eq!(navigate_part2(&commands()), (15, 60));
}

#[test]
fn both_forms_of_a_command_steer_alike() {
    let carried = vec![
        SubmarineCommands::Forward(5),
        SubmarineCommands::Downward(5),
        SubmarineCommands::Forward(8),
        SubmarineCommands::Upward(3),
        SubmarineCommands::Downward(8),
        SubmarineCommands::Forward(2),
    ];
    assert_eq!(navigate_part1z(&carried), (15, 10));
    assert_eq!(navigate_part2z(&carried), (15, 60));
}

#[test]
fn run_follows_both_sets_of_rules() {
    assert_eq!(run(&commands()), ((15, 10), (15, 60)));
}

#[test]
fn no_commands_leave_the_submarine_where_it_is() {
    assert_eq!(navigate_part1(&[]), (0, 0));
    assert_eq!(navigate_part2(&[]), (0, 0));
}

#[test]
fn depth_may_go_below_zero() {
    let up = [SubCommand { dir: Direction::Upward, val: 7 }];
    assert_eq!(navigate_part1(&up), (0, -7));
    let back = [
        SubCommand { dir: Direction::Upward, val: 2 },
        SubCommand { dir: Direction::Forward, val: 3 },
    ];
    assert_eq!(navigate_part2(&back), (3, -6));
}

#[test]
fn commands_are_read_from_lines() {
    assert_eq!(lines_into_vec::<SubCommand>(COURSE), commands());
    assert_eq!(navigate_part1(&lines_into_vec::<SubCommand>(COURSE)), (15, 10));
}

#[test]
fn a_direction_is_read_from_its_first_letter() {
    assert_eq!("forward".parse::<Direction>(), Ok(Direction::Forward));
    assert_eq!("d".parse::<Direction>(), Ok(Direction::Downward));
    assert_eq!("up".parse::<Direction>(), Ok(Direction::Upward));
    assert_eq!("sideways".parse::<Direction>(), Err(ParseError));
    assert_eq!("".parse::<Direction>(), Err(ParseError));
}

#[test]
fn a_command_needs_a_direction_and_a_value() {
    assert_eq!(
        "down -4".parse::<SubCommand>(),
        Ok(SubCommand { dir: Direction::Downward, val: -4 })
    );
    assert_eq!("up 3".parse::<SubmarineCommands>(), Ok(SubmarineCommands::Upward(3)));
    assert_eq!("forward +9".parse::<SubmarineCommands>(), Ok(SubmarineCommands::Forward(9)));
    assert_eq!("down 1".parse::<SubmarineCommands>(), Ok(SubmarineCommands::Downward(1)));
    assert_eq!("forward".parse::<SubCommand>(), Err(ParseError));
    assert_eq!("forward x".parse::<SubCommand>(), Err(ParseError));
    assert_eq!("forward  5".parse::<SubCommand>(), Err(ParseError));
    assert_eq!("back 5".parse::<SubCommand>(), Err(ParseError));
    assert_eq!("".parse::<SubmarineCommands>(), Err(ParseError));
}
