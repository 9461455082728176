use adv21::day05::second_implementation::{
    filter_criteria, overlap_lines, update_grid_line, LinePattern, Lines,
};
use adv21::day05::{
    fill_column, fill_diagonal, fill_grid, fill_row, overlaps_diagonal_lines,
    overlaps_straight_lines,
};
use adv21::helpers::base2d::Base2d;
use adv21::helpers::grid::Grid;

fn test_input() -> Vec<Base2d<u16>> {
    vec![
        Base2d::new(0, 9),
        Base2d::new(5, 9),
        Base2d::new(8, 0),
        Base2d::new(0, 8),
        Base2d::new(9, 4),
        Base2d::new(3, 4),
        Base2d::new(2, 2),
        Base2d::new(2, 1),
        Base2d::new(7, 0),
        Base2d::new(7, 4),
        Base2d::new(6, 4),
        Base2d::new(2, 0),
        Base2d::new(0, 9),
        Base2d::new(2, 9),
        Base2d::new(3, 4),
        Base2d::new(1, 4),
        Base2d::new(0, 0),
        Base2d::new(8, 8),
        Base2d::new(5, 5),
        Base2d::new(8, 2),
    ]
}

/// The cells of `grid` that hold something other than zero, with their values.
fn marked_cells(grid: &Grid<u16>) -> Vec<((usize, usize), u16)> {
    let mut cells = Vec::new();
    for y in 0..grid.len_y() {
        for x in 0..grid.len_x() {
            let value = *grid.get(x, y);
            if value != 0 {
                cells.push(((x, y), value));
            }
        }
    }
    cells
}

#[test]
fn test_overlaps() {
    let mut grid = Grid::new(10, 10, 0u16);
    let ans1 = overlaps_straight_lines(&mut grid, &test_input());
    assert_eq!(ans1, 5);
    let ans2 = overlaps_diagonal_lines(&mut grid, &test_input());
    assert_eq!(ans2, 12);
}

#[test]
fn overlap_lines_counts_like_the_two_passes() {
    let lines = Lines(test_input());
    let mut grid = Grid::new(10, 10, 0u16);
    assert_eq!(overlap_lines(&mut grid, &lines, LinePattern::Straight), 5);
    assert_eq!(overlap_lines(&mut grid, &lines, LinePattern::Diagonal), 12);

    let mut all_at_once = Grid::new(10, 10, 0u16);
    assert_eq!(overlap_lines(&mut all_at_once, &lines, LinePattern::All), 12);
    assert_eq!(grid, all_at_once);
}

#[test]
fn second_pass_counts_what_the_first_left() {
    let mut fresh = Grid::new(10, 10, 0u16);
    let diagonals_alone = overlaps_diagonal_lines(&mut fresh, &test_input());
    // the diagonals cross one another at (4, 4), (5, 3), (5, 5) and (6, 4)
    assert_eq!(diagonals_alone, 4);
    let mut grid = Grid::new(10, 10, 0u16);
    overlaps_straight_lines(&mut grid, &test_input());
    assert_eq!(overlaps_diagonal_lines(&mut grid, &test_input()), 12);
}

#[test]
fn horizontal_segment_marks_six_cells() {
    let mut grid = Grid::new(10, 10, 0u16);
    fill_grid(&mut grid, &[Base2d::new(0, 9), Base2d::new(5, 9)], false);
    assert_eq!(
        marked_cells(&grid),
        vec![((0, 9), 1), ((1, 9), 1), ((2, 9), 1), ((3, 9), 1), ((4, 9), 1), ((5, 9), 1)]
    );
}

#[test]
fn diagonal_segment_marks_four_cells() {
    let mut grid = Grid::new(10, 10, 0u16);
    fill_grid(&mut grid, &[Base2d::new(0, 0), Base2d::new(3, 3)], true);
    assert_eq!(marked_cells(&grid), vec![((0, 0), 1), ((1, 1), 1), ((2, 2), 1), ((3, 3), 1)]);
}

#[test]
fn passes_skip_segments_of_the_other_kind() {
    let mut grid = Grid::new(10, 10, 0u16);
    fill_grid(&mut grid, &[Base2d::new(0, 0), Base2d::new(3, 3)], false);
    assert_eq!(marked_cells(&grid), vec![]);
    fill_grid(&mut grid, &[Base2d::new(0, 9), Base2d::new(5, 9)], true);
    assert_eq!(marked_cells(&grid), vec![]);
}

#[test]
fn unpaired_last_point_is_ignored() {
    let mut grid = Grid::new(10, 10, 0u16);
    let points = [Base2d::new(1, 1), Base2d::new(1, 2), Base2d::new(4, 4)];
    fill_grid(&mut grid, &points, false);
    assert_eq!(marked_cells(&grid), vec![((1, 1), 1), ((1, 2), 1)]);
    assert_eq!(Lines(points.to_vec()).pairs(), vec![(Base2d::new(1, 1), Base2d::new(1, 2))]);
}

#[test]
fn segments_run_in_either_direction() {
    let mut down = Grid::new(6, 6, 0u16);
    fill_diagonal(&mut down, &Base2d::new(1, 4), &Base2d::new(4, 1));
    let mut up = Grid::new(6, 6, 0u16);
    fill_diagonal(&mut up, &Base2d::new(4, 1), &Base2d::new(1, 4));
    assert_eq!(down, up);
    assert_eq!(marked_cells(&down), vec![((4, 1), 1), ((3, 2), 1), ((2, 3), 1), ((1, 4), 1)]);

    let mut column = Grid::new(6, 6, 0u16);
    fill_column(&mut column, &Base2d::new(2, 5), &Base2d::new(2, 3));
    assert_eq!(marked_cells(&column), vec![((2, 3), 1), ((2, 4), 1), ((2, 5), 1)]);

    let mut row = Grid::new(6, 6, 0u16);
    fill_row(&mut row, &Base2d::new(5, 0), &Base2d::new(3, 0));
    assert_eq!(marked_cells(&row), vec![((3, 0), 1), ((4, 0), 1), ((5, 0), 1)]);
}

#[test]
fn update_grid_line_draws_every_kind_once() {
    let mut grid = Grid::new(6, 6, 0u16);
    update_grid_line(&mut grid, (Base2d::new(0, 0), Base2d::new(0, 2)));
    update_grid_line(&mut grid, (Base2d::new(3, 1), Base2d::new(1, 1)));
    update_grid_line(&mut grid, (Base2d::new(5, 3), Base2d::new(3, 5)));
    update_grid_line(&mut grid, (Base2d::new(5, 5), Base2d::new(5, 5)));
    assert_eq!(
        marked_cells(&grid),
        vec![
            ((0, 0), 1),
            ((0, 1), 1),
            ((1, 1), 1),
            ((2, 1), 1),
            ((3, 1), 1),
            ((0, 2), 1),
            ((5, 3), 1),
            ((4, 4), 1),
            ((3, 5), 1),
            ((5, 5), 1),
        ]
    );
}

#[test]
fn order_of_segments_does_not_matter() {
    let forward = test_input();
    let mut backward = Vec::new();
    for pair in forward.chunks(2).rev() {
        backward.push(pair[0]);
        backward.push(pair[1]);
    }
    let mut first = Grid::new(10, 10, 0u16);
    let mut second = Grid::new(10, 10, 0u16);
    fill_grid(&mut first, &forward, false);
    fill_grid(&mut second, &backward, false);
    assert_eq!(first, second);
    fill_grid(&mut first, &forward, true);
    fill_grid(&mut second, &backward, true);
    assert_eq!(first, second);
}

#[test]
fn filter_criteria_tells_the_kinds_apart() {
    let column = (Base2d::new(1u16, 1), Base2d::new(1, 4));
    let row = (Base2d::new(1u16, 1), Base2d::new(4, 1));
    let diagonal = (Base2d::new(1u16, 1), Base2d::new(4, 4));
    assert!(filter_criteria(&LinePattern::All, &diagonal));
    assert!(filter_criteria(&LinePattern::Vertical, &column));
    assert!(!filter_criteria(&LinePattern::Vertical, &row));
    assert!(filter_criteria(&LinePattern::Horizontal, &row));
    assert!(!filter_criteria(&LinePattern::Horizontal, &column));
    assert!(filter_criteria(&LinePattern::Straight, &row));
    assert!(filter_criteria(&LinePattern::Straight, &column));
    assert!(!filter_criteria(&LinePattern::Straight, &diagonal));
    assert!(filter_criteria(&LinePattern::Diagonal, &diagonal));
    assert!(!filter_criteria(&LinePattern::Diagonal, &row));
}

#[test]
fn max_dimensions_finds_the_largest_coordinates() {
    assert_eq!(Lines(test_input()).max_dimensions(), (9, 9));
    assert_eq!(Lines(vec![Base2d::new(3, 7), Base2d::new(5, 2)]).max_dimensions(), (5, 7));
    assert_eq!(Lines(Vec::new()).max_dimensions(), (0, 0));
}

#[test]
fn points_are_read_from_lines_of_segments() {
    let text = "0,9 -> 5,9\n8,0 -> 0,8\n9,4 -> 3,4\n2,2 -> 2,1\n7,0 -> 7,4\n6,4 -> 2,0\n0,9 -> 2,9\n3,4 -> 1,4\n0,0 -> 8,8\n5,5 -> 8,2\n";
    assert_eq!(adv21::day05::parse_input(text), test_input());
    assert_eq!(text.parse::<Lines>().unwrap().0, test_input());
    assert_eq!(Lines::parse(text).0, test_input());
    assert_eq!(
        adv21::day05::parse_input("1,1 -> x,2\n\n3,3->4,4\n5,5 -> 6,6 -> 7,7\r\n"),
        vec![Base2d::new(1, 1), Base2d::new(5, 5), Base2d::new(6, 6), Base2d::new(7, 7)]
    );
}

#[test]
fn run_counts_on_the_smallest_field() {
    assert_eq!(adv21::day05::run(&test_input()), (5, 12));
    assert_eq!(adv21::day05::second_implementation::run(&Lines(test_input())), (5, 12));
    assert_eq!(adv21::day05::run(&[]), (0, 0));
    let crossing = [
        Base2d::new(0, 0),
        Base2d::new(2, 2),
        Base2d::new(2, 0),
        Base2d::new(0, 2),
        Base2d::new(1, 0),
        Base2d::new(1, 2),
    ];
    assert_eq!(adv21::day05::run(&crossing), (0, 1));
}
