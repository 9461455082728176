use adv21::helpers::grid::Grid;

/// A grid of the given size in which each cell holds ten times its row plus
/// its column.
fn numbered(len_x: usize, len_y: usize) -> Grid<u32> {
    let mut cells = Vec::new();
    for y in 0..len_y {
        for x in 0..len_x {
            cells.push((10 * y + x) as u32);
        }
    }
    Grid::from_vec(len_x, len_y, cells)
}

#[test]
fn a_new_grid_holds_the_initial_value_everywhere() {
    let grid = Grid::new(4, 3, 7u8);
    assert_eq!(grid.len_x(), 4);
    assert_eq!(grid.len_y(), 3);
    assert_eq!(grid.size(), 12);
    assert_eq!(grid.iter().count(), 12);
    assert!(grid.iter().all(|&cell| cell == 7));
    for y in 0..3 {
        for x in 0..4 {
            assert_eq!(*grid.get(x, y), 7);
        }
    }
}

#[test]
fn a_grid_may_be_empty() {
    let grid = Grid::new(0, 5, 1u16);
    assert_eq!(grid.size(), 0);
    assert_eq!(grid.iter().count(), 0);
    let grid = Grid::new(5, 0, 1u16);
    assert_eq!(grid.size(), 0);
}

#[test]
fn iter_walks_the_rows_one_after_the_other() {
    let grid = numbered(3, 2);
    let cells: Vec<u32> = grid.iter().copied().collect();
    assert_eq!(cells, vec![0, 1, 2, 10, 11, 12]);
    // the iterator can be taken again
    assert_eq!(grid.iter().copied().collect::<Vec<u32>>(), cells);
}

#[test]
fn get_finds_column_x_of_row_y() {
    let grid = numbered(6, 6);
    assert_eq!(*grid.get(5, 0), 5);
    assert_eq!(*grid.get(1, 5), 51);
    assert_eq!(*grid.get(0, 0), 0);
    assert_eq!(*grid.get(5, 5), 55);
}

#[test]
fn a_cell_written_is_read_back() {
    let mut grid = Grid::new(5, 5, 0u8);
    let v = grid.get_mut(2, 2);
    *v = 100;
    assert_eq!(*grid.get(2, 2), 100);
    *grid.get_mut(2, 2) = 101;
    assert_eq!(*grid.get(2, 2), 101);
    grid.update_at(4, 0, 9);
    assert_eq!(*grid.get(4, 0), 9);
    let written: Vec<u8> = grid.iter().copied().filter(|&cell| cell != 0).collect();
    assert_eq!(written, vec![9, 101]);
}

#[test]
fn increment_by_reads_adds_and_writes() {
    let mut grid = numbered(3, 3);
    let mut by_hand = numbered(3, 3);
    grid.increment_by(1, 2, 5);
    let sum = *by_hand.get(1, 2) + 5;
    by_hand.update_at(1, 2, sum);
    assert_eq!(grid, by_hand);
    assert_eq!(*grid.get(1, 2), 26);
    grid.increment_by(1, 2, 0);
    assert_eq!(*grid.get(1, 2), 26);
    let mut counters = Grid::new(2, 2, u16::MAX - 1);
    counters.increment_by(0, 1, 1);
    assert_eq!(*counters.get(0, 1), u16::MAX);
}

#[test]
fn wrap_goes_around_on_both_axes() {
    let grid = numbered(10, 10);
    assert_eq!(grid.wrap(10, 5), grid.get(0, 5));
    assert_eq!(grid.wrap(8, 12), grid.get(8, 2));
    assert_eq!(grid.wrap(15, 15), grid.get(5, 5));
    assert_eq!(grid.wrap(3, 4), grid.get(3, 4));
    for k in 0..10 {
        assert_eq!(grid.wrap(10 + k, 7), grid.get(k, 7));
        assert_eq!(grid.wrap(3, 10 + k), grid.get(3, k));
        assert_eq!(grid.wrap(20 + k, 30 + k), grid.get(k, k));
    }
}

#[test]
fn wrap_x_and_wrap_y_go_around_on_one_axis() {
    let grid = numbered(4, 3);
    for k in 0..4 {
        assert_eq!(grid.wrap_x(4 + k, 2), grid.get(k, 2));
        assert_eq!(grid.wrap_x(k, 1), grid.get(k, 1));
    }
    for k in 0..3 {
        assert_eq!(grid.wrap_y(3, 3 + k), grid.get(3, k));
        assert_eq!(grid.wrap_y(0, 6 + k), grid.get(0, k));
    }
}

#[test]
fn line_is_a_row() {
    let grid = numbered(4, 3);
    assert_eq!(grid.line(0), &[0, 1, 2, 3]);
    assert_eq!(grid.line(2), &[20, 21, 22, 23]);
    assert_eq!(grid.line_no_border(1, 1), &[11, 12]);
    assert_eq!(grid.line_no_border(1, 0), &[10, 11, 12, 13]);
    assert_eq!(grid.line_no_border(1, 2), &[] as &[u32]);
    assert_eq!(numbered(5, 1).line_no_border(0, 2), &[2]);
}

#[test]
fn from_vec_leaves_extra_elements_out() {
    let grid = Grid::from_vec(2, 2, vec![1, 2, 3, 4, 5, 6]);
    assert_eq!(grid.size(), 4);
    assert_eq!(grid.line(1), &[3, 4]);
    assert_eq!(grid, Grid::from_vec(2, 2, vec![1, 2, 3, 4]));
}

#[test]
fn inner_grid_iter_leaves_the_border_out() {
    let grid = numbered(4, 4);
    let inner: Vec<u32> = grid.inner_grid_iter().into_iter().copied().collect();
    assert_eq!(inner, vec![11, 12, 21, 22]);
    assert_eq!(numbered(2, 3).inner_grid_iter().len(), 0);
    assert_eq!(numbered(5, 2).inner_grid_iter().len(), 0);
    assert_eq!(numbered(5, 1).inner_grid_iter().len(), 0);
    let wide: Vec<u32> = numbered(5, 3).inner_grid_iter().into_iter().copied().collect();
    assert_eq!(wide, vec![11, 12, 13]);
}

#[test]
fn a_bordered_grid_holds_its_items_inside_a_border() {
    let grid = Grid::new_bordered_with_x(3, 0u32, vec![1, 2, 3, 4, 5]);
    assert_eq!(grid.len_x(), 5);
    assert_eq!(grid.len_y(), 4);
    let cells: Vec<u32> = grid.iter().copied().collect();
    assert_eq!(
        cells,
        vec![
            0, 0, 0, 0, 0, //
            0, 1, 2, 3, 0, //
            0, 4, 5, 0, 0, //
            0, 0, 0, 0, 0,
        ]
    );
    let inner: Vec<u32> = grid.inner_grid_iter().into_iter().copied().collect();
    assert_eq!(inner, vec![1, 2, 3, 4, 5, 0]);
}

#[test]
fn items_that_fill_their_rows_are_followed_by_one_more_row_of_border() {
    let grid = Grid::new_bordered_with_x(2, 9u8, vec![1, 2, 3, 4]);
    assert_eq!(grid.len_x(), 4);
    assert_eq!(grid.len_y(), 5);
    let cells: Vec<u8> = grid.iter().copied().collect();
    assert_eq!(
        cells,
        vec![
            9, 9, 9, 9, //
            9, 1, 2, 9, //
            9, 3, 4, 9, //
            9, 9, 9, 9, //
            9, 9, 9, 9,
        ]
    );
    let empty = Grid::new_bordered_with_x(2, 9u8, Vec::new());
    assert_eq!((empty.len_x(), empty.len_y()), (4, 3));
    assert!(empty.iter().all(|&cell| cell == 9));
    let narrow = Grid::new_bordered_with_x(0, 9u8, Vec::new());
    assert_eq!((narrow.len_x(), narrow.len_y()), (2, 3));
}
