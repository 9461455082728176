use adv21::day01::{
    count_depth_increases, depth_slice_window, depth_window_izip, depth_window_loop,
    depth_window_tuple, run,
};

fn test_input() -> Vec<u32> {
    vec![199, 200, 208, 210, 200, 207, 240, 269, 260, 263]
}

#[test]
fn test_count_depth_increases() {
    assert_eq!(count_depth_increases(&test_input()), 7);
}

#[test]
fn test_count_depth_increases_window() {
    assert_eq!(count_depth_increases(&depth_window_izip(&test_input())), 5);
}

#[test]
fn test_count_depth_window() {
    assert_eq!(count_depth_increases(&depth_window_loop(&test_input())), 5);
}

#[test]
fn test_count_depth_window_tuple() {
    assert_eq!(count_depth_increases(&depth_window_tuple(&test_input())), 5);
}

#[test]
fn test_count_depth_slice_window() {
    assert_eq!(count_depth_increases(&depth_slice_window(&test_input())), 5);
}

#[test]
fn window_sums_are_the_same_whichever_way_they_are_taken() {
    let sums = vec![607, 618, 618, 617, 647, 716, 769, 792];
    assert_eq!(depth_slice_window(&test_input()), sums);
    assert_eq!(depth_window_loop(&test_input()), sums);
    assert_eq!(depth_window_izip(&test_input()), sums);
    assert_eq!(depth_window_tuple(&test_input()), sums);
}

#[test]
fn short_lists_have_no_window() {
    assert_eq!(depth_slice_window(&[]), Vec::<u32>::new());
    assert_eq!(depth_slice_window(&[1, 2]), Vec::<u32>::new());
    assert_eq!(depth_window_tuple(&[]), Vec::<u32>::new());
    assert_eq!(depth_window_tuple(&[1, 2]), Vec::<u32>::new());
    assert_eq!(depth_window_izip(&[1, 2]), Vec::<u32>::new());
    assert_eq!(depth_window_loop(&[1, 2, 3]), vec![6]);
    assert_eq!(depth_window_tuple(&[1, 2, 3]), vec![6]);
}

#[test]
fn a_single_measurement_never_increases() {
    assert_eq!(count_depth_increases(&[5]), 0);
    assert_eq!(count_depth_increases(&[5, 5]), 0);
    assert_eq!(count_depth_increases(&[5, 6]), 1);
    assert_eq!(count_depth_increases(&[6, 5]), 0);
}

#[test]
fn window_sums_may_reach_the_largest_value() {
    assert_eq!(depth_window_tuple(&[u32::MAX, 0, 0, 0]), vec![u32::MAX, 0]);
    assert_eq!(depth_slice_window(&[u32::MAX - 2, 1, 1]), vec![u32::MAX]);
}

#[test]
fn run_counts_both_ways() {
    assert_eq!(run(&test_input()), (7, 5));
}
