use adv21::day03::{
    calc_life_support_params, get_frequencies, most_common_bit_as_ascii, most_common_bit_at,
    parse_binary, parse_bits, power_consumption_rate, run,
};

const TEST_INPUT_STRING: &str =
    "001\n1101\n10001\n100001\n1000001\n01000001\n000000011\n1100000111\n10\n11";

fn test_input_vec() -> Vec<&'static str> {
    vec![
        "00100", "11110", "10110", "10111", "10101", "01111", "00111", "11100", "10000", "11001",
        "00010", "01010",
    ]
}

#[test]
fn test_get_frequencies() {
    assert_eq!(get_frequencies(TEST_INPUT_STRING), (10, [7, 4, 1, 1, 1, 1, 1, 3, 2, 1, 0, 0]));
}

#[test]
fn test_power_consumption_rate() {
    assert_eq!(power_consumption_rate(10, &[7, 4, 1, 1, 1, 1, 1, 3, 2, 1, 0, 0]), 4192256);
}

#[test]
fn test_parse_binary() {
    assert_eq!(parse_binary(&""), 0);
    assert_eq!(parse_binary(&"10110"), 22);
    assert_eq!(parse_binary(&"01001"), 9);
    assert_eq!(parse_binary(&"11111111111111111111111111111111"), 4294967295); // 32 bits
}

#[test]
fn test_most_common_bit_as_ascii() {
    assert_eq!(most_common_bit_as_ascii(3, 1), b'0');
    assert_eq!(most_common_bit_as_ascii(3, 2), b'1');
    assert_eq!(most_common_bit_as_ascii(4, 1), b'0');
    assert_eq!(most_common_bit_as_ascii(4, 2), b'1');
    assert_eq!(most_common_bit_as_ascii(4, 3), b'1');
}

#[test]
fn test_most_common_byte_at() {
    assert_eq!(most_common_bit_at(&test_input_vec(), 0).unwrap(), b'1');
    assert_eq!(most_common_bit_at(&test_input_vec(), 1).unwrap(), b'0');
    assert_eq!(most_common_bit_at(&test_input_vec(), 2).unwrap(), b'1');
    assert_eq!(most_common_bit_at(&test_input_vec(), 3).unwrap(), b'1');
    assert_eq!(most_common_bit_at(&test_input_vec(), 4).unwrap(), b'0');
}

#[test]
fn test_calc_life_support_params() {
    assert_eq!(calc_life_support_params(&test_input_vec(), true), 23);
    assert_eq!(calc_life_support_params(&test_input_vec(), false), 10);
}

#[test]
fn no_most_common_bit_without_lines_or_beyond_a_line() {
    assert_eq!(most_common_bit_at(&[], 0), None);
    assert_eq!(most_common_bit_at(&test_input_vec(), 5), None);
    assert_eq!(most_common_bit_at(&["101", "1"], 1), None);
    assert_eq!(most_common_bit_at(&["101", "1"], 0), Some(b'1'));
}

#[test]
fn a_tie_counts_as_a_one() {
    assert_eq!(most_common_bit_at(&["1", "0"], 0), Some(b'1'));
    assert_eq!(most_common_bit_as_ascii(0, 0), b'1');
    assert_eq!(most_common_bit_as_ascii(1, 0), b'0');
}

#[test]
fn bytes_other_than_one_count_as_zero() {
    assert_eq!(parse_bits(b"1x1"), 5);
    assert_eq!(parse_bits(b"2222"), 0);
    assert_eq!(parse_binary("10000000000000000000000000000000"), 2147483648);
}

#[test]
fn an_input_without_lines_counts_one_element() {
    assert_eq!(get_frequencies(""), (1, [0; 12]));
    assert_eq!(get_frequencies("1"), (1, [1, 0, 0, 0, 0, 0, 0, 0, 0, 0, 0, 0]));
    assert_eq!(get_frequencies("1\n"), (1, [1, 0, 0, 0, 0, 0, 0, 0, 0, 0, 0, 0]));
}

#[test]
fn frequencies_count_by_character() {
    assert_eq!(get_frequencies("\u{e9}1\n01"), (2, [0, 2, 0, 0, 0, 0, 0, 0, 0, 0, 0, 0]));
    assert_eq!(get_frequencies("11\r\n01\r\n"), (2, [1, 2, 0, 0, 0, 0, 0, 0, 0, 0, 0, 0]));
}

#[test]
fn power_consumption_is_gamma_times_epsilon() {
    // gamma 0b101100000000 = 2816, epsilon 0b010011111111 = 1279
    assert_eq!(power_consumption_rate(4, &[4, 1, 2, 3, 0, 0, 0, 0, 0, 0, 0, 0]), 2816 * 1279);
    assert_eq!(power_consumption_rate(1, &[0; 12]), 0);
    assert_eq!(power_consumption_rate(1, &[1; 12]), 0);
}

#[test]
fn filtering_ends_with_one_line_or_where_the_lines_end() {
    assert_eq!(calc_life_support_params(&["101"], true), 5);
    assert_eq!(calc_life_support_params(&["11", "11"], true), 3);
    assert_eq!(calc_life_support_params(&["10", "01", "11"], false), 1);
}

#[test]
fn run_gives_both_rates() {
    let report = "00100\n11110\n10110\n10111\n10101\n01111\n00111\n11100\n10000\n11001\n00010\n01010";
    // the five bits are the first five of twelve: gamma 0b101100000000
    assert_eq!(run(report), (2816 * 1279, 230));
}
