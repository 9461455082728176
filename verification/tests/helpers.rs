use adv21::helpers::base2d::Base2d;
use adv21::helpers::read::{
    lines, lines_into_vec, parse, parsed_lines_iter, parsed_lines_iter_cloneable,
    parsed_split_iter, split, split_ascii_whitespace, split_into_vec, FromText, ParseError,
};
use adv21::helpers::utils::delta::Delta;
use adv21::helpers::utils::{min_max, pairs, pairs_zip};
use std::convert::TryFrom;

#[test]
fn min_max_orders_a_pair() {
    assert_eq!(min_max(3, 8), (3, 8));
    assert_eq!(min_max(8, 3), (3, 8));
    assert_eq!(min_max(5u16, 5u16), (5, 5));
    assert_eq!(min_max(-1i32, -7i32), (-7, -1));
    assert_eq!(min_max('b', 'a'), ('a', 'b'));
}

#[test]
fn pairs_takes_two_elements_at_a_time() {
    let chunks: Vec<Vec<u8>> = pairs(&[1u8, 2, 3, 4, 5]).into_iter().map(|c| c.to_vec()).collect();
    assert_eq!(chunks, vec![vec![1, 2], vec![3, 4]]);
    assert_eq!(pairs(&[1u8]).len(), 0);
    assert_eq!(pairs::<u8>(&[]).len(), 0);
    assert_eq!(pairs_zip(&[1u8, 2, 3, 4, 5]), vec![(&1, &2), (&3, &4)]);
    assert_eq!(pairs_zip(&["a", "b"]), vec![(&"a", &"b")]);
    assert_eq!(pairs_zip(&[7u8]).len(), 0);
}

#[test]
fn a_step_leads_toward_the_target() {
    assert!(matches!(Delta::new(2u16, 9, 1), Delta::Add(1)));
    assert!(matches!(Delta::new(9u16, 2, 1), Delta::Sub(1)));
    assert!(matches!(Delta::new(4u16, 4, 3), Delta::Sub(3)));
    assert!(matches!(Delta::new(4u16, 4, 0), Delta::Sub(0)));
}

#[test]
fn a_step_moves_a_value() {
    let mut x = 5u16;
    x += Delta::Add(3);
    assert_eq!(x, 8);
    x += Delta::Sub(8);
    assert_eq!(x, 0);
    x += Delta::Sub(0);
    assert_eq!(x, 0);
    let mut a = 250u8;
    a += Delta::Add(5);
    assert_eq!(a, 255);
    let mut b = 7u32;
    b += Delta::Sub(2);
    assert_eq!(b, 5);
    let mut c = 7u64;
    c += Delta::new(7, 9, 2);
    assert_eq!(c, 9);
    let mut d = 7usize;
    d += Delta::new(7, 1, 1);
    assert_eq!(d, 6);
}

#[test]
fn steps_reach_the_target_from_either_side() {
    for (from, to) in [(3u16, 9u16), (9, 3), (0, 4), (4, 0)] {
        let step = Delta::new(from, to, 1);
        let mut at = from;
        let mut steps = 0;
        while at != to {
            at += step;
            steps += 1;
        }
        assert_eq!(steps, from.abs_diff(to));
    }
}

#[test]
fn points_compare_axis_by_axis() {
    let p = Base2d::new(3u16, 4u16);
    assert_eq!(p.tuple(), (3, 4));
    assert_eq!(p.x, 3);
    assert_eq!(p.y, 4);
    assert!(p.is_same_column(&Base2d::new(3, 9)));
    assert!(!p.is_same_column(&Base2d::new(4, 4)));
    assert!(p.is_same_row(&Base2d::new(9, 4)));
    assert!(!p.is_same_row(&Base2d::new(3, 3)));
    assert_eq!(p, Base2d::new(3, 4));
    assert_ne!(p, Base2d::new(4, 3));
    assert_eq!(p + Base2d::new(10, 20), Base2d::new(13, 24));
}

#[test]
fn a_tuple_becomes_a_point_where_both_members_fit() {
    assert_eq!(Base2d::<usize>::try_from((3u8, 4u8)), Ok(Base2d::new(3, 4)));
    assert_eq!(Base2d::<usize>::try_from((3i32, 4i32)), Ok(Base2d::new(3, 4)));
    assert!(Base2d::<usize>::try_from((-3i32, 4i32)).is_err());
    assert!(Base2d::<usize>::try_from((3i32, -4i32)).is_err());
}

#[test]
fn a_point_is_two_values_with_a_comma() {
    assert_eq!("15,21".parse::<Base2d<u16>>(), Ok(Base2d::new(15, 21)));
    assert_eq!("15,21,7".parse::<Base2d<u16>>(), Ok(Base2d::new(15, 21)));
    assert_eq!("0,65535".parse::<Base2d<u16>>(), Ok(Base2d::new(0, 65535)));
    assert_eq!("15".parse::<Base2d<u16>>(), Err(ParseError));
    assert_eq!("15,".parse::<Base2d<u16>>(), Err(ParseError));
    assert_eq!(",21".parse::<Base2d<u16>>(), Err(ParseError));
    assert_eq!("15, 21".parse::<Base2d<u16>>(), Err(ParseError));
    assert_eq!("15,65536".parse::<Base2d<u16>>(), Err(ParseError));
    assert_eq!("-1,2".parse::<Base2d<i32>>(), Ok(Base2d::new(-1, 2)));
}

#[test]
fn numbers_are_decimal_digits_after_a_sign_or_none() {
    assert_eq!(parse::<u8>("0"), Ok(0));
    assert_eq!(parse::<u8>("255"), Ok(255));
    assert_eq!(parse::<u8>("256"), Err(ParseError));
    assert_eq!(parse::<u8>("+7"), Ok(7));
    assert_eq!(parse::<u8>("007"), Ok(7));
    assert_eq!(parse::<u8>("-0"), Err(ParseError));
    assert_eq!(parse::<u8>(""), Err(ParseError));
    assert_eq!(parse::<u8>("+"), Err(ParseError));
    assert_eq!(parse::<u8>("1 "), Err(ParseError));
    assert_eq!(parse::<u8>("1a"), Err(ParseError));
    assert_eq!(parse::<u16>("65535"), Ok(65535));
    assert_eq!(parse::<u16>("65536"), Err(ParseError));
    assert_eq!(parse::<u32>("4294967295"), Ok(4294967295));
    assert_eq!(parse::<u32>("4294967296"), Err(ParseError));
    assert_eq!(parse::<u32>("99999999999999999999999"), Err(ParseError));
    assert_eq!(parse::<usize>("12345"), Ok(12345));
    assert_eq!(parse::<i32>("-2147483648"), Ok(i32::MIN));
    assert_eq!(parse::<i32>("2147483647"), Ok(i32::MAX));
    assert_eq!(parse::<i32>("2147483648"), Err(ParseError));
    assert_eq!(parse::<i32>("-2147483649"), Err(ParseError));
    assert_eq!(parse::<i32>("+-5"), Err(ParseError));
    assert_eq!(parse::<i32>("-"), Err(ParseError));
    assert_eq!(parse::<i32>("-12"), Ok(-12));
    assert_eq!(u16::from_text(b"12"), Some(12));
    assert_eq!(u16::from_text(b"1\xc3\xa9"), None);
}

#[test]
fn numbers_are_read_as_std_reads_them() {
    let texts = [
        "", "0", "+", "-", "+0", "-0", "12", "+12", "-12", "0012", "1 2", " 1", "1 ", "1_000",
        "255", "256", "65535", "65536", "2147483647", "2147483648", "-2147483648", "-2147483649",
        "4294967295", "4294967296", "18446744073709551615", "18446744073709551616", "++1", "1+",
        "٣", "1e3", "0x10",
    ];
    for text in texts {
        assert_eq!(parse::<u8>(text).ok(), text.parse::<u8>().ok(), "{:?}", text);
        assert_eq!(parse::<u16>(text).ok(), text.parse::<u16>().ok(), "{:?}", text);
        assert_eq!(parse::<u32>(text).ok(), text.parse::<u32>().ok(), "{:?}", text);
        assert_eq!(parse::<usize>(text).ok(), text.parse::<usize>().ok(), "{:?}", text);
        assert_eq!(parse::<i32>(text).ok(), text.parse::<i32>().ok(), "{:?}", text);
    }
}

fn as_strs<'a>(pieces: Vec<&'a [u8]>) -> Vec<&'a str> {
    pieces.into_iter().map(|piece| std::str::from_utf8(piece).unwrap()).collect()
}

#[test]
fn split_cuts_at_each_occurrence() {
    assert_eq!(as_strs(split(b"a,b,c", b",")), vec!["a", "b", "c"]);
    assert_eq!(as_strs(split(b"", b",")), vec![""]);
    assert_eq!(as_strs(split(b",", b",")), vec!["", ""]);
    assert_eq!(as_strs(split(b"a,,b,", b",")), vec!["a", "", "b", ""]);
    assert_eq!(as_strs(split(b"0,9 -> 5,9", b" -> ")), vec!["0,9", "5,9"]);
    assert_eq!(as_strs(split(b"aaa", b"aa")), vec!["", "a"]);
    assert_eq!(as_strs(split(b"a\n\n\nb", b"\n\n")), vec!["a", "\nb"]);
    assert_eq!(as_strs(split(b"ab", b"abc")), vec!["ab"]);
}

#[test]
fn split_cuts_as_std_cuts() {
    let texts = ["", "a", ",", "a,b", ",,", "a -> b -> ", " ->  -> ", "aaaa", "abab", "\n\n\n\n\n"];
    let patterns = [",", " -> ", "aa", "ab", "\n\n", "a"];
    for text in texts {
        for pattern in patterns {
            let expected: Vec<&str> = text.split(pattern).collect();
            assert_eq!(as_strs(split(text.as_bytes(), pattern.as_bytes())), expected);
        }
    }
}

#[test]
fn lines_end_with_a_line_feed_or_the_text() {
    assert_eq!(as_strs(lines(b"a\nb")), vec!["a", "b"]);
    assert_eq!(as_strs(lines(b"a\nb\n")), vec!["a", "b"]);
    assert_eq!(as_strs(lines(b"a\r\nb\r\n")), vec!["a", "b"]);
    assert_eq!(as_strs(lines(b"a\n\nb")), vec!["a", "", "b"]);
    assert_eq!(as_strs(lines(b"")), Vec::<&str>::new());
    assert_eq!(as_strs(lines(b"\n")), vec![""]);
    assert_eq!(as_strs(lines(b"a\rb\n")), vec!["a\rb"]);
    assert_eq!(as_strs(lines(b"a\r\r\n")), vec!["a\r"]);
    assert_eq!(as_strs(lines(b"a\r")), vec!["a\r"]);
}

#[test]
fn words_stand_between_white_space() {
    assert_eq!(as_strs(split_ascii_whitespace(b" 22 13\t17\n11  0\r\n")), vec![
        "22", "13", "17", "11", "0"
    ]);
    assert_eq!(as_strs(split_ascii_whitespace(b"")), Vec::<&str>::new());
    assert_eq!(as_strs(split_ascii_whitespace(b" \n ")), Vec::<&str>::new());
    assert_eq!(as_strs(split_ascii_whitespace(b"a\x0cb\x0bc")), vec!["a", "b\x0bc"]);
    let texts = ["", " ", "a", " a", "a ", "a b", "a  b", "\ta\n\nb\r\nc ", "a\u{a0}b"];
    for text in texts {
        let expected: Vec<&str> = text.split_ascii_whitespace().collect();
        assert_eq!(as_strs(split_ascii_whitespace(text.as_bytes())), expected);
    }
}

#[test]
fn entries_that_are_no_value_are_left_out() {
    assert_eq!(lines_into_vec::<u32>("199\n200\nx\n\n208\r\n"), vec![199, 200, 208]);
    assert_eq!(parsed_lines_iter::<u16>("1\n-2\n3"), vec![1, 3]);
    assert_eq!(parsed_lines_iter_cloneable::<i32>("1\n-2\n3"), vec![1, -2, 3]);
    assert_eq!(split_into_vec::<u16>("16,1,2,0,4,2,7,1,2,14", ","), vec![
        16, 1, 2, 0, 4, 2, 7, 1, 2, 14
    ]);
    assert_eq!(split_into_vec::<u16>("16,1,2\n", ","), vec![16, 1]);
    assert_eq!(parsed_split_iter::<u8>("1 -> 2 -> 300 -> 4", " -> "), vec![1, 2, 4]);
    assert_eq!(lines_into_vec::<Base2d<u16>>("1,2\n3\n4,5"), vec![
        Base2d::new(1, 2),
        Base2d::new(4, 5)
    ]);
    assert_eq!(lines_into_vec::<u32>(""), Vec::<u32>::new());
}
