use slices::chars::{push_range, to_chars};
use slices::error::InvalidFilterKind;
use slices::expr::{parse_bound, parse_expr, parse_side};
use slices::scan::find_char;
use slices::text::{find_whitespace, line_end, whitespace};

#[test]
fn whitespace_is_what_the_standard_library_calls_so() {
    for code in 0..=0x10ffffu32 {
        if let Some(c) = char::from_u32(code) {
            assert_eq!(whitespace(c), c.is_whitespace(), "U+{:04X}", code);
        }
    }
}

#[test]
fn whitespace_has_twenty_five_code_points() {
    let count = (0..=0x10ffffu32).filter_map(char::from_u32).filter(|c| whitespace(*c)).count();
    assert_eq!(count, 25);
    assert!(whitespace(' '));
    assert!(whitespace('\n'));
    assert!(whitespace('\u{3000}'));
    assert!(!whitespace('a'));
    assert!(!whitespace('\u{200b}'));
    assert!(!whitespace('\u{8}'));
    assert!(!whitespace('\u{e}'));
}

#[test]
fn chars_come_out_in_order() {
    assert_eq!(to_chars(""), Vec::<char>::new());
    assert_eq!(to_chars("aé\u{3000}z"), vec!['a', 'é', '\u{3000}', 'z']);
}

#[test]
fn push_range_appends_the_range() {
    let chars = to_chars("0123456789");
    let mut out = String::from("x");
    push_range(&mut out, &chars, 3, 6);
    assert_eq!(out, "x345");
    push_range(&mut out, &chars, 6, 6);
    assert_eq!(out, "x345");
    push_range(&mut out, &chars, 0, 10);
    assert_eq!(out, "x3450123456789");
}

#[test]
fn find_char_gives_the_first_or_the_end() {
    let chars = to_chars("ab:cd:ef");
    assert_eq!(find_char(&chars, 0, 8, ':'), 2);
    assert_eq!(find_char(&chars, 2, 8, ':'), 2);
    assert_eq!(find_char(&chars, 3, 8, ':'), 5);
    assert_eq!(find_char(&chars, 6, 8, ':'), 8);
    assert_eq!(find_char(&chars, 0, 2, ':'), 2);
    assert_eq!(find_char(&chars, 4, 4, ':'), 4);
}

#[test]
fn find_whitespace_gives_the_first_or_the_end() {
    let chars = to_chars("ab cd\tef");
    assert_eq!(find_whitespace(&chars, 0, 8), 2);
    assert_eq!(find_whitespace(&chars, 3, 8), 5);
    assert_eq!(find_whitespace(&chars, 6, 8), 8);
    assert_eq!(find_whitespace(&chars, 2, 8), 2);
}

#[test]
fn line_end_is_behind_the_newline() {
    let chars = to_chars("ab\n\ncd");
    assert_eq!(line_end(&chars, 0), 3);
    assert_eq!(line_end(&chars, 1), 3);
    assert_eq!(line_end(&chars, 2), 3);
    assert_eq!(line_end(&chars, 3), 4);
    assert_eq!(line_end(&chars, 4), 6);
    assert_eq!(line_end(&chars, 5), 6);
}

#[test]
fn parse_bound_reads_a_part() {
    let chars = to_chars("x12:+034y0");
    assert_eq!(parse_bound(&chars, 1, 3), Some(12));
    assert_eq!(parse_bound(&chars, 4, 8), Some(34));
    assert_eq!(parse_bound(&chars, 5, 8), Some(34));
    assert_eq!(parse_bound(&chars, 0, 3), None);
    assert_eq!(parse_bound(&chars, 1, 4), None);
    assert_eq!(parse_bound(&chars, 4, 5), None);
    assert_eq!(parse_bound(&chars, 3, 3), None);
    assert_eq!(parse_bound(&chars, 9, 10), None);
    assert_eq!(parse_bound(&chars, 5, 6), None);
}

#[test]
fn parse_bound_stops_at_32_bits() {
    for (token, expected) in [
        ("4294967295", Some(4294967295u32)),
        ("4294967296", None),
        ("4294967300", None),
        ("42949672950", None),
        ("5000000000", None),
        ("00000000004294967295", Some(4294967295)),
        ("429496729", Some(429496729)),
        ("4294967290", Some(4294967290)),
    ] {
        let chars = to_chars(token);
        assert_eq!(parse_bound(&chars, 0, chars.len()), expected, "{}", token);
    }
}

#[test]
fn parse_side_takes_nothing_for_open() {
    let chars = to_chars("12:");
    assert_eq!(parse_side(&chars, 0, 2), Some(Some(12)));
    assert_eq!(parse_side(&chars, 3, 3), Some(None));
    assert_eq!(parse_side(&chars, 2, 3), None);
}

#[test]
fn parse_expr_gives_both_bounds() {
    assert_eq!(parse_expr(&to_chars("7")), Ok((Some(7), Some(7))));
    assert_eq!(parse_expr(&to_chars("2:9")), Ok((Some(2), Some(9))));
    assert_eq!(parse_expr(&to_chars("2:")), Ok((Some(2), None)));
    assert_eq!(parse_expr(&to_chars(":9")), Ok((None, Some(9))));
    assert_eq!(parse_expr(&to_chars(":")), Ok((None, None)));
    assert_eq!(parse_expr(&to_chars("9:2")), Err(InvalidFilterKind::Range));
    assert_eq!(parse_expr(&to_chars("9:2:")), Err(InvalidFilterKind::Parse));
    assert_eq!(parse_expr(&to_chars("")), Err(InvalidFilterKind::Parse));
    assert_eq!(parse_expr(&to_chars("9:x")), Err(InvalidFilterKind::Parse));
}
