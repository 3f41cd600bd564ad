use puzzles::text::parse_i64;
use puzzles::text::parse_u64;
use puzzles::text::split_of;
use puzzles::text::trim_of;

#[test]
fn text_numbers() {
    assert_eq!(parse_u64("123"), Some(123));
    assert_eq!(parse_u64(""), None);
    assert_eq!(parse_u64("12a"), None);
    assert_eq!(parse_u64("18446744073709551615"), Some(u64::MAX));
    assert_eq!(parse_u64("18446744073709551616"), None);
    assert_eq!(parse_i64("-7"), Some(-7));
    assert_eq!(parse_i64("-9223372036854775808"), Some(i64::MIN));
    assert_eq!(parse_i64("9223372036854775808"), None);
}

#[test]
fn text_split_and_trim() {
    assert_eq!(split_of("a,b,,c", ','), vec!["a", "b", "", "c"]);
    assert_eq!(split_of("", ','), vec![""]);
    assert_eq!(trim_of("  x y\t"), "x y");
}

#[test]
fn text_lines_strip_carriage_returns() {
    assert_eq!(puzzles::day01::part1("R50\r\nL100\r\n"), 2);
    assert_eq!(puzzles::day02::part1("11-22\r\n"), 33);
}
