use puzzles::day02::is_invalid_id;
use puzzles::day02::is_invalid_id_v2;
use puzzles::day02::part1;
use puzzles::day02::part2;

#[test]
fn test_is_invalid_id() {
    assert!(is_invalid_id(11));
    assert!(is_invalid_id(22));
    assert!(is_invalid_id(55));
    assert!(is_invalid_id(99));
    assert!(is_invalid_id(6464));
    assert!(is_invalid_id(123123));
    assert!(is_invalid_id(1010));

    assert!(!is_invalid_id(12));
    assert!(!is_invalid_id(123));
    assert!(!is_invalid_id(1234));
    assert!(!is_invalid_id(100));
}

#[test]
fn test_example_ranges() {
    // 11-22 contains 11, 22 -> sum = 33
    let input = "11-22";
    assert_eq!(part1(input), 11 + 22);
}

#[test]
fn test_is_invalid_id_v2() {
    assert!(is_invalid_id_v2(11));
    assert!(is_invalid_id_v2(22));
    assert!(is_invalid_id_v2(99));
    assert!(is_invalid_id_v2(111));
    assert!(is_invalid_id_v2(999));
    assert!(is_invalid_id_v2(1010));
    assert!(is_invalid_id_v2(12341234));
    assert!(is_invalid_id_v2(123123123));
    assert!(is_invalid_id_v2(1212121212));
    assert!(is_invalid_id_v2(1111111));
    assert!(is_invalid_id_v2(222222));
    assert!(is_invalid_id_v2(565656));
    assert!(is_invalid_id_v2(824824824));
    assert!(is_invalid_id_v2(2121212121));

    assert!(!is_invalid_id_v2(12));
    assert!(!is_invalid_id_v2(123));
    assert!(!is_invalid_id_v2(1234));
}

#[test]
fn test_part2_example_ranges() {
    // 95-115 has 99 and 111
    let input = "95-115";
    assert_eq!(part2(input), 99 + 111);

    // 998-1012 has 999 and 1010
    let input2 = "998-1012";
    assert_eq!(part2(input2), 999 + 1010);
}

#[test]
fn day02_multiple_ranges_on_one_line() {
    assert_eq!(part1("11-22,95-115"), 33 + 99);
}
