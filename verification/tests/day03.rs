use puzzles::day03::max_joltage;
use puzzles::day03::max_joltage_12;
use puzzles::day03::part1;
use puzzles::day03::part2;

#[test]
fn test_max_joltage() {
    assert_eq!(max_joltage("987654321111111"), 98);
    assert_eq!(max_joltage("811111111111119"), 89);
    assert_eq!(max_joltage("234234234234278"), 78);
    assert_eq!(max_joltage("818181911112111"), 92);
}

#[test]
fn day03_test_example() {
    let input = "987654321111111\n811111111111119\n234234234234278\n818181911112111";
    assert_eq!(part1(input), 357);
}

#[test]
fn test_max_joltage_12() {
    assert_eq!(max_joltage_12("987654321111111"), 987654321111);
    assert_eq!(max_joltage_12("811111111111119"), 811111111119);
    assert_eq!(max_joltage_12("234234234234278"), 434234234278);
    assert_eq!(max_joltage_12("818181911112111"), 888911112111);
}

#[test]
fn day03_test_part2_example() {
    let input = "987654321111111\n811111111111119\n234234234234278\n818181911112111";
    assert_eq!(part2(input), 3121910778619);
}

#[test]
fn day03_short_banks_count_nothing() {
    assert_eq!(max_joltage("7"), 0);
    assert_eq!(max_joltage_12("12345678901"), 0);
}
