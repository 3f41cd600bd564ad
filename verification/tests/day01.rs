use puzzles::day01::part2;

#[test]
fn day01_test_part2_example() {
    // L68 from 50 -> 82, passes through 0 once
    // L30 from 82 -> 52, no zero
    // R48 from 52 -> 0, lands on zero
    // L5 from 0 -> 95, no zero (starts at 0 but doesn't count start)
    // R60 from 95 -> 55, passes through 0 once
    // L55 from 55 -> 0, lands on zero
    // L1 from 0 -> 99, no zero
    // L99 from 99 -> 0, lands on zero
    // R14 from 0 -> 14, no zero
    // L82 from 14 -> 32, passes through 0 once
    // Total: 6
    let input = "L68\nL30\nR48\nL5\nR60\nL55\nL1\nL99\nR14\nL82\n";
    assert_eq!(part2(input), 6);
}

#[test]
fn test_r1000_from_50() {
    // R1000 from 50 should hit 0 ten times
    let input = "R1000\n";
    assert_eq!(part2(input), 10);
}

#[test]
fn day01_part1_lands_on_zero() {
    // R50 lands exactly on 0; L100 returns to 0 again
    let input = "R50\nL100\n";
    assert_eq!(puzzles::day01::part1(input), 2);
}

#[test]
fn day01_skips_unreadable_lines() {
    let input = "R50\nnot a move\n\nX7\n";
    assert_eq!(puzzles::day01::part1(input), 1);
}
