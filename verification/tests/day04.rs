use puzzles::day04::part1;
use puzzles::day04::part2;

#[test]
fn day04_test_part2_example() {
    let input = "..@@.@@@@.\n@@@.@.@.@@\n@@@@@.@.@@\n@.@@@@..@.\n@@.@@@@.@@\n.@@@@@@@.@\n.@.@.@.@@@\n@.@@@.@@@@\n.@@@@@@@@.\n@.@.@@@.@.";
    assert_eq!(part2(input), 43);
}

#[test]
fn day04_single_roll_is_accessible() {
    assert_eq!(part1("...\n.@.\n..."), 1);
    assert_eq!(part2("...\n.@.\n..."), 1);
}

#[test]
fn day04_empty_grid() {
    assert_eq!(part1(""), 0);
    assert_eq!(part2(""), 0);
}
