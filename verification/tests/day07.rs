use puzzles::day07::count_splits;
use puzzles::day07::count_timelines;

#[test]
fn day07_one_splitter() {
    let grid = vec![vec!['S', '.'], vec!['^', '^']];
    assert_eq!(count_splits(&grid), 1);
    assert_eq!(count_timelines(&grid), 1);
}

#[test]
fn day07_split_doubles_timelines() {
    let grid = vec![vec!['.', 'S', '.'], vec!['^', '^', '^']];
    assert_eq!(count_splits(&grid), 1);
    assert_eq!(count_timelines(&grid), 2);
}

#[test]
fn day07_straight_fall() {
    let grid = vec![vec!['S'], vec!['.'], vec!['.']];
    assert_eq!(count_splits(&grid), 0);
    assert_eq!(count_timelines(&grid), 1);
}

#[test]
fn day07_empty_grid() {
    let grid: Vec<Vec<char>> = Vec::new();
    assert_eq!(count_splits(&grid), 0);
    assert_eq!(count_timelines(&grid), 0);
}
