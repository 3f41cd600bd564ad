use puzzles::day06::calculate;
use puzzles::day06::extract_problem_horizontal;
use puzzles::day06::extract_problem_vertical;
use puzzles::day06::find_problem_ranges;
use puzzles::day06::get_operator;
use puzzles::day06::parse_grid;

#[test]
fn day06_worksheet_horizontal() {
    let grid = parse_grid(" 12 3\n 34 4\n  + *");
    let ranges = find_problem_ranges(&grid);
    assert_eq!(ranges, vec![(1, 3), (4, 5)]);
    let (nums, op) = extract_problem_horizontal(&grid, 1, 3);
    assert_eq!(nums, vec![12, 34]);
    assert_eq!(op, '+');
    assert_eq!(calculate(&nums, op), 46);
    let (nums2, op2) = extract_problem_horizontal(&grid, 4, 5);
    assert_eq!(nums2, vec![3, 4]);
    assert_eq!(op2, '*');
    assert_eq!(calculate(&nums2, op2), 12);
}

#[test]
fn day06_worksheet_vertical() {
    let grid = parse_grid(" 12 3\n 34 4\n  + *");
    let (nums, op) = extract_problem_vertical(&grid, 1, 3);
    assert_eq!(nums, vec![24, 13]);
    assert_eq!(op, '+');
    assert_eq!(calculate(&nums, op), 37);
}

#[test]
fn day06_operator_defaults_to_plus() {
    let grid = parse_grid("1\n2\n3");
    assert_eq!(get_operator(&grid, 0, 1), '+');
}

#[test]
fn day06_calculate_empty() {
    assert_eq!(calculate(&vec![], '+'), 0);
    assert_eq!(calculate(&vec![], '*'), 1);
    assert_eq!(calculate(&vec![2, 3], '?'), 0);
}

#[test]
fn day06_worksheet_totals() {
    let (total1, total2) = puzzles::day06::worksheet_totals(" 12 3\n 34 4\n  + *");
    assert_eq!(total1, 46 + 12);
    // the second problem's one column reads as the single number 34
    assert_eq!(total2, 37 + 34);
    assert_eq!(puzzles::day06::worksheet_totals(""), (0, 0));
}
