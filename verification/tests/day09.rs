use puzzles::day09::is_inside_polygon;
use puzzles::day09::parse_input;
use puzzles::day09::solve_part1;

#[test]
fn day09_parse_tiles() {
    assert_eq!(parse_input("1,2\n-3,4\n\nbad\n7,8,9\n"), vec![(1, 2), (-3, 4), (7, 8)]);
}

#[test]
fn day09_largest_rectangle() {
    // corners (0,0) and (2,3) span a 3-by-4 rectangle of twelve tiles
    assert_eq!(solve_part1("0,0\n2,3\n"), 12);
    assert_eq!(solve_part1("5,5\n"), 0);
}

#[test]
fn day09_ray_cast() {
    let edges = vec![
        ((0i64, 0i64), (0i64, 10i64)),
        ((0i64, 10i64), (10i64, 10i64)),
        ((10i64, 10i64), (10i64, 0i64)),
        ((10i64, 0i64), (0i64, 0i64)),
    ];
    assert!(is_inside_polygon((5, 5), &edges));
    assert!(!is_inside_polygon((15, 5), &edges));
}
