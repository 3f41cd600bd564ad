use puzzles::day12::can_place;
use puzzles::day12::place_shape;
use puzzles::day12::Shape;
use puzzles::day12::count_fitting_regions;

#[test]
fn day12_shape_from_picture() {
    let shape = Shape::new(&vec!["##".to_string(), ".#".to_string()]);
    assert_eq!(shape.cells, vec![(0, 0), (0, 1), (1, 1)]);
}

#[test]
fn day12_rotation_and_mirror() {
    let shape = Shape::new(&vec!["##".to_string(), ".#".to_string()]);
    assert_eq!(shape.rotated().cells, vec![(0, 0), (1, 0), (1, -1)]);
    assert_eq!(shape.flipped().cells, vec![(0, 0), (0, -1), (1, -1)]);
    assert_eq!(shape.rotated().normalized().cells, vec![(0, 1), (1, 1), (1, 0)]);
}

#[test]
fn day12_orientations_of_a_corner_piece() {
    // orientations are kept as cell lists, so equal sets listed in a
    // different order count separately, as when placing them cell by cell
    let shape = Shape::new(&vec!["##".to_string(), ".#".to_string()]);
    assert_eq!(shape.rotations_and_flips().len(), 8);
    let bar = Shape::new(&vec!["##".to_string()]);
    assert_eq!(bar.rotations_and_flips().len(), 4);
    let dot = Shape::new(&vec!["#".to_string()]);
    assert_eq!(dot.rotations_and_flips().len(), 1);
}

#[test]
fn day12_placing_marks_the_board() {
    let shape = Shape::new(&vec!["##".to_string()]);
    let mut board = vec![vec![false, false], vec![false, false]];
    assert!(can_place(&board, &shape, 0, 0));
    place_shape(&mut board, &shape, 0, 0, true);
    assert_eq!(board, vec![vec![true, true], vec![false, false]]);
    assert!(!can_place(&board, &shape, 0, 0));
    assert!(can_place(&board, &shape, 1, 0));
}

#[test]
fn day12_region_fits_with_gaps() {
    let bar = Shape::new(&vec!["##".to_string()]);
    let shapes = vec![bar];
    // one domino fits a one-by-two region; two dominoes have too many cells
    assert!(puzzles::day12::can_fit_region(&shapes, 2, 1, &vec![1]));
    assert!(!puzzles::day12::can_fit_region(&shapes, 2, 1, &vec![2]));
    // a domino in a two-by-two region leaves a row free
    assert!(puzzles::day12::can_fit_region(&shapes, 2, 2, &vec![1]));
}

#[test]
fn day12_empty_requirements_always_fit() {
    let bar = Shape::new(&vec!["##".to_string()]);
    assert!(puzzles::day12::can_fit_region(&vec![bar], 1, 1, &vec![0]));
}

#[test]
fn day12_count_fitting_regions_mixed() {
    let shapes = vec![Shape::new(&vec!["##".to_string()])];
    // a region needing nothing is accepted; a single square cannot hold
    // the two-cell shape; a 2x1 board holds it
    let regions = vec![
        (5usize, 5usize, vec![0usize]),
        (1usize, 1usize, vec![1usize]),
        (2usize, 1usize, vec![1usize]),
    ];
    assert_eq!(count_fitting_regions(&shapes, &regions), 2);
}
