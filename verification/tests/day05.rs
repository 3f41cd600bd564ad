use puzzles::day05::count_fresh;
use puzzles::day05::count_unique_fresh_ids;
use puzzles::day05::is_fresh;
use puzzles::day05::parse_input;

#[test]
fn day05_parse_sections() {
    let (ranges, ids) = parse_input("1-5\n3-10\n\n4\n20\n");
    assert_eq!(ranges, vec![(1, 5), (3, 10)]);
    assert_eq!(ids, vec![4, 20]);
}

#[test]
fn day05_freshness() {
    let ranges = vec![(1u64, 5u64), (3u64, 10u64)];
    assert!(is_fresh(4, &ranges));
    assert!(is_fresh(10, &ranges));
    assert!(!is_fresh(11, &ranges));
    assert!(!is_fresh(0, &ranges));
}

#[test]
fn day05_unique_ids_merge_overlap() {
    let ranges = vec![(1u64, 5u64), (3u64, 10u64)];
    assert_eq!(count_unique_fresh_ids(&ranges), 10);
}

#[test]
fn day05_unique_ids_adjacent_and_apart() {
    assert_eq!(count_unique_fresh_ids(&vec![(1u64, 2u64), (3u64, 4u64)]), 4);
    assert_eq!(count_unique_fresh_ids(&vec![(1u64, 2u64), (5u64, 6u64)]), 4);
    assert_eq!(count_unique_fresh_ids(&vec![]), 0);
}

#[test]
fn day05_count_fresh_ids() {
    let ranges = vec![(1u64, 5u64), (3u64, 10u64)];
    let ids = vec![4u64, 20, 10, 0, 1];
    assert_eq!(count_fresh(&ids, &ranges), 3);
    assert_eq!(count_fresh(&Vec::new(), &ranges), 0);
    assert_eq!(count_fresh(&ids, &Vec::new()), 0);
}
