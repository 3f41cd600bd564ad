use puzzles::day11::count_paths;
use puzzles::day11::count_paths_with_both;
use puzzles::day11::parse_input;

fn entry(name: &str, outs: &[&str]) -> (String, Vec<String>) {
    (name.to_string(), outs.iter().map(|s| s.to_string()).collect())
}

#[test]
fn day11_two_paths_to_out() {
    let graph = vec![
        entry("you", &["a", "b"]),
        entry("a", &["out"]),
        entry("b", &["out"]),
    ];
    assert_eq!(count_paths(&graph, "you", "out"), 2);
    assert_eq!(count_paths(&graph, "a", "out"), 1);
    assert_eq!(count_paths(&graph, "you", "nowhere"), 0);
}

#[test]
fn day11_only_paths_through_both_count() {
    let graph = vec![
        entry("svr", &["dac", "out"]),
        entry("dac", &["fft", "out"]),
        entry("fft", &["out"]),
    ];
    // svr -> dac -> fft -> out passes both; the other two paths do not
    assert_eq!(count_paths(&graph, "svr", "out"), 3);
    assert_eq!(count_paths_with_both(&graph, "svr", "out", false, false), 1);
    assert_eq!(count_paths_with_both(&graph, "fft", "out", true, false), 1);
    assert_eq!(count_paths_with_both(&graph, "fft", "out", false, false), 0);
}

#[test]
fn day11_parse_keeps_last_definition() {
    let graph = parse_input("you: a b\nyou: c\na: out\n");
    assert_eq!(graph.len(), 2);
    assert_eq!(graph[0].0, "you");
    assert_eq!(graph[0].1, vec!["c"]);
    assert_eq!(graph[1].0, "a");
    assert_eq!(graph[1].1, vec!["out"]);
}

#[test]
fn day11_part1_counts_paths_from_you() {
    let input = "you: a b\na: out\nb: out\n";
    assert_eq!(puzzles::day11::solve_part1(input), 2);
}

#[test]
fn day11_part2_counts_paths_through_both() {
    let input = "svr: dac out\ndac: fft out\nfft: out\n";
    assert_eq!(puzzles::day11::solve_part2(input), 1);
}
