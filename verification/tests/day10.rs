use puzzles::day10::parse_input;
use puzzles::day10::solve_joltage;
use puzzles::day10::solve_machine;
use puzzles::day10::solve_part1;
use puzzles::day10::solve_part2;
use puzzles::day10::Machine;

#[test]
fn day10_single_press_reaches_pattern() {
    // pattern [.##.] with buttons (1,2), (0) and (3): pressing the first
    // button alone toggles positions 1 and 2, giving .##.
    let machine = Machine {
        target: vec![false, true, true, false],
        buttons: vec![vec![1, 2], vec![0], vec![3]],
        joltages: vec![],
    };
    assert_eq!(solve_machine(&machine), Some(1));
}

#[test]
fn day10_no_buttons_all_off_needs_nothing() {
    let machine = Machine { target: vec![false, false, false], buttons: vec![], joltages: vec![] };
    assert_eq!(solve_machine(&machine), Some(0));
}

#[test]
fn day10_unreachable_pattern_has_no_solution() {
    let machine = Machine { target: vec![true], buttons: vec![], joltages: vec![] };
    assert_eq!(solve_machine(&machine), None);
}

#[test]
fn day10_solver_is_deterministic() {
    let machine = Machine {
        target: vec![false, true, true, false],
        buttons: vec![vec![1, 2], vec![0], vec![3]],
        joltages: vec![],
    };
    assert_eq!(solve_machine(&machine), solve_machine(&machine));
    let counters = Machine {
        target: vec![],
        buttons: vec![vec![0, 1], vec![1, 2], vec![2, 3], vec![3]],
        joltages: vec![3, 5, 4, 7],
    };
    assert_eq!(solve_joltage(&counters), solve_joltage(&counters));
}

#[test]
fn day10_counter_targets_need_twelve_presses() {
    // counters {3,5,4,7}: the chain of buttons forces 3, 2, 2 and 5
    // presses, twelve in all
    let machine = Machine {
        target: vec![],
        buttons: vec![vec![0, 1], vec![1, 2], vec![2, 3], vec![3]],
        joltages: vec![3, 5, 4, 7],
    };
    assert_eq!(solve_joltage(&machine), Some(12));
}

#[test]
fn day10_counters_in_fixed_ratio_can_be_infeasible() {
    // one button increments both counters, so targets 1 and 2 cannot both
    // be met exactly
    let machine = Machine { target: vec![], buttons: vec![vec![0, 1]], joltages: vec![1, 2] };
    assert_eq!(solve_joltage(&machine), None);
}

#[test]
fn day10_no_counters_need_no_presses() {
    let machine = Machine { target: vec![true], buttons: vec![vec![0]], joltages: vec![] };
    assert_eq!(solve_joltage(&machine), Some(0));
}

#[test]
fn day10_parse_machine_lines() {
    let machines = parse_input("[.##.] (1,2) (0) (3)\n[#] {5}\n");
    assert_eq!(machines.len(), 2);
    assert_eq!(machines[0].target, vec![false, true, true, false]);
    assert_eq!(machines[0].buttons, vec![vec![1, 2], vec![0], vec![3]]);
    assert_eq!(machines[0].joltages, vec![]);
    assert_eq!(machines[1].target, vec![true]);
    assert_eq!(machines[1].buttons, Vec::<Vec<usize>>::new());
    assert_eq!(machines[1].joltages, vec![5]);
}

#[test]
fn day10_part_sums_skip_unsolvable_machines() {
    // the first machine needs one press; the second has no solution and
    // contributes nothing
    assert_eq!(solve_part1("[.##.] (1,2) (0) (3)\n[#]\n"), 1);
    assert_eq!(solve_part2("[..] (0) (1) {2,3}\n"), 5);
}

#[test]
fn day10_counter_stage_picks_least_total() {
    // pressing the shared button twice meets both targets in two presses;
    // any split using the single-counter buttons costs more
    let machine = Machine {
        target: vec![],
        buttons: vec![vec![0], vec![1], vec![0, 1]],
        joltages: vec![2, 2],
    };
    assert_eq!(solve_joltage(&machine), Some(2));
}
