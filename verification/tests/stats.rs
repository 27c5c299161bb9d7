use cube_solver::stats::Stats;

#[test]
fn stats_start_at_zero() {
    let stats = Stats::new();
    assert_eq!(stats.num_permutations, 0);
    assert_eq!(stats.num_solutions, 0);
}

#[test]
fn success_counts_a_state_and_a_solution() {
    let mut stats = Stats::new();
    stats.success();
    assert_eq!((stats.num_permutations, stats.num_solutions), (1, 1));
    stats.success();
    assert_eq!((stats.num_permutations, stats.num_solutions), (2, 2));
}

#[test]
fn fail_counts_a_state_only() {
    let mut stats = Stats::new();
    stats.fail();
    assert_eq!((stats.num_permutations, stats.num_solutions), (1, 0));
    stats.success();
    stats.fail();
    assert_eq!((stats.num_permutations, stats.num_solutions), (3, 1));
}

#[test]
fn states_tried_never_decrease_and_exceed_solutions_after_a_dead_end() {
    let events = [true, true, false, true, false, false, true];
    let mut stats = Stats::new();
    let mut dead_end_seen = false;
    for success in events {
        let before = stats;
        if success {
            stats.success();
        } else {
            stats.fail();
            dead_end_seen = true;
        }
        assert!(stats.num_permutations >= before.num_permutations);
        assert!(stats.num_solutions >= before.num_solutions);
        assert!(stats.num_solutions <= stats.num_permutations);
        if dead_end_seen {
            assert!(stats.num_permutations > stats.num_solutions);
        } else {
            assert_eq!(stats.num_permutations, stats.num_solutions);
        }
    }
    assert_eq!((stats.num_permutations, stats.num_solutions), (7, 4));
}

#[test]
fn counters_stay_at_their_largest_value() {
    let mut stats = Stats { num_permutations: usize::MAX - 1, num_solutions: usize::MAX - 1 };
    stats.success();
    assert_eq!((stats.num_permutations, stats.num_solutions), (usize::MAX, usize::MAX));
    stats.success();
    assert_eq!((stats.num_permutations, stats.num_solutions), (usize::MAX, usize::MAX));
    stats.fail();
    assert_eq!((stats.num_permutations, stats.num_solutions), (usize::MAX, usize::MAX));
}
