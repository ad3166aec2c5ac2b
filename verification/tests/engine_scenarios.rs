use bw_responsibility::calculator::ResponsibilityCalculator;
use bw_responsibility::cli::ResponsibilityVersion;
use bw_responsibility::game::Game;
use bw_responsibility::groups::StateGroups;
use bw_responsibility::responsibility::WeightType;
use bw_responsibility::transition_systems::{State, Transition, TransitionSystem};
use num_rational::BigRational;
use num_bigint::BigInt;

fn rat(n: i64, d: i64) -> BigRational {
    BigRational::new(BigInt::from(n), BigInt::from(d))
}

fn make_ts(n: usize, transitions: &[(usize, usize)], bad: &[usize], initial: usize) -> TransitionSystem {
    let mut states = Vec::new();
    for _ in 0..n {
        states.push(State::new(Vec::new()));
    }
    for &(from, to) in transitions {
        states[from].outgoing_transitions.push(Transition::new(to));
    }
    for &b in bad {
        states[b].is_bad = true;
    }
    TransitionSystem::new(states, initial, Vec::new(), Vec::new())
}

fn run_exact(
    ts: &TransitionSystem,
    ce: Vec<usize>,
    weight_type: WeightType,
) -> Vec<bw_responsibility::responsibility::ResponsibilityResult> {
    ts.verify_counterexample(&ce).expect("counterexample must be valid");
    let mut game = Game::from_transition_system(ts);
    game.mark_counterexample_path(&ce).expect("path must mark");
    let groups = StateGroups::individual_from_game(&game);
    let mut calc = ResponsibilityCalculator::new(
        game,
        1,
        weight_type,
        groups,
        ResponsibilityVersion::Pessimistic,
    );
    calc.compute_individual_responsibility().expect("group count fits")
}

/// One significant state: its Shapley responsibility is the whole unit.
#[test]
fn single_player_takes_all() {
    // 0 -> 1 (bad, on path), 0 -> 2 (safe sink)
    let ts = make_ts(3, &[(0, 1), (0, 2), (2, 2)], &[1], 0);
    let results = run_exact(&ts, vec![0, 1], WeightType::Shapley);
    assert_eq!(results.len(), 1);
    assert_eq!(results[0].total_value, rat(1, 1));
    // No pivotal move can produce a coalition of size zero.
    assert_eq!(results[0].count_by_size[0], rat(0, 1));
}

fn or_gated_ts() -> (TransitionSystem, Vec<usize>) {
    // Chain 0 -> 1 -> 2 -> 3 (bad); each chain state also escapes to sink 4.
    let ts = make_ts(
        5,
        &[(0, 1), (0, 4), (1, 2), (1, 4), (2, 3), (2, 4), (4, 4)],
        &[3],
        0,
    );
    (ts, vec![0, 1, 2, 3])
}

/// Any one of the three chain states can veto: symmetric responsibilities.
#[test]
fn or_gated_shapley_banzhaf_count() {
    let (ts, ce) = or_gated_ts();
    let shapley = run_exact(&ts, ce.clone(), WeightType::Shapley);
    assert_eq!(shapley.len(), 3);
    let mut sum = rat(0, 1);
    for r in &shapley {
        assert_eq!(r.total_value, rat(1, 3));
        sum += &r.total_value;
    }
    // Shapley totals sum to one when the empty coalition loses and the
    // full coalition wins.
    assert_eq!(sum, rat(1, 1));

    let banzhaf = run_exact(&ts, ce.clone(), WeightType::Banzhaf);
    for r in &banzhaf {
        assert_eq!(r.total_value, rat(1, 4));
    }

    let count = run_exact(&ts, ce, WeightType::Count);
    let mut count_sum = rat(0, 1);
    for r in &count {
        assert_eq!(r.total_value, rat(1, 1));
        count_sum += &r.total_value;
    }
    // With count weights the totals sum to the number of pivotal pairs:
    // only the empty coalition loses here, and each player completes it.
    assert_eq!(count_sum, rat(3, 1));
}

fn and_gated_ts() -> (TransitionSystem, Vec<usize>) {
    // Path 0 -> 1 -> 2 -> 3 (bad). State 1 escapes to 4, 4 escapes to 5,
    // and only 5 reaches a safe sink (6); 4 and 5 can also fall to the bad
    // state. Blocking the run needs all of 1, 4 and 5 in the coalition.
    let ts = make_ts(
        7,
        &[
            (0, 1),
            (1, 2),
            (1, 4),
            (2, 3),
            (4, 3),
            (4, 5),
            (5, 3),
            (5, 6),
            (6, 6),
        ],
        &[3],
        0,
    );
    (ts, vec![0, 1, 2, 3])
}

/// The safety player needs all three significant states to win.
#[test]
fn and_gated_shapley_banzhaf() {
    let (ts, ce) = and_gated_ts();
    let shapley = run_exact(&ts, ce.clone(), WeightType::Shapley);
    assert_eq!(shapley.len(), 3);
    let mut sum = rat(0, 1);
    for r in &shapley {
        assert_eq!(r.total_value, rat(1, 3));
        sum += &r.total_value;
    }
    assert_eq!(sum, rat(1, 1));

    let banzhaf = run_exact(&ts, ce, WeightType::Banzhaf);
    for r in &banzhaf {
        assert_eq!(r.total_value, rat(1, 4));
    }
}

/// A veto player beside two dead-weight players: the literal per-size
/// pivotal counts.
#[test]
fn mixed_veto_count_vectors() {
    // 0 -> 1 (on path), 1 -> 2 (bad, on path), 1 -> 3 (sink, no successors);
    // 4 and 5 are significant but irrelevant side states.
    let ts = make_ts(
        6,
        &[(0, 1), (1, 2), (1, 3), (4, 2), (4, 3), (5, 2), (5, 3)],
        &[2],
        0,
    );
    let ce = vec![0, 1, 2];
    let results = run_exact(&ts, ce, WeightType::Shapley);
    assert_eq!(results.len(), 3);
    // Player order: state 1 (the veto state), then 4, then 5.
    let veto = &results[0];
    assert_eq!(veto.count_by_size[0], rat(0, 1));
    assert_eq!(veto.count_by_size[1], rat(1, 1));
    assert_eq!(veto.count_by_size[2], rat(2, 1));
    assert_eq!(veto.count_by_size[3], rat(1, 1));
    assert_eq!(veto.total_value, rat(1, 1));
    for r in &results[1..] {
        assert_eq!(r.count_by_size[1], rat(0, 1));
        assert_eq!(r.count_by_size[2], rat(0, 1));
        assert_eq!(r.count_by_size[3], rat(0, 1));
        assert_eq!(r.total_value, rat(0, 1));
    }
}

/// When the counterexample is the initial bad state itself, even the empty
/// coalition wins for the safety player and every responsibility is zero.
#[test]
fn no_losing_coalition_all_zero() {
    let ts = make_ts(4, &[(0, 0), (1, 2), (1, 3), (3, 3)], &[0], 0);
    let results = run_exact(&ts, vec![0], WeightType::Shapley);
    assert_eq!(results.len(), 1);
    assert_eq!(results[0].total_value, rat(0, 1));
}

/// Grouped mode with overlapping labels: the reference-counted coalition
/// still attributes the whole unit to the label that contains the veto
/// state.
#[test]
fn grouped_overlapping_labels() {
    // Same shape as the veto scenario; labels: 0 = {1, 4}, 1 = {4, 5}.
    let mut states = Vec::new();
    for _ in 0..6 {
        states.push(State::new(Vec::new()));
    }
    for &(from, to) in &[(0usize, 1usize), (1, 2), (1, 3), (4, 2), (4, 3), (5, 2), (5, 3)] {
        states[from].outgoing_transitions.push(Transition::new(to));
    }
    states[2].is_bad = true;
    states[1].labels.push(7);
    states[4].labels.push(7);
    states[4].labels.push(8);
    states[5].labels.push(8);
    // every other state is unlabelled, so a synthetic group appears last
    let label_names = vec![(7usize, "guard".to_string()), (8usize, "side".to_string())];
    let ts = TransitionSystem::new(states, 0, Vec::new(), label_names);

    let ce = vec![0, 1, 2];
    ts.verify_counterexample(&ce).expect("counterexample must be valid");
    let mut game = Game::from_transition_system(&ts);
    game.mark_counterexample_path(&ce).expect("path must mark");
    let groups = StateGroups::grouped_by_label_from_game(&game);
    let mut calc = ResponsibilityCalculator::new(
        game,
        1,
        WeightType::Shapley,
        groups,
        ResponsibilityVersion::Pessimistic,
    );
    let results = calc.compute_individual_responsibility().expect("fits");
    // Three groups: "guard" {1,4}, "side" {4,5}, "unlabelled" {0,2,3}.
    assert_eq!(results.len(), 3);
    let mut total = rat(0, 1);
    for r in &results {
        total += &r.total_value;
    }
    assert_eq!(total, rat(1, 1));
    // The group holding the veto state takes the whole unit.
    assert_eq!(results[0].total_value, rat(1, 1));
    assert_eq!(results[1].total_value, rat(0, 1));
    assert_eq!(results[2].total_value, rat(0, 1));
}

/// The optimistic closed form on the chain: every chain player
/// participates, there are no losing players, and each of the three
/// participants carries the binomial counts over zero non-participants.
#[test]
fn optimistic_closed_form() {
    let (ts, ce) = or_gated_ts();
    ts.verify_counterexample(&ce).expect("valid");
    let mut game = Game::from_transition_system(&ts);
    game.mark_counterexample_path(&ce).expect("marks");
    let groups = StateGroups::individual_on_path(&game);
    let mut calc = ResponsibilityCalculator::new(
        game,
        1,
        WeightType::Shapley,
        groups,
        ResponsibilityVersion::Optimistic,
    );
    let results = calc.compute_individual_responsibility().expect("fits");
    // Path players 0, 1, 2 all win as singletons (3 is bad, not grouped
    // by the on-path constructor it is, but a bad state has no escape);
    // every participant has count 1 at size one.
    assert!(!results.is_empty());
    for r in &results {
        assert_eq!(r.count_by_size[1], rat(1, 1));
    }
}

/// With count weights the totals sum to the number of pairs of a losing
/// coalition and a completing player: the veto player completes all four
/// losing coalitions, the dead-weight players none.
#[test]
fn count_totals_match_pair_count() {
    let ts = make_ts(
        6,
        &[(0, 1), (1, 2), (1, 3), (4, 2), (4, 3), (5, 2), (5, 3)],
        &[2],
        0,
    );
    let results = run_exact(&ts, vec![0, 1, 2], WeightType::Count);
    let mut sum = rat(0, 1);
    for r in &results {
        sum += &r.total_value;
    }
    assert_eq!(sum, rat(4, 1));
    assert_eq!(results[0].total_value, rat(4, 1));
}
