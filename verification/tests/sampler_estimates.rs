use bw_responsibility::calculator::{ResponsibilityCalculator, StochasticError};
use bw_responsibility::cli::ResponsibilityVersion;
use bw_responsibility::game::Game;
use bw_responsibility::groups::StateGroups;
use bw_responsibility::responsibility::WeightType;
use bw_responsibility::sampler::SampleTarget;
use bw_responsibility::transition_systems::{State, Transition, TransitionSystem};
use num_traits::ToPrimitive;

fn make_ts(n: usize, transitions: &[(usize, usize)], bad: &[usize], initial: usize) -> TransitionSystem {
    let mut states = Vec::new();
    for _ in 0..n {
        states.push(State::new(Vec::new()));
    }
    for &(from, to) in transitions {
        states[from].outgoing_transitions.push(Transition::new(to));
    }
    for &b in bad {
        states[b].is_bad = true;
    }
    TransitionSystem::new(states, initial, Vec::new(), Vec::new())
}

fn or_gated_calculator(weight_type: WeightType) -> ResponsibilityCalculator {
    let ts = make_ts(
        5,
        &[(0, 1), (0, 4), (1, 2), (1, 4), (2, 3), (2, 4), (4, 4)],
        &[3],
        0,
    );
    let ce = vec![0, 1, 2, 3];
    ts.verify_counterexample(&ce).expect("valid");
    let mut game = Game::from_transition_system(&ts);
    game.mark_counterexample_path(&ce).expect("marks");
    let groups = StateGroups::individual_from_game(&game);
    ResponsibilityCalculator::new(game, 1, weight_type, groups, ResponsibilityVersion::Pessimistic)
}

/// With a large seeded sample budget the Shapley estimates converge to
/// the exact symmetric values.
#[test]
fn sampler_converges_on_symmetric_game() {
    let mut calc = or_gated_calculator(WeightType::Shapley);
    let results = calc
        .sample_individual_responsibilities(SampleTarget::Samples(100_000), 0xbad5eed)
        .expect("pessimistic sampling works");
    assert_eq!(results.len(), 3);
    assert_eq!(calc.sampled_count, 100_000);
    for r in &results {
        let estimate = r.total_value.to_f64().expect("finite");
        assert!(
            (estimate - 1.0 / 3.0).abs() < 0.01,
            "estimate {} too far from a third",
            estimate
        );
    }
}

/// The generic estimator path agrees with the exact Banzhaf values within
/// tolerance.
#[test]
fn sampler_converges_for_banzhaf() {
    let mut calc = or_gated_calculator(WeightType::Banzhaf);
    let results = calc
        .sample_individual_responsibilities(SampleTarget::Samples(100_000), 42)
        .expect("pessimistic sampling works");
    for r in &results {
        let estimate = r.total_value.to_f64().expect("finite");
        assert!(
            (estimate - 0.25).abs() < 0.01,
            "estimate {} too far from a quarter",
            estimate
        );
    }
}

/// The same seed reproduces the same estimates exactly.
#[test]
fn sampler_is_reproducible() {
    let mut a = or_gated_calculator(WeightType::Shapley);
    let mut b = or_gated_calculator(WeightType::Shapley);
    let ra = a
        .sample_individual_responsibilities(SampleTarget::Samples(2_000), 7)
        .expect("works");
    let rb = b
        .sample_individual_responsibilities(SampleTarget::Samples(2_000), 7)
        .expect("works");
    for (x, y) in ra.iter().zip(rb.iter()) {
        assert_eq!(x.total_value, y.total_value);
    }
}

/// The stochastic engine refuses what it cannot do, one reason each.
#[test]
fn sampler_mode_errors() {
    let mut optimistic = or_gated_calculator(WeightType::Shapley);
    optimistic.responsibility_version = ResponsibilityVersion::Optimistic;
    assert!(matches!(
        optimistic.sample_individual_responsibilities(SampleTarget::Samples(10), 1),
        Err(StochasticError::OptimisticUnsupported)
    ));

    let mut timed = or_gated_calculator(WeightType::Shapley);
    assert!(matches!(
        timed.sample_individual_responsibilities(SampleTarget::ElapsedTime(100), 1),
        Err(StochasticError::TimeBudgetRequiresClock)
    ));
}

/// Sample budgets split evenly across workers, remainder first.
#[test]
fn sample_target_split() {
    let t = SampleTarget::Samples(10);
    assert_eq!(t.split_across_threads(3, 0), SampleTarget::Samples(4));
    assert_eq!(t.split_across_threads(3, 1), SampleTarget::Samples(3));
    assert_eq!(t.split_across_threads(3, 2), SampleTarget::Samples(3));
    let d = SampleTarget::ElapsedTime(250);
    assert_eq!(d.split_across_threads(4, 2), SampleTarget::ElapsedTime(250));
}

/// A game with no players at all cannot be sampled.
#[test]
fn sampler_rejects_empty_games() {
    // one bad state, reached directly: no branching state exists
    let ts = make_ts(2, &[(0, 1), (1, 1)], &[1], 0);
    let ce = vec![0, 1];
    ts.verify_counterexample(&ce).expect("valid");
    let mut game = Game::from_transition_system(&ts);
    game.mark_counterexample_path(&ce).expect("marks");
    let groups = StateGroups::individual_from_game(&game);
    assert_eq!(groups.len(), 0);
    let mut calc = ResponsibilityCalculator::new(
        game,
        1,
        WeightType::Shapley,
        groups,
        ResponsibilityVersion::Pessimistic,
    );
    assert!(matches!(
        calc.sample_individual_responsibilities(SampleTarget::Samples(10), 1),
        Err(StochasticError::NoPlayers)
    ));
}
