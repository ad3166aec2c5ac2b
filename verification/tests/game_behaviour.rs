use bw_responsibility::game::{Game, Player};
use bw_responsibility::transition_systems::CounterexampleError;
use bw_responsibility::groups::StateGroups;
use bw_responsibility::solver::CachedGameSolver;
use bw_responsibility::transition_systems::{State, Transition, TransitionSystem};

fn make_ts(n: usize, transitions: &[(usize, usize)], bad: &[usize], initial: usize) -> TransitionSystem {
    let mut states = Vec::new();
    for _ in 0..n {
        states.push(State::new(Vec::new()));
    }
    for &(from, to) in transitions {
        states[from].outgoing_transitions.push(Transition::new(to));
    }
    for &b in bad {
        states[b].is_bad = true;
    }
    TransitionSystem::new(states, initial, Vec::new(), Vec::new())
}

fn or_gated_game() -> Game {
    let ts = make_ts(
        5,
        &[(0, 1), (0, 4), (1, 2), (1, 4), (2, 3), (2, 4), (4, 4)],
        &[3],
        0,
    );
    let ce = vec![0, 1, 2, 3];
    ts.verify_counterexample(&ce).expect("valid");
    let mut game = Game::from_transition_system(&ts);
    game.mark_counterexample_path(&ce).expect("marks");
    game
}

/// Setting a coalition mask and clearing it restores owner, change count
/// and attractor counter of every state.
#[test]
fn set_then_clear_restores_game() {
    let mut game = or_gated_game();
    let groups = StateGroups::individual_from_game(&game);
    let before: Vec<(usize, Player, Player, usize, usize)> = game
        .states
        .iter()
        .map(|s| (s.successor_count, s.owner, s.default_owner, s.attractor_count, s.change_count))
        .collect();
    for mask in 0u64..8u64 {
        groups.set_state_mask(&mut game, mask);
        groups.clear_state_mask(&mut game, mask);
        let after: Vec<(usize, Player, Player, usize, usize)> = game
            .states
            .iter()
            .map(|s| {
                (s.successor_count, s.owner, s.default_owner, s.attractor_count, s.change_count)
            })
            .collect();
        assert_eq!(before, after);
    }
}

/// A winning coalition stays winning when players join.
#[test]
fn winning_is_monotone() {
    let game = or_gated_game();
    let groups = StateGroups::individual_from_game(&game);
    let n = groups.len();
    let mut solver = CachedGameSolver::new(game.clone_game(), 1, groups);
    solver.prepare().expect("fits");
    for coalition in 0u64..(1 << n) {
        if solver.is_game_winning(coalition) {
            for p in 0..n {
                assert!(solver.is_game_winning(coalition | (1 << p)));
            }
        }
    }
    // the chain game is an or-game: every non-empty coalition wins
    assert!(!solver.is_game_winning(0));
    for coalition in 1u64..(1 << n) {
        assert!(solver.is_game_winning(coalition));
    }
}

/// The attractor decides the counterexample game: the reachability player
/// wins the empty coalition, the safety player wins once any chain state
/// escapes.
#[test]
fn attractor_decides_winner() {
    let mut game = or_gated_game();
    assert_eq!(game.determine_winner(), Player::Reach);
    game.add_to_coalition(1);
    assert_eq!(game.determine_winner(), Player::Safe);
    game.remove_from_coalition(1);
    assert_eq!(game.determine_winner(), Player::Reach);
}

/// The path-marking pass flags exactly the counterexample's transitions
/// and fails on an ambiguous pair.
#[test]
fn path_marking_counts_matches() {
    let ts = make_ts(3, &[(0, 1), (0, 1), (1, 2), (2, 2)], &[1], 0);
    let mut game = Game::from_transition_system(&ts);
    let err = game.mark_counterexample_path(&vec![0, 1]).unwrap_err();
    assert_eq!(err.position, 0);
    assert_eq!(err.matched, 2);
}

/// Significant states are exactly the branching, non-bad ones.
#[test]
fn significant_states_found() {
    let game = or_gated_game();
    let significant = game.get_significant_states();
    assert_eq!(significant, vec![0, 1, 2]);
}

/// The counterexample checks reject each malformed input for its own
/// reason.
#[test]
fn counterexample_validation_errors() {
    let ts = make_ts(3, &[(0, 1), (1, 2), (2, 2)], &[2], 0);
    assert!(matches!(
        ts.verify_counterexample(&vec![]),
        Err(CounterexampleError::Empty)
    ));
    assert!(matches!(
        ts.verify_counterexample(&vec![9]),
        Err(CounterexampleError::InvalidStateIndex { position: 0 })
    ));
    assert!(matches!(
        ts.verify_counterexample(&vec![1, 2]),
        Err(CounterexampleError::DoesNotStartAtInitial)
    ));
    assert!(matches!(
        ts.verify_counterexample(&vec![0, 2]),
        Err(CounterexampleError::MissingTransition { position: 0 })
    ));
    assert!(matches!(
        ts.verify_counterexample(&vec![0, 1]),
        Err(CounterexampleError::LastStateNotBad)
    ));
    assert!(ts.verify_counterexample(&vec![0, 1, 2]).is_ok());
}

/// More groups than mask bits are rejected by the exact solver.
#[test]
fn solver_rejects_too_many_groups() {
    // 70 branching states hanging off the side of a short counterexample
    let mut transitions = vec![(0usize, 1usize)];
    for i in 0..70usize {
        transitions.push((2 + i, 1));
        transitions.push((2 + i, 72));
    }
    transitions.push((72, 72));
    let ts = make_ts(73, &transitions, &[1], 0);
    let ce = vec![0, 1];
    ts.verify_counterexample(&ce).expect("valid");
    let mut game = Game::from_transition_system(&ts);
    game.mark_counterexample_path(&ce).expect("marks");
    let groups = StateGroups::individual_from_game(&game);
    assert_eq!(groups.len(), 70);
    let mut solver = CachedGameSolver::new(game, 1, groups);
    let err = solver.prepare().unwrap_err();
    assert_eq!(err.count, 70);
}

/// The winner is only ever one of the two contenders, and a bad initial
/// state or an empty counterexample-tail means the safety player by
/// construction.
#[test]
fn degenerate_winners() {
    // initial state is itself bad
    let ts = make_ts(2, &[(0, 0), (1, 1)], &[0], 0);
    let mut game = Game::from_transition_system(&ts);
    game.mark_counterexample_path(&vec![0]).expect("marks");
    assert_eq!(game.determine_winner(), Player::Safe);
}
