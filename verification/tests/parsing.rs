use bw_responsibility::cli::{trim_prism_extension, CounterexampleInput, ModelInput};
use bw_responsibility::game::Game;
use bw_responsibility::groups::StateGroups;
use bw_responsibility::prism::{PrismInterface, PrismRunner};
use bw_responsibility::transition_system_parser::{
    parse_usize_digits, split_on_char, ParseError, TransitionSystemParser,
};

fn parser() -> TransitionSystemParser {
    TransitionSystemParser::from_files(
        "model.sta".to_string(),
        "model.tra".to_string(),
        "model.lab".to_string(),
    )
}

const STA: &str = "(x)\n0:(a)\n1:(b)\n2:(c)\n";
const TRA: &str = "3 4 1\n0 0 1 1\n1 0 2 1.0\n";
const LAB: &str = "0=\"init\" 1=\"bad\" 2=\"hot\"\n0: 0\n1: 2\n2: 1\n";

/// The exporter's three files parse into a consistent system.
#[test]
fn parses_exported_files() {
    let ts = parser()
        .parse(
            &STA.to_string(),
            &TRA.to_string(),
            &LAB.to_string(),
            &"bad".to_string(),
        )
        .expect("files are well formed");
    assert_eq!(ts.states.len(), 3);
    assert_eq!(ts.initial_state, 0);
    assert_eq!(ts.variables.len(), 1);
    assert!(ts.states[2].is_bad);
    assert!(!ts.states[0].is_bad);
    assert!(ts.states[0].has_transition_to(1));
    assert!(ts.states[1].has_transition_to(2));
    assert!(!ts.states[0].has_transition_to(2));
    // state 1 carries the "hot" label
    assert_eq!(ts.states[1].labels, vec![2]);
    // the parsed system feeds the game pipeline
    let ce = vec![0, 1, 2];
    ts.verify_counterexample(&ce).expect("valid");
    let mut game = Game::from_transition_system(&ts);
    game.mark_counterexample_path(&ce).expect("marks");
    let groups = StateGroups::grouped_by_label_from_game(&game);
    assert_eq!(groups.len(), 2); // "hot" and the synthetic unlabelled group
}

#[test]
fn parse_rejects_bad_probability() {
    let tra = "header\n0 0 1 0.5\n";
    let err = parser()
        .parse(
            &STA.to_string(),
            &tra.to_string(),
            &LAB.to_string(),
            &"bad".to_string(),
        )
        .unwrap_err();
    assert_eq!(err, ParseError::UnsupportedProbability { line: 1 });
}

#[test]
fn parse_rejects_bad_files() {
    let p = parser();
    let bad = "bad".to_string();
    assert_eq!(
        p.parse(&"".to_string(), &TRA.to_string(), &LAB.to_string(), &bad)
            .unwrap_err(),
        ParseError::MissingStateHeader
    );
    assert_eq!(
        p.parse(&"(x)\n7:(a)\n".to_string(), &TRA.to_string(), &LAB.to_string(), &bad)
            .unwrap_err(),
        ParseError::BadStateIndex { line: 1 }
    );
    assert_eq!(
        p.parse(&"(x)\n0:(a,b)\n".to_string(), &TRA.to_string(), &LAB.to_string(), &bad)
            .unwrap_err(),
        ParseError::BadValuationCount { line: 1 }
    );
    assert_eq!(
        p.parse(&"(x)\n0 (a)\n".to_string(), &TRA.to_string(), &LAB.to_string(), &bad)
            .unwrap_err(),
        ParseError::MissingColon { line: 1 }
    );
    assert_eq!(
        p.parse(&STA.to_string(), &"".to_string(), &LAB.to_string(), &bad)
            .unwrap_err(),
        ParseError::MissingTransitionHeader
    );
    assert_eq!(
        p.parse(&STA.to_string(), &"h\n0 0\n".to_string(), &LAB.to_string(), &bad)
            .unwrap_err(),
        ParseError::BadTransitionEntry { line: 1 }
    );
    assert_eq!(
        p.parse(&STA.to_string(), &"h\n0 0 9 1\n".to_string(), &LAB.to_string(), &bad)
            .unwrap_err(),
        ParseError::BadTransitionEndpoint { line: 1 }
    );
    assert_eq!(
        p.parse(&STA.to_string(), &TRA.to_string(), &"".to_string(), &bad)
            .unwrap_err(),
        ParseError::MissingLabelHeader
    );
    assert_eq!(
        p.parse(&STA.to_string(), &TRA.to_string(), &"0=\"x\" 0=\"y\"\n".to_string(), &bad)
            .unwrap_err(),
        ParseError::DuplicateLabelIndex
    );
    assert_eq!(
        p.parse(&STA.to_string(), &TRA.to_string(), &"junk\n".to_string(), &bad)
            .unwrap_err(),
        ParseError::BadLabelHeader
    );
    assert_eq!(
        p.parse(&STA.to_string(), &TRA.to_string(), &"1=\"bad\"\n".to_string(), &bad)
            .unwrap_err(),
        ParseError::NoInitialState
    );
    assert_eq!(
        p.parse(
            &STA.to_string(),
            &TRA.to_string(),
            &"0=\"init\"\n0: 0\n1: 0\n".to_string(),
            &bad,
        )
        .unwrap_err(),
        ParseError::MultipleInitialStates
    );
    assert_eq!(
        p.parse(
            &STA.to_string(),
            &TRA.to_string(),
            &"0=\"init\"\n9: 0\n".to_string(),
            &bad,
        )
        .unwrap_err(),
        ParseError::BadLabelState { line: 1 }
    );
    assert_eq!(
        p.parse(
            &STA.to_string(),
            &TRA.to_string(),
            &"0=\"init\"\n0: 5\n".to_string(),
            &bad,
        )
        .unwrap_err(),
        ParseError::BadLabelEntry { line: 1 }
    );
}

/// Numeric fields parse to their exact values, and only digit strings.
#[test]
fn digit_parsing() {
    assert_eq!(parse_usize_digits(&"0".to_string()), Some(0));
    assert_eq!(parse_usize_digits(&"129".to_string()), Some(129));
    assert_eq!(parse_usize_digits(&"".to_string()), None);
    assert_eq!(parse_usize_digits(&"1x".to_string()), None);
    assert_eq!(parse_usize_digits(&"-4".to_string()), None);
    assert_eq!(
        parse_usize_digits(&"999999999999999999999999".to_string()),
        None
    );
}

#[test]
fn splitting_keeps_fields() {
    let parts = split_on_char(&"a,,bc".to_string(), ',');
    assert_eq!(parts, vec!["a".to_string(), "".to_string(), "bc".to_string()]);
}

/// Counterexamples resolve by valuation, in both file formats.
#[test]
fn counterexample_files_resolve_states() {
    let ts = parser()
        .parse(
            &STA.to_string(),
            &TRA.to_string(),
            &LAB.to_string(),
            &"bad".to_string(),
        )
        .expect("ok");
    let plain = TransitionSystemParser::parse_counterexample_from_file(
        &"(a)\n(b)\n(c)\n".to_string(),
        &ts,
    )
    .expect("resolves");
    assert_eq!(plain, vec![0, 1, 2]);
    let named = TransitionSystemParser::parse_counterexample_from_file(
        &"(x=a)\n(x=c)\n".to_string(),
        &ts,
    )
    .expect("resolves");
    assert_eq!(named, vec![0, 2]);
    let err = TransitionSystemParser::parse_counterexample_from_file(
        &"(zz)\n".to_string(),
        &ts,
    )
    .unwrap_err();
    assert_eq!(err, ParseError::BadCounterexampleLine { line: 0 });
}

/// The model-file stem rules of the bypass mode.
#[test]
fn no_prism_bypass_builds_file_names() {
    assert_eq!(trim_prism_extension(&"m.prism".to_string()), "m".to_string());
    assert_eq!(trim_prism_extension(&"dir/model".to_string()), "dir/model".to_string());
    let (model, ce) = ModelInput::PrismFile { file: "m.prism".to_string() }
        .apply_no_prism(true, CounterexampleInput::ModelChecker);
    match model {
        ModelInput::TransitionSystemFile { state_file, transition_file, label_file } => {
            assert_eq!(state_file, "m.sta");
            assert_eq!(transition_file, "m.tra");
            assert_eq!(label_file, "m.lab");
        },
        _ => panic!("expected exported files"),
    }
    match ce {
        CounterexampleInput::File { file } => assert_eq!(file, "m.ce"),
        _ => panic!("expected counterexample file"),
    }
}

/// The witness block of checker output is extracted line for line.
#[test]
fn checker_output_counterexample_block() {
    let out = "preamble\nCounterexample/witness found\n(0)\n(1)\nend\n(9)\n";
    let iface = PrismInterface::new(PrismRunner {
        path_to_prism: "prism".to_string(),
        path_to_java: None,
    });
    let block = iface.parse_counterexample_from_output(&out.to_string());
    assert_eq!(block, vec!["(0)".to_string(), "(1)".to_string()]);
}

/// The stem-based parser names the exporter's files.
#[test]
fn parser_from_stem_names_files() {
    let p = TransitionSystemParser::from_stem("run_results".to_string());
    assert_eq!(p.states_file_name, "run_results.sta");
    assert_eq!(p.transitions_file_name, "run_results.tra");
    assert_eq!(p.labels_file_name, "run_results.lab");
}
