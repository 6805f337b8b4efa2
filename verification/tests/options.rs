use freyja_engine::game_state::GameMode;
use freyja_engine::options::{
    interpret_option, FloatOption, OptionAction, OptionChange, SetOptionResult, DEFAULT_OPPONENT_ABSTRACTION,
};

fn invalid_text(a: OptionAction) -> String {
    match a {
        OptionAction::Reply(SetOptionResult::InvalidValue(m)) => m,
        _ => panic!("expected an invalid value"),
    }
}

#[test]
fn option_beam_width() {
    assert!(matches!(interpret_option("BeamWidth", "32"), OptionAction::Change(OptionChange::BeamWidth(32))));
    assert!(matches!(interpret_option("BeamWidth", "+7"), OptionAction::Change(OptionChange::BeamWidth(7))));
    assert_eq!(
        invalid_text(interpret_option("BeamWidth", "0")),
        "BeamWidth must be a positive integer, got '0'"
    );
    assert_eq!(
        invalid_text(interpret_option("BeamWidth", "abc")),
        "BeamWidth must be a positive integer, got 'abc'"
    );
    assert!(matches!(
        interpret_option("BeamWidth", "4294967296"),
        OptionAction::Reply(SetOptionResult::InvalidValue(_))
    ));
}

#[test]
fn option_max_rounds_zero_is_unlimited() {
    assert!(matches!(interpret_option("MaxRounds", "0"), OptionAction::Change(OptionChange::MaxRounds(None))));
    assert!(matches!(interpret_option("MaxRounds", "5"), OptionAction::Change(OptionChange::MaxRounds(Some(5)))));
    assert_eq!(
        invalid_text(interpret_option("MaxRounds", "-1")),
        "MaxRounds must be a non-negative integer, got '-1'"
    );
}

#[test]
fn option_game_mode_and_logfile() {
    assert!(matches!(
        interpret_option("GameMode", "FreeForAll"),
        OptionAction::Change(OptionChange::GameMode(GameMode::FreeForAll))
    ));
    assert_eq!(
        invalid_text(interpret_option("GameMode", "Teams")),
        "unknown GameMode 'Teams' (available: FreeForAll)"
    );
    assert!(matches!(interpret_option("LogFile", "none"), OptionAction::Reply(SetOptionResult::DisableLogFile)));
    match interpret_option("LogFile", "/tmp/engine.log") {
        OptionAction::Reply(SetOptionResult::EnableLogFile(p)) => assert_eq!(p, "/tmp/engine.log"),
        _ => panic!("expected EnableLogFile"),
    }
}

#[test]
fn option_move_noise_range() {
    assert!(matches!(interpret_option("MoveNoise", "100"), OptionAction::Change(OptionChange::MoveNoise(100))));
    assert_eq!(
        invalid_text(interpret_option("MoveNoise", "101")),
        "MoveNoise must be an integer in [0, 100], got '101'"
    );
}

#[test]
fn option_beam_schedule() {
    match interpret_option("BeamSchedule", "30, 20,10") {
        OptionAction::Change(OptionChange::BeamSchedule(s)) => assert_eq!(s, vec![30, 20, 10]),
        _ => panic!("expected a schedule"),
    }
    assert_eq!(
        invalid_text(interpret_option("BeamSchedule", "30,0")),
        "BeamSchedule must be comma-separated positive integers, got '30,0'"
    );
    assert!(matches!(
        interpret_option("BeamSchedule", ""),
        OptionAction::Reply(SetOptionResult::InvalidValue(_))
    ));
    assert!(matches!(
        interpret_option("BeamSchedule", "5,,6"),
        OptionAction::Reply(SetOptionResult::InvalidValue(_))
    ));
}

#[test]
fn option_adaptive_beam_and_counts() {
    assert!(matches!(interpret_option("AdaptiveBeam", "true"), OptionAction::Change(OptionChange::AdaptiveBeam(true))));
    assert!(matches!(interpret_option("AdaptiveBeam", "0"), OptionAction::Change(OptionChange::AdaptiveBeam(false))));
    assert_eq!(
        invalid_text(interpret_option("AdaptiveBeam", "yes")),
        "AdaptiveBeam must be true/false, got 'yes'"
    );
    assert!(matches!(interpret_option("MaxNodes", "123"), OptionAction::Change(OptionChange::MaxNodes(123))));
    assert!(matches!(interpret_option("MaxQnodes", "0"), OptionAction::Change(OptionChange::MaxQnodes(0))));
    assert!(matches!(interpret_option("GumbelK", "16"), OptionAction::Change(OptionChange::GumbelK(16))));
    assert_eq!(
        invalid_text(interpret_option("GumbelK", "0")),
        "GumbelK must be a positive integer, got '0'"
    );
}

#[test]
fn option_float_and_unknown() {
    assert!(matches!(interpret_option("TimeSplitRatio", "0.5"), OptionAction::Float(FloatOption::TimeSplitRatio)));
    assert!(matches!(interpret_option("CPrior", "x"), OptionAction::Float(FloatOption::CPrior)));
    match interpret_option("Bogus", "1") {
        OptionAction::Reply(SetOptionResult::UnknownOption(n)) => assert_eq!(n, "Bogus"),
        _ => panic!("expected UnknownOption"),
    }
}

#[test]
fn test_setoption_opponent_abstraction() {
    assert!(DEFAULT_OPPONENT_ABSTRACTION, "Should default to true");
    assert!(matches!(
        interpret_option("OpponentAbstraction", "false"),
        OptionAction::Change(OptionChange::OpponentAbstraction(false))
    ));
    assert!(matches!(
        interpret_option("OpponentAbstraction", "true"),
        OptionAction::Change(OptionChange::OpponentAbstraction(true))
    ));
    assert_eq!(
        invalid_text(interpret_option("OpponentAbstraction", "maybe")),
        "OpponentAbstraction must be true/false, got 'maybe'"
    );
}
