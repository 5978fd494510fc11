use wordle_warlord::models::Feedback;
use wordle_warlord::models::GameOutcome;
use wordle_warlord::models::SolverOutcome;
use wordle_warlord::solver::Feedback as SolverFeedback;

#[test]
fn game_outcome_strings_round_trip() {
    for outcome in [GameOutcome::Won, GameOutcome::Lost, GameOutcome::Abandoned] {
        assert_eq!(GameOutcome::from_string(outcome.as_str()), Some(outcome));
    }
    assert_eq!(GameOutcome::from_string("drawn"), None);
    assert_eq!(GameOutcome::from_string(""), None);
}

#[test]
fn solver_outcome_strings_round_trip() {
    for outcome in [SolverOutcome::Completed, SolverOutcome::Abandoned] {
        assert_eq!(SolverOutcome::from_string(outcome.as_str()), Some(outcome));
    }
    assert_eq!(SolverOutcome::from_string("finished"), None);
}

#[test]
fn feedback_strings_round_trip() {
    for feedback in [Feedback::Green, Feedback::Yellow, Feedback::Gray] {
        assert_eq!(Feedback::from_string(feedback.to_string()), Some(feedback));
    }
    assert_eq!(Feedback::from_string("grey"), None);
}

#[test]
fn feedback_converts_to_and_from_the_solver() {
    for feedback in [Feedback::Green, Feedback::Yellow, Feedback::Gray] {
        assert_eq!(Feedback::from_solver(&feedback.to_solver()), feedback);
    }
    assert_eq!(Feedback::from_solver(&SolverFeedback::Green), Feedback::Green);
    assert_eq!(Feedback::from_solver(&SolverFeedback::Yellow), Feedback::Yellow);
    assert_eq!(Feedback::from_solver(&SolverFeedback::Gray), Feedback::Gray);
}
