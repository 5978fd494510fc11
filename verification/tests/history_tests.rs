use wordle_warlord::history::extract_game_guess;
use wordle_warlord::history::extract_new_game;
use wordle_warlord::history::GameGuess;
use wordle_warlord::history::GameOutcome;
use wordle_warlord::history::GameRecord;
use wordle_warlord::solver::generate_feedback;

#[test]
fn test_extract_new_game() {
    let line = "2026-02-10T15:20:49.305070Z  INFO wordle_warlord::ui: New game started with target word: savvy";
    assert_eq!(extract_new_game(line), Some("savvy".to_string()));
}

#[test]
fn test_extract_game_guess() {
    let line =
        "2026-02-10T15:20:51.898425Z  INFO wordle_warlord::ui: Game guess submitted: raise";
    assert_eq!(extract_game_guess(line), Some("raise".to_string()));
}

#[test]
fn unrelated_lines_extract_nothing() {
    let line = "2026-02-10T15:20:55.000000Z  INFO wordle_warlord::ui: Undo requested";
    assert_eq!(extract_new_game(line), None);
    assert_eq!(extract_game_guess(line), None);
}

#[test]
fn extracted_words_are_trimmed() {
    let line = "INFO: Game guess submitted:   raise  ";
    assert_eq!(extract_game_guess(line), Some("raise".to_string()));
}

#[test]
fn game_records_report_their_outcome() {
    let target = "savvy".to_string();
    let words = ["raise", "savvy"];
    let guesses: Vec<GameGuess> = words
        .iter()
        .map(|w| GameGuess {
            word: w.to_string(),
            feedback: generate_feedback(&target, w),
        })
        .collect();
    let record = GameRecord {
        timestamp: 0,
        target_word: target,
        guesses,
        outcome: GameOutcome::Won { guesses: 2 },
    };
    assert_eq!(record.guess_count(), 2);
    assert!(!record.was_lost());

    let lost = GameRecord {
        timestamp: 0,
        target_word: "crane".to_string(),
        guesses: Vec::new(),
        outcome: GameOutcome::Lost,
    };
    assert!(lost.was_lost());
}
