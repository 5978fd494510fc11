use wordle_warlord::solver::filter_words;
use wordle_warlord::solver::generate_feedback;
use wordle_warlord::solver::parse_pattern;
use wordle_warlord::solver::Feedback;
use wordle_warlord::solver::Guess;
use wordle_warlord::solver::ParseError;
use wordle_warlord::solver::SolverState;

fn feedback_vec(pattern: &[u8]) -> Vec<Feedback> {
    pattern
        .iter()
        .map(|&b| match b {
            0 => Feedback::Gray,
            1 => Feedback::Yellow,
            2 => Feedback::Green,
            _ => panic!("Invalid feedback"),
        })
        .collect()
}

#[test]
fn test_solver_state_multiple_guesses_compound() {
    let words = vec![
        "dusky".to_string(),
        "dusty".to_string(),
        "dumpy".to_string(),
        "daisy".to_string(),
    ];

    let mut state = SolverState::new(5);

    // DAISY -> GXXYG
    state.add_guess(Guess::new(
        "daisy".to_string(),
        feedback_vec(&[2, 0, 0, 1, 2]),
    ));

    let remaining = state.filter(&words);
    assert_eq!(remaining.len(), 2);

    // DUSTY -> GGXGG
    state.add_guess(Guess::new(
        "dusty".to_string(),
        feedback_vec(&[2, 2, 0, 2, 2]),
    ));

    let remaining = state.filter(&words);
    assert!(remaining.is_empty());
}

#[test]
fn test_yellow_letter_wrong_position() {
    let words = vec![
        "crate".to_string(),
        "trace".to_string(),
        "react".to_string(),
    ];

    let guess = "crate";
    let pattern = feedback_vec(&[0, 1, 0, 0, 0]);

    let filtered = filter_words(&words, guess, &pattern);

    assert!(filtered.is_empty());
}

#[test]
fn test_green_overrides_gray_elsewhere() {
    let words = vec![
        "sassy".to_string(),
        "gassy".to_string(),
        "class".to_string(),
    ];

    let guess = "sassy";
    let pattern = feedback_vec(&[2, 0, 0, 0, 2]);

    let filtered = filter_words(&words, guess, &pattern);

    assert!(filtered.is_empty());
}

#[test]
fn test_repeated_letter_gray_respects_min_count() {
    let words = vec![
        "label".to_string(),
        "cello".to_string(),
        "helot".to_string(),
        "pilot".to_string(),
    ];

    let guess = "allot";
    let pattern = feedback_vec(&[0, 1, 0, 0, 0]);

    let filtered = filter_words(&words, guess, &pattern);

    assert!(filtered.is_empty());
}

#[test]
fn test_filter_words_basic() {
    let words = vec![
        "apple".to_string(),
        "apply".to_string(),
        "angle".to_string(),
        "ample".to_string(),
    ];

    let guess = "apple";
    let pattern = feedback_vec(&[2, 2, 2, 2, 2]);

    let filtered = filter_words(&words, guess, &pattern);

    assert_eq!(filtered.len(), 1);
    assert_eq!(filtered[0].as_str(), "apple");
}

#[test]
fn test_filter_words_length() {
    let words = vec![
        "apple".to_string(),
        "apples".to_string(),
        "appl".to_string(),
    ];

    let guess = "apple";
    let pattern = feedback_vec(&[2, 2, 2, 2, 2]);

    let filtered = filter_words(&words, guess, &pattern);

    assert_eq!(filtered.len(), 1);
    assert_eq!(filtered[0].as_str(), "apple");
}

#[test]
fn test_generate_feedback_duplicate_letters() {
    let fb = generate_feedback("apple", "allay");

    assert_eq!(
        fb,
        vec![
            Feedback::Green,
            Feedback::Yellow,
            Feedback::Gray,
            Feedback::Gray,
            Feedback::Gray,
        ]
    );
}

#[test]
fn generated_feedback_round_trips() {
    // The feedback a target produces for a guess always keeps the
    // target itself in the pool.
    let pairs = [
        ("apple", "allay"),
        ("sassy", "sassy"),
        ("crate", "trace"),
        ("dusky", "daisy"),
        ("llama", "label"),
    ];
    for (target, guess) in pairs {
        let fb = generate_feedback(target, guess);
        assert!(wordle_warlord::solver::matches(target, guess, &fb));
    }
}

#[test]
fn matches_rejects_length_mismatch() {
    let pattern = feedback_vec(&[2, 2, 2, 2, 2]);
    assert!(!wordle_warlord::solver::matches("apple", "apples", &pattern));
    assert!(!wordle_warlord::solver::matches("apples", "apple", &pattern));
    assert!(!wordle_warlord::solver::matches("apple", "apple", &feedback_vec(&[2, 2])));
}

#[test]
fn parse_pattern_accepts_codes_case_insensitively() {
    let parsed = parse_pattern("GyXxg").unwrap();
    assert_eq!(
        parsed,
        vec![
            Feedback::Green,
            Feedback::Yellow,
            Feedback::Gray,
            Feedback::Gray,
            Feedback::Green,
        ]
    );
    assert_eq!(parse_pattern("").unwrap(), Vec::<Feedback>::new());
}

#[test]
fn parse_pattern_names_first_bad_character() {
    assert_eq!(parse_pattern("GZXXX"), Err(ParseError { ch: 'Z' }));
    assert_eq!(parse_pattern("?GYQX"), Err(ParseError { ch: '?' }));
}

#[test]
fn undo_restores_previous_pool() {
    let words = vec![
        "dusky".to_string(),
        "dusty".to_string(),
        "dumpy".to_string(),
        "daisy".to_string(),
    ];

    let mut state = SolverState::new(5);
    state.add_guess(Guess::new(
        "daisy".to_string(),
        feedback_vec(&[2, 0, 0, 1, 2]),
    ));
    let before = state.filter(&words);

    state.add_guess(Guess::new(
        "dusty".to_string(),
        feedback_vec(&[2, 2, 0, 2, 2]),
    ));
    state.pop_guess();

    let after = state.filter(&words);
    assert_eq!(before, after);
}

#[test]
fn pop_guess_on_empty_history_is_a_no_op() {
    let words = vec!["apple".to_string(), "angle".to_string()];
    let mut state = SolverState::new(5);
    state.pop_guess();
    assert_eq!(state.guesses().len(), 0);
    assert_eq!(state.filter(&words).len(), 2);
}

#[test]
fn filtering_twice_gives_identical_output() {
    let words = vec![
        "crate".to_string(),
        "trace".to_string(),
        "react".to_string(),
        "cream".to_string(),
    ];
    let mut state = SolverState::new(5);
    state.add_guess(Guess::new(
        "crate".to_string(),
        feedback_vec(&[2, 1, 1, 0, 1]),
    ));
    assert_eq!(state.filter(&words), state.filter(&words));
}

#[test]
fn adding_a_guess_never_grows_the_pool() {
    let words = vec![
        "crate".to_string(),
        "trace".to_string(),
        "react".to_string(),
        "cream".to_string(),
        "crane".to_string(),
    ];
    let mut state = SolverState::new(5);
    let before = state.filter(&words).len();
    state.add_guess(Guess::new(
        "crane".to_string(),
        feedback_vec(&[2, 2, 2, 0, 0]),
    ));
    let after = state.filter(&words).len();
    assert!(after <= before);
}
