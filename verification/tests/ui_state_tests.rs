use wordle_warlord::ui_state::GameMode;
use wordle_warlord::ui_state::LogBuffer;
use wordle_warlord::ui_state::MAX_LOG_LINES;

#[test]
fn tests_test_log_buffer() {
    let mut logs = LogBuffer::new();

    logs.push("Test message 1".to_string());
    logs.push("Test message 2".to_string());

    let lines = logs.lines();
    assert_eq!(lines.len(), 2);
    assert_eq!(lines[0], "Test message 1");
    assert_eq!(lines[1], "Test message 2");
}

#[test]
fn tests_test_log_buffer_max_capacity() {
    let mut logs = LogBuffer::new();

    // Push more than MAX_LOG_LINES
    for i in 0..350 {
        logs.push(format!("Message {}", i));
    }

    let lines = logs.lines();
    assert!(lines.len() <= MAX_LOG_LINES);
}

#[test]
fn full_log_buffer_drops_the_oldest_line() {
    let mut logs = LogBuffer::new();
    for i in 0..MAX_LOG_LINES + 5 {
        logs.push(format!("Message {}", i));
    }
    let lines = logs.lines();
    assert_eq!(lines.len(), MAX_LOG_LINES);
    assert_eq!(lines[0], "Message 5");
    assert_eq!(lines[MAX_LOG_LINES - 1], format!("Message {}", MAX_LOG_LINES + 4));
}

#[test]
fn game_modes_compare_by_variant() {
    assert_eq!(GameMode::Solver, GameMode::Solver);
    assert_ne!(GameMode::Solver, GameMode::Game);
    assert_ne!(GameMode::Game, GameMode::History);
}
