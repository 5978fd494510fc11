use wordle_warlord::analysis::compute_constraint_summary;
use wordle_warlord::analysis::compute_letter_analysis;
use wordle_warlord::analysis::compute_position_analysis;
use wordle_warlord::analysis::compute_solution_pool_stats;
use wordle_warlord::solver::Feedback;
use wordle_warlord::solver::Guess;
use wordle_warlord::solver::SolverState;

fn make_solver_state(guesses: Vec<(&str, Vec<Feedback>)>, word_len: usize) -> SolverState {
    let mut solver = SolverState::new(word_len);
    for (word, feedback) in guesses {
        solver.add_guess(Guess::new(word.to_string(), feedback));
    }
    solver
}

/// The real-valued pool statistics, computed from the integer core the
/// library hands out.
fn entropy_of(counts: &[(char, usize)], remaining: usize) -> f64 {
    if remaining <= 1 {
        return counts
            .iter()
            .map(|&(_, count)| {
                let p = count as f64 / remaining.max(1) as f64;
                -p * p.log2()
            })
            .sum();
    }
    counts
        .iter()
        .map(|&(_, count)| {
            let p = count as f64 / remaining as f64;
            -p * p.log2()
        })
        .sum()
}

#[test]
fn test_compute_letter_analysis() {
    let words = vec![
        "apple".to_string(),
        "angle".to_string(),
        "ample".to_string(),
    ];

    let analysis = compute_letter_analysis(&words);
    assert_eq!(analysis.total_words, 3);
    assert_eq!(analysis.get('a'), Some(3));
    assert_eq!(analysis.get('p'), Some(2));
    assert_eq!(analysis.max_frequency, 3);
}

#[test]
fn test_compute_position_analysis() {
    let words = vec![
        "apple".to_string(),
        "angle".to_string(),
        "ample".to_string(),
    ];

    let solver = SolverState::new(5);
    let analysis = compute_position_analysis(&words, &solver);
    assert_eq!(analysis.possible_letters[0], vec!['a']);
    assert!(analysis.possible_letters[1].contains(&'p'));
    assert!(analysis.position_frequencies[4].iter().any(|&(c, _)| c == 'e'));
}

#[test]
fn test_compute_constraint_summary() {
    let guesses = vec![
        (
            "apple",
            vec![
                Feedback::Green,
                Feedback::Gray,
                Feedback::Gray,
                Feedback::Gray,
                Feedback::Gray,
            ],
        ),
        (
            "angle",
            vec![
                Feedback::Green,
                Feedback::Yellow,
                Feedback::Gray,
                Feedback::Gray,
                Feedback::Gray,
            ],
        ),
    ];
    let solver = make_solver_state(guesses, 5);
    let summary = compute_constraint_summary(&solver);
    assert!(
        summary
            .greens
            .iter()
            .any(|(c, pos, _)| *c == 'a' && *pos == 0)
    );
    assert!(summary.yellows.iter().any(|(c, _, _)| *c == 'n'));
    assert!(summary.grays.contains(&'p'));
}

#[test]
fn test_compute_solution_pool_stats() {
    let all_words = vec![
        "apple".to_string(),
        "angle".to_string(),
        "ample".to_string(),
    ];
    let filtered = vec!["apple".to_string()];
    let stats = compute_solution_pool_stats(&all_words, &filtered);
    assert_eq!(stats.total_remaining, 1);
    let eliminated_percentage =
        (1.0 - stats.total_remaining as f64 / stats.dictionary_size as f64) * 100.0;
    assert!(eliminated_percentage > 0.0);
    let entropy = entropy_of(&stats.letter_counts, stats.total_remaining);
    assert_eq!(entropy, 0.0);
}

#[test]
fn empty_pool_has_zero_entropy() {
    let all_words = vec!["apple".to_string()];
    let filtered: Vec<String> = vec![];
    let stats = compute_solution_pool_stats(&all_words, &filtered);
    assert_eq!(stats.total_remaining, 0);
    assert!(stats.letter_counts.is_empty());
    let entropy = entropy_of(&stats.letter_counts, stats.total_remaining);
    assert_eq!(entropy, 0.0);
}

#[test]
fn pool_stats_counts_are_coverage_counts() {
    let all_words = vec![
        "apple".to_string(),
        "angle".to_string(),
        "ample".to_string(),
        "plumb".to_string(),
    ];
    let filtered = vec![
        "apple".to_string(),
        "angle".to_string(),
        "ample".to_string(),
    ];
    let stats = compute_solution_pool_stats(&all_words, &filtered);
    assert_eq!(stats.total_remaining, 3);
    assert_eq!(stats.dictionary_size, 4);
    let count_of = |c: char| {
        stats
            .letter_counts
            .iter()
            .find(|&&(k, _)| k == c)
            .map(|&(_, v)| v)
    };
    assert_eq!(count_of('a'), Some(3));
    assert_eq!(count_of('p'), Some(2));
    assert_eq!(count_of('n'), Some(1));
    assert_eq!(count_of('z'), None);
}

#[test]
fn constraint_summary_tracks_occurrence_bounds() {
    // One yellow 'l' and one gray 'l' in the same guess: at least one
    // 'l', at most one 'l'.
    let solver = make_solver_state(
        vec![(
            "allot",
            vec![
                Feedback::Gray,
                Feedback::Yellow,
                Feedback::Gray,
                Feedback::Gray,
                Feedback::Gray,
            ],
        )],
        5,
    );
    let summary = compute_constraint_summary(&solver);
    assert!(summary.grays.contains(&'l'));
    assert!(summary.min_counts.contains(&('l', 1)));
    assert!(summary.max_counts.contains(&('l', 1)));
    // 'a', 'o' and 't' are excluded outright: upper bound zero.
    assert!(summary.max_counts.contains(&('a', 0)));
    assert!(summary.max_counts.contains(&('o', 0)));
    assert!(summary.max_counts.contains(&('t', 0)));
}

#[test]
fn repeated_guess_does_not_inflate_minimum() {
    // The same guess twice: the lower bound is the per-guess maximum,
    // not the sum across guesses.
    let fb = vec![
        Feedback::Green,
        Feedback::Yellow,
        Feedback::Gray,
        Feedback::Gray,
        Feedback::Gray,
    ];
    let solver = make_solver_state(vec![("apple", fb.clone()), ("apple", fb)], 5);
    let summary = compute_constraint_summary(&solver);
    assert!(summary.min_counts.contains(&('a', 1)));
    assert!(summary.min_counts.contains(&('p', 1)));
}
