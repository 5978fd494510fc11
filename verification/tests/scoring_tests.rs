use wordle_warlord::scoring::score_and_sort;
use wordle_warlord::scoring::SOLUTION_BONUS;

#[test]
fn test_score_and_sort_basic() {
    let words = vec![
        String::from("apple"),
        String::from("grape"),
        String::from("peach"),
        String::from("plumb"),
    ];

    // Treat all words as valid solutions for neutrality
    let solutions = words.clone();

    let scored = score_and_sort(&words, &solutions);

    // All words should be present
    let scored_words: Vec<String> = scored.iter().map(|(w, _)| w.clone()).collect();

    for w in &words {
        assert!(scored_words.contains(w));
    }

    // Sorted descending
    for i in 1..scored.len() {
        assert!(scored[i - 1].1 >= scored[i].1);
    }
}

#[test]
fn test_score_and_sort_unique_letters() {
    let words = vec![String::from("abcde"), String::from("aaaaa")];

    // Only "abcde" is a solution, reinforcing ordering
    let solutions = vec!["abcde".to_string()];

    let scored = score_and_sort(&words, &solutions);

    assert_eq!(scored[0].0, "abcde");
    assert!(scored[0].1 > scored[1].1);
}

#[test]
fn test_score_and_sort_empty() {
    let words: Vec<String> = vec![];
    let solutions: Vec<String> = vec![];

    let scored = score_and_sort(&words, &solutions);

    assert!(scored.is_empty());
}

#[test]
fn test_solution_bonus_applied() {
    // Same letter distribution, solution should win
    let words = vec![String::from("crate"), String::from("trace")];

    let solutions = vec!["crate".to_string()];

    let scored = score_and_sort(&words, &solutions);

    assert_eq!(scored[0].0, "crate");
}

#[test]
fn solution_words_get_bonus() {
    let words = vec![String::from("crate"), String::from("probe")];

    let solutions = vec!["probe".to_string()];

    let scored = score_and_sort(&words, &solutions);

    assert_eq!(scored[0].0, "probe");
}

#[test]
fn scores_are_exact_coverage_sums() {
    // Coverage: a appears in both words, b/c/d/e only in "abcde".
    // "abcde" scores 2+1+1+1+1 plus the bonus; "aaaaa" scores the
    // coverage of its single distinct letter.
    let words = vec![String::from("abcde"), String::from("aaaaa")];
    let solutions = vec!["abcde".to_string()];

    let scored = score_and_sort(&words, &solutions);

    assert_eq!(scored[0], ("abcde".to_string(), 6 + SOLUTION_BONUS));
    assert_eq!(scored[1], ("aaaaa".to_string(), 2));
}

#[test]
fn permuted_words_score_identically() {
    // "crate" and "trace" spell the same letter multiset; with both in
    // the solution list their scores coincide.
    let words = vec![String::from("crate"), String::from("trace")];
    let solutions = words.clone();

    let scored = score_and_sort(&words, &solutions);

    assert_eq!(scored[0].1, scored[1].1);
    // Equal scores keep the input order.
    assert_eq!(scored[0].0, "crate");
    assert_eq!(scored[1].0, "trace");
}

#[test]
fn repeated_letters_count_once() {
    // "bbbbb": one distinct letter; its score is the coverage of b.
    let words = vec![String::from("bbbbb"), String::from("babab")];
    let solutions: Vec<String> = vec![];

    let scored = score_and_sort(&words, &solutions);

    // b occurs in both words (coverage 2), a in one (coverage 1).
    assert_eq!(scored[0], ("babab".to_string(), 3));
    assert_eq!(scored[1], ("bbbbb".to_string(), 2));
}
