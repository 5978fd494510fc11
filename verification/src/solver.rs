//! Guess feedback, the consistency predicate, and the constraint engine.
//!
//! A guess pairs a word with per-letter feedback: `Green` (right letter,
//! right place), `Yellow` (letter present elsewhere) or `Gray` (no
//! occurrence beyond those already accounted for by `Green` and `Yellow`
//! marks of the same letter in the same guess).  `feedback_consistent`
//! is the mathematical statement of when a candidate word remains
//! possible given one guess; `matches` decides it, `filter_words` and
//! `SolverState::filter` apply it across a dictionary, and
//! `generate_feedback` computes the feedback a known target would
//! produce — provably consistent with the target itself.

use vstd::prelude::*;

use crate::counting::count_upto;

verus! {

/// Per-letter feedback on a guess.
#[derive(Debug, Copy, Clone, PartialEq, Eq, Structural)]
pub enum Feedback {
    Green,
    Yellow,
    Gray,
}

/// How often `c` occurs among the first `n` characters of `s`.
pub open spec fn count_char_prefix(s: Seq<char>, c: char, n: int) -> nat {
    count_upto(n, |j: int| s[j] == c)
}

/// How often `c` occurs in `s`.
pub open spec fn count_char(s: Seq<char>, c: char) -> nat {
    count_char_prefix(s, c, s.len() as int)
}

/// Among the first `n` positions of the guess `g`, how many mark the
/// letter `c` as present (`Green` or `Yellow` feedback carrying `c`).
pub open spec fn hinted_count_prefix(g: Seq<char>, p: Seq<Feedback>, c: char, n: int) -> nat {
    count_upto(n, |j: int| g[j] == c && (p[j] == Feedback::Green || p[j] == Feedback::Yellow))
}

/// How many positions of the guess `g` mark the letter `c` as present:
/// positions with `Green` or `Yellow` feedback carrying that letter.
/// A consistent candidate must contain `c` at least this often.
pub open spec fn hinted_count(g: Seq<char>, p: Seq<Feedback>, c: char) -> nat {
    hinted_count_prefix(g, p, c, g.len() as int)
}

/// When the candidate word `w` is consistent with feedback `p` for guess `g`:
/// green positions agree letter for letter; yellow positions disagree but
/// the letter occurs often enough elsewhere; gray positions bound the
/// letter's total occurrences by the green/yellow hints of the same guess.
pub open spec fn feedback_consistent(w: Seq<char>, g: Seq<char>, p: Seq<Feedback>) -> bool {
    &&& w.len() == g.len()
    &&& g.len() == p.len()
    &&& forall|i: int|
        0 <= i < p.len() && p[i] == Feedback::Green ==> w[i] == g[i]
    &&& forall|i: int|
        0 <= i < p.len() && p[i] == Feedback::Yellow ==> w[i] != g[i] && count_char(w, g[i])
            >= hinted_count(g, p, g[i])
    &&& forall|i: int|
        0 <= i < p.len() && p[i] == Feedback::Gray ==> count_char(w, g[i]) <= hinted_count(
            g,
            p,
            g[i],
        )
}

/// Among the first `n` positions, how often guess and target agree on `c`.
pub open spec fn exact_count_prefix(t: Seq<char>, g: Seq<char>, c: char, n: int) -> nat {
    count_upto(n, |j: int| t[j] == g[j] && g[j] == c)
}

/// How many positions of the guess hit the letter `c` exactly.
pub open spec fn exact_count(t: Seq<char>, g: Seq<char>, c: char) -> nat {
    exact_count_prefix(t, g, c, g.len() as int)
}

/// Among the first `n` positions, how often the guess places `c` where
/// the target has a different letter.
pub open spec fn misplaced_prefix(t: Seq<char>, g: Seq<char>, c: char, n: int) -> nat {
    count_upto(n, |j: int| g[j] == c && t[j] != g[j])
}

/// The feedback a target `t` produces at position `i` of guess `g`:
/// `Green` on an exact hit; otherwise `Yellow` as long as occurrences of
/// the letter in the target remain after paying for all exact hits and
/// for earlier misplaced occurrences of the same letter; `Gray` once
/// they are used up.
pub open spec fn feedback_spec_at(t: Seq<char>, g: Seq<char>, i: int) -> Feedback {
    if t[i] == g[i] {
        Feedback::Green
    } else if misplaced_prefix(t, g, g[i], i) + exact_count(t, g, g[i]) < count_char(t, g[i]) {
        Feedback::Yellow
    } else {
        Feedback::Gray
    }
}

/// The feedback the target `t` produces for the whole guess `g`.
pub open spec fn feedback_spec(t: Seq<char>, g: Seq<char>) -> Seq<Feedback> {
    Seq::new(g.len(), |i: int| feedback_spec_at(t, g, i))
}

/// Among the first `n` positions, how often the letter `c` earns `Yellow`
/// feedback from target `t`.
pub open spec fn yellow_prefix(t: Seq<char>, g: Seq<char>, c: char, n: int) -> nat {
    count_upto(n, |j: int| g[j] == c && feedback_spec_at(t, g, j) == Feedback::Yellow)
}

/// Among the first `n` positions, how often the letter `c` earns `Green`
/// feedback from target `t`.
pub open spec fn green_prefix(t: Seq<char>, g: Seq<char>, c: char, n: int) -> nat {
    count_upto(n, |j: int| g[j] == c && feedback_spec_at(t, g, j) == Feedback::Green)
}

/// Exact hits on a letter never outnumber its occurrences in the target.
proof fn lemma_exact_le_count_prefix(t: Seq<char>, g: Seq<char>, c: char, n: int)
    requires
        t.len() == g.len(),
        0 <= n <= g.len(),
    ensures
        exact_count_prefix(t, g, c, n) <= count_char_prefix(t, c, n),
    decreases n,
{
    if n > 0 {
        lemma_exact_le_count_prefix(t, g, c, n - 1);
    }
}

/// Exact hits on a letter never outnumber its occurrences in the target.
proof fn lemma_exact_le_count(t: Seq<char>, g: Seq<char>, c: char)
    requires
        t.len() == g.len(),
    ensures
        exact_count(t, g, c) <= count_char(t, c),
{
    lemma_exact_le_count_prefix(t, g, c, g.len() as int);
}

/// A guess never hints a letter more often than its word contains it.
pub proof fn lemma_hinted_le_word_count(w: Seq<char>, p: Seq<Feedback>, c: char, n: int)
    ensures
        hinted_count_prefix(w, p, c, n) <= count_char_prefix(w, c, n),
    decreases n,
{
    if n > 0 {
        lemma_hinted_le_word_count(w, p, c, n - 1);
    }
}

/// A prefix of the misplaced occurrences is no larger than a longer one.
proof fn lemma_misplaced_monotone(t: Seq<char>, g: Seq<char>, c: char, m: int, n: int)
    requires
        0 <= m <= n,
    ensures
        misplaced_prefix(t, g, c, m) <= misplaced_prefix(t, g, c, n),
    decreases n - m,
{
    if m < n {
        lemma_misplaced_monotone(t, g, c, m, n - 1);
    }
}

/// The yellow marks handed out for a letter track its misplaced
/// occurrences until the target's supply (beyond exact hits) runs out.
proof fn lemma_yellow_budget(t: Seq<char>, g: Seq<char>, c: char, n: int)
    requires
        t.len() == g.len(),
        0 <= n <= g.len(),
    ensures
        yellow_prefix(t, g, c, n) == if misplaced_prefix(t, g, c, n) + exact_count(t, g, c)
            <= count_char(t, c) {
            misplaced_prefix(t, g, c, n) as int
        } else {
            count_char(t, c) - exact_count(t, g, c)
        },
    decreases n,
{
    lemma_exact_le_count(t, g, c);
    if n > 0 {
        lemma_yellow_budget(t, g, c, n - 1);
    }
}

/// The green/yellow hints of the generated feedback split into the
/// exact hits and the yellow marks of the letter.
proof fn lemma_hint_split(t: Seq<char>, g: Seq<char>, c: char, n: int)
    requires
        t.len() == g.len(),
        0 <= n <= g.len(),
    ensures
        hinted_count_prefix(g, feedback_spec(t, g), c, n) == green_prefix(t, g, c, n)
            + yellow_prefix(t, g, c, n),
        green_prefix(t, g, c, n) == exact_count_prefix(t, g, c, n),
    decreases n,
{
    if n > 0 {
        lemma_hint_split(t, g, c, n - 1);
        assert(feedback_spec(t, g)[n - 1] == feedback_spec_at(t, g, n - 1));
    }
}

/// The green/yellow hints of the generated feedback for any letter add
/// up to at most the letter's count in the target.
proof fn lemma_hinted_of_generated(t: Seq<char>, g: Seq<char>, c: char)
    requires
        t.len() == g.len(),
    ensures
        hinted_count(g, feedback_spec(t, g), c) == exact_count(t, g, c) + yellow_prefix(
            t,
            g,
            c,
            g.len() as int,
        ),
        hinted_count(g, feedback_spec(t, g), c) <= count_char(t, c),
{
    let n = g.len() as int;
    lemma_hint_split(t, g, c, n);
    lemma_yellow_budget(t, g, c, n);
    lemma_exact_le_count(t, g, c);
}

/// The round trip: the feedback a target generates for a guess is always
/// consistent with the target itself.
pub proof fn lemma_generated_feedback_consistent(t: Seq<char>, g: Seq<char>)
    requires
        t.len() == g.len(),
    ensures
        feedback_consistent(t, g, feedback_spec(t, g)),
{
    let n = g.len() as int;
    let p = feedback_spec(t, g);
    assert forall|i: int| 0 <= i < n && p[i] == Feedback::Green implies t[i] == g[i] by {}
    assert forall|i: int| 0 <= i < n && p[i] == Feedback::Yellow implies t[i] != g[i]
        && count_char(t, g[i]) >= hinted_count(g, p, g[i]) by {
        lemma_hinted_of_generated(t, g, g[i]);
    }
    assert forall|i: int| 0 <= i < n && p[i] == Feedback::Gray implies count_char(t, g[i])
        <= hinted_count(g, p, g[i]) by {
        let c = g[i];
        lemma_hinted_of_generated(t, g, c);
        lemma_yellow_budget(t, g, c, n);
        lemma_exact_le_count(t, g, c);
        // The gray mark at `i` means the budget was already exhausted
        // there; by monotonicity it stays exhausted at the end.
        lemma_misplaced_monotone(t, g, c, i, n);
    }
}

/// Counts occurrences of `c` among the first `upto` characters of `s`.
pub(crate) fn count_char_upto(s: &str, c: char, upto: usize) -> (k: usize)
    requires
        upto <= s@.len(),
    ensures
        k == count_char_prefix(s@, c, upto as int),
{
    let mut k: usize = 0;
    for i in 0..upto
        invariant
            upto <= s@.len(),
            k == count_char_prefix(s@, c, i as int),
            k <= i,
    {
        if s.get_char(i) == c {
            k = k + 1;
        }
    }
    k
}

/// Counts occurrences of `c` in the whole of `s`.
pub(crate) fn count_char_in(s: &str, c: char) -> (k: usize)
    ensures
        k == count_char(s@, c),
{
    let n = s.unicode_len();
    count_char_upto(s, c, n)
}

/// Counts the green/yellow positions of the guess that carry letter `c`.
pub(crate) fn hinted_count_of(g: &str, p: &Vec<Feedback>, c: char) -> (k: usize)
    requires
        g@.len() == p@.len(),
    ensures
        k == hinted_count(g@, p@, c),
{
    let n = g.unicode_len();
    let mut k: usize = 0;
    for i in 0..n
        invariant
            n == g@.len(),
            g@.len() == p@.len(),
            k == hinted_count_prefix(g@, p@, c, i as int),
            k <= i,
    {
        let fb = p[i];
        if g.get_char(i) == c && (fb == Feedback::Green || fb == Feedback::Yellow) {
            k = k + 1;
        }
    }
    k
}

/// Decides whether candidate `word` is consistent with the feedback
/// `pattern` reported for `guess`.
pub fn matches(word: &str, guess: &str, pattern: &Vec<Feedback>) -> (r: bool)
    ensures
        r == feedback_consistent(word@, guess@, pattern@),
{
    let n = word.unicode_len();
    if n != guess.unicode_len() || guess.unicode_len() != pattern.len() {
        return false;
    }
    for i in 0..n
        invariant
            n == word@.len(),
            n == guess@.len(),
            n == pattern@.len(),
            forall|j: int|
                0 <= j < i && pattern@[j] == Feedback::Green ==> word@[j] == guess@[j],
            forall|j: int|
                0 <= j < i && pattern@[j] == Feedback::Yellow ==> word@[j] != guess@[j]
                    && count_char(word@, guess@[j]) >= hinted_count(guess@, pattern@, guess@[j]),
            forall|j: int|
                0 <= j < i && pattern@[j] == Feedback::Gray ==> count_char(word@, guess@[j])
                    <= hinted_count(guess@, pattern@, guess@[j]),
    {
        let c = guess.get_char(i);
        match pattern[i] {
            Feedback::Green => {
                if word.get_char(i) != c {
                    return false;
                }
            },
            Feedback::Yellow => {
                if word.get_char(i) == c {
                    return false;
                }
                if count_char_in(word, c) < hinted_count_of(guess, pattern, c) {
                    return false;
                }
            },
            Feedback::Gray => {
                if count_char_in(word, c) > hinted_count_of(guess, pattern, c) {
                    return false;
                }
            },
        }
    }
    true
}

/// Classification of a single pattern character: `G`/`g` for `Green`,
/// `Y`/`y` for `Yellow`, `X`/`x` for `Gray`; anything else is rejected.
pub open spec fn feedback_of_char(c: char) -> Option<Feedback> {
    if c == 'G' || c == 'g' {
        Some(Feedback::Green)
    } else if c == 'Y' || c == 'y' {
        Some(Feedback::Yellow)
    } else if c == 'X' || c == 'x' {
        Some(Feedback::Gray)
    } else {
        None
    }
}

impl Feedback {
    /// Reads one pattern character, handing back the character itself on
    /// failure.
    pub fn from_char(c: char) -> (r: Result<Feedback, char>)
        ensures
            r == match feedback_of_char(c) {
                Some(f) => Result::<Feedback, char>::Ok(f),
                None => Result::<Feedback, char>::Err(c),
            },
    {
        match c {
            'G' | 'g' => Ok(Feedback::Green),
            'Y' | 'y' => Ok(Feedback::Yellow),
            'X' | 'x' => Ok(Feedback::Gray),
            _ => Err(c),
        }
    }
}

/// A rejected feedback pattern, carrying the first character that is not
/// one of the recognized codes.
#[derive(Debug, Copy, Clone, PartialEq, Eq, Structural)]
pub struct ParseError {
    pub ch: char,
}

/// Parses a pattern string such as `GYXXG` into feedback, accepting the
/// three recognized code letters case-insensitively.  Rejects the input
/// on the first unrecognized character, naming it, with no partial
/// result.
pub fn parse_pattern(pattern: &str) -> (r: Result<Vec<Feedback>, ParseError>)
    ensures
        r is Ok <==> (forall|i: int|
            0 <= i < pattern@.len() ==> #[trigger] feedback_of_char(pattern@[i]) is Some),
        r matches Ok(v) ==> v@.len() == pattern@.len() && (forall|i: int|
            0 <= i < pattern@.len() ==> #[trigger] feedback_of_char(pattern@[i]) == Some(v@[i])),
        r matches Err(e) ==> exists|i: int|
            0 <= i < pattern@.len() && #[trigger] feedback_of_char(pattern@[i]) is None && e.ch
                == pattern@[i] && (forall|j: int|
                0 <= j < i ==> #[trigger] feedback_of_char(pattern@[j]) is Some),
{
    let n = pattern.unicode_len();
    let mut v: Vec<Feedback> = Vec::new();
    for i in 0..n
        invariant
            n == pattern@.len(),
            v@.len() == i,
            forall|j: int|
                0 <= j < i ==> #[trigger] feedback_of_char(pattern@[j]) == Some(v@[j]),
    {
        match Feedback::from_char(pattern.get_char(i)) {
            Ok(f) => v.push(f),
            Err(c) => {
                return Err(ParseError { ch: c });
            },
        }
    }
    Ok(v)
}

/// A guessed word together with the feedback it received.
#[derive(Debug, Clone)]
pub struct Guess {
    pub word: String,
    pub feedback: Vec<Feedback>,
}

impl Guess {
    pub fn new(word: String, feedback: Vec<Feedback>) -> (r: Guess)
        ensures
            r.word == word,
            r.feedback == feedback,
    {
        Guess { word, feedback }
    }
}

/// A guess whose word and feedback both have the session's word length.
pub open spec fn guess_wf(g: Guess, n: nat) -> bool {
    g.word@.len() == n && g.feedback@.len() == n
}

/// Whether the candidate word `w` survives every guess of the history
/// `h` in a session with word length `n`.
pub open spec fn keeps(h: Seq<Guess>, n: nat, w: String) -> bool {
    &&& w@.len() == n
    &&& forall|i: int|
        0 <= i < h.len() ==> feedback_consistent(w@, #[trigger] h[i].word@, h[i].feedback@)
}

/// The candidate pool: the dictionary filtered to the words consistent
/// with the whole history, in dictionary order.
pub open spec fn pool(h: Seq<Guess>, n: nat, words: Seq<String>) -> Seq<String> {
    words.filter(|w: String| keeps(h, n, w))
}

/// The constraint engine: a fixed word length and an ordered history of
/// guesses, appended to as the session advances and undone strictly
/// last-in-first-out.
#[derive(Debug)]
pub struct SolverState {
    word_len: usize,
    guesses: Vec<Guess>,
}

impl SolverState {
    /// The session's word length.
    pub closed spec fn word_len_spec(&self) -> nat {
        self.word_len as nat
    }

    /// The ordered guess history.
    pub closed spec fn history(&self) -> Seq<Guess> {
        self.guesses@
    }

    /// Every stored guess fits the session's word length.
    pub open spec fn wf(&self) -> bool {
        &&& self.word_len_spec() > 0
    &&& forall|i: int|
            0 <= i < self.history().len() ==> guess_wf(
                #[trigger] self.history()[i],
                self.word_len_spec(),
            )
    }

    /// Starts a session for words of length `word_len` with no guesses.
    pub fn new(word_len: usize) -> (r: SolverState)
        requires
            word_len > 0,
        ensures
            r.wf(),
            r.word_len_spec() == word_len,
            r.history() == Seq::<Guess>::empty(),
    {
        SolverState { word_len, guesses: Vec::new() }
    }

    pub fn word_len(&self) -> (n: usize)
        ensures
            n == self.word_len_spec(),
    {
        self.word_len
    }

    pub fn guesses(&self) -> (r: &Vec<Guess>)
        ensures
            r@ == self.history(),
    {
        &self.guesses
    }

    /// Removes the most recent guess; does nothing on an empty history.
    pub fn pop_guess(&mut self)
        ensures
            final(self).word_len_spec() == old(self).word_len_spec(),
            final(self).history() == if old(self).history().len() == 0 {
                old(self).history()
            } else {
                old(self).history().drop_last()
            },
            old(self).wf() ==> final(self).wf(),
    {
        let _ = self.guesses.pop();
    }

    /// Appends a guess.  The caller must supply a word and feedback of
    /// the session's exact length; anything else is caller misuse, which
    /// this library rules out by precondition rather than by aborting.
    pub fn add_guess(&mut self, guess: Guess)
        requires
            old(self).wf(),
            guess.word@.len() == old(self).word_len_spec(),
            guess.feedback@.len() == old(self).word_len_spec(),
        ensures
            final(self).wf(),
            final(self).word_len_spec() == old(self).word_len_spec(),
            final(self).history() == old(self).history().push(guess),
    {
        self.guesses.push(guess);
        proof {
            assert forall|i: int|
                0 <= i < self.history().len() implies guess_wf(
                #[trigger] self.history()[i],
                self.word_len_spec(),
            ) by {
                if i < old(self).history().len() {
                    assert(self.history()[i] == old(self).history()[i]);
                } else {
                    assert(self.history()[i] == guess);
                }
            }
        }
    }

    /// Filters the dictionary down to the candidate pool: the words of
    /// the session's length that are consistent with every stored guess,
    /// in dictionary order.
    pub fn filter(&self, words: &Vec<String>) -> (r: Vec<String>)
        requires
            self.wf(),
        ensures
            r@ == pool(self.history(), self.word_len_spec(), words@),
    {
        let ghost hist = self.history();
        let ghost n_spec = self.word_len_spec();
        let mut r: Vec<String> = Vec::new();
        for i in 0..words.len()
            invariant
                self.wf(),
                hist == self.history(),
                n_spec == self.word_len_spec(),
                r@ == pool(hist, n_spec, words@.take(i as int)),
        {
            let w = &words[i];
            let ok = w.unicode_len() == self.word_len && consistent_with_all(w, &self.guesses);
            proof {
                broadcast use vstd::prelude::Seq::lemma_filter_push;

                assert(words@.take(i + 1) =~= words@.take(i as int).push(words@[i as int]));
                assert(pool(hist, n_spec, words@.take(i + 1)) == pool(
                    hist,
                    n_spec,
                    words@.take(i as int).push(words@[i as int]),
                ));
                assert(ok == keeps(hist, n_spec, words@[i as int]));
            }
            if ok {
                r.push(w.clone());
            }
        }
        proof {
            assert(words@.take(words@.len() as int) =~= words@);
        }
        r
    }
}

/// Whether `w` is consistent with every guess in the list.
fn consistent_with_all(w: &String, guesses: &Vec<Guess>) -> (r: bool)
    ensures
        r == (forall|j: int|
            0 <= j < guesses@.len() ==> feedback_consistent(
                w@,
                #[trigger] guesses@[j].word@,
                guesses@[j].feedback@,
            )),
{
    for k in 0..guesses.len()
        invariant
            forall|j: int|
                0 <= j < k ==> feedback_consistent(
                    w@,
                    #[trigger] guesses@[j].word@,
                    guesses@[j].feedback@,
                ),
    {
        if !matches(w, &guesses[k].word, &guesses[k].feedback) {
            proof {
                assert(!feedback_consistent(
                    w@,
                    guesses@[k as int].word@,
                    guesses@[k as int].feedback@,
                ));
            }
            return false;
        }
    }
    true
}

/// Filtering an unchanged engine twice against the same dictionary
/// yields identical output: the pool is a function of the history, the
/// word length and the dictionary alone.
pub proof fn lemma_filter_deterministic(
    h: Seq<Guess>,
    n: nat,
    words: Seq<String>,
    r1: Seq<String>,
    r2: Seq<String>,
)
    requires
        r1 == pool(h, n, words),
        r2 == pool(h, n, words),
    ensures
        r1 == r2,
{
}

/// Appending a guess never grows the candidate pool.
pub proof fn lemma_add_guess_narrows(h: Seq<Guess>, g: Guess, n: nat, words: Seq<String>)
    ensures
        pool(h.push(g), n, words).len() <= pool(h, n, words).len(),
    decreases words.len(),
{
    broadcast use vstd::prelude::Seq::lemma_filter_push;

    if words.len() > 0 {
        let prefix = words.drop_last();
        lemma_add_guess_narrows(h, g, n, prefix);
        let last = words.last();
        assert(words =~= prefix.push(last));
        if keeps(h.push(g), n, last) {
            assert forall|i: int|
                0 <= i < h.len() implies feedback_consistent(
                last@,
                #[trigger] h[i].word@,
                h[i].feedback@,
            ) by {
                assert(h.push(g)[i] == h[i]);
            }
            assert(keeps(h, n, last));
        }
    }
}

/// Adding a guess and then undoing it restores the previous pool for
/// every dictionary: the undo is an exact inverse of the addition as far
/// as filtering is concerned.
pub proof fn lemma_undo_restores_pool(h: Seq<Guess>, g: Guess, n: nat, words: Seq<String>)
    ensures
        pool(h.push(g).drop_last(), n, words) == pool(h, n, words),
{
    assert(h.push(g).drop_last() =~= h);
}

/// The words of the dictionary consistent with one guess and its
/// feedback, in dictionary order.
pub open spec fn matching_words(words: Seq<String>, g: Seq<char>, p: Seq<Feedback>) -> Seq<
    String,
> {
    words.filter(|w: String| feedback_consistent(w@, g, p))
}

/// Filters a dictionary against a single guess and its feedback,
/// keeping the consistent words in dictionary order.
pub fn filter_words(words: &Vec<String>, guess: &str, pattern: &Vec<Feedback>) -> (r: Vec<String>)
    ensures
        r@ == matching_words(words@, guess@, pattern@),
{
    let mut r: Vec<String> = Vec::new();
    for i in 0..words.len()
        invariant
            r@ == matching_words(words@.take(i as int), guess@, pattern@),
    {
        let w = &words[i];
        proof {
            broadcast use vstd::prelude::Seq::lemma_filter_push;

            assert(words@.take(i + 1) =~= words@.take(i as int).push(words@[i as int]));
            assert(matching_words(words@.take(i + 1), guess@, pattern@) == matching_words(
                words@.take(i as int).push(words@[i as int]),
                guess@,
                pattern@,
            ));
        }
        if matches(w, guess, pattern) {
            r.push(w.clone());
        }
    }
    proof {
        assert(words@.take(words@.len() as int) =~= words@);
    }
    r
}

/// Counts, below `upto`, the positions where the guess places `c` on a
/// differing target letter.
fn misplaced_upto(t: &str, g: &str, c: char, upto: usize) -> (k: usize)
    requires
        t@.len() == g@.len(),
        upto <= g@.len(),
    ensures
        k == misplaced_prefix(t@, g@, c, upto as int),
{
    let mut k: usize = 0;
    for i in 0..upto
        invariant
            t@.len() == g@.len(),
            upto <= g@.len(),
            k == misplaced_prefix(t@, g@, c, i as int),
            k <= i,
    {
        if g.get_char(i) == c && t.get_char(i) != g.get_char(i) {
            k = k + 1;
        }
    }
    k
}

/// Counts the exact hits of letter `c` across the whole guess.
fn exact_count_of(t: &str, g: &str, c: char) -> (k: usize)
    requires
        t@.len() == g@.len(),
    ensures
        k == exact_count(t@, g@, c),
{
    let n = g.unicode_len();
    let mut k: usize = 0;
    for i in 0..n
        invariant
            t@.len() == g@.len(),
            n == g@.len(),
            k == exact_count_prefix(t@, g@, c, i as int),
            k <= i,
    {
        if t.get_char(i) == g.get_char(i) && g.get_char(i) == c {
            k = k + 1;
        }
    }
    k
}

/// Computes the feedback the known `target` produces for `guess`:
/// exact hits first, then `Yellow` for misplaced letters while the
/// target still has unaccounted occurrences, `Gray` afterwards.  The
/// result is always consistent with the target itself.
pub fn generate_feedback(target: &str, guess: &str) -> (r: Vec<Feedback>)
    requires
        target@.len() == guess@.len(),
    ensures
        r@ == feedback_spec(target@, guess@),
        feedback_consistent(target@, guess@, r@),
{
    let n = guess.unicode_len();
    let mut r: Vec<Feedback> = Vec::new();
    for i in 0..n
        invariant
            target@.len() == guess@.len(),
            n == guess@.len(),
            r@.len() == i,
            forall|j: int| 0 <= j < i ==> r@[j] == feedback_spec_at(target@, guess@, j),
    {
        let c = guess.get_char(i);
        if target.get_char(i) == c {
            r.push(Feedback::Green);
        } else {
            let m = misplaced_upto(target, guess, c, i);
            let e = exact_count_of(target, guess, c);
            let total = count_char_in(target, c);
            // `m + e < total`, tested without risking overflow.
            if m < total && e < total - m {
                r.push(Feedback::Yellow);
            } else {
                r.push(Feedback::Gray);
            }
        }
    }
    proof {
        assert(r@ =~= feedback_spec(target@, guess@));
        lemma_generated_feedback_consistent(target@, guess@);
    }
    r
}

} // verus!
