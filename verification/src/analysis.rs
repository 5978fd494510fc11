//! Descriptive statistics over the candidate pool.
//!
//! Everything here is derived data, recomputed in full from the current
//! pool and guess history: per-letter coverage counts, per-position
//! letter sets and frequencies, a replay of the history into a
//! human-readable constraint summary, and the integer core of the pool
//! statistics.  Nothing here feeds back into filtering.

use vstd::prelude::*;

use crate::counting::count_upto;
use crate::scoring::contains_char;
use crate::scoring::coverage;
use crate::scoring::coverage_of;
use crate::scoring::coverage_prefix;
use crate::solver::count_char;
use crate::solver::hinted_count;
use crate::solver::Feedback;
use crate::solver::Guess;

verus! {

/// A per-letter table with no letter listed twice.
pub open spec fn distinct_keys(t: Seq<(char, usize)>) -> bool {
    forall|k: int, l: int| 0 <= k < l < t.len() ==> t[k].0 != t[l].0
}

/// A table listing, for every letter that occurs in some candidate, how
/// many distinct candidates contain it.
pub open spec fn is_coverage_table(t: Seq<(char, usize)>, words: Seq<String>) -> bool {
    &&& distinct_keys(t)
    &&& forall|k: int|
        0 <= k < t.len() ==> (#[trigger] t[k].1) == coverage(words, t[k].0) && t[k].1 > 0
    &&& forall|c: char| coverage(words, c) > 0 ==> exists|k: int| 0 <= k < t.len() && t[k].0 == c
}

/// Per-letter coverage counts over the candidate pool, with the count
/// of candidates and the largest coverage for display scaling.
pub struct LetterAnalysis {
    pub frequencies: Vec<(char, usize)>,
    pub total_words: usize,
    pub max_frequency: usize,
}

impl LetterAnalysis {
    /// Looks up the coverage count recorded for `c`, if any.
    pub fn get(&self, c: char) -> (r: Option<usize>)
        ensures
            match r {
                Some(v) => exists|k: int|
                    0 <= k < self.frequencies@.len() && #[trigger] self.frequencies@[k] == (c, v),
                None => forall|k: int|
                    0 <= k < self.frequencies@.len() ==> (#[trigger] self.frequencies@[k]).0 != c,
            },
    {
        for k in 0..self.frequencies.len()
            invariant
                forall|j: int|
                    0 <= j < k ==> (#[trigger] self.frequencies@[j]).0 != c,
        {
            if self.frequencies[k].0 == c {
                return Some(self.frequencies[k].1);
            }
        }
        None
    }
}

/// Whether `v` holds the character `c`.
pub(crate) fn vec_contains_char(v: &Vec<char>, c: char) -> (r: bool)
    ensures
        r == v@.contains(c),
{
    for i in 0..v.len()
        invariant
            forall|j: int| 0 <= j < i ==> v@[j] != c,
    {
        if v[i] == c {
            proof {
                assert(v@[i as int] == c);
            }
            return true;
        }
    }
    false
}

/// Collects the distinct letters occurring anywhere in the candidate
/// list, each at its first appearance.
fn distinct_letters_of(words: &Vec<String>) -> (letters: Vec<char>)
    ensures
        forall|k: int, l: int| 0 <= k < l < letters@.len() ==> letters@[k] != letters@[l],
        forall|c: char| letters@.contains(c) <==> coverage(words@, c) > 0,
{
    let mut letters: Vec<char> = Vec::new();
    for i in 0..words.len()
        invariant
            forall|k: int, l: int| 0 <= k < l < letters@.len() ==> letters@[k] != letters@[l],
            forall|c: char| letters@.contains(c) <==> coverage_prefix(words@, c, i as int) > 0,
    {
        let w = &words[i];
        let n = w.as_str().unicode_len();
        for j in 0..n
            invariant
                n == w@.len(),
                w@ == words@[i as int]@,
                forall|k: int, l: int| 0 <= k < l < letters@.len() ==> letters@[k] != letters@[l],
                forall|c: char|
                    letters@.contains(c) <==> (coverage_prefix(words@, c, i as int) > 0
                        || crate::solver::count_char_prefix(w@, c, j as int) > 0),
        {
            let c = w.as_str().get_char(j);
            if !vec_contains_char(&letters, c) {
                let ghost old_letters = letters@;
                letters.push(c);
                proof {
                    assert forall|x: char| letters@.contains(x) implies (coverage_prefix(
                        words@,
                        x,
                        i as int,
                    ) > 0 || crate::solver::count_char_prefix(w@, x, j + 1) > 0) by {
                        let k = choose|k: int| 0 <= k < letters@.len() && letters@[k] == x;
                        if k < old_letters.len() {
                            assert(old_letters[k] == x);
                            assert(old_letters.contains(x));
                        }
                    }
                    assert forall|x: char|
                        (coverage_prefix(words@, x, i as int) > 0 || crate::solver::count_char_prefix(
                            w@,
                            x,
                            j + 1,
                        ) > 0) implies letters@.contains(x) by {
                        if x == c {
                            assert(letters@[old_letters.len() as int] == c);
                        } else {
                            assert(old_letters.contains(x));
                            let k = choose|k: int|
                                0 <= k < old_letters.len() && old_letters[k] == x;
                            assert(letters@[k] == x);
                        }
                    }
                }
            } else {
                proof {
                    assert(crate::solver::count_char_prefix(w@, c, j + 1) > 0);
                }
            }
        }
        proof {
            assert forall|c: char|
                letters@.contains(c) == (coverage_prefix(words@, c, i + 1) > 0) by {
                assert(contains_char(words@[i as int]@, c) == (crate::solver::count_char_prefix(
                    w@,
                    c,
                    n as int,
                ) > 0));
            }
        }
    }
    letters
}

/// Builds the coverage table for the candidate list.
pub(crate) fn coverage_table(words: &Vec<String>) -> (t: Vec<(char, usize)>)
    ensures
        is_coverage_table(t@, words@),
{
    let letters = distinct_letters_of(words);
    let mut t: Vec<(char, usize)> = Vec::new();
    for k in 0..letters.len()
        invariant
            forall|a: int, b: int| 0 <= a < b < letters@.len() ==> letters@[a] != letters@[b],
            forall|c: char| letters@.contains(c) <==> coverage(words@, c) > 0,
            t@.len() == k,
            forall|a: int| 0 <= a < k ==> (#[trigger] t@[a]).0 == letters@[a],
            forall|a: int|
                0 <= a < k ==> (#[trigger] t@[a]).1 == coverage(words@, t@[a].0) && t@[a].1 > 0,
    {
        let c = letters[k];
        let cov = coverage_of(words, c);
        proof {
            assert(letters@[k as int] == c);
            assert(letters@.contains(c));
        }
        t.push((c, cov));
    }
    proof {
        assert forall|c: char| coverage(words@, c) > 0 implies exists|a: int|
            0 <= a < t@.len() && t@[a].0 == c by {
            assert(letters@.contains(c));
            let a = choose|a: int| 0 <= a < letters@.len() && letters@[a] == c;
            assert(t@[a].0 == c);
        }
    }
    t
}

/// Computes the per-letter coverage counts over the candidates, the
/// number of candidates, and the largest coverage count.
pub fn compute_letter_analysis(words: &Vec<String>) -> (r: LetterAnalysis)
    ensures
        r.total_words == words@.len(),
        is_coverage_table(r.frequencies@, words@),
        forall|k: int|
            0 <= k < r.frequencies@.len() ==> (#[trigger] r.frequencies@[k]).1 <= r.max_frequency,
        r.frequencies@.len() == 0 ==> r.max_frequency == 0,
        r.frequencies@.len() > 0 ==> exists|k: int|
            0 <= k < r.frequencies@.len() && (#[trigger] r.frequencies@[k]).1 == r.max_frequency,
{
    let t = coverage_table(words);
    let mut max: usize = 0;
    for k in 0..t.len()
        invariant
            is_coverage_table(t@, words@),
            forall|a: int| 0 <= a < k ==> (#[trigger] t@[a]).1 <= max,
            max == 0 ==> k == 0 || t@.len() == 0,
            k > 0 && max > 0 ==> exists|a: int| 0 <= a < k && (#[trigger] t@[a]).1 == max,
            k == 0 ==> max == 0,
    {
        if t[k].1 > max {
            max = t[k].1;
        }
        proof {
            assert(t@[k as int].1 > 0);
        }
    }
    LetterAnalysis { frequencies: t, total_words: words.len(), max_frequency: max }
}

/// Among the first `n` candidates, how many carry the letter `c` at
/// position `pos`.
pub open spec fn position_count_prefix(words: Seq<String>, pos: int, c: char, n: int) -> nat {
    count_upto(n, |i: int| words[i]@[pos] == c)
}

/// How many candidates carry the letter `c` at position `pos`.
pub open spec fn position_count(words: Seq<String>, pos: int, c: char) -> nat {
    position_count_prefix(words, pos, c, words.len() as int)
}

/// A table listing, for every letter observed at position `pos`, in how
/// many candidates it stands there.
pub open spec fn is_position_table(t: Seq<(char, usize)>, words: Seq<String>, pos: int) -> bool {
    &&& distinct_keys(t)
    &&& forall|k: int|
        0 <= k < t.len() ==> (#[trigger] t[k].1) == position_count(words, pos, t[k].0) && t[k].1
            > 0
    &&& forall|c: char|
        position_count(words, pos, c) > 0 ==> exists|k: int| 0 <= k < t.len() && t[k].0 == c
}

/// Per-position letter statistics over the candidate pool: for each
/// position the letters observed there in order of descending
/// frequency, the letter that stands there if only one ever does, and
/// the per-position frequency table.
pub struct PositionAnalysis {
    pub possible_letters: Vec<Vec<char>>,
    pub solved_positions: Vec<Option<char>>,
    pub position_frequencies: Vec<Vec<(char, usize)>>,
}

/// Counts the candidates carrying `c` at position `p`.
fn position_count_of(words: &Vec<String>, p: usize, c: char) -> (k: usize)
    requires
        forall|i: int| 0 <= i < words@.len() ==> p < (#[trigger] words@[i])@.len(),
    ensures
        k == position_count(words@, p as int, c),
{
    let mut k: usize = 0;
    for i in 0..words.len()
        invariant
            forall|t: int| 0 <= t < words@.len() ==> p < (#[trigger] words@[t])@.len(),
            k == position_count_prefix(words@, p as int, c, i as int),
            k <= i,
    {
        if words[i].as_str().get_char(p) == c {
            k = k + 1;
        }
    }
    k
}

/// Collects the distinct letters observed at position `p`, in order of
/// first appearance.
fn position_letters_of(words: &Vec<String>, p: usize) -> (letters: Vec<char>)
    requires
        forall|i: int| 0 <= i < words@.len() ==> p < (#[trigger] words@[i])@.len(),
    ensures
        forall|k: int, l: int| 0 <= k < l < letters@.len() ==> letters@[k] != letters@[l],
        forall|c: char| letters@.contains(c) <==> position_count(words@, p as int, c) > 0,
{
    let mut letters: Vec<char> = Vec::new();
    for i in 0..words.len()
        invariant
            forall|t: int| 0 <= t < words@.len() ==> p < (#[trigger] words@[t])@.len(),
            forall|k: int, l: int| 0 <= k < l < letters@.len() ==> letters@[k] != letters@[l],
            forall|c: char|
                letters@.contains(c) <==> position_count_prefix(words@, p as int, c, i as int) > 0,
    {
        let c = words[i].as_str().get_char(p);
        if !vec_contains_char(&letters, c) {
            let ghost old_letters = letters@;
            letters.push(c);
            proof {
                assert forall|x: char|
                    letters@.contains(x) == (position_count_prefix(words@, p as int, x, i + 1)
                        > 0) by {
                    if letters@.contains(x) {
                        let k = choose|k: int| 0 <= k < letters@.len() && letters@[k] == x;
                        if k < old_letters.len() {
                            assert(old_letters[k] == x);
                            assert(old_letters.contains(x));
                        }
                    }
                    if position_count_prefix(words@, p as int, x, i + 1) > 0 {
                        if x == c {
                            assert(letters@[old_letters.len() as int] == c);
                        } else if position_count_prefix(words@, p as int, x, i as int) > 0 {
                            assert(old_letters.contains(x));
                            let k = choose|k: int|
                                0 <= k < old_letters.len() && old_letters[k] == x;
                            assert(letters@[k] == x);
                        }
                    }
                }
            }
        } else {
            proof {
                assert(position_count_prefix(words@, p as int, c, i + 1) > 0);
            }
        }
    }
    letters
}

/// Builds the frequency table for position `p` and returns it twice:
/// once in order of first appearance and once sorted by descending
/// count.
fn position_table_of(words: &Vec<String>, p: usize) -> (r: (Vec<(char, usize)>, Vec<(char, usize)>))
    requires
        forall|i: int| 0 <= i < words@.len() ==> p < (#[trigger] words@[i])@.len(),
    ensures
        is_position_table(r.0@, words@, p as int),
        is_position_table(r.1@, words@, p as int),
        r.1@.len() == r.0@.len(),
        forall|k: int, l: int| 0 <= k < l < r.1@.len() ==> r.1@[k].1 >= r.1@[l].1,
{
    let letters = position_letters_of(words, p);
    let mut t: Vec<(char, usize)> = Vec::new();
    for k in 0..letters.len()
        invariant
            forall|i: int| 0 <= i < words@.len() ==> p < (#[trigger] words@[i])@.len(),
            forall|a: int, b: int| 0 <= a < b < letters@.len() ==> letters@[a] != letters@[b],
            forall|c: char| letters@.contains(c) <==> position_count(words@, p as int, c) > 0,
            t@.len() == k,
            forall|a: int| 0 <= a < k ==> (#[trigger] t@[a]).0 == letters@[a],
            forall|a: int|
                0 <= a < k ==> (#[trigger] t@[a]).1 == position_count(words@, p as int, t@[a].0)
                    && t@[a].1 > 0,
    {
        let c = letters[k];
        proof {
            assert(letters@[k as int] == c);
            assert(letters@.contains(c));
        }
        t.push((c, position_count_of(words, p, c)));
    }
    proof {
        assert forall|c: char| position_count(words@, p as int, c) > 0 implies exists|a: int|
            0 <= a < t@.len() && (#[trigger] t@[a]).0 == c by {
            assert(letters@.contains(c));
            let a = choose|a: int| 0 <= a < letters@.len() && letters@[a] == c;
            assert(t@[a].0 == c);
        }
    }
    let sorted = sort_table_desc(&t);
    proof {
        assert forall|c: char|
            #[trigger] position_count(words@, p as int, c) > 0 implies exists|k: int|
            0 <= k < sorted@.len() && (#[trigger] sorted@[k]).0 == c by {
            let k = choose|k: int| 0 <= k < t@.len() && (#[trigger] t@[k]).0 == c;
            assert(sorted@.contains(t@[k]));
            let a = choose|a: int| 0 <= a < sorted@.len() && sorted@[a] == t@[k];
            assert(sorted@[a].0 == c);
        }
        assert forall|k: int|
            0 <= k < sorted@.len() implies (#[trigger] sorted@[k]).1 == position_count(
            words@,
            p as int,
            sorted@[k].0,
        ) && sorted@[k].1 > 0 by {
            assert(t@.contains(sorted@[k]));
            let b = choose|b: int| 0 <= b < t@.len() && t@[b] == sorted@[k as int];
        }
    }
    (t, sorted)
}

/// Two tables that list each other's entries.
pub open spec fn same_entries(a: Seq<(char, usize)>, b: Seq<(char, usize)>) -> bool {
    &&& forall|k: int| 0 <= k < a.len() ==> b.contains(#[trigger] a[k])
    &&& forall|k: int| 0 <= k < b.len() ==> a.contains(#[trigger] b[k])
}

/// Sorts a per-letter table by descending count.  The result holds
/// exactly the entries of the input; distinct keys stay distinct.
#[verifier::rlimit(100)]
fn sort_table_desc(t: &Vec<(char, usize)>) -> (sorted: Vec<(char, usize)>)
    ensures
        sorted@.len() == t@.len(),
        forall|a: int, b: int| 0 <= a < b < sorted@.len() ==> sorted@[a].1 >= sorted@[b].1,
        same_entries(t@, sorted@),
        distinct_keys(t@) ==> distinct_keys(sorted@),
{
    let n = t.len();
    let mut sorted: Vec<(char, usize)> = Vec::new();
    let ghost mut perm: Seq<int> = Seq::empty();
    let ghost mut inv: Seq<int> = Seq::empty();
    for k in 0..n
        invariant
            n == t@.len(),
            sorted@.len() == k,
            perm.len() == k,
            inv.len() == k,
            forall|a: int| 0 <= a < k ==> 0 <= #[trigger] perm[a] < k,
            forall|a: int, b: int| 0 <= a < b < k ==> perm[a] != perm[b],
            forall|a: int| 0 <= a < k ==> #[trigger] sorted@[a] == t@[perm[a]],
            forall|b: int| 0 <= b < k ==> 0 <= #[trigger] inv[b] < k && sorted@[inv[b]] == t@[b],
            forall|a: int, b: int| 0 <= a < b < k ==> sorted@[a].1 >= sorted@[b].1,
    {
        let cur = (t[k].0, t[k].1);
        let mut q: usize = 0;
        while q < sorted.len() && sorted[q].1 >= cur.1
            invariant
                q <= sorted@.len(),
                forall|a: int| 0 <= a < q ==> (#[trigger] sorted@[a]).1 >= cur.1,
            decreases sorted@.len() - q,
        {
            q = q + 1;
        }
        let ghost old_sorted = sorted@;
        let ghost old_perm = perm;
        let ghost old_inv = inv;
        sorted.insert(q, cur);
        proof {
            old_sorted.insert_ensures(q as int, cur);
            old_perm.insert_ensures(q as int, k as int);
            perm = old_perm.insert(q as int, k as int);
            inv = Seq::new(
                (k + 1) as nat,
                |b: int|
                    if b == k {
                        q as int
                    } else if old_inv[b] < q {
                        old_inv[b]
                    } else {
                        old_inv[b] + 1
                    },
            );
            assert(t@[k as int] == cur);
            assert forall|a: int| 0 <= a < k + 1 implies 0 <= #[trigger] perm[a] < k + 1 by {
                if a < q {
                    assert(perm[a] == old_perm[a]);
                } else if a > q {
                    assert(perm[a] == old_perm[a - 1]);
                }
            }
            assert forall|a: int, b: int| 0 <= a < b < k + 1 implies perm[a] != perm[b] by {
                if a < q {
                    assert(perm[a] == old_perm[a]);
                } else if a > q {
                    assert(perm[a] == old_perm[a - 1]);
                }
                if b < q {
                    assert(perm[b] == old_perm[b]);
                } else if b > q {
                    assert(perm[b] == old_perm[b - 1]);
                }
            }
            assert forall|a: int| 0 <= a < k + 1 implies #[trigger] sorted@[a] == t@[perm[a]] by {
                if a < q {
                    assert(sorted@[a] == old_sorted[a]);
                    assert(perm[a] == old_perm[a]);
                } else if a > q {
                    assert(sorted@[a] == old_sorted[a - 1]);
                    assert(perm[a] == old_perm[a - 1]);
                }
            }
            assert forall|b: int|
                0 <= b < k + 1 implies 0 <= #[trigger] inv[b] < k + 1 && sorted@[inv[b]]
                == t@[b] by {
                if b < k {
                    if old_inv[b] < q {
                        assert(inv[b] == old_inv[b]);
                        assert(sorted@[old_inv[b]] == old_sorted[old_inv[b]]);
                    } else {
                        assert(inv[b] == old_inv[b] + 1);
                        assert(sorted@[old_inv[b] + 1] == old_sorted[old_inv[b]]);
                    }
                } else {
                    assert(inv[b] == q as int);
                    assert(sorted@[q as int] == cur);
                }
            }
            assert forall|a: int, b: int|
                0 <= a < b < k + 1 implies sorted@[a].1 >= sorted@[b].1 by {
                if a < q && b > q {
                    assert(sorted@[a] == old_sorted[a]);
                    assert(sorted@[b] == old_sorted[b - 1]);
                }
                if a == q && b > q {
                    assert(old_sorted[q as int].1 < cur.1);
                    assert(sorted@[b] == old_sorted[b - 1]);
                }
            }
        }
    }
    proof {
        assert forall|a: int| 0 <= a < sorted@.len() implies t@.contains(#[trigger] sorted@[a]) by {
            assert(t@[perm[a]] == sorted@[a]);
        }
        assert forall|b: int| 0 <= b < t@.len() implies sorted@.contains(#[trigger] t@[b]) by {
            assert(sorted@[inv[b]] == t@[b]);
        }
        if distinct_keys(t@) {
            assert forall|a: int, b: int|
                0 <= a < b < sorted@.len() implies sorted@[a].0 != sorted@[b].0 by {
                assert(sorted@[a] == t@[perm[a]]);
                assert(sorted@[b] == t@[perm[b]]);
                if perm[a] < perm[b] {
                    assert(t@[perm[a]].0 != t@[perm[b]].0);
                } else {
                    assert(t@[perm[b]].0 != t@[perm[a]].0);
                }
            }
        }
    }
    sorted
}

/// Computes, for every position of the session's word length, the set
/// of letters observed there across the candidates (ordered by
/// descending frequency), the per-position frequency table, and the
/// letter a position is pinned to when only a single letter ever
/// appears there.
pub fn compute_position_analysis(words: &Vec<String>, solver: &crate::solver::SolverState) -> (r:
    PositionAnalysis)
    requires
        solver.wf(),
        forall|i: int|
            0 <= i < words@.len() ==> (#[trigger] words@[i])@.len() == solver.word_len_spec(),
    ensures
        r.possible_letters@.len() == solver.word_len_spec(),
        r.solved_positions@.len() == solver.word_len_spec(),
        r.position_frequencies@.len() == solver.word_len_spec(),
        forall|p: int, k: int, l: int|
            #![trigger r.possible_letters@[p]@[k], r.possible_letters@[p]@[l]]
            0 <= p < r.possible_letters@.len() && 0 <= k < l < r.possible_letters@[p]@.len()
                ==> r.possible_letters@[p]@[k] != r.possible_letters@[p]@[l],
        forall|p: int, c: char|
            0 <= p < r.possible_letters@.len() ==> ((#[trigger] r.possible_letters@[p]@.contains(c))
                <==> position_count(words@, p, c) > 0),
        forall|p: int, k: int, l: int|
            #![trigger r.possible_letters@[p]@[k], r.possible_letters@[p]@[l]]
            0 <= p < r.possible_letters@.len() && 0 <= k < l < r.possible_letters@[p]@.len()
                ==> position_count(words@, p, r.possible_letters@[p]@[k]) >= position_count(
                words@,
                p,
                r.possible_letters@[p]@[l],
            ),
        forall|p: int|
            0 <= p < r.position_frequencies@.len() ==> is_position_table(
                (#[trigger] r.position_frequencies@[p])@,
                words@,
                p,
            ),
        forall|p: int|
            0 <= p < r.solved_positions@.len() ==> #[trigger] r.solved_positions@[p] == (
            if r.possible_letters@[p]@.len() == 1 {
                Some(r.possible_letters@[p]@[0])
            } else {
                None::<char>
            }),
{
    let word_len = solver.word_len();
    let mut possible_letters: Vec<Vec<char>> = Vec::new();
    let mut solved_positions: Vec<Option<char>> = Vec::new();
    let mut position_frequencies: Vec<Vec<(char, usize)>> = Vec::new();
    for p in 0..word_len
        invariant
            word_len == solver.word_len_spec(),
            forall|i: int|
                0 <= i < words@.len() ==> (#[trigger] words@[i])@.len() == solver.word_len_spec(),
            possible_letters@.len() == p,
            solved_positions@.len() == p,
            position_frequencies@.len() == p,
            forall|q: int, k: int, l: int|
                #![trigger possible_letters@[q]@[k], possible_letters@[q]@[l]]
                0 <= q < p && 0 <= k < l < possible_letters@[q]@.len()
                    ==> possible_letters@[q]@[k] != possible_letters@[q]@[l],
            forall|q: int, c: char|
                0 <= q < p ==> ((#[trigger] possible_letters@[q]@.contains(c)) <==> position_count(
                    words@,
                    q,
                    c,
                ) > 0),
            forall|q: int, k: int, l: int|
                #![trigger possible_letters@[q]@[k], possible_letters@[q]@[l]]
                0 <= q < p && 0 <= k < l < possible_letters@[q]@.len()
                    ==> position_count(words@, q, possible_letters@[q]@[k]) >= position_count(
                    words@,
                    q,
                    possible_letters@[q]@[l],
                ),
            forall|q: int|
                0 <= q < p ==> is_position_table(
                    (#[trigger] position_frequencies@[q])@,
                    words@,
                    q,
                ),
            forall|q: int|
                0 <= q < p ==> #[trigger] solved_positions@[q] == (
                if possible_letters@[q]@.len() == 1 {
                    Some(possible_letters@[q]@[0])
                } else {
                    None::<char>
                }),
    {
        let (table, sorted) = position_table_of(words, p);
        let mut letters: Vec<char> = Vec::new();
        for k in 0..sorted.len()
            invariant
                letters@.len() == k,
                forall|a: int| 0 <= a < k ==> #[trigger] letters@[a] == sorted@[a].0,
        {
            letters.push(sorted[k].0);
        }
        let solved = if letters.len() == 1 {
            Some(letters[0])
        } else {
            None
        };
        proof {
            assert forall|c: char|
                (#[trigger] letters@.contains(c)) == (position_count(words@, p as int, c) > 0) by {
                if letters@.contains(c) {
                    let a = choose|a: int| 0 <= a < letters@.len() && letters@[a] == c;
                    assert(sorted@[a].0 == c);
                    assert(exists|k: int| 0 <= k < sorted@.len() && (#[trigger] sorted@[k]).0 == c);
                }
                if position_count(words@, p as int, c) > 0 {
                    let k = choose|k: int| 0 <= k < sorted@.len() && (#[trigger] sorted@[k]).0 == c;
                    assert(letters@[k] == c);
                }
            }
        }
        possible_letters.push(letters);
        solved_positions.push(solved);
        position_frequencies.push(table);
    }
    PositionAnalysis { possible_letters, solved_positions, position_frequencies }
}

/// The green/yellow hints one guess gives for the letter `c`.
pub open spec fn guess_hinted(g: Guess, c: char) -> nat {
    hinted_count(g.word@, g.feedback@, c)
}

/// Whether one guess excludes the letter `c`: the guess word holds
/// more occurrences of `c` than its green and yellow marks justify, so
/// some occurrence was marked absent.
pub open spec fn excluded_in(g: Guess, c: char) -> bool {
    count_char(g.word@, c) > guess_hinted(g, c)
}

/// The largest green/yellow hint count for `c` in any single guess of
/// the first `m`: repeating a guess never inflates this lower bound.
pub open spec fn max_hinted(h: Seq<Guess>, c: char, m: int) -> nat
    decreases m,
{
    if m <= 0 {
        0
    } else {
        let prev = max_hinted(h, c, m - 1);
        let cur = guess_hinted(h[m - 1], c);
        if cur > prev {
            cur
        } else {
            prev
        }
    }
}

/// Whether any of the first `m` guesses excludes the letter `c`.
pub open spec fn ever_excluded(h: Seq<Guess>, c: char, m: int) -> bool
    decreases m,
{
    if m <= 0 {
        false
    } else {
        ever_excluded(h, c, m - 1) || excluded_in(h[m - 1], c)
    }
}

/// The tightest upper bound on occurrences of `c`: the smallest hint
/// count among the guesses that exclude `c`.  Meaningful only when
/// some guess excludes `c`.
pub open spec fn min_excluded(h: Seq<Guess>, c: char, m: int) -> nat
    decreases m,
{
    if m <= 0 {
        0
    } else if !ever_excluded(h, c, m - 1) {
        if excluded_in(h[m - 1], c) {
            guess_hinted(h[m - 1], c)
        } else {
            0
        }
    } else if excluded_in(h[m - 1], c) && guess_hinted(h[m - 1], c) < min_excluded(h, c, m - 1) {
        guess_hinted(h[m - 1], c)
    } else {
        min_excluded(h, c, m - 1)
    }
}

/// The green entries of one guess, position order: letter, position,
/// and the guess word as provenance.
pub open spec fn green_entries_in_guess(g: Guess, n: int) -> Seq<(char, usize, String)>
    decreases n,
{
    if n <= 0 {
        Seq::empty()
    } else {
        green_entries_in_guess(g, n - 1) + if g.feedback@[n - 1] == Feedback::Green {
            seq![(g.word@[n - 1], (n - 1) as usize, g.word)]
        } else {
            Seq::empty()
        }
    }
}

/// The green entries of the first `m` guesses, guess order then
/// position order.
pub open spec fn greens_of(h: Seq<Guess>, m: int) -> Seq<(char, usize, String)>
    decreases m,
{
    if m <= 0 {
        Seq::empty()
    } else {
        greens_of(h, m - 1) + green_entries_in_guess(h[m - 1], h[m - 1].feedback@.len() as int)
    }
}

/// The positions at which one guess marks the letter `c` displaced,
/// among its first `n` positions.
pub open spec fn yellow_pos_in_guess(g: Guess, c: char, n: int) -> Seq<usize>
    decreases n,
{
    if n <= 0 {
        Seq::empty()
    } else {
        yellow_pos_in_guess(g, c, n - 1) + if g.feedback@[n - 1] == Feedback::Yellow && g.word@[n
            - 1] == c {
            seq![(n - 1) as usize]
        } else {
            Seq::empty()
        }
    }
}

/// The displaced positions of `c` across the first `m` guesses, guess
/// order then position order.
pub open spec fn yellow_positions(h: Seq<Guess>, c: char, m: int) -> Seq<usize>
    decreases m,
{
    if m <= 0 {
        Seq::empty()
    } else {
        yellow_positions(h, c, m - 1) + yellow_pos_in_guess(h[m - 1], c, h[m - 1].word@.len() as int)
    }
}

/// The index of the first guess that marks `c` displaced.  Meaningful
/// only when some guess does.
pub open spec fn first_yellow_guess(h: Seq<Guess>, c: char, m: int) -> int
    decreases m,
{
    if m <= 0 {
        0
    } else if yellow_positions(h, c, m - 1).len() > 0 {
        first_yellow_guess(h, c, m - 1)
    } else {
        m - 1
    }
}

/// A guess that marks `c` displaced contains `c` in its word.
proof fn lemma_yellow_pos_occurs(g: Guess, c: char, n: int)
    requires
        yellow_pos_in_guess(g, c, n).len() > 0,
        0 <= n,
    ensures
        crate::solver::count_char_prefix(g.word@, c, n) > 0,
    decreases n,
{
    if n > 0 && yellow_pos_in_guess(g, c, n - 1).len() > 0 {
        lemma_yellow_pos_occurs(g, c, n - 1);
    }
}

/// A letter with displaced positions occurs in some guess word.
proof fn lemma_yellow_somewhere(h: Seq<Guess>, c: char, m: int)
    requires
        yellow_positions(h, c, m).len() > 0,
        0 <= m <= h.len(),
    ensures
        exists|i: int| 0 <= i < m && count_char((#[trigger] h[i]).word@, c) > 0,
    decreases m,
{
    if m > 0 {
        if yellow_positions(h, c, m - 1).len() > 0 {
            lemma_yellow_somewhere(h, c, m - 1);
        } else {
            lemma_yellow_pos_occurs(h[m - 1], c, h[m - 1].word@.len() as int);
        }
    }
}

/// A letter ever hinted occurs in some guess word.
proof fn lemma_hinted_somewhere(h: Seq<Guess>, c: char, m: int)
    requires
        max_hinted(h, c, m) > 0,
        0 <= m <= h.len(),
    ensures
        exists|i: int| 0 <= i < m && count_char((#[trigger] h[i]).word@, c) > 0,
    decreases m,
{
    if m > 0 {
        if max_hinted(h, c, m - 1) >= max_hinted(h, c, m) {
            lemma_hinted_somewhere(h, c, m - 1);
        } else {
            crate::solver::lemma_hinted_le_word_count(
                h[m - 1].word@,
                h[m - 1].feedback@,
                c,
                h[m - 1].word@.len() as int,
            );
        }
    }
}

/// A letter ever excluded occurs in some guess word.
proof fn lemma_excluded_somewhere(h: Seq<Guess>, c: char, m: int)
    requires
        ever_excluded(h, c, m),
        0 <= m <= h.len(),
    ensures
        exists|i: int| 0 <= i < m && count_char((#[trigger] h[i]).word@, c) > 0,
    decreases m,
{
    if m > 0 {
        if ever_excluded(h, c, m - 1) {
            lemma_excluded_somewhere(h, c, m - 1);
        } else {
            assert(count_char(h[m - 1].word@, c) > 0);
        }
    }
}

/// Whether `c` stands among the first `t` collected letters.
pub open spec fn key_among(letters: Seq<char>, t: int, c: char) -> bool {
    exists|a: int| 0 <= a < t && letters[a] == c
}

/// The replayed, human-readable form of the guess history: where each
/// letter is pinned, where it is displaced, which letters are excluded,
/// and the per-letter occurrence bounds the history justifies.  This is
/// explanation only; filtering always goes back to the consistency
/// predicate.
pub struct ConstraintSummary {
    pub greens: Vec<(char, usize, String)>,
    pub yellows: Vec<(char, Vec<usize>, String)>,
    pub grays: Vec<char>,
    pub min_counts: Vec<(char, usize)>,
    pub max_counts: Vec<(char, usize)>,
}

/// Replays the guess history into its human-readable summary.
///
/// The green and displaced entries are listed in guess order, position
/// order; displaced positions are grouped per letter across the whole
/// history, attributed to the first guess that displaced the letter.
/// A letter is excluded when some guess holds more occurrences of it
/// than that guess's green and yellow marks justify; its lower bound
/// is the largest hint count of any single guess, its upper bound the
/// smallest hint count among the guesses that exclude it.
#[verifier::rlimit(100)]
pub fn compute_constraint_summary(solver: &crate::solver::SolverState) -> (r: ConstraintSummary)
    requires
        solver.wf(),
    ensures
        r.greens@ == greens_of(solver.history(), solver.history().len() as int),
        distinct_keys_3(r.yellows@),
        forall|k: int|
            0 <= k < r.yellows@.len() ==> ((#[trigger] r.yellows@[k]).1)@ == yellow_positions(
                solver.history(),
                r.yellows@[k].0,
                solver.history().len() as int,
            ) && r.yellows@[k].1@.len() > 0 && r.yellows@[k].2 == solver.history()[first_yellow_guess(
                solver.history(),
                r.yellows@[k].0,
                solver.history().len() as int,
            )].word,
        forall|c: char|
            yellow_positions(solver.history(), c, solver.history().len() as int).len() > 0
                ==> exists|k: int| 0 <= k < r.yellows@.len() && (#[trigger] r.yellows@[k]).0 == c,
        forall|k: int, l: int| 0 <= k < l < r.grays@.len() ==> r.grays@[k] != r.grays@[l],
        forall|k: int|
            0 <= k < r.grays@.len() ==> ever_excluded(
                solver.history(),
                #[trigger] r.grays@[k],
                solver.history().len() as int,
            ),
        forall|c: char|
            ever_excluded(solver.history(), c, solver.history().len() as int) ==> exists|k: int|
                0 <= k < r.grays@.len() && #[trigger] r.grays@[k] == c,
        distinct_keys(r.min_counts@),
        forall|k: int|
            0 <= k < r.min_counts@.len() ==> (#[trigger] r.min_counts@[k]).1 == max_hinted(
                solver.history(),
                r.min_counts@[k].0,
                solver.history().len() as int,
            ) && r.min_counts@[k].1 > 0,
        forall|c: char|
            max_hinted(solver.history(), c, solver.history().len() as int) > 0 ==> exists|k: int|
                0 <= k < r.min_counts@.len() && (#[trigger] r.min_counts@[k]).0 == c,
        distinct_keys(r.max_counts@),
        forall|k: int|
            0 <= k < r.max_counts@.len() ==> ever_excluded(
                solver.history(),
                (#[trigger] r.max_counts@[k]).0,
                solver.history().len() as int,
            ) && r.max_counts@[k].1 == min_excluded(
                solver.history(),
                r.max_counts@[k].0,
                solver.history().len() as int,
            ),
        forall|c: char|
            ever_excluded(solver.history(), c, solver.history().len() as int) ==> exists|k: int|
                0 <= k < r.max_counts@.len() && (#[trigger] r.max_counts@[k]).0 == c,
{
    let ghost h = solver.history();
    let guesses = solver.guesses();
    let n = guesses.len();
    // Green entries, in guess order then position order.
    let mut greens: Vec<(char, usize, String)> = Vec::new();
    for i in 0..n
        invariant
            solver.wf(),
            h == solver.history(),
            n == h.len(),
            guesses@ == h,
            greens@ == greens_of(h, i as int),
    {
        let g = &guesses[i];
        let len = g.feedback.len();
        for j in 0..len
            invariant
                solver.wf(),
                h == solver.history(),
                n == h.len(),
                guesses@ == h,
                0 <= (i as int) < h.len(),
                g == &h[i as int],
                len == g.feedback@.len(),
                g.word@.len() == len,
                greens@ == greens_of(h, i as int) + green_entries_in_guess(h[i as int], j as int),
        {
            let ghost before = greens@;
            if g.feedback[j] == Feedback::Green {
                let c = g.word.as_str().get_char(j);
                greens.push((c, j, g.word.clone()));
                proof {
                    assert(green_entries_in_guess(h[i as int], j + 1) =~= green_entries_in_guess(
                        h[i as int],
                        j as int,
                    ) + seq![(g.word@[j as int], j as usize, g.word)]);
                    assert(greens@ =~= greens_of(h, i as int) + green_entries_in_guess(
                        h[i as int],
                        j + 1,
                    ));
                }
            } else {
                proof {
                    assert(green_entries_in_guess(h[i as int], j + 1) =~= green_entries_in_guess(
                        h[i as int],
                        j as int,
                    ));
                }
            }
        }
        proof {
            assert(greens_of(h, i + 1) == greens_of(h, i as int) + green_entries_in_guess(
                h[i as int],
                h[i as int].feedback@.len() as int,
            ));
        }
    }
    // The distinct letters used across the guessed words.
    let mut words_vec: Vec<String> = Vec::new();
    for i in 0..n
        invariant
            h == solver.history(),
            n == h.len(),
            guesses@ == h,
            words_vec@.len() == i,
            forall|t: int| 0 <= t < i ==> #[trigger] words_vec@[t] == h[t].word,
    {
        words_vec.push(guesses[i].word.clone());
    }
    let letters = distinct_letters_of(&words_vec);
    // Per-letter scans over the history.
    let mut yellows: Vec<(char, Vec<usize>, String)> = Vec::new();
    let mut grays: Vec<char> = Vec::new();
    let mut min_counts: Vec<(char, usize)> = Vec::new();
    let mut max_counts: Vec<(char, usize)> = Vec::new();
    let mut t: usize = 0;
    while t < letters.len()
        invariant
            t <= letters@.len(),
            solver.wf(),
            h == solver.history(),
            n == h.len(),
            guesses@ == h,
            words_vec@.len() == n,
            forall|q: int| 0 <= q < n ==> #[trigger] words_vec@[q] == h[q].word,
            forall|a: int, b: int| 0 <= a < b < letters@.len() ==> letters@[a] != letters@[b],
            forall|c: char| letters@.contains(c) <==> coverage(words_vec@, c) > 0,
            distinct_keys_3(yellows@),
            forall|k: int|
                0 <= k < yellows@.len() ==> key_among(
                    letters@,
                    t as int,
                    (#[trigger] yellows@[k]).0,
                ),
            forall|k: int|
                0 <= k < yellows@.len() ==> ((#[trigger] yellows@[k]).1)@ == yellow_positions(
                    h,
                    yellows@[k].0,
                    n as int,
                ) && yellows@[k].1@.len() > 0 && yellows@[k].2 == h[first_yellow_guess(
                    h,
                    yellows@[k].0,
                    n as int,
                )].word,
            forall|a: int|
                0 <= a < t && yellow_positions(h, #[trigger] letters@[a], n as int).len() > 0
                    ==> exists|k: int| 0 <= k < yellows@.len() && (#[trigger] yellows@[k]).0
                    == letters@[a],
            forall|k: int, l: int| 0 <= k < l < grays@.len() ==> grays@[k] != grays@[l],
            forall|k: int|
                0 <= k < grays@.len() ==> ever_excluded(h, #[trigger] grays@[k], n as int)
                    && key_among(letters@, t as int, grays@[k]),
            forall|a: int|
                0 <= a < t && ever_excluded(h, #[trigger] letters@[a], n as int) ==> exists|k: int|
                    0 <= k < grays@.len() && #[trigger] grays@[k] == letters@[a],
            distinct_keys(min_counts@),
            forall|k: int|
                0 <= k < min_counts@.len() ==> key_among(
                    letters@,
                    t as int,
                    (#[trigger] min_counts@[k]).0,
                ),
            forall|k: int|
                0 <= k < min_counts@.len() ==> (#[trigger] min_counts@[k]).1 == max_hinted(
                    h,
                    min_counts@[k].0,
                    n as int,
                ) && min_counts@[k].1 > 0,
            forall|a: int|
                0 <= a < t && max_hinted(h, #[trigger] letters@[a], n as int) > 0 ==> exists|k: int|
                    0 <= k < min_counts@.len() && (#[trigger] min_counts@[k]).0 == letters@[a],
            distinct_keys(max_counts@),
            forall|k: int|
                0 <= k < max_counts@.len() ==> key_among(
                    letters@,
                    t as int,
                    (#[trigger] max_counts@[k]).0,
                ),
            forall|k: int|
                0 <= k < max_counts@.len() ==> ever_excluded(
                    h,
                    (#[trigger] max_counts@[k]).0,
                    n as int,
                ) && max_counts@[k].1 == min_excluded(h, max_counts@[k].0, n as int),
            forall|a: int|
                0 <= a < t && ever_excluded(h, #[trigger] letters@[a], n as int) ==> exists|k: int|
                    0 <= k < max_counts@.len() && (#[trigger] max_counts@[k]).0 == letters@[a],
        decreases letters@.len() - t,
    {
        let c = letters[t];
        proof {
            assert(letters@[t as int] == c);
        }
        // Largest single-guess hint count.
        let mut mh: usize = 0;
        // Exclusion flag and tightest bound among excluding guesses.
        let mut excl = false;
        let mut mn: usize = 0;
        // Displaced positions across the history, and the first guess
        // that displaced the letter.
        let mut poss: Vec<usize> = Vec::new();
        let mut first: usize = 0;
        for i in 0..n
            invariant
                solver.wf(),
                h == solver.history(),
                n == h.len(),
                guesses@ == h,
                mh == max_hinted(h, c, i as int),
                excl == ever_excluded(h, c, i as int),
                excl ==> mn == min_excluded(h, c, i as int),
                poss@ == yellow_positions(h, c, i as int),
                poss@.len() > 0 ==> first < n && first == first_yellow_guess(h, c, i as int),
        {
            let g = &guesses[i];
            let len = g.feedback.len();
            let gy = crate::solver::hinted_count_of(g.word.as_str(), &g.feedback, c);
            if gy > mh {
                mh = gy;
            }
            let total = crate::solver::count_char_in(g.word.as_str(), c);
            if total > gy {
                if !excl {
                    excl = true;
                    mn = gy;
                } else if gy < mn {
                    mn = gy;
                }
            }
            let had_yellow = poss.len() > 0;
            for j in 0..len
                invariant
                    solver.wf(),
                    h == solver.history(),
                    n == h.len(),
                    guesses@ == h,
                    0 <= (i as int) < h.len(),
                    g == &h[i as int],
                    len == g.feedback@.len(),
                    g.word@.len() == len,
                    poss@ == yellow_positions(h, c, i as int) + yellow_pos_in_guess(
                        h[i as int],
                        c,
                        j as int,
                    ),
            {
                if g.feedback[j] == Feedback::Yellow && g.word.as_str().get_char(j) == c {
                    poss.push(j);
                    proof {
                        assert(yellow_pos_in_guess(h[i as int], c, j + 1) =~= yellow_pos_in_guess(
                            h[i as int],
                            c,
                            j as int,
                        ) + seq![j as usize]);
                        assert(poss@ =~= yellow_positions(h, c, i as int) + yellow_pos_in_guess(
                            h[i as int],
                            c,
                            j + 1,
                        ));
                    }
                } else {
                    proof {
                        assert(yellow_pos_in_guess(h[i as int], c, j + 1) =~= yellow_pos_in_guess(
                            h[i as int],
                            c,
                            j as int,
                        ));
                    }
                }
            }
            if !had_yellow && poss.len() > 0 {
                first = i;
            }
            proof {
                assert(yellow_positions(h, c, i + 1) == yellow_positions(h, c, i as int)
                    + yellow_pos_in_guess(h[i as int], c, h[i as int].word@.len() as int));
            }
        }
        let ghost old_yellows = yellows@;
        let ghost old_grays = grays@;
        let ghost old_min = min_counts@;
        let ghost old_max = max_counts@;
        if mh > 0 {
            min_counts.push((c, mh));
        }
        if excl {
            grays.push(c);
            max_counts.push((c, mn));
        }
        if poss.len() > 0 {
            let w = guesses[first].word.clone();
            yellows.push((c, poss, w));
        }
        proof {
            lemma_new_key_distinct_3(old_yellows, yellows@, letters@, t as int, c);
            lemma_new_key_distinct_1(old_grays, grays@, letters@, t as int, c);
            lemma_new_key_distinct_2(old_min, min_counts@, letters@, t as int, c);
            lemma_new_key_distinct_2(old_max, max_counts@, letters@, t as int, c);
            assert forall|k: int|
                0 <= k < yellows@.len() implies key_among(
                letters@,
                t + 1,
                (#[trigger] yellows@[k]).0,
            ) by {
                if k < old_yellows.len() {
                    assert(yellows@[k] == old_yellows[k]);
                    assert(key_among(letters@, t as int, old_yellows[k].0));
                    let a = choose|a: int| 0 <= a < t && letters@[a] == old_yellows[k].0;
                    assert(0 <= a < t + 1 && letters@[a] == yellows@[k].0);
                } else {
                    assert(letters@[t as int] == yellows@[k].0);
                }
            }
            assert forall|k: int|
                0 <= k < min_counts@.len() implies key_among(
                letters@,
                t + 1,
                (#[trigger] min_counts@[k]).0,
            ) by {
                if k < old_min.len() {
                    assert(min_counts@[k] == old_min[k]);
                    assert(key_among(letters@, t as int, old_min[k].0));
                    let a = choose|a: int| 0 <= a < t && letters@[a] == old_min[k].0;
                    assert(0 <= a < t + 1 && letters@[a] == min_counts@[k].0);
                } else {
                    assert(letters@[t as int] == min_counts@[k].0);
                }
            }
            assert forall|k: int|
                0 <= k < max_counts@.len() implies key_among(
                letters@,
                t + 1,
                (#[trigger] max_counts@[k]).0,
            ) by {
                if k < old_max.len() {
                    assert(max_counts@[k] == old_max[k]);
                    assert(key_among(letters@, t as int, old_max[k].0));
                    let a = choose|a: int| 0 <= a < t && letters@[a] == old_max[k].0;
                    assert(0 <= a < t + 1 && letters@[a] == max_counts@[k].0);
                } else {
                    assert(letters@[t as int] == max_counts@[k].0);
                }
            }
            assert forall|k: int|
                0 <= k < grays@.len() implies ever_excluded(h, #[trigger] grays@[k], n as int)
                && key_among(letters@, t + 1, grays@[k]) by {
                if k < old_grays.len() {
                    assert(grays@[k] == old_grays[k]);
                    assert(key_among(letters@, t as int, old_grays[k]));
                    let a = choose|a: int| 0 <= a < t && letters@[a] == old_grays[k];
                    assert(0 <= a < t + 1 && letters@[a] == grays@[k]);
                } else {
                    assert(letters@[t as int] == grays@[k]);
                }
            }
            assert forall|a: int|
                0 <= a < t + 1 && yellow_positions(h, #[trigger] letters@[a], n as int).len() > 0
                implies exists|k: int|
                0 <= k < yellows@.len() && (#[trigger] yellows@[k]).0 == letters@[a] by {
                if a < t {
                    let k = choose|k: int|
                        0 <= k < old_yellows.len() && (#[trigger] old_yellows[k]).0 == letters@[a];
                    assert(yellows@[k] == old_yellows[k]);
                } else {
                    assert(yellows@[yellows@.len() - 1].0 == c);
                }
            }
            assert forall|a: int|
                0 <= a < t + 1 && max_hinted(h, #[trigger] letters@[a], n as int) > 0
                implies exists|k: int|
                0 <= k < min_counts@.len() && (#[trigger] min_counts@[k]).0 == letters@[a] by {
                if a < t {
                    let k = choose|k: int|
                        0 <= k < old_min.len() && (#[trigger] old_min[k]).0 == letters@[a];
                    assert(min_counts@[k] == old_min[k]);
                } else {
                    assert(min_counts@[min_counts@.len() - 1].0 == c);
                }
            }
            assert forall|a: int|
                0 <= a < t + 1 && ever_excluded(h, #[trigger] letters@[a], n as int)
                implies exists|k: int|
                0 <= k < grays@.len() && #[trigger] grays@[k] == letters@[a] by {
                if a < t {
                    let k = choose|k: int|
                        0 <= k < old_grays.len() && #[trigger] old_grays[k] == letters@[a];
                    assert(grays@[k] == old_grays[k]);
                } else {
                    assert(grays@[grays@.len() - 1] == c);
                }
            }
            assert forall|a: int|
                0 <= a < t + 1 && ever_excluded(h, #[trigger] letters@[a], n as int)
                implies exists|k: int|
                0 <= k < max_counts@.len() && (#[trigger] max_counts@[k]).0 == letters@[a] by {
                if a < t {
                    let k = choose|k: int|
                        0 <= k < old_max.len() && (#[trigger] old_max[k]).0 == letters@[a];
                    assert(max_counts@[k] == old_max[k]);
                } else {
                    assert(max_counts@[max_counts@.len() - 1].0 == c);
                }
            }
        }
        t = t + 1;
    }
    proof {
        assert forall|c: char|
            yellow_positions(h, c, n as int).len() > 0 implies exists|k: int|
            0 <= k < yellows@.len() && (#[trigger] yellows@[k]).0 == c by {
            lemma_yellow_somewhere(h, c, n as int);
            let i = choose|i: int| 0 <= i < n && count_char((#[trigger] h[i]).word@, c) > 0;
            crate::scoring::lemma_coverage_positive(words_vec@, c, i);
            assert(letters@.contains(c));
            let a = choose|a: int| 0 <= a < letters@.len() && letters@[a] == c;
        }
        assert forall|c: char|
            ever_excluded(h, c, n as int) implies exists|k: int|
            0 <= k < grays@.len() && #[trigger] grays@[k] == c by {
            lemma_excluded_somewhere(h, c, n as int);
            let i = choose|i: int| 0 <= i < n && count_char((#[trigger] h[i]).word@, c) > 0;
            crate::scoring::lemma_coverage_positive(words_vec@, c, i);
            assert(letters@.contains(c));
            let a = choose|a: int| 0 <= a < letters@.len() && letters@[a] == c;
        }
        assert forall|c: char|
            max_hinted(h, c, n as int) > 0 implies exists|k: int|
            0 <= k < min_counts@.len() && (#[trigger] min_counts@[k]).0 == c by {
            lemma_hinted_somewhere(h, c, n as int);
            let i = choose|i: int| 0 <= i < n && count_char((#[trigger] h[i]).word@, c) > 0;
            crate::scoring::lemma_coverage_positive(words_vec@, c, i);
            assert(letters@.contains(c));
            let a = choose|a: int| 0 <= a < letters@.len() && letters@[a] == c;
        }
        assert forall|c: char|
            ever_excluded(h, c, n as int) implies exists|k: int|
            0 <= k < max_counts@.len() && (#[trigger] max_counts@[k]).0 == c by {
            lemma_excluded_somewhere(h, c, n as int);
            let i = choose|i: int| 0 <= i < n && count_char((#[trigger] h[i]).word@, c) > 0;
            crate::scoring::lemma_coverage_positive(words_vec@, c, i);
            assert(letters@.contains(c));
            let a = choose|a: int| 0 <= a < letters@.len() && letters@[a] == c;
        }
    }
    let r = ConstraintSummary { greens, yellows, grays, min_counts, max_counts };
    proof {
        assert forall|c: char|
            yellow_positions(solver.history(), c, solver.history().len() as int).len() > 0
            implies exists|k: int|
            0 <= k < r.yellows@.len() && (#[trigger] r.yellows@[k]).0 == c by {
            assert(yellow_positions(h, c, n as int).len() > 0);
            let k = choose|k: int|
                0 <= k < r.yellows@.len() && (#[trigger] r.yellows@[k]).0 == c;
        }
        assert forall|c: char|
            max_hinted(solver.history(), c, solver.history().len() as int) > 0 implies exists|
                k: int,
            | 0 <= k < r.min_counts@.len() && (#[trigger] r.min_counts@[k]).0 == c by {
            assert(max_hinted(h, c, n as int) > 0);
            let k = choose|k: int|
                0 <= k < r.min_counts@.len() && (#[trigger] r.min_counts@[k]).0 == c;
        }
        assert forall|c: char|
            ever_excluded(solver.history(), c, solver.history().len() as int) implies exists|k: int|
            0 <= k < r.grays@.len() && #[trigger] r.grays@[k] == c by {
            assert(ever_excluded(h, c, n as int));
            let k = choose|k: int| 0 <= k < r.grays@.len() && #[trigger] r.grays@[k] == c;
        }
        assert forall|c: char|
            ever_excluded(solver.history(), c, solver.history().len() as int) implies exists|k: int|
            0 <= k < r.max_counts@.len() && (#[trigger] r.max_counts@[k]).0 == c by {
            assert(ever_excluded(h, c, n as int));
            let k = choose|k: int| 0 <= k < r.max_counts@.len() && (#[trigger] r.max_counts@[k]).0
                == c;
        }
    }
    r
}

/// A per-letter grouped table with no letter listed twice.
pub open spec fn distinct_keys_3(t: Seq<(char, Vec<usize>, String)>) -> bool {
    forall|k: int, l: int| 0 <= k < l < t.len() ==> t[k].0 != t[l].0
}

/// Pushing an entry keyed by a letter not seen before keeps a
/// grouped-yellow table's keys distinct.
proof fn lemma_new_key_distinct_3(
    old_t: Seq<(char, Vec<usize>, String)>,
    new_t: Seq<(char, Vec<usize>, String)>,
    letters: Seq<char>,
    t: int,
    c: char,
)
    requires
        new_t == old_t || new_t.len() == old_t.len() + 1,
        new_t.len() >= old_t.len(),
        forall|k: int| 0 <= k < old_t.len() ==> #[trigger] new_t[k] == old_t[k],
        new_t.len() == old_t.len() + 1 ==> new_t[old_t.len() as int].0 == c,
        distinct_keys_3(old_t),
        forall|k: int|
            0 <= k < old_t.len() ==> key_among(letters, t, (#[trigger] old_t[k]).0),
        0 <= t < letters.len(),
        letters[t] == c,
        forall|a: int, b: int| 0 <= a < b < letters.len() ==> letters[a] != letters[b],
    ensures
        distinct_keys_3(new_t),
    decreases 0int,
{
    assert forall|k: int, l: int| 0 <= k < l < new_t.len() implies new_t[k].0 != new_t[l].0 by {
        if l == old_t.len() && new_t.len() == old_t.len() + 1 {
            assert(key_among(letters, t, old_t[k].0));
            let a = choose|a: int| 0 <= a < t && letters[a] == old_t[k].0;
            assert(letters[a] != letters[t]);
        }
    }
}

/// The same, for a plain per-letter count table.
proof fn lemma_new_key_distinct_2(
    old_t: Seq<(char, usize)>,
    new_t: Seq<(char, usize)>,
    letters: Seq<char>,
    t: int,
    c: char,
)
    requires
        new_t == old_t || new_t.len() == old_t.len() + 1,
        new_t.len() >= old_t.len(),
        forall|k: int| 0 <= k < old_t.len() ==> #[trigger] new_t[k] == old_t[k],
        new_t.len() == old_t.len() + 1 ==> new_t[old_t.len() as int].0 == c,
        distinct_keys(old_t),
        forall|k: int|
            0 <= k < old_t.len() ==> key_among(letters, t, (#[trigger] old_t[k]).0),
        0 <= t < letters.len(),
        letters[t] == c,
        forall|a: int, b: int| 0 <= a < b < letters.len() ==> letters[a] != letters[b],
    ensures
        distinct_keys(new_t),
    decreases 0int,
{
    assert forall|k: int, l: int| 0 <= k < l < new_t.len() implies new_t[k].0 != new_t[l].0 by {
        if l == old_t.len() && new_t.len() == old_t.len() + 1 {
            assert(key_among(letters, t, old_t[k].0));
            let a = choose|a: int| 0 <= a < t && letters[a] == old_t[k].0;
            assert(letters[a] != letters[t]);
        }
    }
}

/// The same, for the excluded-letter list.
proof fn lemma_new_key_distinct_1(
    old_t: Seq<char>,
    new_t: Seq<char>,
    letters: Seq<char>,
    t: int,
    c: char,
)
    requires
        new_t == old_t || new_t.len() == old_t.len() + 1,
        new_t.len() >= old_t.len(),
        forall|k: int| 0 <= k < old_t.len() ==> #[trigger] new_t[k] == old_t[k],
        new_t.len() == old_t.len() + 1 ==> new_t[old_t.len() as int] == c,
        forall|k: int, l: int| 0 <= k < l < old_t.len() ==> old_t[k] != old_t[l],
        forall|k: int|
            0 <= k < old_t.len() ==> key_among(letters, t, #[trigger] old_t[k]),
        0 <= t < letters.len(),
        letters[t] == c,
        forall|a: int, b: int| 0 <= a < b < letters.len() ==> letters[a] != letters[b],
    ensures
        forall|k: int, l: int| 0 <= k < l < new_t.len() ==> new_t[k] != new_t[l],
    decreases 0int,
{
    assert forall|k: int, l: int| 0 <= k < l < new_t.len() implies new_t[k] != new_t[l] by {
        if l == old_t.len() && new_t.len() == old_t.len() + 1 {
            assert(key_among(letters, t, old_t[k]));
            let a = choose|a: int| 0 <= a < t && letters[a] == old_t[k];
            assert(letters[a] != letters[t]);
        }
    }
}

/// The integer core of the pool statistics: how many candidates remain,
/// how large the unfiltered dictionary is, and the coverage table of
/// the remaining candidates.  The derived real-valued quantities — the
/// percentage eliminated and the Shannon entropy of the coverage
/// distribution — follow from these three by arithmetic alone, and the
/// embedding application computes them at display time.
pub struct SolutionPoolStats {
    pub total_remaining: usize,
    pub dictionary_size: usize,
    pub letter_counts: Vec<(char, usize)>,
}

/// Computes the pool statistics for a filtered pool drawn from
/// `all_words`.
pub fn compute_solution_pool_stats(all_words: &Vec<String>, filtered: &Vec<String>) -> (r:
    SolutionPoolStats)
    ensures
        r.total_remaining == filtered@.len(),
        r.dictionary_size == all_words@.len(),
        is_coverage_table(r.letter_counts@, filtered@),
{
    SolutionPoolStats {
        total_remaining: filtered.len(),
        dictionary_size: all_words.len(),
        letter_counts: coverage_table(filtered),
    }
}

/// In a pool of at most one candidate every recorded coverage count
/// equals the pool size, so every coverage probability is exactly one
/// and the Shannon entropy of the distribution is exactly zero.
pub proof fn lemma_small_pool_entropy_zero(t: Seq<(char, usize)>, words: Seq<String>)
    requires
        is_coverage_table(t, words),
        words.len() <= 1,
    ensures
        forall|k: int| 0 <= k < t.len() ==> (#[trigger] t[k].1) == words.len(),
{
    assert forall|k: int| 0 <= k < t.len() implies (#[trigger] t[k].1) == words.len() by {
        crate::scoring::lemma_coverage_bound(words, t[k].0, words.len() as int);
    }
}

} // verus!
