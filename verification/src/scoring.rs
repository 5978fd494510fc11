//! Ranking candidates by letter coverage.
//!
//! Every letter is worth the number of distinct candidates that contain
//! it at least once; a word's score is the sum over its distinct
//! letters, plus a fixed bonus if the word is a plausible final answer.
//! `score_and_sort` ranks a candidate list by that score, highest
//! first, keeping the input order among equal scores.

use vstd::prelude::*;

use crate::counting::count_upto;
use crate::solver::count_char;
use crate::solver::count_char_prefix;

verus! {

/// The flat score bonus granted to words of the plausible-solution set.
pub const SOLUTION_BONUS: usize = 10;

/// Whether `c` occurs in `s`.
pub open spec fn contains_char(s: Seq<char>, c: char) -> bool {
    count_char(s, c) > 0
}

/// Among the first `n` candidates, how many contain the letter `c`.
pub open spec fn coverage_prefix(words: Seq<String>, c: char, n: int) -> nat {
    count_upto(n, |i: int| contains_char(words[i]@, c))
}

/// The coverage of `c`: how many distinct candidates contain it at
/// least once.  Each candidate counts once however often it repeats the
/// letter.
pub open spec fn coverage(words: Seq<String>, c: char) -> nat {
    coverage_prefix(words, c, words.len() as int)
}

/// The coverage sum over the first `j` letters of `w`, counting each
/// distinct letter only at its first occurrence.
pub open spec fn letter_score_prefix(words: Seq<String>, w: Seq<char>, j: int) -> nat
    decreases j,
{
    if j <= 0 {
        0
    } else {
        letter_score_prefix(words, w, j - 1) + if count_char_prefix(w, w[j - 1], j - 1) == 0 {
            coverage(words, w[j - 1])
        } else {
            0
        }
    }
}

/// The coverage score of `w`: the sum of the coverage of its distinct
/// letters.  A repeated letter counts as if it occurred once.
pub open spec fn letter_score(words: Seq<String>, w: Seq<char>) -> nat {
    letter_score_prefix(words, w, w.len() as int)
}

/// Whether `w` spells a member of the plausible-solution list.
pub open spec fn is_solution(solutions: Seq<String>, w: Seq<char>) -> bool {
    exists|i: int| 0 <= i < solutions.len() && #[trigger] solutions[i]@ == w
}

/// The full score of `w`: letter coverage plus the solution bonus.
pub open spec fn total_score(words: Seq<String>, solutions: Seq<String>, w: Seq<char>) -> nat {
    letter_score(words, w) + if is_solution(solutions, w) {
        SOLUTION_BONUS as nat
    } else {
        0
    }
}

/// An index map certifying that `r` is a reordering of the scored
/// candidates that is descending by score and, among equal scores,
/// keeps the input order.
pub open spec fn is_stable_ranking(
    perm: Seq<int>,
    words: Seq<String>,
    r: Seq<(String, usize)>,
) -> bool {
    &&& perm.len() == words.len()
    &&& r.len() == words.len()
    &&& forall|k: int| 0 <= k < perm.len() ==> 0 <= #[trigger] perm[k] < words.len()
    &&& forall|k: int, l: int| 0 <= k < l < perm.len() ==> perm[k] != perm[l]
    &&& forall|k: int| 0 <= k < perm.len() ==> #[trigger] r[k].0 == words[perm[k]]
    &&& forall|k: int, l: int|
        0 <= k < l < perm.len() && r[k].1 == r[l].1 ==> perm[k] < perm[l]
}

/// A letter's coverage among the first `n` candidates is at most `n`.
pub proof fn lemma_coverage_bound(words: Seq<String>, c: char, n: int)
    requires
        0 <= n,
    ensures
        coverage_prefix(words, c, n) <= n,
    decreases n,
{
    if n > 0 {
        lemma_coverage_bound(words, c, n - 1);
    }
}

/// Coverage only grows as more candidates are taken in.
pub proof fn lemma_coverage_monotone(words: Seq<String>, c: char, m: int, n: int)
    requires
        m <= n,
    ensures
        coverage_prefix(words, c, m) <= coverage_prefix(words, c, n),
    decreases n - m,
{
    if m < n {
        lemma_coverage_monotone(words, c, m, n - 1);
    }
}

/// A candidate containing the letter makes its coverage positive.
pub proof fn lemma_coverage_positive(words: Seq<String>, c: char, i: int)
    requires
        0 <= i < words.len(),
        contains_char(words[i]@, c),
    ensures
        coverage(words, c) > 0,
{
    lemma_coverage_monotone(words, c, i + 1, words.len() as int);
}

/// The score prefix only grows as more letters are taken in.
proof fn lemma_letter_score_monotone(words: Seq<String>, w: Seq<char>, j1: int, j2: int)
    requires
        j1 <= j2,
    ensures
        letter_score_prefix(words, w, j1) <= letter_score_prefix(words, w, j2),
    decreases j2 - j1,
{
    if j1 < j2 {
        lemma_letter_score_monotone(words, w, j1, j2 - 1);
    }
}

/// The distinct letters among the first `j` characters of `w`, each at
/// its first occurrence, in order of appearance.
pub open spec fn first_occurrences(w: Seq<char>, j: int) -> Seq<char>
    decreases j,
{
    if j <= 0 {
        Seq::empty()
    } else if count_char_prefix(w, w[j - 1], j - 1) == 0 {
        first_occurrences(w, j - 1).push(w[j - 1])
    } else {
        first_occurrences(w, j - 1)
    }
}

/// The coverage sum over a list of letters.
pub open spec fn coverage_sum(words: Seq<String>, letters: Seq<char>) -> nat
    decreases letters.len(),
{
    if letters.len() == 0 {
        0
    } else {
        coverage_sum(words, letters.drop_last()) + coverage(words, letters.last())
    }
}

/// The positional score is the coverage sum over the word's distinct
/// letters.
proof fn lemma_score_is_coverage_sum(words: Seq<String>, w: Seq<char>, j: int)
    requires
        0 <= j <= w.len(),
    ensures
        letter_score_prefix(words, w, j) == coverage_sum(words, first_occurrences(w, j)),
    decreases j,
{
    if j > 0 {
        lemma_score_is_coverage_sum(words, w, j - 1);
        let prev = first_occurrences(w, j - 1);
        if count_char_prefix(w, w[j - 1], j - 1) == 0 {
            assert(prev.push(w[j - 1]).drop_last() =~= prev);
            assert(prev.push(w[j - 1]).last() == w[j - 1]);
        }
    }
}

/// The distinct-letter list holds exactly the letters of the prefix,
/// each once.
proof fn lemma_first_occurrences_members(w: Seq<char>, j: int, c: char)
    requires
        0 <= j <= w.len(),
    ensures
        first_occurrences(w, j).contains(c) <==> count_char_prefix(w, c, j) > 0,
    decreases j,
{
    if j > 0 {
        lemma_first_occurrences_members(w, j - 1, c);
        let prev = first_occurrences(w, j - 1);
        let cur = first_occurrences(w, j);
        if count_char_prefix(w, w[j - 1], j - 1) == 0 {
            assert(cur == prev.push(w[j - 1]));
            if prev.contains(c) {
                let k = choose|k: int| 0 <= k < prev.len() && prev[k] == c;
                assert(cur[k] == c);
                assert(cur.contains(c));
            }
            if w[j - 1] == c {
                assert(cur[prev.len() as int] == c);
                assert(cur.contains(c));
            }
            if cur.contains(c) && w[j - 1] != c {
                let k = choose|k: int| 0 <= k < cur.len() && cur[k] == c;
                assert(k < prev.len());
                assert(prev[k] == c);
                assert(prev.contains(c));
            }
        }
    }
}

/// No letter repeats in the distinct-letter list.
proof fn lemma_first_occurrences_distinct(w: Seq<char>, j: int)
    requires
        0 <= j <= w.len(),
    ensures
        forall|k: int, l: int|
            0 <= k < l < first_occurrences(w, j).len() ==> first_occurrences(w, j)[k]
                != first_occurrences(w, j)[l],
    decreases j,
{
    if j > 0 {
        lemma_first_occurrences_distinct(w, j - 1);
        let prev = first_occurrences(w, j - 1);
        let cur = first_occurrences(w, j);
        if count_char_prefix(w, w[j - 1], j - 1) == 0 {
            lemma_first_occurrences_members(w, j - 1, w[j - 1]);
            assert forall|k: int, l: int|
                0 <= k < l < cur.len() implies cur[k] != cur[l] by {
                if l == prev.len() {
                    assert(cur[l] == w[j - 1]);
                    assert(prev.contains(prev[k]));
                }
            }
        }
    }
}

/// Removing one letter from a list removes its coverage from the sum.
proof fn lemma_coverage_sum_remove(words: Seq<String>, letters: Seq<char>, k: int)
    requires
        0 <= k < letters.len(),
    ensures
        coverage_sum(words, letters) == coverage_sum(words, letters.remove(k)) + coverage(
            words,
            letters[k],
        ),
    decreases letters.len(),
{
    if k == letters.len() - 1 {
        assert(letters.remove(k) =~= letters.drop_last());
    } else {
        lemma_coverage_sum_remove(words, letters.drop_last(), k);
        assert(letters.remove(k).drop_last() =~= letters.drop_last().remove(k));
        assert(letters.remove(k).last() == letters.last());
    }
}

/// Duplicate-free letter lists with the same members have the same
/// coverage sum.
proof fn lemma_coverage_sum_members(words: Seq<String>, l1: Seq<char>, l2: Seq<char>)
    requires
        forall|k: int, l: int| 0 <= k < l < l1.len() ==> l1[k] != l1[l],
        forall|k: int, l: int| 0 <= k < l < l2.len() ==> l2[k] != l2[l],
        forall|c: char| l1.contains(c) <==> l2.contains(c),
    ensures
        coverage_sum(words, l1) == coverage_sum(words, l2),
    decreases l1.len(),
{
    if l1.len() == 0 {
        if l2.len() > 0 {
            assert(l2.contains(l2[0]));
        }
    } else {
        let x = l1.last();
        assert(l1.contains(x));
        let k = choose|k: int| 0 <= k < l2.len() && l2[k] == x;
        lemma_coverage_sum_remove(words, l2, k);
        let l1p = l1.drop_last();
        let l2p = l2.remove(k);
        assert forall|c: char| l1p.contains(c) implies l2p.contains(c) by {
            let a = choose|a: int| 0 <= a < l1p.len() && l1p[a] == c;
            assert(l1[a] == c);
            assert(c != x);
            assert(l2.contains(c));
            let b = choose|b: int| 0 <= b < l2.len() && l2[b] == c;
            if b < k {
                assert(l2p[b] == c);
            } else {
                assert(l2p[b - 1] == c);
            }
        }
        assert forall|c: char| l2p.contains(c) implies l1p.contains(c) by {
            let b = choose|b: int| 0 <= b < l2p.len() && l2p[b] == c;
            if b < k {
                assert(l2[b] == c);
            } else {
                assert(l2[b + 1] == c);
            }
            assert(l2.contains(c));
            assert(c != x);
            assert(l1.contains(c));
            let a = choose|a: int| 0 <= a < l1.len() && l1[a] == c;
            assert(l1p[a] == c);
        }
        lemma_coverage_sum_members(words, l1p, l2p);
    }
}

/// Scoring looks only at which letters a word contains, never at their
/// arrangement: words spelling the same letter multiset receive the
/// same score.  The solution bonus goes by the exact spelling, so the
/// two words are assumed to be both in or both out of the solution
/// list.
pub proof fn lemma_score_permutation_invariant(
    words: Seq<String>,
    solutions: Seq<String>,
    w1: Seq<char>,
    w2: Seq<char>,
)
    requires
        forall|c: char| #[trigger] count_char(w1, c) == count_char(w2, c),
        is_solution(solutions, w1) == is_solution(solutions, w2),
    ensures
        total_score(words, solutions, w1) == total_score(words, solutions, w2),
{
    lemma_score_is_coverage_sum(words, w1, w1.len() as int);
    lemma_score_is_coverage_sum(words, w2, w2.len() as int);
    lemma_first_occurrences_distinct(w1, w1.len() as int);
    lemma_first_occurrences_distinct(w2, w2.len() as int);
    let f1 = first_occurrences(w1, w1.len() as int);
    let f2 = first_occurrences(w2, w2.len() as int);
    assert forall|c: char| f1.contains(c) <==> f2.contains(c) by {
        lemma_first_occurrences_members(w1, w1.len() as int, c);
        lemma_first_occurrences_members(w2, w2.len() as int, c);
        assert(count_char(w1, c) == count_char(w2, c));
    }
    lemma_coverage_sum_members(words, f1, f2);
}

/// Counts the candidates containing the letter `c`.
pub(crate) fn coverage_of(words: &Vec<String>, c: char) -> (k: usize)
    ensures
        k == coverage(words@, c),
{
    let mut k: usize = 0;
    for i in 0..words.len()
        invariant
            k == coverage_prefix(words@, c, i as int),
            k <= i,
    {
        if crate::solver::count_char_in(words[i].as_str(), c) > 0 {
            k = k + 1;
        }
    }
    k
}

/// Whether `w` equals some member of the list, compared letter by letter.
fn member_of(list: &Vec<String>, w: &String) -> (r: bool)
    ensures
        r == is_solution(list@, w@),
{
    for i in 0..list.len()
        invariant
            forall|j: int| 0 <= j < i ==> #[trigger] list@[j]@ != w@,
    {
        if list[i] == *w {
            proof {
                assert(list@[i as int]@ == w@);
            }
            return true;
        }
    }
    false
}

/// Computes the full score of one candidate word.
fn score_of(words: &Vec<String>, solutions: &Vec<String>, w: &String) -> (s: usize)
    requires
        total_score(words@, solutions@, w@) <= usize::MAX,
    ensures
        s == total_score(words@, solutions@, w@),
{
    let n = w.as_str().unicode_len();
    let mut s: usize = 0;
    for j in 0..n
        invariant
            n == w@.len(),
            total_score(words@, solutions@, w@) <= usize::MAX,
            s == letter_score_prefix(words@, w@, j as int),
    {
        let c = w.as_str().get_char(j);
        if crate::solver::count_char_upto(w.as_str(), c, j) == 0 {
            proof {
                lemma_letter_score_monotone(words@, w@, j + 1, n as int);
            }
            s = s + coverage_of(words, c);
        }
    }
    proof {
        lemma_letter_score_monotone(words@, w@, n as int, n as int);
    }
    if member_of(solutions, w) {
        s + SOLUTION_BONUS
    } else {
        s
    }
}

/// Scores every candidate and returns the `(word, score)` pairs sorted
/// by descending score; candidates with equal scores keep their input
/// order, as the ranking certificate in the contract states.
pub fn score_and_sort(words: &Vec<String>, solutions: &Vec<String>) -> (r: Vec<(String, usize)>)
    requires
        forall|i: int|
            0 <= i < words@.len() ==> total_score(words@, solutions@, #[trigger] words@[i]@)
                <= usize::MAX,
    ensures
        r@.len() == words@.len(),
        forall|k: int|
            0 <= k < r@.len() ==> #[trigger] r@[k].1 == total_score(words@, solutions@, r@[k].0@),
        forall|k: int, l: int| 0 <= k < l < r@.len() ==> #[trigger] r@[k].1 >= #[trigger] r@[l].1,
        exists|perm: Seq<int>| is_stable_ranking(perm, words@, r@),
{
    let n = words.len();
    let mut out: Vec<(String, usize)> = Vec::new();
    let ghost mut perm: Seq<int> = Seq::empty();
    for i in 0..n
        invariant
            n == words@.len(),
            forall|t: int|
                0 <= t < words@.len() ==> total_score(words@, solutions@, #[trigger] words@[t]@)
                    <= usize::MAX,
            out@.len() == i,
            perm.len() == i,
            forall|k: int| 0 <= k < perm.len() ==> 0 <= #[trigger] perm[k] < i,
            forall|k: int, l: int| 0 <= k < l < perm.len() ==> perm[k] != perm[l],
            forall|k: int| 0 <= k < perm.len() ==> #[trigger] out@[k].0 == words@[perm[k]],
            forall|k: int|
                0 <= k < perm.len() ==> #[trigger] out@[k].1 == total_score(
                    words@,
                    solutions@,
                    words@[perm[k]]@,
                ),
            forall|k: int, l: int| 0 <= k < l < out@.len() ==> out@[k].1 >= out@[l].1,
            forall|k: int, l: int|
                0 <= k < l < out@.len() && out@[k].1 == out@[l].1 ==> perm[k] < perm[l],
    {
        let s = score_of(words, solutions, &words[i]);
        let mut p: usize = 0;
        while p < out.len() && out[p].1 >= s
            invariant
                p <= out@.len(),
                forall|k: int| 0 <= k < p ==> #[trigger] out@[k].1 >= s,
            decreases out@.len() - p,
        {
            p = p + 1;
        }
        let ghost old_out = out@;
        let ghost old_perm = perm;
        out.insert(p, (words[i].clone(), s));
        proof {
            perm = perm.insert(p as int, i as int);
            old_out.insert_ensures(p as int, (words@[i as int], s));
            old_perm.insert_ensures(p as int, i as int);
            assert forall|k: int| 0 <= k < perm.len() implies 0 <= #[trigger] perm[k] < i + 1 by {
                if k < p {
                    assert(perm[k] == old_perm[k]);
                } else if k > p {
                    assert(perm[k] == old_perm[k - 1]);
                }
            }
            assert forall|k: int, l: int|
                0 <= k < l < perm.len() implies perm[k] != perm[l] by {
                if k < p {
                    assert(perm[k] == old_perm[k]);
                } else if k > p {
                    assert(perm[k] == old_perm[k - 1]);
                }
                if l < p {
                    assert(perm[l] == old_perm[l]);
                } else if l > p {
                    assert(perm[l] == old_perm[l - 1]);
                }
            }
            assert forall|k: int|
                0 <= k < perm.len() implies #[trigger] out@[k].0 == words@[perm[k]] by {
                if k < p {
                    assert(out@[k] == old_out[k]);
                    assert(perm[k] == old_perm[k]);
                } else if k > p {
                    assert(out@[k] == old_out[k - 1]);
                    assert(perm[k] == old_perm[k - 1]);
                }
            }
            assert forall|k: int|
                0 <= k < perm.len() implies #[trigger] out@[k].1 == total_score(
                words@,
                solutions@,
                words@[perm[k]]@,
            ) by {
                if k < p {
                    assert(out@[k] == old_out[k]);
                    assert(perm[k] == old_perm[k]);
                } else if k > p {
                    assert(out@[k] == old_out[k - 1]);
                    assert(perm[k] == old_perm[k - 1]);
                } else {
                    assert(perm[k] == i as int);
                    assert(out@[k].1 == s);
                    assert(s == total_score(words@, solutions@, words@[i as int]@));
                }
            }
            assert forall|k: int, l: int|
                0 <= k < l < out@.len() implies out@[k].1 >= out@[l].1 by {
                if k < p && l > p {
                    assert(out@[k] == old_out[k]);
                    assert(out@[l] == old_out[l - 1]);
                }
                if k == p && l > p {
                    assert(old_out[p as int].1 < s);
                    assert(out@[l] == old_out[l - 1]);
                }
            }
            assert forall|k: int, l: int|
                0 <= k < l < out@.len() && out@[k].1 == out@[l].1 implies perm[k] < perm[l] by {
                if l < p {
                } else if l == p {
                    assert(perm[k] == old_perm[k]);
                } else if k == p {
                    assert(out@[l] == old_out[l - 1]);
                    assert(old_out[p as int].1 < s);
                } else if k < p {
                    assert(out@[k] == old_out[k]);
                    assert(out@[l] == old_out[l - 1]);
                    assert(perm[k] == old_perm[k]);
                    assert(perm[l] == old_perm[l - 1]);
                } else {
                    assert(out@[k] == old_out[k - 1]);
                    assert(out@[l] == old_out[l - 1]);
                    assert(perm[k] == old_perm[k - 1]);
                    assert(perm[l] == old_perm[l - 1]);
                }
            }
        }
    }
    proof {
        assert(is_stable_ranking(perm, words@, out@));
    }
    out
}

} // verus!
