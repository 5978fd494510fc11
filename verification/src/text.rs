//! Small verified text utilities: string equality, whitespace trimming
//! and substring search, shared by the record conversions and the log
//! line readers.

use vstd::prelude::*;

verus! {

/// Compares two string slices letter for letter.
pub fn str_eq(a: &str, b: &str) -> (r: bool)
    ensures
        r == (a@ == b@),
{
    let n = a.unicode_len();
    if n != b.unicode_len() {
        return false;
    }
    for i in 0..n
        invariant
            n == a@.len(),
            n == b@.len(),
            forall|j: int| 0 <= j < i ==> a@[j] == b@[j],
    {
        if a.get_char(i) != b.get_char(i) {
            return false;
        }
    }
    proof {
        assert(a@ =~= b@);
    }
    true
}

/// The ASCII whitespace characters that trimming removes.
pub open spec fn is_space(c: char) -> bool {
    c == ' ' || c == '\t' || c == '\r' || c == '\n'
}

/// How many whitespace characters `s` starts with.
pub open spec fn leading_spaces(s: Seq<char>) -> int
    decreases s.len(),
{
    if s.len() == 0 || !is_space(s[0]) {
        0
    } else {
        1 + leading_spaces(s.drop_first())
    }
}

/// How many whitespace characters `s` ends with.
pub open spec fn trailing_spaces(s: Seq<char>) -> int
    decreases s.len(),
{
    if s.len() == 0 || !is_space(s[s.len() - 1]) {
        0
    } else {
        1 + trailing_spaces(s.drop_last())
    }
}

/// `s` with leading and trailing whitespace removed.
pub open spec fn trim_spec(s: Seq<char>) -> Seq<char> {
    let a = leading_spaces(s);
    let rest = s.subrange(a, s.len() as int);
    rest.subrange(0, rest.len() - trailing_spaces(rest))
}

/// The leading-space count is the first index holding no whitespace.
proof fn lemma_leading_spaces(s: Seq<char>, k: int)
    requires
        0 <= k <= s.len(),
        forall|j: int| 0 <= j < k ==> is_space(s[j]),
        k < s.len() ==> !is_space(s[k]),
    ensures
        leading_spaces(s) == k,
    decreases k,
{
    if k == 0 {
    } else {
        lemma_leading_spaces(s.drop_first(), k - 1);
    }
}

/// The trailing-space count is determined by the last non-space index.
proof fn lemma_trailing_spaces(s: Seq<char>, k: int)
    requires
        0 <= k <= s.len(),
        forall|j: int| k <= j < s.len() ==> is_space(s[j]),
        k > 0 ==> !is_space(s[k - 1]),
    ensures
        trailing_spaces(s) == s.len() - k,
    decreases s.len() - k,
{
    if k == s.len() {
    } else {
        assert(s.drop_last() =~= s.subrange(0, s.len() - 1));
        lemma_trailing_spaces(s.drop_last(), k);
    }
}

/// Copies `s` between the character positions `from` and `to` into an
/// owned string.
fn substring_owned(s: &str, from: usize, to: usize) -> (r: String)
    requires
        from <= to <= s@.len(),
    ensures
        r@ == s@.subrange(from as int, to as int),
{
    let sub = s.substring_char(from, to);
    sub.to_owned()
}

/// Returns `s` with leading and trailing whitespace removed, as an
/// owned string.
pub fn trimmed(s: &str) -> (r: String)
    ensures
        r@ == trim_spec(s@),
{
    let n = s.unicode_len();
    let mut start: usize = 0;
    while start < n && is_space_char(s.get_char(start))
        invariant
            n == s@.len(),
            start <= n,
            forall|j: int| 0 <= j < start ==> is_space(s@[j]),
        decreases n - start,
    {
        start = start + 1;
    }
    let mut end: usize = n;
    while end > start && is_space_char(s.get_char(end - 1))
        invariant
            n == s@.len(),
            start <= end <= n,
            forall|j: int| 0 <= j < start ==> is_space(s@[j]),
            forall|j: int| end <= j < n ==> is_space(s@[j]),
        decreases end,
    {
        end = end - 1;
    }
    proof {
        lemma_leading_spaces(s@, start as int);
        let rest = s@.subrange(start as int, n as int);
        if end == start {
            lemma_trailing_spaces(rest, 0);
        } else {
            lemma_trailing_spaces(rest, end - start);
        }
        assert(trim_spec(s@) =~= s@.subrange(start as int, end as int));
    }
    substring_owned(s, start, end)
}

/// Whether one character is ASCII whitespace.
fn is_space_char(c: char) -> (r: bool)
    ensures
        r == is_space(c),
{
    c == ' ' || c == '\t' || c == '\r' || c == '\n'
}

/// Whether `pat` stands in `line` at character position `pos`.
pub open spec fn occurs_at(line: Seq<char>, pat: Seq<char>, pos: int) -> bool {
    0 <= pos && pos + pat.len() <= line.len() && line.subrange(pos, pos + pat.len()) == pat
}

/// Whether `pat` stands in `line` starting exactly at `pos`.
fn matches_at(line: &str, pat: &str, pos: usize) -> (r: bool)
    requires
        pos + pat@.len() <= line@.len(),
        line@.len() <= usize::MAX,
    ensures
        r == occurs_at(line@, pat@, pos as int),
{
    let m = pat.unicode_len();
    for j in 0..m
        invariant
            m == pat@.len(),
            pos + pat@.len() <= line@.len(),
            line@.len() <= usize::MAX,
            forall|t: int| 0 <= t < j ==> line@[pos + t] == pat@[t],
    {
        if line.get_char(pos + j) != pat.get_char(j) {
            proof {
                assert(line@.subrange(pos as int, pos + pat@.len())[j as int] != pat@[j as int]);
            }
            return false;
        }
    }
    proof {
        assert(line@.subrange(pos as int, pos + pat@.len()) =~= pat@);
    }
    true
}

/// Finds the first occurrence of `marker` in `line` and hands back what
/// follows it, trimmed of surrounding whitespace; `None` when the
/// marker does not occur.
pub fn extract_after_marker(line: &str, marker: &str) -> (r: Option<String>)
    ensures
        r is Some <==> exists|pos: int| occurs_at(line@, marker@, pos),
        r matches Some(w) ==> exists|pos: int|
            {
                &&& #[trigger] occurs_at(line@, marker@, pos)
                &&& forall|q: int| 0 <= q < pos ==> !occurs_at(line@, marker@, q)
                &&& w@ == trim_spec(line@.subrange(pos + marker@.len(), line@.len() as int))
            },
{
    let n = line.unicode_len();
    let m = marker.unicode_len();
    if m > n {
        proof {
            assert forall|pos: int| !occurs_at(line@, marker@, pos) by {}
        }
        return None;
    }
    if m == 0 {
        let out = trimmed(line);
        proof {
            assert(line@.subrange(0, 0) =~= marker@);
            assert(occurs_at(line@, marker@, 0));
            assert(line@.subrange(0 + marker@.len() as int, line@.len() as int) =~= line@);
        }
        return Some(out);
    }
    for pos in 0..n - m + 1
        invariant
            n == line@.len(),
            m == marker@.len(),
            m <= n,
            forall|q: int| 0 <= q < pos ==> !occurs_at(line@, marker@, q),
    {
        if matches_at(line, marker, pos) {
            let rest = substring_owned(line, pos + m, n);
            let out = trimmed(rest.as_str());
            proof {
                assert(rest@ == line@.subrange(pos + marker@.len(), line@.len() as int));
            }
            return Some(out);
        }
    }
    proof {
        assert forall|pos: int| !occurs_at(line@, marker@, pos) by {
            if pos > n - m {
            }
        }
    }
    None
}

} // verus!
