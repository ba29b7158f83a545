//! Anchored glob matching over `*`, `?` and literal characters.
//!
//! A match must consume the entire text and the entire pattern: `*` matches
//! zero or more characters of any value, `?` matches exactly one character,
//! and every other character is a literal, case-sensitive match. There are
//! no character classes, no escapes, and no distinct `**` semantics.
//!
//! The matcher backtracks: worst-case time is exponential in the number of
//! `*` tokens. That is acceptable for short user-entered patterns and is a
//! documented limitation.

use vstd::prelude::*;
use vstd::string::StrSliceExecFns;

verus! {

/// Whole-string glob match, anchored at both ends.
///
/// For a pattern starting with `*` that has more tokens after it, the match
/// succeeds iff some split of the text lets the rest of the pattern match
/// the rest of the text.
pub open spec fn glob_matches(text: Seq<char>, pattern: Seq<char>) -> bool
    decreases pattern.len(),
{
    if pattern.len() == 0 {
        text.len() == 0
    } else if pattern[0] == '*' {
        if pattern.len() == 1 {
            true
        } else {
            exists|k: int|
                0 <= k <= text.len() && glob_matches(text.skip(k), pattern.skip(1))
        }
    } else if pattern[0] == '?' {
        text.len() > 0 && glob_matches(text.skip(1), pattern.skip(1))
    } else {
        text.len() > 0 && text[0] == pattern[0] && glob_matches(text.skip(1), pattern.skip(1))
    }
}

/// Collects the characters of a string slice into a vector.
pub fn chars_of(s: &str) -> (v: Vec<char>)
    ensures
        v@ == s@,
{
    let n = s.unicode_len();
    let mut v: Vec<char> = Vec::new();
    let mut i: usize = 0;
    while i < n
        invariant
            i <= n,
            n == s@.len(),
            v@ == s@.subrange(0, i as int),
        decreases n - i,
    {
        let c = s.get_char(i);
        v.push(c);
        proof {
            assert(s@.subrange(0, i + 1 as int) =~= s@.subrange(0, i as int).push(c));
        }
        i = i + 1;
    }
    proof {
        assert(v@ =~= s@);
    }
    v
}

/// Backtracking matcher on explicit index positions: matches the text from
/// `ti` on against the pattern from `pi` on.
#[verifier::loop_isolation(false)]
fn glob_match_at(text: &Vec<char>, pattern: &Vec<char>, ti: usize, pi: usize) -> (r: bool)
    requires
        ti <= text.len(),
        pi <= pattern.len(),
    ensures
        r == glob_matches(text@.skip(ti as int), pattern@.skip(pi as int)),
    decreases pattern.len() - pi,
{
    let ghost t = text@.skip(ti as int);
    let ghost pt = pattern@.skip(pi as int);
    if pi == pattern.len() {
        return ti == text.len();
    }
    let p = pattern[pi];
    proof {
        assert(pt[0] == p);
        assert(pt.skip(1) =~= pattern@.skip(pi + 1 as int));
    }
    if p == '*' {
        if pi + 1 == pattern.len() {
            return true;
        }
        let mut k = ti;
        loop
            invariant
                ti <= k <= text.len(),
                pi + 1 < pattern.len(),
                ti <= text.len(),
                pattern@[pi as int] == '*',
                t == text@.skip(ti as int),
                pt == pattern@.skip(pi as int),
                forall|j: int|
                    ti <= j < k ==> !glob_matches(text@.skip(j), pattern@.skip(pi + 1 as int)),
            decreases text.len() - k,
        {
            if glob_match_at(text, pattern, k, pi + 1) {
                proof {
                    assert(t.skip(k - ti) =~= text@.skip(k as int));
                    assert(0 <= k - ti <= t.len() && glob_matches(t.skip(k - ti), pt.skip(1)));
                }
                return true;
            }
            if k == text.len() {
                proof {
                    assert forall|j: int| 0 <= j <= t.len() implies !glob_matches(
                        t.skip(j),
                        pt.skip(1),
                    ) by {
                        assert(t.skip(j) =~= text@.skip(ti + j));
                        assert(!glob_matches(text@.skip(ti + j), pattern@.skip(pi + 1 as int)));
                    }
                }
                return false;
            }
            k = k + 1;
        }
    } else if p == '?' {
        if ti == text.len() {
            return false;
        }
        proof {
            assert(t.skip(1) =~= text@.skip(ti + 1 as int));
        }
        glob_match_at(text, pattern, ti + 1, pi + 1)
    } else {
        if ti == text.len() {
            return false;
        }
        proof {
            assert(t[0] == text@[ti as int]);
            assert(t.skip(1) =~= text@.skip(ti + 1 as int));
        }
        if text[ti] != p {
            return false;
        }
        glob_match_at(text, pattern, ti + 1, pi + 1)
    }
}

/// Whole-string glob match of `text` against `pattern`.
pub fn glob_match(text: &str, pattern: &str) -> (r: bool)
    ensures
        r == glob_matches(text@, pattern@),
{
    let t = chars_of(text);
    let p = chars_of(pattern);
    let r = glob_match_at(&t, &p, 0, 0);
    proof {
        assert(t@.skip(0) =~= text@);
        assert(p@.skip(0) =~= pattern@);
    }
    r
}

/// Whole-string glob match on character vectors.
pub fn glob_match_chars(text: &Vec<char>, pattern: &Vec<char>) -> (r: bool)
    ensures
        r == glob_matches(text@, pattern@),
{
    let r = glob_match_at(text, pattern, 0, 0);
    proof {
        assert(text@.skip(0) =~= text@);
        assert(pattern@.skip(0) =~= pattern@);
    }
    r
}

} // verus!
