//! Matching one pattern against one path.
//!
//! A path is first normalized: every separator variant (backslash) is mapped
//! to the canonical separator `/`. One pattern then matches the path if any
//! of three independent strategies succeeds:
//!
//! 1. suffix match — the normalized path ends with the normalized pattern as
//!    a literal suffix, so a bare directory name matches anywhere in the tree;
//! 2. segment match — the glob engine matches the pattern against any single
//!    segment of the normalized path in isolation, so single-segment globs
//!    apply at any depth;
//! 3. full-path match — the glob engine matches the pattern against the
//!    entire normalized path, so multi-segment patterns can span directories.
//!
//! The three strategies are independently sufficient: the result is their
//! logical OR, with no precedence among them.

use vstd::prelude::*;
use crate::glob::{glob_matches, glob_match_chars, chars_of};

verus! {

/// Maps every separator variant to the canonical separator.
pub open spec fn normalize_char(c: char) -> char {
    if c == '\\' {
        '/'
    } else {
        c
    }
}

/// A path with all separators mapped to `/`.
pub open spec fn normalize(s: Seq<char>) -> Seq<char> {
    s.map_values(|c: char| normalize_char(c))
}

/// `t` ends with `suffix` as a literal sequence of characters.
pub open spec fn ends_with(t: Seq<char>, suffix: Seq<char>) -> bool {
    suffix.len() <= t.len() && t.skip(t.len() - suffix.len()) == suffix
}

/// The half-open range `[i, j)` of `s` is one whole segment: it touches a
/// separator or an end of the path on both sides and holds no separator.
pub open spec fn is_segment(s: Seq<char>, i: int, j: int) -> bool {
    &&& 0 <= i <= j <= s.len()
    &&& (i == 0 || s[i - 1] == '/')
    &&& (j == s.len() || s[j] == '/')
    &&& forall|k: int| i <= k < j ==> s[k] != '/'
}

/// Some segment of `s`, taken in isolation, matches the glob `pattern`.
pub open spec fn any_segment_matches(s: Seq<char>, pattern: Seq<char>) -> bool {
    exists|i: int, j: int| is_segment(s, i, j) && glob_matches(s.subrange(i, j), pattern)
}

/// One pattern matches one path: by normalized suffix, by any single
/// normalized segment, or by a glob over the whole normalized path.
pub open spec fn pattern_matches(path: Seq<char>, pattern: Seq<char>) -> bool {
    ||| ends_with(normalize(path), normalize(pattern))
    ||| any_segment_matches(normalize(path), pattern)
    ||| glob_matches(normalize(path), pattern)
}

/// Maps every `\` to `/` in a character vector.
pub fn normalize_chars(s: &Vec<char>) -> (r: Vec<char>)
    ensures
        r@ == normalize(s@),
{
    let mut r: Vec<char> = Vec::new();
    let mut i: usize = 0;
    while i < s.len()
        invariant
            i <= s.len(),
            r@.len() == i,
            forall|j: int| 0 <= j < i ==> r@[j] == normalize_char(s@[j]),
        decreases s.len() - i,
    {
        let c = s[i];
        if c == '\\' {
            r.push('/');
        } else {
            r.push(c);
        }
        i = i + 1;
    }
    proof {
        assert(r@ =~= normalize(s@));
    }
    r
}

/// Literal suffix test on character vectors.
fn chars_end_with(t: &Vec<char>, suffix: &Vec<char>) -> (r: bool)
    ensures
        r == ends_with(t@, suffix@),
{
    if suffix.len() > t.len() {
        return false;
    }
    let off = t.len() - suffix.len();
    let ghost tail = t@.skip(off as int);
    let mut i: usize = 0;
    while i < suffix.len()
        invariant
            i <= suffix.len(),
            off == t.len() - suffix.len(),
            tail == t@.skip(off as int),
            tail.len() == suffix@.len(),
            forall|j: int| 0 <= j < i ==> tail[j] == suffix@[j],
        decreases suffix.len() - i,
    {
        if t[off + i] != suffix[i] {
            proof {
                assert(tail[i as int] == t@[off + i]);
                assert(tail != suffix@);
            }
            return false;
        }
        i = i + 1;
    }
    proof {
        assert(tail =~= suffix@);
    }
    true
}

/// Copies the half-open range `[from, to)` of `s` into a fresh vector.
fn copy_range(s: &Vec<char>, from: usize, to: usize) -> (r: Vec<char>)
    requires
        from <= to <= s.len(),
    ensures
        r@ == s@.subrange(from as int, to as int),
{
    let mut r: Vec<char> = Vec::new();
    let mut i = from;
    while i < to
        invariant
            from <= i <= to <= s.len(),
            r@ == s@.subrange(from as int, i as int),
        decreases to - i,
    {
        r.push(s[i]);
        proof {
            assert(s@.subrange(from as int, i + 1 as int) =~= s@.subrange(
                from as int,
                i as int,
            ).push(s@[i as int]));
        }
        i = i + 1;
    }
    r
}

/// Tries the glob against every segment of `s` in isolation.
#[verifier::loop_isolation(false)]
fn any_segment_match(s: &Vec<char>, pattern: &Vec<char>) -> (r: bool)
    ensures
        r == any_segment_matches(s@, pattern@),
{
    let mut start: usize = 0;
    loop
        invariant
            start <= s.len(),
            start == 0 || s@[start - 1] == '/',
            forall|i: int, j: int|
                is_segment(s@, i, j) && j < start ==> !glob_matches(
                    s@.subrange(i, j),
                    pattern@,
                ),
        decreases s.len() - start + 1,
    {
        // Find the end of the segment that starts at `start`.
        let mut end: usize = start;
        while end < s.len() && s[end] != '/'
            invariant
                start <= end <= s.len(),
                forall|k: int| start <= k < end ==> s@[k] != '/',
            decreases s.len() - end,
        {
            end = end + 1;
        }
        proof {
            assert(is_segment(s@, start as int, end as int));
        }
        let seg = copy_range(s, start, end);
        let matched = glob_match_chars(&seg, pattern);
        proof {
            // The only segment whose span starts at or after `start` and ends
            // at or before `end` is `[start, end)` itself: no interior
            // position borders a separator.
            assert forall|i: int, j: int|
                is_segment(s@, i, j) && j <= end && !(j < start) implies i == start
                && j == end by {
                if i > start {
                    assert(s@[i - 1] != '/');
                }
                if j < end {
                    assert(s@[j] != '/');
                }
                if i < start {
                    assert(start - 1 < j);
                    assert(s@[start - 1] != '/');
                }
            }
        }
        if matched {
            return true;
        }
        if end == s.len() {
            proof {
                assert forall|i: int, j: int| is_segment(s@, i, j) implies !glob_matches(
                    s@.subrange(i, j),
                    pattern@,
                ) by {
                    assert(j <= end);
                }
            }
            return false;
        }
        start = end + 1;
    }
}

/// One pattern against one path, by the three strategies.
pub fn matches_pattern(path: &str, pattern: &str) -> (r: bool)
    ensures
        r == pattern_matches(path@, pattern@),
{
    let p = chars_of(path);
    let pat = chars_of(pattern);
    matches_pattern_chars(&p, &pat)
}

/// One pattern against one path, on character vectors.
pub fn matches_pattern_chars(path: &Vec<char>, pattern: &Vec<char>) -> (r: bool)
    ensures
        r == pattern_matches(path@, pattern@),
{
    let np = normalize_chars(path);
    let npat = normalize_chars(pattern);
    if chars_end_with(&np, &npat) {
        return true;
    }
    if any_segment_match(&np, pattern) {
        return true;
    }
    glob_match_chars(&np, pattern)
}

} // verus!
