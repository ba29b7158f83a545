//! The ordered, mutable collection of `(pattern, enabled)` entries.
//!
//! Entries keep their insertion order; a pattern is a non-empty user glob,
//! and no two entries share the same literal pattern string once mutation
//! goes through [`IgnoreConfig::add`], which enforces both.
//! A path is ignored iff at least one enabled entry matches it; disabled
//! entries are skipped without evaluation, and the result is a pure OR over
//! the entries, independent of their order.
//!
//! The store is a plain value: the embedding program decides how to share it
//! (typically one instance behind a mutual-exclusion lock) and persists it
//! after every mutation through [`crate::codec`].

use vstd::prelude::*;
use vstd::string::StrSliceExecFns;
use crate::matcher::{pattern_matches, matches_pattern_chars};
use crate::glob::chars_of;

verus! {

/// One user glob with its enabled flag.
pub struct IgnorePattern {
    pub pattern: String,
    pub enabled: bool,
}

/// Mathematical model of one entry: the pattern's characters and the flag.
pub ghost struct EntryModel {
    pub pattern: Seq<char>,
    pub enabled: bool,
}

impl View for IgnorePattern {
    type V = EntryModel;

    open spec fn view(&self) -> EntryModel {
        EntryModel { pattern: self.pattern@, enabled: self.enabled }
    }
}

impl Clone for IgnorePattern {
    fn clone(&self) -> (r: Self)
        ensures
            r@ == self@,
    {
        IgnorePattern { pattern: self.pattern.clone(), enabled: self.enabled }
    }
}

/// The models of a sequence of entries, in order.
pub open spec fn models(v: Seq<IgnorePattern>) -> Seq<EntryModel> {
    v.map_values(|p: IgnorePattern| p@)
}

/// Some entry carries exactly this pattern string.
pub open spec fn has_pattern(s: Seq<EntryModel>, p: Seq<char>) -> bool {
    exists|i: int| 0 <= i < s.len() && s[i].pattern == p
}

/// The store without the entries whose pattern string equals `p`.
pub open spec fn remove_model(s: Seq<EntryModel>, p: Seq<char>) -> Seq<EntryModel> {
    s.filter(|e: EntryModel| e.pattern != p)
}

/// A path is ignored iff at least one enabled entry matches it.
pub open spec fn ignored(s: Seq<EntryModel>, path: Seq<char>) -> bool {
    exists|i: int| 0 <= i < s.len() && s[i].enabled && pattern_matches(path, s[i].pattern)
}

/// Recoverable failures of the mutating store operations.
#[derive(Clone, Copy, PartialEq, Eq, Structural, Debug)]
pub enum StoreError {
    /// `add` found an entry with the same literal pattern string.
    DuplicatePattern,
    /// `toggle` found no entry with that pattern string.
    PatternNotFound,
    /// `add` was handed the empty string; a pattern is a non-empty glob.
    EmptyPattern,
}

/// The ordered pattern store.
pub struct IgnoreConfig {
    pub patterns: Vec<IgnorePattern>,
}

impl View for IgnoreConfig {
    type V = Seq<EntryModel>;

    open spec fn view(&self) -> Seq<EntryModel> {
        models(self.patterns@)
    }
}

impl Default for IgnoreConfig {
    /// The empty store.
    fn default() -> (r: Self)
        ensures
            r@ == Seq::<EntryModel>::empty(),
    {
        let r = IgnoreConfig { patterns: Vec::new() };
        proof {
            assert(r@ =~= Seq::<EntryModel>::empty());
        }
        r
    }
}

impl IgnoreConfig {
    /// True iff at least one enabled entry matches the path.
    #[verifier::loop_isolation(false)]
    pub fn should_ignore(&self, path: &str) -> (r: bool)
        ensures
            r == ignored(self@, path@),
    {
        let pc = chars_of(path);
        let mut i: usize = 0;
        while i < self.patterns.len()
            invariant
                i <= self.patterns.len(),
                forall|j: int|
                    0 <= j < i ==> !(self@[j].enabled && pattern_matches(path@, self@[j].pattern)),
            decreases self.patterns.len() - i,
        {
            let entry = &self.patterns[i];
            if entry.enabled {
                let patc = chars_of(entry.pattern.as_str());
                if matches_pattern_chars(&pc, &patc) {
                    proof {
                        assert(self@[i as int].enabled && pattern_matches(
                            path@,
                            self@[i as int].pattern,
                        ));
                    }
                    return true;
                }
            }
            i = i + 1;
        }
        false
    }

    /// A read-only ordered snapshot of the current entries.
    #[verifier::loop_isolation(false)]
    pub fn list(&self) -> (r: Vec<IgnorePattern>)
        ensures
            models(r@) == self@,
    {
        let mut r: Vec<IgnorePattern> = Vec::new();
        let mut i: usize = 0;
        while i < self.patterns.len()
            invariant
                i <= self.patterns.len(),
                r@.len() == i,
                forall|j: int| 0 <= j < i ==> r@[j]@ == self@[j],
            decreases self.patterns.len() - i,
        {
            r.push(self.patterns[i].clone());
            i = i + 1;
        }
        proof {
            assert(models(r@) =~= self@);
        }
        r
    }

    /// Appends a new enabled entry. The empty string is rejected (a pattern
    /// is a non-empty user glob), and so is a pattern an entry already
    /// carries; in both cases the store is unchanged.
    #[verifier::loop_isolation(false)]
    pub fn add(&mut self, pattern: String) -> (r: Result<(), StoreError>)
        ensures
            pattern@.len() == 0 ==> r == Err::<(), StoreError>(StoreError::EmptyPattern)
                && final(self)@ == old(self)@,
            pattern@.len() > 0 && has_pattern(old(self)@, pattern@) ==> r == Err::<(), StoreError>(
                StoreError::DuplicatePattern,
            ) && final(self)@ == old(self)@,
            pattern@.len() > 0 && !has_pattern(old(self)@, pattern@) ==> r == Ok::<(), StoreError>(
                (),
            ) && final(self)@ == old(self)@.push(EntryModel { pattern: pattern@, enabled: true }),
    {
        if pattern.as_str().unicode_len() == 0 {
            return Err(StoreError::EmptyPattern);
        }
        let mut i: usize = 0;
        while i < self.patterns.len()
            invariant
                i <= self.patterns.len(),
                self == old(self),
                forall|j: int| 0 <= j < i ==> self@[j].pattern != pattern@,
            decreases self.patterns.len() - i,
        {
            if self.patterns[i].pattern == pattern {
                proof {
                    assert(self@[i as int].pattern == pattern@);
                }
                return Err(StoreError::DuplicatePattern);
            }
            i = i + 1;
        }
        self.patterns.push(IgnorePattern { pattern, enabled: true });
        proof {
            assert(self@ =~= old(self)@.push(
                EntryModel { pattern: pattern@, enabled: true },
            ));
        }
        Ok(())
    }

    /// Removes every entry whose literal pattern string equals `pattern`;
    /// a no-op, not an error, if none matches.
    #[verifier::loop_isolation(false)]
    pub fn remove(&mut self, pattern: &str)
        ensures
            final(self)@ == remove_model(old(self)@, pattern@),
    {
        let ghost pred = |e: EntryModel| e.pattern != pattern@;
        let mut kept: Vec<IgnorePattern> = Vec::new();
        let mut i: usize = 0;
        proof {
            reveal(Seq::filter);
            assert(models(kept@) =~= models(self.patterns@.take(0)));
        }
        while i < self.patterns.len()
            invariant
                i <= self.patterns.len(),
                self == old(self),
                models(kept@) == models(self.patterns@.take(i as int)).filter(pred),
            decreases self.patterns.len() - i,
        {
            let ghost prefix = models(self.patterns@.take(i as int));
            let ghost next = models(self.patterns@.take(i + 1 as int));
            proof {
                reveal(Seq::filter);
                assert(next.drop_last() =~= prefix);
                assert(next.last() == self@[i as int]);
            }
            let ghost prev = kept@;
            let entry = &self.patterns[i];
            if !str_eq(entry.pattern.as_str(), pattern) {
                let kept_entry = entry.clone();
                kept.push(kept_entry);
                proof {
                    assert(models(kept@) =~= models(prev).push(self@[i as int]));
                }
            }
            i = i + 1;
        }
        proof {
            assert(self.patterns@.take(self.patterns@.len() as int) =~= self.patterns@);
        }
        self.patterns = kept;
    }

    /// Flips the enabled flag of the first entry whose literal pattern
    /// string equals `pattern`; fails, leaving the store unchanged, if no
    /// entry matches.
    #[verifier::loop_isolation(false)]
    pub fn toggle(&mut self, pattern: &str) -> (r: Result<(), StoreError>)
        ensures
            !has_pattern(old(self)@, pattern@) ==> r == Err::<(), StoreError>(
                StoreError::PatternNotFound,
            ) && final(self)@ == old(self)@,
            has_pattern(old(self)@, pattern@) ==> r == Ok::<(), StoreError>(()) && exists|i: int|
                {
                    &&& 0 <= i < old(self)@.len()
                    &&& old(self)@[i].pattern == pattern@
                    &&& forall|j: int| 0 <= j < i ==> old(self)@[j].pattern != pattern@
                    &&& final(self)@ == old(self)@.update(
                        i,
                        EntryModel { pattern: pattern@, enabled: !old(self)@[i].enabled },
                    )
                },
    {
        let mut i: usize = 0;
        while i < self.patterns.len()
            invariant
                i <= self.patterns.len(),
                self == old(self),
                forall|j: int| 0 <= j < i ==> self@[j].pattern != pattern@,
            decreases self.patterns.len() - i,
        {
            if str_eq(self.patterns[i].pattern.as_str(), pattern) {
                let flipped = !self.patterns[i].enabled;
                let ghost before = self@;
                let entry = IgnorePattern {
                    pattern: self.patterns[i].pattern.clone(),
                    enabled: flipped,
                };
                self.patterns.set(i, entry);
                proof {
                    assert(self@ =~= before.update(
                        i as int,
                        EntryModel { pattern: pattern@, enabled: !before[i as int].enabled },
                    ));
                }
                return Ok(());
            }
            i = i + 1;
        }
        Err(StoreError::PatternNotFound)
    }
}

/// Every entry's pattern is non-empty, and no two entries share the same
/// literal pattern string. `add` establishes and the mutating operations
/// preserve this; a decoded file is taken as it stands.
pub open spec fn wf(s: Seq<EntryModel>) -> bool {
    &&& forall|i: int| 0 <= i < s.len() ==> #[trigger] s[i].pattern.len() > 0
    &&& forall|i: int, j: int| 0 <= i < j < s.len() ==> s[i].pattern != s[j].pattern
}

/// How many entries carry exactly this pattern string.
pub open spec fn count_with(s: Seq<EntryModel>, p: Seq<char>) -> nat {
    s.filter(|e: EntryModel| e.pattern == p).len()
}

/// A disabled entry never influences which paths are ignored: its pattern
/// text can be replaced by anything, or the entry dropped altogether,
/// without changing the outcome for any path.
pub proof fn lemma_disabled_entry_ignored(
    s: Seq<EntryModel>,
    i: int,
    other: Seq<char>,
    path: Seq<char>,
)
    requires
        0 <= i < s.len(),
        !s[i].enabled,
    ensures
        ignored(s.update(i, EntryModel { pattern: other, enabled: false }), path) == ignored(
            s,
            path,
        ),
        ignored(s.remove(i), path) == ignored(s, path),
{
    let s2 = s.update(i, EntryModel { pattern: other, enabled: false });
    let s3 = s.remove(i);
    if ignored(s, path) {
        let j = choose|j: int|
            0 <= j < s.len() && s[j].enabled && pattern_matches(path, s[j].pattern);
        assert(j != i);
        assert(s2[j].enabled && pattern_matches(path, s2[j].pattern));
        if j < i {
            assert(s3[j].enabled && pattern_matches(path, s3[j].pattern));
        } else {
            assert(s3[j - 1].enabled && pattern_matches(path, s3[j - 1].pattern));
        }
    }
    if ignored(s2, path) {
        let j = choose|j: int|
            0 <= j < s2.len() && s2[j].enabled && pattern_matches(path, s2[j].pattern);
        assert(j != i);
        assert(s[j].enabled && pattern_matches(path, s[j].pattern));
    }
    if ignored(s3, path) {
        let j = choose|j: int|
            0 <= j < s3.len() && s3[j].enabled && pattern_matches(path, s3[j].pattern);
        if j < i {
            assert(s[j].enabled && pattern_matches(path, s[j].pattern));
        } else {
            assert(s[j + 1].enabled && pattern_matches(path, s[j + 1].pattern));
        }
    }
}

/// Every element of a filtered store is an element of the store.
proof fn lemma_filter_elems(s: Seq<EntryModel>, pred: spec_fn(EntryModel) -> bool)
    ensures
        forall|i: int|
            0 <= i < s.filter(pred).len() ==> s.contains(#[trigger] s.filter(pred)[i]),
    decreases s.len(),
{
    reveal(Seq::filter);
    if s.len() == 0 {
    } else {
        let dl = s.drop_last();
        lemma_filter_elems(dl, pred);
        assert forall|i: int| 0 <= i < s.filter(pred).len() implies s.contains(
            #[trigger] s.filter(pred)[i],
        ) by {
            if pred(s.last()) && i == s.filter(pred).len() - 1 {
                assert(s.filter(pred)[i] == s.last());
                assert(s[s.len() - 1] == s.last());
            } else {
                assert(s.filter(pred)[i] == dl.filter(pred)[i]);
                assert(dl.contains(dl.filter(pred)[i]));
                let k = choose|k: int| 0 <= k < dl.len() && dl[k] == dl.filter(pred)[i];
                assert(s[k] == s.filter(pred)[i]);
            }
        }
    }
}

/// Adding a pattern that is not yet present appends exactly one enabled
/// entry and keeps the patterns pairwise distinct; adding it again must
/// fail, and the store then holds exactly one entry for it.
pub proof fn lemma_add_twice(s: Seq<EntryModel>, p: Seq<char>)
    requires
        wf(s),
        p.len() > 0,
        !has_pattern(s, p),
    ensures
        has_pattern(s.push(EntryModel { pattern: p, enabled: true }), p),
        wf(s.push(EntryModel { pattern: p, enabled: true })),
        count_with(s.push(EntryModel { pattern: p, enabled: true }), p) == 1,
{
    let e = EntryModel { pattern: p, enabled: true };
    let s2 = s.push(e);
    assert(s2[s.len() as int].pattern == p);
    assert forall|i: int, j: int| 0 <= i < j < s2.len() implies s2[i].pattern
        != s2[j].pattern by {
        if j == s.len() {
            assert(s2[i] == s[i]);
        }
    }
    lemma_count_none(s, p);
    lemma_count_push(s, e, p);
}

/// In a store without the pattern, no entry passes the pattern's filter.
proof fn lemma_count_none(s: Seq<EntryModel>, p: Seq<char>)
    requires
        !has_pattern(s, p),
    ensures
        count_with(s, p) == 0,
    decreases s.len(),
{
    reveal(Seq::filter);
    if s.len() == 0 {
    } else {
        let dl = s.drop_last();
        assert(forall|i: int| 0 <= i < dl.len() ==> dl[i] == s[i]);
        assert(!has_pattern(dl, p));
        lemma_count_none(dl, p);
        assert(s[s.len() - 1] == s.last());
        assert(s.last().pattern != p);
    }
}

/// Pushing an entry with the pattern raises its count by one.
proof fn lemma_count_push(s: Seq<EntryModel>, e: EntryModel, p: Seq<char>)
    requires
        e.pattern == p,
    ensures
        count_with(s.push(e), p) == count_with(s, p) + 1,
{
    reveal(Seq::filter);
    let s2 = s.push(e);
    assert(s2.drop_last() =~= s);
    assert(s2.last() == e);
}

/// Removing an absent pattern is a no-op: the store is unchanged.
pub proof fn lemma_remove_absent(s: Seq<EntryModel>, p: Seq<char>)
    requires
        !has_pattern(s, p),
    ensures
        remove_model(s, p) == s,
    decreases s.len(),
{
    reveal(Seq::filter);
    if s.len() == 0 {
        assert(remove_model(s, p) =~= s);
    } else {
        let dl = s.drop_last();
        assert(forall|i: int| 0 <= i < dl.len() ==> dl[i] == s[i]);
        assert(!has_pattern(dl, p));
        lemma_remove_absent(dl, p);
        assert(s[s.len() - 1] == s.last());
        assert(s.last().pattern != p);
        assert(remove_model(s, p) =~= s);
    }
}

/// Removing a pattern keeps the remaining patterns pairwise distinct.
pub proof fn lemma_remove_preserves_wf(s: Seq<EntryModel>, p: Seq<char>)
    requires
        wf(s),
    ensures
        wf(remove_model(s, p)),
    decreases s.len(),
{
    reveal(Seq::filter);
    let pred = |e: EntryModel| e.pattern != p;
    if s.len() == 0 {
    } else {
        let dl = s.drop_last();
        assert(forall|i: int| 0 <= i < dl.len() ==> dl[i] == s[i]);
        lemma_remove_preserves_wf(dl, p);
        if pred(s.last()) {
            lemma_filter_elems(dl, pred);
            assert forall|i: int, j: int|
                0 <= i < j < s.filter(pred).len() implies s.filter(pred)[i].pattern != s.filter(
                pred,
            )[j].pattern by {
                if j == s.filter(pred).len() - 1 {
                    assert(s.filter(pred)[j] == s.last());
                    assert(s.filter(pred)[i] == dl.filter(pred)[i]);
                    assert(dl.contains(dl.filter(pred)[i]));
                    let k = choose|k: int| 0 <= k < dl.len() && dl[k] == dl.filter(pred)[i];
                    assert(s[k].pattern != s[s.len() - 1].pattern);
                } else {
                    assert(s.filter(pred)[i] == dl.filter(pred)[i]);
                    assert(s.filter(pred)[j] == dl.filter(pred)[j]);
                }
            }
        }
    }
}

/// Toggling never changes which patterns are present, so it keeps the
/// patterns pairwise distinct.
pub proof fn lemma_toggle_preserves_wf(s: Seq<EntryModel>, i: int, e: EntryModel)
    requires
        wf(s),
        0 <= i < s.len(),
        e.pattern == s[i].pattern,
    ensures
        wf(s.update(i, e)),
{
}

/// Character-wise equality of two string slices.
fn str_eq(a: &str, b: &str) -> (r: bool)
    ensures
        r == (a@ == b@),
{
    let av = chars_of(a);
    let bv = chars_of(b);
    if av.len() != bv.len() {
        return false;
    }
    let mut i: usize = 0;
    while i < av.len()
        invariant
            i <= av.len(),
            av.len() == bv.len(),
            av@ == a@,
            bv@ == b@,
            forall|j: int| 0 <= j < i ==> av@[j] == bv@[j],
        decreases av.len() - i,
    {
        if av[i] != bv[i] {
            return false;
        }
        i = i + 1;
    }
    proof {
        assert(a@ =~= b@);
    }
    true
}

} // verus!
