use vstd::prelude::*;
use crate::error::MatchError;
use crate::path::texts_of;
use crate::glob_pattern::{glob_compiles, glob_matches, GlobPattern};

verus! {

/// The pattern texts of a group, in order.
pub open spec fn pattern_texts(group: Seq<GlobPattern>) -> Seq<Seq<char>> {
    group.map_values(|p: GlobPattern| p@)
}

/// True iff some pattern of the group matches `name`; false for an empty group.
pub open spec fn matches_any(group: Seq<Seq<char>>, name: Seq<char>) -> bool {
    exists|i: int| 0 <= i < group.len() && glob_matches(#[trigger] group[i], name)
}

} // verus!

verus! {

/// The decision table for one entry, given the inclusion, exclusion and
/// exclude-dir pattern texts, the entry's base name and whether it is a file.
/// For files a non-empty inclusion group decides alone; directories are judged
/// by exclude and exclude-dir only.
pub open spec fn should_include_spec(
    includes: Seq<Seq<char>>,
    exclude: Seq<Seq<char>>,
    exclude_dir: Seq<Seq<char>>,
    name: Seq<char>,
    is_file: bool,
) -> bool {
    if includes.len() == 0 && exclude.len() == 0 {
        if is_file {
            true
        } else {
            !matches_any(exclude_dir, name)
        }
    } else if includes.len() > 0 && is_file {
        matches_any(includes, name)
    } else if is_file {
        !matches_any(exclude, name)
    } else {
        !matches_any(exclude, name) && !matches_any(exclude_dir, name)
    }
}

/// Compiles every text of `pattern_vec`, in order. Fails with the first text
/// that is not a valid glob.
pub fn vec_pattern_to_glob(pattern_vec: Vec<String>) -> (r: Result<Vec<GlobPattern>, MatchError>)
    ensures
        r is Ok <==> (forall|i: int| 0 <= i < pattern_vec@.len() ==> glob_compiles(#[trigger] pattern_vec@[i]@)),
        r matches Ok(v) ==> pattern_texts(v@) == texts_of(pattern_vec@),
        r matches Err(e) ==> exists|i: int|
            0 <= i < pattern_vec@.len() && !glob_compiles(#[trigger] pattern_vec@[i]@)
                && (forall|j: int| 0 <= j < i ==> glob_compiles(#[trigger] pattern_vec@[j]@))
                && e == MatchError::InvalidPattern(pattern_vec@[i]),
{
    let ghost texts = texts_of(pattern_vec@);
    let mut compiled: Vec<GlobPattern> = Vec::new();
    let mut i: usize = 0;
    while i < pattern_vec.len()
        invariant
            0 <= i <= pattern_vec@.len(),
            texts == texts_of(pattern_vec@),
            pattern_texts(compiled@) == texts.subrange(0, i as int),
            forall|j: int| 0 <= j < i ==> glob_compiles(#[trigger] pattern_vec@[j]@),
        decreases pattern_vec@.len() - i,
    {
        let text = pattern_vec[i].clone();
        match GlobPattern::new(text) {
            Some(p) => {
                let ghost before = compiled@;
                compiled.push(p);
                assert(pattern_texts(compiled@) =~= pattern_texts(before).push(p@));
                assert(texts[i as int] == pattern_vec@[i as int]@);
                assert(pattern_texts(compiled@) =~= texts.subrange(0, i + 1));
            },
            None => {
                return Err(MatchError::InvalidPattern(pattern_vec[i].clone()));
            },
        }
        i = i + 1;
    }
    assert(texts.subrange(0, i as int) =~= texts);
    Ok(compiled)
}

/// Whether any pattern of `pattern_vec` matches the bare name `name`.
pub fn matches(pattern_vec: &Vec<GlobPattern>, name: &str) -> (r: bool)
    ensures
        r == matches_any(pattern_texts(pattern_vec@), name@),
{
    if pattern_vec.len() == 0 {
        return false;
    }
    let mut i: usize = 0;
    while i < pattern_vec.len()
        invariant
            0 <= i <= pattern_vec@.len(),
            forall|j: int| 0 <= j < i ==> !glob_matches(#[trigger] pattern_texts(pattern_vec@)[j], name@),
        decreases pattern_vec@.len() - i,
    {
        if pattern_vec[i].matches(name) {
            assert(glob_matches(pattern_texts(pattern_vec@)[i as int], name@));
            return true;
        }
        i = i + 1;
    }
    false
}

/// The three compiled pattern groups that decide which entries are kept.
pub struct PathMatcher {
    include_pattern: Vec<GlobPattern>,
    exclude_pattern: Vec<GlobPattern>,
    exclude_dir_pattern: Vec<GlobPattern>,
}

impl PathMatcher {
    /// The inclusion pattern texts.
    pub closed spec fn include_view(&self) -> Seq<Seq<char>> {
        pattern_texts(self.include_pattern@)
    }

    /// The exclude pattern texts.
    pub closed spec fn exclude_view(&self) -> Seq<Seq<char>> {
        pattern_texts(self.exclude_pattern@)
    }

    /// The exclude-dir pattern texts.
    pub closed spec fn exclude_dir_view(&self) -> Seq<Seq<char>> {
        pattern_texts(self.exclude_dir_pattern@)
    }

    /// Whether this matcher keeps an entry with base name `name`.
    pub open spec fn accepts(&self, name: Seq<char>, is_file: bool) -> bool {
        should_include_spec(self.include_view(), self.exclude_view(), self.exclude_dir_view(), name, is_file)
    }

    /// Compiles the three groups. Fails with the first invalid text, taking the
    /// groups in the order inclusion, exclusion, exclude-dir.
    pub fn new(includes: Vec<String>, exclude: Vec<String>, exclude_dir: Vec<String>) -> (r: Result<PathMatcher, MatchError>)
        ensures
            r is Ok <==> all_compile(includes@) && all_compile(exclude@) && all_compile(exclude_dir@),
            r matches Ok(m) ==> {
                &&& m.include_view() == texts_of(includes@)
                &&& m.exclude_view() == texts_of(exclude@)
                &&& m.exclude_dir_view() == texts_of(exclude_dir@)
            },
            r matches Err(e) ==> {
                ||| first_invalid(includes@, e)
                ||| all_compile(includes@) && first_invalid(exclude@, e)
                ||| all_compile(includes@) && all_compile(exclude@) && first_invalid(exclude_dir@, e)
            },
    {
        let include_pattern = vec_pattern_to_glob(includes)?;
        let exclude_pattern = vec_pattern_to_glob(exclude)?;
        let exclude_dir_pattern = vec_pattern_to_glob(exclude_dir)?;
        Ok(PathMatcher { include_pattern, exclude_pattern, exclude_dir_pattern })
    }

    /// Whether an entry with base name `name` is kept; `is_file` tells whether
    /// the entry is a file (as opposed to a directory).
    pub fn should_file_be_included(&self, name: &str, is_file: bool) -> (r: bool)
        ensures
            r == self.accepts(name@, is_file),
    {
        if self.include_pattern.len() == 0 && self.exclude_pattern.len() == 0 {
            if is_file {
                true
            } else {
                !matches(&self.exclude_dir_pattern, name)
            }
        } else if self.include_pattern.len() > 0 && is_file {
            matches(&self.include_pattern, name)
        } else if is_file {
            !matches(&self.exclude_pattern, name)
        } else {
            !matches(&self.exclude_pattern, name) && !matches(&self.exclude_dir_pattern, name)
        }
    }
}

/// Every text of the list is a valid glob.
pub open spec fn all_compile(v: Seq<String>) -> bool {
    forall|i: int| 0 <= i < v.len() ==> glob_compiles(#[trigger] v[i]@)
}

/// `e` reports the first text of `v` that is not a valid glob.
pub open spec fn first_invalid(v: Seq<String>, e: MatchError) -> bool {
    exists|i: int|
        0 <= i < v.len() && !glob_compiles(#[trigger] v[i]@)
            && (forall|j: int| 0 <= j < i ==> glob_compiles(#[trigger] v[j]@))
            && e == MatchError::InvalidPattern(v[i])
}

/// Once an inclusion pattern is given, it alone decides for files: a file is
/// kept exactly when an inclusion pattern matches it, so a file matched by
/// neither an inclusion nor an exclusion pattern is left out.
pub proof fn lemma_inclusion_governs_files(m: &PathMatcher, name: Seq<char>)
    requires
        m.include_view().len() > 0,
    ensures
        m.accepts(name, true) == matches_any(m.include_view(), name),
        !matches_any(m.include_view(), name) && !matches_any(m.exclude_view(), name) ==> !m.accepts(name, true),
{
}

/// A directory whose name an exclude-dir pattern matches is never kept, so it
/// is neither descended into nor listed.
pub proof fn lemma_excluded_dir_rejected(m: &PathMatcher, name: Seq<char>)
    requires
        matches_any(m.exclude_dir_view(), name),
    ensures
        !m.accepts(name, false),
{
}

} // verus!
