use vstd::prelude::*;
use vstd::relations::sorted_by;
use crate::error::MatchError;
use crate::matcher::{all_compile, first_invalid, matches_any, PathMatcher};
use crate::path::{base_name, path_order, paths_view, sort_paths, texts_of, FsPath};

verus! {

/// A file chosen for reading, known by its path text.
pub struct FileContent {
    file: String,
}

impl View for FileContent {
    type V = Seq<char>;

    closed spec fn view(&self) -> Seq<char> {
        self.file@
    }
}

impl FileContent {
    /// The file at path text `file`.
    pub fn new(file: String) -> (r: FileContent)
        ensures
            r@ == file@,
    {
        FileContent { file }
    }

    /// The path text of the file.
    pub fn get_path_string(&self) -> (r: String)
        ensures
            r@ == self@,
    {
        self.file.clone()
    }
}

/// What the caller asked for: recursion, the symlink policy and the three
/// pattern groups (inclusion, exclusion, excluded directories).
pub struct FileMatchConfig {
    recursive: bool,
    include_symlinks: bool,
    include_globs: Vec<String>,
    exclude_globs: Vec<String>,
    exclude_dir_globs: Vec<String>,
}

impl FileMatchConfig {
    /// Whether directories may be walked.
    pub closed spec fn recursive_view(&self) -> bool {
        self.recursive
    }

    /// Whether symlinked entries are followed.
    pub closed spec fn symlinks_view(&self) -> bool {
        self.include_symlinks
    }

    /// The inclusion pattern texts.
    pub closed spec fn includes_view(&self) -> Seq<String> {
        self.include_globs@
    }

    /// The exclusion pattern texts.
    pub closed spec fn excludes_view(&self) -> Seq<String> {
        self.exclude_globs@
    }

    /// The exclude-dir pattern texts.
    pub closed spec fn exclude_dirs_view(&self) -> Seq<String> {
        self.exclude_dir_globs@
    }

    /// A configuration from its five settings, kept as given.
    pub fn new(
        recursive: bool,
        include_symlinks: bool,
        includes: Vec<String>,
        exclude: Vec<String>,
        exclude_dir: Vec<String>,
    ) -> (r: FileMatchConfig)
        ensures
            r.recursive_view() == recursive,
            r.symlinks_view() == include_symlinks,
            r.includes_view() == includes@,
            r.excludes_view() == exclude@,
            r.exclude_dirs_view() == exclude_dir@,
    {
        FileMatchConfig {
            recursive,
            include_symlinks,
            include_globs: includes,
            exclude_globs: exclude,
            exclude_dir_globs: exclude_dir,
        }
    }
}

/// What the filesystem says of a root path (following symlinks).
#[derive(Debug, Clone, Copy, PartialEq, Eq)]
pub enum RootKind {
    Missing,
    File,
    Dir,
    /// Exists but is neither a regular file nor a directory.
    Other,
}

/// One child of a listed directory: its base name and its metadata. `is_dir`
/// and `is_file` follow symlinks; `is_symlink` does not.
#[derive(Debug, Clone)]
pub struct EntryInfo {
    pub name: String,
    pub is_symlink: bool,
    pub is_dir: bool,
    pub is_file: bool,
}


/// No directory from a walk root down to, but not counting, component `end`
/// of `p` has a name matched by `exclude_dir`. The walk root is the prefix of
/// `p` with `depth` components.
pub open spec fn clean_below(exclude_dir: Seq<Seq<char>>, p: Seq<Seq<char>>, depth: int, end: int) -> bool {
    forall|i: int| 0 <= i && depth - 1 <= i < end ==> !matches_any(exclude_dir, #[trigger] p[i])
}

/// One resolution in progress. The caller feeds it the roots and the listings
/// of the directories it hands out, then takes the sorted result.
pub struct MatchSession {
    matcher: PathMatcher,
    recursive: bool,
    include_symlinks: bool,
    folder_stack: Vec<FsPath>,
    current: Option<FsPath>,
    found: Vec<FsPath>,
    stack_depths: Ghost<Seq<int>>,
    current_depth: Ghost<int>,
    found_depths: Ghost<Seq<int>>,
}

impl MatchSession {
    /// The compiled pattern groups.
    pub closed spec fn matcher_view(&self) -> PathMatcher {
        self.matcher
    }

    /// Whether directory roots may be walked.
    pub closed spec fn recursive_view(&self) -> bool {
        self.recursive
    }

    /// Whether symlinked entries are followed.
    pub closed spec fn symlinks_view(&self) -> bool {
        self.include_symlinks
    }

    /// Directories waiting to be listed; the last one is listed first.
    pub closed spec fn stack(&self) -> Seq<Seq<Seq<char>>> {
        paths_view(self.folder_stack@)
    }

    /// The directory handed out for listing, if any.
    pub closed spec fn current(&self) -> Option<Seq<Seq<char>>> {
        match self.current {
            Some(c) => Some(c@),
            None => None,
        }
    }

    /// Files collected so far, in the order they were found.
    pub closed spec fn found(&self) -> Seq<Seq<Seq<char>>> {
        paths_view(self.found@)
    }

    /// Number of components of the walk root of the `k`-th collected file (the
    /// file's own count when it was named as a root).
    pub closed spec fn found_depth(&self, k: int) -> int {
        self.found_depths@[k]
    }

    /// Bookkeeping is consistent, and nothing queued, handed out or collected
    /// lies below a directory that an exclude-dir pattern matches.
    pub closed spec fn wf(&self) -> bool {
        let exd = self.matcher.exclude_dir_view();
        &&& self.stack_depths@.len() == self.folder_stack@.len()
        &&& self.found_depths@.len() == self.found@.len()
        &&& forall|k: int| 0 <= k < self.folder_stack@.len() ==>
            0 <= #[trigger] self.stack_depths@[k] <= self.folder_stack@[k]@.len()
            && clean_below(exd, self.folder_stack@[k]@, self.stack_depths@[k], self.folder_stack@[k]@.len() - 1)
        &&& forall|k: int| 0 <= k < self.found@.len() ==>
            0 <= #[trigger] self.found_depths@[k] <= self.found@[k]@.len()
            && clean_below(exd, self.found@[k]@, self.found_depths@[k], self.found@[k]@.len() - 1)
        &&& self.current matches Some(c) ==>
            0 <= self.current_depth@ <= c@.len()
            && clean_below(exd, c@, self.current_depth@, c@.len() as int)
    }

    /// An entry that is skipped outright by the symlink policy.
    pub open spec fn skipped_link(&self, e: EntryInfo) -> bool {
        e.is_symlink && !self.symlinks_view()
    }

    /// A listed entry that is a directory to descend into.
    pub open spec fn descends_into(&self, e: EntryInfo) -> bool {
        !self.skipped_link(e) && e.is_dir && self.matcher_view().accepts(e.name@, false)
    }

    /// A listed entry that is a file to collect.
    pub open spec fn collects(&self, e: EntryInfo) -> bool {
        !self.skipped_link(e) && !e.is_dir && e.is_file && self.matcher_view().accepts(e.name@, true)
    }

    /// The directories that listing `entries` of `folder` adds to the stack, in
    /// order.
    pub open spec fn pushed_dirs(&self, folder: Seq<Seq<char>>, entries: Seq<EntryInfo>) -> Seq<Seq<Seq<char>>>
        decreases entries.len(),
    {
        if entries.len() == 0 {
            Seq::empty()
        } else {
            let prev = self.pushed_dirs(folder, entries.drop_last());
            if self.descends_into(entries.last()) {
                prev.push(folder.push(entries.last().name@))
            } else {
                prev
            }
        }
    }

    /// The files that listing `entries` of `folder` collects, in order.
    pub open spec fn collected_files(&self, folder: Seq<Seq<char>>, entries: Seq<EntryInfo>) -> Seq<Seq<Seq<char>>>
        decreases entries.len(),
    {
        if entries.len() == 0 {
            Seq::empty()
        } else {
            let prev = self.collected_files(folder, entries.drop_last());
            if self.collects(entries.last()) {
                prev.push(folder.push(entries.last().name@))
            } else {
                prev
            }
        }
    }

    /// Starts a resolution: compiles the three pattern groups of `config`.
    pub fn new(config: FileMatchConfig) -> (r: Result<MatchSession, MatchError>)
        ensures
            r is Ok <==> all_compile(config.includes_view()) && all_compile(config.excludes_view())
                && all_compile(config.exclude_dirs_view()),
            r matches Ok(s) ==> {
                &&& s.wf()
                &&& s.matcher_view().include_view() == texts_of(config.includes_view())
                &&& s.matcher_view().exclude_view() == texts_of(config.excludes_view())
                &&& s.matcher_view().exclude_dir_view() == texts_of(config.exclude_dirs_view())
                &&& s.recursive_view() == config.recursive_view()
                &&& s.symlinks_view() == config.symlinks_view()
                &&& s.stack().len() == 0
                &&& s.current() is None
                &&& s.found().len() == 0
            },
            r matches Err(e) ==> {
                ||| first_invalid(config.includes_view(), e)
                ||| all_compile(config.includes_view()) && first_invalid(config.excludes_view(), e)
                ||| all_compile(config.includes_view()) && all_compile(config.excludes_view())
                    && first_invalid(config.exclude_dirs_view(), e)
            },
    {
        let FileMatchConfig { recursive, include_symlinks, include_globs, exclude_globs, exclude_dir_globs } = config;
        let matcher = PathMatcher::new(include_globs, exclude_globs, exclude_dir_globs)?;
        let folder_stack: Vec<FsPath> = Vec::new();
        let found: Vec<FsPath> = Vec::new();
        assert(paths_view(folder_stack@) =~= Seq::empty());
        assert(paths_view(found@) =~= Seq::empty());
        Ok(MatchSession {
            matcher,
            recursive,
            include_symlinks,
            folder_stack,
            current: None,
            found,
            stack_depths: Ghost(Seq::empty()),
            current_depth: Ghost(0),
            found_depths: Ghost(Seq::empty()),
        })
    }

    /// `other` has the same patterns and flags as this session.
    pub open spec fn same_settings(&self, other: &MatchSession) -> bool {
        &&& self.matcher_view() == other.matcher_view()
        &&& self.recursive_view() == other.recursive_view()
        &&& self.symlinks_view() == other.symlinks_view()
    }

    /// Takes one root path: `text` is the path as the user wrote it, `path` its
    /// components, `kind` what the filesystem says of it. A file is collected
    /// when the matcher keeps it; a directory is queued for listing, which
    /// needs recursion.
    pub fn add_root(&mut self, text: String, path: FsPath, kind: RootKind) -> (r: Result<(), MatchError>)
        requires
            old(self).wf(),
        ensures
            final(self).wf(),
            final(self).same_settings(old(self)),
            final(self).current() == old(self).current(),
            match kind {
                RootKind::Missing => {
                    &&& r == Err::<(), MatchError>(MatchError::PathNotFound(text))
                    &&& final(self).stack() == old(self).stack()
                    &&& final(self).found() == old(self).found()
                },
                RootKind::File => {
                    &&& r is Ok
                    &&& final(self).stack() == old(self).stack()
                    &&& final(self).found() == if old(self).matcher_view().accepts(base_name(path@), true) {
                        old(self).found().push(path@)
                    } else {
                        old(self).found()
                    }
                },
                RootKind::Dir => {
                    &&& !old(self).recursive_view() ==> r == Err::<(), MatchError>(MatchError::RecursionRequired(text))
                        && final(self).stack() == old(self).stack()
                    &&& old(self).recursive_view() ==> r is Ok && final(self).stack() == old(self).stack().push(path@)
                    &&& final(self).found() == old(self).found()
                },
                RootKind::Other => {
                    &&& r is Ok
                    &&& final(self).stack() == old(self).stack()
                    &&& final(self).found() == old(self).found()
                },
            },
    {
        match kind {
            RootKind::Missing => Err(MatchError::PathNotFound(text)),
            RootKind::File => {
                if self.matcher.should_file_be_included(path.name(), true) {
                    let ghost before = self.found@;
                    let ghost depth = path@.len() as int;
                    self.found.push(path);
                    self.found_depths = Ghost(self.found_depths@.push(depth));
                    assert(paths_view(self.found@) =~= paths_view(before).push(self.found@.last()@));
                    assert forall|k: int| 0 <= k < self.found@.len() implies
                        0 <= #[trigger] self.found_depths@[k] <= self.found@[k]@.len()
                        && clean_below(self.matcher.exclude_dir_view(), self.found@[k]@, self.found_depths@[k], self.found@[k]@.len() - 1) by {
                        if k < before.len() {
                            assert(self.found@[k] == before[k]);
                        }
                    }
                }
                Ok(())
            },
            RootKind::Dir => {
                if !self.recursive {
                    return Err(MatchError::RecursionRequired(text));
                }
                let ghost before = self.folder_stack@;
                let ghost depth = path@.len() as int;
                self.folder_stack.push(path);
                self.stack_depths = Ghost(self.stack_depths@.push(depth));
                assert(paths_view(self.folder_stack@) =~= paths_view(before).push(self.folder_stack@.last()@));
                assert forall|k: int| 0 <= k < self.folder_stack@.len() implies
                    0 <= #[trigger] self.stack_depths@[k] <= self.folder_stack@[k]@.len()
                    && clean_below(self.matcher.exclude_dir_view(), self.folder_stack@[k]@, self.stack_depths@[k], self.folder_stack@[k]@.len() - 1) by {
                    if k < before.len() {
                        assert(self.folder_stack@[k] == before[k]);
                    }
                }
                Ok(())
            },
            RootKind::Other => Ok(()),
        }
    }

    /// Pops queued directories until one that the matcher keeps, and hands it
    /// out for listing; a directory that it rejects is dropped with all that
    /// lies below it. `None` once the queue is empty.
    pub fn next_folder(&mut self) -> (r: Option<FsPath>)
        requires
            old(self).wf(),
        ensures
            final(self).wf(),
            final(self).same_settings(old(self)),
            final(self).found() == old(self).found(),
            r is None ==> {
                &&& final(self).stack().len() == 0
                &&& final(self).current() is None
                &&& forall|k: int| 0 <= k < old(self).stack().len() ==>
                    !old(self).matcher_view().accepts(base_name(#[trigger] old(self).stack()[k]), false)
            },
            r matches Some(f) ==> exists|j: int| {
                &&& 0 <= j < old(self).stack().len()
                &&& f@ == old(self).stack()[j]
                &&& old(self).matcher_view().accepts(base_name(f@), false)
                &&& final(self).stack() == old(self).stack().subrange(0, j)
                &&& final(self).current() == Some(f@)
                &&& forall|k: int| j < k < old(self).stack().len() ==>
                    !old(self).matcher_view().accepts(base_name(#[trigger] old(self).stack()[k]), false)
            },
    {
        let ghost stack0 = self.stack();
        let ghost depths0 = self.stack_depths@;
        let ghost paths0 = self.folder_stack@;
        assert(paths0.subrange(0, paths0.len() as int) =~= paths0);
        assert(depths0.subrange(0, paths0.len() as int) =~= depths0);
        while self.folder_stack.len() > 0
            invariant
                self.same_settings(old(self)),
                self.found == old(self).found,
                self.found_depths == old(self).found_depths,
                stack0 == old(self).stack(),
                depths0 == old(self).stack_depths@,
                paths0 == old(self).folder_stack@,
                self.folder_stack@.len() <= stack0.len(),
                self.folder_stack@ == paths0.subrange(0, self.folder_stack@.len() as int),
                self.stack_depths@ == depths0.subrange(0, self.folder_stack@.len() as int),
                old(self).wf(),
                forall|k: int| self.folder_stack@.len() <= k < stack0.len() ==>
                    !old(self).matcher_view().accepts(base_name(#[trigger] stack0[k]), false),
            decreases self.folder_stack@.len(),
        {
            let ghost n = self.folder_stack@.len() - 1;
            let top = self.folder_stack.pop().unwrap();
            self.stack_depths = Ghost(self.stack_depths@.drop_last());
            assert(self.stack_depths@ =~= depths0.subrange(0, n));
            assert(self.folder_stack@ =~= paths0.subrange(0, n));
            assert(top == paths0[n]);
            assert(stack0[n] == top@);
            if self.matcher.should_file_be_included(top.name(), false) {
                let ghost depth = depths0[n];
                let ghost exd = self.matcher.exclude_dir_view();
                assert(clean_below(exd, top@, depth, top@.len() as int)) by {
                    assert(clean_below(exd, paths0[n]@, depths0[n], paths0[n]@.len() - 1));
                    if top@.len() > 0 {
                        assert(base_name(top@) == top@[top@.len() - 1]);
                    }
                }
                self.current = Some(top.duplicate());
                self.current_depth = Ghost(depth);
                assert(self.stack() =~= stack0.subrange(0, n));
                return Some(top);
            }
        }
        self.current = None;
        assert(self.stack() =~= Seq::<Seq<Seq<char>>>::empty());
        None
    }

    /// Takes the listing of the directory handed out by `next_folder`, in the
    /// order it was read: symlinks are skipped unless the policy allows them,
    /// directories the matcher keeps are queued, files it keeps are collected,
    /// and anything else is passed over. Does nothing when no directory is
    /// handed out.
    pub fn add_folder_content(&mut self, entries: Vec<EntryInfo>)
        requires
            old(self).wf(),
        ensures
            final(self).wf(),
            final(self).same_settings(old(self)),
            final(self).current() is None,
            old(self).current() is None ==> final(self).stack() == old(self).stack() && final(self).found() == old(self).found(),
            old(self).current() matches Some(c) ==> {
                &&& final(self).stack() == old(self).stack() + old(self).pushed_dirs(c, entries@)
                &&& final(self).found() == old(self).found() + old(self).collected_files(c, entries@)
            },
    {
        let folder = match &self.current {
            Some(c) => c.duplicate(),
            None => {
                return;
            },
        };
        self.current = None;
        let ghost depth = self.current_depth@;
        let ghost exd = self.matcher.exclude_dir_view();
        let ghost stack0 = old(self).stack();
        let ghost found0 = old(self).found();
        assert(stack0 + old(self).pushed_dirs(folder@, entries@.subrange(0, 0)) =~= stack0);
        assert(found0 + old(self).collected_files(folder@, entries@.subrange(0, 0)) =~= found0);
        let mut i: usize = 0;
        while i < entries.len()
            invariant
                0 <= i <= entries@.len(),
                self.same_settings(old(self)),
                self.current is None,
                old(self).current() == Some(folder@),
                exd == self.matcher.exclude_dir_view(),
                0 <= depth <= folder@.len(),
                clean_below(exd, folder@, depth, folder@.len() as int),
                stack0 == old(self).stack(),
                found0 == old(self).found(),
                self.stack() == stack0 + old(self).pushed_dirs(folder@, entries@.subrange(0, i as int)),
                self.found() == found0 + old(self).collected_files(folder@, entries@.subrange(0, i as int)),
                self.stack_depths@.len() == self.folder_stack@.len(),
                self.found_depths@.len() == self.found@.len(),
                forall|k: int| 0 <= k < self.folder_stack@.len() ==>
                    0 <= #[trigger] self.stack_depths@[k] <= self.folder_stack@[k]@.len()
                    && clean_below(exd, self.folder_stack@[k]@, self.stack_depths@[k], self.folder_stack@[k]@.len() - 1),
                forall|k: int| 0 <= k < self.found@.len() ==>
                    0 <= #[trigger] self.found_depths@[k] <= self.found@[k]@.len()
                    && clean_below(exd, self.found@[k]@, self.found_depths@[k], self.found@[k]@.len() - 1),
            decreases entries@.len() - i,
        {
            let entry = &entries[i];
            let ghost prefix = entries@.subrange(0, i as int);
            let ghost next = entries@.subrange(0, i + 1);
            assert(next.drop_last() =~= prefix);
            assert(next.last() == entries@[i as int]);
            let ghost stack_before = self.folder_stack@;
            let ghost found_before = self.found@;
            let ghost prev_dirs = old(self).pushed_dirs(folder@, prefix);
            let ghost prev_files = old(self).collected_files(folder@, prefix);
            let ghost child_view = folder@.push(entries@[i as int].name@);
            if entry.is_symlink && !self.include_symlinks {
            } else if entry.is_dir {
                if self.matcher.should_file_be_included(entry.name.as_str(), false) {
                    let child = folder.child(entry.name.clone());
                    self.folder_stack.push(child);
                    self.stack_depths = Ghost(self.stack_depths@.push(depth));
                    assert(paths_view(self.folder_stack@) =~= paths_view(stack_before).push(folder@.push(entry.name@)));
                    assert forall|k: int| 0 <= k < self.folder_stack@.len() implies
                        0 <= #[trigger] self.stack_depths@[k] <= self.folder_stack@[k]@.len()
                        && clean_below(exd, self.folder_stack@[k]@, self.stack_depths@[k], self.folder_stack@[k]@.len() - 1) by {
                        if k < stack_before.len() {
                            assert(self.folder_stack@[k] == stack_before[k]);
                        } else {
                            assert(self.folder_stack@[k]@ == folder@.push(entry.name@));
                            assert forall|j: int| 0 <= j && depth - 1 <= j < folder@.len() implies
                                !matches_any(exd, #[trigger] self.folder_stack@[k]@[j]) by {
                                assert(self.folder_stack@[k]@[j] == folder@[j]);
                            }
                        }
                    }
                }
            } else if entry.is_file {
                if self.matcher.should_file_be_included(entry.name.as_str(), true) {
                    let child = folder.child(entry.name.clone());
                    self.found.push(child);
                    self.found_depths = Ghost(self.found_depths@.push(depth));
                    assert(paths_view(self.found@) =~= paths_view(found_before).push(folder@.push(entry.name@)));
                    assert forall|k: int| 0 <= k < self.found@.len() implies
                        0 <= #[trigger] self.found_depths@[k] <= self.found@[k]@.len()
                        && clean_below(exd, self.found@[k]@, self.found_depths@[k], self.found@[k]@.len() - 1) by {
                        if k < found_before.len() {
                            assert(self.found@[k] == found_before[k]);
                        } else {
                            assert(self.found@[k]@ == folder@.push(entry.name@));
                            assert forall|j: int| 0 <= j && depth - 1 <= j < folder@.len() implies
                                !matches_any(exd, #[trigger] self.found@[k]@[j]) by {
                                assert(self.found@[k]@[j] == folder@[j]);
                            }
                        }
                    }
                }
            }
            proof {
                if old(self).descends_into(entries@[i as int]) {
                    assert(self.stack() =~= stack0 + prev_dirs.push(child_view));
                } else {
                    assert(self.stack() =~= stack0 + prev_dirs);
                }
                if old(self).collects(entries@[i as int]) {
                    assert(self.found() =~= found0 + prev_files.push(child_view));
                } else {
                    assert(self.found() =~= found0 + prev_files);
                }
            }
            i = i + 1;
        }
        assert(entries@.subrange(0, i as int) =~= entries@);
    }

    /// Ends the resolution: the collected files in the result order, fewer
    /// components first, then lexicographically.
    pub fn finish(self) -> (r: Vec<FsPath>)
        ensures
            paths_view(r@) == self.found().sort_by(path_order()),
            sorted_by(paths_view(r@), path_order()),
            paths_view(r@).to_multiset() == self.found().to_multiset(),
    {
        sort_paths(self.found)
    }
}


proof fn lemma_collected_origin(s: &MatchSession, folder: Seq<Seq<char>>, entries: Seq<EntryInfo>, k: int) -> (j: int)
    requires
        0 <= k < s.collected_files(folder, entries).len(),
    ensures
        0 <= j < entries.len(),
        s.collects(entries[j]),
        s.collected_files(folder, entries)[k] == folder.push(entries[j].name@),
    decreases entries.len(),
{
    let prev = entries.drop_last();
    if k < s.collected_files(folder, prev).len() {
        let j = lemma_collected_origin(s, folder, prev, k);
        assert(entries[j] == prev[j]);
        j
    } else {
        entries.len() - 1
    }
}

proof fn lemma_pushed_origin(s: &MatchSession, folder: Seq<Seq<char>>, entries: Seq<EntryInfo>, k: int) -> (j: int)
    requires
        0 <= k < s.pushed_dirs(folder, entries).len(),
    ensures
        0 <= j < entries.len(),
        s.descends_into(entries[j]),
        s.pushed_dirs(folder, entries)[k] == folder.push(entries[j].name@),
    decreases entries.len(),
{
    let prev = entries.drop_last();
    if k < s.pushed_dirs(folder, prev).len() {
        let j = lemma_pushed_origin(s, folder, prev, k);
        assert(entries[j] == prev[j]);
        j
    } else {
        entries.len() - 1
    }
}

/// Only files are collected: each path that a listing adds to the result is
/// named by an entry that is a file (a regular file, or a symlink to one when
/// symlinks are followed) and not a directory.
pub proof fn lemma_collected_are_files(s: &MatchSession, folder: Seq<Seq<char>>, entries: Seq<EntryInfo>, k: int)
    requires
        0 <= k < s.collected_files(folder, entries).len(),
    ensures
        exists|j: int|
            0 <= j < entries.len() && (#[trigger] entries[j]).is_file && !entries[j].is_dir
                && s.collected_files(folder, entries)[k] == folder.push(entries[j].name@),
{
    let j = lemma_collected_origin(s, folder, entries, k);
    assert(entries[j].is_file && !entries[j].is_dir);
}

/// With symlinks not followed, no symlinked entry is ever kept: each file
/// collected by a listing is named by an entry that is not a symlink.
pub proof fn lemma_symlink_files_skipped(s: &MatchSession, folder: Seq<Seq<char>>, entries: Seq<EntryInfo>, k: int)
    requires
        !s.symlinks_view(),
        0 <= k < s.collected_files(folder, entries).len(),
    ensures
        exists|j: int|
            0 <= j < entries.len() && !(#[trigger] entries[j]).is_symlink
                && s.collected_files(folder, entries)[k] == folder.push(entries[j].name@),
{
    let j = lemma_collected_origin(s, folder, entries, k);
    assert(!entries[j].is_symlink);
}

/// With symlinks not followed, no symlinked directory is descended into: each
/// directory queued by a listing is named by an entry that is not a symlink.
pub proof fn lemma_symlink_dirs_skipped(s: &MatchSession, folder: Seq<Seq<char>>, entries: Seq<EntryInfo>, k: int)
    requires
        !s.symlinks_view(),
        0 <= k < s.pushed_dirs(folder, entries).len(),
    ensures
        exists|j: int|
            0 <= j < entries.len() && !(#[trigger] entries[j]).is_symlink
                && s.pushed_dirs(folder, entries)[k] == folder.push(entries[j].name@),
{
    let j = lemma_pushed_origin(s, folder, entries, k);
    assert(!entries[j].is_symlink);
}

/// A directory matched by an exclude-dir pattern contributes nothing: no
/// collected file has such a directory among its ancestors, from the root of
/// the walk that found it down to its parent.
pub proof fn lemma_excluded_dir_pruned(s: &MatchSession, k: int, i: int)
    requires
        s.wf(),
        0 <= k < s.found().len(),
        0 <= i,
        s.found_depth(k) - 1 <= i < s.found()[k].len() - 1,
    ensures
        !matches_any(s.matcher_view().exclude_dir_view(), s.found()[k][i]),
{
    assert(s.found()[k] == s.found@[k]@);
}

} // verus!
