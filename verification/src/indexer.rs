//! Index maintenance: coalescing of file-system change events into the smallest set
//! of directories to rescan, and the bookkeeping of a streaming scan.
use vstd::prelude::*;
use crate::domain::FileIdentity;
use crate::order::{is_stable_key_order, keys_view, lex_le, sort_positions_by_key};
use crate::paths::{
    components, comps_view, Comp, Component, parent_of, path_components, path_eq, path_key, path_key_of, path_parent, path_starts_with,
    same_path, starts_with,
};
use crate::text::{chars_of, chars_eq_str, seq_chars_eq, string_from_str};
use crate::operations::quarantine_dir_name;
use crate::platform::{is_observe_message, observe_error_message, ObserveError, ObservedFile};
use crate::storage::{FileObservation, ReconcileKind, StorageError};

verus! {

/// What a watcher asks the indexer to rescan.
#[derive(Debug, Clone, PartialEq, Eq)]
pub enum ReconcileRequest {
    FullSnapshot,
    Directories(Vec<String>),
}

/// `p` lies at or under one of the directories.
pub open spec fn is_covered(dirs: Seq<Seq<char>>, p: Seq<char>) -> bool {
    exists|i: int| 0 <= i < dirs.len() && path_starts_with(p, #[trigger] dirs[i])
}

/// No directory of the list lies at or under another one.
pub open spec fn is_antichain(dirs: Seq<Seq<char>>) -> bool {
    forall|i: int, j: int|
        0 <= i < dirs.len() && 0 <= j < dirs.len() && i != j ==> !path_starts_with(
            #[trigger] dirs[i],
            #[trigger] dirs[j],
        )
}

/// The directories are in path order.
pub open spec fn is_path_sorted(dirs: Seq<Seq<char>>) -> bool {
    forall|i: int, j: int|
        0 <= i < j < dirs.len() ==> lex_le(path_key(#[trigger] dirs[i]), path_key(#[trigger] dirs[j]))
}

/// Events are taken from the root and from the directory that holds it.
pub open spec fn in_watched_region(root: Seq<char>, d: Seq<char>) -> bool {
    path_starts_with(d, root) || path_starts_with(
        d,
        match path_parent(root) {
            Some(p) => p,
            None => root,
        },
    )
}

pub open spec fn path_keys(dirs: Seq<Seq<char>>) -> Seq<Seq<u64>> {
    dirs.map_values(|d: Seq<char>| path_key(d))
}

/// `out` is `list` in path order.
pub open spec fn is_path_sorting(list: Seq<Seq<char>>, out: Seq<Seq<char>>) -> bool {
    exists|order: Seq<usize>|
        is_stable_key_order(path_keys(list), order) && out.len() == order.len() && forall|
            i: int,
        |
            0 <= i < out.len() ==> out[i] == list[#[trigger] order[i] as int]
}

/// Value view of a dirty-directory set.
pub struct DirtyView {
    pub root: Seq<char>,
    pub directories: Seq<Seq<char>>,
    pub full_snapshot: bool,
}

/// Pending rescans: either a full snapshot, or the smallest set of directories whose
/// subtrees hold every changed path, none inside another, kept in path order.
#[derive(Debug)]
pub struct DirtyDirectorySet {
    root: String,
    directories: Vec<String>,
    full_snapshot: bool,
}

pub open spec fn strings_view(v: Seq<String>) -> Seq<Seq<char>> {
    v.map_values(|s: String| s@)
}

impl DirtyDirectorySet {
    pub closed spec fn view(&self) -> DirtyView {
        DirtyView {
            root: self.root@,
            directories: strings_view(self.directories@),
            full_snapshot: self.full_snapshot,
        }
    }

    #[verifier::type_invariant]
    closed spec fn wf(&self) -> bool {
        is_antichain(strings_view(self.directories@)) && is_path_sorted(
            strings_view(self.directories@),
        )
    }

    /// An empty set for the root, given the root's canonical form.
    pub fn new(canonical_root: Result<String, std::io::Error>) -> (r: Result<Self, std::io::Error>)
        ensures
            match canonical_root {
                Ok(root) => r matches Ok(s) && s.view().root == root@ && s.view().directories
                    == Seq::<Seq<char>>::empty() && !s.view().full_snapshot,
                Err(e) => r == Err::<Self, std::io::Error>(e),
            },
    {
        let root = canonical_root?;
        let s = DirtyDirectorySet { root, directories: Vec::new(), full_snapshot: false };
        assert(strings_view(s.directories@) =~= Seq::<Seq<char>>::empty());
        Ok(s)
    }

    /// The set's directories and whether a full snapshot is pending.
    pub fn pending(&self) -> (r: (Vec<String>, bool))
        ensures
            strings_view(r.0@) == self.view().directories,
            r.1 == self.view().full_snapshot,
            is_antichain(self.view().directories),
            is_path_sorted(self.view().directories),
    {
        proof {
            use_type_invariant(self);
        }
        let mut out: Vec<String> = Vec::new();
        let mut i: usize = 0;
        while i < self.directories.len()
            invariant
                i <= self.directories.len(),
                strings_view(out@) == strings_view(self.directories@).take(i as int),
            decreases self.directories.len() - i,
        {
            let ghost before = out@;
            let c = self.directories[i].clone();
            assert(c@ == self.directories@[i as int]@);
            out.push(c);
            assert(strings_view(out@) =~= strings_view(before).push(c@));
            assert(strings_view(self.directories@).take(i + 1) =~= strings_view(self.directories@).take(
                i as int,
            ).push(c@));
            i += 1;
        }
        assert(strings_view(self.directories@).take(i as int) =~= strings_view(self.directories@));
        (out, self.full_snapshot)
    }

    /// Records a change in `directory` (the changed directory itself, or the directory
    /// holding a changed file, in canonical form where it still exists). Changes outside
    /// the root and its parent are ignored; a change at the root replaces everything
    /// with the root; a change under a pending directory adds nothing; otherwise the
    /// directory replaces the pending directories inside it.
    pub fn mark_event_path(&mut self, directory: &str)
        ensures
            final(self).view().root == old(self).view().root,
            final(self).view().full_snapshot == old(self).view().full_snapshot,
            !in_watched_region(old(self).view().root, directory@) ==> final(self).view()
                == old(self).view(),
            in_watched_region(old(self).view().root, directory@) && path_eq(
                directory@,
                old(self).view().root,
            ) ==> final(self).view().directories == seq![old(self).view().root],
            in_watched_region(old(self).view().root, directory@) && !path_eq(
                directory@,
                old(self).view().root,
            ) && is_covered(old(self).view().directories, directory@) ==> final(self).view()
                == old(self).view(),
            in_watched_region(old(self).view().root, directory@) && !path_eq(
                directory@,
                old(self).view().root,
            ) && !is_covered(old(self).view().directories, directory@) ==> is_path_sorting(
                old(self).view().directories.filter(
                    |e: Seq<char>| !path_starts_with(e, directory@),
                ).push(directory@),
                final(self).view().directories,
            ),
            is_antichain(final(self).view().directories),
            is_path_sorted(final(self).view().directories),
            in_watched_region(old(self).view().root, directory@) ==> is_covered(
                final(self).view().directories,
                directory@,
            ),
            !path_eq(directory@, old(self).view().root) ==> forall|p: Seq<char>|
                is_covered(old(self).view().directories, p) ==> is_covered(
                    final(self).view().directories,
                    p,
                ),
            forall|p: Seq<char>|
                is_covered(old(self).view().directories, p) && path_starts_with(
                    p,
                    old(self).view().root,
                ) ==> is_covered(final(self).view().directories, p),
    {
        proof {
            use_type_invariant(&*self);
        }
        let d = chars_of(directory);
        let root = chars_of(self.root.as_str());
        let region = match parent_of(&root) {
            Some(p) => p,
            None => root.clone(),
        };
        if !starts_with(&d, &root) && !starts_with(&d, &region) {
            return;
        }
        if same_path(&d, &root) {
            let only = vec![self.root.clone()];
            assert(strings_view(only@) =~= seq![self.root@]);
            proof {
                lemma_path_eq_starts_with(directory@, root@);
                assert(path_starts_with(directory@, strings_view(only@)[0]));
                assert forall|p: Seq<char>|
                    is_covered(old(self).view().directories, p) && path_starts_with(
                        p,
                        old(self).view().root,
                    ) implies is_covered(strings_view(only@), p) by {
                    assert(path_starts_with(p, strings_view(only@)[0]));
                }
            }
            self.directories = only;
            return;
        }
        let ghost dirs = strings_view(self.directories@);
        let mut i: usize = 0;
        while i < self.directories.len()
            invariant
                i <= self.directories.len(),
                dirs == strings_view(self.directories@),
                d@ == directory@,
                self.directories@ == old(self).directories@,
                self.root == old(self).root,
                self.full_snapshot == old(self).full_snapshot,
                !path_eq(d@, self.root@),
                is_antichain(dirs),
                is_path_sorted(dirs),
                forall|k: int| 0 <= k < i ==> !path_starts_with(d@, #[trigger] dirs[k]),
            decreases self.directories.len() - i,
        {
            let e = chars_of(self.directories[i].as_str());
            if starts_with(&d, &e) {
                assert(path_starts_with(d@, dirs[i as int]));
                assert(is_covered(dirs, d@));
                return;
            }
            i += 1;
        }
        let ghost pred = |e: Seq<char>| !path_starts_with(e, directory@);
        let mut kept: Vec<String> = Vec::new();
        let mut j: usize = 0;
        while j < self.directories.len()
            invariant
                j <= self.directories.len(),
                dirs == strings_view(self.directories@),
                d@ == directory@,
                is_antichain(dirs),
                pred == (|e: Seq<char>| !path_starts_with(e, directory@)),
                strings_view(kept@) == dirs.take(j as int).filter(pred),
            decreases self.directories.len() - j,
        {
            let e = chars_of(self.directories[j].as_str());
            let ghost before = kept@;
            assert(dirs.take(j + 1).drop_last() =~= dirs.take(j as int));
            assert(e@ == dirs[j as int]);
            proof {
                reveal(Seq::filter);
            }
            if !starts_with(&e, &d) {
                kept.push(self.directories[j].clone());
                assert(strings_view(kept@) =~= strings_view(before).push(dirs[j as int]));
            }
            j += 1;
        }
        assert(dirs.take(j as int) =~= dirs);
        let ghost list = dirs.filter(pred).push(directory@);
        kept.push(string_from(directory));
        assert(strings_view(kept@) =~= list);
        proof {
            lemma_marked_antichain(dirs, directory@);
        }
        let sorted = sort_paths(&kept);
        proof {
            lemma_sorting_keeps_antichain(list, strings_view(sorted@));
            lemma_marking_covers(dirs, directory@, strings_view(sorted@));
        }
        self.directories = sorted;
    }

    /// Drops pending directories and asks for a full snapshot.
    pub fn require_full_snapshot(&mut self)
        ensures
            final(self).view().root == old(self).view().root,
            final(self).view().full_snapshot,
            final(self).view().directories == Seq::<Seq<char>>::empty(),
    {
        proof {
            use_type_invariant(&*self);
        }
        self.full_snapshot = true;
        let empty: Vec<String> = Vec::new();
        assert(strings_view(empty@) =~= Seq::<Seq<char>>::empty());
        self.directories = empty;
    }

    /// Hands out the pending work: a full snapshot first if one is pending, otherwise
    /// the pending directories (leaving none), or nothing.
    pub fn drain(&mut self) -> (r: Option<ReconcileRequest>)
        ensures
            final(self).view().root == old(self).view().root,
            !final(self).view().full_snapshot,
            old(self).view().full_snapshot ==> r == Some(ReconcileRequest::FullSnapshot)
                && final(self).view().directories == old(self).view().directories,
            !old(self).view().full_snapshot && old(self).view().directories.len() == 0 ==> r is None
                && final(self).view() == old(self).view(),
            !old(self).view().full_snapshot && old(self).view().directories.len() > 0 ==> (r matches Some(
                ReconcileRequest::Directories(ds),
            ) && strings_view(ds@) == old(self).view().directories && final(self).view().directories
                == Seq::<Seq<char>>::empty()),
    {
        proof {
            use_type_invariant(&*self);
        }
        if self.full_snapshot {
            self.full_snapshot = false;
            return Some(ReconcileRequest::FullSnapshot);
        }
        if self.directories.len() == 0 {
            return None;
        }
        let mut taken: Vec<String> = Vec::new();
        assert(strings_view(taken@) =~= Seq::<Seq<char>>::empty());
        std::mem::swap(&mut taken, &mut self.directories);
        Some(ReconcileRequest::Directories(taken))
    }
}

fn string_from(s: &str) -> (r: String)
    ensures
        r@ == s@,
{
    crate::text::string_from_str(s)
}

/// Sorts paths into path order.
fn sort_paths(list: &Vec<String>) -> (r: Vec<String>)
    ensures
        is_path_sorting(strings_view(list@), strings_view(r@)),
        is_path_sorted(strings_view(r@)),
{
    let ghost lv = strings_view(list@);
    let mut keys: Vec<Vec<u64>> = Vec::new();
    let mut j: usize = 0;
    while j < list.len()
        invariant
            j <= list.len(),
            lv == strings_view(list@),
            keys_view(keys@) == path_keys(lv).take(j as int),
        decreases list.len() - j,
    {
        let sv = chars_of(list[j].as_str());
        let k = path_key_of(&sv);
        let ghost before = keys@;
        keys.push(k);
        assert(keys_view(keys@) =~= keys_view(before).push(k@));
        j += 1;
        assert(keys_view(keys@) =~= path_keys(lv).take(j as int));
    }
    assert(keys_view(keys@) =~= path_keys(lv));
    let order = sort_positions_by_key(&keys);
    let mut out: Vec<String> = Vec::new();
    let mut m: usize = 0;
    while m < order.len()
        invariant
            m <= order.len(),
            lv == strings_view(list@),
            is_stable_key_order(path_keys(lv), order@),
            out.len() == m,
            forall|x: int| 0 <= x < m ==> out@[x]@ == lv[#[trigger] order@[x] as int],
        decreases order.len() - m,
    {
        out.push(list[order[m]].clone());
        m += 1;
    }
    let ghost ov = strings_view(out@);
    assert(forall|x: int| 0 <= x < ov.len() ==> ov[x] == lv[#[trigger] order@[x] as int]);
    assert(is_path_sorted(ov)) by {
        assert forall|x: int, y: int| 0 <= x < y < ov.len() implies lex_le(
            path_key(#[trigger] ov[x]),
            path_key(#[trigger] ov[y]),
        ) by {
            assert(path_keys(lv)[order@[x] as int] == path_key(ov[x]));
            assert(path_keys(lv)[order@[y] as int] == path_key(ov[y]));
        }
    }
    out
}

/// Component prefixes compose.
pub proof fn lemma_starts_with_transitive(a: Seq<char>, b: Seq<char>, c: Seq<char>)
    requires
        path_starts_with(a, b),
        path_starts_with(b, c),
    ensures
        path_starts_with(a, c),
{
    let ac = path_components(a);
    let bc = path_components(b);
    let cc = path_components(c);
    assert(ac.subrange(0, cc.len() as int) =~= bc.subrange(0, cc.len() as int));
}

proof fn lemma_marked_antichain(dirs: Seq<Seq<char>>, d: Seq<char>)
    requires
        is_antichain(dirs),
        !is_covered(dirs, d),
    ensures
        is_antichain(dirs.filter(|e: Seq<char>| !path_starts_with(e, d)).push(d)),
{
    let pred = |e: Seq<char>| !path_starts_with(e, d);
    let f = dirs.filter(pred);
    let out = f.push(d);
    let n = f.len() as int;
    assert forall|i: int, j: int|
        0 <= i < out.len() && 0 <= j < out.len() && i != j implies !path_starts_with(
        #[trigger] out[i],
        #[trigger] out[j],
    ) by {
        if i < n && j < n {
            lemma_filter_positions_distinct(dirs, pred, i, j);
        } else if i == n {
            assert(f.contains(f[j]));
            dirs.lemma_filter_contains_rev(pred, f[j]);
            let k = choose|k: int| 0 <= k < dirs.len() && dirs[k] == f[j];
            assert(!path_starts_with(d, dirs[k]));
        } else {
            dirs.lemma_filter_pred(pred, i);
        }
    }
}

/// Two distinct positions of a filtered antichain come from two distinct positions.
proof fn lemma_filter_positions_distinct(
    dirs: Seq<Seq<char>>,
    pred: spec_fn(Seq<char>) -> bool,
    i: int,
    j: int,
)
    requires
        is_antichain(dirs),
        0 <= i < dirs.filter(pred).len(),
        0 <= j < dirs.filter(pred).len(),
        i != j,
    ensures
        !path_starts_with(dirs.filter(pred)[i], dirs.filter(pred)[j]),
    decreases dirs.len(),
{
    reveal(Seq::filter);
    dirs.lemma_filter_len(pred);
    let prev = dirs.drop_last();
    assert(is_antichain(prev)) by {
        assert forall|a: int, b: int|
            0 <= a < prev.len() && 0 <= b < prev.len() && a != b implies !path_starts_with(
            #[trigger] prev[a],
            #[trigger] prev[b],
        ) by {
            assert(prev[a] == dirs[a] && prev[b] == dirs[b]);
        }
    }
    let f = prev.filter(pred);
    if pred(dirs.last()) {
        let n = f.len() as int;
        if i < n && j < n {
            lemma_filter_positions_distinct(prev, pred, i, j);
        } else {
            let other = if i < n {
                i
            } else {
                j
            };
            assert(f.contains(f[other]));
            prev.lemma_filter_contains_rev(pred, f[other]);
            let k = choose|k: int| 0 <= k < prev.len() && prev[k] == f[other];
            assert(dirs[k] == f[other]);
            assert(dirs[dirs.len() - 1] == dirs.last());
        }
    } else {
        lemma_filter_positions_distinct(prev, pred, i, j);
    }
}

proof fn lemma_sorting_keeps_antichain(list: Seq<Seq<char>>, out: Seq<Seq<char>>)
    requires
        is_antichain(list),
        is_path_sorting(list, out),
    ensures
        is_antichain(out),
{
    let order = choose|order: Seq<usize>|
        is_stable_key_order(path_keys(list), order) && out.len() == order.len() && forall|i: int|
            0 <= i < out.len() ==> out[i] == list[#[trigger] order[i] as int];
    assert forall|i: int, j: int|
        0 <= i < out.len() && 0 <= j < out.len() && i != j implies !path_starts_with(
        #[trigger] out[i],
        #[trigger] out[j],
    ) by {
        assert(out[i] == list[order[i] as int]);
        assert(out[j] == list[order[j] as int]);
        assert(order[i] != order[j]);
    }
}


/// Equal paths are component prefixes of each other.
pub proof fn lemma_path_eq_starts_with(a: Seq<char>, b: Seq<char>)
    requires
        path_eq(a, b),
    ensures
        path_starts_with(a, b),
        path_starts_with(b, a),
{
    assert(path_components(a).subrange(0, path_components(a).len() as int) =~= path_components(a));
}

/// Every path is a component prefix of itself.
pub proof fn lemma_starts_with_reflexive(a: Seq<char>)
    ensures
        path_starts_with(a, a),
{
    assert(path_components(a).subrange(0, path_components(a).len() as int) =~= path_components(a));
}

proof fn lemma_marking_covers(dirs: Seq<Seq<char>>, d: Seq<char>, out: Seq<Seq<char>>)
    requires
        is_path_sorting(dirs.filter(|e: Seq<char>| !path_starts_with(e, d)).push(d), out),
    ensures
        is_covered(out, d),
        forall|p: Seq<char>| is_covered(dirs, p) ==> is_covered(out, p),
{
    let pred = |e: Seq<char>| !path_starts_with(e, d);
    let list = dirs.filter(pred).push(d);
    let order = choose|order: Seq<usize>|
        is_stable_key_order(path_keys(list), order) && out.len() == order.len() && forall|i: int|
            0 <= i < out.len() ==> out[i] == list[#[trigger] order[i] as int];
    assert forall|k: int| 0 <= k < list.len() implies #[trigger] out.contains(list[k]) by {
        assert(path_keys(list).len() == list.len());
        assert(crate::order::position_listed(order, k));
        let i = choose|i: int| 0 <= i < order.len() && order[i] == k;
        assert(out[i] == list[k]);
    }
    lemma_starts_with_reflexive(d);
    assert(out.contains(list[list.len() - 1]));
    assert forall|p: Seq<char>| is_covered(dirs, p) implies is_covered(out, p) by {
        let k = choose|k: int| 0 <= k < dirs.len() && path_starts_with(p, #[trigger] dirs[k]);
        if pred(dirs[k]) {
            dirs.lemma_filter_contains(pred, k);
            let f = dirs.filter(pred);
            let x = choose|x: int| 0 <= x < f.len() && f[x] == dirs[k];
            assert(list[x] == dirs[k]);
            assert(out.contains(list[x]));
            let y = choose|y: int| 0 <= y < out.len() && out[y] == list[x];
            assert(path_starts_with(p, out[y]));
        } else {
            lemma_starts_with_transitive(p, dirs[k], d);
            assert(out.contains(list[list.len() - 1]));
            let y = choose|y: int| 0 <= y < out.len() && out[y] == list[list.len() - 1];
            assert(path_starts_with(p, out[y]));
        }
    }
    let y = choose|y: int| 0 <= y < out.len() && out[y] == list[list.len() - 1];
    assert(path_starts_with(d, out[y]));
}


/// Limits of a library scan.
#[derive(Debug, Clone)]
pub struct ScanOptions {
    pub batch_size: usize,
    pub max_depth: Option<usize>,
    pub excluded_directory_names: Vec<String>,
    pub max_reported_issues: usize,
}

impl Default for ScanOptions {
    fn default() -> (r: Self)
        ensures
            r.batch_size == 256,
            r.max_depth is None,
            r.excluded_directory_names@.len() == 0,
            r.max_reported_issues == 100,
    {
        ScanOptions {
            batch_size: 256,
            max_depth: None,
            excluded_directory_names: Vec::new(),
            max_reported_issues: 100,
        }
    }
}

/// Counters of a scan in progress.
#[derive(Debug, Clone, PartialEq, Eq)]
pub struct ScanProgress {
    pub visited_entries: u64,
    pub indexed_files: u64,
    pub inserted_files: u64,
    pub updated_files: u64,
    pub skipped_entries: u64,
}

impl Default for ScanProgress {
    fn default() -> (r: Self)
        ensures
            r.visited_entries == 0 && r.indexed_files == 0 && r.inserted_files == 0
                && r.updated_files == 0 && r.skipped_entries == 0,
    {
        ScanProgress {
            visited_entries: 0,
            indexed_files: 0,
            inserted_files: 0,
            updated_files: 0,
            skipped_entries: 0,
        }
    }
}

/// A path that a scan could not index, and why.
#[derive(Debug, Clone, PartialEq, Eq)]
pub struct ScanIssue {
    pub path: String,
    pub message: String,
}

/// The outcome of a scan.
#[derive(Debug, Clone, PartialEq, Eq)]
pub struct ScanReport {
    pub progress: ScanProgress,
    pub issues: Vec<ScanIssue>,
    pub cancelled: bool,
    pub incomplete: bool,
}

/// Why a scan could not run.
#[derive(Debug)]
pub enum ScanError {
    InvalidRoot(String),
    Io(std::io::Error),
    Storage(StorageError),
}

/// Records an issue while fewer than `maximum` are recorded.
pub fn push_issue(issues: &mut Vec<ScanIssue>, maximum: usize, path: &str, message: String)
    ensures
        old(issues)@.len() < maximum ==> final(issues)@.len() == old(issues)@.len() + 1
            && final(issues)@.take(old(issues)@.len() as int) == old(issues)@ && final(issues)@.last().path@
            == path@ && final(issues)@.last().message@ == message@,
        old(issues)@.len() >= maximum ==> final(issues)@ == old(issues)@,
{
    if issues.len() < maximum {
        let issue = ScanIssue { path: crate::text::string_from_str(path), message };
        let ghost before = issues@;
        issues.push(issue);
        assert(issues@.take(before.len() as int) =~= before);
    }
}

/// The number of files reconciled per batch: the configured size within 1 to 2048.
pub fn scan_batch_size(options: &ScanOptions) -> (r: usize)
    ensures
        r == (if options.batch_size < 1 {
            1
        } else if options.batch_size > 2048 {
            2048
        } else {
            options.batch_size
        }),
{
    if options.batch_size < 1 {
        1
    } else if options.batch_size > 2048 {
        2048
    } else {
        options.batch_size
    }
}

/// A directory is entered unless its name is excluded or the depth limit is reached.
pub open spec fn descends_into(
    excluded: Seq<Seq<char>>,
    max_depth: Option<usize>,
    depth: usize,
    name: Seq<char>,
) -> bool {
    !excluded.contains(name) && !(max_depth is Some && depth >= max_depth->0)
}

/// Whether a scan enters a directory found at `depth` under the given name.
pub fn should_descend(options: &ScanOptions, depth: usize, name: &str) -> (r: bool)
    ensures
        r == descends_into(strings_view(options.excluded_directory_names@), options.max_depth, depth, name@),
{
    let n = chars_of(name);
    let ghost ev = strings_view(options.excluded_directory_names@);
    let mut i: usize = 0;
    while i < options.excluded_directory_names.len()
        invariant
            i <= options.excluded_directory_names.len(),
            n@ == name@,
            ev == strings_view(options.excluded_directory_names@),
            forall|k: int| 0 <= k < i ==> ev[k] != name@,
        decreases options.excluded_directory_names.len() - i,
    {
        if chars_eq_str(&n, options.excluded_directory_names[i].as_str()) {
            assert(ev[i as int] == name@);
            return false;
        }
        i += 1;
    }
    match options.max_depth {
        Some(maximum) => depth < maximum,
        None => true,
    }
}

/// The stable index record id of a file: `file_` and the hex BLAKE3 digest of the
/// library id and the file's identity.
pub fn stable_record_id(library_id: &str, identity: &FileIdentity) -> (r: String)
    ensures
        r@ == crate::operations::stable_file_id_of(library_id@, identity@),
{
    crate::operations::stable_file_id(library_id, identity)
}

/// Bookkeeping of a streaming scan: counters, reported issues, the identities already
/// indexed in this scan, and the batch waiting to be reconciled.
pub struct ScanState {
    pub progress: ScanProgress,
    pub issues: Vec<ScanIssue>,
    pub seen: Vec<(String, String)>,
    pub batch: Vec<FileObservation>,
}

pub open spec fn seen_view(v: Seq<(String, String)>) -> Seq<(Seq<char>, Seq<char>)> {
    v.map_values(|p: (String, String)| (p.0@, p.1@))
}

/// What admitting an observed file does to a scan: a file whose volume and native id
/// were already indexed in this scan (a hard link) is counted as skipped; any other is
/// remembered and appended to the batch under its stable record id. Nothing else moves.
pub open spec fn admits(
    old: ScanState,
    new: ScanState,
    library_id: Seq<char>,
    path: Seq<char>,
    observed: ObservedFile,
) -> bool {
    &&& {
        let key = (observed.identity.volume_id@, observed.identity.native_file_id@);
        if seen_view(old.seen@).contains(key) {
            &&& new.progress.skipped_entries == old.progress.skipped_entries + 1
            &&& new.batch@ == old.batch@
            &&& new.seen@ == old.seen@
        } else {
            &&& new.progress.skipped_entries == old.progress.skipped_entries
            &&& seen_view(new.seen@) == seen_view(old.seen@).push(key)
            &&& new.batch@.len() == old.batch@.len() + 1
            &&& new.batch@.take(old.batch@.len() as int) == old.batch@
            &&& new.batch@.last().new_file_id@ == crate::operations::stable_file_id_of(
                library_id,
                observed.identity@,
            )
            &&& new.batch@.last().path@ == path
            &&& new.batch@.last().identity@ == observed.identity@
            &&& new.batch@.last().snapshot == observed.snapshot
        }
    }
    &&& new.progress.visited_entries == old.progress.visited_entries
    &&& new.progress.indexed_files == old.progress.indexed_files
    &&& new.progress.inserted_files == old.progress.inserted_files
    &&& new.progress.updated_files == old.progress.updated_files
    &&& new.issues@ == old.issues@
}

impl ScanState {
    pub fn new() -> (r: Self)
        ensures
            r.progress == (ScanProgress {
                visited_entries: 0,
                indexed_files: 0,
                inserted_files: 0,
                updated_files: 0,
                skipped_entries: 0,
            }),
            r.issues@.len() == 0,
            r.seen@.len() == 0,
            r.batch@.len() == 0,
    {
        ScanState {
            progress: ScanProgress {
                visited_entries: 0,
                indexed_files: 0,
                inserted_files: 0,
                updated_files: 0,
                skipped_entries: 0,
            },
            issues: Vec::new(),
            seen: Vec::new(),
            batch: Vec::new(),
        }
    }

    /// Adds an observed regular file to the batch, unless a file with the same volume
    /// and native id was already indexed in this scan (a hard link), which is skipped.
    pub fn admit_file(&mut self, library_id: &str, path: String, observed: ObservedFile)
        requires
            old(self).progress.skipped_entries < u64::MAX,
        ensures
            admits(*old(self), *final(self), library_id@, path@, observed),
    {
        let ghost key = (observed.identity.volume_id@, observed.identity.native_file_id@);
        let ghost sv = seen_view(self.seen@);
        let vol = chars_of(observed.identity.volume_id.as_str());
        let native = chars_of(observed.identity.native_file_id.as_str());
        let mut i: usize = 0;
        while i < self.seen.len()
            invariant
                i <= self.seen.len(),
                sv == seen_view(self.seen@),
                vol@ == key.0,
                native@ == key.1,
                self.progress == old(self).progress,
                self.seen@ == old(self).seen@,
                self.batch@ == old(self).batch@,
                self.issues@ == old(self).issues@,
                old(self).progress.skipped_entries < u64::MAX,
                key == (observed.identity.volume_id@, observed.identity.native_file_id@),
                forall|k: int| 0 <= k < i ==> sv[k] != key,
            decreases self.seen.len() - i,
        {
            if chars_eq_str(&vol, self.seen[i].0.as_str()) && chars_eq_str(
                &native,
                self.seen[i].1.as_str(),
            ) {
                assert(sv[i as int] == key);
                self.progress.skipped_entries = self.progress.skipped_entries + 1;
                return;
            }
            i += 1;
        }
        assert(!sv.contains(key));
        let pair = (observed.identity.volume_id.clone(), observed.identity.native_file_id.clone());
        let ghost seen_before = self.seen@;
        self.seen.push(pair);
        assert(seen_view(self.seen@) =~= sv.push(key));
        let id = stable_record_id(library_id, &observed.identity);
        let entry = FileObservation {
            new_file_id: id,
            path,
            identity: observed.identity,
            snapshot: observed.snapshot,
        };
        let ghost batch_before = self.batch@;
        self.batch.push(entry);
        assert(self.batch@.take(batch_before.len() as int) =~= batch_before);
    }

    /// Counts what reconciling a batch did: every result is indexed; insertions and
    /// updates (moves or metadata changes) are counted apart.
    pub fn record_reconciled(&mut self, kinds: &Vec<ReconcileKind>)
        requires
            old(self).progress.indexed_files + kinds.len() <= u64::MAX,
            old(self).progress.inserted_files + kinds.len() <= u64::MAX,
            old(self).progress.updated_files + kinds.len() <= u64::MAX,
        ensures
            final(self).progress.indexed_files == old(self).progress.indexed_files + kinds.len(),
            final(self).progress.inserted_files == old(self).progress.inserted_files + kinds@.filter(
                |k: ReconcileKind| k == ReconcileKind::Inserted,
            ).len(),
            final(self).progress.updated_files == old(self).progress.updated_files + kinds@.filter(
                |k: ReconcileKind| k == ReconcileKind::Moved || k == ReconcileKind::MetadataUpdated,
            ).len(),
            final(self).progress.visited_entries == old(self).progress.visited_entries,
            final(self).progress.skipped_entries == old(self).progress.skipped_entries,
            final(self).issues@ == old(self).issues@,
            final(self).batch@ == old(self).batch@,
            final(self).seen@ == old(self).seen@,
    {
        let ghost ins = |k: ReconcileKind| k == ReconcileKind::Inserted;
        let ghost upd = |k: ReconcileKind| k == ReconcileKind::Moved || k
            == ReconcileKind::MetadataUpdated;
        let ghost start = self.progress;
        let mut inserted: u64 = 0;
        let mut updated: u64 = 0;
        let mut i: usize = 0;
        while i < kinds.len()
            invariant
                i <= kinds.len(),
                ins == (|k: ReconcileKind| k == ReconcileKind::Inserted),
                upd == (|k: ReconcileKind| k == ReconcileKind::Moved || k
                    == ReconcileKind::MetadataUpdated),
                inserted == kinds@.take(i as int).filter(ins).len(),
                updated == kinds@.take(i as int).filter(upd).len(),
                inserted <= i,
                updated <= i,
                kinds.len() <= u64::MAX,
            decreases kinds.len() - i,
        {
            proof {
                reveal(Seq::filter);
                assert(kinds@.take(i + 1).drop_last() =~= kinds@.take(i as int));
            }
            match kinds[i] {
                ReconcileKind::Inserted => {
                    inserted = inserted + 1;
                },
                ReconcileKind::Moved | ReconcileKind::MetadataUpdated => {
                    updated = updated + 1;
                },
                ReconcileKind::Unchanged => {},
            }
            i += 1;
        }
        assert(kinds@.take(kinds.len() as int) =~= kinds@);
        self.progress.indexed_files = self.progress.indexed_files + kinds.len() as u64;
        self.progress.inserted_files = self.progress.inserted_files + inserted;
        self.progress.updated_files = self.progress.updated_files + updated;
    }

    /// The scan's report; a scan with any recorded issue is incomplete.
    pub fn finish(self, cancelled: bool) -> (r: ScanReport)
        ensures
            r.progress == self.progress,
            r.issues@ == self.issues@,
            r.cancelled == cancelled,
            r.incomplete == (self.issues@.len() > 0),
    {
        let incomplete = self.issues.len() > 0;
        ScanReport { progress: self.progress, issues: self.issues, cancelled, incomplete }
    }
}

/// Whether a path passes through the library's quarantine folder.
pub open spec fn inside_quarantine(path: Seq<char>) -> bool {
    exists|k: int|
        0 <= k < path_components(path).len() && #[trigger] path_components(path)[k]
            == Comp::Normal(quarantine_dir_name())
}

/// Whether a path has a component named like the quarantine folder.
pub fn is_inside_quarantine(path: &str) -> (r: bool)
    ensures
        r == inside_quarantine(path@),
{
    let pv = chars_of(path);
    let c = components(&pv);
    let ghost cv = comps_view(c@);
    let q = chars_of(".guixu-trash");
    let mut i: usize = 0;
    while i < c.len()
        invariant
            i <= c.len(),
            cv == comps_view(c@),
            cv == path_components(path@),
            q@ == quarantine_dir_name(),
            forall|k: int| 0 <= k < i ==> cv[k] != Comp::Normal(quarantine_dir_name()),
        decreases c.len() - i,
    {
        assert(cv[i as int] == c@[i as int]@);
        match &c[i] {
            Component::Normal(n) => {
                if seq_chars_eq(n, &q) {
                    return true;
                }
            },
            _ => {},
        }
        i += 1;
    }
    false
}

/// The directories to queue snapshot reconciliations for after a watcher's request.
pub fn reconcile_targets(root_path: &str, request: ReconcileRequest) -> (r: Vec<String>)
    ensures
        match request {
            ReconcileRequest::FullSnapshot => r@.map_values(|s: String| s@) == seq![root_path@],
            ReconcileRequest::Directories(ds) => r@.map_values(|s: String| s@) == ds@.map_values(
                |s: String| s@,
            ).filter(|d: Seq<char>| !inside_quarantine(d)),
        },
{
    match request {
        ReconcileRequest::FullSnapshot => {
            let out = vec![string_from_str(root_path)];
            assert(out@.map_values(|s: String| s@) =~= seq![root_path@]);
            out
        },
        ReconcileRequest::Directories(ds) => {
            let ghost dv = ds@.map_values(|s: String| s@);
            let ghost keep = |d: Seq<char>| !inside_quarantine(d);
            let mut out: Vec<String> = Vec::new();
            let mut i: usize = 0;
            while i < ds.len()
                invariant
                    i <= ds.len(),
                    dv == ds@.map_values(|s: String| s@),
                    keep == (|d: Seq<char>| !inside_quarantine(d)),
                    out@.map_values(|s: String| s@) == dv.take(i as int).filter(keep),
                decreases ds.len() - i,
            {
                let d = &ds[i];
                if !is_inside_quarantine(d.as_str()) {
                    out.push(d.clone());
                }
                proof {
                    assert(dv.take(i + 1) =~= dv.take(i as int).push(dv[i as int]));
                    dv.take(i as int).lemma_filter_push(dv[i as int], keep);
                    assert(out@.map_values(|s: String| s@) =~= dv.take(i + 1).filter(keep));
                }
                i += 1;
            }
            assert(dv.take(ds.len() as int) =~= dv);
            out
        },
    }
}

/// What the walk found at one entry of a directory.
#[derive(Debug, Clone, PartialEq, Eq)]
pub enum EntryKind {
    /// The entry or its type could not be read; the message says why.
    Unreadable(String),
    Symlink,
    Directory,
    File,
    Other,
}

/// What the walk does with an entry.
#[derive(Debug, Clone, Copy, PartialEq, Eq, Structural)]
pub enum EntryAction {
    Skip,
    Descend,
    Admit,
}

/// The issue recorded for a file whose path is not valid UTF-8.
pub open spec fn non_utf8_message() -> Seq<char> {
    "文件名不是有效 UTF-8，当前版本不会以有损路径索引"@
}

/// `new` is `old` with one more skipped entry, the batch and the identities seen kept.
pub open spec fn counts_skip(old: ScanState, new: ScanState) -> bool {
    &&& new.progress.skipped_entries == old.progress.skipped_entries + 1
    &&& new.progress.visited_entries == old.progress.visited_entries
    &&& new.progress.indexed_files == old.progress.indexed_files
    &&& new.progress.inserted_files == old.progress.inserted_files
    &&& new.progress.updated_files == old.progress.updated_files
    &&& new.batch@ == old.batch@
    &&& new.seen@ == old.seen@
}

/// `new` records an issue at `place` with `message` after `old`'s, while fewer than
/// `maximum` are recorded; otherwise it keeps `old`.
pub open spec fn issue_recorded(
    old: Seq<ScanIssue>,
    new: Seq<ScanIssue>,
    maximum: usize,
    place: Seq<char>,
    message: Seq<char>,
) -> bool {
    &&& old.len() < maximum ==> new.len() == old.len() + 1 && new.take(old.len() as int) == old
        && new.last().path@ == place && new.last().message@ == message
    &&& old.len() >= maximum ==> new == old
}

/// One entry of a scan either leaves its issues as they were or records one issue.
pub open spec fn issue_step(old: Seq<ScanIssue>, new: Seq<ScanIssue>, maximum: usize) -> bool {
    new == old || exists|place: Seq<char>, message: Seq<char>|
        #[trigger] issue_recorded(old, new, maximum, place, message)
}

/// The issue lists of a scan, one after each entry: the scan starts with none, and
/// each entry either leaves the list as it was or records one issue.
pub open spec fn issue_history(lists: Seq<Seq<ScanIssue>>, maximum: usize) -> bool {
    &&& lists.len() > 0
    &&& lists[0].len() == 0
    &&& forall|k: int| 0 <= k < lists.len() - 1 ==> #[trigger] issue_step(lists[k], lists[k + 1], maximum)
}

proof fn lemma_issue_step(old: Seq<ScanIssue>, new: Seq<ScanIssue>, maximum: usize)
    requires
        issue_step(old, new, maximum),
        old.len() <= maximum,
    ensures
        new.len() <= maximum,
        old.len() <= new.len(),
        new.take(old.len() as int) == old,
{
    if new == old {
        assert(new.take(old.len() as int) =~= old);
    } else {
        let (place, message) = choose|place: Seq<char>, message: Seq<char>|
            #[trigger] issue_recorded(old, new, maximum, place, message);
    }
}

/// However many entries a scan meets, it keeps at most `maximum` issues, and the
/// issues once recorded stay, in the order they were recorded.
pub proof fn lemma_scan_issues_stay_within_maximum(lists: Seq<Seq<ScanIssue>>, maximum: usize)
    requires
        issue_history(lists, maximum),
    ensures
        forall|k: int| 0 <= k < lists.len() ==> (#[trigger] lists[k]).len() <= maximum,
        forall|j: int, k: int|
            0 <= j <= k < lists.len() ==> (#[trigger] lists[j]).len() <= (#[trigger] lists[k]).len()
                && lists[k].take(lists[j].len() as int) == lists[j],
    decreases lists.len(),
{
    if lists.len() == 1 {
        assert(lists[0].take(0) =~= lists[0]);
        return;
    }
    let shorter = lists.drop_last();
    assert forall|k: int| 0 <= k < shorter.len() - 1 implies #[trigger] issue_step(shorter[k], shorter[k + 1], maximum) by {
        assert(shorter[k] == lists[k]);
        assert(shorter[k + 1] == lists[k + 1]);
        assert(issue_step(lists[k], lists[k + 1], maximum));
    }
    lemma_scan_issues_stay_within_maximum(shorter, maximum);
    let n = lists.len() - 1;
    let m = n - 1;
    assert(issue_step(lists[m], lists[m + 1], maximum));
    assert(shorter[n - 1] == lists[n - 1]);
    lemma_issue_step(lists[n - 1], lists[n], maximum);
    assert forall|j: int, k: int|
        0 <= j <= k < lists.len() implies (#[trigger] lists[j]).len() <= (#[trigger] lists[k]).len()
            && lists[k].take(lists[j].len() as int) == lists[j] by {
        if k < n {
            assert(shorter[k] == lists[k] && shorter[j] == lists[j]);
        } else if j == n {
            assert(lists[n].take(lists[n].len() as int) =~= lists[n]);
        } else {
            assert(shorter[n - 1] == lists[n - 1] && shorter[j] == lists[j]);
            assert(lists[n - 1].take(lists[j].len() as int) == lists[j]);
            assert(lists[j].len() <= lists[n - 1].len());
            assert(lists[n].take(lists[j].len() as int) =~= lists[n].take(lists[n - 1].len() as int).take(
                lists[j].len() as int,
            ));
        }
    }
    assert forall|k: int| 0 <= k < lists.len() implies (#[trigger] lists[k]).len() <= maximum by {
        if k < n {
            assert(shorter[k] == lists[k]);
        }
    }
}

/// `old` after one more visited entry.
pub open spec fn visited_one_more(old: ScanState) -> ScanState {
    ScanState {
        progress: ScanProgress { visited_entries: (old.progress.visited_entries + 1) as u64, ..old.progress },
        ..old
    }
}

impl ScanState {
    /// Counts an entry that is skipped because of a problem, and records the problem
    /// while fewer than `maximum` issues are recorded.
    pub fn skip_with_issue(&mut self, maximum: usize, place: &str, message: String)
        requires
            old(self).progress.skipped_entries < u64::MAX,
        ensures
            counts_skip(*old(self), *final(self)),
            issue_recorded(old(self).issues@, final(self).issues@, maximum, place@, message@),
    {
        self.progress.skipped_entries = self.progress.skipped_entries + 1;
        push_issue(&mut self.issues, maximum, place, message);
    }

}

/// Whether the batch of a scan is full and goes to storage now.
pub fn should_flush(state: &ScanState, batch_size: usize) -> (r: bool)
    ensures
        r == (state.batch@.len() >= batch_size),
{
    state.batch.len() >= batch_size
}

/// One entry of the walk, counted as visited. Symbolic links are never followed:
/// they are skipped like any entry that is neither a directory nor a regular file.
/// A directory is entered only where the options allow it. A regular file is admitted
/// by its path and observation; a path that is not valid UTF-8, or a file that could
/// not be observed, is skipped with an issue, as is an entry that could not be read.
/// `place` is the text under which an issue is reported.
pub fn scan_entry_step(
    state: &mut ScanState,
    options: &ScanOptions,
    kind: EntryKind,
    depth: usize,
    name: &str,
    place: &str,
    path_text: Option<String>,
    observed: Option<Result<ObservedFile, ObserveError>>,
    library_id: &str,
) -> (r: EntryAction)
    requires
        old(state).progress.visited_entries < u64::MAX,
        old(state).progress.skipped_entries < u64::MAX,
        kind is File && path_text is Some ==> observed is Some,
    ensures
        match kind {
            EntryKind::Unreadable(m) => r is Skip && counts_skip(visited_one_more(*old(state)), *final(state))
                && issue_recorded(old(state).issues@, final(state).issues@, options.max_reported_issues, place@, m@),
            EntryKind::Symlink => r is Skip && counts_skip(visited_one_more(*old(state)), *final(state))
                && final(state).issues@ == old(state).issues@,
            EntryKind::Directory => (r is Descend <==> descends_into(
                strings_view(options.excluded_directory_names@),
                options.max_depth,
                depth,
                name@,
            )) && (r is Descend ==> *final(state) == visited_one_more(*old(state))) && (r is Skip
                ==> counts_skip(visited_one_more(*old(state)), *final(state)) && final(state).issues@
                == old(state).issues@) && !(r is Admit),
            EntryKind::Other => r is Skip && counts_skip(visited_one_more(*old(state)), *final(state))
                && final(state).issues@ == old(state).issues@,
            EntryKind::File => match path_text {
                None => r is Skip && counts_skip(visited_one_more(*old(state)), *final(state))
                    && issue_recorded(
                    old(state).issues@,
                    final(state).issues@,
                    options.max_reported_issues,
                    place@,
                    non_utf8_message(),
                ),
                Some(p) => match observed {
                    Some(Ok(o)) => r is Admit && admits(visited_one_more(*old(state)), *final(state), library_id@, p@, o),
                    Some(Err(e)) => r is Skip && counts_skip(visited_one_more(*old(state)), *final(state))
                        && (old(state).issues@.len() >= options.max_reported_issues ==> final(state).issues@
                        == old(state).issues@) && (old(state).issues@.len() < options.max_reported_issues
                        ==> final(state).issues@.len() == old(state).issues@.len() + 1
                        && final(state).issues@.take(old(state).issues@.len() as int) == old(state).issues@
                        && final(state).issues@.last().path@ == place@ && is_observe_message(
                        e,
                        final(state).issues@.last().message@,
                    )),
                    None => false,
                },
            },
        },
{
    state.progress.visited_entries = state.progress.visited_entries + 1;
    match kind {
        EntryKind::Unreadable(m) => {
            state.skip_with_issue(options.max_reported_issues, place, m);
            EntryAction::Skip
        },
        EntryKind::Symlink => {
            state.progress.skipped_entries = state.progress.skipped_entries + 1;
            EntryAction::Skip
        },
        EntryKind::Directory => {
            if should_descend(options, depth, name) {
                EntryAction::Descend
            } else {
                state.progress.skipped_entries = state.progress.skipped_entries + 1;
                EntryAction::Skip
            }
        },
        EntryKind::Other => {
            state.progress.skipped_entries = state.progress.skipped_entries + 1;
            EntryAction::Skip
        },
        EntryKind::File => match path_text {
            None => {
                state.skip_with_issue(
                    options.max_reported_issues,
                    place,
                    string_from_str("文件名不是有效 UTF-8，当前版本不会以有损路径索引"),
                );
                EntryAction::Skip
            },
            Some(p) => match observed {
                Some(Ok(o)) => {
                    state.admit_file(library_id, p, o);
                    EntryAction::Admit
                },
                Some(Err(e)) => {
                    let message = observe_error_message(&e);
                    state.skip_with_issue(options.max_reported_issues, place, message);
                    EntryAction::Skip
                },
                None => EntryAction::Skip,
            },
        },
    }
}

} // verus!
