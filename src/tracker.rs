//! Tracking of workspace file contents for later diffing.
//!
//! Tracked files are (path, text) entries with distinct paths, kept in the
//! order in which each path was first recorded; recording a path again
//! replaces its text.
use vstd::prelude::*;
use crate::ast::{extension, extension_of};
use crate::text::{chars_of, same_chars};

verus! {

broadcast use vstd::std_specs::vec::group_vec_axioms, vstd::seq::group_seq_axioms;

/// One recorded change of a file.
#[derive(Clone, Debug)]
pub struct FileDiff {
    pub path: String,
    pub original_content: String,
    pub modified_content: String,
    pub timestamp: String,
}

/// Keeps the tracked files of a session and the diffs recorded for them.
pub struct DiffTracker {
    shadow_dir: String,
    tracked_files: Vec<(String, String)>,
    diffs: Vec<FileDiff>,
}

pub type Entries = Seq<(Seq<char>, Seq<char>)>;

/// The extensions of the files that are tracked.
pub open spec fn trackable(e: Seq<char>) -> bool {
    e == "rs"@ || e == "ts"@ || e == "js"@ || e == "json"@ || e == "toml"@
}

/// The first index at or after `i` of an entry for `k`, or -1.
pub open spec fn key_index(m: Entries, k: Seq<char>, i: int) -> int
    decreases m.len() - i,
{
    if i < 0 || i >= m.len() {
        -1
    } else if m[i].0 == k {
        i
    } else {
        key_index(m, k, i + 1)
    }
}

/// `m` with the text of `k` set to `v`.
pub open spec fn put(m: Entries, k: Seq<char>, v: Seq<char>) -> Entries {
    if key_index(m, k, 0) >= 0 {
        m.update(key_index(m, k, 0), (k, v))
    } else {
        m.push((k, v))
    }
}

pub open spec fn entries(v: Seq<(String, String)>) -> Entries {
    v.map_values(|e: (String, String)| (e.0@, e.1@))
}

/// `m` after recording the trackable files among the first `n` of `files`.
pub open spec fn track_all(m: Entries, files: Entries, n: int) -> Entries
    decreases n,
{
    if n <= 0 || n > files.len() {
        m
    } else {
        let prev = track_all(m, files, n - 1);
        if trackable(extension(files[n - 1].0)) {
            put(prev, files[n - 1].0, files[n - 1].1)
        } else {
            prev
        }
    }
}

impl DiffTracker {
    /// The tracked (path, text) entries.
    pub closed spec fn watched(&self) -> Entries {
        entries(self.tracked_files@)
    }

    /// The number of diffs recorded.
    pub closed spec fn diff_len(&self) -> nat {
        self.diffs@.len()
    }

    /// The directory that holds the tool's private state.
    pub closed spec fn shadow_dir_of(&self) -> Seq<char> {
        self.shadow_dir@
    }

    pub fn new(shadow_dir: &str) -> (r: DiffTracker)
        ensures
            r.watched().len() == 0,
            r.diff_len() == 0,
            r.shadow_dir_of() == shadow_dir@,
    {
        let r = DiffTracker {
            shadow_dir: shadow_dir.to_string(),
            tracked_files: Vec::new(),
            diffs: Vec::new(),
        };
        assert(r.watched() =~= Seq::<(Seq<char>, Seq<char>)>::empty());
        r
    }

    /// Whether files at `path` are tracked.
    pub fn should_track_file(&self, path: &str) -> (r: bool)
        ensures
            r == trackable(extension(path@)),
    {
        let e = chars_of(extension_of(path).as_str());
        same_chars(&e, &chars_of("rs")) || same_chars(&e, &chars_of("ts")) || same_chars(
            &e,
            &chars_of("js"),
        ) || same_chars(&e, &chars_of("json")) || same_chars(&e, &chars_of("toml"))
    }

    /// Records `content` as the text of `path`.
    fn track(&mut self, path: &String, content: &String)
        ensures
            final(self).watched() == put(old(self).watched(), path@, content@),
            final(self).diffs == old(self).diffs,
            final(self).shadow_dir == old(self).shadow_dir,
    {
        let ghost m = self.watched();
        let mut i: usize = 0;
        while i < self.tracked_files.len()
            invariant
                m == entries(self.tracked_files@),
                self.tracked_files == old(self).tracked_files,
                self.diffs == old(self).diffs,
                self.shadow_dir == old(self).shadow_dir,
                i <= m.len(),
                key_index(m, path@, 0) == key_index(m, path@, i as int),
            decreases m.len() - i,
        {
            assert(m[i as int] == (self.tracked_files@[i as int].0@, self.tracked_files@[i as int].1@));
            if self.tracked_files[i].0 == *path {
                self.tracked_files[i] = (path.clone(), content.clone());
                assert(entries(self.tracked_files@) =~= put(m, path@, content@));
                return;
            }
            i = i + 1;
        }
        self.tracked_files.push((path.clone(), content.clone()));
        assert(entries(self.tracked_files@) =~= put(m, path@, content@));
    }

    /// Starts a session: records the text of every trackable file among
    /// `files`, given as (path, text) pairs of the workspace.
    pub fn start_tracking(&mut self, files: &Vec<(String, String)>)
        ensures
            final(self).watched() == track_all(old(self).watched(), entries(files@), files@.len() as int),
            final(self).diff_len() == old(self).diff_len(),
            final(self).shadow_dir_of() == old(self).shadow_dir_of(),
    {
        let ghost fv = entries(files@);
        let mut i: usize = 0;
        while i < files.len()
            invariant
                fv == entries(files@),
                i <= files@.len(),
                self.watched() == track_all(old(self).watched(), fv, i as int),
                self.diffs == old(self).diffs,
                self.shadow_dir == old(self).shadow_dir,
            decreases files@.len() - i,
        {
            let (path, content) = &files[i];
            assert(fv[i as int] == (path@, content@));
            if self.should_track_file(path.as_str()) {
                self.track(path, content);
            }
            i = i + 1;
        }
    }

    /// Ends a session: forgets every tracked file.
    pub fn stop_tracking(&mut self)
        ensures
            final(self).watched().len() == 0,
            final(self).diff_len() == old(self).diff_len(),
            final(self).shadow_dir_of() == old(self).shadow_dir_of(),
    {
        self.tracked_files = Vec::new();
        assert(self.watched() =~= Seq::<(Seq<char>, Seq<char>)>::empty());
    }

    /// Forgets every recorded diff.
    pub fn clear_diffs(&mut self)
        ensures
            final(self).diff_len() == 0,
            final(self).watched() == old(self).watched(),
            final(self).shadow_dir_of() == old(self).shadow_dir_of(),
    {
        self.diffs = Vec::new();
    }

    /// The number of recorded diffs, as a `u32` (wrapping past its range).
    pub fn get_diff_count(&self) -> (r: u32)
        ensures
            r == self.diff_len() as u32,
    {
        self.diffs.len() as u32
    }

    /// The directory that holds the tool's private state.
    pub fn shadow_dir(&self) -> (r: &String)
        ensures
            r@ == self.shadow_dir_of(),
    {
        &self.shadow_dir
    }
}

} // verus!
