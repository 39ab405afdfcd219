//! What to do with paths dropped on the window.
//!
//! Dropped paths reach the Rust side only; the front end learns whether a
//! drop is acceptable, never the native paths.

use vstd::prelude::*;
use crate::path_list::views;
use crate::file_kind::is_markdown;
use crate::startup::{files_to_open, files_to_open_are_the_distinct_markdown_arguments, markdown_files};

verus! {

/// Kind of a dropped item, as the file system tells it (a folder may be
/// named like a document).
#[derive(Debug, Clone, Copy, PartialEq, Eq, Structural)]
pub enum DroppedKind {
    File,
    Directory,
}

/// One dropped item.
#[derive(Debug, Clone, PartialEq, Eq)]
pub struct DroppedEntry {
    /// Canonical absolute path.
    pub path: String,
    pub kind: DroppedKind,
}

/// What a drop leads to.
#[derive(Debug, Clone, PartialEq, Eq)]
pub struct DropPlan {
    /// The folder to open as workspace: the first dropped folder.
    pub workspace: Option<String>,
    /// The files to open in tabs, in order, after the workspace is opened
    /// (switching workspaces closes tabs).
    pub files: Vec<String>,
}

/// The path of the first dropped folder.
pub open spec fn first_directory(entries: Seq<DroppedEntry>) -> Option<Seq<char>>
    decreases entries.len(),
{
    if entries.len() == 0 {
        None
    } else if entries[0].kind == DroppedKind::Directory {
        Some(entries[0].path@)
    } else {
        first_directory(entries.drop_first())
    }
}

/// The paths of the dropped files, in order.
pub open spec fn file_paths(entries: Seq<DroppedEntry>) -> Seq<Seq<char>>
    decreases entries.len(),
{
    if entries.len() == 0 {
        Seq::empty()
    } else if entries.last().kind == DroppedKind::File {
        file_paths(entries.drop_last()).push(entries.last().path@)
    } else {
        file_paths(entries.drop_last())
    }
}

impl DropPlan {
    /// Whether there is nothing to do. Whether a drag is acceptable is
    /// decided by this same value, so an acceptable drop always does
    /// something.
    pub fn is_empty(&self) -> (r: bool)
        ensures
            r == (self.workspace is None && self.files@.len() == 0),
    {
        self.workspace.is_none() && self.files.len() == 0
    }
}

/// Decides what a drop does: the first dropped folder becomes the workspace
/// (there is one window and one workspace, so later folders are ignored);
/// dropped files are opened by the same rule as command-line arguments.
pub fn plan_drop(entries: &[DroppedEntry]) -> (r: DropPlan)
    ensures
        match r.workspace {
            Some(w) => first_directory(entries@) == Some(w@),
            None => first_directory(entries@) is None,
        },
        views(r.files@) == markdown_files(file_paths(entries@)),
{
    let mut k: usize = 0;
    assert(entries@.skip(0) =~= entries@);
    while k < entries.len() && entries[k].kind != DroppedKind::Directory
        invariant
            k <= entries.len(),
            first_directory(entries@) == first_directory(entries@.skip(k as int)),
        decreases entries.len() - k,
    {
        let ghost rest = entries@.skip(k as int);
        assert(rest[0] == entries@[k as int]);
        assert(rest.drop_first() =~= entries@.skip(k + 1));
        k = k + 1;
    }
    let workspace = if k < entries.len() {
        assert(entries@.skip(k as int)[0] == entries@[k as int]);
        Some(entries[k].path.clone())
    } else {
        None
    };
    let mut paths: Vec<String> = Vec::new();
    let mut i: usize = 0;
    while i < entries.len()
        invariant
            i <= entries.len(),
            views(paths@) == file_paths(entries@.take(i as int)),
        decreases entries.len() - i,
    {
        assert(entries@.take(i + 1).drop_last() =~= entries@.take(i as int));
        assert(entries@.take(i + 1).last() == entries@[i as int]);
        if entries[i].kind == DroppedKind::File {
            let ghost before = views(paths@);
            paths.push(entries[i].path.clone());
            assert(views(paths@) =~= before.push(entries@[i as int].path@));
        }
        i = i + 1;
    }
    assert(entries@.take(i as int) =~= entries@);
    DropPlan { workspace, files: files_to_open(paths.as_slice()) }
}

proof fn lemma_first_directory_none(es: Seq<DroppedEntry>)
    ensures
        first_directory(es) is None <==> forall|k: int| 0 <= k < es.len() ==> (#[trigger] es[k]).kind != DroppedKind::Directory,
    decreases es.len(),
{
    if es.len() > 0 {
        lemma_first_directory_none(es.drop_first());
        assert forall|k: int| 1 <= k < es.len() implies (#[trigger] es[k]) == es.drop_first()[k - 1] by {}
        if forall|k: int| 0 <= k < es.drop_first().len() ==> (#[trigger] es.drop_first()[k]).kind != DroppedKind::Directory {
            assert forall|k: int| 1 <= k < es.len() implies (#[trigger] es[k]).kind != DroppedKind::Directory by {
                assert(es[k] == es.drop_first()[k - 1]);
            }
        } else {
            let k = choose|k: int| 0 <= k < es.drop_first().len() && (#[trigger] es.drop_first()[k]).kind == DroppedKind::Directory;
            assert(es[k + 1] == es.drop_first()[k]);
        }
    }
}

proof fn lemma_file_paths(es: Seq<DroppedEntry>)
    ensures
        forall|j: int| 0 <= j < file_paths(es).len() ==> exists|k: int|
            0 <= k < es.len() && (#[trigger] es[k]).kind == DroppedKind::File && es[k].path@ == #[trigger] file_paths(es)[j],
        forall|k: int| 0 <= k < es.len() && (#[trigger] es[k]).kind == DroppedKind::File ==> file_paths(es).contains(es[k].path@),
    decreases es.len(),
{
    if es.len() > 0 {
        let init = es.drop_last();
        lemma_file_paths(init);
        let fp = file_paths(es);
        let ip = file_paths(init);
        assert forall|j: int| 0 <= j < fp.len() implies exists|k: int|
            0 <= k < es.len() && (#[trigger] es[k]).kind == DroppedKind::File && es[k].path@ == #[trigger] fp[j] by {
            if j < ip.len() {
                assert(fp[j] == ip[j]);
                let k = choose|k: int| 0 <= k < init.len() && (#[trigger] init[k]).kind == DroppedKind::File && init[k].path@ == ip[j];
                assert(es[k] == init[k]);
            } else {
                assert(es[es.len() - 1] == es.last());
            }
        }
        assert forall|k: int| 0 <= k < es.len() && (#[trigger] es[k]).kind == DroppedKind::File implies fp.contains(es[k].path@) by {
            if k < es.len() - 1 {
                assert(es[k] == init[k]);
                let j = choose|j: int| 0 <= j < ip.len() && ip[j] == init[k].path@;
                assert(fp[j] == ip[j]);
            } else {
                assert(fp[fp.len() - 1] == es.last().path@);
            }
        }
    }
}

/// A drop does nothing exactly when nothing usable was dropped: no folder,
/// and no file with a Markdown name.
pub proof fn a_drop_does_nothing_exactly_when_nothing_usable_was_dropped(entries: Seq<DroppedEntry>)
    ensures
        (first_directory(entries) is None && markdown_files(file_paths(entries)).len() == 0) <==> forall|k: int|
            0 <= k < entries.len() ==> (#[trigger] entries[k]).kind == DroppedKind::File && !is_markdown(entries[k].path@),
{
    lemma_first_directory_none(entries);
    lemma_file_paths(entries);
    let fp = file_paths(entries);
    files_to_open_are_the_distinct_markdown_arguments(fp);
    let mf = markdown_files(fp);
    if forall|k: int| 0 <= k < entries.len() ==> (#[trigger] entries[k]).kind == DroppedKind::File && !is_markdown(entries[k].path@) {
        if mf.len() > 0 {
            assert(is_markdown(mf[0]) && fp.contains(mf[0]));
            let j = choose|j: int| 0 <= j < fp.len() && fp[j] == mf[0];
            let k = choose|k: int| 0 <= k < entries.len() && (#[trigger] entries[k]).kind == DroppedKind::File && entries[k].path@ == fp[j];
        }
    } else {
        let k = choose|k: int| 0 <= k < entries.len() && !((#[trigger] entries[k]).kind == DroppedKind::File && !is_markdown(entries[k].path@));
        if entries[k].kind == DroppedKind::File {
            assert(fp.contains(entries[k].path@));
            let j = choose|j: int| 0 <= j < fp.len() && fp[j] == entries[k].path@;
            assert(is_markdown(fp[j]));
            assert(mf.contains(fp[j]));
        }
    }
}

} // verus!
