//! File-watch rules that do not depend on the real watcher: the window's time
//! rules and the coalescing of raw events into confirmed changes.
//!
//! The clock is supplied by the caller as monotonically increasing
//! milliseconds; nothing here reads the time.

use vstd::prelude::*;
use crate::ipc::types::{FileChange, FileChangeView, changes_view};
use crate::path_list::{
    distinct, lemma_push_once_all, lemma_push_once_contains, lemma_remove_first_all, lemma_remove_first_absent, lemma_remove_first_contains,
    list_contains,
    list_push_once, list_remove_first, push_once, remove_first, views,
};
use crate::path_guard::{PathPart, literal_relative, relativize_literal};
use crate::text::{chars_of, find_last, last_index_of, lemma_last_index_of, string_of};

verus! {

/// Quiet period, in milliseconds, after which a window closes.
pub const DEBOUNCE_MS: u64 = 150;

/// Number of re-reads allowed after a read fails right after a replacement.
pub const REPLACE_RETRY_LIMIT: u32 = 1;

/// Delay, in milliseconds, before that re-read.
pub const REPLACE_RETRY_DELAY_MS: u64 = 100;

/// Longest time, in milliseconds, a window stays open.
pub const MAX_WINDOW_MS: u64 = 600;

/// Number of events above which a window degrades to an overflow.
pub const MAX_EVENTS_PER_WINDOW: usize = 1024;

/// Kind of a raw event entering the window.
#[derive(Debug, Clone, Copy, PartialEq, Eq, Structural)]
pub enum RawEventKind {
    Created,
    Modified,
    Removed,
    /// Source of a rename.
    RenamedFrom,
    /// Target of a rename.
    RenamedTo,
}

/// A raw event: its kind and its path relative to the scope root.
#[derive(Debug, Clone, PartialEq, Eq)]
pub struct RawEvent {
    pub kind: RawEventKind,
    pub path: String,
}

impl RawEvent {
    pub fn new(kind: RawEventKind, path: &str) -> (r: Self)
        ensures
            r.kind == kind,
            r.path@ == path@,
    {
        RawEvent { kind, path: path.to_owned() }
    }
}

/// A copy of an event.
fn copy_event(event: &RawEvent) -> (r: RawEvent)
    ensures
        r == *event,
{
    RawEvent { kind: event.kind, path: event.path.clone() }
}

// ---------------------------------------------------------------------------
// Raw events from the watcher's notifications.

/// What a notification of the file-system watcher reports, as far as the
/// window needs it.
#[derive(Debug, Clone, Copy, PartialEq, Eq, Structural)]
pub enum NotifiedKind {
    /// Something was created.
    Create,
    /// Something was removed.
    Remove,
    /// Source of a rename.
    RenameFrom,
    /// Target of a rename.
    RenameTo,
    /// A rename carrying the old path, then the new one.
    RenameBoth,
    /// Any other change, including changes the watcher cannot classify.
    Modify,
    /// A read access, which changes neither contents nor tree.
    Access,
}

/// The scope-relative forms of the paths that lie in the scope, in order.
pub open spec fn scoped_paths(root: Seq<PathPart>, paths: Seq<Seq<PathPart>>) -> Seq<Seq<char>>
    decreases paths.len(),
{
    if paths.len() == 0 {
        Seq::empty()
    } else {
        let earlier = scoped_paths(root, paths.drop_last());
        match literal_relative(root, paths.last()) {
            Some(p) => earlier.push(p),
            None => earlier,
        }
    }
}

/// The raw event of the `index`-th path, if there is one and it is in the
/// scope.
pub open spec fn event_at(root: Seq<PathPart>, paths: Seq<Seq<PathPart>>, index: int, kind: RawEventKind) -> Seq<(RawEventKind, Seq<char>)> {
    if index < paths.len() {
        match literal_relative(root, paths[index]) {
            Some(p) => seq![(kind, p)],
            None => Seq::empty(),
        }
    } else {
        Seq::empty()
    }
}

/// Every path in the scope, as a raw event of one kind.
pub open spec fn events_of_kind(root: Seq<PathPart>, paths: Seq<Seq<PathPart>>, kind: RawEventKind) -> Seq<(RawEventKind, Seq<char>)> {
    scoped_paths(root, paths).map_values(|p: Seq<char>| (kind, p))
}

/// The raw events a notification gives. A change the watcher cannot
/// classify counts as a modification: as a removal it would close a tab
/// whose file may still be there, while a modification only reloads it.
pub open spec fn notified_events(root: Seq<PathPart>, kind: NotifiedKind, paths: Seq<Seq<PathPart>>) -> Seq<(RawEventKind, Seq<char>)> {
    match kind {
        NotifiedKind::Create => events_of_kind(root, paths, RawEventKind::Created),
        NotifiedKind::Remove => events_of_kind(root, paths, RawEventKind::Removed),
        NotifiedKind::RenameFrom => events_of_kind(root, paths, RawEventKind::RenamedFrom),
        NotifiedKind::RenameTo => events_of_kind(root, paths, RawEventKind::RenamedTo),
        NotifiedKind::RenameBoth => event_at(root, paths, 0, RawEventKind::RenamedFrom) + event_at(
            root,
            paths,
            1,
            RawEventKind::RenamedTo,
        ),
        NotifiedKind::Modify => events_of_kind(root, paths, RawEventKind::Modified),
        NotifiedKind::Access => Seq::empty(),
    }
}

/// The kinds and paths of raw events.
pub open spec fn raw_views(events: Seq<RawEvent>) -> Seq<(RawEventKind, Seq<char>)> {
    events.map_values(|e: RawEvent| (e.kind, e.path@))
}

/// The native paths' components, as sequences.
pub open spec fn parts_views(paths: Seq<Vec<PathPart>>) -> Seq<Seq<PathPart>> {
    paths.map_values(|v: Vec<PathPart>| v@)
}

/// Every path of a notification that lies in the scope, as a raw event of
/// one kind.
fn events_in_scope(root: &[PathPart], paths: &[Vec<PathPart>], kind: RawEventKind) -> (r: Vec<RawEvent>)
    ensures
        raw_views(r@) == events_of_kind(root@, parts_views(paths@), kind),
{
    let ghost ps = parts_views(paths@);
    let mut out: Vec<RawEvent> = Vec::new();
    let mut k: usize = 0;
    while k < paths.len()
        invariant
            k <= paths.len(),
            ps == parts_views(paths@),
            raw_views(out@) == events_of_kind(root@, ps.take(k as int), kind),
        decreases paths.len() - k,
    {
        assert(ps.take(k + 1).drop_last() =~= ps.take(k as int));
        assert(ps.take(k + 1).last() == paths@[k as int]@);
        let found = relativize_literal(root, paths[k].as_slice());
        match found {
            Some(path) => {
                let ghost before = out@;
                out.push(RawEvent { kind, path });
                assert(raw_views(out@) =~= raw_views(before).push((kind, out@.last().path@)));
                assert(events_of_kind(root@, ps.take(k + 1), kind) =~= events_of_kind(root@, ps.take(k as int), kind).push(
                    (kind, out@.last().path@),
                ));
            },
            None => {
                assert(events_of_kind(root@, ps.take(k + 1), kind) =~= events_of_kind(root@, ps.take(k as int), kind));
            },
        }
        k = k + 1;
    }
    assert(ps.take(k as int) =~= ps);
    out
}

/// The raw event of the `index`-th path, if there is one and it is in the
/// scope.
fn event_in_scope(root: &[PathPart], paths: &[Vec<PathPart>], index: usize, kind: RawEventKind) -> (r: Vec<RawEvent>)
    ensures
        raw_views(r@) == event_at(root@, parts_views(paths@), index as int, kind),
{
    let mut out: Vec<RawEvent> = Vec::new();
    if index < paths.len() {
        match relativize_literal(root, paths[index].as_slice()) {
            Some(path) => {
                out.push(RawEvent { kind, path });
                assert(raw_views(out@) =~= seq![(kind, out@[0].path@)]);
            },
            None => {
                assert(raw_views(out@) =~= Seq::<(RawEventKind, Seq<char>)>::empty());
            },
        }
    } else {
        assert(raw_views(out@) =~= Seq::<(RawEventKind, Seq<char>)>::empty());
    }
    out
}

/// Turns a notification into raw events relative to the scope root `root`.
/// Paths outside the scope, and paths whose names the tree would drop, give
/// no event. A rename reported as one notification carries the old path,
/// then the new one.
pub fn map_event(root: &[PathPart], kind: NotifiedKind, paths: &[Vec<PathPart>]) -> (r: Vec<RawEvent>)
    ensures
        raw_views(r@) == notified_events(root@, kind, parts_views(paths@)),
{
    match kind {
        NotifiedKind::Create => events_in_scope(root, paths, RawEventKind::Created),
        NotifiedKind::Remove => events_in_scope(root, paths, RawEventKind::Removed),
        NotifiedKind::RenameFrom => events_in_scope(root, paths, RawEventKind::RenamedFrom),
        NotifiedKind::RenameTo => events_in_scope(root, paths, RawEventKind::RenamedTo),
        NotifiedKind::RenameBoth => {
            let mut first = event_in_scope(root, paths, 0, RawEventKind::RenamedFrom);
            let mut second = event_in_scope(root, paths, 1, RawEventKind::RenamedTo);
            let ghost a = first@;
            let ghost b = second@;
            first.append(&mut second);
            assert(raw_views(first@) =~= raw_views(a) + raw_views(b));
            first
        },
        NotifiedKind::Modify => events_in_scope(root, paths, RawEventKind::Modified),
        NotifiedKind::Access => {
            let out: Vec<RawEvent> = Vec::new();
            assert(raw_views(out@) =~= Seq::<(RawEventKind, Seq<char>)>::empty());
            out
        },
    }
}

// ---------------------------------------------------------------------------
// Whether a path is tracked, as decided by a caller-supplied predicate.

/// `f` may be called on every string and answers the same for equal strings.
pub open spec fn decides<F: Fn(&str) -> bool>(f: F) -> bool {
    &&& forall|s: &str| #[trigger] f.requires((s,))
    &&& forall|s1: &str, s2: &str, b1: bool, b2: bool|
        s1@ == s2@ && #[trigger] f.ensures((s1,), b1) && #[trigger] f.ensures((s2,), b2)
            ==> b1 == b2
}

/// `f` answers `true` for (a string equal to) `p`.
pub open spec fn tracks<F: Fn(&str) -> bool>(f: F, p: Seq<char>) -> bool {
    exists|s: &str| s@ == p && #[trigger] f.ensures((s,), true)
}

/// The predicate that `f` decides, on character sequences.
pub open spec fn watched_by<F: Fn(&str) -> bool>(f: F) -> spec_fn(Seq<char>) -> bool {
    |p: Seq<char>| tracks(f, p)
}

proof fn lemma_tracked_result<F: Fn(&str) -> bool>(f: F, s: &str, b: bool)
    requires
        decides(f),
        f.ensures((s,), b),
    ensures
        b == tracks(f, s@),
{
    if !b && tracks(f, s@) {
        let w = choose|w: &str| w@ == s@ && #[trigger] f.ensures((w,), true);
        assert(f.ensures((w,), true));
    }
}

// ---------------------------------------------------------------------------
// Coalescing.

/// What the coalescing has gathered after a prefix of the events.
pub struct CoalesceState {
    /// Confirmed renames, in order.
    pub renames: Seq<FileChangeView>,
    /// Removed paths not (yet) brought back.
    pub removed: Seq<Seq<char>>,
    /// Modified paths.
    pub modified: Seq<Seq<char>>,
    /// Rename sources whose target has not arrived.
    pub pending_from: Seq<Seq<char>>,
    /// Two rename sources were pending at once; renames are no longer paired.
    pub ambiguous: bool,
}

pub open spec fn initial_state() -> CoalesceState {
    CoalesceState {
        renames: Seq::empty(),
        removed: Seq::empty(),
        modified: Seq::empty(),
        pending_from: Seq::empty(),
        ambiguous: false,
    }
}

/// The rename source paired with a rename target, and the pending sources left.
pub open spec fn rename_source(st: CoalesceState, target: Seq<char>) -> (Seq<Seq<char>>, Option<Seq<char>>) {
    if st.ambiguous {
        (remove_first(st.pending_from, target), None)
    } else if st.pending_from.len() > 0 {
        (st.pending_from.drop_last(), Some(st.pending_from.last()))
    } else {
        (st.pending_from, None)
    }
}

/// One event's effect on the coalescing state.
pub open spec fn step(
    st: CoalesceState,
    kind: RawEventKind,
    path: Seq<char>,
    watched: spec_fn(Seq<char>) -> bool,
) -> CoalesceState {
    match kind {
        RawEventKind::RenamedFrom => {
            let pending = push_once(st.pending_from, path);
            CoalesceState { pending_from: pending, ambiguous: st.ambiguous || pending.len() > 1, ..st }
        },
        RawEventKind::RenamedTo => {
            let (pending, paired) = rename_source(st, path);
            let source = match paired {
                Some(s) => if watched(s) { Some(s) } else { None },
                None => None,
            };
            if !watched(path) {
                match source {
                    Some(s) => CoalesceState {
                        modified: remove_first(st.modified, s),
                        removed: push_once(st.removed, s),
                        pending_from: pending,
                        ..st
                    },
                    None => CoalesceState { pending_from: pending, ..st },
                }
            } else {
                let replaced = st.removed.contains(path);
                let removed = remove_first(st.removed, path);
                match source {
                    Some(s) => if !replaced {
                        CoalesceState {
                            renames: st.renames.push(
                                FileChangeView::FileRenamed { path: path, old_path: s },
                            ),
                            removed: removed,
                            modified: if st.modified.contains(s) {
                                push_once(remove_first(st.modified, s), path)
                            } else {
                                st.modified
                            },
                            pending_from: pending,
                            ambiguous: st.ambiguous,
                        }
                    } else {
                        CoalesceState {
                            removed: push_once(removed, s),
                            modified: push_once(remove_first(st.modified, s), path),
                            pending_from: pending,
                            ..st
                        }
                    },
                    None => CoalesceState {
                        removed: removed,
                        modified: push_once(st.modified, path),
                        pending_from: pending,
                        ..st
                    },
                }
            }
        },
        RawEventKind::Removed => if watched(path) {
            CoalesceState {
                modified: remove_first(st.modified, path),
                removed: push_once(st.removed, path),
                ..st
            }
        } else {
            st
        },
        RawEventKind::Created | RawEventKind::Modified => if watched(path) {
            CoalesceState {
                removed: remove_first(st.removed, path),
                modified: push_once(st.modified, path),
                ..st
            }
        } else {
            st
        },
    }
}

/// The state after all of `events`.
pub open spec fn state_after(events: Seq<RawEvent>, watched: spec_fn(Seq<char>) -> bool) -> CoalesceState
    decreases events.len(),
{
    if events.len() == 0 {
        initial_state()
    } else {
        let e = events.last();
        step(state_after(events.drop_last(), watched), e.kind, e.path@, watched)
    }
}

/// Rename sources left without a target are lost from their old path: each
/// tracked one becomes a removal.
pub open spec fn settle(
    removed: Seq<Seq<char>>,
    modified: Seq<Seq<char>>,
    pending: Seq<Seq<char>>,
    watched: spec_fn(Seq<char>) -> bool,
) -> (Seq<Seq<char>>, Seq<Seq<char>>)
    decreases pending.len(),
{
    if pending.len() == 0 {
        (removed, modified)
    } else {
        let (r, m) = settle(removed, modified, pending.drop_last(), watched);
        let p = pending.last();
        if watched(p) {
            (push_once(r, p), remove_first(m, p))
        } else {
            (r, m)
        }
    }
}

/// Parent directory of a scope-relative path; the root is the empty path.
pub open spec fn parent_of(p: Seq<char>) -> Seq<char> {
    let i = last_index_of(p, '/');
    if i < 0 {
        Seq::empty()
    } else {
        p.subrange(0, i)
    }
}

/// Directories whose children may have changed: the parents of every event
/// other than `Modified`, each once, in order of first appearance. Tracking
/// plays no part.
pub open spec fn changed_directories(events: Seq<RawEvent>) -> Seq<Seq<char>>
    decreases events.len(),
{
    if events.len() == 0 {
        Seq::empty()
    } else {
        let e = events.last();
        let dirs = changed_directories(events.drop_last());
        if e.kind == RawEventKind::Modified {
            dirs
        } else {
            push_once(dirs, parent_of(e.path@))
        }
    }
}

pub open spec fn removed_changes(paths: Seq<Seq<char>>) -> Seq<FileChangeView> {
    paths.map_values(|p: Seq<char>| FileChangeView::FileRemoved { path: p })
}

pub open spec fn modified_changes(paths: Seq<Seq<char>>) -> Seq<FileChangeView> {
    paths.map_values(|p: Seq<char>| FileChangeView::FileModified { path: p })
}

pub open spec fn directory_changes(paths: Seq<Seq<char>>) -> Seq<FileChangeView> {
    paths.map_values(|p: Seq<char>| FileChangeView::DirectoryChanged { path: p })
}

/// The confirmed changes of a closed window: renames, then removals, then
/// modifications, then changed directories.
pub open spec fn coalesce_spec(events: Seq<RawEvent>, watched: spec_fn(Seq<char>) -> bool) -> Seq<FileChangeView> {
    let st = state_after(events, watched);
    let (removed, modified) = settle(st.removed, st.modified, st.pending_from, watched);
    st.renames + removed_changes(removed) + modified_changes(modified)
        + directory_changes(changed_directories(events))
}

/// Exec counterpart of `parent_of`.
fn parent_path(path: &String) -> (r: String)
    ensures
        r@ == parent_of(path@),
{
    let chars = chars_of(path.as_str());
    let (found, index) = find_last(&chars, '/');
    if found {
        string_of(vstd::slice::slice_subrange(chars.as_slice(), 0, index))
    } else {
        String::new()
    }
}

/// The lists gathered while coalescing.
struct Gathered {
    changes: Vec<FileChange>,
    removed: Vec<String>,
    modified: Vec<String>,
    pending_from: Vec<String>,
    ambiguous: bool,
}

impl Gathered {
    spec fn state(&self) -> CoalesceState {
        CoalesceState {
            renames: changes_view(self.changes@),
            removed: views(self.removed@),
            modified: views(self.modified@),
            pending_from: views(self.pending_from@),
            ambiguous: self.ambiguous,
        }
    }
}

/// Applies one event to the gathered lists.
fn apply_event<F: Fn(&str) -> bool>(g: &mut Gathered, event: &RawEvent, is_tracked: &F)
    requires
        decides(*is_tracked),
    ensures
        final(g).state() == step(old(g).state(), event.kind, event.path@, watched_by(*is_tracked)),
{
    let path = &event.path;
    match event.kind {
        RawEventKind::RenamedFrom => {
            list_push_once(&mut g.pending_from, path);
            assert(views(g.pending_from@).len() == g.pending_from@.len());
            if g.pending_from.len() > 1 {
                g.ambiguous = true;
            }
        },
        RawEventKind::RenamedTo => {
            let paired: Option<String> = if g.ambiguous {
                list_remove_first(&mut g.pending_from, path);
                None
            } else {
                let popped = g.pending_from.pop();
                proof {
                    if old(g).pending_from@.len() > 0 {
                        assert(views(g.pending_from@) =~= views(old(g).pending_from@).drop_last());
                    }
                }
                popped
            };
            let source: Option<String> = match paired {
                Some(s) => {
                    let sr = s.as_str();
                    let t = is_tracked(sr);
                    proof {
                        lemma_tracked_result(*is_tracked, sr, t);
                    }
                    if t {
                        Some(s)
                    } else {
                        None
                    }
                },
                None => None,
            };
            let pr = path.as_str();
            let target_tracked = is_tracked(pr);
            proof {
                lemma_tracked_result(*is_tracked, pr, target_tracked);
            }
            if !target_tracked {
                match source {
                    Some(s) => {
                        list_remove_first(&mut g.modified, &s);
                        list_push_once(&mut g.removed, &s);
                    },
                    None => {},
                }
                return;
            }
            let replaced = list_remove_first(&mut g.removed, path);
            match source {
                Some(s) => {
                    if !replaced {
                        if list_remove_first(&mut g.modified, &s) {
                            list_push_once(&mut g.modified, path);
                        }
                        let ghost before = changes_view(g.changes@);
                        g.changes.push(FileChange::FileRenamed { path: path.clone(), old_path: s });
                        assert(changes_view(g.changes@) =~= before.push(
                            FileChangeView::FileRenamed { path: path@, old_path: s@ },
                        ));
                    } else {
                        list_remove_first(&mut g.modified, &s);
                        list_push_once(&mut g.removed, &s);
                        list_push_once(&mut g.modified, path);
                    }
                },
                None => {
                    list_push_once(&mut g.modified, path);
                },
            }
        },
        RawEventKind::Removed => {
            let pr = path.as_str();
            let t = is_tracked(pr);
            proof {
                lemma_tracked_result(*is_tracked, pr, t);
            }
            if t {
                list_remove_first(&mut g.modified, path);
                list_push_once(&mut g.removed, path);
            }
        },
        RawEventKind::Created | RawEventKind::Modified => {
            let pr = path.as_str();
            let t = is_tracked(pr);
            proof {
                lemma_tracked_result(*is_tracked, pr, t);
            }
            if t {
                list_remove_first(&mut g.removed, path);
                list_push_once(&mut g.modified, path);
            }
        },
    }
}

/// Exec counterpart of `changed_directories`.
fn directories_of(events: &[RawEvent]) -> (r: Vec<String>)
    ensures
        views(r@) == changed_directories(events@),
{
    let mut dirs: Vec<String> = Vec::new();
    let mut i: usize = 0;
    while i < events.len()
        invariant
            i <= events.len(),
            views(dirs@) == changed_directories(events@.take(i as int)),
        decreases events.len() - i,
    {
        assert(events@.take(i + 1).drop_last() =~= events@.take(i as int));
        let event = &events[i];
        match event.kind {
            RawEventKind::Modified => {},
            _ => {
                let parent = parent_path(&event.path);
                list_push_once(&mut dirs, &parent);
            },
        }
        i = i + 1;
    }
    assert(events@.take(events.len() as int) =~= events@);
    dirs
}

/// Appends `FileChange`s made from `paths` with `make`'s shape, keeping views.
fn push_removed(changes: &mut Vec<FileChange>, paths: &Vec<String>)
    ensures
        changes_view(final(changes)@) == changes_view(old(changes)@) + removed_changes(views(paths@)),
{
    let mut i: usize = 0;
    while i < paths.len()
        invariant
            i <= paths.len(),
            changes_view(changes@) == changes_view(old(changes)@) + removed_changes(views(paths@.take(i as int))),
        decreases paths.len() - i,
    {
        let ghost before = changes_view(changes@);
        changes.push(FileChange::FileRemoved { path: paths[i].clone() });
        assert(views(paths@.take(i + 1)) =~= views(paths@.take(i as int)).push(paths@[i as int]@));
        assert(changes_view(changes@) =~= before.push(FileChangeView::FileRemoved { path: paths@[i as int]@ }));
        assert(removed_changes(views(paths@.take(i + 1))) =~= removed_changes(views(paths@.take(i as int))).push(
            FileChangeView::FileRemoved { path: paths@[i as int]@ }));
        i = i + 1;
    }
    assert(paths@.take(paths.len() as int) =~= paths@);
}

fn push_modified(changes: &mut Vec<FileChange>, paths: &Vec<String>)
    ensures
        changes_view(final(changes)@) == changes_view(old(changes)@) + modified_changes(views(paths@)),
{
    let mut i: usize = 0;
    while i < paths.len()
        invariant
            i <= paths.len(),
            changes_view(changes@) == changes_view(old(changes)@) + modified_changes(views(paths@.take(i as int))),
        decreases paths.len() - i,
    {
        let ghost before = changes_view(changes@);
        changes.push(FileChange::FileModified { path: paths[i].clone() });
        assert(views(paths@.take(i + 1)) =~= views(paths@.take(i as int)).push(paths@[i as int]@));
        assert(changes_view(changes@) =~= before.push(FileChangeView::FileModified { path: paths@[i as int]@ }));
        assert(modified_changes(views(paths@.take(i + 1))) =~= modified_changes(views(paths@.take(i as int))).push(
            FileChangeView::FileModified { path: paths@[i as int]@ }));
        i = i + 1;
    }
    assert(paths@.take(paths.len() as int) =~= paths@);
}

fn push_directories(changes: &mut Vec<FileChange>, paths: &Vec<String>)
    ensures
        changes_view(final(changes)@) == changes_view(old(changes)@) + directory_changes(views(paths@)),
{
    let mut i: usize = 0;
    while i < paths.len()
        invariant
            i <= paths.len(),
            changes_view(changes@) == changes_view(old(changes)@) + directory_changes(views(paths@.take(i as int))),
        decreases paths.len() - i,
    {
        let ghost before = changes_view(changes@);
        changes.push(FileChange::DirectoryChanged { path: paths[i].clone() });
        assert(views(paths@.take(i + 1)) =~= views(paths@.take(i as int)).push(paths@[i as int]@));
        assert(changes_view(changes@) =~= before.push(FileChangeView::DirectoryChanged { path: paths@[i as int]@ }));
        assert(directory_changes(views(paths@.take(i + 1))) =~= directory_changes(views(paths@.take(i as int))).push(
            FileChangeView::DirectoryChanged { path: paths@[i as int]@ }));
        i = i + 1;
    }
    assert(paths@.take(paths.len() as int) =~= paths@);
}

/// Coalesces the raw events of a closed window into confirmed changes.
///
/// `is_tracked` says whether a path is a tree target; it decides the changes
/// meant for tabs (renames, removals, modifications) but not the changed
/// directories, which are reported for the parent of every event other than
/// `Modified`.
pub fn coalesce(events: &[RawEvent], is_tracked: impl Fn(&str) -> bool) -> (r: Vec<FileChange>)
    requires
        decides(is_tracked),
    ensures
        changes_view(r@) == coalesce_spec(events@, watched_by(is_tracked)),
{
    let ghost watched = watched_by(is_tracked);
    let mut g = Gathered {
        changes: Vec::new(),
        removed: Vec::new(),
        modified: Vec::new(),
        pending_from: Vec::new(),
        ambiguous: false,
    };
    assert(g.state() == initial_state()) by {
        assert(changes_view(g.changes@) =~= Seq::<FileChangeView>::empty());
        assert(views(g.removed@) =~= Seq::<Seq<char>>::empty());
        assert(views(g.modified@) =~= Seq::<Seq<char>>::empty());
        assert(views(g.pending_from@) =~= Seq::<Seq<char>>::empty());
    }
    assert(events@.take(0) =~= Seq::<RawEvent>::empty());
    let mut i: usize = 0;
    while i < events.len()
        invariant
            i <= events.len(),
            decides(is_tracked),
            watched == watched_by(is_tracked),
            g.state() == state_after(events@.take(i as int), watched),
        decreases events.len() - i,
    {
        assert(events@.take(i + 1).drop_last() =~= events@.take(i as int));
        apply_event(&mut g, &events[i], &is_tracked);
        i = i + 1;
    }
    assert(events@.take(events.len() as int) =~= events@);
    let ghost st = g.state();
    // Settle rename sources whose target never arrived.
    let mut k: usize = 0;
    assert(g.pending_from@.take(0) =~= Seq::<String>::empty());
    assert(views(g.pending_from@.take(0)) =~= Seq::<Seq<char>>::empty());
    while k < g.pending_from.len()
        invariant
            k <= g.pending_from.len(),
            decides(is_tracked),
            watched == watched_by(is_tracked),
            views(g.pending_from@) == st.pending_from,
            (views(g.removed@), views(g.modified@)) == settle(
                st.removed,
                st.modified,
                views(g.pending_from@.take(k as int)),
                watched,
            ),
            changes_view(g.changes@) == st.renames,
        decreases g.pending_from.len() - k,
    {
        assert(views(g.pending_from@.take(k + 1)).drop_last() =~= views(g.pending_from@.take(k as int)));
        assert(views(g.pending_from@.take(k + 1)).last() == g.pending_from@[k as int]@);
        let path = g.pending_from[k].clone();
        let pr = path.as_str();
        let t = is_tracked(pr);
        proof {
            lemma_tracked_result(is_tracked, pr, t);
        }
        if t {
            list_remove_first(&mut g.modified, &path);
            list_push_once(&mut g.removed, &path);
        }
        k = k + 1;
    }
    assert(g.pending_from@.take(g.pending_from.len() as int) =~= g.pending_from@);
    let directories = directories_of(events);
    let mut changes = g.changes;
    push_removed(&mut changes, &g.removed);
    push_modified(&mut changes, &g.modified);
    push_directories(&mut changes, &directories);
    changes
}

// ---------------------------------------------------------------------------
// What every coalescing keeps.

/// The gathered lists hold no repetition, only tracked paths reach the
/// tab-facing lists, and every confirmed rename joins two tracked paths.
pub open spec fn coalesce_inv(st: CoalesceState, watched: spec_fn(Seq<char>) -> bool) -> bool {
    &&& distinct(st.removed)
    &&& distinct(st.modified)
    &&& distinct(st.pending_from)
    &&& forall|q: Seq<char>| st.removed.contains(q) ==> watched(q)
    &&& forall|q: Seq<char>| st.modified.contains(q) ==> watched(q)
    &&& forall|i: int| 0 <= i < st.renames.len() ==> (#[trigger] st.renames[i] matches
        FileChangeView::FileRenamed { path, old_path } && watched(path) && watched(old_path))
}

proof fn lemma_drop_last_distinct(s: Seq<Seq<char>>)
    requires
        distinct(s),
        s.len() > 0,
    ensures
        distinct(s.drop_last()),
        forall|q: Seq<char>| s.drop_last().contains(q) ==> s.contains(q),
{
    let t = s.drop_last();
    assert forall|q: Seq<char>| t.contains(q) implies s.contains(q) by {
        let k = choose|k: int| 0 <= k < t.len() && t[k] == q;
        assert(s[k] == q);
    }
}

proof fn lemma_step_inv(st: CoalesceState, kind: RawEventKind, path: Seq<char>, watched: spec_fn(Seq<char>) -> bool)
    requires
        coalesce_inv(st, watched),
    ensures
        coalesce_inv(step(st, kind, path, watched), watched),
{
    match kind {
        RawEventKind::RenamedFrom => {
            lemma_push_once_all(st.pending_from, path);
        },
        RawEventKind::RenamedTo => {
            let (pending, paired) = rename_source(st, path);
            if st.ambiguous {
                lemma_remove_first_all(st.pending_from, path);
            } else if st.pending_from.len() > 0 {
                lemma_drop_last_distinct(st.pending_from);
            }
            let source = match paired {
                Some(s) => if watched(s) { Some(s) } else { None },
                None => None,
            };
            if !watched(path) {
                match source {
                    Some(s) => {
                        lemma_remove_first_all(st.modified, s);
                        lemma_push_once_all(st.removed, s);
                    },
                    None => {},
                }
            } else {
                lemma_remove_first_all(st.removed, path);
                match source {
                    Some(s) => {
                        if !st.removed.contains(path) {
                            lemma_remove_first_absent(st.removed, path);
                            let renames = st.renames.push(FileChangeView::FileRenamed { path: path, old_path: s });
                            assert forall|i: int| 0 <= i < renames.len() implies (#[trigger] renames[i] matches
                                FileChangeView::FileRenamed { path, old_path } && watched(path) && watched(old_path)) by {
                                if i < st.renames.len() {
                                    assert(renames[i] == st.renames[i]);
                                }
                            }
                            if st.modified.contains(s) {
                                lemma_remove_first_all(st.modified, s);
                                lemma_push_once_all(remove_first(st.modified, s), path);
                            }
                        } else {
                            lemma_push_once_all(remove_first(st.removed, path), s);
                            lemma_remove_first_all(st.modified, s);
                            lemma_push_once_all(remove_first(st.modified, s), path);
                        }
                    },
                    None => {
                        lemma_push_once_all(st.modified, path);
                    },
                }
            }
        },
        RawEventKind::Removed => {
            if watched(path) {
                lemma_push_once_all(st.removed, path);
                lemma_remove_first_all(st.modified, path);
            }
        },
        RawEventKind::Created | RawEventKind::Modified => {
            if watched(path) {
                lemma_push_once_all(st.modified, path);
                lemma_remove_first_all(st.removed, path);
            }
        },
    }
}

proof fn lemma_state_after_inv(events: Seq<RawEvent>, watched: spec_fn(Seq<char>) -> bool)
    ensures
        coalesce_inv(state_after(events, watched), watched),
    decreases events.len(),
{
    if events.len() > 0 {
        lemma_state_after_inv(events.drop_last(), watched);
        let e = events.last();
        lemma_step_inv(state_after(events.drop_last(), watched), e.kind, e.path@, watched);
    }
}

proof fn lemma_settle_inv(
    removed: Seq<Seq<char>>,
    modified: Seq<Seq<char>>,
    pending: Seq<Seq<char>>,
    watched: spec_fn(Seq<char>) -> bool,
)
    requires
        distinct(removed),
        distinct(modified),
        forall|q: Seq<char>| removed.contains(q) ==> watched(q),
        forall|q: Seq<char>| modified.contains(q) ==> watched(q),
    ensures
        distinct(settle(removed, modified, pending, watched).0),
        distinct(settle(removed, modified, pending, watched).1),
        forall|q: Seq<char>| settle(removed, modified, pending, watched).0.contains(q) ==> watched(q),
        forall|q: Seq<char>| settle(removed, modified, pending, watched).1.contains(q) ==> watched(q),
    decreases pending.len(),
{
    if pending.len() > 0 {
        lemma_settle_inv(removed, modified, pending.drop_last(), watched);
        let (r, m) = settle(removed, modified, pending.drop_last(), watched);
        let p = pending.last();
        lemma_push_once_all(r, p);
        lemma_remove_first_all(m, p);
    }
}

proof fn lemma_changed_directories_distinct(events: Seq<RawEvent>)
    ensures
        distinct(changed_directories(events)),
    decreases events.len(),
{
    if events.len() > 0 {
        lemma_changed_directories_distinct(events.drop_last());
        let e = events.last();
        lemma_push_once_contains(changed_directories(events.drop_last()), parent_of(e.path@), parent_of(e.path@));
    }
}

/// The changes meant for tabs only ever name tracked paths (a rename
/// joins two tracked paths), and no removal, modification or directory is
/// reported twice in one window.
pub proof fn coalesced_changes_are_well_formed(events: Seq<RawEvent>, watched: spec_fn(Seq<char>) -> bool)
    ensures
        ({
            let st = state_after(events, watched);
            let (removed, modified) = settle(st.removed, st.modified, st.pending_from, watched);
            &&& coalesce_spec(events, watched) == st.renames + removed_changes(removed)
                + modified_changes(modified) + directory_changes(changed_directories(events))
            &&& forall|i: int| 0 <= i < st.renames.len() ==> (#[trigger] st.renames[i] matches
                FileChangeView::FileRenamed { path, old_path } && watched(path) && watched(old_path))
            &&& forall|q: Seq<char>| removed.contains(q) ==> watched(q)
            &&& forall|q: Seq<char>| modified.contains(q) ==> watched(q)
            &&& distinct(removed)
            &&& distinct(modified)
            &&& distinct(changed_directories(events))
        }),
{
    lemma_state_after_inv(events, watched);
    let st = state_after(events, watched);
    lemma_settle_inv(st.removed, st.modified, st.pending_from, watched);
    lemma_changed_directories_distinct(events);
}

// ---------------------------------------------------------------------------
// The debounce window.

/// Largest timestamp a window accepts, so that its deadlines stay in range.
pub const MAX_TIMESTAMP_MS: u64 = 18446744073709551015;

/// Outcome of closing a window.
#[derive(Debug, Clone, PartialEq, Eq)]
pub enum WindowOutcome {
    /// The confirmed raw events, to be passed to `coalesce`.
    Events(Vec<RawEvent>),
    /// The window held more than `MAX_EVENTS_PER_WINDOW` events and degraded.
    Overflowed,
}

/// The debounce window. Times are milliseconds supplied by the caller.
#[derive(Debug)]
pub struct DebounceWindow {
    events: Vec<(u64, RawEvent)>,
    opened_at_ms: u64,
    last_event_ms: u64,
    overflowed: bool,
}

/// The mathematical content of a window.
pub struct WindowView {
    /// Events with the time they arrived, in arrival order.
    pub events: Seq<(u64, RawEvent)>,
    pub opened_at_ms: u64,
    pub last_event_ms: u64,
    /// The window exceeded the event limit; its events were dropped.
    pub overflowed: bool,
}

impl View for DebounceWindow {
    type V = WindowView;

    closed spec fn view(&self) -> WindowView {
        WindowView {
            events: self.events@,
            opened_at_ms: self.opened_at_ms,
            last_event_ms: self.last_event_ms,
            overflowed: self.overflowed,
        }
    }
}

/// The empty window.
pub open spec fn empty_window() -> WindowView {
    WindowView { events: Seq::empty(), opened_at_ms: 0, last_event_ms: 0, overflowed: false }
}

pub open spec fn window_open(w: WindowView) -> bool {
    w.events.len() > 0 || w.overflowed
}

/// When the window closes: after `DEBOUNCE_MS` of quiet, and at the latest
/// `MAX_WINDOW_MS` after it opened.
pub open spec fn window_deadline(w: WindowView) -> Option<u64> {
    if !window_open(w) {
        None
    } else {
        let quiet = w.last_event_ms + DEBOUNCE_MS;
        let bound = w.opened_at_ms + MAX_WINDOW_MS;
        Some((if quiet < bound { quiet } else { bound }) as u64)
    }
}

/// A window the operations keep: bounded size, events in arrival order no
/// later than the last event, timestamps in range, and an overflowed window
/// holds no events.
pub open spec fn window_wf(w: WindowView) -> bool {
    &&& w.events.len() <= MAX_EVENTS_PER_WINDOW
    &&& w.overflowed ==> w.events.len() == 0
    &&& forall|i: int, j: int| 0 <= i <= j < w.events.len() ==> w.events[i].0 <= w.events[j].0
    &&& forall|i: int| 0 <= i < w.events.len() ==> w.events[i].0 <= w.last_event_ms
    &&& w.last_event_ms <= MAX_TIMESTAMP_MS
    &&& w.opened_at_ms <= MAX_TIMESTAMP_MS
}

/// The window after an event arrives at `now`.
pub open spec fn window_push(w: WindowView, now: u64, event: RawEvent) -> WindowView {
    let opened = if window_open(w) { w.opened_at_ms } else { now };
    if w.overflowed {
        WindowView { opened_at_ms: opened, last_event_ms: now, ..w }
    } else if w.events.len() + 1 > MAX_EVENTS_PER_WINDOW {
        WindowView { events: Seq::empty(), opened_at_ms: opened, last_event_ms: now, overflowed: true }
    } else {
        WindowView {
            events: w.events.push((now, event)),
            opened_at_ms: opened,
            last_event_ms: now,
            overflowed: false,
        }
    }
}

/// Removals and rename sources that are still unresolved.
pub struct Pendings {
    pub removed: Seq<(Seq<char>, u64)>,
    pub renamed_from: Seq<(Seq<char>, u64)>,
}

/// Drops the first pending entry for `path`.
pub open spec fn remove_first_entry(s: Seq<(Seq<char>, u64)>, path: Seq<char>) -> Seq<(Seq<char>, u64)>
    decreases s.len(),
{
    if s.len() == 0 {
        s
    } else if s[0].0 == path {
        s.drop_first()
    } else {
        seq![s[0]] + remove_first_entry(s.drop_first(), path)
    }
}

/// Unresolved removals and rename sources after `events`. A removal is
/// resolved by a later `Created`, `Modified` or `RenamedTo` of its path; rename
/// sources are resolved by targets by count.
pub open spec fn pendings(events: Seq<(u64, RawEvent)>) -> Pendings
    decreases events.len(),
{
    if events.len() == 0 {
        Pendings { removed: Seq::empty(), renamed_from: Seq::empty() }
    } else {
        let pd = pendings(events.drop_last());
        let (at, e) = events.last();
        let p = e.path@;
        match e.kind {
            RawEventKind::Removed => Pendings { removed: pd.removed.push((p, at)), ..pd },
            RawEventKind::Created | RawEventKind::Modified => Pendings {
                removed: remove_first_entry(pd.removed, p),
                ..pd
            },
            RawEventKind::RenamedFrom => Pendings { renamed_from: pd.renamed_from.push((p, at)), ..pd },
            RawEventKind::RenamedTo => Pendings {
                removed: remove_first_entry(pd.removed, p),
                renamed_from: if pd.renamed_from.len() > 0 {
                    pd.renamed_from.drop_first()
                } else {
                    pd.renamed_from
                },
            },
        }
    }
}

/// The entries still within their grace period at `now`.
pub open spec fn in_grace(s: Seq<(Seq<char>, u64)>, now: u64) -> Seq<(Seq<char>, u64)>
    decreases s.len(),
{
    if s.len() == 0 {
        s
    } else {
        let rest = in_grace(s.drop_last(), now);
        if now < s.last().1 + DEBOUNCE_MS {
            rest.push(s.last())
        } else {
            rest
        }
    }
}

/// Pending entries (removals first, then rename sources) still in grace.
pub open spec fn pending_in_grace(events: Seq<(u64, RawEvent)>, now: u64) -> Seq<(Seq<char>, u64)> {
    let pd = pendings(events);
    in_grace(pd.removed + pd.renamed_from, now)
}

/// Whether `pending` names `path`.
pub open spec fn names_path(pending: Seq<(Seq<char>, u64)>, path: Seq<char>) -> bool {
    exists|k: int| 0 <= k < pending.len() && pending[k].0 == path
}

/// The events whose path is (`keep == true`) or is not pending.
pub open spec fn select(events: Seq<(u64, RawEvent)>, pending: Seq<(Seq<char>, u64)>, keep: bool) -> Seq<(u64, RawEvent)>
    decreases events.len(),
{
    if events.len() == 0 {
        events
    } else {
        let rest = select(events.drop_last(), pending, keep);
        if names_path(pending, events.last().1.path@) == keep {
            rest.push(events.last())
        } else {
            rest
        }
    }
}

/// The earliest arrival among pending entries, or 0.
pub open spec fn earliest(pending: Seq<(Seq<char>, u64)>) -> u64
    decreases pending.len(),
{
    if pending.len() == 0 {
        0
    } else if pending.len() == 1 {
        pending[0].1
    } else {
        let rest = earliest(pending.drop_last());
        if pending.last().1 < rest { pending.last().1 } else { rest }
    }
}

/// The window left after closing at `now`: the events of paths still pending
/// are carried, measured again from the earliest pending arrival.
pub open spec fn carried_window(w: WindowView, now: u64) -> WindowView {
    let pending = pending_in_grace(w.events, now);
    let retained = select(w.events, pending, true);
    WindowView {
        events: retained,
        opened_at_ms: earliest(pending),
        last_event_ms: if retained.len() > 0 { retained.last().0 } else { 0 },
        overflowed: false,
    }
}

/// The events confirmed when the window closes at `now`.
pub open spec fn due_events(w: WindowView, now: u64) -> Seq<RawEvent> {
    select(w.events, pending_in_grace(w.events, now), false).map_values(|x: (u64, RawEvent)| x.1)
}

/// Whether the window closes at `now`.
pub open spec fn window_due(w: WindowView, now: u64) -> bool {
    match window_deadline(w) {
        Some(d) => now >= d,
        None => false,
    }
}


/// Pending entries as character sequences with their arrival times.
pub open spec fn entries(v: Seq<(String, u64)>) -> Seq<(Seq<char>, u64)> {
    v.map_values(|e: (String, u64)| (e.0@, e.1))
}

/// Some event of `events` arrived at `e.1` with path `e.0`.
pub open spec fn arrived(events: Seq<(u64, RawEvent)>, e: (Seq<char>, u64)) -> bool {
    exists|j: int| 0 <= j < events.len() && #[trigger] events[j].0 == e.1 && events[j].1.path@ == e.0
}

proof fn lemma_remove_first_entry_at(s: Seq<(Seq<char>, u64)>, p: Seq<char>, i: int)
    requires
        0 <= i < s.len(),
        s[i].0 == p,
        forall|k: int| 0 <= k < i ==> s[k].0 != p,
    ensures
        remove_first_entry(s, p) == s.take(i) + s.skip(i + 1),
    decreases s.len(),
{
    if i > 0 {
        let t = s.drop_first();
        lemma_remove_first_entry_at(t, p, i - 1);
        assert(s.take(i) =~= seq![s[0]] + t.take(i - 1));
        assert(s.skip(i + 1) =~= t.skip(i));
    } else {
        assert(s.skip(1) =~= s.drop_first());
        assert(s.take(0) =~= Seq::<(Seq<char>, u64)>::empty());
    }
}

proof fn lemma_remove_first_entry_absent(s: Seq<(Seq<char>, u64)>, p: Seq<char>)
    requires
        forall|k: int| 0 <= k < s.len() ==> s[k].0 != p,
    ensures
        remove_first_entry(s, p) == s,
    decreases s.len(),
{
    if s.len() > 0 {
        let t = s.drop_first();
        assert forall|k: int| 0 <= k < t.len() implies t[k].0 != p by {
            assert(t[k] == s[k + 1]);
        }
        lemma_remove_first_entry_absent(t, p);
        assert(seq![s[0]] + t =~= s);
    }
}

/// Every entry left after `remove_first_entry` was in the list.
proof fn lemma_remove_first_entry_subset(s: Seq<(Seq<char>, u64)>, p: Seq<char>)
    ensures
        forall|k: int| 0 <= k < remove_first_entry(s, p).len() ==> s.contains(#[trigger] remove_first_entry(s, p)[k]),
    decreases s.len(),
{
    if s.len() > 0 && s[0].0 != p {
        let t = s.drop_first();
        lemma_remove_first_entry_subset(t, p);
        let r = remove_first_entry(s, p);
        assert forall|k: int| 0 <= k < r.len() implies s.contains(#[trigger] r[k]) by {
            if k == 0 {
                assert(s[0] == r[0]);
            } else {
                assert(r[k] == remove_first_entry(t, p)[k - 1]);
                let m = choose|m: int| 0 <= m < t.len() && t[m] == r[k];
                assert(s[m + 1] == r[k]);
            }
        }
    } else if s.len() > 0 {
        let r = remove_first_entry(s, p);
        assert forall|k: int| 0 <= k < r.len() implies s.contains(#[trigger] r[k]) by {
            assert(s[k + 1] == r[k]);
        }
    }
}

/// Every pending entry records an event of the window: its path and arrival.
proof fn lemma_pendings_arrived(events: Seq<(u64, RawEvent)>)
    ensures
        forall|k: int| 0 <= k < pendings(events).removed.len() ==> arrived(events, #[trigger] pendings(events).removed[k]),
        forall|k: int| 0 <= k < pendings(events).renamed_from.len() ==> arrived(events, #[trigger] pendings(events).renamed_from[k]),
    decreases events.len(),
{
    if events.len() > 0 {
        let prev = events.drop_last();
        lemma_pendings_arrived(prev);
        let pd = pendings(prev);
        let n = events.len() - 1;
        let (at, e) = events.last();
        assert(events[n].0 == at && events[n].1.path@ == e.path@);
        assert forall|x: (Seq<char>, u64)| arrived(prev, x) implies arrived(events, x) by {
            let j = choose|j: int| 0 <= j < prev.len() && #[trigger] prev[j].0 == x.1 && prev[j].1.path@ == x.0;
            assert(events[j] == prev[j]);
        }
        lemma_remove_first_entry_subset(pd.removed, e.path@);
        let cur = pendings(events);
        assert forall|k: int| 0 <= k < cur.removed.len() implies arrived(events, #[trigger] cur.removed[k]) by {
            if e.kind == RawEventKind::Removed {
                if k < pd.removed.len() {
                    assert(cur.removed[k] == pd.removed[k]);
                }
            } else if e.kind == RawEventKind::Created || e.kind == RawEventKind::Modified || e.kind == RawEventKind::RenamedTo {
                let m = choose|m: int| 0 <= m < pd.removed.len() && pd.removed[m] == cur.removed[k];
                assert(arrived(prev, pd.removed[m]));
            } else {
                assert(cur.removed[k] == pd.removed[k]);
            }
        }
        assert forall|k: int| 0 <= k < cur.renamed_from.len() implies arrived(events, #[trigger] cur.renamed_from[k]) by {
            if e.kind == RawEventKind::RenamedFrom {
                if k < pd.renamed_from.len() {
                    assert(cur.renamed_from[k] == pd.renamed_from[k]);
                }
            } else if e.kind == RawEventKind::RenamedTo && pd.renamed_from.len() > 0 {
                assert(cur.renamed_from[k] == pd.renamed_from[k + 1]);
            } else {
                assert(cur.renamed_from[k] == pd.renamed_from[k]);
            }
        }
    }
}

/// The entries in grace are entries of the list, each still in its grace period.
proof fn lemma_in_grace(s: Seq<(Seq<char>, u64)>, now: u64)
    ensures
        forall|k: int| 0 <= k < in_grace(s, now).len() ==> s.contains(#[trigger] in_grace(s, now)[k]),
        forall|k: int| 0 <= k < in_grace(s, now).len() ==> now < #[trigger] in_grace(s, now)[k].1 + DEBOUNCE_MS,
    decreases s.len(),
{
    if s.len() > 0 {
        let prev = s.drop_last();
        lemma_in_grace(prev, now);
        let r = in_grace(s, now);
        let rest = in_grace(prev, now);
        assert forall|k: int| 0 <= k < r.len() implies s.contains(#[trigger] r[k]) && now < r[k].1 + DEBOUNCE_MS by {
            if k < rest.len() {
                assert(r[k] == rest[k]);
                let m = choose|m: int| 0 <= m < prev.len() && prev[m] == rest[k];
                assert(s[m] == prev[m]);
            } else {
                assert(r[k] == s.last());
                assert(s[s.len() - 1] == s.last());
            }
        }
    }
}

/// A non-empty list of entries has its earliest arrival among them.
proof fn lemma_earliest(p: Seq<(Seq<char>, u64)>)
    requires
        p.len() > 0,
    ensures
        exists|k: int| 0 <= k < p.len() && earliest(p) == #[trigger] p[k].1,
    decreases p.len(),
{
    if p.len() == 1 {
        assert(earliest(p) == p[0].1);
    } else {
        let prev = p.drop_last();
        lemma_earliest(prev);
        let k = choose|k: int| 0 <= k < prev.len() && earliest(prev) == #[trigger] prev[k].1;
        assert(prev[k] == p[k]);
        assert(p[p.len() - 1] == p.last());
    }
}

/// What `select` keeps: a subsequence of the events, with exactly those whose
/// path is (or is not) pending, in the same order.
proof fn lemma_select(events: Seq<(u64, RawEvent)>, pending: Seq<(Seq<char>, u64)>, keep: bool)
    ensures
        select(events, pending, keep).len() <= events.len(),
        forall|i: int| 0 <= i < select(events, pending, keep).len() ==> events.contains(#[trigger] select(events, pending, keep)[i]),
        forall|i: int| 0 <= i < select(events, pending, keep).len()
            ==> names_path(pending, (#[trigger] select(events, pending, keep)[i]).1.path@) == keep,
        forall|j: int| 0 <= j < events.len() && names_path(pending, (#[trigger] events[j]).1.path@) == keep
            ==> select(events, pending, keep).contains(events[j]),
        (forall|i: int, j: int| 0 <= i <= j < events.len() ==> events[i].0 <= events[j].0)
            ==> (forall|i: int, j: int| 0 <= i <= j < select(events, pending, keep).len()
                ==> select(events, pending, keep)[i].0 <= select(events, pending, keep)[j].0),
    decreases events.len(),
{
    if events.len() > 0 {
        let prev = events.drop_last();
        lemma_select(prev, pending, keep);
        let rest = select(prev, pending, keep);
        let r = select(events, pending, keep);
        let n = events.len() - 1;
        assert(events[n] == events.last());
        assert forall|i: int| 0 <= i < r.len() implies events.contains(#[trigger] r[i])
            && names_path(pending, r[i].1.path@) == keep by {
            if i < rest.len() {
                assert(r[i] == rest[i]);
                let m = choose|m: int| 0 <= m < prev.len() && prev[m] == rest[i];
                assert(events[m] == prev[m]);
            }
        }
        assert forall|j: int| 0 <= j < events.len() && names_path(pending, (#[trigger] events[j]).1.path@) == keep
            implies r.contains(events[j]) by {
            if j < n {
                assert(prev[j] == events[j]);
                let m = choose|m: int| 0 <= m < rest.len() && rest[m] == prev[j];
                assert(r[m] == rest[m]);
            } else {
                assert(r[r.len() - 1] == events[j]);
            }
        }
        if forall|i: int, j: int| 0 <= i <= j < events.len() ==> events[i].0 <= events[j].0 {
            assert forall|i: int, j: int| 0 <= i <= j < prev.len() implies prev[i].0 <= prev[j].0 by {
                assert(prev[i] == events[i] && prev[j] == events[j]);
            }
            assert forall|i: int, j: int| 0 <= i <= j < r.len() implies r[i].0 <= r[j].0 by {
                if j < rest.len() {
                    assert(r[i] == rest[i] && r[j] == rest[j]);
                } else if i < rest.len() {
                    assert(r[i] == rest[i]);
                    let m = choose|m: int| 0 <= m < prev.len() && prev[m] == rest[i];
                    assert(prev[m] == events[m]);
                }
            }
        }
    }
}


/// Drops the first pending removal of `path`.
fn remove_first_removal(removed: &mut Vec<(String, u64)>, path: &String)
    ensures
        entries(final(removed)@) == remove_first_entry(entries(old(removed)@), path@),
        final(removed)@.len() <= old(removed)@.len(),
{
    let ghost s = entries(removed@);
    let mut i: usize = 0;
    while i < removed.len()
        invariant
            i <= removed.len(),
            removed@ == old(removed)@,
            s == entries(removed@),
            forall|k: int| 0 <= k < i ==> s[k].0 != path@,
        decreases removed.len() - i,
    {
        if removed[i].0 == *path {
            proof {
                lemma_remove_first_entry_at(s, path@, i as int);
            }
            removed.remove(i);
            assert(entries(removed@) =~= s.take(i as int) + s.skip(i + 1));
            return;
        }
        i = i + 1;
    }
    proof {
        lemma_remove_first_entry_absent(s, path@);
    }
}

/// Whether `pending` holds an entry for `path`.
fn names_pending(pending: &Vec<(String, u64)>, path: &String) -> (r: bool)
    ensures
        r == names_path(entries(pending@), path@),
{
    let mut k: usize = 0;
    while k < pending.len()
        invariant
            k <= pending.len(),
            forall|m: int| 0 <= m < k ==> entries(pending@)[m].0 != path@,
        decreases pending.len() - k,
    {
        if pending[k].0 == *path {
            assert(entries(pending@)[k as int].0 == path@);
            return true;
        }
        k = k + 1;
    }
    false
}


/// The window left after closing keeps the operations' invariant, and its
/// deadline, if it stays open, lies after the closing time.
proof fn lemma_carried_window(w: WindowView, now: u64)
    requires
        window_wf(w),
        window_due(w, now),
        !w.overflowed,
    ensures
        window_wf(carried_window(w, now)),
        match window_deadline(carried_window(w, now)) {
            Some(d) => now < d,
            None => true,
        },
{
    let pending = pending_in_grace(w.events, now);
    let pd = pendings(w.events);
    let all = pd.removed + pd.renamed_from;
    let c = carried_window(w, now);
    lemma_select(w.events, pending, true);
    lemma_pendings_arrived(w.events);
    lemma_in_grace(all, now);
    let retained = c.events;
    // Each pending entry arrived with an event of the window.
    assert forall|k: int| 0 <= k < pending.len() implies arrived(w.events, #[trigger] pending[k]) by {
        let m = choose|m: int| 0 <= m < all.len() && all[m] == pending[k];
        if m < pd.removed.len() {
            assert(all[m] == pd.removed[m]);
        } else {
            assert(all[m] == pd.renamed_from[m - pd.removed.len()]);
        }
    }
    if pending.len() > 0 {
        lemma_earliest(pending);
        let k = choose|k: int| 0 <= k < pending.len() && earliest(pending) == #[trigger] pending[k].1;
        assert(arrived(w.events, pending[k]));
        let j = choose|j: int| 0 <= j < w.events.len() && #[trigger] w.events[j].0 == pending[k].1 && w.events[j].1.path@ == pending[k].0;
        assert(c.opened_at_ms <= MAX_TIMESTAMP_MS);
        assert(now < c.opened_at_ms + DEBOUNCE_MS);
    }
    if retained.len() > 0 {
        let n = retained.len() - 1;
        assert(w.events.contains(retained[n]));
        assert(c.last_event_ms == retained[n].0);
        // Some pending entry names the last carried event's path; that entry's
        // own event is carried too and is no later than the last one.
        assert(names_path(pending, retained[n].1.path@));
        let k = choose|k: int| 0 <= k < pending.len() && pending[k].0 == retained[n].1.path@;
        assert(arrived(w.events, pending[k]));
        let j = choose|j: int| 0 <= j < w.events.len() && #[trigger] w.events[j].0 == pending[k].1 && w.events[j].1.path@ == pending[k].0;
        assert(names_path(pending, w.events[j].1.path@));
        assert(retained.contains(w.events[j]));
        let m = choose|m: int| 0 <= m < retained.len() && retained[m] == w.events[j];
        assert(retained[m].0 <= retained[n].0);
        assert(now < pending[k].1 + DEBOUNCE_MS);
        let m2 = choose|m2: int| 0 <= m2 < w.events.len() && w.events[m2] == retained[n];
        assert(retained[n].0 <= w.last_event_ms);
    }
}

proof fn lemma_select_split(events: Seq<(u64, RawEvent)>, pending: Seq<(Seq<char>, u64)>)
    ensures
        select(events, pending, true).len() + select(events, pending, false).len() == events.len(),
    decreases events.len(),
{
    if events.len() > 0 {
        lemma_select_split(events.drop_last(), pending);
    }
}

/// Closing a window loses no event: every event is either confirmed or
/// carried to the next window, and the carried ones are exactly those whose
/// path has a pending removal or rename source still in its grace period.
pub proof fn closing_a_window_loses_no_event(w: WindowView, now: u64)
    ensures
        due_events(w, now).len() + carried_window(w, now).events.len() == w.events.len(),
        forall|j: int| 0 <= j < w.events.len() && names_path(pending_in_grace(w.events, now), (#[trigger] w.events[j]).1.path@)
            ==> carried_window(w, now).events.contains(w.events[j]),
        forall|j: int| 0 <= j < w.events.len() && !names_path(pending_in_grace(w.events, now), (#[trigger] w.events[j]).1.path@)
            ==> due_events(w, now).contains(w.events[j].1),
{
    let pending = pending_in_grace(w.events, now);
    lemma_select_split(w.events, pending);
    lemma_select(w.events, pending, true);
    lemma_select(w.events, pending, false);
    let confirmed = select(w.events, pending, false);
    assert forall|j: int| 0 <= j < w.events.len() && !names_path(pending, (#[trigger] w.events[j]).1.path@)
        implies due_events(w, now).contains(w.events[j].1) by {
        let m = choose|m: int| 0 <= m < confirmed.len() && confirmed[m] == w.events[j];
        assert(due_events(w, now)[m] == w.events[j].1);
    }
}

/// A push always leaves the window open, closing `DEBOUNCE_MS` after this
/// event and at the latest `MAX_WINDOW_MS` after the window opened; an event
/// of any kind (a removal too) never moves that upper bound.
pub proof fn pushing_sets_the_deadline(w: WindowView, now: u64, event: RawEvent)
    ensures
        window_open(window_push(w, now, event)),
        window_deadline(window_push(w, now, event)) == Some(
            (if now + DEBOUNCE_MS < (if window_open(w) { w.opened_at_ms } else { now }) + MAX_WINDOW_MS {
                now + DEBOUNCE_MS
            } else {
                (if window_open(w) { w.opened_at_ms } else { now }) + MAX_WINDOW_MS
            }) as u64,
        ),
        window_open(w) ==> window_push(w, now, event).opened_at_ms == w.opened_at_ms,
{
}

/// The window after a series of pushes into an empty window.
pub open spec fn after_pushes(pushes: Seq<(u64, RawEvent)>) -> WindowView
    decreases pushes.len(),
{
    if pushes.len() == 0 {
        empty_window()
    } else {
        window_push(after_pushes(pushes.drop_last()), pushes.last().0, pushes.last().1)
    }
}

/// Over a whole series of pushes into an empty window (before it closes),
/// the deadline is `DEBOUNCE_MS` after the last push, but no later than
/// `MAX_WINDOW_MS` after the first; with no push there is none.
pub proof fn the_deadline_follows_the_first_and_last_push(pushes: Seq<(u64, RawEvent)>)
    ensures
        pushes.len() == 0 ==> window_deadline(after_pushes(pushes)) is None,
        pushes.len() > 0 ==> window_deadline(after_pushes(pushes)) == Some(
            (if pushes.last().0 + DEBOUNCE_MS < pushes[0].0 + MAX_WINDOW_MS {
                pushes.last().0 + DEBOUNCE_MS
            } else {
                pushes[0].0 + MAX_WINDOW_MS
            }) as u64,
        ),
    decreases pushes.len(),
{
    if pushes.len() > 0 {
        let prev = pushes.drop_last();
        the_deadline_follows_the_first_and_last_push(prev);
        let w = after_pushes(prev);
        if prev.len() > 0 {
            assert(window_open(w));
            assert(prev[0] == pushes[0]);
            assert(w.opened_at_ms == pushes[0].0) by {
                lemma_opened_at_first_push(prev);
            }
        } else {
            assert(!window_open(w));
            assert(pushes.last() == pushes[0]);
        }
    }
}

proof fn lemma_opened_at_first_push(pushes: Seq<(u64, RawEvent)>)
    requires
        pushes.len() > 0,
    ensures
        window_open(after_pushes(pushes)),
        after_pushes(pushes).opened_at_ms == pushes[0].0,
        after_pushes(pushes).last_event_ms == pushes.last().0,
    decreases pushes.len(),
{
    let prev = pushes.drop_last();
    if prev.len() > 0 {
        lemma_opened_at_first_push(prev);
        assert(prev[0] == pushes[0]);
    } else {
        assert(after_pushes(prev) == empty_window());
        assert(pushes.last() == pushes[0]);
    }
}

/// The window carried past a close stays open exactly while some removal or
/// rename source is still in its grace period; when it does, its deadline lies
/// after the closing time, so the deadline always moves forward.
pub proof fn a_carried_window_stays_open_exactly_while_removals_are_pending(w: WindowView, now: u64)
    ensures
        window_open(carried_window(w, now)) <==> pending_in_grace(w.events, now).len() > 0,
        window_deadline(carried_window(w, now)) is Some <==> pending_in_grace(w.events, now).len() > 0,
        window_wf(w) && window_due(w, now) && !w.overflowed ==> match window_deadline(carried_window(w, now)) {
            Some(d) => now < d,
            None => true,
        },
{
    let pending = pending_in_grace(w.events, now);
    let pd = pendings(w.events);
    let all = pd.removed + pd.renamed_from;
    let retained = select(w.events, pending, true);
    lemma_select(w.events, pending, true);
    lemma_pendings_arrived(w.events);
    lemma_in_grace(all, now);
    if pending.len() > 0 {
        let m = choose|m: int| 0 <= m < all.len() && all[m] == pending[0];
        if m < pd.removed.len() {
            assert(all[m] == pd.removed[m]);
        } else {
            assert(all[m] == pd.renamed_from[m - pd.removed.len()]);
        }
        assert(arrived(w.events, pending[0]));
        let j = choose|j: int| 0 <= j < w.events.len() && #[trigger] w.events[j].0 == pending[0].1 && w.events[j].1.path@ == pending[0].0;
        assert(names_path(pending, w.events[j].1.path@));
        assert(retained.contains(w.events[j]));
    }
    if retained.len() > 0 {
        assert(names_path(pending, retained[0].1.path@));
    }
    if window_wf(w) && window_due(w, now) && !w.overflowed {
        lemma_carried_window(w, now);
    }
}

impl DebounceWindow {
    pub fn new() -> (r: Self)
        ensures
            r@ == empty_window(),
            window_wf(r@),
    {
        DebounceWindow { events: Vec::new(), opened_at_ms: 0, last_event_ms: 0, overflowed: false }
    }

    /// Adds an event arriving at `now_ms`; an empty window opens with it. A
    /// window over the event limit degrades and keeps no events.
    pub fn push(&mut self, now_ms: u64, event: RawEvent)
        requires
            window_wf(old(self)@),
            now_ms <= MAX_TIMESTAMP_MS,
            window_open(old(self)@) ==> old(self)@.last_event_ms <= now_ms,
        ensures
            final(self)@ == window_push(old(self)@, now_ms, event),
            window_wf(final(self)@),
    {
        if !self.is_open() {
            self.opened_at_ms = now_ms;
        }
        self.last_event_ms = now_ms;
        if self.overflowed {
            return;
        }
        self.events.push((now_ms, event));
        if self.events.len() > MAX_EVENTS_PER_WINDOW {
            self.overflowed = true;
            self.events.clear();
        }
    }

    /// Whether the window is open.
    fn is_open(&self) -> (r: bool)
        ensures
            r == window_open(self@),
    {
        self.events.len() > 0 || self.overflowed
    }

    /// The pending removals and rename sources still in their grace period
    /// at `now_ms`, with their arrival times.
    fn pending_in_grace(&self, now_ms: u64) -> (r: Vec<(String, u64)>)
        ensures
            entries(r@) == pending_in_grace(self@.events, now_ms),
    {
        let ghost events = self.events@;
        let mut removed: Vec<(String, u64)> = Vec::new();
        let mut renamed_from: Vec<(String, u64)> = Vec::new();
        let mut i: usize = 0;
        while i < self.events.len()
            invariant
                i <= self.events.len(),
                events == self.events@,
                entries(removed@) == pendings(events.take(i as int)).removed,
                entries(renamed_from@) == pendings(events.take(i as int)).renamed_from,
                removed.len() + renamed_from.len() <= i,
            decreases self.events.len() - i,
        {
            let at = self.events[i].0;
            let event = &self.events[i].1;
            proof {
                assert(events.take(i + 1).drop_last() =~= events.take(i as int));
                assert(events.take(i + 1).last() == events[i as int]);
            }
            match event.kind {
                RawEventKind::Removed => {
                    removed.push((event.path.clone(), at));
                    assert(entries(removed@) =~= pendings(events.take(i as int)).removed.push((event.path@, at)));
                },
                RawEventKind::Created | RawEventKind::Modified => {
                    remove_first_removal(&mut removed, &event.path);
                },
                RawEventKind::RenamedFrom => {
                    renamed_from.push((event.path.clone(), at));
                    assert(entries(renamed_from@) =~= pendings(events.take(i as int)).renamed_from.push((event.path@, at)));
                },
                RawEventKind::RenamedTo => {
                    remove_first_removal(&mut removed, &event.path);
                    if renamed_from.len() > 0 {
                        let ghost before = entries(renamed_from@);
                        renamed_from.remove(0);
                        assert(entries(renamed_from@) =~= before.drop_first());
                    }
                },
            }
            i = i + 1;
        }
        assert(events.take(events.len() as int) =~= events);
        let ghost all = entries(removed@) + entries(renamed_from@);
        let total = removed.len() + renamed_from.len();
        let mut r: Vec<(String, u64)> = Vec::new();
        let mut k: usize = 0;
        while k < total
            invariant
                k <= total,
                total == all.len(),
                all == entries(removed@) + entries(renamed_from@),
                entries(r@) == in_grace(all.take(k as int), now_ms),
            decreases total - k,
        {
            let entry = if k < removed.len() {
                &removed[k]
            } else {
                &renamed_from[k - removed.len()]
            };
            proof {
                assert(all.take(k + 1).drop_last() =~= all.take(k as int));
                assert(all.take(k + 1).last() == all[k as int]);
                assert(all[k as int] == (entry.0@, entry.1));
            }
            let in_grace_now = match entry.1.checked_add(DEBOUNCE_MS) {
                Some(until) => now_ms < until,
                None => true,
            };
            if in_grace_now {
                let ghost before = entries(r@);
                r.push((entry.0.clone(), entry.1));
                assert(entries(r@) =~= before.push((entry.0@, entry.1)));
            }
            k = k + 1;
        }
        assert(all.take(total as int) =~= all);
        r
    }

    /// Closes the window if it is due at `now_ms` and hands out what it
    /// confirms; `None` while it is not due.
    ///
    /// Events of paths with a pending removal or rename source still in its
    /// grace period are carried to the next window, measured again from the
    /// earliest such pending arrival. A degraded window is dropped whole and
    /// reported as `Overflowed`. Afterwards the window is never due at
    /// `now_ms` again.
    pub fn take_due(&mut self, now_ms: u64) -> (r: Option<WindowOutcome>)
        requires
            window_wf(old(self)@),
        ensures
            window_wf(final(self)@),
            !window_due(old(self)@, now_ms) ==> r is None && final(self)@ == old(self)@,
            window_due(old(self)@, now_ms) && old(self)@.overflowed ==> r == Some(WindowOutcome::Overflowed)
                && final(self)@ == empty_window(),
            window_due(old(self)@, now_ms) && !old(self)@.overflowed ==> (r matches Some(
                WindowOutcome::Events(v),
            ) && v@ == due_events(old(self)@, now_ms)) && final(self)@ == carried_window(old(self)@, now_ms),
            match window_deadline(final(self)@) {
                Some(d) => now_ms < d,
                None => true,
            },
    {
        match self.deadline_ms() {
            None => {
                return None;
            },
            Some(deadline) => {
                if now_ms < deadline {
                    return None;
                }
            },
        }
        if self.overflowed {
            *self = Self::new();
            return Some(WindowOutcome::Overflowed);
        }
        let ghost w = self@;
        let pending = self.pending_in_grace(now_ms);
        let ghost pend = entries(pending@);
        let mut retained: Vec<(u64, RawEvent)> = Vec::new();
        let mut due: Vec<RawEvent> = Vec::new();
        let mut i: usize = 0;
        while i < self.events.len()
            invariant
                i <= self.events.len(),
                w == self@,
                pend == entries(pending@),
                retained@ == select(w.events.take(i as int), pend, true),
                due@ == select(w.events.take(i as int), pend, false).map_values(|x: (u64, RawEvent)| x.1),
            decreases self.events.len() - i,
        {
            let at = self.events[i].0;
            let event = copy_event(&self.events[i].1);
            proof {
                assert(w.events.take(i + 1).drop_last() =~= w.events.take(i as int));
                assert(w.events.take(i + 1).last() == w.events[i as int]);
                assert(w.events[i as int] == (at, event));
            }
            if names_pending(&pending, &event.path) {
                retained.push((at, event));
            } else {
                let ghost before = select(w.events.take(i as int), pend, false);
                due.push(event);
                assert(due@ =~= before.push((at, event)).map_values(|x: (u64, RawEvent)| x.1));
            }
            i = i + 1;
        }
        assert(w.events.take(w.events.len() as int) =~= w.events);
        let mut opened: u64 = 0;
        if pending.len() > 0 {
            opened = pending[0].1;
            let mut k: usize = 1;
            while k < pending.len()
                invariant
                    1 <= k <= pending.len(),
                    pend == entries(pending@),
                    opened == earliest(pend.take(k as int)),
                decreases pending.len() - k,
            {
                proof {
                    assert(pend.take(k + 1).drop_last() =~= pend.take(k as int));
                    assert(pend.take(k + 1).last() == pend[k as int]);
                }
                if pending[k].1 < opened {
                    opened = pending[k].1;
                }
                k = k + 1;
            }
            assert(pend.take(pending.len() as int) =~= pend);
        } else {
            assert(pend.len() == 0);
        }
        let last = if retained.len() > 0 {
            retained[retained.len() - 1].0
        } else {
            0
        };
        self.events = retained;
        self.opened_at_ms = opened;
        self.last_event_ms = last;
        proof {
            lemma_carried_window(w, now_ms);
        }
        Some(WindowOutcome::Events(due))
    }

    /// When the window closes; `None` when it is not open.
    pub fn deadline_ms(&self) -> (r: Option<u64>)
        requires
            window_wf(self@),
        ensures
            r == window_deadline(self@),
    {
        if !self.is_open() {
            return None;
        }
        let quiet = self.last_event_ms + DEBOUNCE_MS;
        let bound = self.opened_at_ms + MAX_WINDOW_MS;
        Some(if quiet < bound { quiet } else { bound })
    }
}

impl Default for DebounceWindow {
    fn default() -> (r: Self)
        ensures
            r@ == empty_window(),
    {
        Self::new()
    }
}

} // verus!
