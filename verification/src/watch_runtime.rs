//! The decisions of the watcher's thread: which raw events enter the window,
//! what a due window turns into, when a parent event means the workspace is
//! gone, and the texts sent with watcher failures. The thread itself, the
//! clock and the operating system's notifications stay outside the library.

use vstd::prelude::*;
use crate::i18n::Language;
use crate::image::resource::{ImageResources, ResourcesView, advanced_after, resources_wf};
use crate::ipc::error::{ErrorCode, IpcError};
use crate::ipc::message::{message, message_text};
use crate::ipc::types::{FileChange, WatcherErrorEvent, changes_view};
use crate::path_guard::{PathPart, part_text, split_chars, split_on};
use crate::scan::{excluded_directory, is_excluded_directory};
use crate::watch::{
    DebounceWindow, MAX_TIMESTAMP_MS, RawEvent, WindowOutcome, WindowView, carried_window, coalesce, coalesce_spec,
    decides, due_events, empty_window, window_deadline, window_due, window_open, window_push, window_wf,
    watched_by,
};

verus! {

/// Whether a scope-relative path lies under an excluded folder, judged on
/// its names alone (a removed path's attributes can no longer be read, so
/// only names decide, the same way at creation and at removal).
pub open spec fn under_excluded(path: Seq<char>) -> bool {
    exists|k: int| 0 <= k < split_on(path, '/').len() && excluded_directory(#[trigger] split_on(path, '/')[k])
}

/// Whether a path lies under an excluded folder.
pub fn is_excluded(path: &str) -> (r: bool)
    ensures
        r == under_excluded(path@),
{
    let chars = crate::text::chars_of(path);
    let parts = split_chars(&chars, '/');
    let ghost ps = parts@.map_values(|x: Vec<char>| x@);
    let mut k: usize = 0;
    while k < parts.len()
        invariant
            k <= parts.len(),
            ps == parts@.map_values(|x: Vec<char>| x@),
            ps == split_on(path@, '/'),
            forall|j: int| 0 <= j < k ==> !excluded_directory(#[trigger] ps[j]),
        decreases parts.len() - k,
    {
        let name = crate::text::string_of(parts[k].as_slice());
        assert(name@ == ps[k as int]);
        if is_excluded_directory(name.as_str()) {
            return true;
        }
        k = k + 1;
    }
    false
}

/// Lets raw events of one notification into the window at `now_ms`, leaving
/// out those under excluded folders.
pub fn admit_events(window: &mut DebounceWindow, now_ms: u64, events: Vec<RawEvent>)
    requires
        window_wf(old(window)@),
        now_ms <= MAX_TIMESTAMP_MS,
        window_open(old(window)@) ==> old(window)@.last_event_ms <= now_ms,
    ensures
        window_wf(final(window)@),
        final(window)@ == admitted(old(window)@, now_ms, events@),
{
    let ghost w0 = window@;
    let mut rest = events;
    let ghost all = rest@;
    let total = rest.len();
    let mut taken: usize = 0;
    assert(all.take(0) =~= Seq::<RawEvent>::empty());
    assert(all.skip(0) =~= all);
    while rest.len() > 0
        invariant
            taken + rest@.len() == all.len(),
            all.len() <= usize::MAX,
            rest@ == all.skip(taken as int),
            now_ms <= MAX_TIMESTAMP_MS,
            window_wf(window@),
            window_open(window@) ==> window@.last_event_ms <= now_ms,
            window@ == admitted(w0, now_ms, all.take(taken as int)),
        decreases rest@.len(),
    {
        let event = rest.remove(0);
        proof {
            assert(all.take(taken + 1).drop_last() =~= all.take(taken as int));
            assert(all.take(taken + 1).last() == event);
            assert(rest@ =~= all.skip(taken + 1));
        }
        if !is_excluded(event.path.as_str()) {
            window.push(now_ms, event);
        }
        taken = taken + 1;
    }
    assert(all.take(taken as int) =~= all);
}

/// The resource table after advancing the path of each event in turn.
pub open spec fn advanced_by(v: ResourcesView, events: Seq<RawEvent>) -> ResourcesView
    decreases events.len(),
{
    if events.len() == 0 {
        v
    } else {
        advanced_after(advanced_by(v, events.drop_last()), events.last().path@)
    }
}

/// Takes in the raw events of one notification of the scope: every event's
/// path advances its image generation (images under excluded folders may be
/// referenced too, and a redraw must find the new generation), then the
/// events not under excluded folders enter the window.
pub fn admit_notification(window: &mut DebounceWindow, images: &mut ImageResources, now_ms: u64, events: Vec<RawEvent>)
    requires
        window_wf(old(window)@),
        now_ms <= MAX_TIMESTAMP_MS,
        window_open(old(window)@) ==> old(window)@.last_event_ms <= now_ms,
        resources_wf(old(images)@),
    ensures
        window_wf(final(window)@),
        final(window)@ == admitted(old(window)@, now_ms, events@),
        resources_wf(final(images)@),
        final(images)@ == advanced_by(old(images)@, events@),
{
    let ghost v0 = images@;
    let mut k: usize = 0;
    while k < events.len()
        invariant
            k <= events.len(),
            resources_wf(images@),
            images@ == advanced_by(v0, events@.take(k as int)),
        decreases events.len() - k,
    {
        assert(events@.take(k + 1).drop_last() =~= events@.take(k as int));
        images.advance(events[k].path.as_str());
        k = k + 1;
    }
    assert(events@.take(k as int) =~= events@);
    admit_events(window, now_ms, events);
}

/// The window after admitting `events` at `now`.
pub open spec fn admitted(w: WindowView, now: u64, events: Seq<RawEvent>) -> WindowView
    decreases events.len(),
{
    if events.len() == 0 {
        w
    } else {
        let prev = admitted(w, now, events.drop_last());
        if under_excluded(events.last().path@) {
            prev
        } else {
            window_push(prev, now, events.last())
        }
    }
}

/// What a due window turns into.
#[derive(Debug, Clone, PartialEq, Eq)]
pub enum DrainAction {
    /// Confirmed changes, to be sent in order.
    Changes(Vec<FileChange>),
    /// The window overflowed: the image resource identifiers are to be made
    /// anew, then `WatcherOverflow` is to be reported.
    Overflow,
}

/// Closes the window if it is due at `now_ms` and turns what it confirms
/// into changes; `None` while it is not due. Called again until it answers
/// `None`; since a closed window is never due again at the same time, this
/// ends.
pub fn drain_step(
    window: &mut DebounceWindow,
    now_ms: u64,
    is_tracked: impl Fn(&str) -> bool,
) -> (r: Option<DrainAction>)
    requires
        window_wf(old(window)@),
        decides(is_tracked),
    ensures
        window_wf(final(window)@),
        !window_due(old(window)@, now_ms) ==> r is None && final(window)@ == old(window)@,
        window_due(old(window)@, now_ms) && old(window)@.overflowed ==> r == Some(DrainAction::Overflow)
            && final(window)@ == empty_window(),
        window_due(old(window)@, now_ms) && !old(window)@.overflowed ==> (r matches Some(DrainAction::Changes(c))
            && changes_view(c@) == coalesce_spec(due_events(old(window)@, now_ms), watched_by(is_tracked)))
            && final(window)@ == carried_window(old(window)@, now_ms),
        !window_due(final(window)@, now_ms),
{
    match window.take_due(now_ms) {
        None => None,
        Some(WindowOutcome::Overflowed) => Some(DrainAction::Overflow),
        Some(WindowOutcome::Events(events)) => Some(DrainAction::Changes(coalesce(events.as_slice(), is_tracked))),
    }
}

/// The kind of an event reported for the root's parent folder.
#[derive(Debug, Clone, Copy, PartialEq, Eq, Structural)]
pub enum ParentEventKind {
    /// Something was removed.
    Remove,
    /// Source of a rename.
    RenameFrom,
    /// A rename carrying the old path, then the new one.
    RenameBoth,
    /// Anything else, such as the timestamp updates caused by writes below.
    Other,
}

/// A component's kind and text, which decide whether two components are
/// the same.
pub open spec fn part_key(p: PathPart) -> (int, Seq<char>) {
    match p {
        PathPart::Prefix(s) => (0, s@),
        PathPart::RootDir => (1, Seq::empty()),
        PathPart::CurDir => (2, Seq::empty()),
        PathPart::ParentDir => (3, Seq::empty()),
        PathPart::Normal(s) => (4, s@),
        PathPart::Undecodable(s) => (5, s@),
    }
}

/// Whether two paths have the same components.
pub open spec fn same_path(a: Seq<PathPart>, b: Seq<PathPart>) -> bool {
    a.len() == b.len() && forall|k: int| 0 <= k < a.len() ==> part_key(#[trigger] a[k]) == part_key(b[k])
}

/// Whether an event of the root's parent means the root itself is gone:
/// the root was removed or renamed away. A rename whose new path is the
/// root (another folder took its name) does not.
pub open spec fn stops(root: Seq<PathPart>, kind: ParentEventKind, paths: Seq<Seq<PathPart>>) -> bool {
    match kind {
        ParentEventKind::Remove | ParentEventKind::RenameFrom => exists|k: int|
            0 <= k < paths.len() && same_path(#[trigger] paths[k], root),
        ParentEventKind::RenameBoth => paths.len() > 0 && same_path(paths[0], root),
        ParentEventKind::Other => false,
    }
}

fn same_part(a: &PathPart, b: &PathPart) -> (r: bool)
    ensures
        r == (part_key(*a) == part_key(*b)),
{
    match (a, b) {
        (PathPart::Prefix(x), PathPart::Prefix(y)) => *x == *y,
        (PathPart::RootDir, PathPart::RootDir) => true,
        (PathPart::CurDir, PathPart::CurDir) => true,
        (PathPart::ParentDir, PathPart::ParentDir) => true,
        (PathPart::Normal(x), PathPart::Normal(y)) => *x == *y,
        (PathPart::Undecodable(x), PathPart::Undecodable(y)) => *x == *y,
        _ => false,
    }
}

fn is_same_path(a: &Vec<PathPart>, b: &[PathPart]) -> (r: bool)
    ensures
        r == same_path(a@, b@),
{
    if a.len() != b.len() {
        return false;
    }
    let mut k: usize = 0;
    while k < a.len()
        invariant
            a.len() == b.len(),
            k <= a.len(),
            forall|m: int| 0 <= m < k ==> part_key(#[trigger] a@[m]) == part_key(b@[m]),
        decreases a.len() - k,
    {
        if !same_part(&a[k], &b[k]) {
            return false;
        }
        k = k + 1;
    }
    true
}

/// Whether an event of the root's parent folder means the workspace root is
/// gone (such events never reach the root's own watcher).
pub fn stops_workspace(root: &[PathPart], kind: ParentEventKind, paths: &[Vec<PathPart>]) -> (r: bool)
    ensures
        r == stops(root@, kind, paths@.map_values(|p: Vec<PathPart>| p@)),
{
    match kind {
        ParentEventKind::Remove | ParentEventKind::RenameFrom => {
            let mut k: usize = 0;
            while k < paths.len()
                invariant
                    k <= paths.len(),
                    kind == ParentEventKind::Remove || kind == ParentEventKind::RenameFrom,
                    forall|m: int| 0 <= m < k ==> !same_path(#[trigger] paths@[m]@, root@),
                decreases paths.len() - k,
            {
                if is_same_path(&paths[k], root) {
                    let ghost ps = paths@.map_values(|p: Vec<PathPart>| p@);
                    assert(ps[k as int] == paths@[k as int]@);
                    assert(same_path(ps[k as int], root@));
                    return true;
                }
                k = k + 1;
            }
            proof {
                let ps = paths@.map_values(|p: Vec<PathPart>| p@);
                assert forall|m: int| 0 <= m < ps.len() implies !same_path(#[trigger] ps[m], root@) by {
                    assert(ps[m] == paths@[m]@);
                }
            }
            false
        },
        ParentEventKind::RenameBoth => paths.len() > 0 && is_same_path(&paths[0], root),
        ParentEventKind::Other => false,
    }
}

/// Builds the event reporting a watcher failure, with the message in the
/// language current when it is sent (the watcher lives as long as the
/// workspace, so the language may have changed since it started).
pub fn watcher_error_event(scope_id: &str, code: ErrorCode, language: Language) -> (r: WatcherErrorEvent)
    ensures
        r.scope_id@ == scope_id@,
        r.error.code == code,
        r.error.message@ == message_text(code, language),
        r.error.detail is None,
{
    WatcherErrorEvent {
        scope_id: scope_id.to_owned(),
        error: IpcError { code, message: message(code, language).to_owned(), detail: None },
    }
}

/// Sixteen lower-case hexadecimal digits of `v`, most significant first.
pub open spec fn hex16(v: nat, n: nat) -> Seq<char>
    decreases n,
{
    if n == 0 {
        Seq::empty()
    } else {
        hex16(v / 16, (n - 1) as nat).push(crate::image::resource::hex_digit((v % 16) as u8))
    }
}

fn push_hex16(out: &mut Vec<char>, v: u64, n: usize)
    requires
        n <= 16,
    ensures
        final(out)@ == old(out)@ + hex16(v as nat, n as nat),
    decreases n,
{
    if n > 0 {
        push_hex16(out, v / 16, n - 1);
        let d = (v % 16) as u8;
        let c = if d < 10 { (0x30 + d) as char } else { (0x61 + d - 10) as char };
        out.push(c);
    }
}

/// The text of a watch scope identifier made of two random words: 32
/// lower-case hexadecimal digits, holding no path.
pub fn format_scope_id(high: u64, low: u64) -> (r: String)
    ensures
        r@ == hex16(high as nat, 16) + hex16(low as nat, 16),
{
    let mut out: Vec<char> = Vec::new();
    push_hex16(&mut out, high, 16);
    push_hex16(&mut out, low, 16);
    assert(out@ =~= hex16(high as nat, 16) + hex16(low as nat, 16));
    crate::text::string_of(out.as_slice())
}

proof fn lemma_hex16(v: nat, n: nat)
    ensures
        hex16(v, n).len() == n,
        forall|k: int| 0 <= k < n ==> {
            let c = #[trigger] hex16(v, n)[k];
            ('0' <= c && c <= '9') || ('a' <= c && c <= 'f')
        },
    decreases n,
{
    if n > 0 {
        lemma_hex16(v / 16, (n - 1) as nat);
        let d = (v % 16) as u8;
        assert(d < 16);
        let s = hex16(v, n);
        assert forall|k: int| 0 <= k < n implies {
            let c = #[trigger] s[k];
            ('0' <= c && c <= '9') || ('a' <= c && c <= 'f')
        } by {
            if k < n - 1 {
                assert(s[k] == hex16(v / 16, (n - 1) as nat)[k]);
            }
        }
    }
}

/// A scope identifier is 32 lower-case hexadecimal digits, whatever the
/// random words: never a path or part of one.
pub proof fn scope_ids_are_opaque_hex(high: u64, low: u64)
    ensures
        (hex16(high as nat, 16) + hex16(low as nat, 16)).len() == 32,
        forall|k: int| 0 <= k < 32 ==> {
            let c = #[trigger] (hex16(high as nat, 16) + hex16(low as nat, 16))[k];
            ('0' <= c && c <= '9') || ('a' <= c && c <= 'f')
        },
{
    lemma_hex16(high as nat, 16);
    lemma_hex16(low as nat, 16);
    let s = hex16(high as nat, 16) + hex16(low as nat, 16);
    assert forall|k: int| 0 <= k < 32 implies {
        let c = #[trigger] s[k];
        ('0' <= c && c <= '9') || ('a' <= c && c <= 'f')
    } by {
        if k < 16 {
            assert(s[k] == hex16(high as nat, 16)[k]);
        } else {
            assert(s[k] == hex16(low as nat, 16)[k - 16]);
        }
    }
}

} // verus!
