//! The persisted application settings, their defaults, and the rules that
//! build values from them.
//!
//! Absolute paths and window placement stay on the Rust side; the front end
//! receives only the projection it displays.

use vstd::prelude::*;
use crate::i18n::{Language, LanguagePreference};
use crate::path_guard::{join_with, split_on};
use crate::path_list::views;
use crate::text::{chars_of, string_of};

verus! {

/// Version of the settings file's schema.
pub const SCHEMA_VERSION: u32 = 1;

/// Number of recent folders kept.
pub const MAX_RECENT_FOLDERS: usize = 10;

/// Default sidebar width, in pixels.
pub const DEFAULT_SIDEBAR_WIDTH: u32 = 280;

/// Default font scale of the preview text, in percent.
pub const DEFAULT_FONT_SCALE_PERCENT: u16 = 100;

/// The colour theme setting. `System` follows the operating system.
#[derive(Debug, Clone, Copy, PartialEq, Eq, Structural)]
pub enum ThemePreference {
    System,
    Light,
    Dark,
}

impl Default for ThemePreference {
    fn default() -> (r: ThemePreference)
        ensures
            r == ThemePreference::System,
    {
        ThemePreference::System
    }
}

/// Window position and size, never sent to the front end.
#[derive(Debug, Clone, Copy, PartialEq, Eq, Structural)]
pub struct WindowPlacement {
    /// Virtual desktop coordinates; negative on some multi-monitor layouts.
    pub x: i32,
    pub y: i32,
    pub width: u32,
    pub height: u32,
    /// Maximised; the fields above keep the restored placement.
    pub maximized: bool,
}

/// The content of the settings file.
#[derive(Debug, Clone)]
pub struct Settings {
    pub schema_version: u32,
    pub theme: ThemePreference,
    /// The display language setting; `System` follows the operating system.
    pub language: LanguagePreference,
    pub sidebar_width: u32,
    /// Whether the sidebar is shown, kept apart from its width.
    pub sidebar_visible: bool,
    pub font_scale_percent: u16,
    /// `None` until the window has been placed once.
    pub window: Option<WindowPlacement>,
    /// Absolute paths of recent folders, newest first.
    pub recent_folders: Vec<String>,
    /// Absolute path of the workspace open at the last exit.
    pub last_workspace: Option<String>,
}

/// The default settings.
pub open spec fn default_settings(s: Settings) -> bool {
    &&& s.schema_version == SCHEMA_VERSION
    &&& s.theme == ThemePreference::System
    &&& s.language == LanguagePreference::System
    &&& s.sidebar_width == DEFAULT_SIDEBAR_WIDTH
    &&& s.sidebar_visible
    &&& s.font_scale_percent == DEFAULT_FONT_SCALE_PERCENT
    &&& s.window is None
    &&& s.recent_folders@.len() == 0
    &&& s.last_workspace is None
}

impl Default for Settings {
    fn default() -> (r: Settings)
        ensures
            default_settings(r),
    {
        Settings {
            schema_version: SCHEMA_VERSION,
            theme: ThemePreference::System,
            language: LanguagePreference::System,
            sidebar_width: DEFAULT_SIDEBAR_WIDTH,
            sidebar_visible: true,
            font_scale_percent: DEFAULT_FONT_SCALE_PERCENT,
            window: None,
            recent_folders: Vec::new(),
            last_workspace: None,
        }
    }
}

/// One recent folder as displayed.
#[derive(Debug, Clone, PartialEq, Eq)]
pub struct RecentFolderView {
    /// Opaque identifier the front end sends back to open the folder.
    pub id: String,
    /// Display name, made by `recent_folder_label`.
    pub label: String,
}

/// The settings projected for the front end: no absolute path, no window
/// placement.
#[derive(Debug, Clone, PartialEq, Eq)]
pub struct UiSettings {
    pub theme: ThemePreference,
    /// The language setting as stored.
    pub language: LanguagePreference,
    /// The language the interface is shown in.
    pub effective_language: Language,
    pub sidebar_width: u32,
    pub sidebar_visible: bool,
    pub font_scale_percent: u16,
    /// Newest first, at most `MAX_RECENT_FOLDERS`.
    pub recent_folders: Vec<RecentFolderView>,
}

/// Changes of displayed settings requested by the front end; `None` leaves a
/// value as it is.
#[derive(Debug, Clone, Copy, PartialEq, Eq, Structural)]
pub struct UiSettingsUpdate {
    pub theme: Option<ThemePreference>,
    pub sidebar_width: Option<u32>,
    pub sidebar_visible: Option<bool>,
    pub font_scale_percent: Option<u16>,
}

impl Default for UiSettingsUpdate {
    fn default() -> (r: UiSettingsUpdate)
        ensures
            r.theme is None && r.sidebar_width is None && r.sidebar_visible is None && r.font_scale_percent is None,
    {
        UiSettingsUpdate { theme: None, sidebar_width: None, sidebar_visible: None, font_scale_percent: None }
    }
}

/// The value after an optional change.
pub open spec fn updated<T>(current: T, change: Option<T>) -> T {
    match change {
        Some(v) => v,
        None => current,
    }
}

/// Applies an update; returns whether any value changed, that is, whether
/// the settings need to be written.
pub fn apply_update(settings: &mut Settings, update: &UiSettingsUpdate) -> (changed: bool)
    ensures
        final(settings).theme == updated(old(settings).theme, update.theme),
        final(settings).sidebar_width == updated(old(settings).sidebar_width, update.sidebar_width),
        final(settings).sidebar_visible == updated(old(settings).sidebar_visible, update.sidebar_visible),
        final(settings).font_scale_percent == updated(old(settings).font_scale_percent, update.font_scale_percent),
        final(settings).schema_version == old(settings).schema_version,
        final(settings).language == old(settings).language,
        final(settings).window == old(settings).window,
        final(settings).recent_folders@ == old(settings).recent_folders@,
        final(settings).last_workspace == old(settings).last_workspace,
        changed == (final(settings).theme != old(settings).theme || final(settings).sidebar_width != old(settings).sidebar_width
            || final(settings).sidebar_visible != old(settings).sidebar_visible || final(settings).font_scale_percent != old(
            settings,
        ).font_scale_percent),
{
    let mut changed = false;
    if let Some(theme) = update.theme {
        if theme != settings.theme {
            changed = true;
        }
        settings.theme = theme;
    }
    if let Some(width) = update.sidebar_width {
        if width != settings.sidebar_width {
            changed = true;
        }
        settings.sidebar_width = width;
    }
    if let Some(visible) = update.sidebar_visible {
        if visible != settings.sidebar_visible {
            changed = true;
        }
        settings.sidebar_visible = visible;
    }
    if let Some(percent) = update.font_scale_percent {
        if percent != settings.font_scale_percent {
            changed = true;
        }
        settings.font_scale_percent = percent;
    }
    changed
}

/// Applying the same change a second time leaves the value as the first
/// application left it, so `apply_update` reports no change and nothing is
/// written again.
pub proof fn applying_a_change_again_changes_nothing<T>(current: T, change: Option<T>)
    ensures
        updated(updated(current, change), change) == updated(current, change),
{
}

/// The projection sent to the front end, with the language the interface is
/// shown in. Recent folders are sent empty until their opaque identifiers are
/// kept.
pub fn ui_settings_of(settings: &Settings, effective_language: Language) -> (r: UiSettings)
    ensures
        r.theme == settings.theme,
        r.language == settings.language,
        r.effective_language == effective_language,
        r.sidebar_width == settings.sidebar_width,
        r.sidebar_visible == settings.sidebar_visible,
        r.font_scale_percent == settings.font_scale_percent,
        r.recent_folders@.len() == 0,
{
    UiSettings {
        theme: settings.theme,
        language: settings.language,
        effective_language,
        sidebar_width: settings.sidebar_width,
        sidebar_visible: settings.sidebar_visible,
        font_scale_percent: settings.font_scale_percent,
        recent_folders: Vec::new(),
    }
}

/// Accepts settings read from the file: a file written by a newer version
/// (higher schema version) is unusable, since rewriting it would lose its
/// unknown keys; an older one is taken at the current version.
pub fn accept_loaded(settings: Settings) -> (r: Option<Settings>)
    ensures
        settings.schema_version > SCHEMA_VERSION <==> r is None,
        r matches Some(s) ==> s.schema_version == SCHEMA_VERSION && s.theme == settings.theme && s.language == settings.language
            && s.sidebar_width
            == settings.sidebar_width && s.sidebar_visible == settings.sidebar_visible && s.font_scale_percent
            == settings.font_scale_percent && s.window == settings.window && s.recent_folders@
            == settings.recent_folders@ && s.last_workspace == settings.last_workspace,
{
    let mut settings = settings;
    if settings.schema_version > SCHEMA_VERSION {
        return None;
    }
    settings.schema_version = SCHEMA_VERSION;
    Some(settings)
}

// ---------------------------------------------------------------------------
// Recent folders.

/// The text with every `/` replaced by `\`.
pub open spec fn backslashed(s: Seq<char>) -> Seq<char> {
    s.map_values(|c: char| if c == '/' { '\\' } else { c })
}

/// The text without trailing `c`.
pub open spec fn trim_end(s: Seq<char>, c: char) -> Seq<char>
    decreases s.len(),
{
    if s.len() > 0 && s.last() == c {
        trim_end(s.drop_last(), c)
    } else {
        s
    }
}

/// The non-empty pieces.
pub open spec fn non_empty(p: Seq<Seq<char>>) -> Seq<Seq<char>>
    decreases p.len(),
{
    if p.len() == 0 {
        p
    } else if p.last().len() > 0 {
        non_empty(p.drop_last()).push(p.last())
    } else {
        non_empty(p.drop_last())
    }
}

/// The display label of a recent folder: its last two components (parent
/// and folder), separated by `\`. A whole absolute path is never shown, and a
/// drive root keeps its separator (`C:\`).
pub open spec fn folder_label(path: Seq<char>) -> Seq<char> {
    let trimmed = trim_end(backslashed(path), '\\');
    if trimmed.len() == 0 || trimmed.last() == ':' {
        trimmed.push('\\')
    } else {
        let parts = non_empty(split_on(trimmed, '\\'));
        let tail = if parts.len() >= 2 {
            parts.skip(parts.len() - 2)
        } else {
            parts
        };
        join_with(tail, '\\')
    }
}

/// Makes the display label of a recent folder from its absolute path.
pub fn recent_folder_label(absolute_path: &str) -> (r: String)
    ensures
        r@ == folder_label(absolute_path@),
{
    let chars = chars_of(absolute_path);
    let mut normalized: Vec<char> = Vec::new();
    let mut k: usize = 0;
    while k < chars.len()
        invariant
            k <= chars.len(),
            chars@ == absolute_path@,
            normalized@ == backslashed(chars@.take(k as int)),
        decreases chars.len() - k,
    {
        let c = chars[k];
        normalized.push(if c == '/' { '\\' } else { c });
        assert(backslashed(chars@.take(k + 1)) =~= backslashed(chars@.take(k as int)).push(
            if c == '/' { '\\' } else { c },
        ));
        k = k + 1;
    }
    assert(chars@.take(k as int) =~= chars@);
    // Drop trailing separators.
    let mut end = normalized.len();
    assert(normalized@.take(end as int) =~= normalized@);
    while end > 0 && normalized[end - 1] == '\\'
        invariant
            end <= normalized.len(),
            trim_end(normalized@, '\\') == trim_end(normalized@.take(end as int), '\\'),
        decreases end,
    {
        assert(normalized@.take(end as int).drop_last() =~= normalized@.take(end - 1));
        end = end - 1;
    }
    let mut trimmed: Vec<char> = Vec::new();
    let mut m: usize = 0;
    while m < end
        invariant
            end <= normalized.len(),
            m <= end,
            trimmed@ == normalized@.take(m as int),
        decreases end - m,
    {
        trimmed.push(normalized[m]);
        assert(normalized@.take(m + 1) =~= normalized@.take(m as int).push(normalized@[m as int]));
        m = m + 1;
    }
    proof {
        if end > 0 {
            assert(normalized@.take(end as int).last() == normalized@[end - 1]);
        }
        assert(trim_end(normalized@.take(end as int), '\\') == normalized@.take(end as int));
    }
    if trimmed.len() == 0 || trimmed[trimmed.len() - 1] == ':' {
        trimmed.push('\\');
        return string_of(trimmed.as_slice());
    }
    let pieces = crate::path_guard::split_chars(&trimmed, '\\');
    let ghost all = pieces@.map_values(|x: Vec<char>| x@);
    let mut parts: Vec<Vec<char>> = Vec::new();
    let mut i: usize = 0;
    while i < pieces.len()
        invariant
            i <= pieces.len(),
            all == pieces@.map_values(|x: Vec<char>| x@),
            parts@.map_values(|x: Vec<char>| x@) == non_empty(all.take(i as int)),
        decreases pieces.len() - i,
    {
        assert(all.take(i + 1).drop_last() =~= all.take(i as int));
        assert(all.take(i + 1).last() == pieces@[i as int]@);
        if pieces[i].len() > 0 {
            let ghost before = parts@.map_values(|x: Vec<char>| x@);
            let piece = crate::path_guard::copy_chars(&pieces[i]);
            parts.push(piece);
            assert(parts@.map_values(|x: Vec<char>| x@) =~= before.push(pieces@[i as int]@));
        }
        i = i + 1;
    }
    assert(all.take(i as int) =~= all);
    let ghost ps = parts@.map_values(|x: Vec<char>| x@);
    let mut tail: Vec<Vec<char>> = Vec::new();
    let start = if parts.len() >= 2 { parts.len() - 2 } else { 0 };
    let mut j: usize = start;
    while j < parts.len()
        invariant
            start <= j <= parts.len(),
            ps == parts@.map_values(|x: Vec<char>| x@),
            tail@.map_values(|x: Vec<char>| x@) == ps.subrange(start as int, j as int),
        decreases parts.len() - j,
    {
        let ghost before = tail@.map_values(|x: Vec<char>| x@);
        let piece = crate::path_guard::copy_chars(&parts[j]);
        tail.push(piece);
        assert(tail@.map_values(|x: Vec<char>| x@) =~= before.push(ps[j as int]));
        assert(ps.subrange(start as int, j + 1) =~= ps.subrange(start as int, j as int).push(ps[j as int]));
        j = j + 1;
    }
    proof {
        if ps.len() >= 2 {
            assert(ps.subrange(start as int, ps.len() as int) =~= ps.skip(ps.len() - 2));
        } else {
            assert(ps.subrange(0, ps.len() as int) =~= ps);
        }
    }
    crate::path_guard::join_with_char(&tail, '\\')
}

/// The list without any entry equal to `p`.
pub open spec fn without(s: Seq<Seq<char>>, p: Seq<char>) -> Seq<Seq<char>>
    decreases s.len(),
{
    if s.len() == 0 {
        s
    } else if s.last() == p {
        without(s.drop_last(), p)
    } else {
        without(s.drop_last(), p).push(s.last())
    }
}

/// The recent folders after opening `path`: `path` first, the others in
/// their order without it, at most `MAX_RECENT_FOLDERS` entries.
pub open spec fn recent_after(history: Seq<Seq<char>>, path: Seq<char>) -> Seq<Seq<char>> {
    let all = seq![path] + without(history, path);
    if all.len() > MAX_RECENT_FOLDERS {
        all.take(MAX_RECENT_FOLDERS as int)
    } else {
        all
    }
}

/// Adds a folder to the recent folders: an equal entry is removed first, the
/// folder goes to the front, and the list is cut to `MAX_RECENT_FOLDERS`.
///
/// `path` and `history` are canonical absolute paths.
pub fn push_recent_folder(history: &[String], path: &str) -> (r: Vec<String>)
    ensures
        views(r@) == recent_after(views(history@), path@),
{
    let mut next: Vec<String> = Vec::new();
    let first = path.to_owned();
    next.push(first);
    let target = path.to_owned();
    let ghost h = views(history@);
    let mut k: usize = 0;
    while k < history.len()
        invariant
            k <= history.len(),
            h == views(history@),
            target@ == path@,
            views(next@) == seq![path@] + without(h.take(k as int), path@),
        decreases history.len() - k,
    {
        assert(h.take(k + 1).drop_last() =~= h.take(k as int));
        assert(h.take(k + 1).last() == history@[k as int]@);
        if history[k] != target {
            let ghost before = views(next@);
            next.push(history[k].clone());
            assert(views(next@) =~= before.push(history@[k as int]@));
        }
        k = k + 1;
    }
    assert(h.take(k as int) =~= h);
    if next.len() > MAX_RECENT_FOLDERS {
        let ghost before = views(next@);
        next.truncate(MAX_RECENT_FOLDERS);
        assert(views(next@) =~= before.take(MAX_RECENT_FOLDERS as int));
    }
    next
}

proof fn lemma_without(s: Seq<Seq<char>>, p: Seq<char>)
    ensures
        !without(s, p).contains(p),
        forall|q: Seq<char>| #[trigger] without(s, p).contains(q) ==> s.contains(q),
        crate::path_list::distinct(s) ==> crate::path_list::distinct(without(s, p)),
    decreases s.len(),
{
    if s.len() > 0 {
        let prev = s.drop_last();
        lemma_without(prev, p);
        let w = without(prev, p);
        assert forall|q: Seq<char>| prev.contains(q) implies s.contains(q) by {
            let m = choose|m: int| 0 <= m < prev.len() && prev[m] == q;
            assert(s[m] == q);
        }
        assert(s[s.len() - 1] == s.last());
        if s.last() != p {
            let r = w.push(s.last());
            assert(!r.contains(p)) by {
                if r.contains(p) {
                    let m = choose|m: int| 0 <= m < r.len() && r[m] == p;
                    if m < w.len() {
                        assert(w[m] == p);
                    }
                }
            }
            assert forall|q: Seq<char>| #[trigger] r.contains(q) implies s.contains(q) by {
                let m = choose|m: int| 0 <= m < r.len() && r[m] == q;
                if m < w.len() {
                    assert(w[m] == q);
                    assert(w.contains(q));
                    assert(prev.contains(q));
                } else {
                    assert(q == s[s.len() - 1]);
                }
            }
            if crate::path_list::distinct(s) {
                assert(crate::path_list::distinct(prev)) by {
                    assert forall|i: int, j: int| 0 <= i < j < prev.len() implies prev[i] != prev[j] by {
                        assert(prev[i] == s[i] && prev[j] == s[j]);
                    }
                }
                assert(!prev.contains(s.last())) by {
                    if prev.contains(s.last()) {
                        let m = choose|m: int| 0 <= m < prev.len() && prev[m] == s.last();
                        assert(s[m] == s[s.len() - 1]);
                    }
                }
                assert forall|i: int, j: int| 0 <= i < j < r.len() implies r[i] != r[j] by {
                    if j == w.len() {
                        assert(w.contains(w[i]));
                    } else {
                        assert(r[i] == w[i] && r[j] == w[j]);
                    }
                }
            }
        } else if crate::path_list::distinct(s) {
            assert forall|i: int, j: int| 0 <= i < j < prev.len() implies prev[i] != prev[j] by {
                assert(prev[i] == s[i] && prev[j] == s[j]);
            }
        }
    }
}

/// Opening a folder puts it first in the recent folders, exactly once, keeps
/// at most `MAX_RECENT_FOLDERS` entries, and keeps a list without duplicates
/// free of duplicates.
pub proof fn recent_folders_stay_bounded_and_unique(history: Seq<Seq<char>>, path: Seq<char>)
    ensures
        recent_after(history, path).len() >= 1,
        recent_after(history, path)[0] == path,
        recent_after(history, path).len() <= MAX_RECENT_FOLDERS,
        forall|i: int| 0 < i < recent_after(history, path).len() ==> #[trigger] recent_after(history, path)[i] != path,
        crate::path_list::distinct(history) ==> crate::path_list::distinct(recent_after(history, path)),
{
    lemma_without(history, path);
    let w = without(history, path);
    let all = seq![path] + w;
    let r = recent_after(history, path);
    assert forall|i: int| 0 < i < r.len() implies #[trigger] r[i] != path by {
        assert(r[i] == all[i]);
        assert(all[i] == w[i - 1]);
        if w[i - 1] == path {
            assert(w.contains(path));
        }
    }
    if crate::path_list::distinct(history) {
        assert forall|i: int, j: int| 0 <= i < j < r.len() implies r[i] != r[j] by {
            assert(r[i] == all[i] && r[j] == all[j]);
            if i == 0 {
                assert(all[j] == w[j - 1]);
                assert(w.contains(w[j - 1]));
            } else {
                assert(all[i] == w[i - 1] && all[j] == w[j - 1]);
            }
        }
    }
}

} // verus!
