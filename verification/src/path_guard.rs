//! Workspace boundary checks.
//!
//! Paths exchanged with the front end are relative to the workspace root and
//! use `/` as separator. This module holds the rules that decide on text:
//! which relative paths and names are acceptable, and whether a path given by
//! its components lies within the root. Resolving against the file system
//! (canonicalising, opening) happens outside the library and hands the
//! results here.

use vstd::prelude::*;
use crate::text::{ascii_lower_seq, chars_of, is_ascii_text, string_of};

verus! {

/// Why a path received from the front end is not accepted.
#[derive(Debug, Clone, Copy, PartialEq, Eq, Structural)]
pub enum PathRejection {
    /// The form is not accepted: a `\` separator, `.` or `..`, an empty
    /// segment, a character not allowed in file names, a stream suffix, or a
    /// trailing dot or space.
    Malformed,
    /// The resolved target lies outside the workspace.
    Outside,
}

/// The kinds of file-system failure the rules tell apart.
#[derive(Debug, Clone, Copy, PartialEq, Eq, Structural)]
pub enum IoErrorKind {
    NotFound,
    PermissionDenied,
    NotADirectory,
    Other,
}

/// A file-system failure, as the rules read it: its kind and the operating
/// system's error code, when there is one.
#[derive(Debug, Clone, Copy, PartialEq, Eq, Structural)]
pub struct IoFailure {
    pub kind: IoErrorKind,
    pub raw_os_error: Option<i32>,
}

impl IoFailure {
    /// A failure of the given kind without an operating-system code.
    pub fn from_kind(kind: IoErrorKind) -> (r: IoFailure)
        ensures
            r.kind == kind,
            r.raw_os_error is None,
    {
        IoFailure { kind, raw_os_error: None }
    }

    /// A failure carrying an operating-system error code.
    pub fn from_raw_os_error(code: i32) -> (r: IoFailure)
        ensures
            r.kind == IoErrorKind::Other,
            r.raw_os_error == Some(code),
    {
        IoFailure { kind: IoErrorKind::Other, raw_os_error: Some(code) }
    }
}

/// Why a path could not be resolved.
#[derive(Debug, Clone, Copy, PartialEq, Eq, Structural)]
pub enum ResolveError {
    Rejected(PathRejection),
    /// A failure on the file-system side.
    Io(IoFailure),
}

// ---------------------------------------------------------------------------
// Names and relative paths.

/// Characters that Windows does not allow in file names (`:` also marks an
/// alternate data stream). Separators are handled on their own.
pub open spec fn is_forbidden_char(c: char) -> bool {
    c == ':' || c == '*' || c == '?' || c == '"' || c == '<' || c == '>' || c == '|'
}

/// Unicode control characters (general category Cc), as `char::is_control`
/// reports them.
pub open spec fn is_control_char(c: char) -> bool {
    c <= '\x1f' || ('\x7f' <= c && c <= '\u{9f}')
}

/// Whether a name can be a segment of a workspace-relative path: not empty,
/// not `.` or `..`, without forbidden or control characters, and not ending
/// in a dot or a space.
pub open spec fn valid_segment(s: Seq<char>) -> bool {
    &&& s.len() > 0
    &&& s != seq!['.']
    &&& s != seq!['.', '.']
    &&& forall|k: int| 0 <= k < s.len() ==> !is_forbidden_char(#[trigger] s[k]) && !is_control_char(s[k])
    &&& s.last() != '.'
    &&& s.last() != ' '
}

/// A name is refused for one of its characters only when that character is
/// one of `: * ? " < > |` or a control character (U+0000-U+001F,
/// U+007F-U+009F); every other character, letters of any script included,
/// may stand in a name. Apart from characters, a name is refused only when
/// empty, `.` or `..`, or ending in a dot or a space.
pub proof fn names_are_refused_only_for_the_listed_characters(s: Seq<char>)
    ensures
        valid_segment(s) <==> {
            &&& s.len() > 0
            &&& s != seq!['.']
            &&& s != seq!['.', '.']
            &&& s.last() != '.'
            &&& s.last() != ' '
            &&& forall|k: int|
                0 <= k < s.len() ==> {
                    let c = #[trigger] s[k];
                    &&& c != ':' && c != '*' && c != '?' && c != '"' && c != '<' && c != '>' && c != '|'
                    &&& !(c < ' ')
                    &&& !('\u{7f}' <= c && c < '\u{a0}')
                }
        },
{
}

/// The pieces of `s` between occurrences of `sep`, as `str::split` yields
/// them (the empty text gives one empty piece).
pub open spec fn split_on(s: Seq<char>, sep: char) -> Seq<Seq<char>>
    decreases s.len(),
{
    if s.len() == 0 {
        seq![Seq::empty()]
    } else {
        let prev = split_on(s.drop_last(), sep);
        if s.last() == sep {
            prev.push(Seq::empty())
        } else {
            prev.update(prev.len() - 1, prev.last().push(s.last()))
        }
    }
}

pub proof fn lemma_split_on_len(s: Seq<char>, sep: char)
    ensures
        split_on(s, sep).len() >= 1,
    decreases s.len(),
{
    if s.len() > 0 {
        lemma_split_on_len(s.drop_last(), sep);
    }
}

/// The pieces joined with `sep` between them.
pub open spec fn join_with(parts: Seq<Seq<char>>, sep: char) -> Seq<char>
    decreases parts.len(),
{
    if parts.len() == 0 {
        Seq::empty()
    } else if parts.len() == 1 {
        parts[0]
    } else {
        join_with(parts.drop_last(), sep).push(sep) + parts.last()
    }
}

/// The character sequences of a list of strings.
pub open spec fn string_views(v: Seq<String>) -> Seq<Seq<char>> {
    v.map_values(|s: String| s@)
}

/// The result of validating a workspace-relative path: its segments, or why
/// it is refused. The empty path is the root and has no segments.
pub open spec fn relative_path_segments(p: Seq<char>) -> Result<Seq<Seq<char>>, PathRejection> {
    if p.len() == 0 {
        Ok(Seq::empty())
    } else if p.contains('\\') {
        Err(PathRejection::Malformed)
    } else if forall|k: int| 0 <= k < split_on(p, '/').len() ==> valid_segment(#[trigger] split_on(p, '/')[k]) {
        Ok(split_on(p, '/'))
    } else {
        Err(PathRejection::Malformed)
    }
}

/// Whether any character of `v` is `c`.
pub fn contains_char(v: &Vec<char>, c: char) -> (r: bool)
    ensures
        r == v@.contains(c),
{
    let mut k: usize = 0;
    while k < v.len()
        invariant
            k <= v.len(),
            forall|m: int| 0 <= m < k ==> v@[m] != c,
        decreases v.len() - k,
    {
        if v[k] == c {
            assert(v@[k as int] == c);
            return true;
        }
        k = k + 1;
    }
    false
}

/// Splits characters at every `sep`.
pub fn split_chars(v: &Vec<char>, sep: char) -> (r: Vec<Vec<char>>)
    ensures
        r@.map_values(|x: Vec<char>| x@) == split_on(v@, sep),
{
    let mut done: Vec<Vec<char>> = Vec::new();
    let mut cur: Vec<char> = Vec::new();
    let mut i: usize = 0;
    while i < v.len()
        invariant
            i <= v.len(),
            done@.map_values(|x: Vec<char>| x@).push(cur@) == split_on(v@.take(i as int), sep),
        decreases v.len() - i,
    {
        let ghost prev = split_on(v@.take(i as int), sep);
        proof {
            assert(v@.take(i + 1).drop_last() =~= v@.take(i as int));
            assert(v@.take(i + 1).last() == v@[i as int]);
        }
        if v[i] == sep {
            let finished = cur;
            done.push(finished);
            cur = Vec::new();
            assert(done@.map_values(|x: Vec<char>| x@).push(cur@) =~= prev.push(Seq::empty()));
        } else {
            cur.push(v[i]);
            assert(done@.map_values(|x: Vec<char>| x@).push(cur@) =~= prev.update(
                prev.len() - 1,
                prev.last().push(v@[i as int]),
            ));
        }
        i = i + 1;
    }
    assert(v@.take(v.len() as int) =~= v@);
    let last = cur;
    done.push(last);
    done
}

/// `valid_segment` on characters.
pub fn segment_is_valid(s: &Vec<char>) -> (r: bool)
    ensures
        r == valid_segment(s@),
{
    let n = s.len();
    if n == 0 {
        return false;
    }
    if n == 1 && s[0] == '.' {
        assert(s@ =~= seq!['.']);
        return false;
    }
    if n == 2 && s[0] == '.' && s[1] == '.' {
        assert(s@ =~= seq!['.', '.']);
        return false;
    }
    proof {
        if n == 1 {
            assert(s@ != seq!['.']) by {
                if s@ == seq!['.'] {
                    assert(s@[0] == '.');
                }
            }
        }
        if n == 2 {
            assert(s@ != seq!['.', '.']) by {
                if s@ == seq!['.', '.'] {
                    assert(s@[0] == '.' && s@[1] == '.');
                }
            }
        }
    }
    let mut k: usize = 0;
    while k < n
        invariant
            n == s.len(),
            k <= n,
            forall|m: int| 0 <= m < k ==> !is_forbidden_char(#[trigger] s@[m]) && !is_control_char(s@[m]),
        decreases n - k,
    {
        let c = s[k];
        if c == ':' || c == '*' || c == '?' || c == '"' || c == '<' || c == '>' || c == '|' || c <= '\x1f' || ('\x7f' <= c
            && c <= '\u{9f}') {
            assert(is_forbidden_char(s@[k as int]) || is_control_char(s@[k as int]));
            return false;
        }
        k = k + 1;
    }
    s[n - 1] != '.' && s[n - 1] != ' '
}

/// Whether `name` can be a segment of a workspace-relative path.
///
/// Used by the tree scan, so that no entry is listed that could not be
/// opened again by its path.
pub fn is_valid_name(name: &str) -> (r: bool)
    ensures
        r == valid_segment(name@),
{
    let chars = chars_of(name);
    segment_is_valid(&chars)
}

/// Validates a workspace-relative path and returns its segments.
///
/// Only what the text decides is checked here: `/` is the only separator,
/// and every segment must be a valid name. Existence and the boundary are
/// checked against the file system afterwards.
pub fn validate_relative_path(relative: &str) -> (r: Result<Vec<String>, PathRejection>)
    ensures
        match r {
            Ok(v) => relative_path_segments(relative@) == Ok::<Seq<Seq<char>>, PathRejection>(string_views(v@)),
            Err(e) => relative_path_segments(relative@) == Err::<Seq<Seq<char>>, PathRejection>(e),
        },
{
    let chars = chars_of(relative);
    if chars.len() == 0 {
        let r: Vec<String> = Vec::new();
        assert(string_views(r@) =~= Seq::empty());
        return Ok(r);
    }
    if contains_char(&chars, '\\') {
        return Err(PathRejection::Malformed);
    }
    let pieces = split_chars(&chars, '/');
    let ghost segs = split_on(relative@, '/');
    let mut out: Vec<String> = Vec::new();
    let mut k: usize = 0;
    while k < pieces.len()
        invariant
            k <= pieces.len(),
            pieces@.map_values(|x: Vec<char>| x@) == segs,
            segs == split_on(relative@, '/'),
            string_views(out@) == segs.take(k as int),
            out@.len() == k,
            relative@.len() > 0,
            !relative@.contains('\\'),
            forall|m: int| 0 <= m < k ==> valid_segment(#[trigger] segs[m]),
        decreases pieces.len() - k,
    {
        assert(segs[k as int] == pieces@[k as int]@);
        if !segment_is_valid(&pieces[k]) {
            assert(!valid_segment(segs[k as int]));
            return Err(PathRejection::Malformed);
        }
        let name = string_of(pieces[k].as_slice());
        let ghost before = out@;
        out.push(name);
        assert(out@[k as int]@ == segs[k as int]);
        assert(string_views(out@) =~= string_views(before).push(segs[k as int]));
        assert(string_views(out@) =~= segs.take(k + 1));
        k = k + 1;
    }
    assert(segs.take(k as int) =~= segs);
    Ok(out)
}

// ---------------------------------------------------------------------------
// Boundaries, compared by path component.

/// One component of a native path, as the platform's path parser yields it.
#[derive(Debug, Clone, PartialEq, Eq)]
pub enum PathPart {
    /// A volume prefix such as `C:` or `\\?\C:`.
    Prefix(String),
    /// The root separator.
    RootDir,
    /// `.`
    CurDir,
    /// `..`
    ParentDir,
    /// A name.
    Normal(String),
    /// A name that is not valid Unicode, in its lossy rendering.
    Undecodable(String),
}

/// The text of a component, as its (lossy) rendering shows it.
pub open spec fn part_text(p: PathPart) -> Seq<char> {
    match p {
        PathPart::Prefix(s) => s@,
        PathPart::RootDir => seq!['\\'],
        PathPart::CurDir => seq!['.'],
        PathPart::ParentDir => seq!['.', '.'],
        PathPart::Normal(s) => s@,
        PathPart::Undecodable(s) => s@,
    }
}

/// Lower-case mapping of a text, as `str::to_lowercase` returns it.
pub uninterp spec fn text_lowercase(s: Seq<char>) -> Seq<char>;

/// Lower-cases a text.
///
/// Trusted: calls `str::to_lowercase`; the result is named by
/// `text_lowercase` of the input. An ASCII text maps letter by letter to its
/// ASCII lower case, every other character kept; what other characters map
/// to is left to the name.
#[verifier::external_body]
pub(crate) fn to_lowercase(s: &str) -> (r: String)
    ensures
        r@ == text_lowercase(s@),
        is_ascii_text(s@) ==> r@ == ascii_lower_seq(s@),
{
    s.to_lowercase()
}

/// Whether `path` is the root or lies under it: every component of the root
/// matches the path's component at the same place, ignoring case.
pub open spec fn within(root: Seq<PathPart>, path: Seq<PathPart>) -> bool {
    &&& root.len() <= path.len()
    &&& forall|k: int| 0 <= k < root.len() ==> text_lowercase(part_text(#[trigger] path[k])) == text_lowercase(part_text(root[k]))
}

/// Every component's text is ASCII.
pub open spec fn parts_ascii(parts: Seq<PathPart>) -> bool {
    forall|k: int| 0 <= k < parts.len() ==> is_ascii_text(part_text(#[trigger] parts[k]))
}

/// `within` for ASCII components: the root's components match the path's
/// ignoring ASCII case.
pub open spec fn within_ignoring_ascii_case(root: Seq<PathPart>, path: Seq<PathPart>) -> bool {
    &&& root.len() <= path.len()
    &&& forall|k: int| 0 <= k < root.len() ==> ascii_lower_seq(part_text(#[trigger] path[k])) == ascii_lower_seq(part_text(root[k]))
}

/// The text of a component.
fn text_of(p: &PathPart) -> (r: String)
    ensures
        r@ == part_text(*p),
{
    match p {
        PathPart::Prefix(s) => s.clone(),
        PathPart::RootDir => string_of(&['\\']),
        PathPart::CurDir => string_of(&['.']),
        PathPart::ParentDir => string_of(&['.', '.']),
        PathPart::Normal(s) => s.clone(),
        PathPart::Undecodable(s) => s.clone(),
    }
}

/// Whether two components match, ignoring case.
fn same_part(a: &PathPart, b: &PathPart) -> (r: bool)
    ensures
        r == (text_lowercase(part_text(*a)) == text_lowercase(part_text(*b))),
        is_ascii_text(part_text(*a)) && is_ascii_text(part_text(*b)) ==> r == (ascii_lower_seq(part_text(*a))
            == ascii_lower_seq(part_text(*b))),
{
    let x = to_lowercase(text_of(a).as_str());
    let y = to_lowercase(text_of(b).as_str());
    x == y
}

/// Whether a path is the root itself or lies under it.
///
/// The comparison is by component, so `C:\root` does not contain
/// `C:\rootx`, and ignores case.
pub fn is_within(root: &[PathPart], path: &[PathPart]) -> (r: bool)
    ensures
        r == within(root@, path@),
        parts_ascii(root@) && parts_ascii(path@) ==> r == within_ignoring_ascii_case(root@, path@),
{
    let mut k: usize = 0;
    while k < root.len()
        invariant
            k <= root.len(),
            k <= path.len(),
            forall|m: int| 0 <= m < k ==> m < path@.len() && text_lowercase(part_text(#[trigger] path@[m])) == text_lowercase(
                part_text(root@[m]),
            ),
            parts_ascii(root@) && parts_ascii(path@) ==> forall|m: int| 0 <= m < k ==> ascii_lower_seq(
                part_text(#[trigger] path@[m]),
            ) == ascii_lower_seq(part_text(root@[m])),
        decreases root.len() - k,
    {
        if k >= path.len() {
            return false;
        }
        if !same_part(&path[k], &root[k]) {
            proof {
                if parts_ascii(root@) && parts_ascii(path@) {
                    assert(is_ascii_text(part_text(path@[k as int])));
                    assert(is_ascii_text(part_text(root@[k as int])));
                }
            }
            return false;
        }
        proof {
            if parts_ascii(root@) && parts_ascii(path@) {
                assert(is_ascii_text(part_text(path@[k as int])));
                assert(is_ascii_text(part_text(root@[k as int])));
            }
        }
        k = k + 1;
    }
    true
}

/// The names of `parts` from index `from` on, when each is a lossless name
/// that is valid as a segment; `None` otherwise.
pub open spec fn literal_names(parts: Seq<PathPart>, from: int) -> Option<Seq<Seq<char>>>
    decreases parts.len() - from,
{
    if from >= parts.len() {
        Some(Seq::empty())
    } else {
        match parts[from] {
            PathPart::Undecodable(_) => None,
            p => if valid_segment(part_text(p)) {
                match literal_names(parts, from + 1) {
                    Some(rest) => Some(seq![part_text(p)] + rest),
                    None => None,
                }
            } else {
                None
            },
        }
    }
}

/// The workspace-relative form of a watched path, decided on its components
/// alone: `None` when it holds `.` or `..`, lies outside the root, or has a
/// name that is not valid Unicode or not a valid segment.
pub open spec fn literal_relative(root: Seq<PathPart>, absolute: Seq<PathPart>) -> Option<Seq<char>> {
    if exists|k: int| 0 <= k < absolute.len() && (#[trigger] absolute[k] is ParentDir || absolute[k] is CurDir) {
        None
    } else if !within(root, absolute) {
        None
    } else {
        match literal_names(absolute, root.len() as int) {
            Some(names) => Some(join_with(names, '/')),
            None => None,
        }
    }
}

/// Joins pieces with `sep` between them.
pub fn join_with_char(names: &Vec<Vec<char>>, sep: char) -> (r: String)
    ensures
        r@ == join_with(names@.map_values(|x: Vec<char>| x@), sep),
{
    let ghost parts = names@.map_values(|x: Vec<char>| x@);
    let mut out: Vec<char> = Vec::new();
    let mut k: usize = 0;
    while k < names.len()
        invariant
            k <= names.len(),
            parts == names@.map_values(|x: Vec<char>| x@),
            out@ == join_with(parts.take(k as int), sep),
        decreases names.len() - k,
    {
        proof {
            assert(parts.take(k + 1).drop_last() =~= parts.take(k as int));
            assert(parts.take(k + 1).last() == names@[k as int]@);
        }
        if k > 0 {
            out.push(sep);
        } else {
            assert(parts.take(1) =~= seq![names@[0]@]);
        }
        let ghost before = out@;
        let mut m: usize = 0;
        while m < names[k].len()
            invariant
                k < names.len(),
                m <= names@[k as int].len(),
                out@ == before + names@[k as int]@.take(m as int),
            decreases names@[k as int].len() - m,
        {
            out.push(names[k][m]);
            assert(names@[k as int]@.take(m + 1) =~= names@[k as int]@.take(m as int).push(names@[k as int]@[m as int]));
            m = m + 1;
        }
        assert(names@[k as int]@.take(m as int) =~= names@[k as int]@);
        k = k + 1;
    }
    assert(parts.take(k as int) =~= parts);
    string_of(out.as_slice())
}

/// Joins names with `/`.
pub fn join_names(names: &Vec<Vec<char>>) -> (r: String)
    ensures
        r@ == join_with(names@.map_values(|x: Vec<char>| x@), '/'),
{
    join_with_char(names, '/')
}

/// A copy of characters.
pub fn copy_chars(v: &Vec<char>) -> (r: Vec<char>)
    ensures
        r@ == v@,
{
    let mut r: Vec<char> = Vec::new();
    let mut k: usize = 0;
    while k < v.len()
        invariant
            k <= v.len(),
            r@ == v@.take(k as int),
        decreases v.len() - k,
    {
        r.push(v[k]);
        assert(v@.take(k + 1) =~= v@.take(k as int).push(v@[k as int]));
        k = k + 1;
    }
    assert(v@.take(k as int) =~= v@);
    r
}

/// A name refused at `at` makes the names from any earlier index refused.
proof fn lemma_literal_names_none(parts: Seq<PathPart>, from: int, at: int)
    requires
        0 <= from <= at < parts.len(),
        literal_names(parts, at) is None,
    ensures
        literal_names(parts, from) is None,
    decreases at - from,
{
    if from < at {
        lemma_literal_names_none(parts, from + 1, at);
    }
}

/// The workspace-relative form of a path reported by the watcher, decided on
/// its components alone (removed paths no longer exist and cannot be
/// canonicalised). The root itself gives the empty text; paths with `.` or
/// `..`, outside the root, or with names the tree would drop give `None`.
pub fn relativize_literal(root: &[PathPart], absolute: &[PathPart]) -> (r: Option<String>)
    ensures
        match r {
            Some(s) => literal_relative(root@, absolute@) == Some(s@),
            None => literal_relative(root@, absolute@) is None,
        },
{
    let mut k: usize = 0;
    while k < absolute.len()
        invariant
            k <= absolute.len(),
            forall|m: int| 0 <= m < k ==> !(#[trigger] absolute@[m] is ParentDir || absolute@[m] is CurDir),
        decreases absolute.len() - k,
    {
        match &absolute[k] {
            PathPart::ParentDir | PathPart::CurDir => {
                return None;
            },
            _ => {},
        }
        k = k + 1;
    }
    if !is_within(root, absolute) {
        return None;
    }
    // Collect the names after the root, from the end, so that each step
    // prepends to what `literal_names` has already accepted.
    let mut collected: Vec<Vec<char>> = Vec::new();
    let mut i: usize = absolute.len();
    while i > root.len()
        invariant
            root.len() <= i <= absolute.len(),
            literal_names(absolute@, i as int) == Some(collected@.map_values(|x: Vec<char>| x@)),
        decreases i,
    {
        let part = &absolute[i - 1];
        let name = match part {
            PathPart::Undecodable(_) => {
                proof {
                    lemma_literal_names_none(absolute@, root.len() as int, i - 1);
                }
                return None;
            },
            _ => chars_of(text_of(part).as_str()),
        };
        if !segment_is_valid(&name) {
            proof {
                lemma_literal_names_none(absolute@, root.len() as int, i - 1);
            }
            return None;
        }
        let ghost rest = collected@.map_values(|x: Vec<char>| x@);
        collected.insert(0, name);
        assert(collected@.map_values(|x: Vec<char>| x@) =~= seq![part_text(absolute@[i - 1])] + rest);
        i = i - 1;
    }
    Some(join_names(&collected))
}


/// The texts of the components from `from` on.
pub open spec fn texts_from(parts: Seq<PathPart>, from: int) -> Seq<Seq<char>> {
    parts.skip(from).map_values(|p: PathPart| part_text(p))
}

/// The workspace-relative form of a canonical path: its components after the
/// root's, joined with `/`; the root itself gives the empty text, and a path
/// outside the root gives `None`.
pub open spec fn canonical_relative(root: Seq<PathPart>, path: Seq<PathPart>) -> Option<Seq<char>> {
    if within(root, path) {
        Some(join_with(texts_from(path, root.len() as int), '/'))
    } else {
        None
    }
}

/// An open workspace's root: its canonical path and that path's components.
#[derive(Debug, Clone, PartialEq, Eq)]
pub struct WorkspaceRoot {
    path: String,
    parts: Vec<PathPart>,
}

impl WorkspaceRoot {
    pub closed spec fn path_view(&self) -> Seq<char> {
        self.path@
    }

    pub closed spec fn parts_view(&self) -> Seq<PathPart> {
        self.parts@
    }

    /// A root from its canonical path and the components of that path.
    pub fn new(path: String, parts: Vec<PathPart>) -> (r: WorkspaceRoot)
        ensures
            r.path_view() == path@,
            r.parts_view() == parts@,
    {
        WorkspaceRoot { path, parts }
    }

    /// The root's canonical path.
    pub fn path(&self) -> (r: &str)
        ensures
            r@ == self.path_view(),
    {
        self.path.as_str()
    }

    /// The components of the root's path.
    pub fn parts(&self) -> (r: &[PathPart])
        ensures
            r@ == self.parts_view(),
    {
        self.parts.as_slice()
    }

    /// The workspace-relative path of a canonical path (the file system's
    /// spelling, links resolved), or `None` when it lies outside the root.
    /// The root itself gives the empty text.
    pub fn relative_path_of(&self, canonical: &[PathPart]) -> (r: Option<String>)
        ensures
            match r {
                Some(s) => canonical_relative(self.parts_view(), canonical@) == Some(s@),
                None => canonical_relative(self.parts_view(), canonical@) is None,
            },
    {
        if !is_within(self.parts.as_slice(), canonical) {
            return None;
        }
        let ghost texts = texts_from(canonical@, self.parts@.len() as int);
        let mut names: Vec<Vec<char>> = Vec::new();
        let mut k: usize = self.parts.len();
        let start = k;
        while k < canonical.len()
            invariant
                start == self.parts@.len(),
                start <= k <= canonical.len(),
                texts == texts_from(canonical@, start as int),
                names@.map_values(|x: Vec<char>| x@) == texts.take(k - start),
            decreases canonical.len() - k,
        {
            let name = chars_of(text_of(&canonical[k]).as_str());
            let ghost before = names@.map_values(|x: Vec<char>| x@);
            names.push(name);
            assert(texts[k - start] == part_text(canonical@[k as int]));
            assert(names@.map_values(|x: Vec<char>| x@) =~= before.push(texts[k - start]));
            assert(texts.take(k + 1 - start) =~= texts.take(k - start).push(texts[k - start]));
            k = k + 1;
        }
        assert(texts.take(k - start) =~= texts);
        Some(join_names(&names))
    }

    /// Whether a canonical path is the root or lies under it.
    pub fn contains(&self, target: &[PathPart]) -> (r: bool)
        ensures
            r == within(self.parts_view(), target@),
    {
        is_within(self.parts.as_slice(), target)
    }
}

} // verus!
