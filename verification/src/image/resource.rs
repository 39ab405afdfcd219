//! Image resource identifiers: their derivation, the change generations, and
//! the table from identifier to path.
//!
//! An identifier is the HMAC-SHA256 of a path and its change generation under
//! a random salt chosen per workspace, written in lower-case hexadecimal.
//! Identifiers missing from the table are never served. The watcher advances
//! the generation of changed paths, so an identifier's content never changes;
//! when the watcher overflows, the salt is replaced and every identifier
//! changes.

use hmac::digest::KeyInit;
use hmac::{Hmac, Mac};
use sha2::Sha256;
use vstd::prelude::*;
use vstd::utf8::encode_utf8;
use crate::path_guard::{text_lowercase, to_lowercase};
use crate::text::{ascii_lower_seq, is_ascii_text};

verus! {

/// Number of salt bytes, equal to the HMAC-SHA256 output length.
pub const SALT_BYTES: usize = 32;

// ---------------------------------------------------------------------------
// Trusted calls.

/// HMAC-SHA256 of `message` under `key`, as the `hmac` and `sha2` crates compute it.
pub uninterp spec fn hmac_sha256(key: Seq<u8>, message: Seq<u8>) -> Seq<u8>;

/// Computes an HMAC-SHA256 tag.
///
/// Trusted: `Hmac::<Sha256>::new_from_slice`, `Mac::update` and
/// `Mac::finalize`. HMAC accepts keys of any length (the crate's
/// `new_from_slice` returns `Ok` for every key), and the tag is the 32-byte
/// SHA-256 output.
#[verifier::external_body]
fn hmac_sha256_tag(key: &[u8], message: &[u8]) -> (r: Option<Vec<u8>>)
    ensures
        r is Some,
        r matches Some(t) ==> t@ == hmac_sha256(key@, message@) && t.len() == 32,
{
    match <Hmac<Sha256> as KeyInit>::new_from_slice(key) {
        Ok(mut mac) => {
            mac.update(message);
            Some(mac.finalize().into_bytes().to_vec())
        },
        Err(_) => None,
    }
}

#[verifier::external_type_specification]
#[verifier::external_body]
pub struct ExRandomError(getrandom::Error);

/// `n` fresh random bytes from the operating system.
///
/// Trusted: calls `getrandom::fill` on a buffer of `n` bytes. On success the
/// buffer has that length; its content is chance and nothing is said of it.
#[verifier::external_body]
fn random_bytes(n: usize) -> (r: Result<Vec<u8>, getrandom::Error>)
    ensures
        r matches Ok(s) ==> s.len() == n,
{
    let mut bytes = vec![0u8; n];
    match getrandom::fill(&mut bytes) {
        Ok(()) => Ok(bytes),
        Err(e) => Err(e),
    }
}

/// The operating system's random source could not provide a salt. Without
/// one, identifiers could be predicted from the paths, so no table is made.
#[derive(Debug, Clone, Copy, PartialEq, Eq, Structural)]
pub enum ResourceError {
    RandomUnavailable,
}

// ---------------------------------------------------------------------------
// Identifiers.

/// The 8 big-endian bytes of `g`.
pub open spec fn be_bytes(g: nat, n: nat) -> Seq<u8>
    decreases n,
{
    if n == 0 {
        Seq::empty()
    } else {
        be_bytes(g / 256, (n - 1) as nat).push((g % 256) as u8)
    }
}

/// A lower-case hexadecimal digit.
pub open spec fn hex_digit(d: u8) -> char {
    if d < 10 {
        (0x30 + d) as char
    } else {
        (0x61 + d - 10) as char
    }
}

/// Lower-case hexadecimal text of bytes, two digits per byte.
pub open spec fn hex_text(b: Seq<u8>) -> Seq<char>
    decreases b.len(),
{
    if b.len() == 0 {
        Seq::empty()
    } else {
        hex_text(b.drop_last()).push(hex_digit(b.last() / 16)).push(hex_digit(b.last() % 16))
    }
}

/// The identifier of a (lower-cased) path at a generation: the hexadecimal
/// HMAC of the path's UTF-8 bytes, a NUL separator and the generation's 8
/// big-endian bytes. The separator keeps path and generation apart, as paths
/// hold no NUL.
pub open spec fn resource_id_of(salt: Seq<u8>, key: Seq<char>, generation: u64) -> Seq<char> {
    hex_text(hmac_sha256(salt, encode_utf8(key) + seq![0u8] + be_bytes(generation as nat, 8)))
}

fn be_bytes_of(g: u64, n: usize) -> (r: Vec<u8>)
    requires
        n <= 8,
    ensures
        r@ == be_bytes(g as nat, n as nat),
    decreases n,
{
    if n == 0 {
        Vec::new()
    } else {
        let mut v = be_bytes_of(g / 256, n - 1);
        v.push((g % 256) as u8);
        v
    }
}

fn hex_digit_char(d: u8) -> (r: char)
    requires
        d < 16,
    ensures
        r == hex_digit(d),
        is_hex_char(r),
{
    if d < 10 {
        (0x30 + d) as char
    } else {
        (0x61 + d - 10) as char
    }
}

/// A lower-case hexadecimal digit.
pub open spec fn is_hex_char(c: char) -> bool {
    ('0' <= c && c <= '9') || ('a' <= c && c <= 'f')
}

/// The form of every identifier: 64 lower-case hexadecimal digits, the
/// 32 bytes of an HMAC-SHA256 tag.
pub open spec fn is_hex_id(s: Seq<char>) -> bool {
    &&& s.len() == 64
    &&& forall|k: int| 0 <= k < s.len() ==> is_hex_char(#[trigger] s[k])
}

/// The identifier of `key` at `generation` under `salt`.
fn resource_id(salt: &Vec<u8>, key: &String, generation: u64) -> (r: String)
    ensures
        r@ == resource_id_of(salt@, key@, generation),
        is_hex_id(r@),
{
    let key_bytes = key.as_str().as_bytes();
    let mut message: Vec<u8> = Vec::new();
    let mut i: usize = 0;
    while i < key_bytes.len()
        invariant
            i <= key_bytes.len(),
            message@ == key_bytes@.take(i as int),
        decreases key_bytes.len() - i,
    {
        message.push(key_bytes[i]);
        assert(key_bytes@.take(i + 1) =~= key_bytes@.take(i as int).push(key_bytes@[i as int]));
        i = i + 1;
    }
    assert(key_bytes@.take(i as int) =~= key_bytes@);
    message.push(0u8);
    let tail = be_bytes_of(generation, 8);
    let mut k: usize = 0;
    let ghost head = message@;
    while k < tail.len()
        invariant
            k <= tail.len(),
            message@ == head + tail@.take(k as int),
        decreases tail.len() - k,
    {
        message.push(tail[k]);
        assert(tail@.take(k + 1) =~= tail@.take(k as int).push(tail@[k as int]));
        k = k + 1;
    }
    assert(tail@.take(k as int) =~= tail@);
    assert(message@ =~= encode_utf8(key@) + seq![0u8] + be_bytes(generation as nat, 8));
    let tag = match hmac_sha256_tag(salt.as_slice(), message.as_slice()) {
        Some(t) => t,
        None => Vec::new(),
    };
    assert(tag.len() == 32);
    let mut text: Vec<char> = Vec::new();
    let mut j: usize = 0;
    while j < tag.len()
        invariant
            j <= tag.len(),
            tag.len() == 32,
            text@ == hex_text(tag@.take(j as int)),
            text@.len() == 2 * j,
            forall|k: int| 0 <= k < text@.len() ==> is_hex_char(#[trigger] text@[k]),
        decreases tag.len() - j,
    {
        let b = tag[j];
        text.push(hex_digit_char(b / 16));
        text.push(hex_digit_char(b % 16));
        assert(tag@.take(j + 1).drop_last() =~= tag@.take(j as int));
        j = j + 1;
    }
    assert(tag@.take(j as int) =~= tag@);
    crate::text::string_of(text.as_slice())
}

// ---------------------------------------------------------------------------
// The table.

/// The state kept for one issued path.
struct PathState {
    /// The lower-cased path, so that spellings differing in case share a
    /// generation (Windows names are case-insensitive).
    key: String,
    /// The spelling received when first issued, resolved again when serving.
    path: String,
    generation: u64,
    /// The identifier of the current generation.
    resource_id: String,
}

/// One issued path, as the contracts see it.
pub struct PathEntry {
    pub key: Seq<char>,
    pub path: Seq<char>,
    pub generation: u64,
    pub id: Seq<char>,
}

/// The content of an `ImageResources`.
pub struct ResourcesView {
    pub salt: Seq<u8>,
    /// Issued paths, in the order they were first issued.
    pub paths: Seq<PathEntry>,
    /// The identifier table: identifier and path, at most one entry per
    /// identifier.
    pub issued: Seq<(Seq<char>, Seq<char>)>,
}

/// The image resource identifiers of one workspace. Made when the workspace
/// opens and dropped when it closes, so identifiers of another workspace are
/// never found.
///
/// Both tables are keyed by text, for which vstd gives hash maps no key
/// model, so they are vectors: an identifier is put where it already stands
/// (`table_insert`), so it occurs at most once, and an issued path is added
/// only when its key is not there yet.
pub struct ImageResources {
    salt: Vec<u8>,
    paths: Vec<PathState>,
    issued: Vec<(String, String)>,
}

impl View for ImageResources {
    type V = ResourcesView;

    closed spec fn view(&self) -> ResourcesView {
        ResourcesView {
            salt: self.salt@,
            paths: self.paths@.map_values(|p: PathState| PathEntry { key: p.key@, path: p.path@, generation: p.generation, id: p.resource_id@ }),
            issued: self.issued@.map_values(|e: (String, String)| (e.0@, e.1@)),
        }
    }
}

/// Index of the first entry of the table for `id`.
pub open spec fn table_index(t: Seq<(Seq<char>, Seq<char>)>, id: Seq<char>) -> Option<nat>
    decreases t.len(),
{
    if t.len() == 0 {
        None
    } else if t[0].0 == id {
        Some(0)
    } else {
        match table_index(t.drop_first(), id) {
            Some(i) => Some(i + 1),
            None => None,
        }
    }
}

/// The path the table gives for `id`.
pub open spec fn table_get(t: Seq<(Seq<char>, Seq<char>)>, id: Seq<char>) -> Option<Seq<char>> {
    match table_index(t, id) {
        Some(i) => Some(t[i as int].1),
        None => None,
    }
}

/// The table with `id` mapped to `path`.
pub open spec fn table_insert(t: Seq<(Seq<char>, Seq<char>)>, id: Seq<char>, path: Seq<char>) -> Seq<(Seq<char>, Seq<char>)> {
    match table_index(t, id) {
        Some(i) => t.update(i as int, (id, path)),
        None => t.push((id, path)),
    }
}

/// The table without `id`.
pub open spec fn table_remove(t: Seq<(Seq<char>, Seq<char>)>, id: Seq<char>) -> Seq<(Seq<char>, Seq<char>)> {
    match table_index(t, id) {
        Some(i) => t.remove(i as int),
        None => t,
    }
}

/// Index of the issued path with `key`.
pub open spec fn path_index(p: Seq<PathEntry>, key: Seq<char>) -> Option<nat>
    decreases p.len(),
{
    if p.len() == 0 {
        None
    } else if p[0].key == key {
        Some(0)
    } else {
        match path_index(p.drop_first(), key) {
            Some(i) => Some(i + 1),
            None => None,
        }
    }
}

/// The next generation.
pub open spec fn next_generation(g: u64) -> u64 {
    if g == u64::MAX {
        0
    } else {
        (g + 1) as u64
    }
}

/// Whether `path` is `changed` or lies under it, comparing by `/`-separated
/// component: a change of `img` does not reach `img2/a.png`.
pub open spec fn same_or_under(path: Seq<char>, changed: Seq<char>) -> bool {
    path == changed || (changed.len() < path.len() && path.take(changed.len() as int) == changed
        && path[changed.len() as int] == '/')
}

/// The state after issuing `relative`, and the identifier returned.
pub open spec fn issued_after(v: ResourcesView, relative: Seq<char>) -> (ResourcesView, Seq<char>) {
    let key = text_lowercase(relative);
    match path_index(v.paths, key) {
        Some(i) => (v, v.paths[i as int].id),
        None => {
            let id = resource_id_of(v.salt, key, 0);
            (
                ResourcesView {
                    salt: v.salt,
                    paths: v.paths.push(PathEntry { key, path: relative, generation: 0, id }),
                    issued: table_insert(v.issued, id, relative),
                },
                id,
            )
        },
    }
}

/// The state after the generations of the first `n` issued paths were
/// advanced for a change of the (lower-cased) path `changed`.
pub open spec fn advanced_upto(v: ResourcesView, changed: Seq<char>, n: nat) -> ResourcesView
    decreases n,
{
    if n == 0 {
        v
    } else {
        let w = advanced_upto(v, changed, (n - 1) as nat);
        let i = n - 1;
        let e = w.paths[i];
        if i < w.paths.len() && same_or_under(e.key, changed) {
            let g = next_generation(e.generation);
            let id = resource_id_of(w.salt, e.key, g);
            ResourcesView {
                salt: w.salt,
                paths: w.paths.update(i, PathEntry { key: e.key, path: e.path, generation: g, id }),
                issued: table_insert(table_remove(w.issued, e.id), id, e.path),
            }
        } else {
            w
        }
    }
}

/// The state after a change of `changed` was reported.
pub open spec fn advanced_after(v: ResourcesView, changed: Seq<char>) -> ResourcesView {
    advanced_upto(v, text_lowercase(changed), v.paths.len())
}

/// The table's invariant: a salt of the full length, and each issued path's
/// identifier derived from its key and generation.
pub open spec fn resources_wf(v: ResourcesView) -> bool {
    &&& v.salt.len() == SALT_BYTES
    &&& forall|i: int| 0 <= i < v.paths.len() ==> (#[trigger] v.paths[i]).id == resource_id_of(v.salt, v.paths[i].key, v.paths[i].generation)
    &&& forall|i: int| 0 <= i < v.paths.len() ==> is_hex_id((#[trigger] v.paths[i]).id)
}

proof fn lemma_table_index(t: Seq<(Seq<char>, Seq<char>)>, id: Seq<char>)
    ensures
        table_index(t, id) matches Some(i) ==> i < t.len() && t[i as int].0 == id && forall|j: int| 0 <= j < i ==> t[j].0 != id,
        table_index(t, id) is None ==> forall|j: int| 0 <= j < t.len() ==> t[j].0 != id,
    decreases t.len(),
{
    if t.len() > 0 && t[0].0 != id {
        let u = t.drop_first();
        lemma_table_index(u, id);
        assert forall|j: int| 1 <= j < t.len() implies t[j] == u[j - 1] by {}
    }
}

proof fn lemma_path_index(p: Seq<PathEntry>, key: Seq<char>)
    ensures
        path_index(p, key) matches Some(i) ==> i < p.len() && p[i as int].key == key && forall|j: int| 0 <= j < i ==> p[j].key != key,
        path_index(p, key) is None ==> forall|j: int| 0 <= j < p.len() ==> p[j].key != key,
    decreases p.len(),
{
    if p.len() > 0 && p[0].key != key {
        let u = p.drop_first();
        lemma_path_index(u, key);
        assert forall|j: int| 1 <= j < p.len() implies p[j] == u[j - 1] by {}
    }
}

/// Issuing a path again, in any spelling of the same lower-case form,
/// returns the same identifier and changes nothing.
pub proof fn issuing_again_returns_the_same_id(v: ResourcesView, a: Seq<char>, b: Seq<char>)
    requires
        text_lowercase(a) == text_lowercase(b),
    ensures
        issued_after(issued_after(v, a).0, b) == issued_after(v, a),
{
    let key = text_lowercase(a);
    lemma_path_index(v.paths, key);
    if path_index(v.paths, key) is None {
        let v1 = issued_after(v, a).0;
        let n = v.paths.len();
        lemma_path_index(v1.paths, key);
        assert(v1.paths[n as int].key == key);
        if let Some(f) = path_index(v1.paths, key) {
            if f < n {
                assert(v1.paths[f as int] == v.paths[f as int]);
            }
        }
    }
}

proof fn lemma_table_insert_get(t: Seq<(Seq<char>, Seq<char>)>, id: Seq<char>, path: Seq<char>)
    ensures
        table_get(table_insert(t, id, path), id) == Some(path),
{
    lemma_table_index(t, id);
    let u = table_insert(t, id, path);
    lemma_table_index(u, id);
    match table_index(t, id) {
        Some(i) => {
            assert(u[i as int].0 == id);
            if let Some(f) = table_index(u, id) {
                if f < i {
                    assert(u[f as int] == t[f as int]);
                }
            }
        },
        None => {
            assert(u[t.len() as int].0 == id);
            if let Some(f) = table_index(u, id) {
                if f < t.len() {
                    assert(u[f as int] == t[f as int]);
                }
            }
        },
    }
}

/// A path issued for the first time is found again by the identifier
/// returned.
pub proof fn a_newly_issued_id_resolves_to_its_path(v: ResourcesView, relative: Seq<char>)
    requires
        path_index(v.paths, text_lowercase(relative)) is None,
    ensures
        table_get(issued_after(v, relative).0.issued, issued_after(v, relative).1) == Some(relative),
{
    lemma_table_insert_get(v.issued, resource_id_of(v.salt, text_lowercase(relative), 0), relative);
}

/// Reporting a change advances exactly the issued paths that are the
/// changed path or lie under it: each of them moves to the next generation
/// and the identifier derived for it; every other path keeps its generation
/// and identifier, and no path is added or dropped.
pub proof fn advancing_touches_only_changed_paths(v: ResourcesView, changed: Seq<char>)
    ensures
        advanced_after(v, changed).salt == v.salt,
        advanced_after(v, changed).paths.len() == v.paths.len(),
        forall|i: int| 0 <= i < v.paths.len() ==> {
            let e = #[trigger] v.paths[i];
            let f = advanced_after(v, changed).paths[i];
            &&& f.key == e.key
            &&& f.path == e.path
            &&& same_or_under(e.key, text_lowercase(changed)) ==> f.generation == next_generation(e.generation)
                && f.id == resource_id_of(v.salt, e.key, f.generation)
            &&& !same_or_under(e.key, text_lowercase(changed)) ==> f == e
        },
{
    lemma_advanced_upto(v, text_lowercase(changed), v.paths.len());
}

proof fn lemma_advanced_upto(v: ResourcesView, changed: Seq<char>, n: nat)
    requires
        n <= v.paths.len(),
    ensures
        advanced_upto(v, changed, n).salt == v.salt,
        advanced_upto(v, changed, n).paths.len() == v.paths.len(),
        forall|i: int| n <= i < v.paths.len() ==> #[trigger] advanced_upto(v, changed, n).paths[i] == v.paths[i],
        forall|i: int| 0 <= i < n ==> {
            let e = #[trigger] v.paths[i];
            let f = advanced_upto(v, changed, n).paths[i];
            &&& f.key == e.key
            &&& f.path == e.path
            &&& same_or_under(e.key, changed) ==> f.generation == next_generation(e.generation) && f.id == resource_id_of(
                v.salt,
                e.key,
                f.generation,
            )
            &&& !same_or_under(e.key, changed) ==> f == e
        },
    decreases n,
{
    if n > 0 {
        lemma_advanced_upto(v, changed, (n - 1) as nat);
        let w = advanced_upto(v, changed, (n - 1) as nat);
        let u = advanced_upto(v, changed, n);
        assert(w.paths[n - 1] == v.paths[n - 1]);
        assert forall|i: int| 0 <= i < v.paths.len() && i != n - 1 implies #[trigger] u.paths[i] == w.paths[i] by {}
    }
}

// ---------------------------------------------------------------------------
// What a lookup gives back.

/// No identifier occurs twice in the table.
pub open spec fn table_unique(t: Seq<(Seq<char>, Seq<char>)>) -> bool {
    forall|i: int, j: int| 0 <= i < j < t.len() ==> #[trigger] t[i].0 != #[trigger] t[j].0
}

/// No lower-cased path is issued twice.
pub open spec fn keys_unique(p: Seq<PathEntry>) -> bool {
    forall|i: int, j: int| 0 <= i < j < p.len() ==> #[trigger] p[i].key != #[trigger] p[j].key
}

/// Every issued path's current identifier resolves to that path.
pub open spec fn ids_resolve(v: ResourcesView) -> bool {
    forall|i: int| 0 <= i < v.paths.len() ==> table_get(v.issued, #[trigger] v.paths[i].id) == Some(v.paths[i].path)
}

/// What makes lookups answer as issued: a table with one entry per
/// identifier, one entry per path, and each path's identifier in it.
pub open spec fn lookups_hold(v: ResourcesView) -> bool {
    &&& table_unique(v.issued)
    &&& keys_unique(v.paths)
    &&& ids_resolve(v)
}

/// Whether `k` is the key of an issued path or the `extra` key.
pub open spec fn at_stake(paths: Seq<PathEntry>, extra: Option<Seq<char>>, k: Seq<char>) -> bool {
    extra == Some(k) || path_index(paths, k) is Some
}

/// Distinct (key, generation) pairs of the keys at stake have distinct
/// identifiers: the HMAC has no collision among them.
pub open spec fn ids_apart(salt: Seq<u8>, paths: Seq<PathEntry>, extra: Option<Seq<char>>) -> bool {
    forall|k1: Seq<char>, g1: u64, k2: Seq<char>, g2: u64|
        at_stake(paths, extra, k1) && at_stake(paths, extra, k2) && (k1 != k2 || g1 != g2) ==> #[trigger] resource_id_of(
            salt,
            k1,
            g1,
        ) != #[trigger] resource_id_of(salt, k2, g2)
}

proof fn lemma_table_insert_other(t: Seq<(Seq<char>, Seq<char>)>, a: Seq<char>, p: Seq<char>, b: Seq<char>)
    requires
        a != b,
    ensures
        table_get(table_insert(t, a, p), b) == table_get(t, b),
{
    let u = table_insert(t, a, p);
    lemma_table_index(t, a);
    lemma_table_index(t, b);
    lemma_table_index(u, b);
    assert forall|j: int| 0 <= j < t.len() implies (#[trigger] u[j]).0 == b <==> t[j].0 == b by {
        if let Some(i) = table_index(t, a) {
            if j == i {
                assert(u[j].0 == a);
            }
        }
    }
    match (table_index(t, b), table_index(u, b)) {
        (Some(f), Some(g)) => {
            if f < g {
                assert(u[f as int].0 == b);
            } else if g < f {
                assert(t[g as int].0 == b);
            }
            if let Some(i) = table_index(t, a) {
                assert(f != i);
            }
        },
        (Some(f), None) => {
            assert(u[f as int].0 == b);
        },
        (None, Some(g)) => {
            if g < t.len() {
                assert(t[g as int].0 == b);
            } else {
                assert(u[g as int].0 == a);
            }
        },
        (None, None) => {},
    }
}

proof fn lemma_table_remove_other(t: Seq<(Seq<char>, Seq<char>)>, a: Seq<char>, b: Seq<char>)
    requires
        a != b,
    ensures
        table_get(table_remove(t, a), b) == table_get(t, b),
{
    lemma_table_index(t, a);
    lemma_table_index(t, b);
    if let Some(i) = table_index(t, a) {
        let u = t.remove(i as int);
        lemma_table_index(u, b);
        match table_index(t, b) {
            Some(f) => {
                assert(f != i);
                let g: int = if f < i { f as int } else { f - 1 };
                assert(u[g].0 == b);
                if let Some(h) = table_index(u, b) {
                    if h < g {
                        if h < i {
                            assert(t[h as int].0 == b);
                        } else {
                            assert(t[h + 1 as int].0 == b);
                        }
                    }
                }
            },
            None => {
                if let Some(h) = table_index(u, b) {
                    if h < i {
                        assert(t[h as int].0 == b);
                    } else {
                        assert(t[h + 1 as int].0 == b);
                    }
                }
            },
        }
    }
}

proof fn lemma_table_remove_same(t: Seq<(Seq<char>, Seq<char>)>, a: Seq<char>)
    requires
        table_unique(t),
    ensures
        table_get(table_remove(t, a), a) is None,
        table_unique(table_remove(t, a)),
{
    lemma_table_index(t, a);
    if let Some(i) = table_index(t, a) {
        let u = t.remove(i as int);
        lemma_table_index(u, a);
        if let Some(h) = table_index(u, a) {
            if h < i {
                assert(t[h as int].0 == a);
            } else {
                assert(t[h + 1 as int].0 == a);
            }
        }
        assert forall|x: int, y: int| 0 <= x < y < u.len() implies #[trigger] u[x].0 != #[trigger] u[y].0 by {
            let tx: int = if x < i { x } else { x + 1 };
            let ty: int = if y < i { y } else { y + 1 };
            assert(u[x] == t[tx] && u[y] == t[ty]);
        }
    } else {
        lemma_table_index(t, a);
    }
}

proof fn lemma_table_insert_unique(t: Seq<(Seq<char>, Seq<char>)>, a: Seq<char>, p: Seq<char>)
    requires
        table_unique(t),
    ensures
        table_unique(table_insert(t, a, p)),
{
    lemma_table_index(t, a);
    let u = table_insert(t, a, p);
    assert forall|x: int, y: int| 0 <= x < y < u.len() implies #[trigger] u[x].0 != #[trigger] u[y].0 by {
        if y == t.len() {
            assert(u[y].0 == a);
            assert(u[x] == t[x]);
        } else {
            assert(u[x].0 == t[x].0 && u[y].0 == t[y].0);
        }
    }
}

proof fn lemma_key_at_stake(p: Seq<PathEntry>, j: int)
    requires
        0 <= j < p.len(),
    ensures
        path_index(p, p[j].key) is Some,
{
    lemma_path_index(p, p[j].key);
}

proof fn lemma_advanced_lookups(v: ResourcesView, changed: Seq<char>, n: nat)
    requires
        n <= v.paths.len(),
        resources_wf(v),
        lookups_hold(v),
        ids_apart(v.salt, v.paths, None),
    ensures
        lookups_hold(advanced_upto(v, changed, n)),
        forall|m: int|
            0 <= m < n && same_or_under(v.paths[m].key, changed) ==> table_get(
                advanced_upto(v, changed, n).issued,
                #[trigger] v.paths[m].id,
            ) is None,
    decreases n,
{
    lemma_advanced_upto(v, changed, n);
    if n > 0 {
        let i = n - 1;
        lemma_advanced_lookups(v, changed, (n - 1) as nat);
        lemma_advanced_upto(v, changed, (n - 1) as nat);
        let w = advanced_upto(v, changed, (n - 1) as nat);
        let u = advanced_upto(v, changed, n);
        let e = w.paths[i];
        assert(e == v.paths[i]);
        // Every path's identifier in `w` is derived from its key.
        assert forall|j: int| 0 <= j < w.paths.len() implies (#[trigger] w.paths[j]).id == resource_id_of(
            v.salt,
            w.paths[j].key,
            w.paths[j].generation,
        ) && w.paths[j].key == v.paths[j].key && w.paths[j].path == v.paths[j].path by {
            let f = w.paths[j];
            let d = v.paths[j];
            assert(d.id == resource_id_of(v.salt, d.key, d.generation));
            if j < i {
                assert(f.key == d.key && f.path == d.path);
                if same_or_under(d.key, changed) {
                    assert(f.id == resource_id_of(v.salt, d.key, f.generation));
                } else {
                    assert(f == d);
                }
            } else {
                assert(f == d);
            }
        }
        if same_or_under(e.key, changed) {
            let g = next_generation(e.generation);
            let new_id = resource_id_of(w.salt, e.key, g);
            let removed = table_remove(w.issued, e.id);
            lemma_key_at_stake(v.paths, i);
            assert(new_id != e.id);
            lemma_table_remove_same(w.issued, e.id);
            lemma_table_insert_unique(removed, new_id, e.path);
            lemma_table_insert_get(removed, new_id, e.path);
            assert forall|j: int| 0 <= j < u.paths.len() implies table_get(u.issued, #[trigger] u.paths[j].id)
                == Some(u.paths[j].path) by {
                if j != i {
                    assert(u.paths[j] == w.paths[j]);
                    lemma_key_at_stake(v.paths, j);
                    assert(v.paths[j].key != v.paths[i].key);
                    assert(w.paths[j].id != e.id);
                    assert(w.paths[j].id != new_id);
                    lemma_table_insert_other(removed, new_id, e.path, w.paths[j].id);
                    lemma_table_remove_other(w.issued, e.id, w.paths[j].id);
                }
            }
            assert forall|a: int, b: int| 0 <= a < b < u.paths.len() implies #[trigger] u.paths[a].key
                != #[trigger] u.paths[b].key by {
                assert(v.paths[a].key != v.paths[b].key);
            }
            assert forall|m: int| 0 <= m < n && same_or_under(v.paths[m].key, changed) implies table_get(
                u.issued,
                #[trigger] v.paths[m].id,
            ) is None by {
                let old_id = v.paths[m].id;
                if m == i {
                    lemma_table_insert_other(removed, new_id, e.path, old_id);
                } else {
                    lemma_key_at_stake(v.paths, m);
                    assert(v.paths[m].key != v.paths[i].key);
                    assert(old_id != e.id);
                    assert(old_id != new_id);
                    lemma_table_insert_other(removed, new_id, e.path, old_id);
                    lemma_table_remove_other(w.issued, e.id, old_id);
                }
            }
        }
    }
}

/// A lookup gives back what was issued: the identifier returned for a path
/// resolves to the path as first spelled, and every other issued path's
/// identifier keeps resolving to its path. This holds as long as the HMAC
/// has no collision among the paths at stake.
pub proof fn an_issued_id_resolves_to_its_path(v: ResourcesView, relative: Seq<char>)
    requires
        resources_wf(v),
        lookups_hold(v),
        ids_apart(v.salt, v.paths, Some(text_lowercase(relative))),
    ensures
        lookups_hold(issued_after(v, relative).0),
        table_get(issued_after(v, relative).0.issued, issued_after(v, relative).1) == Some(
            match path_index(v.paths, text_lowercase(relative)) {
                Some(i) => v.paths[i as int].path,
                None => relative,
            },
        ),
{
    let key = text_lowercase(relative);
    lemma_path_index(v.paths, key);
    if path_index(v.paths, key) is None {
        let after = issued_after(v, relative).0;
        let id = resource_id_of(v.salt, key, 0);
        let n = v.paths.len();
        lemma_table_insert_unique(v.issued, id, relative);
        lemma_table_insert_get(v.issued, id, relative);
        assert forall|j: int| 0 <= j < after.paths.len() implies table_get(after.issued, #[trigger] after.paths[j].id)
            == Some(after.paths[j].path) by {
            if j < n {
                assert(after.paths[j] == v.paths[j]);
                lemma_key_at_stake(v.paths, j);
                assert(v.paths[j].key != key);
                assert(v.paths[j].id != id);
                lemma_table_insert_other(v.issued, id, relative, v.paths[j].id);
            }
        }
        assert forall|a: int, b: int| 0 <= a < b < after.paths.len() implies #[trigger] after.paths[a].key
            != #[trigger] after.paths[b].key by {
            if b < n {
                assert(after.paths[a] == v.paths[a] && after.paths[b] == v.paths[b]);
            } else {
                assert(after.paths[a] == v.paths[a]);
            }
        }
    }
}

/// After a change is reported, every issued path's identifier resolves to
/// it, and the former identifiers of the paths that advanced resolve no
/// more, as long as the HMAC has no collision among the issued paths.
pub proof fn advancing_retires_the_old_ids(v: ResourcesView, changed: Seq<char>)
    requires
        resources_wf(v),
        lookups_hold(v),
        ids_apart(v.salt, v.paths, None),
    ensures
        lookups_hold(advanced_after(v, changed)),
        forall|i: int|
            0 <= i < v.paths.len() && same_or_under(v.paths[i].key, text_lowercase(changed)) ==> table_get(
                advanced_after(v, changed).issued,
                #[trigger] v.paths[i].id,
            ) is None,
{
    lemma_advanced_lookups(v, text_lowercase(changed), v.paths.len());
}

/// An emptied table, as a reset leaves it, resolves no identifier.
pub proof fn an_emptied_table_resolves_nothing(v: ResourcesView, id: Seq<char>)
    requires
        v.issued.len() == 0,
        v.paths.len() == 0,
    ensures
        table_get(v.issued, id) is None,
        lookups_hold(v),
{
}

/// `same_or_under` on strings.
fn is_same_or_under(path: &String, changed: &String) -> (r: bool)
    ensures
        r == same_or_under(path@, changed@),
{
    let p = crate::text::chars_of(path.as_str());
    let c = crate::text::chars_of(changed.as_str());
    if p.len() < c.len() {
        proof {
            if path@ == changed@ {
                assert(p.len() == c.len());
            }
        }
        return false;
    }
    let mut k: usize = 0;
    while k < c.len()
        invariant
            p@ == path@,
            c@ == changed@,
            c.len() <= p.len(),
            k <= c.len(),
            forall|m: int| 0 <= m < k ==> p@[m] == c@[m],
        decreases c.len() - k,
    {
        if p[k] != c[k] {
            proof {
                assert(p@.take(c.len() as int)[k as int] != c@[k as int]);
                if path@ == changed@ {
                    assert(p@[k as int] == c@[k as int]);
                }
            }
            return false;
        }
        k = k + 1;
    }
    assert(p@.take(c.len() as int) =~= c@);
    if p.len() == c.len() {
        assert(p@ =~= c@);
        return true;
    }
    proof {
        assert(path@ != changed@);
    }
    p[c.len()] == '/'
}

impl ImageResources {
    /// A new, empty table under a fresh random salt.
    pub fn new() -> (r: Result<ImageResources, ResourceError>)
        ensures
            r matches Ok(t) ==> resources_wf(t@) && t@.salt.len() == SALT_BYTES && t@.paths.len() == 0
                && t@.issued.len() == 0,
    {
        match random_bytes(SALT_BYTES) {
            Ok(salt) => Ok(Self::with_salt(salt)),
            Err(_) => Err(ResourceError::RandomUnavailable),
        }
    }

    /// An empty table under the given salt.
    pub fn with_salt(salt: Vec<u8>) -> (r: ImageResources)
        requires
            salt.len() == SALT_BYTES,
        ensures
            resources_wf(r@),
            r@.salt == salt@,
            r@.paths.len() == 0,
            r@.issued.len() == 0,
    {
        let r = ImageResources { salt, paths: Vec::new(), issued: Vec::new() };
        assert(r@.paths =~= Seq::<PathEntry>::empty());
        assert(r@.issued =~= Seq::<(Seq<char>, Seq<char>)>::empty());
        r
    }

    /// The index in the table of `id`.
    fn find_issued(&self, id: &str) -> (r: Option<usize>)
        ensures
            match r {
                Some(i) => i < self@.issued.len() && table_index(self@.issued, id@) == Some(i as nat),
                None => table_index(self@.issued, id@) is None,
            },
    {
        let wanted = id.to_owned();
        let ghost t = self@.issued;
        proof {
            lemma_table_index(t, id@);
        }
        let mut i: usize = 0;
        while i < self.issued.len()
            invariant
                i <= self.issued.len(),
                t == self@.issued,
                wanted@ == id@,
                forall|j: int| 0 <= j < i ==> t[j].0 != id@,
            decreases self.issued.len() - i,
        {
            if self.issued[i].0 == wanted {
                proof {
                    lemma_table_index(t, id@);
                    assert(t[i as int].0 == id@);
                    if let Some(f) = table_index(t, id@) {
                        if f < i {
                            assert(t[f as int].0 != id@);
                        }
                        if f > i {
                            assert(t[i as int].0 != id@);
                        }
                    }
                }
                return Some(i);
            }
            i = i + 1;
        }
        proof {
            lemma_table_index(t, id@);
            if let Some(f) = table_index(t, id@) {
                assert(t[f as int].0 == id@);
            }
        }
        None
    }

    /// Maps `id` to `path` in the table.
    fn table_put(&mut self, id: String, path: String)
        ensures
            final(self)@.issued == table_insert(old(self)@.issued, id@, path@),
            final(self)@.salt == old(self)@.salt,
            final(self)@.paths == old(self)@.paths,
    {
        match self.find_issued(id.as_str()) {
            Some(i) => {
                let ghost before = self@.issued;
                self.issued.remove(i);
                self.issued.insert(i, (id, path));
                assert(self@.issued =~= before.update(i as int, (id@, path@)));
            },
            None => {
                let ghost before = self@.issued;
                self.issued.push((id, path));
                assert(self@.issued =~= before.push((id@, path@)));
            },
        }
    }

    /// Removes `id` from the table.
    fn table_drop(&mut self, id: &String)
        ensures
            final(self)@.issued == table_remove(old(self)@.issued, id@),
            final(self)@.salt == old(self)@.salt,
            final(self)@.paths == old(self)@.paths,
    {
        match self.find_issued(id.as_str()) {
            Some(i) => {
                let ghost before = self@.issued;
                self.issued.remove(i);
                assert(self@.issued =~= before.remove(i as int));
            },
            None => {},
        }
    }

    /// The identifier for a path; the same identifier as long as the path's
    /// generation does not change, whatever the case of its spelling.
    ///
    /// `relative` is an existing workspace-relative path in the file system's
    /// spelling; the boundary and the format were checked by the caller.
    pub fn issue(&mut self, relative: &str) -> (r: String)
        requires
            resources_wf(old(self)@),
        ensures
            resources_wf(final(self)@),
            (final(self)@, r@) == issued_after(old(self)@, relative@),
            is_hex_id(r@),
            is_ascii_text(relative@) ==> text_lowercase(relative@) == ascii_lower_seq(relative@),
    {
        let key = to_lowercase(relative);
        let ghost p = self@.paths;
        proof {
            lemma_path_index(p, key@);
        }
        let mut i: usize = 0;
        while i < self.paths.len()
            invariant
                i <= self.paths.len(),
                p == self@.paths,
                self@ == old(self)@,
                resources_wf(self@),
                key@ == text_lowercase(relative@),
                is_ascii_text(relative@) ==> key@ == ascii_lower_seq(relative@),
                forall|j: int| 0 <= j < i ==> p[j].key != key@,
            decreases self.paths.len() - i,
        {
            if self.paths[i].key == key {
                proof {
                    lemma_path_index(p, key@);
                    assert(p[i as int].key == key@);
                    if let Some(f) = path_index(p, key@) {
                        if f < i {
                            assert(p[f as int].key != key@);
                        }
                        if f > i {
                            assert(p[i as int].key != key@);
                        }
                    }
                }
                return self.paths[i].resource_id.clone();
            }
            i = i + 1;
        }
        proof {
            lemma_path_index(p, key@);
            if let Some(f) = path_index(p, key@) {
                assert(p[f as int].key == key@);
            }
        }
        let resource_id = resource_id(&self.salt, &key, 0);
        self.table_put(resource_id.clone(), relative.to_owned());
        let ghost before = self@.paths;
        self.paths.push(
            PathState { key, path: relative.to_owned(), generation: 0, resource_id: resource_id.clone() },
        );
        assert(self@.paths =~= before.push(
            PathEntry { key: text_lowercase(relative@), path: relative@, generation: 0, id: resource_id@ },
        ));
        resource_id
    }

    /// The path of an identifier in the table, if it is there.
    pub fn lookup(&self, resource_id: &str) -> (r: Option<String>)
        ensures
            match r {
                Some(p) => table_get(self@.issued, resource_id@) == Some(p@),
                None => table_get(self@.issued, resource_id@) is None,
            },
    {
        match self.find_issued(resource_id) {
            Some(i) => Some(self.issued[i].1.clone()),
            None => None,
        }
    }

    /// Advances the generation of every issued path that is `changed` or lies
    /// under it, replacing its identifier in the table.
    ///
    /// Paths under `changed` advance too: the watcher cannot tell files from
    /// directories, and renaming or removing a folder reports no event for
    /// the files in it.
    pub fn advance(&mut self, changed: &str)
        requires
            resources_wf(old(self)@),
        ensures
            resources_wf(final(self)@),
            final(self)@ == advanced_after(old(self)@, changed@),
            is_ascii_text(changed@) ==> text_lowercase(changed@) == ascii_lower_seq(changed@),
    {
        let changed = to_lowercase(changed);
        let ghost v0 = self@;
        let n = self.paths.len();
        let mut i: usize = 0;
        while i < n
            invariant
                n == self.paths.len(),
                n == v0.paths.len(),
                i <= n,
                self@ == advanced_upto(v0, changed@, i as nat),
                resources_wf(self@),
            decreases n - i,
        {
            let ghost w = self@;
            if is_same_or_under(&self.paths[i].key, &changed) {
                let old_id = self.paths[i].resource_id.clone();
                self.table_drop(&old_id);
                assert(self@.paths.len() == n);
                assert(self.paths@.len() == n);
                let generation = self.paths[i].generation.wrapping_add(1);
                let new_id = resource_id(&self.salt, &self.paths[i].key, generation);
                let path = self.paths[i].path.clone();
                self.table_put(new_id.clone(), path);
                let key = self.paths[i].key.clone();
                let entry_path = self.paths[i].path.clone();
                let ghost before = self@.paths;
                self.paths.remove(i);
                self.paths.insert(i, PathState { key, path: entry_path, generation, resource_id: new_id });
                assert(self@.paths =~= before.update(
                    i as int,
                    PathEntry { key: w.paths[i as int].key, path: w.paths[i as int].path, generation, id: self@.paths[i as int].id },
                ));
                assert(generation == next_generation(w.paths[i as int].generation));
            }
            i = i + 1;
        }
    }

    /// Replaces the salt and empties the table, changing every identifier.
    /// Called when the watcher overflowed and individual changes were lost.
    /// When no new salt can be had, nothing changes and the error is returned.
    pub fn reset(&mut self) -> (r: Result<(), ResourceError>)
        requires
            resources_wf(old(self)@),
        ensures
            resources_wf(final(self)@),
            r is Ok ==> final(self)@.paths.len() == 0 && final(self)@.issued.len() == 0,
            r is Err ==> final(self)@ == old(self)@,
    {
        match random_bytes(SALT_BYTES) {
            Ok(salt) => {
                self.reset_with(salt);
                Ok(())
            },
            Err(_) => Err(ResourceError::RandomUnavailable),
        }
    }

    /// Replaces the salt by `salt` and empties the table.
    pub fn reset_with(&mut self, salt: Vec<u8>)
        requires
            salt.len() == SALT_BYTES,
        ensures
            resources_wf(final(self)@),
            final(self)@.salt == salt@,
            final(self)@.paths.len() == 0,
            final(self)@.issued.len() == 0,
    {
        self.salt = salt;
        self.paths = Vec::new();
        self.issued = Vec::new();
        assert(self@.paths =~= Seq::<PathEntry>::empty());
        assert(self@.issued =~= Seq::<(Seq<char>, Seq<char>)>::empty());
    }

    /// Number of issued paths the table keeps.
    pub fn path_count(&self) -> (r: usize)
        ensures
            r == self@.paths.len(),
    {
        self.paths.len()
    }

    /// Number of identifiers in the table.
    pub fn issued_ids(&self) -> (r: usize)
        ensures
            r == self@.issued.len(),
    {
        self.issued.len()
    }
}

} // verus!
