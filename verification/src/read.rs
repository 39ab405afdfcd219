//! Reading a Markdown file: the size limit, the text encoding and the
//! newline normalisation.
//!
//! Only encodings that a byte order mark identifies are accepted (UTF-8 with
//! or without BOM, UTF-16 LE/BE with BOM); other encodings are never guessed,
//! since a wrong guess would show garbled text as if it had been read.

use vstd::prelude::*;
use vstd::utf8::{
    char_is_scalar, char_u32_cast, decode_utf8, encode_scalar, encode_utf8, encode_utf8_decode_utf8,
    encode_utf8_valid_utf8, has_width_3_encoding, valid_utf8,
};
use crate::image::format::begins_with;
use crate::ipc::types::{FileContent, TextEncoding};
use crate::limits::MAX_MARKDOWN_BYTES;
use crate::path_guard::{IoFailure, ResolveError};
use crate::text::{chars_of, string_from_utf8, string_of};

verus! {

/// `ERROR_SHARING_VIOLATION`: another process opened the file without sharing it.
pub const ERROR_SHARING_VIOLATION: i32 = 32;

/// `ERROR_LOCK_VIOLATION`: the range is locked.
pub const ERROR_LOCK_VIOLATION: i32 = 33;

/// Why a file could not be read.
#[derive(Debug, Clone, Copy, PartialEq, Eq, Structural)]
pub enum ReadError {
    /// Resolving the path, or opening and reading the file, failed.
    Resolve(ResolveError),
    /// Larger than the limit.
    TooLarge,
    /// The encoding could not be determined, or decoding failed.
    Decode,
}

/// Whether a failure is a sharing violation. The error kinds do not tell
/// these apart, so the operating system's code decides.
pub open spec fn sharing_violation(error: IoFailure) -> bool {
    error.raw_os_error == Some(ERROR_SHARING_VIOLATION) || error.raw_os_error == Some(ERROR_LOCK_VIOLATION)
}

/// Whether a failure is a sharing violation (a file being replaced may be
/// read at such a moment).
pub fn is_sharing_violation(error: &IoFailure) -> (r: bool)
    ensures
        r == sharing_violation(*error),
{
    match error.raw_os_error {
        Some(code) => code == ERROR_SHARING_VIOLATION || code == ERROR_LOCK_VIOLATION,
        None => false,
    }
}

/// Whether a file of `len` bytes is within the Markdown size limit.
pub fn markdown_size_allowed(len: u64) -> (r: bool)
    ensures
        r == (len <= MAX_MARKDOWN_BYTES),
{
    len <= MAX_MARKDOWN_BYTES as u64
}

// ---------------------------------------------------------------------------
// Decoding.

/// UTF-16 decoding of code units; `None` on an unpaired surrogate.
pub open spec fn utf16_decode(u: Seq<u16>) -> Option<Seq<char>>
    decreases u.len(),
{
    if u.len() == 0 {
        Some(Seq::empty())
    } else if u[0] < 0xd800 || u[0] > 0xdfff {
        match utf16_decode(u.skip(1)) {
            Some(rest) => Some(seq![u[0] as char] + rest),
            None => None,
        }
    } else if u[0] <= 0xdbff && u.len() >= 2 && 0xdc00 <= u[1] && u[1] <= 0xdfff {
        match utf16_decode(u.skip(2)) {
            Some(rest) => Some(seq![(0x10000 + (u[0] - 0xd800) * 0x400 + (u[1] - 0xdc00)) as char] + rest),
            None => None,
        }
    } else {
        None
    }
}

/// The code units of UTF-16 bytes in the given byte order.
pub open spec fn utf16_units(b: Seq<u8>, little_endian: bool) -> Seq<u16> {
    Seq::new(
        b.len() / 2,
        |i: int|
            if little_endian {
                (b[2 * i] + 256 * b[2 * i + 1]) as u16
            } else {
                (256 * b[2 * i] + b[2 * i + 1]) as u16
            },
    )
}

/// Decodes UTF-16 code units.
///
/// Trusted: calls `String::from_utf16`, which fails exactly on invalid
/// UTF-16 (an unpaired surrogate) and otherwise decodes the standard way.
#[verifier::external_body]
fn string_from_utf16(units: &[u16]) -> (r: Option<String>)
    ensures
        r is Some <==> utf16_decode(units@) is Some,
        r matches Some(s) ==> utf16_decode(units@) == Some(s@),
{
    String::from_utf16(units).ok()
}

/// The UTF-8 byte order mark.
pub open spec fn bom_utf8() -> Seq<u8> {
    seq![0xefu8, 0xbb, 0xbf]
}

/// The UTF-16 LE byte order mark.
pub open spec fn bom_utf16_le() -> Seq<u8> {
    seq![0xffu8, 0xfe]
}

/// The UTF-16 BE byte order mark.
pub open spec fn bom_utf16_be() -> Seq<u8> {
    seq![0xfeu8, 0xff]
}

pub open spec fn utf8_body(b: Seq<u8>) -> Result<Seq<char>, ReadError> {
    if valid_utf8(b) {
        Ok(decode_utf8(b))
    } else {
        Err(ReadError::Decode)
    }
}

pub open spec fn utf16_body(b: Seq<u8>, little_endian: bool) -> Result<Seq<char>, ReadError> {
    if b.len() % 2 != 0 {
        Err(ReadError::Decode)
    } else {
        match utf16_decode(utf16_units(b, little_endian)) {
            Some(s) => Ok(s),
            None => Err(ReadError::Decode),
        }
    }
}

/// The text and encoding of file bytes: the byte order mark decides the
/// encoding; without one the bytes must be UTF-8.
pub open spec fn decoded_text(b: Seq<u8>) -> Result<(Seq<char>, TextEncoding), ReadError> {
    let (body, encoding) = if begins_with(b, bom_utf8()) {
        (utf8_body(b.skip(3)), TextEncoding::Utf8Bom)
    } else if begins_with(b, bom_utf16_le()) {
        (utf16_body(b.skip(2), true), TextEncoding::Utf16Le)
    } else if begins_with(b, bom_utf16_be()) {
        (utf16_body(b.skip(2), false), TextEncoding::Utf16Be)
    } else {
        (utf8_body(b), TextEncoding::Utf8)
    };
    match body {
        Ok(s) => Ok((s, encoding)),
        Err(e) => Err(e),
    }
}

/// Whether the bytes from `at` begin with `prefix`.
fn has_prefix(bytes: &[u8], at: usize, prefix: &[u8]) -> (r: bool)
    requires
        at <= bytes.len(),
    ensures
        r == begins_with(bytes@.skip(at as int), prefix@),
{
    if bytes.len() - at < prefix.len() {
        return false;
    }
    let mut k: usize = 0;
    while k < prefix.len()
        invariant
            at + prefix.len() <= bytes.len(),
            k <= prefix.len(),
            forall|m: int| 0 <= m < k ==> bytes@[at + m] == prefix@[m],
        decreases prefix.len() - k,
    {
        if bytes[at + k] != prefix[k] {
            assert(bytes@.skip(at as int).take(prefix.len() as int)[k as int] != prefix@[k as int]);
            return false;
        }
        k = k + 1;
    }
    assert(bytes@.skip(at as int).take(prefix.len() as int) =~= prefix@);
    true
}

/// Decodes the bytes from `from` on as UTF-8.
fn decode_utf8_from(bytes: &[u8], from: usize) -> (r: Result<String, ReadError>)
    requires
        from <= bytes.len(),
    ensures
        match r {
            Ok(s) => utf8_body(bytes@.skip(from as int)) == Ok::<Seq<char>, ReadError>(s@),
            Err(e) => utf8_body(bytes@.skip(from as int)) == Err::<Seq<char>, ReadError>(e),
        },
{
    let mut body: Vec<u8> = Vec::new();
    let mut k: usize = from;
    while k < bytes.len()
        invariant
            from <= k <= bytes.len(),
            body@ == bytes@.subrange(from as int, k as int),
        decreases bytes.len() - k,
    {
        body.push(bytes[k]);
        assert(bytes@.subrange(from as int, k + 1) =~= bytes@.subrange(from as int, k as int).push(bytes@[k as int]));
        k = k + 1;
    }
    assert(bytes@.subrange(from as int, k as int) =~= bytes@.skip(from as int));
    match string_from_utf8(body) {
        Some(s) => Ok(s),
        None => Err(ReadError::Decode),
    }
}

/// Decodes the bytes from `from` on as UTF-16 in the given byte order.
/// An odd number of bytes and an unpaired surrogate fail.
fn decode_utf16_from(bytes: &[u8], from: usize, little_endian: bool) -> (r: Result<String, ReadError>)
    requires
        from <= bytes.len(),
    ensures
        match r {
            Ok(s) => utf16_body(bytes@.skip(from as int), little_endian) == Ok::<Seq<char>, ReadError>(s@),
            Err(e) => utf16_body(bytes@.skip(from as int), little_endian) == Err::<Seq<char>, ReadError>(e),
        },
{
    let ghost b = bytes@.skip(from as int);
    if (bytes.len() - from) % 2 != 0 {
        return Err(ReadError::Decode);
    }
    let n = (bytes.len() - from) / 2;
    let mut units: Vec<u16> = Vec::new();
    let mut i: usize = 0;
    while i < n
        invariant
            b == bytes@.skip(from as int),
            n == b.len() / 2,
            from + 2 * n <= bytes.len(),
            i <= n,
            units@ == utf16_units(b, little_endian).take(i as int),
        decreases n - i,
    {
        let lo = bytes[from + 2 * i];
        let hi = bytes[from + 2 * i + 1];
        let unit: u16 = if little_endian {
            lo as u16 + 256 * (hi as u16)
        } else {
            256 * (lo as u16) + hi as u16
        };
        proof {
            assert(b[2 * i as int] == lo && b[2 * i + 1] == hi);
            assert(utf16_units(b, little_endian)[i as int] == unit);
            assert(utf16_units(b, little_endian).take(i + 1) =~= utf16_units(b, little_endian).take(i as int).push(unit));
        }
        units.push(unit);
        i = i + 1;
    }
    assert(utf16_units(b, little_endian).take(n as int) =~= utf16_units(b, little_endian));
    match string_from_utf16(units.as_slice()) {
        Some(s) => Ok(s),
        None => Err(ReadError::Decode),
    }
}

/// Decides the encoding by the byte order mark and decodes the text.
///
/// Bytes without a byte order mark must be valid UTF-8; nothing else is
/// guessed.
pub fn decode(bytes: &[u8]) -> (r: Result<(String, TextEncoding), ReadError>)
    ensures
        match r {
            Ok((s, e)) => decoded_text(bytes@) == Ok::<(Seq<char>, TextEncoding), ReadError>((s@, e)),
            Err(e) => decoded_text(bytes@) == Err::<(Seq<char>, TextEncoding), ReadError>(e),
        },
{
    proof {
        assert(bytes@.skip(0) =~= bytes@);
        assert((&[0xefu8, 0xbb, 0xbf])@ =~= bom_utf8());
        assert((&[0xffu8, 0xfe])@ =~= bom_utf16_le());
        assert((&[0xfeu8, 0xff])@ =~= bom_utf16_be());
    }
    if has_prefix(bytes, 0, &[0xef, 0xbb, 0xbf]) {
        return match decode_utf8_from(bytes, 3) {
            Ok(s) => Ok((s, TextEncoding::Utf8Bom)),
            Err(e) => Err(e),
        };
    }
    if has_prefix(bytes, 0, &[0xff, 0xfe]) {
        return match decode_utf16_from(bytes, 2, true) {
            Ok(s) => Ok((s, TextEncoding::Utf16Le)),
            Err(e) => Err(e),
        };
    }
    if has_prefix(bytes, 0, &[0xfe, 0xff]) {
        return match decode_utf16_from(bytes, 2, false) {
            Ok(s) => Ok((s, TextEncoding::Utf16Be)),
            Err(e) => Err(e),
        };
    }
    match decode_utf8_from(bytes, 0) {
        Ok(s) => Ok((s, TextEncoding::Utf8)),
        Err(e) => Err(e),
    }
}

/// The first byte of a character's UTF-8 encoding is never a byte of the
/// UTF-16 byte order marks, and it begins the UTF-8 byte order mark only for
/// U+FEFF.
proof fn lemma_utf8_leading_byte(c: u32)
    by (bit_vector)
    requires
        c <= 0x10FFFF,
    ensures
        c <= 0x7F ==> ((c & 0x7F) as u8) < 0x80,
        0x80 <= c && c <= 0x7FF ==> 0xC0 <= (0xC0 | ((c >> 6) & 0x1F) as u8) && (0xC0 | ((c >> 6) & 0x1F) as u8) <= 0xDF,
        0x800 <= c && c <= 0xFFFF ==> 0xE0 <= (0xE0 | ((c >> 12) & 0x0F) as u8) && (0xE0 | ((c >> 12) & 0x0F) as u8) <= 0xEF,
        0x800 <= c && c <= 0xFFFF && (0xE0 | ((c >> 12) & 0x0F) as u8) == 0xEF && (0x80 | ((c >> 6) & 0x3F) as u8) == 0xBB
            && (0x80 | (c & 0x3F) as u8) == 0xBF ==> c == 0xFEFF,
        0x10000 <= c ==> 0xF0 <= (0xF0 | ((c >> 18) & 0x7) as u8) && (0xF0 | ((c >> 18) & 0x7) as u8) <= 0xF7,
{
}

/// The UTF-8 encoding of a text begins with the UTF-8 byte order mark only
/// when the text begins with U+FEFF, and never with a UTF-16 one.
proof fn lemma_utf8_encoding_marks(s: Seq<char>)
    ensures
        begins_with(encode_utf8(s), bom_utf8()) ==> s.len() > 0 && s[0] == '\u{FEFF}',
        !begins_with(encode_utf8(s), bom_utf16_le()),
        !begins_with(encode_utf8(s), bom_utf16_be()),
{
    let b = encode_utf8(s);
    if s.len() > 0 {
        let c = s[0] as u32;
        char_is_scalar(s[0]);
        lemma_utf8_leading_byte(c);
        let e = encode_scalar(c);
        assert(b == e + encode_utf8(s.drop_first()));
        assert(b[0] == e[0]);
        if begins_with(b, bom_utf8()) {
            assert(b.take(3)[0] == 0xefu8);
            assert(has_width_3_encoding(c));
            assert(b[1] == e[1] && b[2] == e[2]);
            assert(b.take(3)[1] == 0xbbu8 && b.take(3)[2] == 0xbfu8);
            assert(c == 0xFEFF);
            char_u32_cast(s[0], c);
        }
        if begins_with(b, bom_utf16_le()) {
            assert(b.take(2)[0] == 0xffu8);
        }
        if begins_with(b, bom_utf16_be()) {
            assert(b.take(2)[0] == 0xfeu8);
        }
    }
}

/// A text encoded as UTF-8 decodes back to itself: with the byte order mark
/// as `Utf8Bom`, and without it as `Utf8` unless the text itself begins with
/// U+FEFF (whose encoding is the mark).
pub proof fn utf8_encoded_text_decodes_back(s: Seq<char>)
    ensures
        decoded_text(bom_utf8() + encode_utf8(s)) == Ok::<(Seq<char>, TextEncoding), ReadError>((s, TextEncoding::Utf8Bom)),
        s.len() == 0 || s[0] != '\u{FEFF}' ==> decoded_text(encode_utf8(s)) == Ok::<(Seq<char>, TextEncoding), ReadError>(
            (s, TextEncoding::Utf8),
        ),
{
    broadcast use encode_utf8_valid_utf8, encode_utf8_decode_utf8;

    let with_mark = bom_utf8() + encode_utf8(s);
    assert(with_mark.take(3) =~= bom_utf8());
    assert(with_mark.skip(3) =~= encode_utf8(s));
    lemma_utf8_encoding_marks(s);
}

/// The UTF-16 code units of a text: a character below U+10000 is one unit,
/// any other a surrogate pair.
pub open spec fn utf16_encode(s: Seq<char>) -> Seq<u16>
    decreases s.len(),
{
    if s.len() == 0 {
        Seq::empty()
    } else {
        let c = s[0] as u32;
        let head = if c < 0x10000 {
            seq![c as u16]
        } else {
            let v = c - 0x10000;
            seq![(0xd800 + v / 0x400) as u16, (0xdc00 + v % 0x400) as u16]
        };
        head + utf16_encode(s.drop_first())
    }
}

/// The bytes of UTF-16 code units in the given byte order.
pub open spec fn utf16_bytes(u: Seq<u16>, little_endian: bool) -> Seq<u8> {
    Seq::new(
        2 * u.len(),
        |i: int|
            if (i % 2 == 0) == little_endian {
                (u[i / 2] % 256) as u8
            } else {
                (u[i / 2] / 256) as u8
            },
    )
}

proof fn lemma_utf16_bytes_units(u: Seq<u16>, little_endian: bool)
    ensures
        utf16_bytes(u, little_endian).len() % 2 == 0,
        utf16_units(utf16_bytes(u, little_endian), little_endian) == u,
{
    let b = utf16_bytes(u, little_endian);
    let w = utf16_units(b, little_endian);
    assert forall|i: int| 0 <= i < u.len() implies #[trigger] w[i] == u[i] by {
        assert((2 * i) / 2 == i && (2 * i) % 2 == 0);
        assert((2 * i + 1) / 2 == i && (2 * i + 1) % 2 == 1);
        let x = u[i];
        assert(x == x % 256 + 256 * (x / 256));
    }
    assert(w =~= u);
}

proof fn lemma_utf16_decode_encode(s: Seq<char>)
    ensures
        utf16_decode(utf16_encode(s)) == Some(s),
    decreases s.len(),
{
    if s.len() > 0 {
        let c = s[0] as u32;
        let u = utf16_encode(s);
        let rest = utf16_encode(s.drop_first());
        lemma_utf16_decode_encode(s.drop_first());
        char_is_scalar(s[0]);
        if c < 0x10000 {
            assert(u.skip(1) =~= rest);
            assert(u[0] == c);
            char_u32_cast(s[0], c);
        } else {
            let v = c - 0x10000;
            assert(v == 0x400 * (v / 0x400) + v % 0x400);
            assert(u.skip(2) =~= rest);
            assert(u[0] == 0xd800 + v / 0x400);
            assert(u[1] == 0xdc00 + v % 0x400);
            assert(0x10000 + (u[0] - 0xd800) * 0x400 + (u[1] - 0xdc00) == c);
            char_u32_cast(s[0], c);
        }
        assert(seq![s[0]] + s.drop_first() =~= s);
    }
}

/// A text encoded as UTF-16 behind its byte order mark decodes back to
/// itself, in either byte order.
pub proof fn utf16_encoded_text_decodes_back(s: Seq<char>)
    ensures
        decoded_text(bom_utf16_le() + utf16_bytes(utf16_encode(s), true)) == Ok::<(Seq<char>, TextEncoding), ReadError>(
            (s, TextEncoding::Utf16Le),
        ),
        decoded_text(bom_utf16_be() + utf16_bytes(utf16_encode(s), false)) == Ok::<(Seq<char>, TextEncoding), ReadError>(
            (s, TextEncoding::Utf16Be),
        ),
{
    lemma_utf16_decode_encode(s);
    lemma_utf16_bytes_units(utf16_encode(s), true);
    lemma_utf16_bytes_units(utf16_encode(s), false);
    let le = bom_utf16_le() + utf16_bytes(utf16_encode(s), true);
    let be = bom_utf16_be() + utf16_bytes(utf16_encode(s), false);
    assert(le.take(2) =~= bom_utf16_le());
    assert(le.skip(2) =~= utf16_bytes(utf16_encode(s), true));
    assert(be.take(2) =~= bom_utf16_be());
    assert(be.skip(2) =~= utf16_bytes(utf16_encode(s), false));
    if le.len() >= 3 {
        assert(le.take(3)[0] == 0xffu8);
    }
    if be.len() >= 3 {
        assert(be.take(3)[0] == 0xfeu8);
        assert(be.take(2)[0] == 0xfeu8);
    }
}

// ---------------------------------------------------------------------------
// Newlines.

/// The text with CRLF and lone CR replaced by LF.
pub open spec fn normalized(s: Seq<char>) -> Seq<char>
    decreases s.len(),
{
    if s.len() == 0 {
        s
    } else if s[0] == '\r' {
        if s.len() > 1 && s[1] == '\n' {
            seq!['\n'] + normalized(s.skip(2))
        } else {
            seq!['\n'] + normalized(s.skip(1))
        }
    } else {
        seq![s[0]] + normalized(s.skip(1))
    }
}

proof fn lemma_normalized_plain(s: Seq<char>)
    requires
        !s.contains('\r'),
    ensures
        normalized(s) == s,
    decreases s.len(),
{
    if s.len() > 0 {
        let t = s.skip(1);
        assert(!t.contains('\r')) by {
            if t.contains('\r') {
                let m = choose|m: int| 0 <= m < t.len() && t[m] == '\r';
                assert(s[m + 1] == '\r');
            }
        }
        lemma_normalized_plain(t);
        assert(s[0] != '\r');
        assert(seq![s[0]] + t =~= s);
    }
}

/// Normalised text holds no carriage return: every CRLF and every lone CR
/// has become LF.
pub proof fn normalized_text_has_no_carriage_return(s: Seq<char>)
    ensures
        !normalized(s).contains('\r'),
    decreases s.len(),
{
    if s.len() > 0 {
        let rest = if s[0] == '\r' && s.len() > 1 && s[1] == '\n' {
            s.skip(2)
        } else {
            s.skip(1)
        };
        normalized_text_has_no_carriage_return(rest);
        let n = normalized(s);
        assert(!n.contains('\r')) by {
            if n.contains('\r') {
                let m = choose|m: int| 0 <= m < n.len() && n[m] == '\r';
                if m > 0 {
                    assert(normalized(rest)[m - 1] == '\r');
                }
            }
        }
    }
}

/// Normalising twice changes nothing more than normalising once.
pub proof fn normalizing_is_idempotent(s: Seq<char>)
    ensures
        normalized(normalized(s)) == normalized(s),
{
    normalized_text_has_no_carriage_return(s);
    lemma_normalized_plain(normalized(s));
}

/// Replaces CRLF and lone CR by LF. Text without CR is returned as it is.
pub fn normalize_newlines(text: String) -> (r: String)
    ensures
        r@ == normalized(text@),
{
    let chars = chars_of(text.as_str());
    let mut has_cr = false;
    let mut k: usize = 0;
    while k < chars.len()
        invariant
            k <= chars.len(),
            chars@ == text@,
            has_cr == chars@.take(k as int).contains('\r'),
        decreases chars.len() - k,
    {
        if chars[k] == '\r' {
            has_cr = true;
        }
        proof {
            let t = chars@.take(k + 1);
            assert(t[k as int] == chars@[k as int]);
            assert(t.contains('\r') <==> (chars@.take(k as int).contains('\r') || chars@[k as int] == '\r')) by {
                if t.contains('\r') {
                    let m = choose|m: int| 0 <= m < t.len() && t[m] == '\r';
                    if m < k {
                        assert(chars@.take(k as int)[m] == '\r');
                    }
                }
                if chars@.take(k as int).contains('\r') {
                    let m = choose|m: int| 0 <= m < k && chars@.take(k as int)[m] == '\r';
                    assert(t[m] == '\r');
                }
            }
        }
        k = k + 1;
    }
    assert(chars@.take(k as int) =~= chars@);
    if !has_cr {
        proof {
            lemma_normalized_plain(text@);
        }
        return text;
    }
    let mut out: Vec<char> = Vec::new();
    let mut i: usize = 0;
    assert(chars@.skip(0) =~= chars@);
    while i < chars.len()
        invariant
            i <= chars.len(),
            chars@ == text@,
            normalized(text@) == out@ + normalized(chars@.skip(i as int)),
        decreases chars.len() - i,
    {
        let ghost rest = chars@.skip(i as int);
        let ghost before = out@;
        assert(rest[0] == chars@[i as int]);
        if chars[i] == '\r' {
            out.push('\n');
            if i + 1 < chars.len() && chars[i + 1] == '\n' {
                assert(rest[1] == chars@[i + 1]);
                assert(rest.skip(2) =~= chars@.skip(i + 2));
                assert(before + (seq!['\n'] + normalized(rest.skip(2))) =~= out@ + normalized(chars@.skip(i + 2)));
                i = i + 2;
            } else {
                proof {
                    if i + 1 < chars.len() {
                        assert(rest[1] == chars@[i + 1]);
                    }
                }
                assert(rest.skip(1) =~= chars@.skip(i + 1));
                assert(before + (seq!['\n'] + normalized(rest.skip(1))) =~= out@ + normalized(chars@.skip(i + 1)));
                i = i + 1;
            }
        } else {
            out.push(chars[i]);
            assert(rest.skip(1) =~= chars@.skip(i + 1));
            assert(before + (seq![rest[0]] + normalized(rest.skip(1))) =~= out@ + normalized(chars@.skip(i + 1)));
            i = i + 1;
        }
    }
    assert(chars@.skip(i as int) =~= Seq::<char>::empty());
    assert(out@ + Seq::<char>::empty() =~= out@);
    string_of(out.as_slice())
}

/// What reading `relative` gives for the file's bytes: `TooLarge` above the
/// limit, the decoded text with normalised newlines otherwise.
pub open spec fn read_outcome(relative: Seq<char>, bytes: Seq<u8>) -> Result<(Seq<char>, Seq<char>, TextEncoding, u32), ReadError> {
    if bytes.len() > MAX_MARKDOWN_BYTES {
        Err(ReadError::TooLarge)
    } else {
        match decoded_text(bytes) {
            Ok((s, e)) => Ok((relative, normalized(s), e, bytes.len() as u32)),
            Err(e) => Err(e),
        }
    }
}

/// Turns a file's bytes into its content.
///
/// `relative` is the requested workspace-relative path, returned as it is so
/// that no native path reaches the front end; `bytes` are the file's bytes,
/// read up to one byte past the limit. `byte_size` counts the file's bytes,
/// byte order mark included, before newline normalisation.
pub fn read_file(relative: &str, bytes: &[u8]) -> (r: Result<FileContent, ReadError>)
    ensures
        match r {
            Ok(c) => read_outcome(relative@, bytes@) == Ok::<(Seq<char>, Seq<char>, TextEncoding, u32), ReadError>(
                (c.path@, c.text@, c.encoding, c.byte_size),
            ),
            Err(e) => read_outcome(relative@, bytes@) == Err::<(Seq<char>, Seq<char>, TextEncoding, u32), ReadError>(e),
        },
{
    if bytes.len() > MAX_MARKDOWN_BYTES as usize {
        return Err(ReadError::TooLarge);
    }
    let byte_size = bytes.len() as u32;
    let (text, encoding) = match decode(bytes) {
        Ok(d) => d,
        Err(e) => {
            return Err(e);
        },
    };
    Ok(FileContent { path: relative.to_owned(), text: normalize_newlines(text), encoding, byte_size })
}

} // verus!
