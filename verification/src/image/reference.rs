//! Resolution of an image reference written in a Markdown document to a
//! workspace-relative path.
//!
//! Only relative images inside the workspace resolve. Remote images, `data:`
//! images, UNC and device paths, and anything outside the workspace are
//! refused. The rules follow link resolution: segment-wise percent decoding,
//! root-relative references (`/docs/a.png`), `.` and `..`, and dropping the
//! query and fragment.

use vstd::prelude::*;
use vstd::utf8::{decode_utf8, encode_utf8, valid_utf8};
use crate::path_guard::{
    PathRejection, contains_char, join_names, join_with, relative_path_segments, segment_is_valid,
    split_chars, split_on, valid_segment, validate_relative_path, string_views, lemma_split_on_len,
};
use crate::text::{ascii_lower_seq, ascii_lower_char, chars_of, string_from_utf8};

verus! {

/// The pieces of a split hold no separator, and only characters of the text.
proof fn lemma_split_on_pieces(s: Seq<char>, sep: char)
    ensures
        forall|k: int| 0 <= k < split_on(s, sep).len() ==> !(#[trigger] split_on(s, sep)[k]).contains(sep),
        forall|k: int, c: char| 0 <= k < split_on(s, sep).len() && #[trigger] split_on(s, sep)[k].contains(c) ==> s.contains(c),
    decreases s.len(),
{
    lemma_split_on_len(s, sep);
    if s.len() > 0 {
        let prev = s.drop_last();
        lemma_split_on_pieces(prev, sep);
        lemma_split_on_len(prev, sep);
        let ps = split_on(prev, sep);
        let cur = split_on(s, sep);
        assert forall|x: char| prev.contains(x) implies s.contains(x) by {
            let m = choose|m: int| 0 <= m < prev.len() && prev[m] == x;
            assert(s[m] == x);
        }
        assert(s[s.len() - 1] == s.last());
        assert forall|k: int| 0 <= k < cur.len() implies !(#[trigger] cur[k]).contains(sep) && (forall|c: char|
            cur[k].contains(c) ==> s.contains(c)) by {
            if s.last() == sep {
                if k < ps.len() {
                    assert(cur[k] == ps[k]);
                } else {
                    assert(cur[k] =~= Seq::<char>::empty());
                }
            } else if k < ps.len() - 1 {
                assert(cur[k] == ps[k]);
            } else {
                let piece = ps.last().push(s.last());
                assert(cur[k] == piece);
                assert(ps[ps.len() - 1] == ps.last());
                assert forall|c: char| piece.contains(c) implies s.contains(c) && c != sep by {
                    let m = choose|m: int| 0 <= m < piece.len() && piece[m] == c;
                    if m < ps.last().len() {
                        assert(ps.last()[m] == c);
                        assert(ps[ps.len() - 1].contains(c));
                        assert(!ps[ps.len() - 1].contains(sep));
                        assert(prev.contains(c));
                    } else {
                        assert(c == s.last());
                    }
                }
            }
        }
    }
}

/// Appending text without separators extends the last piece.
proof fn lemma_split_on_append(x: Seq<char>, l: Seq<char>, sep: char)
    requires
        !l.contains(sep),
    ensures
        split_on(x + l, sep) == split_on(x, sep).update(split_on(x, sep).len() - 1, split_on(x, sep).last() + l),
    decreases l.len(),
{
    lemma_split_on_len(x, sep);
    if l.len() == 0 {
        assert(x + l =~= x);
        assert(split_on(x, sep).last() + l =~= split_on(x, sep).last());
        assert(split_on(x, sep).update(split_on(x, sep).len() - 1, split_on(x, sep).last()) =~= split_on(x, sep));
    } else {
        let l0 = l.drop_last();
        assert(!l0.contains(sep)) by {
            if l0.contains(sep) {
                let m = choose|m: int| 0 <= m < l0.len() && l0[m] == sep;
                assert(l[m] == sep);
            }
        }
        lemma_split_on_append(x, l0, sep);
        assert((x + l).drop_last() =~= x + l0);
        assert((x + l).last() == l.last());
        assert(l[l.len() - 1] == l.last());
        assert(l.last() != sep);
        let px = split_on(x, sep);
        lemma_split_on_len(x + l0, sep);
        assert((px.last() + l0).push(l.last()) =~= px.last() + l);
        assert(split_on(x + l, sep) =~= px.update(px.len() - 1, px.last() + l));
    }
}

/// Splitting joined names gives the names back.
proof fn lemma_split_join(segs: Seq<Seq<char>>, sep: char)
    requires
        segs.len() >= 1,
        forall|k: int| 0 <= k < segs.len() ==> !(#[trigger] segs[k]).contains(sep),
    ensures
        split_on(join_with(segs, sep), sep) == segs,
    decreases segs.len(),
{
    if segs.len() == 1 {
        lemma_split_on_append(Seq::empty(), segs[0], sep);
        assert(Seq::<char>::empty() + segs[0] =~= segs[0]);
        assert(seq![Seq::<char>::empty()].update(0, Seq::<char>::empty() + segs[0]) =~= segs);
    } else {
        let prev = segs.drop_last();
        lemma_split_join(prev, sep);
        let x = join_with(prev, sep).push(sep);
        assert(segs[segs.len() - 1] == segs.last());
        lemma_split_on_append(x, segs.last(), sep);
        assert(x.drop_last() =~= join_with(prev, sep));
        assert(split_on(x, sep) =~= prev.push(Seq::empty()));
        assert(Seq::<char>::empty() + segs.last() =~= segs.last());
        assert(prev.push(Seq::empty()).update(prev.len() as int, segs.last()) =~= segs);
    }
}

/// A character of joined names is the separator or a character of a name.
proof fn lemma_join_chars(segs: Seq<Seq<char>>, sep: char, c: char)
    requires
        join_with(segs, sep).contains(c),
        c != sep,
    ensures
        exists|k: int| 0 <= k < segs.len() && (#[trigger] segs[k]).contains(c),
    decreases segs.len(),
{
    let j = join_with(segs, sep);
    let m = choose|m: int| 0 <= m < j.len() && j[m] == c;
    if segs.len() == 1 {
        assert(segs[0].contains(c));
    } else if segs.len() > 1 {
        let prev = segs.drop_last();
        let head = join_with(prev, sep).push(sep);
        if m < head.len() {
            assert(head[m] == c);
            assert(m < join_with(prev, sep).len());
            assert(join_with(prev, sep)[m] == c);
            lemma_join_chars(prev, sep, c);
            let k = choose|k: int| 0 <= k < prev.len() && (#[trigger] prev[k]).contains(c);
            assert(segs[k] == prev[k]);
        } else {
            assert(segs.last()[m - head.len()] == c);
            assert(segs[segs.len() - 1] == segs.last());
            assert(segs[segs.len() - 1].contains(c));
        }
    }
}

/// Segments the resolution keeps: valid names holding no separator.
pub open spec fn clean_segments(segs: Seq<Seq<char>>) -> bool {
    forall|k: int| 0 <= k < segs.len() ==> valid_segment(#[trigger] segs[k]) && !segs[k].contains('/') && !segs[k].contains(
        '\\',
    )
}

proof fn lemma_resolve_pieces_clean(start: Seq<Seq<char>>, pieces: Seq<Seq<char>>)
    requires
        clean_segments(start),
    ensures
        resolve_pieces(start, pieces) matches Ok(segs) ==> clean_segments(segs),
    decreases pieces.len(),
{
    if pieces.len() > 0 {
        lemma_resolve_pieces_clean(start, pieces.drop_last());
        match resolve_pieces(start, pieces.drop_last()) {
            Ok(segs) => {
                if segs.len() > 0 {
                    assert forall|k: int| 0 <= k < segs.drop_last().len() implies valid_segment(#[trigger] segs.drop_last()[k])
                        && !segs.drop_last()[k].contains('/') && !segs.drop_last()[k].contains('\\') by {
                        assert(segs.drop_last()[k] == segs[k]);
                    }
                }
                match decoded_segment(pieces.last()) {
                    Some(d) => {
                        assert forall|k: int| 0 <= k < segs.push(d).len() && k < segs.len() implies
                            #[trigger] segs.push(d)[k] == segs[k] by {}
                    },
                    None => {},
                }
            },
            Err(_) => {},
        }
    }
}

/// An image reference resolves only to a path that is itself a valid,
/// non-empty workspace-relative path: whatever the document path and the
/// reference, a resolved path passes `validate_relative_path`.
pub proof fn resolved_references_are_workspace_relative(document: Seq<char>, reference: Seq<char>)
    ensures
        resolved_reference(document, reference) matches Ok(p) ==> p.len() > 0 && relative_path_segments(p) is Ok,
{
    if let Ok(p) = resolved_reference(document, reference) {
        let doc = relative_path_segments(document)->Ok_0;
        lemma_split_on_pieces(document, '/');
        assert(!document.contains('\\'));
        assert(clean_segments(document_directory(doc))) by {
            let dd = document_directory(doc);
            assert forall|k: int| 0 <= k < dd.len() implies valid_segment(#[trigger] dd[k]) && !dd[k].contains('/')
                && !dd[k].contains('\\') by {
                assert(dd[k] == doc[k]);
                assert(valid_segment(doc[k]));
                if doc[k].contains('\\') {
                    assert(document.contains('\\'));
                }
            }
        }
        assert(clean_segments(Seq::<Seq<char>>::empty()));
        let path = without_query_and_fragment(reference);
        let start = if path[0] == '/' { Seq::<Seq<char>>::empty() } else { document_directory(doc) };
        lemma_resolve_pieces_clean(start, split_on(path, '/'));
        let segs = resolve_pieces(start, split_on(path, '/'))->Ok_0;
        assert(p == join_with(segs, '/'));
        lemma_split_join(segs, '/');
        assert(!p.contains('\\')) by {
            if p.contains('\\') {
                lemma_join_chars(segs, '/', '\\');
            }
        }
        assert(p.len() > 0) by {
            if p.len() == 0 {
                assert(!p.contains('/'));
                assert(segs[0].len() > 0);
                assert(segs[0].contains(segs[0][0]));
                lemma_join_nonempty(segs, '/');
            }
        }
    }
}

/// Joining names of which the first is not empty gives a non-empty text.
proof fn lemma_join_nonempty(segs: Seq<Seq<char>>, sep: char)
    requires
        segs.len() >= 1,
        segs[0].len() > 0,
    ensures
        join_with(segs, sep).len() > 0,
    decreases segs.len(),
{
    if segs.len() > 1 {
        lemma_join_nonempty(segs.drop_last(), sep);
    }
}

/// Whether `s` begins with `prefix`.
pub open spec fn starts_with(s: Seq<char>, prefix: Seq<char>) -> bool {
    prefix.len() <= s.len() && s.take(prefix.len() as int) == prefix
}

/// Whether a reference points at a source outside the workspace: `http:`,
/// `https:` (in any case), or a scheme-relative `//host` form.
pub open spec fn is_remote(reference: Seq<char>) -> bool {
    let l = ascii_lower_seq(reference);
    starts_with(l, seq!['/', '/']) || starts_with(l, seq!['h', 't', 't', 'p', ':', '/', '/'])
        || starts_with(l, seq!['h', 't', 't', 'p', 's', ':', '/', '/'])
}

/// The reference without its fragment (after `#`) and query (after `?`).
pub open spec fn without_query_and_fragment(reference: Seq<char>) -> Seq<char> {
    split_on(split_on(reference, '#')[0], '?')[0]
}

/// Whether a byte is an ASCII hexadecimal digit.
pub open spec fn is_hex_byte(b: u8) -> bool {
    (0x30 <= b && b <= 0x39) || (0x41 <= b && b <= 0x46) || (0x61 <= b && b <= 0x66)
}

/// The value of an ASCII hexadecimal digit.
pub open spec fn hex_value(b: u8) -> int {
    if b <= 0x39 {
        b - 0x30
    } else if b <= 0x46 {
        b - 0x41 + 10
    } else {
        b - 0x61 + 10
    }
}

/// Percent-decodes bytes once; `None` when a `%` is not followed by two
/// hexadecimal digits.
pub open spec fn percent_decoded(b: Seq<u8>) -> Option<Seq<u8>>
    decreases b.len(),
{
    if b.len() == 0 {
        Some(Seq::empty())
    } else if b[0] == 0x25 {
        if b.len() >= 3 && is_hex_byte(b[1]) && is_hex_byte(b[2]) {
            match percent_decoded(b.skip(3)) {
                Some(rest) => Some(seq![(hex_value(b[1]) * 16 + hex_value(b[2])) as u8] + rest),
                None => None,
            }
        } else {
            None
        }
    } else {
        match percent_decoded(b.skip(1)) {
            Some(rest) => Some(seq![b[0]] + rest),
            None => None,
        }
    }
}

/// A segment percent-decoded once; `None` when the encoding is malformed or
/// the decoded bytes are not UTF-8.
pub open spec fn decoded_segment(segment: Seq<char>) -> Option<Seq<char>> {
    match percent_decoded(encode_utf8(segment)) {
        Some(d) => if valid_utf8(d) {
            Some(decode_utf8(d))
        } else {
            None
        },
        None => None,
    }
}

/// One step of resolution: the segments so far, after one piece of the
/// reference between `/` separators.
pub open spec fn resolve_piece(acc: Result<Seq<Seq<char>>, PathRejection>, piece: Seq<char>) -> Result<
    Seq<Seq<char>>,
    PathRejection,
> {
    match acc {
        Err(e) => Err(e),
        Ok(segs) => if piece.len() == 0 {
            Ok(segs)
        } else {
            match decoded_segment(piece) {
                None => Err(PathRejection::Malformed),
                Some(d) => if d == seq!['.'] {
                    Ok(segs)
                } else if d == seq!['.', '.'] {
                    if segs.len() == 0 {
                        Err(PathRejection::Outside)
                    } else {
                        Ok(segs.drop_last())
                    }
                } else if d.contains('/') || d.contains('\\') || !valid_segment(d) {
                    Err(PathRejection::Malformed)
                } else {
                    Ok(segs.push(d))
                },
            }
        },
    }
}

/// Resolution of all pieces, starting from `start`.
pub open spec fn resolve_pieces(start: Seq<Seq<char>>, pieces: Seq<Seq<char>>) -> Result<Seq<Seq<char>>, PathRejection>
    decreases pieces.len(),
{
    if pieces.len() == 0 {
        Ok(start)
    } else {
        resolve_piece(resolve_pieces(start, pieces.drop_last()), pieces.last())
    }
}

/// The directory segments of the document: all but its last segment.
pub open spec fn document_directory(doc: Seq<Seq<char>>) -> Seq<Seq<char>> {
    if doc.len() == 0 {
        doc
    } else {
        doc.drop_last()
    }
}

/// The workspace-relative path an image reference in the document at
/// `document` resolves to, or why it does not.
pub open spec fn resolved_reference(document: Seq<char>, reference: Seq<char>) -> Result<Seq<char>, PathRejection> {
    if is_remote(reference) {
        Err(PathRejection::Malformed)
    } else {
        match relative_path_segments(document) {
            Err(e) => Err(e),
            Ok(doc) => {
                let path = without_query_and_fragment(reference);
                if path.len() == 0 {
                    Err(PathRejection::Malformed)
                } else {
                    let start = if path[0] == '/' {
                        Seq::empty()
                    } else {
                        document_directory(doc)
                    };
                    match resolve_pieces(start, split_on(path, '/')) {
                        Err(e) => Err(e),
                        Ok(segs) => if segs.len() == 0 {
                            Err(PathRejection::Malformed)
                        } else {
                            Ok(join_with(segs, '/'))
                        },
                    }
                }
            },
        }
    }
}

/// Whether `v` begins with the characters of `prefix`.
fn starts_with_chars(v: &Vec<char>, prefix: &[char]) -> (r: bool)
    ensures
        r == starts_with(v@, prefix@),
{
    if prefix.len() > v.len() {
        return false;
    }
    let mut k: usize = 0;
    while k < prefix.len()
        invariant
            prefix.len() <= v.len(),
            k <= prefix.len(),
            forall|m: int| 0 <= m < k ==> v@[m] == prefix@[m],
        decreases prefix.len() - k,
    {
        if v[k] != prefix[k] {
            assert(v@.take(prefix.len() as int)[k as int] != prefix@[k as int]);
            return false;
        }
        k = k + 1;
    }
    assert(v@.take(prefix.len() as int) =~= prefix@);
    true
}

/// Whether the reference points outside the workspace.
fn reference_is_remote(reference: &str) -> (r: bool)
    ensures
        r == is_remote(reference@),
{
    let chars = chars_of(reference);
    let mut lower: Vec<char> = Vec::new();
    let mut k: usize = 0;
    while k < chars.len()
        invariant
            k <= chars.len(),
            chars@ == reference@,
            lower@ == ascii_lower_seq(chars@.take(k as int)),
        decreases chars.len() - k,
    {
        lower.push(ascii_lower_char(chars[k]));
        assert(ascii_lower_seq(chars@.take(k + 1)) =~= ascii_lower_seq(chars@.take(k as int)).push(
            crate::text::ascii_lower(chars@[k as int]),
        ));
        k = k + 1;
    }
    assert(chars@.take(k as int) =~= chars@);
    starts_with_chars(&lower, &['/', '/']) || starts_with_chars(&lower, &['h', 't', 't', 'p', ':', '/', '/'])
        || starts_with_chars(&lower, &['h', 't', 't', 'p', 's', ':', '/', '/'])
}

/// The byte that writes the hexadecimal digit `n` (below 16), with letters
/// in upper case (`upper`) or lower case.
pub open spec fn written_digit(n: u8, upper: bool) -> u8 {
    if n < 10 {
        (0x30 + n) as u8
    } else if upper {
        (0x41 + n - 10) as u8
    } else {
        (0x61 + n - 10) as u8
    }
}

/// An escape `%` followed by the two hexadecimal digits of a byte, written
/// in upper or in lower case, decodes to that byte, and decoding goes on
/// after it.
pub proof fn an_escape_decodes_to_the_byte_it_writes(v: u8, upper: bool, rest: Seq<u8>)
    ensures
        percent_decoded(seq![0x25u8, written_digit(v / 16, upper), written_digit(v % 16, upper)] + rest) == match percent_decoded(rest) {
            Some(t) => Some(seq![v] + t),
            None => None::<Seq<u8>>,
        },
{
    let b = seq![0x25u8, written_digit(v / 16, upper), written_digit(v % 16, upper)] + rest;
    assert(b[0] == 0x25u8 && b[1] == written_digit(v / 16, upper) && b[2] == written_digit(v % 16, upper));
    assert(b.skip(3) =~= rest);
    assert(v == (v / 16) * 16 + v % 16);
}

/// The UTF-8 encoding of an ASCII character is its code.
proof fn lemma_ascii_code(c: u32)
    by (bit_vector)
    requires
        c <= 0x7f,
    ensures
        (c & 0x7F) as u8 == c,
{
}

/// The encoding of three ASCII characters in front of a text.
proof fn lemma_encode_ascii_three(x: char, y: char, z: char, rest: Seq<char>)
    requires
        x as u32 <= 0x7f,
        y as u32 <= 0x7f,
        z as u32 <= 0x7f,
    ensures
        encode_utf8(seq![x, y, z] + rest) == seq![x as u32 as u8, y as u32 as u8, z as u32 as u8] + encode_utf8(rest),
{
    lemma_ascii_code(x as u32);
    lemma_ascii_code(y as u32);
    lemma_ascii_code(z as u32);
    let s = seq![x, y, z] + rest;
    assert(s.drop_first() =~= seq![y, z] + rest);
    assert(s.drop_first().drop_first() =~= seq![z] + rest);
    assert(s.drop_first().drop_first().drop_first() =~= rest);
    assert(encode_utf8(s.drop_first().drop_first()) =~= seq![z as u32 as u8] + encode_utf8(rest));
    assert(encode_utf8(s.drop_first()) =~= seq![y as u32 as u8, z as u32 as u8] + encode_utf8(rest));
    assert(encode_utf8(s) =~= seq![x as u32 as u8, y as u32 as u8, z as u32 as u8] + encode_utf8(rest));
}

/// Whether `lower` is the same hexadecimal digit as `upper` (a digit
/// `0`-`9` or a letter `A`-`F`), written in lower or in upper case.
pub open spec fn same_digit_any_case(upper: char, lower: char) -> bool {
    ||| ('0' <= upper && upper <= '9' && lower == upper)
    ||| ('A' <= upper && upper <= 'F' && (lower == upper || lower as u32 == upper as u32 + 32))
}

/// Percent-decoding ignores the case of the hexadecimal digits of an
/// escape: `%e5` decodes as `%E5` does, whatever follows.
pub proof fn escapes_ignore_the_case_of_their_digits(a: char, b: char, a2: char, b2: char, rest: Seq<char>)
    requires
        same_digit_any_case(a, a2),
        same_digit_any_case(b, b2),
    ensures
        decoded_segment(seq!['%', a2, b2] + rest) == decoded_segment(seq!['%', a, b] + rest),
{
    lemma_encode_ascii_three('%', a, b, rest);
    lemma_encode_ascii_three('%', a2, b2, rest);
    let x = a as u32 as u8;
    let y = b as u32 as u8;
    let x2 = a2 as u32 as u8;
    let y2 = b2 as u32 as u8;
    let v = (if x <= 0x39 { x - 0x30 } else { x - 0x41 + 10 }) as u8;
    let w = (if y <= 0x39 { y - 0x30 } else { y - 0x41 + 10 }) as u8;
    assert(x == written_digit(v, true));
    assert(y == written_digit(w, true));
    assert(x2 == written_digit(v, true) || x2 == written_digit(v, false));
    assert(y2 == written_digit(w, true) || y2 == written_digit(w, false));
    let byte = (v * 16 + w) as u8;
    assert(byte / 16 == v && byte % 16 == w);
    let e = encode_utf8(rest);
    an_escape_decodes_to_the_byte_it_writes(byte, true, e);
    an_escape_decodes_to_the_byte_it_writes(byte, false, e);
    assert(seq![0x25u8, x, y] + e == seq![0x25u8, written_digit(byte / 16, true), written_digit(byte % 16, true)] + e);
    if x2 == written_digit(v, true) && y2 == written_digit(w, true) {
        assert(seq![0x25u8, x2, y2] + e == seq![0x25u8, x, y] + e);
    } else {
        assert(percent_decoded(seq![0x25u8, x2, y2] + e) == percent_decoded(seq![0x25u8, x, y] + e)) by {
            let d = seq![0x25u8, x2, y2] + e;
            assert(d[0] == 0x25u8 && d[1] == x2 && d[2] == y2);
            assert(d.skip(3) =~= e);
        }
    }
}

/// `percent_decoded` after the first `i` bytes were decoded into `out`.
pub open spec fn decoded_after(out: Seq<u8>, rest: Option<Seq<u8>>) -> Option<Seq<u8>> {
    match rest {
        Some(r) => Some(out + r),
        None => None,
    }
}

/// The value of a hexadecimal digit byte.
fn hex_digit_value(b: u8) -> (r: u8)
    requires
        is_hex_byte(b),
    ensures
        r == hex_value(b),
        r < 16,
{
    if b <= 0x39 {
        b - 0x30
    } else if b <= 0x46 {
        b - 0x41 + 10
    } else {
        b - 0x61 + 10
    }
}

fn is_hex(b: u8) -> (r: bool)
    ensures
        r == is_hex_byte(b),
{
    (0x30 <= b && b <= 0x39) || (0x41 <= b && b <= 0x46) || (0x61 <= b && b <= 0x66)
}

/// Percent-decodes a segment once.
///
/// Decoding happens after the reference was split into segments, so an
/// encoded separator (`%2F`, `%5C`) never becomes a separator. Input whose
/// decoding is not UTF-8 is refused.
pub fn decode_segment(segment: &str) -> (r: Option<String>)
    ensures
        match r {
            Some(s) => decoded_segment(segment@) == Some(s@),
            None => decoded_segment(segment@) is None,
        },
{
    let bytes = segment.as_bytes();
    let ghost b = bytes@;
    let mut decoded: Vec<u8> = Vec::new();
    let mut index: usize = 0;
    assert(b.skip(0) =~= b);
    while index < bytes.len()
        invariant
            b == bytes@,
            b == encode_utf8(segment@),
            index <= bytes.len(),
            percent_decoded(b) == decoded_after(decoded@, percent_decoded(b.skip(index as int))),
        decreases bytes.len() - index,
    {
        let ghost rest = b.skip(index as int);
        if bytes[index] == 0x25 {
            if bytes.len() - index >= 3 && is_hex(bytes[index + 1]) && is_hex(bytes[index + 2]) {
                let v: u8 = hex_digit_value(bytes[index + 1]) * 16 + hex_digit_value(bytes[index + 2]);
                proof {
                    assert(rest[0] == 0x25 && rest[1] == bytes@[index + 1] && rest[2] == bytes@[index + 2]);
                    assert(rest.skip(3) =~= b.skip(index + 3));
                    assert(decoded@.push(v) =~= decoded@ + seq![v]);
                    match percent_decoded(b.skip(index + 3)) {
                        Some(t) => {
                            assert(decoded@ + (seq![v] + t) =~= decoded@.push(v) + t);
                        },
                        None => {},
                    }
                }
                decoded.push(v);
                index = index + 3;
            } else {
                proof {
                    assert(rest[0] == 0x25);
                    if index + 3 <= bytes.len() {
                        assert(rest[1] == bytes@[index + 1] && rest[2] == bytes@[index + 2]);
                    }
                }
                return None;
            }
        } else {
            let c = bytes[index];
            proof {
                assert(rest[0] == c);
                assert(rest.skip(1) =~= b.skip(index + 1));
                match percent_decoded(b.skip(index + 1)) {
                    Some(t) => {
                        assert(decoded@ + (seq![c] + t) =~= decoded@.push(c) + t);
                    },
                    None => {},
                }
            }
            decoded.push(c);
            index = index + 1;
        }
    }
    assert(b.skip(index as int) =~= Seq::<u8>::empty());
    assert(decoded@ + Seq::<u8>::empty() =~= decoded@);
    string_from_utf8(decoded)
}

/// Once a step fails, resolution fails with the same reason.
proof fn lemma_resolve_pieces_err(start: Seq<Seq<char>>, pieces: Seq<Seq<char>>, k: int, e: PathRejection)
    requires
        0 <= k <= pieces.len(),
        resolve_pieces(start, pieces.take(k)) == Err::<Seq<Seq<char>>, PathRejection>(e),
    ensures
        resolve_pieces(start, pieces) == Err::<Seq<Seq<char>>, PathRejection>(e),
    decreases pieces.len() - k,
{
    if k < pieces.len() {
        assert(pieces.take(k + 1).drop_last() =~= pieces.take(k));
        lemma_resolve_pieces_err(start, pieces, k + 1, e);
    } else {
        assert(pieces.take(k) =~= pieces);
    }
}

/// Resolves an image reference to a workspace-relative path.
///
/// `document_path` is the workspace-relative path of the document holding
/// the reference; relative references are resolved against its directory,
/// root-relative ones (`/…`) against the workspace root. The result uses `/`
/// as separator and always passes `validate_relative_path`; existence and
/// the boundary are checked afterwards against the file system.
pub fn resolve(document_path: &str, reference: &str) -> (r: Result<String, PathRejection>)
    ensures
        match r {
            Ok(s) => resolved_reference(document_path@, reference@) == Ok::<Seq<char>, PathRejection>(s@),
            Err(e) => resolved_reference(document_path@, reference@) == Err::<Seq<char>, PathRejection>(e),
        },
{
    if reference_is_remote(reference) {
        return Err(PathRejection::Malformed);
    }
    let validated = validate_relative_path(document_path);
    let document_segments = match validated {
        Ok(v) => v,
        Err(e) => {
            return Err(e);
        },
    };
    let ghost doc = string_views(document_segments@);
    assert(relative_path_segments(document_path@) == Ok::<Seq<Seq<char>>, PathRejection>(doc));
    let reference_chars = chars_of(reference);
    let by_hash = split_chars(&reference_chars, '#');
    proof {
        lemma_split_on_len(reference@, '#');
    }
    let by_query = split_chars(&by_hash[0], '?');
    proof {
        lemma_split_on_len(by_hash@[0]@, '?');
    }
    let path = &by_query[0];
    let ghost p = without_query_and_fragment(reference@);
    assert(reference_chars@ == reference@);
    assert(by_hash@[0]@ == split_on(reference@, '#')[0]);
    assert(path@ == by_query@[0]@);
    assert(path@ == p);
    if path.len() == 0 {
        assert(resolved_reference(document_path@, reference@) == Err::<Seq<char>, PathRejection>(PathRejection::Malformed));
        return Err(PathRejection::Malformed);
    }
    let mut segments: Vec<Vec<char>> = Vec::new();
    if path[0] != '/' && document_segments.len() > 0 {
        let mut k: usize = 0;
        while k + 1 < document_segments.len()
            invariant
                k + 1 <= document_segments.len(),
                doc == string_views(document_segments@),
                segments@.map_values(|x: Vec<char>| x@) == doc.take(k as int),
            decreases document_segments.len() - k,
        {
            let name = chars_of(document_segments[k].as_str());
            assert(name@ == doc[k as int]);
            let ghost before = segments@.map_values(|x: Vec<char>| x@);
            segments.push(name);
            assert(segments@.map_values(|x: Vec<char>| x@) =~= before.push(doc[k as int]));
            assert(doc.take(k + 1) =~= doc.take(k as int).push(doc[k as int]));
            k = k + 1;
        }
        assert(doc.take(k as int) =~= document_directory(doc));
    } else {
        assert(segments@.map_values(|x: Vec<char>| x@) =~= Seq::<Seq<char>>::empty());
    }
    let ghost start = segments@.map_values(|x: Vec<char>| x@);
    assert(start == (if p[0] == '/' { Seq::<Seq<char>>::empty() } else { document_directory(doc) }));
    let pieces = split_chars(path, '/');
    let ghost ps = split_on(p, '/');
    let mut i: usize = 0;
    assert(ps.take(0) =~= Seq::<Seq<char>>::empty());
    while i < pieces.len()
        invariant
            i <= pieces.len(),
            pieces@.map_values(|x: Vec<char>| x@) == ps,
            ps == split_on(p, '/'),
            p == without_query_and_fragment(reference@),
            p.len() > 0,
            !is_remote(reference@),
            relative_path_segments(document_path@) == Ok::<Seq<Seq<char>>, PathRejection>(doc),
            start == (if p[0] == '/' { Seq::<Seq<char>>::empty() } else { document_directory(doc) }),
            resolve_pieces(start, ps.take(i as int)) == Ok::<Seq<Seq<char>>, PathRejection>(
                segments@.map_values(|x: Vec<char>| x@),
            ),
        decreases pieces.len() - i,
    {
        let ghost before = segments@.map_values(|x: Vec<char>| x@);
        let piece = &pieces[i];
        proof {
            assert(ps.take(i + 1).drop_last() =~= ps.take(i as int));
            assert(ps.take(i + 1).last() == piece@);
        }
        if piece.len() > 0 {
            let text = crate::text::string_of(piece.as_slice());
            assert(text@ == piece@);
            let decoded = match decode_segment(text.as_str()) {
                Some(d) => d,
                None => {
                    proof {
                        assert(decoded_segment(piece@) is None);
                        assert(resolve_pieces(start, ps.take(i + 1)) == resolve_piece(
                            resolve_pieces(start, ps.take(i as int)),
                            piece@,
                        ));
                        lemma_resolve_pieces_err(start, ps, i + 1, PathRejection::Malformed);
                    }
                    return Err(PathRejection::Malformed);
                },
            };
            let d = chars_of(decoded.as_str());
            let is_dot = d.len() == 1 && d[0] == '.';
            let is_dot_dot = d.len() == 2 && d[0] == '.' && d[1] == '.';
            proof {
                if is_dot {
                    assert(d@ =~= seq!['.']);
                } else {
                    assert(d@ != seq!['.']) by {
                        if d@ == seq!['.'] {
                            assert(d@[0] == '.');
                        }
                    }
                }
                if is_dot_dot {
                    assert(d@ =~= seq!['.', '.']);
                } else {
                    assert(d@ != seq!['.', '.']) by {
                        if d@ == seq!['.', '.'] {
                            assert(d@[0] == '.' && d@[1] == '.');
                        }
                    }
                }
            }
            if is_dot {
            } else if is_dot_dot {
                if segments.len() == 0 {
                    proof {
                        lemma_resolve_pieces_err(start, ps, i + 1, PathRejection::Outside);
                    }
                    return Err(PathRejection::Outside);
                }
                segments.pop();
                assert(segments@.map_values(|x: Vec<char>| x@) =~= before.drop_last());
            } else if contains_char(&d, '/') || contains_char(&d, '\\') || !segment_is_valid(&d) {
                proof {
                    lemma_resolve_pieces_err(start, ps, i + 1, PathRejection::Malformed);
                }
                return Err(PathRejection::Malformed);
            } else {
                segments.push(d);
                assert(segments@.map_values(|x: Vec<char>| x@) =~= before.push(decoded@));
            }
        }
        i = i + 1;
    }
    assert(ps.take(i as int) =~= ps);
    if segments.len() == 0 {
        return Err(PathRejection::Malformed);
    }
    Ok(join_names(&segments))
}

} // verus!
