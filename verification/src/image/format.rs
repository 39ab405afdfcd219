//! Image format detection and the processing limits.
//!
//! The format is decided by the content, never by the file extension, so the
//! `Content-Type` always matches what is served. Raster formats and their
//! declared dimensions come from `imagesize`, which reads headers only and
//! never decodes the image. SVG is recognised here by its root element.

use vstd::prelude::*;
use crate::ipc::error::ErrorCode;
use crate::text::{chars_of, same_chars};
use crate::limits::{MAX_IMAGE_BYTES, MAX_IMAGE_EDGE_PIXELS, MAX_IMAGE_TOTAL_PIXELS};

verus! {

/// The image formats allowed for display.
#[derive(Debug, Clone, Copy, PartialEq, Eq, Structural)]
pub enum ImageFormat {
    Png,
    Jpeg,
    Gif,
    Webp,
    Avif,
    Bmp,
    /// A local SVG, only ever used as an image resource.
    Svg,
}

/// The `Content-Type` of each format.
pub open spec fn content_type_of(f: ImageFormat) -> Seq<char> {
    match f {
        ImageFormat::Png => "image/png"@,
        ImageFormat::Jpeg => "image/jpeg"@,
        ImageFormat::Gif => "image/gif"@,
        ImageFormat::Webp => "image/webp"@,
        ImageFormat::Avif => "image/avif"@,
        ImageFormat::Bmp => "image/bmp"@,
        ImageFormat::Svg => "image/svg+xml"@,
    }
}

impl ImageFormat {
    /// The `Content-Type` served for the format, taken from the detected
    /// format rather than the file name.
    pub fn content_type(self) -> (r: &'static str)
        ensures
            r@ == content_type_of(self),
    {
        match self {
            ImageFormat::Png => "image/png",
            ImageFormat::Jpeg => "image/jpeg",
            ImageFormat::Gif => "image/gif",
            ImageFormat::Webp => "image/webp",
            ImageFormat::Avif => "image/avif",
            ImageFormat::Bmp => "image/bmp",
            ImageFormat::Svg => "image/svg+xml",
        }
    }
}

/// Why an image is not accepted.
#[derive(Debug, Clone, Copy, PartialEq, Eq, Structural)]
pub enum ImageRejection {
    /// Not one of the allowed formats.
    UnsupportedFormat,
    /// Larger than the per-image byte limit.
    TooLarge,
    /// The pixel dimensions exceed the limits.
    PixelLimitExceeded,
    /// An allowed format whose header does not give its dimensions.
    Decode,
}

/// The error code of each rejection.
pub open spec fn rejection_code(r: ImageRejection) -> ErrorCode {
    match r {
        ImageRejection::UnsupportedFormat => ErrorCode::ImageUnsupportedFormat,
        ImageRejection::TooLarge => ErrorCode::ImageTooLarge,
        ImageRejection::PixelLimitExceeded => ErrorCode::ImagePixelLimitExceeded,
        ImageRejection::Decode => ErrorCode::ImageDecodeFailed,
    }
}

impl ImageRejection {
    /// The corresponding `ErrorCode`.
    pub fn code(self) -> (r: ErrorCode)
        ensures
            r == rejection_code(self),
    {
        match self {
            ImageRejection::UnsupportedFormat => ErrorCode::ImageUnsupportedFormat,
            ImageRejection::TooLarge => ErrorCode::ImageTooLarge,
            ImageRejection::PixelLimitExceeded => ErrorCode::ImagePixelLimitExceeded,
            ImageRejection::Decode => ErrorCode::ImageDecodeFailed,
        }
    }
}

// ---------------------------------------------------------------------------
// What `imagesize` reads from a header.

/// The name of the image type `imagesize` identifies from the bytes, as
/// its `Debug` form writes it (`Png`, `Heif(Av1)`, ...), if any.
pub uninterp spec fn image_type_name(bytes: Seq<u8>) -> Option<Seq<char>>;

/// The width and height `imagesize` reads from the bytes, if it can.
pub uninterp spec fn image_dimensions(bytes: Seq<u8>) -> Option<(usize, usize)>;

/// Names the image type from the content.
///
/// Trusted: calls `imagesize::image_type` and writes the type it returns in
/// its derived `Debug` form, the variant's name (with the compression of a
/// HEIF container in brackets); a failure (fewer than 12 bytes, or a header
/// `imagesize` does not recognise) gives `None`.
#[verifier::external_body]
fn sniff_image_type(bytes: &[u8]) -> (r: Option<String>)
    ensures
        match r {
            Some(name) => image_type_name(bytes@) == Some(name@),
            None => image_type_name(bytes@) is None,
        },
{
    match imagesize::image_type(bytes) {
        Ok(t) => Some(format!("{t:?}")),
        Err(_) => None,
    }
}

/// The allowed raster format of an image type, by its name: PNG, JPEG, GIF,
/// WebP, BMP, and of the HEIF container only AV1-compressed images (AVIF).
/// HEIC, TIFF and every other type are refused.
pub open spec fn allowed_raster_of(name: Seq<char>) -> Option<ImageFormat> {
    if name == "Png"@ {
        Some(ImageFormat::Png)
    } else if name == "Jpeg"@ {
        Some(ImageFormat::Jpeg)
    } else if name == "Gif"@ {
        Some(ImageFormat::Gif)
    } else if name == "Webp"@ {
        Some(ImageFormat::Webp)
    } else if name == "Bmp"@ {
        Some(ImageFormat::Bmp)
    } else if name == "Heif(Av1)"@ {
        Some(ImageFormat::Avif)
    } else {
        None
    }
}

/// The allowed raster format of an image type, if it is allowed.
pub fn allowed_raster(name: &str) -> (r: Option<ImageFormat>)
    ensures
        r == allowed_raster_of(name@),
{
    let n = chars_of(name);
    if same_chars(&n, &chars_of("Png")) {
        Some(ImageFormat::Png)
    } else if same_chars(&n, &chars_of("Jpeg")) {
        Some(ImageFormat::Jpeg)
    } else if same_chars(&n, &chars_of("Gif")) {
        Some(ImageFormat::Gif)
    } else if same_chars(&n, &chars_of("Webp")) {
        Some(ImageFormat::Webp)
    } else if same_chars(&n, &chars_of("Bmp")) {
        Some(ImageFormat::Bmp)
    } else if same_chars(&n, &chars_of("Heif(Av1)")) {
        Some(ImageFormat::Avif)
    } else {
        None
    }
}

/// The allowed raster format the bytes hold, if any.
pub open spec fn raster_format(bytes: Seq<u8>) -> Option<ImageFormat> {
    match image_type_name(bytes) {
        Some(name) => allowed_raster_of(name),
        None => None,
    }
}

/// The allowed raster format identified from the content.
fn sniff_raster_format(bytes: &[u8]) -> (r: Option<ImageFormat>)
    ensures
        r == raster_format(bytes@),
        r != Some(ImageFormat::Svg),
{
    match sniff_image_type(bytes) {
        Some(name) => allowed_raster(name.as_str()),
        None => None,
    }
}

/// Reads the declared width and height from the header.
///
/// Trusted: calls `imagesize::blob_size`; a failure gives `None`.
#[verifier::external_body]
fn read_dimensions(bytes: &[u8]) -> (r: Option<(usize, usize)>)
    ensures
        r == image_dimensions(bytes@),
{
    match imagesize::blob_size(bytes) {
        Ok(size) => Some((size.width, size.height)),
        Err(_) => None,
    }
}

// ---------------------------------------------------------------------------
// SVG, recognised by its root element.

/// ASCII whitespace as `u8::is_ascii_whitespace` defines it.
pub open spec fn is_space_byte(b: u8) -> bool {
    b == 0x20 || b == 0x09 || b == 0x0a || b == 0x0c || b == 0x0d
}

/// Whether `b` begins with `prefix`.
pub open spec fn begins_with(b: Seq<u8>, prefix: Seq<u8>) -> bool {
    prefix.len() <= b.len() && b.take(prefix.len() as int) == prefix
}

/// Index of the first occurrence of `needle` in `b`.
pub open spec fn first_match(b: Seq<u8>, needle: Seq<u8>) -> Option<nat>
    decreases b.len(),
{
    if b.len() < needle.len() {
        None
    } else if b.take(needle.len() as int) == needle {
        Some(0)
    } else if b.len() == 0 {
        None
    } else {
        match first_match(b.drop_first(), needle) {
            Some(i) => Some(i + 1),
            None => None,
        }
    }
}

/// The part after the first occurrence of `needle`.
pub open spec fn after_match(b: Seq<u8>, needle: Seq<u8>) -> Option<Seq<u8>> {
    match first_match(b, needle) {
        Some(i) => Some(b.skip((i + needle.len()) as int)),
        None => None,
    }
}

/// Index of the first byte equal to `c`.
pub open spec fn first_byte(b: Seq<u8>, c: u8) -> Option<nat>
    decreases b.len(),
{
    if b.len() == 0 {
        None
    } else if b[0] == c {
        Some(0)
    } else {
        match first_byte(b.drop_first(), c) {
            Some(i) => Some(i + 1),
            None => None,
        }
    }
}

/// Number of leading whitespace bytes.
pub open spec fn leading_space(b: Seq<u8>) -> nat
    decreases b.len(),
{
    if b.len() > 0 && is_space_byte(b[0]) {
        1 + leading_space(b.drop_first())
    } else {
        0
    }
}

/// What follows a DOCTYPE declaration. An internal subset (`[ ... ]`) may
/// hold `>`, so when `[` comes before the first `>`, the declaration ends at
/// the first `>` after the next `]`.
pub open spec fn after_doctype(b: Seq<u8>) -> Option<Seq<u8>> {
    match first_byte(b, 0x3e) {
        None => None,
        Some(close) => match first_byte(b, 0x5b) {
            Some(open) if open < close => match after_match(b.skip(open as int), seq![0x5du8]) {
                Some(rest) => after_match(rest, seq![0x3eu8]),
                None => None,
            },
            _ => Some(b.skip((close + 1) as int)),
        },
    }
}

pub proof fn lemma_first_match(b: Seq<u8>, needle: Seq<u8>)
    ensures
        first_match(b, needle) matches Some(i) ==> i + needle.len() <= b.len() && b.subrange(i as int, (i + needle.len()) as int)
            == needle,
        first_match(b, needle) is None ==> forall|i: int|
            0 <= i && i + needle.len() <= b.len() ==> #[trigger] b.subrange(i, i + needle.len()) != needle,
        first_match(b, needle) matches Some(i) ==> forall|j: int|
            0 <= j < i ==> #[trigger] b.subrange(j, j + needle.len()) != needle,
    decreases b.len(),
{
    if b.len() >= needle.len() && b.take(needle.len() as int) != needle && b.len() > 0 {
        let t = b.drop_first();
        lemma_first_match(t, needle);
        assert forall|i: int| 1 <= i && i + needle.len() <= b.len() implies #[trigger] b.subrange(i, i + needle.len())
            == t.subrange(i - 1, i - 1 + needle.len()) by {
            assert(b.subrange(i, i + needle.len()) =~= t.subrange(i - 1, i - 1 + needle.len()));
        }
        assert(b.subrange(0, needle.len() as int) =~= b.take(needle.len() as int));
    } else if b.len() >= needle.len() && b.take(needle.len() as int) == needle {
        assert(b.subrange(0, needle.len() as int) =~= b.take(needle.len() as int));
    }
}

pub proof fn lemma_first_byte(b: Seq<u8>, c: u8)
    ensures
        first_byte(b, c) matches Some(i) ==> i < b.len() && b[i as int] == c && forall|j: int| 0 <= j < i ==> b[j] != c,
        first_byte(b, c) is None ==> forall|j: int| 0 <= j < b.len() ==> b[j] != c,
    decreases b.len(),
{
    if b.len() > 0 && b[0] != c {
        let t = b.drop_first();
        lemma_first_byte(t, c);
        assert forall|j: int| 1 <= j < b.len() implies b[j] == t[j - 1] by {}
    }
}

pub proof fn lemma_leading_space(b: Seq<u8>)
    ensures
        leading_space(b) <= b.len(),
        forall|j: int| 0 <= j < leading_space(b) ==> is_space_byte(#[trigger] b[j]),
        leading_space(b) < b.len() ==> !is_space_byte(b[leading_space(b) as int]),
    decreases b.len(),
{
    if b.len() > 0 && is_space_byte(b[0]) {
        let t = b.drop_first();
        lemma_leading_space(t);
        assert forall|j: int| 0 <= j < leading_space(b) implies is_space_byte(#[trigger] b[j]) by {
            if j > 0 {
                assert(b[j] == t[j - 1]);
            }
        }
        if leading_space(b) < b.len() {
            assert(b[leading_space(b) as int] == t[leading_space(t) as int]);
        }
    }
}

proof fn lemma_after_doctype_shorter(b: Seq<u8>)
    ensures
        after_doctype(b) matches Some(r) ==> r.len() < b.len(),
{
    lemma_first_byte(b, 0x3e);
    lemma_first_byte(b, 0x5b);
    match first_byte(b, 0x3e) {
        None => {},
        Some(close) => match first_byte(b, 0x5b) {
            Some(open) if open < close => {
                let s = b.skip(open as int);
                lemma_first_match(s, seq![0x5du8]);
                match after_match(s, seq![0x5du8]) {
                    Some(rest) => {
                        lemma_first_match(rest, seq![0x3eu8]);
                    },
                    None => {},
                }
            },
            _ => {},
        },
    }
}

/// The bytes after an XML prologue (whitespace, declarations, comments and
/// a DOCTYPE); `None` when a part of it is not closed.
pub open spec fn after_prologue(b: Seq<u8>) -> Option<Seq<u8>>
    decreases b.len(),
{
    let t = b.skip(leading_space(b) as int);
    if begins_with(t, seq![0x3cu8, 0x3f]) {
        match after_match(t, seq![0x3fu8, 0x3e]) {
            Some(r) => if r.len() < b.len() {
                after_prologue(r)
            } else {
                None
            },
            None => None,
        }
    } else if begins_with(t, seq![0x3cu8, 0x21, 0x2d, 0x2d]) {
        match after_match(t, seq![0x2du8, 0x2d, 0x3e]) {
            Some(r) => if r.len() < b.len() {
                after_prologue(r)
            } else {
                None
            },
            None => None,
        }
    } else if begins_with(t, seq![0x3cu8, 0x21]) {
        match after_doctype(t) {
            Some(r) => if r.len() < b.len() {
                after_prologue(r)
            } else {
                None
            },
            None => None,
        }
    } else {
        Some(t)
    }
}

/// The UTF-8 byte order mark.
pub open spec fn utf8_bom() -> Seq<u8> {
    seq![0xefu8, 0xbb, 0xbf]
}

/// Whether the bytes are an SVG document: after an optional byte order mark
/// and the prologue, the root element is `svg`, its name followed by the end
/// of input, `>`, `/` or whitespace.
pub open spec fn svg_root(bytes: Seq<u8>) -> bool {
    let body = if begins_with(bytes, utf8_bom()) {
        bytes.skip(3)
    } else {
        bytes
    };
    match after_prologue(body) {
        None => false,
        Some(rest) => begins_with(rest, seq![0x3cu8, 0x73, 0x76, 0x67]) && (rest.len() == 4 || rest[4] == 0x3e
            || rest[4] == 0x2f || is_space_byte(rest[4])),
    }
}

/// The detected format, or `UnsupportedFormat`.
pub open spec fn detected_format(bytes: Seq<u8>) -> Result<ImageFormat, ImageRejection> {
    match raster_format(bytes) {
        Some(f) => Ok(f),
        None => if svg_root(bytes) {
            Ok(ImageFormat::Svg)
        } else {
            Err(ImageRejection::UnsupportedFormat)
        },
    }
}

/// Whether the declared dimensions are within the limits: each edge and the
/// total pixel count.
pub open spec fn dimensions_allowed(w: usize, h: usize) -> bool {
    w <= MAX_IMAGE_EDGE_PIXELS && h <= MAX_IMAGE_EDGE_PIXELS && w * h <= MAX_IMAGE_TOTAL_PIXELS
}

/// The outcome of validating image bytes: the byte limit first, then the
/// format, then (for raster formats) the pixel limits.
pub open spec fn validation(bytes: Seq<u8>) -> Result<ImageFormat, ImageRejection> {
    if bytes.len() > MAX_IMAGE_BYTES {
        Err(ImageRejection::TooLarge)
    } else {
        match detected_format(bytes) {
            Err(e) => Err(e),
            Ok(ImageFormat::Svg) => Ok(ImageFormat::Svg),
            Ok(f) => match image_dimensions(bytes) {
                None => Err(ImageRejection::Decode),
                Some((w, h)) => if dimensions_allowed(w, h) {
                    Ok(f)
                } else {
                    Err(ImageRejection::PixelLimitExceeded)
                },
            },
        }
    }
}

/// Position just after the first occurrence of `needle` at or after `from`.
fn skip_to(bytes: &[u8], from: usize, needle: &[u8]) -> (r: Option<usize>)
    requires
        from <= bytes.len(),
        needle.len() > 0,
    ensures
        match r {
            Some(p) => p <= bytes.len() && after_match(bytes@.skip(from as int), needle@) == Some(bytes@.skip(p as int)),
            None => after_match(bytes@.skip(from as int), needle@) is None,
        },
{
    let ghost s = bytes@.skip(from as int);
    proof {
        lemma_first_match(s, needle@);
    }
    let n = needle.len();
    let mut i: usize = from;
    while i <= bytes.len() && bytes.len() - i >= n
        invariant
            from <= i,
            s == bytes@.skip(from as int),
            n == needle.len(),
            n > 0,
            forall|j: int| 0 <= j < i - from ==> #[trigger] s.subrange(j, j + n) != needle@,
        decreases bytes.len() - i,
    {
        let mut k: usize = 0;
        while k < n && bytes[i + k] == needle[k]
            invariant
                k <= n,
                n == needle.len(),
                i + n <= bytes.len(),
                forall|m: int| 0 <= m < k ==> bytes@[i + m] == needle@[m],
            decreases n - k,
        {
            k = k + 1;
        }
        if k == n {
            proof {
                lemma_first_match(s, needle@);
                assert(s.subrange(i - from, i - from + n) =~= needle@);
                if first_match(s, needle@) is None {
                    assert(s.subrange(i - from, i - from + n) != needle@);
                }
                let f = first_match(s, needle@)->0;
                if f < i - from {
                    assert(s.subrange(f as int, f + n) != needle@);
                }
                assert(s.skip(i - from + n) =~= bytes@.skip(i + n));
            }
            return Some(i + n);
        }
        proof {
            assert(s.subrange(i - from, i - from + n)[k as int] != needle@[k as int]);
        }
        i = i + 1;
    }
    proof {
        if let Some(f) = first_match(s, needle@) {
            assert(s.subrange(f as int, f + n) == needle@);
        }
    }
    None
}

/// Position of the first byte equal to `c` at or after `from`.
fn find_byte(bytes: &[u8], from: usize, c: u8) -> (r: Option<usize>)
    requires
        from <= bytes.len(),
    ensures
        match r {
            Some(p) => from <= p < bytes.len() && first_byte(bytes@.skip(from as int), c) == Some((p - from) as nat),
            None => first_byte(bytes@.skip(from as int), c) is None,
        },
{
    let ghost s = bytes@.skip(from as int);
    proof {
        lemma_first_byte(s, c);
    }
    let mut i: usize = from;
    while i < bytes.len()
        invariant
            from <= i <= bytes.len(),
            s == bytes@.skip(from as int),
            forall|j: int| 0 <= j < i - from ==> s[j] != c,
        decreases bytes.len() - i,
    {
        if bytes[i] == c {
            proof {
                lemma_first_byte(s, c);
                assert(s[i - from] == c);
                if let Some(f) = first_byte(s, c) {
                    if f < i - from {
                        assert(s[f as int] != c);
                    }
                    if f > i - from {
                        assert(s[i - from] != c);
                    }
                }
            }
            return Some(i);
        }
        i = i + 1;
    }
    proof {
        if let Some(f) = first_byte(s, c) {
            assert(s[f as int] == c);
        }
    }
    None
}

/// Position after the DOCTYPE declaration starting at `from`.
fn skip_doctype(bytes: &[u8], from: usize) -> (r: Option<usize>)
    requires
        from <= bytes.len(),
    ensures
        match r {
            Some(p) => p <= bytes.len() && after_doctype(bytes@.skip(from as int)) == Some(bytes@.skip(p as int)),
            None => after_doctype(bytes@.skip(from as int)) is None,
        },
{
    let ghost s = bytes@.skip(from as int);
    let close = match find_byte(bytes, from, 0x3e) {
        Some(c) => c,
        None => {
            return None;
        },
    };
    let open = find_byte(bytes, from, 0x5b);
    match open {
        Some(o) if o < close => {
            assert(s.skip(o - from) =~= bytes@.skip(o as int));
            match skip_to(bytes, o, &[0x5du8]) {
                Some(after) => {
                    let r = skip_to(bytes, after, &[0x3eu8]);
                    proof {
                        assert((&[0x5du8])@ =~= seq![0x5du8]);
                        assert((&[0x3eu8])@ =~= seq![0x3eu8]);
                    }
                    r
                },
                None => {
                    proof {
                        assert((&[0x5du8])@ =~= seq![0x5du8]);
                    }
                    None
                },
            }
        },
        _ => {
            assert(s.skip(close - from + 1) =~= bytes@.skip(close + 1));
            Some(close + 1)
        },
    }
}

/// Whether the bytes at `at` begin with `prefix`.
fn begins_at(bytes: &[u8], at: usize, prefix: &[u8]) -> (r: bool)
    requires
        at <= bytes.len(),
    ensures
        r == begins_with(bytes@.skip(at as int), prefix@),
{
    if bytes.len() - at < prefix.len() {
        return false;
    }
    let mut k: usize = 0;
    while k < prefix.len()
        invariant
            at + prefix.len() <= bytes.len(),
            k <= prefix.len(),
            forall|m: int| 0 <= m < k ==> bytes@[at + m] == prefix@[m],
        decreases prefix.len() - k,
    {
        if bytes[at + k] != prefix[k] {
            assert(bytes@.skip(at as int).take(prefix.len() as int)[k as int] != prefix@[k as int]);
            return false;
        }
        k = k + 1;
    }
    assert(bytes@.skip(at as int).take(prefix.len() as int) =~= prefix@);
    true
}

fn is_space(b: u8) -> (r: bool)
    ensures
        r == is_space_byte(b),
{
    b == 0x20 || b == 0x09 || b == 0x0a || b == 0x0c || b == 0x0d
}

/// Position after the XML prologue starting at `from`.
fn skip_prologue(bytes: &[u8], from: usize) -> (r: Option<usize>)
    requires
        from <= bytes.len(),
    ensures
        match r {
            Some(p) => p <= bytes.len() && after_prologue(bytes@.skip(from as int)) == Some(bytes@.skip(p as int)),
            None => after_prologue(bytes@.skip(from as int)) is None,
        },
{
    let mut pos: usize = from;
    loop
        invariant
            from <= pos <= bytes.len(),
            after_prologue(bytes@.skip(from as int)) == after_prologue(bytes@.skip(pos as int)),
        decreases bytes.len() - pos,
    {
        let ghost b = bytes@.skip(pos as int);
        proof {
            lemma_leading_space(b);
        }
        let mut start: usize = pos;
        while start < bytes.len() && is_space(bytes[start])
            invariant
                pos <= start <= bytes.len(),
                b == bytes@.skip(pos as int),
                forall|j: int| 0 <= j < start - pos ==> is_space_byte(#[trigger] b[j]),
            decreases bytes.len() - start,
        {
            start = start + 1;
        }
        proof {
            assert(leading_space(b) == start - pos) by {
                if leading_space(b) < start - pos {
                    assert(is_space_byte(b[leading_space(b) as int]));
                }
                if leading_space(b) > start - pos {
                    assert(is_space_byte(b[start - pos]));
                    assert(b[start - pos] == bytes@[start as int]);
                }
            }
            assert(b.skip(start - pos) =~= bytes@.skip(start as int));
        }
        let ghost t = bytes@.skip(start as int);
        let next = if begins_at(bytes, start, &[0x3c, 0x3f]) {
            proof {
                assert((&[0x3cu8, 0x3f])@ =~= seq![0x3cu8, 0x3f]);
                assert((&[0x3fu8, 0x3e])@ =~= seq![0x3fu8, 0x3e]);
                lemma_first_match(t, seq![0x3fu8, 0x3e]);
            }
            skip_to(bytes, start, &[0x3f, 0x3e])
        } else if begins_at(bytes, start, &[0x3c, 0x21, 0x2d, 0x2d]) {
            proof {
                assert((&[0x3cu8, 0x3f])@ =~= seq![0x3cu8, 0x3f]);
                assert((&[0x3cu8, 0x21, 0x2d, 0x2d])@ =~= seq![0x3cu8, 0x21, 0x2d, 0x2d]);
                assert((&[0x2du8, 0x2d, 0x3e])@ =~= seq![0x2du8, 0x2d, 0x3e]);
                lemma_first_match(t, seq![0x2du8, 0x2d, 0x3e]);
            }
            skip_to(bytes, start, &[0x2d, 0x2d, 0x3e])
        } else if begins_at(bytes, start, &[0x3c, 0x21]) {
            proof {
                assert((&[0x3cu8, 0x3f])@ =~= seq![0x3cu8, 0x3f]);
                assert((&[0x3cu8, 0x21, 0x2d, 0x2d])@ =~= seq![0x3cu8, 0x21, 0x2d, 0x2d]);
                assert((&[0x3cu8, 0x21])@ =~= seq![0x3cu8, 0x21]);
                lemma_after_doctype_shorter(t);
            }
            skip_doctype(bytes, start)
        } else {
            proof {
                assert((&[0x3cu8, 0x3f])@ =~= seq![0x3cu8, 0x3f]);
                assert((&[0x3cu8, 0x21, 0x2d, 0x2d])@ =~= seq![0x3cu8, 0x21, 0x2d, 0x2d]);
                assert((&[0x3cu8, 0x21])@ =~= seq![0x3cu8, 0x21]);
            }
            return Some(start);
        };
        match next {
            Some(p) => {
                proof {
                    assert(bytes@.skip(p as int).len() < b.len());
                }
                pos = p;
            },
            None => {
                return None;
            },
        }
    }
}

/// Whether the bytes are an SVG document, judged by the root element.
///
/// Containing `<svg` somewhere is not enough: the first element after the
/// prologue must be `svg`. XML in encodings other than UTF-8 is not
/// recognised.
fn is_svg(bytes: &[u8]) -> (r: bool)
    ensures
        r == svg_root(bytes@),
{
    let start: usize = if begins_at(bytes, 0, &[0xef, 0xbb, 0xbf]) {
        3
    } else {
        0
    };
    proof {
        assert(bytes@.skip(0) =~= bytes@);
        assert((&[0xefu8, 0xbb, 0xbf])@ =~= utf8_bom());
    }
    let rest = match skip_prologue(bytes, start) {
        Some(p) => p,
        None => {
            return false;
        },
    };
    if !begins_at(bytes, rest, &[0x3c, 0x73, 0x76, 0x67]) {
        proof {
            assert((&[0x3cu8, 0x73, 0x76, 0x67])@ =~= seq![0x3cu8, 0x73, 0x76, 0x67]);
        }
        return false;
    }
    proof {
        assert((&[0x3cu8, 0x73, 0x76, 0x67])@ =~= seq![0x3cu8, 0x73, 0x76, 0x67]);
    }
    if bytes.len() - rest == 4 {
        return true;
    }
    let b = bytes[rest + 4];
    b == 0x3e || b == 0x2f || is_space(b)
}

/// The detected format of the bytes.
fn detect(bytes: &[u8]) -> (r: Result<ImageFormat, ImageRejection>)
    ensures
        r == detected_format(bytes@),
{
    match sniff_raster_format(bytes) {
        Some(f) => Ok(f),
        None => if is_svg(bytes) {
            Ok(ImageFormat::Svg)
        } else {
            Err(ImageRejection::UnsupportedFormat)
        },
    }
}

/// Validates image bytes and returns the detected format.
///
/// The byte limit is checked first, so no format detection runs on oversized
/// input; then the format; then, for raster formats, the declared pixel
/// dimensions (each edge and the total). SVG is vector data and is bound by
/// the byte limit only.
pub fn validate(bytes: &[u8]) -> (r: Result<ImageFormat, ImageRejection>)
    ensures
        r == validation(bytes@),
{
    if bytes.len() > MAX_IMAGE_BYTES as usize {
        return Err(ImageRejection::TooLarge);
    }
    let format = match detect(bytes) {
        Ok(f) => f,
        Err(e) => {
            return Err(e);
        },
    };
    if format == ImageFormat::Svg {
        return Ok(format);
    }
    let (width, height) = match read_dimensions(bytes) {
        Some(d) => d,
        None => {
            return Err(ImageRejection::Decode);
        },
    };
    if !dimensions_within_limits(width, height) {
        return Err(ImageRejection::PixelLimitExceeded);
    }
    Ok(format)
}

/// Whether declared dimensions are within the pixel limits: each edge, then
/// the total pixel count.
pub fn dimensions_within_limits(width: usize, height: usize) -> (r: bool)
    ensures
        r == dimensions_allowed(width, height),
{
    if width > MAX_IMAGE_EDGE_PIXELS as usize || height > MAX_IMAGE_EDGE_PIXELS as usize {
        return false;
    }
    assert(width * height <= 16384 * 16384) by (nonlinear_arith)
        requires
            width <= 16384,
            height <= 16384,
    ;
    width * height <= MAX_IMAGE_TOTAL_PIXELS as usize
}

} // verus!
