use md_peruse::ipc::types::TextEncoding;
use md_peruse::limits::MAX_MARKDOWN_BYTES;
use md_peruse::path_guard::{IoErrorKind, IoFailure};
use md_peruse::read::{
    decode, is_sharing_violation, markdown_size_allowed, normalize_newlines, read_file, ReadError,
};

const UTF8_BOM: [u8; 3] = [0xEF, 0xBB, 0xBF];
const UTF16_LE_BOM: [u8; 2] = [0xFF, 0xFE];
const UTF16_BE_BOM: [u8; 2] = [0xFE, 0xFF];

fn with_bom(bom: &[u8], body: &[u8]) -> Vec<u8> {
    let mut bytes = bom.to_vec();
    bytes.extend_from_slice(body);
    bytes
}

fn utf16(text: &str, little_endian: bool) -> Vec<u8> {
    let bom = if little_endian {
        UTF16_LE_BOM
    } else {
        UTF16_BE_BOM
    };
    let mut bytes = bom.to_vec();
    for unit in text.encode_utf16() {
        if little_endian {
            bytes.extend_from_slice(&unit.to_le_bytes());
        } else {
            bytes.extend_from_slice(&unit.to_be_bytes());
        }
    }
    bytes
}

#[test]
fn encodings_are_detected_by_bom() {
    let text = "# 見出し\n本文 🎈";
    let cases = [
        (text.as_bytes().to_vec(), TextEncoding::Utf8),
        (with_bom(&UTF8_BOM, text.as_bytes()), TextEncoding::Utf8Bom),
        (utf16(text, true), TextEncoding::Utf16Le),
        (utf16(text, false), TextEncoding::Utf16Be),
    ];
    for (bytes, expected) in cases {
        let (decoded, encoding) = decode(&bytes).expect("デコードできない");
        assert_eq!(encoding, expected);
        assert_eq!(decoded, text, "{expected:?}");
    }
}

#[test]
fn an_empty_file_decodes_as_utf8() {
    assert_eq!(decode(&[]).unwrap(), (String::new(), TextEncoding::Utf8));
    assert_eq!(
        decode(&UTF8_BOM).unwrap(),
        (String::new(), TextEncoding::Utf8Bom)
    );
    assert_eq!(
        decode(&UTF16_LE_BOM).unwrap(),
        (String::new(), TextEncoding::Utf16Le)
    );
}

#[test]
fn undecodable_bytes_are_rejected() {
    let cases = [
        ("不正なUTF-8のバイト列", vec![0x41, 0xC3, 0x28]),
        ("CP932の本文", vec![0x82, 0xA0]),
        (
            "奇数バイトで終わるUTF-16 LE",
            with_bom(&UTF16_LE_BOM, &[0x41, 0x00, 0x42]),
        ),
        (
            "対にならないサロゲート",
            with_bom(&UTF16_LE_BOM, &[0x00, 0xD8]),
        ),
    ];
    for (label, bytes) in cases {
        assert!(
            matches!(decode(&bytes), Err(ReadError::Decode)),
            "{label} を受け入れている"
        );
    }
}

#[test]
fn newlines_are_normalized_to_lf() {
    let cases = [
        ("a\nb", "a\nb"),
        ("a\r\nb", "a\nb"),
        ("a\rb", "a\nb"),
        ("a\r\r\nb", "a\n\nb"),
        ("a\r\n\rb\n", "a\n\nb\n"),
        ("末尾のCR\r", "末尾のCR\n"),
        ("", ""),
    ];
    for (input, expected) in cases {
        assert_eq!(
            normalize_newlines(input.to_owned()),
            expected,
            "入力: {input:?}"
        );
    }
}

#[test]
fn the_size_limit_is_enforced_at_the_boundary() {
    let limit = MAX_MARKDOWN_BYTES as usize;
    let at_limit = vec![b'a'; limit];
    let content = read_file("docs/a.md", &at_limit).expect("上限ちょうどは読める");
    assert_eq!(content.byte_size as usize, limit);
    let over = vec![b'a'; limit + 1];
    assert!(matches!(read_file("docs/a.md", &over), Err(ReadError::TooLarge)));
    assert!(markdown_size_allowed(MAX_MARKDOWN_BYTES as u64));
    assert!(!markdown_size_allowed(MAX_MARKDOWN_BYTES as u64 + 1));
}

#[test]
fn a_read_file_keeps_the_requested_path_and_normalizes_the_text() {
    let bytes = with_bom(&UTF8_BOM, b"# a\r\nb\r");
    let content = read_file("docs/note.md", &bytes).expect("読める");
    assert_eq!(content.path, "docs/note.md");
    assert_eq!(content.text, "# a\nb\n");
    assert_eq!(content.encoding, TextEncoding::Utf8Bom);
    assert_eq!(content.byte_size, 10);
    assert!(matches!(read_file("a.md", &[0x82, 0xA0]), Err(ReadError::Decode)));
}

#[test]
fn sharing_and_lock_violations_are_recognized() {
    assert!(is_sharing_violation(&IoFailure::from_raw_os_error(32)));
    assert!(is_sharing_violation(&IoFailure::from_raw_os_error(33)));
    assert!(!is_sharing_violation(&IoFailure::from_raw_os_error(5)));
    assert!(!is_sharing_violation(&IoFailure::from_kind(IoErrorKind::PermissionDenied)));
}

#[test]
fn normalizing_twice_changes_nothing() {
    for input in ["a\r\n\rb\n", "\r\r", "plain"] {
        let once = normalize_newlines(input.to_owned());
        let twice = normalize_newlines(once.clone());
        assert_eq!(once, twice);
        assert!(!once.contains('\r'));
    }
}

#[test]
fn text_that_begins_with_the_mark_reads_as_utf8_with_bom() {
    let text = "\u{FEFF}abc";
    assert_eq!(
        decode(text.as_bytes()).unwrap(),
        ("abc".to_string(), TextEncoding::Utf8Bom)
    );
}
