use md_peruse::image::error::ImageError;
use md_peruse::image::format::{
    allowed_raster, dimensions_within_limits, validate, ImageFormat, ImageRejection,
};
use md_peruse::image::protocol::{
    failure_status, image_size_allowed, request_target, resource_id_of_path, status_for,
    ImageRequestTarget,
};
use md_peruse::image::reference::{decode_segment, resolve};
use md_peruse::image::resource::{ImageResources, SALT_BYTES};
use md_peruse::ipc::error::ErrorCode;
use md_peruse::limits::MAX_IMAGE_BYTES;
use md_peruse::path_guard::{IoErrorKind, IoFailure, PathRejection, ResolveError};

// Sample headers, written byte by byte in each format's layout.

fn png(width: u32, height: u32) -> Vec<u8> {
    let mut bytes = vec![0x89, b'P', b'N', b'G', 0x0d, 0x0a, 0x1a, 0x0a, 0, 0, 0, 0x0d];
    bytes.extend_from_slice(b"IHDR");
    bytes.extend_from_slice(&width.to_be_bytes());
    bytes.extend_from_slice(&height.to_be_bytes());
    bytes.extend_from_slice(&[8, 6, 0, 0, 0, 0x9a, 0x38, 0xc4]);
    bytes
}

fn jpeg(width: u16, height: u16) -> Vec<u8> {
    let mut bytes = vec![0xff, 0xd8, 0xff, 0xe0, 0x00, 0x10];
    bytes.extend_from_slice(b"JFIF\0");
    bytes.extend_from_slice(&[1, 1, 0, 0, 1, 0, 1, 0, 0]);
    bytes.extend_from_slice(&[0xff, 0xc0, 0x00, 0x11, 0x08]);
    bytes.extend_from_slice(&height.to_be_bytes());
    bytes.extend_from_slice(&width.to_be_bytes());
    bytes.extend_from_slice(&[3, 1, 0x22, 0, 2, 0x11, 1, 3, 0x11, 1, 0xff, 0xd9]);
    bytes
}

fn gif(width: u16, height: u16) -> Vec<u8> {
    let mut bytes = b"GIF89a".to_vec();
    bytes.extend_from_slice(&width.to_le_bytes());
    bytes.extend_from_slice(&height.to_le_bytes());
    bytes.extend_from_slice(&[0, 0, 0]);
    bytes
}

fn webp(width: u32, height: u32) -> Vec<u8> {
    let mut bytes = b"RIFF".to_vec();
    bytes.extend_from_slice(&22u32.to_le_bytes());
    bytes.extend_from_slice(b"WEBPVP8X");
    bytes.extend_from_slice(&10u32.to_le_bytes());
    bytes.extend_from_slice(&[0, 0, 0, 0]);
    bytes.extend_from_slice(&(width - 1).to_le_bytes()[..3]);
    bytes.extend_from_slice(&(height - 1).to_le_bytes()[..3]);
    bytes
}

fn heif(brand: &[u8; 4], width: u32, height: u32) -> Vec<u8> {
    let mut bytes = vec![0, 0, 0, 0x14];
    bytes.extend_from_slice(b"ftyp");
    bytes.extend_from_slice(brand);
    bytes.extend_from_slice(&[0, 0, 0, 0]);
    bytes.extend_from_slice(b"mif1");
    bytes.extend_from_slice(&[0, 0, 0, 0x2c]);
    bytes.extend_from_slice(b"meta");
    bytes.extend_from_slice(&[0, 0, 0, 0, 0, 0, 0, 0x20]);
    bytes.extend_from_slice(b"iprp");
    bytes.extend_from_slice(&[0, 0, 0, 0x18]);
    bytes.extend_from_slice(b"ipco");
    bytes.extend_from_slice(&[0, 0, 0, 0x14]);
    bytes.extend_from_slice(b"ispe");
    bytes.extend_from_slice(&[0, 0, 0, 0]);
    bytes.extend_from_slice(&width.to_be_bytes());
    bytes.extend_from_slice(&height.to_be_bytes());
    bytes
}

fn bmp(width: u32, height: u32) -> Vec<u8> {
    let mut bytes = b"BM".to_vec();
    bytes.extend_from_slice(&70u32.to_le_bytes());
    bytes.extend_from_slice(&[0, 0, 0, 0]);
    bytes.extend_from_slice(&54u32.to_le_bytes());
    bytes.extend_from_slice(&40u32.to_le_bytes());
    bytes.extend_from_slice(&width.to_le_bytes());
    bytes.extend_from_slice(&height.to_le_bytes());
    bytes.extend_from_slice(&[1, 0, 24, 0]);
    bytes
}

fn tiff() -> Vec<u8> {
    vec![b'I', b'I', 0x2a, 0, 8, 0, 0, 0, 0, 0, 0, 0, 0, 0]
}

#[test]
fn image_errors_map_to_image_codes() {
    let cases = [
        (
            ImageError::Rejected(ImageRejection::UnsupportedFormat),
            ErrorCode::ImageUnsupportedFormat,
        ),
        (
            ImageError::Rejected(ImageRejection::TooLarge),
            ErrorCode::ImageTooLarge,
        ),
        (
            ImageError::Rejected(ImageRejection::PixelLimitExceeded),
            ErrorCode::ImagePixelLimitExceeded,
        ),
        (
            ImageError::Rejected(ImageRejection::Decode),
            ErrorCode::ImageDecodeFailed,
        ),
        (
            ImageError::Resolve(ResolveError::Rejected(PathRejection::Malformed)),
            ErrorCode::PathRejected,
        ),
        (
            ImageError::Resolve(ResolveError::Rejected(PathRejection::Outside)),
            ErrorCode::PathOutsideWorkspace,
        ),
        (
            ImageError::Resolve(ResolveError::Io(IoFailure::from_kind(IoErrorKind::NotFound))),
            ErrorCode::FileNotFound,
        ),
        (
            ImageError::Resolve(ResolveError::Io(IoFailure::from_kind(IoErrorKind::PermissionDenied))),
            ErrorCode::ImageDecodeFailed,
        ),
        (
            ImageError::Resolve(ResolveError::Io(IoFailure::from_raw_os_error(32))),
            ErrorCode::ImageDecodeFailed,
        ),
    ];
    for (error, expected) in cases {
        assert_eq!(error.code(), expected, "{error:?}");
    }
}

const SVG: &[u8] = br#"<svg xmlns="http://www.w3.org/2000/svg" width="8" height="8"></svg>"#;

#[test]
fn allowed_formats_are_detected_from_the_content() {
    let cases = [
        (png(8, 8), ImageFormat::Png, "image/png"),
        (jpeg(8, 8), ImageFormat::Jpeg, "image/jpeg"),
        (gif(8, 8), ImageFormat::Gif, "image/gif"),
        (webp(8, 8), ImageFormat::Webp, "image/webp"),
        (heif(b"avif", 8, 8), ImageFormat::Avif, "image/avif"),
        (bmp(8, 8), ImageFormat::Bmp, "image/bmp"),
        (SVG.to_vec(), ImageFormat::Svg, "image/svg+xml"),
    ];
    for (bytes, expected, content_type) in cases {
        assert_eq!(validate(&bytes), Ok(expected));
        assert_eq!(expected.content_type(), content_type);
    }
}

#[test]
fn content_outside_the_allowlist_is_rejected() {
    let heic: Vec<u8> = heif(b"heic", 8, 8);
    let tiff = tiff();
    let cases: [(&[u8], &str); 5] = [
        (&tiff, "TIFF"),
        (&heic, "HEIC"),
        (b"# markdown\n", "テキスト"),
        (b"<html><body><svg></svg></body></html>", "SVGを含むHTML"),
        (b"", "空"),
    ];
    for (bytes, label) in cases {
        assert_eq!(
            validate(bytes),
            Err(ImageRejection::UnsupportedFormat),
            "{label} を受け入れている"
        );
    }
}

#[test]
fn oversized_pixel_dimensions_are_rejected() {
    let wide = png(20000, 1);
    let large = webp(6400, 4000);
    let cases: [(&[u8], &str); 2] = [(&wide, "1辺 20000 px"), (&large, "総数 25.6 Mpx")];
    for (bytes, label) in cases {
        assert_eq!(
            validate(bytes),
            Err(ImageRejection::PixelLimitExceeded),
            "{label} を受け入れている"
        );
    }
}

#[test]
fn oversized_bytes_are_rejected_before_the_format_is_read() {
    let mut oversized = png(8, 8);
    oversized.resize(MAX_IMAGE_BYTES as usize + 1, 0);
    assert_eq!(validate(&oversized), Err(ImageRejection::TooLarge));
}

#[test]
fn an_image_without_readable_dimensions_reports_a_decode_failure() {
    assert_eq!(validate(&jpeg(8, 8)[..24]), Err(ImageRejection::Decode));
}

#[test]
fn svg_is_identified_by_its_root_element() {
    let accepted: [(&[u8], &str); 6] = [
        (b"<svg/>", "最小"),
        (b"<svg xmlns=\"x\"></svg>", "属性つき"),
        (b"\xEF\xBB\xBF<svg/>", "BOMつき"),
        (b"<?xml version=\"1.0\"?>\n<svg/>", "XML宣言つき"),
        (b"<!-- note --><svg/>", "コメントつき"),
        (
            b"<!DOCTYPE svg PUBLIC \"-//W3C//DTD SVG 1.1//EN\" \"svg11.dtd\"><svg/>",
            "DOCTYPEつき",
        ),
    ];
    for (bytes, label) in accepted {
        assert_eq!(
            validate(bytes),
            Ok(ImageFormat::Svg),
            "{label} を拒否している"
        );
    }

    let rejected: [(&[u8], &str); 5] = [
        (b"<svgx/>", "別の要素名"),
        (b"not xml <svg/>", "先頭が要素でない"),
        (b"<?xml version=\"1.0\"?>", "前書きだけ"),
        (b"<!-- <svg/>", "閉じないコメント"),
        (b"<!DOCTYPE svg [<!ENTITY a \"b\">", "閉じないDOCTYPE"),
    ];
    for (bytes, label) in rejected {
        assert_eq!(
            validate(bytes),
            Err(ImageRejection::UnsupportedFormat),
            "{label} をSVGとして受け入れている"
        );
    }
}

#[test]
fn svg_is_not_subject_to_the_pixel_limit() {
    let huge = br#"<svg xmlns="x" width="100000" height="100000"></svg>"#;
    assert_eq!(validate(huge), Ok(ImageFormat::Svg));
}

#[test]
fn rejections_map_to_the_image_error_codes() {
    let cases = [
        (
            ImageRejection::UnsupportedFormat,
            ErrorCode::ImageUnsupportedFormat,
        ),
        (ImageRejection::TooLarge, ErrorCode::ImageTooLarge),
        (
            ImageRejection::PixelLimitExceeded,
            ErrorCode::ImagePixelLimitExceeded,
        ),
        (ImageRejection::Decode, ErrorCode::ImageDecodeFailed),
    ];
    for (rejection, expected) in cases {
        assert_eq!(rejection.code(), expected, "{rejection:?}");
    }
}

#[test]
fn relative_references_resolve_against_the_document() {
    let cases = [
        ("a.md", "img.png", "img.png"),
        ("a.md", "./img.png", "img.png"),
        ("docs/a.md", "img.png", "docs/img.png"),
        ("docs/a.md", "sub/img.png", "docs/sub/img.png"),
        ("docs/sub/a.md", "../img.png", "docs/img.png"),
        ("docs/sub/a.md", "../../img.png", "img.png"),
        ("docs/a.md", "./sub/./img.png", "docs/sub/img.png"),
        ("docs/a.md", "my%20img.png", "docs/my img.png"),
        ("docs/a.md", "%E5%9B%B3.png", "docs/図.png"),
    ];
    for (document, reference, expected) in cases {
        assert_eq!(
            resolve(document, reference).as_deref(),
            Ok(expected),
            "{document} の {reference}"
        );
    }
}

#[test]
fn root_relative_references_ignore_the_document_location() {
    let cases = [
        ("docs/sub/a.md", "/img.png", "img.png"),
        ("docs/sub/a.md", "/assets/img.png", "assets/img.png"),
    ];
    for (document, reference, expected) in cases {
        assert_eq!(
            resolve(document, reference).as_deref(),
            Ok(expected),
            "{document} の {reference}"
        );
    }
}

#[test]
fn references_that_leave_the_workspace_are_rejected() {
    let cases = [
        ("a.md", "../img.png"),
        ("docs/a.md", "../../img.png"),
        ("docs/sub/a.md", "../../../img.png"),
        ("docs/a.md", "/../img.png"),
    ];
    for (document, reference) in cases {
        assert_eq!(
            resolve(document, reference),
            Err(PathRejection::Outside),
            "{document} の {reference}"
        );
    }
}

#[test]
fn references_outside_the_workspace_are_rejected() {
    let cases = [
        "http://example.com/img.png",
        "https://example.com/img.png",
        "HTTPS://example.com/img.png",
        "//example.com/img.png",
        "data:image/png;base64,iVBORw0KGgo=",
        "file:///C:/img.png",
        r"C:\img.png",
        r"\\server\share\img.png",
        r"\\?\C:\img.png",
    ];
    for reference in cases {
        assert_eq!(
            resolve("docs/a.md", reference),
            Err(PathRejection::Malformed),
            "{reference}"
        );
    }
}

#[test]
fn encoded_separators_do_not_become_separators() {
    let cases = [
        "..%2F..%2Fsecret.png",
        "..%5C..%5Csecret.png",
        "../..%2Fsecret.png",
        "sub%2Fimg.png",
        "%2e%2e%2fsecret.png",
    ];
    for reference in cases {
        assert_eq!(
            resolve("docs/a.md", reference),
            Err(PathRejection::Malformed),
            "{reference}"
        );
    }
}

#[test]
fn references_with_unusable_names_are_rejected() {
    let cases = [
        "img.png:stream",
        "img.png.",
        "img.png ",
        "sub/*.png",
        "img\u{0}.png",
        "",
        "/",
        "#fragment",
    ];
    for reference in cases {
        assert_eq!(
            resolve("docs/a.md", reference),
            Err(PathRejection::Malformed),
            "{reference}"
        );
    }
}

#[test]
fn malformed_encoding_is_rejected() {
    let cases = [
        "img%zz.png",
        "img%2.png",
        "img%.png",
        "img%+1.png",
        "img%FF.png",
    ];
    for reference in cases {
        assert_eq!(
            resolve("docs/a.md", reference),
            Err(PathRejection::Malformed),
            "{reference}"
        );
    }
}

#[test]
fn the_query_and_fragment_are_dropped() {
    let cases = [
        ("img.png?v=2", "docs/img.png"),
        ("img.png#view", "docs/img.png"),
        ("img.png?v=2#view", "docs/img.png"),
    ];
    for (reference, expected) in cases {
        assert_eq!(
            resolve("docs/a.md", reference).as_deref(),
            Ok(expected),
            "{reference}"
        );
    }
}

#[test]
fn a_malformed_document_path_is_rejected() {
    let cases = [
        r"C:\docs\a.md",
        r"\\server\share\a.md",
        "../a.md",
        "docs/./a.md",
        "a.md:stream",
    ];
    for document in cases {
        assert_eq!(
            resolve(document, "img.png"),
            Err(PathRejection::Malformed),
            "{document}"
        );
    }
}

#[test]
fn an_issued_id_is_stable_and_resolves_to_the_path() {
    let mut resources = ImageResources::new().unwrap();
    let id = resources.issue("docs/Image.png");

    assert_eq!(resources.issue("docs/Image.png"), id);
    assert_eq!(resources.issue("DOCS/image.PNG"), id);
    assert_eq!(resources.lookup(&id).as_deref(), Some("docs/Image.png"));
    assert_eq!(id.len(), 64);
    assert!(id.bytes().all(|byte| byte.is_ascii_hexdigit()));
}

#[test]
fn an_unknown_id_is_not_resolved() {
    let mut resources = ImageResources::new().unwrap();
    resources.issue("a.png");
    assert_eq!(resources.lookup("0".repeat(64).as_str()), None);
    assert_eq!(resources.lookup(""), None);
}

#[test]
fn workspaces_do_not_share_ids() {
    let mut first = ImageResources::new().unwrap();
    let mut second = ImageResources::new().unwrap();
    let id = first.issue("a.png");

    assert_ne!(second.issue("a.png"), id);
    assert_eq!(second.lookup(&id), None);
}

#[test]
fn advancing_changes_the_ids_of_the_path_and_its_descendants() {
    let cases = [
        ("a.png", "a.png", true),
        ("img/a.png", "img", true),
        ("img/sub/a.png", "img", true),
        ("img/a.png", "IMG/A.png", true),
        ("img2/a.png", "img", false),
        ("img/a.png", "img/a", false),
        ("a.png", "b.png", false),
        ("img/a.png", "img/a.png/x", false),
    ];
    for (issued, changed, expected) in cases {
        let mut resources = ImageResources::new().unwrap();
        let before = resources.issue(issued);

        resources.advance(changed);
        let after = resources.issue(issued);

        assert_eq!(after != before, expected, "{issued} を {changed} の変更で");
        assert_eq!(
            resources.lookup(&before).is_some(),
            !expected,
            "{issued} の旧IDの扱い（{changed} の変更）"
        );
        assert_eq!(resources.lookup(&after).as_deref(), Some(issued));
    }
}

#[test]
fn every_advance_yields_a_new_id() {
    let mut resources = ImageResources::new().unwrap();
    let mut seen = vec![resources.issue("a.png")];
    for _ in 0..3 {
        resources.advance("a.png");
        let id = resources.issue("a.png");
        assert!(!seen.contains(&id), "過去のIDへ戻った");
        seen.push(id);
    }
}

#[test]
fn changes_to_unissued_paths_are_not_tracked() {
    let mut resources = ImageResources::new().unwrap();
    for index in 0..100 {
        resources.advance(&format!("f{index}.md"));
    }
    assert_eq!(resources.path_count(), 0);
    assert_eq!(resources.issued_ids(), 0);
}

#[test]
fn resetting_invalidates_every_id() {
    let mut resources = ImageResources::new().unwrap();
    let a = resources.issue("a.png");
    let b = resources.issue("docs/b.png");

    resources.reset().unwrap();

    assert_eq!(resources.lookup(&a), None);
    assert_eq!(resources.lookup(&b), None);
    assert_ne!(resources.issue("a.png"), a);
    assert_ne!(resources.issue("docs/b.png"), b);
}

#[test]
fn error_codes_map_to_statuses() {
    let cases = [
        (ErrorCode::PathRejected, 400u16),
        (ErrorCode::PathOutsideWorkspace, 403u16),
        (ErrorCode::FileNotFound, 404u16),
        (
            ErrorCode::ImageUnsupportedFormat,
            415u16,
        ),
        (ErrorCode::ImageTooLarge, 413u16),
        (
            ErrorCode::ImagePixelLimitExceeded,
            422u16,
        ),
        (
            ErrorCode::ImageDecodeFailed,
            500u16,
        ),
    ];
    for (code, expected) in cases {
        assert_eq!(status_for(code), expected, "{code:?}");
    }
}

#[test]
fn only_get_is_allowed() {
    let mut resources = ImageResources::new().unwrap();
    let id = resources.issue("a.png");
    let path = format!("/{id}");
    assert_eq!(
        request_target(false, &path, Some(&resources)),
        ImageRequestTarget::MethodNotAllowed
    );
    assert_eq!(
        request_target(true, &path, Some(&resources)),
        ImageRequestTarget::Open("a.png".to_owned())
    );
    assert_eq!(resource_id_of_path(&path), id);
    assert_eq!(resource_id_of_path("abc"), "abc");
}

#[test]
fn unknown_ids_are_not_found() {
    let mut resources = ImageResources::new().unwrap();
    resources.issue("a.png");
    let unknown = format!("/{}", "0".repeat(64));
    assert_eq!(request_target(true, &unknown, Some(&resources)), ImageRequestTarget::NotFound);
    assert_eq!(request_target(true, "/", None), ImageRequestTarget::NotFound);
}

#[test]
fn failures_have_statuses() {
    assert_eq!(failure_status(&ImageError::Rejected(ImageRejection::TooLarge)), 413);
    assert_eq!(
        failure_status(&ImageError::Resolve(ResolveError::Io(IoFailure::from_kind(IoErrorKind::NotFound)))),
        404
    );
    assert_eq!(
        failure_status(&ImageError::Resolve(ResolveError::Io(IoFailure::from_raw_os_error(32)))),
        500
    );
    assert!(image_size_allowed(MAX_IMAGE_BYTES as u64));
    assert!(!image_size_allowed(MAX_IMAGE_BYTES as u64 + 1));
}

#[test]
fn reference_segments_are_percent_decoded() {
    assert_eq!(decode_segment("my%20img.png").as_deref(), Some("my img.png"));
    assert_eq!(decode_segment("%E5%9B%B3").as_deref(), Some("図"));
    assert_eq!(decode_segment("a%2"), None);
    assert_eq!(decode_segment("%FF"), None);
}

#[test]
fn only_the_allowed_image_types_are_raster_formats() {
    let cases = [
        ("Png", Some(ImageFormat::Png)),
        ("Jpeg", Some(ImageFormat::Jpeg)),
        ("Gif", Some(ImageFormat::Gif)),
        ("Webp", Some(ImageFormat::Webp)),
        ("Bmp", Some(ImageFormat::Bmp)),
        ("Heif(Av1)", Some(ImageFormat::Avif)),
        ("Heif(Hevc)", None),
        ("Heif(Unknown)", None),
        ("Tiff", None),
        ("Ico", None),
        ("png", None),
    ];
    for (name, expected) in cases {
        assert_eq!(allowed_raster(name), expected, "{name}");
    }
}

#[test]
fn tables_under_different_salts_give_different_ids() {
    let mut first = ImageResources::with_salt(vec![1u8; SALT_BYTES]);
    let mut second = ImageResources::with_salt(vec![2u8; SALT_BYTES]);
    let mut same = ImageResources::with_salt(vec![1u8; SALT_BYTES]);
    let id = first.issue("a.png");
    assert_eq!(id.len(), 64);
    assert_ne!(second.issue("a.png"), id);
    assert_eq!(second.lookup(&id), None);
    assert_eq!(same.issue("a.png"), id);
}

#[test]
fn resetting_with_a_new_salt_changes_the_ids() {
    let mut resources = ImageResources::with_salt(vec![7u8; SALT_BYTES]);
    let a = resources.issue("a.png");
    resources.reset_with(vec![8u8; SALT_BYTES]);
    assert_eq!(resources.lookup(&a), None);
    assert_eq!(resources.path_count(), 0);
    assert_ne!(resources.issue("a.png"), a);
    resources.reset_with(vec![7u8; SALT_BYTES]);
    assert_eq!(resources.issue("a.png"), a);
}

#[test]
fn pixel_limits_apply_to_each_edge_and_the_total() {
    assert!(dimensions_within_limits(16384, 1));
    assert!(!dimensions_within_limits(16385, 1));
    assert!(!dimensions_within_limits(1, 16385));
    assert!(dimensions_within_limits(6000, 4000));
    assert!(!dimensions_within_limits(6400, 4000));
    assert!(dimensions_within_limits(0, 0));
}
