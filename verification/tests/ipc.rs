use md_peruse::i18n::Language;
use md_peruse::image::error::ImageError;
use md_peruse::image::format::ImageRejection;
use md_peruse::ipc::command_errors::{
    directory_error_code, file_error_code, image_error_code, open_error_code, read_error, scan_error,
};
use md_peruse::ipc::error::ErrorCode;
use md_peruse::ipc::message::{ipc_error, message};
use md_peruse::path_guard::{IoErrorKind, IoFailure, PathRejection, ResolveError};
use md_peruse::read::ReadError;


#[test]
fn directory_errors_map_to_directory_codes() {
    let cases = [
        (
            ResolveError::Rejected(PathRejection::Malformed),
            ErrorCode::PathRejected,
        ),
        (
            ResolveError::Rejected(PathRejection::Outside),
            ErrorCode::PathOutsideWorkspace,
        ),
        (
            ResolveError::Io(IoFailure::from_kind(IoErrorKind::NotFound)),
            ErrorCode::DirectoryNotFound,
        ),
        (
            ResolveError::Io(IoFailure::from_kind(IoErrorKind::PermissionDenied)),
            ErrorCode::DirectoryAccessDenied,
        ),
        (
            ResolveError::Io(IoFailure::from_kind(IoErrorKind::Other)),
            ErrorCode::DirectoryAccessDenied,
        ),
    ];
    for (error, expected) in cases {
        assert_eq!(directory_error_code(&error), expected, "{error:?}");
    }
}

#[test]
fn rejected_requests_do_not_echo_the_input_path() {
    let native_paths = [
        r"C:\Users\someone\secret",
        r"\\server\share\secret.md",
        r"\\?\C:\Users\someone\secret.md",
        "a.md:stream",
    ];
    for path in native_paths {
        let error = scan_error(
            &ResolveError::Rejected(PathRejection::Malformed),
            path,
            Language::Ja,
        );
        assert_eq!(error.code, ErrorCode::PathRejected);
        assert_eq!(error.detail, None, "入力をそのまま返している: {path}");
        assert!(
            !error.message.contains(path),
            "文言が入力を含む: {}",
            error.message
        );
    }
}

#[test]
fn resolvable_requests_carry_the_relative_path() {
    let cases = [
        (
            ResolveError::Rejected(PathRejection::Outside),
            ErrorCode::PathOutsideWorkspace,
        ),
        (
            ResolveError::Io(IoFailure::from_kind(IoErrorKind::NotFound)),
            ErrorCode::DirectoryNotFound,
        ),
        (
            ResolveError::Io(IoFailure::from_kind(IoErrorKind::PermissionDenied)),
            ErrorCode::DirectoryAccessDenied,
        ),
    ];
    for (error, expected_code) in cases {
        let ipc = scan_error(&error, "docs/sub", Language::Ja);
        assert_eq!(ipc.code, expected_code);
        assert_eq!(ipc.detail.as_deref(), Some("docs/sub"));
    }
}

#[test]
fn file_errors_map_to_file_codes() {
    let sharing_violation = IoFailure::from_raw_os_error(32);
    let cases = [
        (ReadError::TooLarge, ErrorCode::FileTooLarge),
        (ReadError::Decode, ErrorCode::DecodeFailed),
        (
            ReadError::Resolve(ResolveError::Rejected(PathRejection::Malformed)),
            ErrorCode::PathRejected,
        ),
        (
            ReadError::Resolve(ResolveError::Rejected(PathRejection::Outside)),
            ErrorCode::PathOutsideWorkspace,
        ),
        (
            ReadError::Resolve(ResolveError::Io(IoFailure::from_kind(IoErrorKind::NotFound))),
            ErrorCode::FileNotFound,
        ),
        (
            ReadError::Resolve(ResolveError::Io(sharing_violation)),
            ErrorCode::FileLocked,
        ),
        (
            ReadError::Resolve(ResolveError::Io(IoFailure::from_kind(IoErrorKind::PermissionDenied))),
            ErrorCode::FileAccessDenied,
        ),
        (
            ReadError::Resolve(ResolveError::Io(IoFailure::from_kind(IoErrorKind::Other))),
            ErrorCode::FileAccessDenied,
        ),
    ];
    for (error, expected) in cases {
        assert_eq!(file_error_code(&error), expected, "{error:?}");
    }
}

#[test]
fn rejected_reads_do_not_echo_the_input_path() {
    let native_paths = [
        r"C:\Users\someone\secret.md",
        r"\\server\share\secret.md",
        r"\\?\C:\Users\someone\secret.md",
        "a.md:stream",
    ];
    for path in native_paths {
        let error = read_error(
            &ReadError::Resolve(ResolveError::Rejected(PathRejection::Malformed)),
            path,
            Language::Ja,
        );
        assert_eq!(error.code, ErrorCode::PathRejected);
        assert_eq!(error.detail, None, "入力をそのまま返している: {path}");
        assert!(
            !error.message.contains(path),
            "文言が入力を含む: {}",
            error.message
        );
    }
}

#[test]
fn failed_reads_carry_the_relative_path() {
    let cases = [
        (ReadError::TooLarge, ErrorCode::FileTooLarge),
        (ReadError::Decode, ErrorCode::DecodeFailed),
        (
            ReadError::Resolve(ResolveError::Io(IoFailure::from_kind(IoErrorKind::NotFound))),
            ErrorCode::FileNotFound,
        ),
    ];
    for (error, expected_code) in cases {
        let ipc = read_error(&error, "docs/note.md", Language::Ja);
        assert_eq!(ipc.code, expected_code);
        assert_eq!(ipc.detail.as_deref(), Some("docs/note.md"));
    }
}

#[test]
fn image_issue_errors_map_to_image_codes() {

    let cases = [
        (
            ImageError::Rejected(ImageRejection::UnsupportedFormat),
            ErrorCode::ImageUnsupportedFormat,
        ),
        (
            ImageError::Rejected(ImageRejection::TooLarge),
            ErrorCode::ImageTooLarge,
        ),
        (
            ImageError::Rejected(ImageRejection::PixelLimitExceeded),
            ErrorCode::ImagePixelLimitExceeded,
        ),
        (
            ImageError::Rejected(ImageRejection::Decode),
            ErrorCode::ImageDecodeFailed,
        ),
        (
            ImageError::Resolve(ResolveError::Rejected(PathRejection::Malformed)),
            ErrorCode::PathRejected,
        ),
        (
            ImageError::Resolve(ResolveError::Rejected(PathRejection::Outside)),
            ErrorCode::PathOutsideWorkspace,
        ),
        (
            ImageError::Resolve(ResolveError::Io(IoFailure::from_kind(IoErrorKind::NotFound))),
            ErrorCode::FileNotFound,
        ),
        (
            ImageError::Resolve(ResolveError::Io(IoFailure::from_kind(IoErrorKind::PermissionDenied))),
            ErrorCode::ImageDecodeFailed,
        ),
        (
            ImageError::Resolve(ResolveError::Io(IoFailure::from_raw_os_error(32))),
            ErrorCode::ImageDecodeFailed,
        ),
    ];
    for (error, expected) in cases {
        assert_eq!(image_error_code(&error), expected, "{error:?}");
    }
}

const ALL_CODES: [ErrorCode; 19] = [
    ErrorCode::WorkspaceAccessDenied,
    ErrorCode::WorkspaceNotFound,
    ErrorCode::PathOutsideWorkspace,
    ErrorCode::PathRejected,
    ErrorCode::DirectoryAccessDenied,
    ErrorCode::DirectoryNotFound,
    ErrorCode::FileNotFound,
    ErrorCode::FileAccessDenied,
    ErrorCode::FileLocked,
    ErrorCode::FileTooLarge,
    ErrorCode::DecodeFailed,
    ErrorCode::ImageUnsupportedFormat,
    ErrorCode::ImageTooLarge,
    ErrorCode::ImagePixelLimitExceeded,
    ErrorCode::ImageDecodeFailed,
    ErrorCode::WatcherOverflow,
    ErrorCode::WatcherStopped,
    ErrorCode::SettingsCorrupted,
    ErrorCode::RecentFolderNotFound,
];

#[test]
fn every_code_has_a_message_in_both_languages() {
    for code in ALL_CODES {
        for language in [Language::Ja, Language::En] {
            let text = message(code, language);
            assert!(!text.is_empty(), "{code:?} / {language:?} の文言が空である");
        }
    }
}

#[test]
fn messages_do_not_leak_native_paths() {
    for code in ALL_CODES {
        for language in [Language::Ja, Language::En] {
            let text = message(code, language);
            assert!(!text.contains('\\'), "{code:?} がパス区切りを含む: {text}");
            assert!(
                !text.contains(":\\"),
                "{code:?} がドライブ表記を含む: {text}"
            );
        }
    }
}

#[test]
fn ipc_error_carries_the_code_and_detail() {
    let error = ipc_error(
        ErrorCode::DirectoryNotFound,
        Language::Ja,
        Some("docs/sub".to_owned()),
    );
    assert_eq!(error.code, ErrorCode::DirectoryNotFound);
    assert_eq!(error.message, message(ErrorCode::DirectoryNotFound, Language::Ja));
    assert_eq!(error.detail.as_deref(), Some("docs/sub"));
}

#[test]
fn open_errors_map_to_workspace_codes() {
    let cases = [
        (IoErrorKind::NotFound, ErrorCode::WorkspaceNotFound),
        (
            IoErrorKind::PermissionDenied,
            ErrorCode::WorkspaceAccessDenied,
        ),
        (
            IoErrorKind::NotADirectory,
            ErrorCode::WorkspaceAccessDenied,
        ),
        (IoErrorKind::Other, ErrorCode::WorkspaceAccessDenied),
    ];
    for (kind, expected) in cases {
        assert_eq!(
            open_error_code(&IoFailure::from_kind(kind)),
            expected,
            "{kind:?}"
        );
    }
}
