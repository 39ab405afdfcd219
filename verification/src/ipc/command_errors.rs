//! How failures of the front end's requests are reported: which error code
//! each failure maps to, and whether the requested path is echoed.
//!
//! A request whose path failed the form check may hold anything, native
//! absolute paths included, so it is never echoed. A path that passed the
//! check is workspace-relative and is put in `detail` to say which item
//! failed.

use vstd::prelude::*;
use crate::i18n::Language;
use crate::image::error::{ImageError, image_error_code_of};
use crate::ipc::error::{ErrorCode, IpcError};
use crate::ipc::message::{ipc_error, message_text};
use crate::path_guard::{IoErrorKind, IoFailure, PathRejection, ResolveError};
use crate::read::{ReadError, is_sharing_violation, sharing_violation};

verus! {

/// The code of a failure to list a directory. Anything but a missing
/// directory counts as an access failure (disconnected drives included).
pub open spec fn directory_code(e: ResolveError) -> ErrorCode {
    match e {
        ResolveError::Rejected(PathRejection::Malformed) => ErrorCode::PathRejected,
        ResolveError::Rejected(PathRejection::Outside) => ErrorCode::PathOutsideWorkspace,
        ResolveError::Io(f) => if f.kind == IoErrorKind::NotFound {
            ErrorCode::DirectoryNotFound
        } else {
            ErrorCode::DirectoryAccessDenied
        },
    }
}

/// The code of a failure to read a file. A sharing violation is told apart
/// from denied access, as it clears once the other program closes the file.
pub open spec fn file_code(e: ReadError) -> ErrorCode {
    match e {
        ReadError::TooLarge => ErrorCode::FileTooLarge,
        ReadError::Decode => ErrorCode::DecodeFailed,
        ReadError::Resolve(ResolveError::Rejected(PathRejection::Malformed)) => ErrorCode::PathRejected,
        ReadError::Resolve(ResolveError::Rejected(PathRejection::Outside)) => ErrorCode::PathOutsideWorkspace,
        ReadError::Resolve(ResolveError::Io(f)) => if f.kind == IoErrorKind::NotFound {
            ErrorCode::FileNotFound
        } else if sharing_violation(f) {
            ErrorCode::FileLocked
        } else {
            ErrorCode::FileAccessDenied
        },
    }
}

/// The code of a failure to open a folder as workspace: only a missing
/// folder is told apart.
pub open spec fn open_code(e: IoFailure) -> ErrorCode {
    if e.kind == IoErrorKind::NotFound {
        ErrorCode::WorkspaceNotFound
    } else {
        ErrorCode::WorkspaceAccessDenied
    }
}

/// Maps a directory-listing failure to its code.
pub fn directory_error_code(error: &ResolveError) -> (r: ErrorCode)
    ensures
        r == directory_code(*error),
{
    match error {
        ResolveError::Rejected(PathRejection::Malformed) => ErrorCode::PathRejected,
        ResolveError::Rejected(PathRejection::Outside) => ErrorCode::PathOutsideWorkspace,
        ResolveError::Io(cause) => if cause.kind == IoErrorKind::NotFound {
            ErrorCode::DirectoryNotFound
        } else {
            ErrorCode::DirectoryAccessDenied
        },
    }
}

/// Reports a directory-listing failure. The requested path is echoed in
/// `detail` unless it failed the form check.
pub fn scan_error(error: &ResolveError, requested_path: &str, language: Language) -> (r: IpcError)
    ensures
        r.code == directory_code(*error),
        r.message@ == message_text(r.code, language),
        r.detail is None <==> *error == ResolveError::Rejected(PathRejection::Malformed),
        r.detail matches Some(d) ==> d@ == requested_path@,
{
    let detail = match error {
        ResolveError::Rejected(PathRejection::Malformed) => None,
        _ => Some(requested_path.to_owned()),
    };
    ipc_error(directory_error_code(error), language, detail)
}

/// Maps a file-reading failure to its code.
pub fn file_error_code(error: &ReadError) -> (r: ErrorCode)
    ensures
        r == file_code(*error),
{
    match error {
        ReadError::TooLarge => ErrorCode::FileTooLarge,
        ReadError::Decode => ErrorCode::DecodeFailed,
        ReadError::Resolve(ResolveError::Rejected(PathRejection::Malformed)) => ErrorCode::PathRejected,
        ReadError::Resolve(ResolveError::Rejected(PathRejection::Outside)) => ErrorCode::PathOutsideWorkspace,
        ReadError::Resolve(ResolveError::Io(cause)) => if cause.kind == IoErrorKind::NotFound {
            ErrorCode::FileNotFound
        } else if is_sharing_violation(cause) {
            ErrorCode::FileLocked
        } else {
            ErrorCode::FileAccessDenied
        },
    }
}

/// Reports a file-reading failure. The requested path is echoed in `detail`
/// unless it failed the form check.
pub fn read_error(error: &ReadError, requested_path: &str, language: Language) -> (r: IpcError)
    ensures
        r.code == file_code(*error),
        r.message@ == message_text(r.code, language),
        r.detail is None <==> *error == ReadError::Resolve(ResolveError::Rejected(PathRejection::Malformed)),
        r.detail matches Some(d) ==> d@ == requested_path@,
{
    let detail = match error {
        ReadError::Resolve(ResolveError::Rejected(PathRejection::Malformed)) => None,
        _ => Some(requested_path.to_owned()),
    };
    ipc_error(file_error_code(error), language, detail)
}

/// Maps an image issuing failure to its code. No `detail` is sent: the
/// response element carries the reference as written.
pub fn image_error_code(error: &ImageError) -> (r: ErrorCode)
    ensures
        r == image_error_code_of(*error),
{
    error.code()
}

/// Maps a failure to open a folder as workspace to its code.
pub fn open_error_code(error: &IoFailure) -> (r: ErrorCode)
    ensures
        r == open_code(*error),
{
    if error.kind == IoErrorKind::NotFound {
        ErrorCode::WorkspaceNotFound
    } else {
        ErrorCode::WorkspaceAccessDenied
    }
}

} // verus!
