//! Why an image cannot be issued or served. Issuing and serving share these
//! reasons and their mapping to error codes.

use vstd::prelude::*;
use super::format::{ImageRejection, rejection_code};
use crate::ipc::error::ErrorCode;
use crate::path_guard::{IoErrorKind, PathRejection, ResolveError};

verus! {

/// Why an image cannot be issued or served: a path failure, as for scanning
/// and reading, or an image rejection.
#[derive(Debug, Clone, Copy, PartialEq, Eq, Structural)]
pub enum ImageError {
    Resolve(ResolveError),
    Rejected(ImageRejection),
}

/// The error code of an image failure. A missing file is `FileNotFound`,
/// the most likely mistake in a reference; every other file-system failure
/// is reported as `ImageDecodeFailed`, since at the image's place the reader
/// can do nothing different about it.
pub open spec fn image_error_code_of(e: ImageError) -> ErrorCode {
    match e {
        ImageError::Rejected(r) => rejection_code(r),
        ImageError::Resolve(ResolveError::Rejected(PathRejection::Malformed)) => ErrorCode::PathRejected,
        ImageError::Resolve(ResolveError::Rejected(PathRejection::Outside)) => ErrorCode::PathOutsideWorkspace,
        ImageError::Resolve(ResolveError::Io(f)) => if f.kind == IoErrorKind::NotFound {
            ErrorCode::FileNotFound
        } else {
            ErrorCode::ImageDecodeFailed
        },
    }
}

impl ImageError {
    /// The corresponding `ErrorCode`.
    pub fn code(&self) -> (r: ErrorCode)
        ensures
            r == image_error_code_of(*self),
    {
        match self {
            ImageError::Rejected(rejection) => rejection.code(),
            ImageError::Resolve(ResolveError::Rejected(PathRejection::Malformed)) => ErrorCode::PathRejected,
            ImageError::Resolve(ResolveError::Rejected(PathRejection::Outside)) => ErrorCode::PathOutsideWorkspace,
            ImageError::Resolve(ResolveError::Io(cause)) => if cause.kind == IoErrorKind::NotFound {
                ErrorCode::FileNotFound
            } else {
                ErrorCode::ImageDecodeFailed
            },
        }
    }
}

} // verus!
