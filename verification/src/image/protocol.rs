//! Serving images under their resource identifiers: which identifier a
//! request names, the byte limit checked before reading, and the HTTP status
//! of a failure. The response itself is built outside the library.

use vstd::prelude::*;
use crate::ipc::error::ErrorCode;
use super::error::{ImageError, image_error_code_of};
use super::resource::{ImageResources, table_get};
use crate::limits::MAX_IMAGE_BYTES;
use crate::text::{chars_of, string_of};

verus! {

/// The resource identifier a request path names: the path without its
/// leading `/`.
pub open spec fn requested_id(path: Seq<char>) -> Seq<char> {
    if path.len() > 0 && path[0] == '/' {
        path.drop_first()
    } else {
        path
    }
}

/// The resource identifier named by a request path.
pub fn resource_id_of_path(path: &str) -> (r: String)
    ensures
        r@ == requested_id(path@),
{
    let chars = chars_of(path);
    if chars.len() > 0 && chars[0] == '/' {
        let mut rest: Vec<char> = Vec::new();
        let mut k: usize = 1;
        while k < chars.len()
            invariant
                1 <= k <= chars.len(),
                rest@ == chars@.subrange(1, k as int),
            decreases chars.len() - k,
        {
            rest.push(chars[k]);
            assert(chars@.subrange(1, k + 1) =~= chars@.subrange(1, k as int).push(chars@[k as int]));
            k = k + 1;
        }
        assert(chars@.subrange(1, k as int) =~= chars@.drop_first());
        string_of(rest.as_slice())
    } else {
        path.to_owned()
    }
}

/// Whether an image file of `len` bytes is within the image byte limit.
pub fn image_size_allowed(len: u64) -> (r: bool)
    ensures
        r == (len <= MAX_IMAGE_BYTES),
{
    len <= MAX_IMAGE_BYTES as u64
}

/// The HTTP status of an image that cannot be served, for diagnostics
/// (an `img` element cannot read it).
pub open spec fn status_of(code: ErrorCode) -> u16 {
    match code {
        ErrorCode::PathRejected => 400,
        ErrorCode::PathOutsideWorkspace => 403,
        ErrorCode::FileNotFound => 404,
        ErrorCode::ImageUnsupportedFormat => 415,
        ErrorCode::ImageTooLarge => 413,
        ErrorCode::ImagePixelLimitExceeded => 422,
        _ => 500,
    }
}

/// Maps an error code to the HTTP status of the image response.
pub fn status_for(code: ErrorCode) -> (r: u16)
    ensures
        r == status_of(code),
{
    match code {
        ErrorCode::PathRejected => 400,
        ErrorCode::PathOutsideWorkspace => 403,
        ErrorCode::FileNotFound => 404,
        ErrorCode::ImageUnsupportedFormat => 415,
        ErrorCode::ImageTooLarge => 413,
        ErrorCode::ImagePixelLimitExceeded => 422,
        _ => 500,
    }
}

/// What an image request leads to before any file is touched.
#[derive(Debug, Clone, PartialEq, Eq)]
pub enum ImageRequestTarget {
    /// Only `GET` is answered (405, with `Allow: GET`).
    MethodNotAllowed,
    /// No workspace is open, or the identifier is not in its table (404):
    /// an identifier of another workspace, of an old generation or a guessed
    /// one is not told apart from a missing image.
    NotFound,
    /// The workspace-relative path to open and serve.
    Open(String),
}

/// Decides what an image request leads to: the method, then the identifier
/// named by the request path, looked up in the open workspace's table.
pub fn request_target(is_get: bool, path: &str, images: Option<&ImageResources>) -> (r: ImageRequestTarget)
    ensures
        !is_get ==> r == ImageRequestTarget::MethodNotAllowed,
        is_get && images is None ==> r == ImageRequestTarget::NotFound,
        is_get ==> (images matches Some(t) ==> match table_get(t@.issued, requested_id(path@)) {
            Some(p) => (r matches ImageRequestTarget::Open(o) && o@ == p),
            None => r == ImageRequestTarget::NotFound,
        }),
{
    if !is_get {
        return ImageRequestTarget::MethodNotAllowed;
    }
    match images {
        None => ImageRequestTarget::NotFound,
        Some(table) => {
            let id = resource_id_of_path(path);
            match table.lookup(id.as_str()) {
                Some(relative) => ImageRequestTarget::Open(relative),
                None => ImageRequestTarget::NotFound,
            }
        },
    }
}

/// The HTTP status of an image that could not be served.
pub fn failure_status(error: &ImageError) -> (r: u16)
    ensures
        r == status_of(image_error_code_of(*error)),
{
    status_for(error.code())
}

} // verus!
