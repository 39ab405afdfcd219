//! Local images: resolving references, admitting formats within the limits,
//! and the resource identifiers under which admitted images are served.

pub mod reference;
pub mod format;
pub mod error;
pub mod resource;
pub mod protocol;
