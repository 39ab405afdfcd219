//! Machine-readable failure codes and the error value carried over IPC.

use vstd::prelude::*;

verus! {

/// Identifies an IPC failure. The front end branches on this value and never
/// compares message texts.
#[derive(Debug, Clone, Copy, PartialEq, Eq, Structural)]
pub enum ErrorCode {
    /// The folder chosen as workspace cannot be accessed.
    WorkspaceAccessDenied,
    /// The workspace root does not exist, including when it was moved or deleted.
    WorkspaceNotFound,
    /// The target lies outside the workspace boundary.
    PathOutsideWorkspace,
    /// The path's form is not accepted.
    PathRejected,
    /// A directory being expanded cannot be accessed.
    DirectoryAccessDenied,
    /// A directory being expanded does not exist.
    DirectoryNotFound,
    /// The file does not exist.
    FileNotFound,
    /// Access to the file was denied.
    FileAccessDenied,
    /// Another process holds the file (sharing violation).
    FileLocked,
    /// The Markdown file exceeds its size limit.
    FileTooLarge,
    /// The text encoding is unsupported or invalid.
    DecodeFailed,
    /// The image is not in an allowed format.
    ImageUnsupportedFormat,
    /// The image exceeds its size limit.
    ImageTooLarge,
    /// The image's pixel dimensions exceed the limits.
    ImagePixelLimitExceeded,
    /// The image cannot be read or its dimensions cannot be read.
    ImageDecodeFailed,
    /// The watcher fell behind and individual events were lost.
    WatcherOverflow,
    /// The watcher stopped.
    WatcherStopped,
    /// The settings file cannot be read.
    SettingsCorrupted,
    /// The settings cannot be saved.
    SettingsSaveFailed,
    /// A recent-folder entry requested by the front end is unknown.
    RecentFolderNotFound,
}

/// An IPC failure: its code, a message in the current UI language and an
/// optional detail. Neither text holds a native absolute path.
#[derive(Debug, Clone, PartialEq, Eq)]
pub struct IpcError {
    pub code: ErrorCode,
    pub message: String,
    pub detail: Option<String>,
}

} // verus!
