//! Values exchanged with the front end.

use vstd::prelude::*;

verus! {

/// Kind of an element shown in the tree.
#[derive(Debug, Clone, Copy, PartialEq, Eq, Structural)]
pub enum FileNodeKind {
    Directory,
    Markdown,
}

/// One element of the tree.
#[derive(Debug, Clone, PartialEq, Eq)]
pub struct FileNode {
    /// Workspace-relative path, separated by `/`.
    pub path: String,
    /// Display name: the last component of `path`.
    pub name: String,
    pub kind: FileNodeKind,
    /// For a directory, whether it has visible children; `None` for a file.
    pub has_children: Option<bool>,
}

/// Request to list one directory level; the root is the empty path.
#[derive(Debug, Clone, PartialEq, Eq)]
pub struct ScanRequest {
    pub path: String,
}

/// Request to read one file.
#[derive(Debug, Clone, PartialEq, Eq)]
pub struct ReadRequest {
    pub path: String,
}

/// Text encoding recognised from the byte order mark.
#[derive(Debug, Clone, Copy, PartialEq, Eq, Structural)]
pub enum TextEncoding {
    Utf8,
    Utf8Bom,
    Utf16Le,
    Utf16Be,
}

/// Result of reading a file.
#[derive(Debug, Clone, PartialEq, Eq)]
pub struct FileContent {
    /// The requested workspace-relative path.
    pub path: String,
    /// The text, with newlines normalised to LF and without the BOM.
    pub text: String,
    pub encoding: TextEncoding,
    /// Number of bytes read from the file.
    pub byte_size: u32,
}

/// A change confirmed by the watcher.
#[derive(Debug, Clone, PartialEq, Eq)]
pub enum FileChange {
    /// A file's contents changed.
    FileModified { path: String },
    /// A file was removed and not replaced within the window.
    FileRemoved { path: String },
    /// A file was renamed from `old_path` to `path`.
    FileRenamed { path: String, old_path: String },
    /// The children of a directory changed.
    DirectoryChanged { path: String },
}

/// The mathematical content of a `FileChange`.
pub enum FileChangeView {
    FileModified { path: Seq<char> },
    FileRemoved { path: Seq<char> },
    FileRenamed { path: Seq<char>, old_path: Seq<char> },
    DirectoryChanged { path: Seq<char> },
}

impl View for FileChange {
    type V = FileChangeView;

    open spec fn view(&self) -> FileChangeView {
        match self {
            FileChange::FileModified { path } => FileChangeView::FileModified { path: path@ },
            FileChange::FileRemoved { path } => FileChangeView::FileRemoved { path: path@ },
            FileChange::FileRenamed { path, old_path } => FileChangeView::FileRenamed {
                path: path@,
                old_path: old_path@,
            },
            FileChange::DirectoryChanged { path } => FileChangeView::DirectoryChanged {
                path: path@,
            },
        }
    }
}

/// The views of a sequence of changes.
pub open spec fn changes_view(changes: Seq<FileChange>) -> Seq<FileChangeView> {
    changes.map_values(|c: FileChange| c@)
}

/// A confirmed change together with the scope it belongs to.
#[derive(Debug, Clone, PartialEq, Eq)]
pub struct FileChangeEvent {
    /// Opaque identifier of the watch scope.
    pub scope_id: String,
    pub change: FileChange,
}

/// Watcher failure sent to the front end.
#[derive(Debug, Clone, PartialEq, Eq)]
pub struct WatcherErrorEvent {
    pub scope_id: String,
    pub error: crate::ipc::error::IpcError,
}

/// Colour theme.
#[derive(Debug, Clone, Copy, PartialEq, Eq, Structural)]
pub enum Theme {
    Light,
    Dark,
}

/// Notification of a change of the operating system's colour theme.
#[derive(Debug, Clone, Copy, PartialEq, Eq, Structural)]
pub struct ThemeChangedEvent {
    pub theme: Theme,
}

/// Result of listing one directory level.
#[derive(Debug, Clone, PartialEq, Eq)]
pub struct ScanResult {
    /// The requested workspace-relative path.
    pub path: String,
    /// Direct children, directories first.
    pub entries: Vec<FileNode>,
}

/// Request to issue resource identifiers for the images of a document.
#[derive(Debug, Clone, PartialEq, Eq)]
pub struct ImageResourceRequest {
    /// Workspace-relative path of the referring document.
    pub document_path: String,
    /// Image references as written in the document.
    pub references: Vec<String>,
}

/// Outcome for one image reference.
#[derive(Debug, Clone, PartialEq, Eq)]
pub enum ImageResource {
    Issued { reference: String, resource_id: String },
    Failed { reference: String, error: crate::ipc::error::IpcError },
}

/// Whether a drag in progress can be accepted.
#[derive(Debug, Clone, Copy, PartialEq, Eq, Structural)]
pub enum DragState {
    Idle,
    Acceptable,
    Rejected,
}

/// Sent to the front end when a workspace has been opened.
#[derive(Debug, Clone, PartialEq, Eq)]
pub struct WorkspaceOpenedEvent {
    pub scope_id: String,
    /// Display name of the folder; never a full absolute path.
    pub label: String,
}

} // verus!
