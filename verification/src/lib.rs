//! A read-only Markdown viewer's core rules: workspace path validation, tree
//! ordering, text decoding, image reference resolution and admission, image
//! resource identifiers, file-watch debouncing and coalescing, settings and
//! user-facing messages.

pub mod text;
pub mod limits;
pub mod file_kind;
pub mod ipc;
pub mod path_list;
pub mod watch;
pub mod natural_order;
pub mod path_guard;
pub mod image;
pub mod i18n;
pub mod read;
pub mod settings;
pub mod settings_store;
pub mod startup;
pub mod drop;
pub mod menu;
pub mod webview_keys;
pub mod telemetry;
pub mod scan;
pub mod watch_runtime;
