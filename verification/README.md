# md_peruse

The core of a read-only Markdown viewer for Windows, written in Verus: every
rule that decides what the viewer shows, reads or refuses is an executable
function with a contract proved by the verifier.

## Layout

- `src/` — the verified library.
  - `path_guard` — workspace-relative paths, the workspace boundary compared
    by path component, and the relative form of watcher paths.
  - `scan`, `natural_order`, `file_kind` — which directory entries the tree
    shows and in which order (folders first, names in natural order).
  - `read` — the Markdown size limit, encoding by byte order mark, newline
    normalisation.
  - `image` — resolving image references against a document, admitting
    formats within the byte and pixel limits, resource identifiers (HMAC of
    path and generation) and the status of a failed image request.
  - `watch`, `watch_runtime` — the debounce window, coalescing raw events into
    confirmed changes, and the watcher thread's decisions.
  - `settings`, `settings_store` — settings values, updates, recent folders,
    what loading leads to and when the writer writes.
  - `ipc`, `i18n`, `menu`, `webview_keys`, `telemetry`, `startup`, `drop` —
    error codes and their messages, the UI language, menu commands and their
    keys, usage events, start-up arguments and dropped paths.
- `tests/` — the library's tests, run against the compiled crate.
- `app/` — the desktop shell around the library: file system access, the
  operating system's file notifications, the settings file, threads, and the
  Tauri windows, menus and dialogs.

Calls into `imagesize`, `hmac`/`sha2` and `getrandom`, and a few standard
library conversions, are made through small trusted wrappers whose contracts
say what those functions return.
