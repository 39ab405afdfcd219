//! What loading the settings file at start-up leads to.
//!
//! Settings that cannot be used (broken JSON, a file of a newer version, a
//! failed read) are moved aside before starting with the defaults; if they
//! cannot be moved aside, nothing is written during the session, so that a
//! file the user might still repair is never overwritten.

use vstd::prelude::*;
use crate::ipc::error::ErrorCode;
use crate::settings::Settings;

verus! {

/// The result of loading the settings at start-up.
#[derive(Debug, Clone, Copy, PartialEq, Eq, Structural)]
pub enum LoadOutcome {
    /// Loaded; also when there was no file (first start).
    Loaded,
    /// Unusable; moved aside, started with the defaults.
    ResetAfterBackup,
    /// Unusable and could not be moved aside; started with the defaults and
    /// nothing is written during this session.
    ResetWithoutSaving,
}

impl LoadOutcome {
    /// Whether the user must be told (the settings were reset).
    pub fn needs_notice(self) -> (r: bool)
        ensures
            r == (self != LoadOutcome::Loaded),
    {
        match self {
            LoadOutcome::Loaded => false,
            _ => true,
        }
    }

    /// Whether changes may be written during the session.
    pub fn allows_saving(self) -> (r: bool)
        ensures
            r == (self != LoadOutcome::ResetWithoutSaving),
    {
        match self {
            LoadOutcome::ResetWithoutSaving => false,
            _ => true,
        }
    }
}

/// The outcome for unusable settings, by whether moving them aside worked.
pub fn outcome_after_backup(moved_aside: bool) -> (r: LoadOutcome)
    ensures
        moved_aside ==> r == LoadOutcome::ResetAfterBackup,
        !moved_aside ==> r == LoadOutcome::ResetWithoutSaving,
{
    if moved_aside {
        LoadOutcome::ResetAfterBackup
    } else {
        LoadOutcome::ResetWithoutSaving
    }
}

/// What the user is told at start-up: nothing after a normal load; that the
/// settings were reset; and, when they could not be moved aside either, that
/// changes will not be saved.
pub fn notice_codes(outcome: LoadOutcome) -> (r: Vec<ErrorCode>)
    ensures
        outcome == LoadOutcome::Loaded ==> r@ == Seq::<ErrorCode>::empty(),
        outcome == LoadOutcome::ResetAfterBackup ==> r@ == seq![ErrorCode::SettingsCorrupted],
        outcome == LoadOutcome::ResetWithoutSaving ==> r@ == seq![ErrorCode::SettingsCorrupted, ErrorCode::SettingsSaveFailed],
{
    let mut codes: Vec<ErrorCode> = Vec::new();
    match outcome {
        LoadOutcome::Loaded => {},
        LoadOutcome::ResetAfterBackup => {
            codes.push(ErrorCode::SettingsCorrupted);
        },
        LoadOutcome::ResetWithoutSaving => {
            codes.push(ErrorCode::SettingsCorrupted);
            codes.push(ErrorCode::SettingsSaveFailed);
        },
    }
    codes
}

// ---------------------------------------------------------------------------
// The writer: changes are written once they have been quiet for the
// debounce period, on a flush, and when the store closes.

/// What the writer is told or notices.
#[derive(Debug, Clone)]
pub enum WriterEvent {
    /// New settings to be written.
    Save(Settings),
    /// Write now what is pending; the caller waits for the answer.
    Flush,
    /// The debounce period passed without a new message.
    Quiet,
    /// The store was dropped; no message will come.
    Closed,
}

/// What the writer does after an event.
#[derive(Debug, Clone)]
pub struct WriterStep {
    /// The settings to write now, if any.
    pub write: Option<Settings>,
    /// Whether the flushing caller is to be answered (after the write).
    pub acknowledge: bool,
    /// Whether the writer ends.
    pub stop: bool,
}

/// The pending settings after an event: a save replaces them, anything else
/// writes them.
pub open spec fn pending_after(pending: Option<Settings>, event: WriterEvent) -> Option<Settings> {
    match event {
        WriterEvent::Save(s) => Some(s),
        _ => None,
    }
}

/// The settings written on an event: the pending ones, unless it is a save.
pub open spec fn written_on(pending: Option<Settings>, event: WriterEvent) -> Option<Settings> {
    match event {
        WriterEvent::Save(_) => None,
        _ => pending,
    }
}

/// Whether the writer waits for at most the debounce period: only while
/// something is pending (otherwise it waits for the next message).
pub fn waits_for_quiet(pending: &Option<Settings>) -> (r: bool)
    ensures
        r == pending.is_some(),
{
    pending.is_some()
}

/// The writer's decision on an event, given what is pending; returns the
/// new pending settings and the step to take.
pub fn writer_step(pending: Option<Settings>, event: WriterEvent) -> (r: (Option<Settings>, WriterStep))
    ensures
        r.0 == pending_after(pending, event),
        r.1.write == written_on(pending, event),
        r.1.acknowledge == (event is Flush),
        r.1.stop == (event is Closed),
{
    match event {
        WriterEvent::Save(s) => (Some(s), WriterStep { write: None, acknowledge: false, stop: false }),
        WriterEvent::Flush => (None, WriterStep { write: pending, acknowledge: true, stop: false }),
        WriterEvent::Quiet => (None, WriterStep { write: pending, acknowledge: false, stop: false }),
        WriterEvent::Closed => (None, WriterStep { write: pending, acknowledge: false, stop: true }),
    }
}

/// The last settings saved are never lost: whatever event follows a save,
/// they stay pending (a later save replaces them) or are written.
pub proof fn saved_settings_are_written_or_replaced(s: Settings, pending: Option<Settings>, event: WriterEvent)
    ensures
        ({
            let after_save = pending_after(pending, WriterEvent::Save(s));
            ||| event is Save && pending_after(after_save, event) == Some(event->Save_0)
            ||| !(event is Save) && written_on(after_save, event) == Some(s) && pending_after(after_save, event) is None
        }),
{
}

} // verus!
