//! Store telemetry: the fixed set of custom events and the rule that each is
//! sent at most once per session.
//!
//! Only the event name is sent, never a parameter. Every event counts per
//! session, so each rate reads with `session_start` as denominator.

use vstd::prelude::*;

verus! {

/// A custom event. The set is fixed from the first release, so that usage
/// stays comparable across releases.
#[derive(Debug, Clone, Copy, PartialEq, Eq, Structural)]
pub enum TelemetryEvent {
    /// A session started; the denominator of every rate.
    SessionStart,
    /// A Markdown document finished rendering.
    OpenMdOk,
    /// A Markdown document could not be rendered.
    OpenMdFail,
    /// A workspace was opened.
    OpenFolder,
    /// The application was started through a file association.
    LaunchByAssociation,
}

/// Every event.
pub fn all_events() -> (r: [TelemetryEvent; 5])
    ensures
        r@ == seq![
            TelemetryEvent::SessionStart,
            TelemetryEvent::OpenMdOk,
            TelemetryEvent::OpenMdFail,
            TelemetryEvent::OpenFolder,
            TelemetryEvent::LaunchByAssociation,
        ],
{
    let r = [
        TelemetryEvent::SessionStart,
        TelemetryEvent::OpenMdOk,
        TelemetryEvent::OpenMdFail,
        TelemetryEvent::OpenFolder,
        TelemetryEvent::LaunchByAssociation,
    ];
    assert(r@ =~= seq![
        TelemetryEvent::SessionStart,
        TelemetryEvent::OpenMdOk,
        TelemetryEvent::OpenMdFail,
        TelemetryEvent::OpenFolder,
        TelemetryEvent::LaunchByAssociation,
    ]);
    r
}

/// The name each event has in the usage report.
pub open spec fn event_name(e: TelemetryEvent) -> Seq<char> {
    match e {
        TelemetryEvent::SessionStart => "session_start"@,
        TelemetryEvent::OpenMdOk => "open_md_ok"@,
        TelemetryEvent::OpenMdFail => "open_md_fail"@,
        TelemetryEvent::OpenFolder => "open_folder"@,
        TelemetryEvent::LaunchByAssociation => "launch_by_association"@,
    }
}

impl TelemetryEvent {
    /// The event's name in the usage report; never changed after release.
    pub fn name(self) -> (r: &'static str)
        ensures
            r@ == event_name(self),
    {
        match self {
            TelemetryEvent::SessionStart => "session_start",
            TelemetryEvent::OpenMdOk => "open_md_ok",
            TelemetryEvent::OpenMdFail => "open_md_fail",
            TelemetryEvent::OpenFolder => "open_folder",
            TelemetryEvent::LaunchByAssociation => "launch_by_association",
        }
    }
}

/// Distinct events have distinct names.
pub proof fn event_names_are_unique(a: TelemetryEvent, b: TelemetryEvent)
    requires
        a != b,
    ensures
        event_name(a) != event_name(b),
{
    reveal_strlit("session_start");
    reveal_strlit("open_md_ok");
    reveal_strlit("open_md_fail");
    reveal_strlit("open_folder");
    reveal_strlit("launch_by_association");
    if event_name(a) == event_name(b) {
        let x = event_name(a);
        let y = event_name(b);
        assert(x.len() == y.len());
        assert(x[0] == y[0]);
        assert(x.len() > 10 ==> x[10] == y[10]);
    }
}

/// Which events this session has sent.
#[derive(Debug, Clone)]
pub struct SessionTelemetry {
    sent: Vec<TelemetryEvent>,
}

impl View for SessionTelemetry {
    type V = Seq<TelemetryEvent>;

    closed spec fn view(&self) -> Seq<TelemetryEvent> {
        self.sent@
    }
}

impl SessionTelemetry {
    /// A session that has sent nothing.
    pub fn new() -> (r: SessionTelemetry)
        ensures
            r@.len() == 0,
    {
        SessionTelemetry { sent: Vec::new() }
    }

    /// Records the event as sent and returns `true` if this session has not
    /// sent it yet; returns `false` otherwise. The caller sends only on
    /// `true`; a failed send is not retried.
    pub fn take(&mut self, event: TelemetryEvent) -> (r: bool)
        ensures
            r == !old(self)@.contains(event),
            r ==> final(self)@ == old(self)@.push(event),
            !r ==> final(self)@ == old(self)@,
    {
        if self.is_sent(event) {
            return false;
        }
        self.sent.push(event);
        true
    }

    /// Whether this session has sent the event.
    pub fn is_sent(&self, event: TelemetryEvent) -> (r: bool)
        ensures
            r == self@.contains(event),
    {
        let mut k: usize = 0;
        while k < self.sent.len()
            invariant
                k <= self.sent.len(),
                forall|m: int| 0 <= m < k ==> self@[m] != event,
            decreases self.sent.len() - k,
        {
            if self.sent[k] == event {
                assert(self@[k as int] == event);
                return true;
            }
            k = k + 1;
        }
        false
    }
}

impl Default for SessionTelemetry {
    fn default() -> (r: SessionTelemetry)
        ensures
            r@.len() == 0,
    {
        SessionTelemetry::new()
    }
}

/// Each event is sent at most once per session: once taken, taking it again
/// answers `false`, and taking one event never changes the answer for
/// another.
pub proof fn each_event_is_taken_once(sent: Seq<TelemetryEvent>, event: TelemetryEvent, other: TelemetryEvent)
    ensures
        (if sent.contains(event) { sent } else { sent.push(event) }).contains(event),
        other != event ==> ((if sent.contains(event) { sent } else { sent.push(event) }).contains(other)
            <==> sent.contains(other)),
{
    let after = if sent.contains(event) { sent } else { sent.push(event) };
    if !sent.contains(event) {
        assert(after[sent.len() as int] == event);
        if other != event {
            if after.contains(other) {
                let m = choose|m: int| 0 <= m < after.len() && after[m] == other;
                assert(sent[m] == other);
            }
            if sent.contains(other) {
                let m = choose|m: int| 0 <= m < sent.len() && sent[m] == other;
                assert(after[m] == other);
            }
        }
    }
}

} // verus!
