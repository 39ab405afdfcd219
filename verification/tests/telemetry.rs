use md_peruse::telemetry::{all_events, SessionTelemetry, TelemetryEvent};

#[test]
fn event_names_are_stable_and_unique() {
    let expected = [
        (TelemetryEvent::SessionStart, "session_start"),
        (TelemetryEvent::OpenMdOk, "open_md_ok"),
        (TelemetryEvent::OpenMdFail, "open_md_fail"),
        (TelemetryEvent::OpenFolder, "open_folder"),
        (TelemetryEvent::LaunchByAssociation, "launch_by_association"),
    ];
    for (event, name) in expected {
        assert_eq!(event.name(), name);
    }

    let events = all_events();
    for (index, event) in events.iter().enumerate() {
        let duplicated = events
            .iter()
            .skip(index + 1)
            .any(|other| other.name() == event.name());
        assert!(!duplicated, "重複したイベント名: {}", event.name());
    }
}

#[test]
fn event_set_stays_at_five() {
    assert_eq!(all_events().len(), 5);
}

#[test]
fn each_event_is_sent_once_per_session() {
    let mut session = SessionTelemetry::new();
    for event in all_events() {
        assert!(session.take(event), "1回目は送る: {}", event.name());
        assert!(!session.take(event), "2回目は送らない: {}", event.name());
        assert!(session.is_sent(event));
    }
}

#[test]
fn events_are_tracked_independently() {
    let mut session = SessionTelemetry::new();
    assert!(session.take(TelemetryEvent::OpenMdFail));
    assert!(!session.is_sent(TelemetryEvent::OpenMdOk));
    assert!(session.take(TelemetryEvent::OpenMdOk));
}

#[test]
fn a_new_session_starts_empty() {
    let mut first = SessionTelemetry::new();
    assert!(first.take(TelemetryEvent::SessionStart));

    let second = SessionTelemetry::new();
    for event in all_events() {
        assert!(!second.is_sent(event));
    }
}
