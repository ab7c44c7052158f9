use eventsourcingdb::error::ClientError;
use eventsourcingdb_es::conversion::ReversedDomain;
use eventsourcingdb_es::errors::{ClientErrorKind, EventSourcingDbError, PersistenceErrorKind};
use eventsourcingdb_es::event_repository::{
    aggregate_subject, aggregate_subject_prefix, esdb_event_candidate, major_version_of,
    plan_write, query_events_from, query_step, replay_step, stored_event_type, QueryStep, ReplayAction,
    StreamItem, StreamPosition, SubjectSequences, WritePlan, WritePrecondition, EVENT_SOURCE,
};
use eventsourcingdb_es::json::JsonValue;
use eventsourcingdb_es::records::{EventRecord, SerializedEventRecord, Timestamp};

fn domain() -> ReversedDomain {
    ReversedDomain::new(&["io", "eventsourcingdb"])
}

fn stored(id: &str, ty: &str, subject: &str, data: JsonValue) -> EventRecord {
    EventRecord {
        id: id.to_string(),
        source: EVENT_SOURCE.to_string(),
        subject: subject.to_string(),
        ty: ty.to_string(),
        time: Timestamp { seconds: 0, nanos: 0 },
        data,
        datacontenttype: "application/json".to_string(),
        specversion: "1.0".to_string(),
        hash: String::new(),
        predecessorhash: String::new(),
        traceinfo: None,
        signature: None,
    }
}

fn request(id: &str) -> JsonValue {
    JsonValue::Object(vec![(
        "request_id".to_string(),
        JsonValue::String(id.to_string()),
    )])
}

fn payload(name: &str) -> JsonValue {
    JsonValue::Object(vec![(
        "NameAdded".to_string(),
        JsonValue::Object(vec![("name".to_string(), JsonValue::String(name.to_string()))]),
    )])
}

fn customer_event(id: &str, sequence: usize, event_type: &str, name: &str) -> SerializedEventRecord {
    SerializedEventRecord {
        aggregate_id: id.to_string(),
        sequence,
        aggregate_type: "Customer".to_string(),
        event_type: event_type.to_string(),
        event_version: "1.0".to_string(),
        payload: payload(name),
        metadata: request("r-1"),
    }
}

/// What the store holds after writing `event` under the given event id.
fn written(event: SerializedEventRecord, id: &str) -> EventRecord {
    let c = esdb_event_candidate(&domain(), event);
    stored(id, &c.ty, &c.subject, c.data)
}

#[test]
fn written_event_uses_explicit_v1_type_and_subject_of_aggregate() {
    let c = esdb_event_candidate(&domain(), customer_event("dana-1", 1, "NameAdded", "Dana"));
    assert_eq!(c.ty, "io.eventsourcingdb.name-added.v1");
    assert_eq!(c.subject, "/Customer/dana-1");
    assert_eq!(c.source, EVENT_SOURCE);
    assert!(c.traceinfo.is_none());
    match c.data {
        JsonValue::Object(members) => {
            assert_eq!(members.len(), 3);
            assert_eq!(members[0].0, "_cqrs_es");
            assert_eq!(members[1], ("payload".to_string(), payload("Dana")));
            assert_eq!(members[2], ("metadata".to_string(), request("r-1")));
        }
        _ => panic!("expected an envelope"),
    }
}

#[test]
fn stored_event_type_names_the_major_version() {
    assert_eq!(major_version_of("1.0"), "1");
    assert_eq!(major_version_of("2"), "2");
    assert_eq!(
        stored_event_type(&domain(), "BookCreated", "2"),
        "io.eventsourcingdb.book-created.v2"
    );
    assert_eq!(
        stored_event_type(&domain(), "EmailUpdated", "3.1"),
        "io.eventsourcingdb.email-updated.v3"
    );
    assert_eq!(aggregate_subject("Customer", "42"), "/Customer/42");
    assert_eq!(aggregate_subject_prefix("Customer"), "/Customer/");
}

#[test]
fn writing_no_events_does_nothing() {
    let position = StreamPosition::new();
    assert!(matches!(plan_write(&domain(), Vec::new(), &position), Ok(WritePlan::Skip)));
}

#[test]
fn first_write_needs_a_pristine_subject() {
    let position = StreamPosition::new();
    let events = vec![
        customer_event("a", 1, "NameAdded", "Alice"),
        customer_event("a", 2, "EmailUpdated", "Alice"),
    ];
    match plan_write(&domain(), events, &position) {
        Ok(WritePlan::Write(cs, WritePrecondition::SubjectPristine(subject))) => {
            assert_eq!(cs.len(), 2);
            assert_eq!(cs[0].ty, "io.eventsourcingdb.name-added.v1");
            assert_eq!(cs[1].ty, "io.eventsourcingdb.email-updated.v1");
            assert_eq!(subject, "/Customer/a");
        }
        _ => panic!("expected a write on a pristine subject"),
    }
}

#[test]
fn follow_up_write_needs_the_latest_event_read() {
    let mut position = StreamPosition::new();
    position.observe(&written(customer_event("a", 1, "NameAdded", "Alice"), "6"));
    position.observe(&written(customer_event("a", 2, "NameAdded", "Alice"), "7"));
    assert_eq!(position.count, 2);
    match plan_write(&domain(), vec![customer_event("a", 3, "EmailUpdated", "A")], &position) {
        Ok(WritePlan::Write(cs, WritePrecondition::SubjectOnEventId(subject, id))) => {
            assert_eq!(cs.len(), 1);
            assert_eq!(subject, "/Customer/a");
            assert_eq!(id, "7");
        }
        _ => panic!("expected a write on the latest event"),
    }
}

#[test]
fn stale_write_is_an_optimistic_lock_error() {
    let mut position = StreamPosition::new();
    position.observe(&written(customer_event("bob", 1, "NameAdded", "Bob"), "1"));
    let stale = vec![customer_event("bob", 1, "EmailUpdated", "Bob")];
    match plan_write(&domain(), stale, &position) {
        Err(e) => {
            assert!(matches!(e, EventSourcingDbError::OptimisticLock));
            assert_eq!(e.persistence_kind(), PersistenceErrorKind::OptimisticLock);
        }
        Ok(_) => panic!("expected an optimistic-lock error"),
    }
}

#[test]
fn written_events_read_back_with_their_positions() {
    let events = vec![
        customer_event("c", 1, "NameAdded", "Alice"),
        customer_event("c", 2, "EmailUpdated", "Alice"),
        customer_event("c", 3, "EmailUpdated", "Alice+1"),
    ];
    let ids = ["10", "11", "12"];
    let items: Vec<StreamItem> = events
        .into_iter()
        .zip(ids)
        .map(|(event, id)| StreamItem::Event(written(event, id)))
        .collect();
    let all = match query_events_from(items, 0) {
        Ok(v) => v,
        Err(_) => panic!("expected the events to be read"),
    };
    assert_eq!(all.len(), 3);
    for (i, s) in all.iter().enumerate() {
        assert_eq!(s.sequence, i + 1);
        assert_eq!(s.aggregate_type, "Customer");
        assert_eq!(s.aggregate_id, "c");
        assert_eq!(s.event_version, "1.0");
        assert_eq!(s.metadata, request("r-1"));
    }
    assert_eq!(all[0].event_type, "NameAdded");
    assert_eq!(all[1].event_type, "EmailUpdated");
    assert_eq!(all[0].payload, payload("Alice"));
    assert_eq!(all[2].payload, payload("Alice+1"));
}

fn three_events() -> Vec<StreamItem> {
    ["1", "2", "3"]
        .iter()
        .enumerate()
        .map(|(i, id)| {
            StreamItem::Event(written(customer_event("d", i + 1, "EmailUpdated", "D"), id))
        })
        .collect()
}

#[test]
fn last_events_are_those_after_the_sequence() {
    let sequences = |after: usize| -> Vec<usize> {
        match query_events_from(three_events(), after) {
            Ok(v) => v.iter().map(|s| s.sequence).collect(),
            Err(_) => panic!("expected no failure"),
        }
    };
    assert_eq!(sequences(0), vec![1, 2, 3]);
    assert_eq!(sequences(2), vec![3]);
    assert_eq!(sequences(3), Vec::<usize>::new());
    assert_eq!(sequences(7), Vec::<usize>::new());
    assert!(matches!(query_step(three_events().remove(0), 1, 1), QueryStep::Skip));
    assert!(matches!(query_step(three_events().remove(1), 2, 1), QueryStep::Keep(_)));
}

#[test]
fn query_fails_with_the_first_error() {
    let mut items = three_events();
    items.insert(1, StreamItem::Event(stored("9", "nodots", "/Customer/d", JsonValue::Null)));
    items.push(StreamItem::Failed(ClientErrorKind::PingFailed, ClientError::PingFailed));
    assert!(matches!(
        query_events_from(items, 0),
        Err(EventSourcingDbError::InvalidEventTypeIdentifier(t)) if t == "nodots"
    ));
    let mut items = three_events();
    items.push(StreamItem::Failed(ClientErrorKind::DbApi { status: 409 }, ClientError::PingFailed));
    assert!(matches!(query_events_from(items, 0), Err(EventSourcingDbError::OptimisticLock)));
}

#[test]
fn query_fails_on_unreadable_events_and_errors() {
    let bad_type = StreamItem::Event(stored("1", "nodots", "/Customer/1", JsonValue::Null));
    assert!(matches!(
        query_step(bad_type, 1, 0),
        QueryStep::Fail(EventSourcingDbError::InvalidEventTypeIdentifier(t)) if t == "nodots"
    ));
    let bad_version = StreamItem::Event(stored("1", "io.x.vq", "/Customer/1", JsonValue::Null));
    assert!(matches!(
        query_step(bad_version, 1, 0),
        QueryStep::Fail(EventSourcingDbError::InvalidSequence(_))
    ));
    let bad_subject = StreamItem::Event(stored("1", "io.x.v1", "/Customer/1/2", JsonValue::Null));
    assert!(matches!(
        query_step(bad_subject, 1, 0),
        QueryStep::Fail(EventSourcingDbError::InvalidSubject(s)) if s == "/Customer/1/2"
    ));
    let conflict = StreamItem::Failed(ClientErrorKind::DbApi { status: 409 }, ClientError::PingFailed);
    assert!(matches!(
        query_step(conflict, 1, 0),
        QueryStep::Fail(EventSourcingDbError::OptimisticLock)
    ));
    let json = StreamItem::Failed(ClientErrorKind::SerdeJson, ClientError::PingFailed);
    assert!(matches!(
        query_step(json, 1, 0),
        QueryStep::Fail(EventSourcingDbError::Client(ClientErrorKind::SerdeJson, _))
    ));
}

#[test]
fn replay_of_all_events_filters_and_numbers_by_subject() {
    let prefix = aggregate_subject_prefix("Customer");
    let mut sequences = SubjectSequences::new();
    let other = StreamItem::Event(stored("1", "io.x.name-added.v1", "/Order/1", JsonValue::Null));
    assert!(matches!(replay_step(other, Some(&prefix), &mut sequences), ReplayAction::Skip));
    let mut seen = Vec::new();
    for (id, subject) in [("2", "/Customer/1"), ("3", "/Customer/2"), ("4", "/Customer/1")] {
        let item = StreamItem::Event(stored(id, "io.x.name-added.v1", subject, JsonValue::Null));
        match replay_step(item, Some(&prefix), &mut sequences) {
            ReplayAction::Send(s) => seen.push((s.aggregate_id, s.sequence, s.event_type)),
            _ => panic!("expected the event to be forwarded"),
        }
    }
    assert_eq!(
        seen,
        vec![
            ("1".to_string(), 1, "NameAdded".to_string()),
            ("2".to_string(), 1, "NameAdded".to_string()),
            ("1".to_string(), 2, "NameAdded".to_string()),
        ]
    );
    let failed = StreamItem::Failed(ClientErrorKind::PingFailed, ClientError::PingFailed);
    assert!(matches!(
        replay_step(failed, None, &mut sequences),
        ReplayAction::SendError(EventSourcingDbError::Client(ClientErrorKind::PingFailed, _))
    ));
}

#[test]
fn failed_stream_item_keeps_error_and_kind() {
    let item = StreamItem::failed(ClientError::InvalidResponseType("text/html".to_string()));
    match item {
        StreamItem::Failed(kind, ClientError::InvalidResponseType(t)) => {
            assert_eq!(kind, ClientErrorKind::InvalidResponseType);
            assert_eq!(t, "text/html");
        }
        _ => panic!("expected a failed item"),
    }
    let step = query_step(
        StreamItem::failed(ClientError::InvalidResponseType("text/html".to_string())),
        1,
        0,
    );
    assert!(matches!(
        step,
        QueryStep::Fail(EventSourcingDbError::Client(ClientErrorKind::InvalidResponseType, _))
    ));
}
