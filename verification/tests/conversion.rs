use eventsourcingdb_es::conversion::{
    map_event, map_subject_to_aggregate_type_and_id, pascal_to_kebab_case, qualify_event_type,
    to_pascal_case, unwrap_event_data, wrap_event_data, EventMetadata, QualifiedEventType,
    ReversedDomain, STORED_EVENT_ENVELOPE_MARKER,
};
use eventsourcingdb_es::errors::EventSourcingDbError;
use eventsourcingdb_es::json::JsonValue;
use eventsourcingdb_es::records::{EventRecord, Timestamp};
use eventsourcingdb_es::text::decimal_string;

fn string(s: &str) -> JsonValue {
    JsonValue::String(s.to_string())
}

fn object(members: Vec<(&str, JsonValue)>) -> JsonValue {
    JsonValue::Object(members.into_iter().map(|(k, v)| (k.to_string(), v)).collect())
}

fn title_payload() -> JsonValue {
    object(vec![("title", string("DDD"))])
}

fn request_metadata() -> JsonValue {
    object(vec![("request_id", string("abc-123"))])
}

fn empty_object() -> JsonValue {
    JsonValue::Object(Vec::new())
}

fn sample_event(data: JsonValue, ty: &str, subject: &str) -> EventRecord {
    EventRecord {
        id: "1".to_string(),
        source: "urn:test".to_string(),
        subject: subject.to_string(),
        ty: ty.to_string(),
        time: Timestamp { seconds: 1773741600, nanos: 0 },
        data,
        datacontenttype: "application/json".to_string(),
        specversion: "1.0".to_string(),
        hash: "hash".to_string(),
        predecessorhash: "predecessor".to_string(),
        traceinfo: None,
        signature: None,
    }
}

#[test]
fn qualify_event_type_uses_domain_and_kebab_case() {
    let domain = ReversedDomain::new(&["io", "eventsourcingdb"]);
    let qualified = qualify_event_type(&domain, "BookCreated", "2");

    assert_eq!(qualified, "io.eventsourcingdb.book-created.v2");
}

#[test]
fn wrap_and_unwrap_event_data_round_trip_payload_and_metadata() {
    let wrapped = wrap_event_data(title_payload(), request_metadata());
    let (actual_payload, actual_metadata) = unwrap_event_data(wrapped);

    assert_eq!(actual_payload, title_payload());
    assert_eq!(actual_metadata, request_metadata());
}

#[test]
fn unwrap_raw_event_data_keeps_payload_and_defaults_metadata() {
    let (payload, metadata) = unwrap_event_data(title_payload());

    assert_eq!(payload, title_payload());
    assert_eq!(metadata, empty_object());
}

#[test]
fn map_event_uses_logical_sequence_not_opaque_event_id() {
    let event = sample_event(
        wrap_event_data(title_payload(), request_metadata()),
        "io.eventsourcingdb.book-created.v2",
        "/BookAggregate/42",
    );

    let (serialized, meta) = map_event(event, 7).expect("event should map");

    assert_eq!(serialized.sequence, 7);
    assert_eq!(serialized.aggregate_id, "42");
    assert_eq!(serialized.aggregate_type, "BookAggregate");
    assert_eq!(serialized.event_type, "BookCreated");
    assert_eq!(serialized.event_version, "2");
    assert_eq!(serialized.payload, title_payload());
    assert_eq!(serialized.metadata, request_metadata());
    assert_eq!(meta.subject, "/BookAggregate/42");
}

#[test]
fn map_event_defaults_missing_version_to_one() {
    let event = sample_event(title_payload(), "io.eventsourcingdb.book-created", "/Book/1");
    let (serialized, meta) = map_event(event, 3).expect("event should map");
    assert_eq!(serialized.event_version, "1");
    assert_eq!(serialized.payload, title_payload());
    assert_eq!(serialized.metadata, empty_object());
    assert_eq!(meta.source, "urn:test");
    assert_eq!(meta.hash, "hash");
    assert_eq!(meta.predecessorhash, "predecessor");
    assert_eq!(meta.time, Timestamp { seconds: 1773741600, nanos: 0 });
}

#[test]
fn map_event_rejects_invalid_event_type() {
    let event = sample_event(title_payload(), "booknoversion", "/Book/1");
    match map_event(event, 1) {
        Err(EventSourcingDbError::InvalidEventTypeIdentifier(s)) => assert_eq!(s, "booknoversion"),
        other => panic!("unexpected {:?}", other.is_ok()),
    }
}

#[test]
fn map_event_rejects_invalid_subject() {
    let event = sample_event(title_payload(), "io.x.book-created", "/Book/1/extra");
    match map_event(event, 1) {
        Err(EventSourcingDbError::InvalidSubject(s)) => assert_eq!(s, "/Book/1/extra"),
        other => panic!("unexpected {:?}", other.is_ok()),
    }
}

#[test]
fn map_event_rejects_invalid_version_number() {
    let event = sample_event(title_payload(), "io.x.book-created.vtwo", "/Book/1");
    assert!(matches!(map_event(event, 1), Err(EventSourcingDbError::InvalidSequence(_))));
}

#[test]
fn event_metadata_keeps_every_field() {
    let event = sample_event(title_payload(), "io.x.y", "/Book/1");
    let meta = EventMetadata::from_record(event);
    assert_eq!(meta.subject, "/Book/1");
    assert_eq!(meta.datacontenttype, "application/json");
    assert_eq!(meta.specversion, "1.0");
    assert_eq!(meta.signature, None);
}

#[test]
fn parse_reads_domain_type_and_version() {
    let q = QualifiedEventType::parse("io.eventsourcingdb.book-created.v2").unwrap();
    assert_eq!(q.reversed_domain.labels(), &["io".to_string(), "eventsourcingdb".to_string()]);
    assert_eq!(q.event_type, "book-created");
    assert_eq!(q.event_version, Some(2));

    let q: QualifiedEventType = "a.b".parse().unwrap();
    assert_eq!(q.reversed_domain.labels(), &["a".to_string()]);
    assert_eq!(q.event_type, "b");
    assert_eq!(q.event_version, None);

    let q = QualifiedEventType::parse("a.b.v+7").unwrap();
    assert_eq!(q.event_version, Some(7));
}

#[test]
fn parse_rejects_too_few_parts() {
    assert!(matches!(
        QualifiedEventType::parse("single"),
        Err(EventSourcingDbError::InvalidEventTypeIdentifier(s)) if s == "single"
    ));
    assert!(matches!(
        QualifiedEventType::parse("a.v2"),
        Err(EventSourcingDbError::InvalidEventTypeIdentifier(s)) if s == "a.v2"
    ));
}

#[test]
fn parse_rejects_bad_version_numbers() {
    assert!(matches!(
        QualifiedEventType::parse("a.b.vx"),
        Err(EventSourcingDbError::InvalidSequence(_))
    ));
    assert!(matches!(QualifiedEventType::parse("a.b.v"), Err(EventSourcingDbError::InvalidSequence(_))));
    assert!(matches!(
        QualifiedEventType::parse("a.b.v99999999999999999999999"),
        Err(EventSourcingDbError::InvalidSequence(_))
    ));
}

#[test]
fn qualify_then_parse_round_trip() {
    let domain = ReversedDomain::new(&["com", "example"]);
    let qualified = qualify_event_type(&domain, "AccountOpened", "3");
    let q = QualifiedEventType::parse(&qualified).unwrap();
    assert_eq!(q.reversed_domain, domain);
    assert_eq!(q.event_type, "account-opened");
    assert_eq!(q.event_version, Some(3));
    assert_eq!(to_pascal_case(&q.event_type), "AccountOpened");
}

#[test]
fn qualify_omits_version_one() {
    let domain = ReversedDomain::new(&["io", "eventsourcingdb"]);
    assert_eq!(qualify_event_type(&domain, "NameAdded", "1"), "io.eventsourcingdb.name-added");
    assert_eq!(
        qualify_event_type(&domain, "NameAdded", "1.0"),
        "io.eventsourcingdb.name-added.v1.0"
    );
}

#[test]
fn reversed_domain_keeps_labels() {
    let domain = ReversedDomain::new(&["com", "flangator", "banking"]);
    assert_eq!(domain.labels().len(), 3);
    assert_eq!(domain.labels()[2], "banking");
}

#[test]
fn case_conversions() {
    assert_eq!(to_pascal_case("book-created"), "BookCreated");
    assert_eq!(to_pascal_case("x"), "X");
    assert_eq!(pascal_to_kebab_case("BookCreated"), "book-created");
    assert_eq!(pascal_to_kebab_case("HTTPServer"), "h-t-t-p-server");
    assert_eq!(pascal_to_kebab_case("already-kebab"), "already-kebab");
    assert_eq!(pascal_to_kebab_case(""), "");
    // a non-ASCII uppercase letter starts a word but keeps its case
    assert_eq!(pascal_to_kebab_case("aÉb"), "a-Éb");
    assert_eq!(pascal_to_kebab_case("éb"), "éb");
}

#[test]
fn pascal_kebab_round_trip() {
    for name in ["BookCreated", "HTTPServer", "A", "V2Event"] {
        assert_eq!(to_pascal_case(&pascal_to_kebab_case(name)), name);
    }
}

#[test]
fn conversion_subject_shapes() {
    let (t, id) = map_subject_to_aggregate_type_and_id("/books/42").unwrap();
    assert_eq!((t.as_str(), id.as_str()), ("books", "42"));
    let (t, id) = map_subject_to_aggregate_type_and_id("//books/42").unwrap();
    assert_eq!((t.as_str(), id.as_str()), ("books", "42"));
    let (t, id) = map_subject_to_aggregate_type_and_id("books/").unwrap();
    assert_eq!((t.as_str(), id.as_str()), ("books", ""));
    assert!(matches!(
        map_subject_to_aggregate_type_and_id("/books"),
        Err(EventSourcingDbError::InvalidSubject(s)) if s == "/books"
    ));
    assert!(matches!(
        map_subject_to_aggregate_type_and_id("/a/b/c"),
        Err(EventSourcingDbError::InvalidSubject(_))
    ));
}

#[test]
fn unwrap_edge_cases() {
    let (payload, metadata) = unwrap_event_data(JsonValue::Null);
    assert_eq!(payload, JsonValue::Null);
    assert_eq!(metadata, empty_object());

    // a foreign marker is not an envelope
    let foreign = object(vec![("_cqrs_es", string("other")), ("payload", string("p"))]);
    let (payload, metadata) = unwrap_event_data(foreign);
    assert_eq!(payload, object(vec![("_cqrs_es", string("other")), ("payload", string("p"))]));
    assert_eq!(metadata, empty_object());

    // an envelope without members gives null and empty metadata
    let bare = object(vec![("_cqrs_es", string(STORED_EVENT_ENVELOPE_MARKER))]);
    let (payload, metadata) = unwrap_event_data(bare);
    assert_eq!(payload, JsonValue::Null);
    assert_eq!(metadata, empty_object());

    // members in another order
    let reordered = object(vec![
        ("metadata", string("m")),
        ("payload", string("p")),
        ("_cqrs_es", string(STORED_EVENT_ENVELOPE_MARKER)),
    ]);
    let (payload, metadata) = unwrap_event_data(reordered);
    assert_eq!(payload, string("p"));
    assert_eq!(metadata, string("m"));
}

#[test]
fn decimal_strings() {
    assert_eq!(decimal_string(0), "0");
    assert_eq!(decimal_string(1234), "1234");
    assert_eq!(decimal_string(usize::MAX), usize::MAX.to_string());
}

#[test]
fn kebab_pascal_round_trip() {
    for k in ["book-created", "a", "email2-updated", "x-y-z"] {
        assert_eq!(pascal_to_kebab_case(&to_pascal_case(k)), k);
    }
}

#[test]
fn map_event_of_qualified_type_gives_back_type_and_version() {
    let domain = ReversedDomain::new(&["io", "eventsourcingdb"]);
    for (et, v) in [("BookCreated", "1"), ("BookCreated", "2"), ("EmailUpdated", "10")] {
        let ty = qualify_event_type(&domain, et, v);
        let event = sample_event(title_payload(), &ty, "/Book/7");
        match map_event(event, 3) {
            Ok((s, _)) => {
                assert_eq!(s.event_type, et);
                assert_eq!(s.event_version, v);
                assert_eq!(s.aggregate_type, "Book");
                assert_eq!(s.aggregate_id, "7");
                assert_eq!(s.sequence, 3);
            }
            Err(_) => panic!("expected the event to map"),
        }
    }
}
