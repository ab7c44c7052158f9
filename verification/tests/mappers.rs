use eventsourcingdb_es::mappers::{
    map_aggregate_type_and_id_to_subject, map_event_type_to_reverse_domain_name,
    map_reverse_domain_name_to_type, map_subject_to_aggregate_type_and_id,
    reverse_domain_name_from_words,
};

#[test]
fn test_map_type_to_reverse_domain_name() {
    let event_type = "UserCreated";
    let expected = "org.example.user.created.v1";
    let result = map_event_type_to_reverse_domain_name(event_type, "1");
    assert_eq!(result, expected);
}

#[test]
fn test_map_reverse_domain_name_to_type() {
    let reverse_domain_name = "org.example.user.created.v1";
    let expected_type = "UserCreated";
    let expected_version = "1".to_string();
    let result = map_reverse_domain_name_to_type(reverse_domain_name);
    assert_eq!(result, (expected_type.to_string(), expected_version));
}

#[test]
fn test_map_aggregate_type_to_subject() {
    let aggregate_type = "Customer";
    let aggregate_id = "12345";
    let expected = "/customer/12345";
    let result = map_aggregate_type_and_id_to_subject(aggregate_type, aggregate_id);
    assert_eq!(result, expected);
}

#[test]
fn test_map_subject_to_aggregate_type_and_id() {
    let subject = "/customer/12345";
    let (aggregate_type, aggregate_id) = map_subject_to_aggregate_type_and_id(subject);
    assert_eq!(aggregate_type, "Customer");
    assert_eq!(aggregate_id, "12345");
}

#[test]
fn reverse_domain_name_words() {
    assert_eq!(
        map_event_type_to_reverse_domain_name("NameAdded", "1.0"),
        "org.example.name.added.v1.0"
    );
    // a run of capitals is one word
    assert_eq!(
        map_event_type_to_reverse_domain_name("HTTPRequest", "2"),
        "org.example.httpr.v2"
    );
    let words = vec!["Ä".to_string(), "Bc".to_string()];
    assert_eq!(reverse_domain_name_from_words(&words, "3"), "org.example.ä.bc.v3");
}

#[test]
fn reverse_domain_name_parts() {
    // the prefix is trimmed as often as it repeats
    assert_eq!(
        map_reverse_domain_name_to_type("org.example.org.example.x.v1"),
        ("X".to_string(), "1".to_string())
    );
    // leading v's of the version go
    assert_eq!(
        map_reverse_domain_name_to_type("org.example.a.vv2"),
        ("A".to_string(), "2".to_string())
    );
    // the full uppercase mapping of the first character
    assert_eq!(
        map_reverse_domain_name_to_type("org.example.ßa.v1"),
        ("SSa".to_string(), "1".to_string())
    );
    // an empty part stays empty
    assert_eq!(
        map_reverse_domain_name_to_type("org.example..x.v1"),
        ("X".to_string(), "1".to_string())
    );
    // no dot at all: no type parts
    assert_eq!(map_reverse_domain_name_to_type("v5"), ("".to_string(), "5".to_string()));
}

#[test]
fn subject_mapping_round_trip() {
    let subject = map_aggregate_type_and_id_to_subject("ÄB", "1");
    assert_eq!(subject, "/äb/1");
    assert_eq!(
        map_subject_to_aggregate_type_and_id(&subject),
        ("Äb".to_string(), "1".to_string())
    );
    // the first character takes the first character of its uppercase mapping
    assert_eq!(
        map_subject_to_aggregate_type_and_id("/ßx/1/ignored"),
        ("Sx".to_string(), "1".to_string())
    );
}

#[test]
fn event_type_round_trip() {
    for (t, v) in [("UserCreated", "1"), ("NameAdded", "3"), ("OrgChanged", "2"), ("A", "1")] {
        let name = map_event_type_to_reverse_domain_name(t, v);
        let (ty, version) = map_reverse_domain_name_to_type(&name);
        assert_eq!(ty, t);
        assert_eq!(version, v);
    }
}
