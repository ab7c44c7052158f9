use cqrs_es::doc::{Customer, CustomerEvent};
use eventsourcingdb_es::view_repository::{InMemoryViewRepository, ViewContextRecord};

#[derive(Clone, Debug, PartialEq)]
struct CustomerView {
    events: Vec<CustomerEvent>,
}

fn context(id: &str, version: i64) -> ViewContextRecord {
    ViewContextRecord {
        view_instance_id: id.to_string(),
        version,
    }
}

#[test]
fn test_view_repository() {
    let mut repository = InMemoryViewRepository::<CustomerView, Customer>::default();

    let test_view_id = "1";

    let view = CustomerView {
        events: vec![CustomerEvent::NameAdded {
            name: "Ferris".to_string(),
        }],
    };

    repository.update_view(view.clone(), context(test_view_id, 0));

    let loaded = repository.load(test_view_id).unwrap();

    assert_eq!(loaded, view);
}

#[test]
fn test_view_repository_load_missing_returns_none() {
    let repository = InMemoryViewRepository::<CustomerView, Customer>::default();

    let loaded = repository.load("missing");
    assert!(loaded.is_none());
}

#[test]
fn test_view_repository_load_with_context_roundtrip() {
    let mut repository = InMemoryViewRepository::<CustomerView, Customer>::new("customer_view");
    let view_id = "ctx-1";

    let view = CustomerView {
        events: vec![CustomerEvent::EmailUpdated {
            new_email: "ferris@example.test".to_string(),
        }],
    };

    repository.update_view(view.clone(), context(view_id, 7));

    let loaded = repository.load_with_context(view_id).unwrap();

    assert_eq!(loaded.0, view);
    assert_eq!(loaded.1.view_instance_id, view_id.to_string());
    assert_eq!(loaded.1.version, 7);
}

#[test]
fn test_view_repository_load_with_context_missing_returns_none() {
    let repository = InMemoryViewRepository::<CustomerView, Customer>::default();

    let loaded = repository.load_with_context("missing");
    assert!(loaded.is_none());
}

#[test]
fn test_view_repository_update_view_overwrites_existing_entry() {
    let mut repository = InMemoryViewRepository::<CustomerView, Customer>::default();
    let view_id = "replace-1";

    let first = CustomerView {
        events: vec![CustomerEvent::NameAdded {
            name: "Ferris".to_string(),
        }],
    };

    let second = CustomerView {
        events: vec![CustomerEvent::EmailUpdated {
            new_email: "updated@example.test".to_string(),
        }],
    };

    repository.update_view(first, context(view_id, 0));

    repository.update_view(second.clone(), context(view_id, 1));

    let loaded = repository.load_with_context(view_id).unwrap();
    assert_eq!(loaded.0, second);
    assert_eq!(loaded.1.version, 1);
}

#[test]
fn update_of_one_view_leaves_the_others() {
    let mut repository = InMemoryViewRepository::<u32, Customer>::new("numbers");
    repository.update_view(1, context("a", 0));
    repository.update_view(2, context("b", 3));
    repository.update_view(10, context("a", 1));

    assert_eq!(repository.load("a"), Some(10));
    assert_eq!(repository.load("b"), Some(2));
    assert_eq!(repository.load("c"), None);
    let (view, ctx) = repository.load_with_context("b").unwrap();
    assert_eq!(view, 2);
    assert_eq!(ctx.view_instance_id, "b");
    assert_eq!(ctx.version, 3);
}
