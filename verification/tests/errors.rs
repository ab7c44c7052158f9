use eventsourcingdb::error::ClientError;
use eventsourcingdb_es::error::{self as old_error, FailureCause};
use eventsourcingdb_es::errors::{ClientErrorKind, EventSourcingDbError, PersistenceErrorKind};

#[test]
fn client_conflict_maps_to_optimistic_lock() {
    let err = EventSourcingDbError::from_classified(
        ClientErrorKind::DbApi { status: 409 },
        ClientError::InvalidResponseType("conflict".to_string()),
    );

    assert!(matches!(err, EventSourcingDbError::OptimisticLock));
    assert!(matches!(err.persistence_kind(), PersistenceErrorKind::OptimisticLock));
}

#[test]
fn non_conflict_db_api_error_maps_to_unknown_error() {
    let err = EventSourcingDbError::from_classified(
        ClientErrorKind::DbApi { status: 400 },
        ClientError::InvalidResponseType("bad request".to_string()),
    );

    assert!(matches!(err, EventSourcingDbError::Client(_, _)));
    assert!(matches!(err.persistence_kind(), PersistenceErrorKind::Unknown));
}

#[test]
fn invalid_response_type_maps_to_deserialization_error() {
    let err = EventSourcingDbError::from_client_error(ClientError::InvalidResponseType(
        "text/html".into(),
    ));

    assert!(matches!(err.persistence_kind(), PersistenceErrorKind::Deserialization));
}

#[test]
fn connection_errors_map_to_connection_errors() {
    let err = EventSourcingDbError::from_client_error(ClientError::PingFailed);
    assert!(matches!(err, EventSourcingDbError::Client(ClientErrorKind::PingFailed, _)));
    assert!(matches!(err.persistence_kind(), PersistenceErrorKind::Connection));
    let err = EventSourcingDbError::from_client_error(ClientError::APITokenInvalid);
    assert!(matches!(err.persistence_kind(), PersistenceErrorKind::Unknown));
}

#[test]
fn mapping_errors_are_unknown_persistence_errors() {
    let err = EventSourcingDbError::InvalidSubject("x".to_string());
    assert!(matches!(err.persistence_kind(), PersistenceErrorKind::Unknown));
}

#[test]
fn repository_errors_classify_client_errors() {
    let err = old_error::EventSourcingDbError::from_client_error(ClientError::InvalidResponseType(
        "text/html".into(),
    ));
    assert!(matches!(err, old_error::EventSourcingDbError::UnknownError(FailureCause::Client(_, _))));
    assert!(matches!(err.persistence_kind(), PersistenceErrorKind::Unknown));
    let err = old_error::EventSourcingDbError::from_classified(
        ClientErrorKind::SerdeJson,
        ClientError::PingFailed,
    );
    assert!(matches!(err, old_error::EventSourcingDbError::DeserializationError(_)));
    assert!(matches!(err.persistence_kind(), PersistenceErrorKind::Deserialization));
}
