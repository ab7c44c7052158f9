//! The two-kind errors of the `org.example` mapping and how they are reported
//! to cqrs-es; the event repository reports the errors of `errors` instead.
use vstd::prelude::*;

use eventsourcingdb::error::ClientError;

use crate::errors::{client_error_kind, client_error_kind_of, ClientErrorKind, PersistenceErrorKind};

verus! {

/// What went wrong.
#[derive(Debug)]
pub enum FailureCause {
    /// The client reported an error of this kind.
    Client(ClientErrorKind, ClientError),
    /// The id of a stored event is not a sequence number.
    InvalidSequence(std::num::ParseIntError),
}

/// The errors of the event repository.
#[derive(Debug)]
pub enum EventSourcingDbError {
    DeserializationError(FailureCause),
    UnknownError(FailureCause),
}

/// The error for a client error of kind `kind`: a JSON error is a
/// deserialization error, any other an unknown error.
pub open spec fn client_failure(kind: ClientErrorKind, error: ClientError) -> EventSourcingDbError {
    if kind is SerdeJson {
        EventSourcingDbError::DeserializationError(FailureCause::Client(kind, error))
    } else {
        EventSourcingDbError::UnknownError(FailureCause::Client(kind, error))
    }
}

/// Only a JSON client error is a deserialization error; every other client
/// error is an unknown error, and both keep the kind and the error.
pub proof fn lemma_client_failure_kinds(kind: ClientErrorKind, error: ClientError)
    ensures
        (client_failure(kind, error) is DeserializationError) <==> (kind is SerdeJson),
        (client_failure(kind, error) is UnknownError) <==> !(kind is SerdeJson),
        client_failure(kind, error) matches EventSourcingDbError::DeserializationError(c) ==> c
            == FailureCause::Client(kind, error),
        client_failure(kind, error) matches EventSourcingDbError::UnknownError(c) ==> c
            == FailureCause::Client(kind, error),
{
}

impl EventSourcingDbError {
    /// The error for a client error of a known kind.
    pub fn from_classified(kind: ClientErrorKind, error: ClientError) -> (r: Self)
        ensures
            r == client_failure(kind, error),
            (r is DeserializationError) <==> (kind is SerdeJson),
            (r is UnknownError) <==> !(kind is SerdeJson),
            r matches EventSourcingDbError::DeserializationError(FailureCause::Client(k, e))
                ==> k == kind && e == error,
            r matches EventSourcingDbError::UnknownError(c) ==> c == FailureCause::Client(kind, error),
    {
        match kind {
            ClientErrorKind::SerdeJson => EventSourcingDbError::DeserializationError(
                FailureCause::Client(kind, error),
            ),
            _ => EventSourcingDbError::UnknownError(FailureCause::Client(kind, error)),
        }
    }

    /// The error for a client error (`From<ClientError>`).
    pub fn from_client_error(error: ClientError) -> (r: Self)
        ensures
            r == client_failure(client_error_kind_of(error), error),
    {
        let kind = client_error_kind(&error);
        Self::from_classified(kind, error)
    }

    /// The kind of `cqrs_es::persist::PersistenceError` that this error
    /// becomes (`From<EventSourcingDbError> for PersistenceError`).
    pub fn persistence_kind(&self) -> (r: PersistenceErrorKind)
        ensures
            self is DeserializationError ==> r is Deserialization,
            self is UnknownError ==> r is Unknown,
    {
        match self {
            EventSourcingDbError::DeserializationError(_) => PersistenceErrorKind::Deserialization,
            EventSourcingDbError::UnknownError(_) => PersistenceErrorKind::Unknown,
        }
    }
}

} // verus!
