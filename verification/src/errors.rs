//! The errors of the event mapping and of the EventSourcingDB client, and how
//! they are reported to cqrs-es.
use vstd::prelude::*;

use eventsourcingdb::error::ClientError;

verus! {

#[verifier::external_type_specification]
#[verifier::external_body]
pub struct ExClientError(eventsourcingdb::error::ClientError);

#[verifier::external_type_specification]
#[verifier::external_body]
pub struct ExSerdeJsonError(serde_json::Error);

/// Which error the EventSourcingDB client reported, as far as this crate
/// tells them apart, with the HTTP status of an error that the database itself
/// answered with.
#[derive(Debug, Clone, Copy, PartialEq, Eq, Structural)]
pub enum ClientErrorKind {
    Io,
    PingFailed,
    Reqwest,
    UrlParse,
    SerdeJson,
    InvalidResponseType,
    DbApi { status: u16 },
    Other,
}

/// The kind of a client error: which variant of `ClientError` it is, and for
/// an error that the database answered, the HTTP status of the answer.
pub uninterp spec fn client_error_kind_of(error: ClientError) -> ClientErrorKind;

/// Tells the variants of a client error apart, one arm each; every variant
/// that this crate does not tell apart is `Other`. The result is a function of
/// the error alone, named `client_error_kind_of`; nothing more is stated of it,
/// since the client error has no model here.
#[verifier::external_body]
pub(crate) fn client_error_kind(error: &ClientError) -> (r: ClientErrorKind)
    ensures
        r == client_error_kind_of(*error),
{
    match error {
        ClientError::IoError(_) => ClientErrorKind::Io,
        ClientError::PingFailed => ClientErrorKind::PingFailed,
        ClientError::ReqwestError(_) => ClientErrorKind::Reqwest,
        ClientError::URLParseError(_) => ClientErrorKind::UrlParse,
        ClientError::SerdeJsonError(_) => ClientErrorKind::SerdeJson,
        ClientError::InvalidResponseType(_) => ClientErrorKind::InvalidResponseType,
        ClientError::DbApiError(e) => ClientErrorKind::DbApi { status: e.status.as_u16() },
        _ => ClientErrorKind::Other,
    }
}

/// The kinds of `cqrs_es::persist::PersistenceError`.
#[derive(Debug, Clone, Copy, PartialEq, Eq, Structural)]
pub enum PersistenceErrorKind {
    OptimisticLock,
    Connection,
    Deserialization,
    Unknown,
}

/// The errors of this crate.
#[derive(Debug)]
pub enum EventSourcingDbError {
    SerializationError(serde_json::Error),
    InvalidEventTypeIdentifier(String),
    InvalidSubject(String),
    InvalidSequence(std::num::ParseIntError),
    InvalidEventVersion(String),
    Client(ClientErrorKind, ClientError),
    OptimisticLock,
}

pub type EventSourcingDbResult<T> = Result<T, EventSourcingDbError>;

/// Whether the database refused a write as a conflict (HTTP status 409).
pub open spec fn is_conflict(kind: ClientErrorKind) -> bool {
    kind matches ClientErrorKind::DbApi { status } && status == 409
}

/// The kind of persistence error that a client error of this kind becomes.
pub open spec fn client_persistence_kind(kind: ClientErrorKind) -> PersistenceErrorKind {
    match kind {
        ClientErrorKind::Io
        | ClientErrorKind::Reqwest
        | ClientErrorKind::UrlParse
        | ClientErrorKind::PingFailed => PersistenceErrorKind::Connection,
        ClientErrorKind::SerdeJson
        | ClientErrorKind::InvalidResponseType => PersistenceErrorKind::Deserialization,
        _ => PersistenceErrorKind::Unknown,
    }
}

/// The kind of persistence error that an error of this crate becomes.
pub open spec fn persistence_kind_of(e: EventSourcingDbError) -> PersistenceErrorKind {
    match e {
        EventSourcingDbError::OptimisticLock => PersistenceErrorKind::OptimisticLock,
        EventSourcingDbError::Client(kind, _) => client_persistence_kind(kind),
        _ => PersistenceErrorKind::Unknown,
    }
}

/// The error for a client error of kind `kind`: a conflict is an
/// optimistic-lock error, any other client error is kept.
pub open spec fn classified(kind: ClientErrorKind, error: ClientError) -> EventSourcingDbError {
    if is_conflict(kind) {
        EventSourcingDbError::OptimisticLock
    } else {
        EventSourcingDbError::Client(kind, error)
    }
}

/// A client error that the database answered with status 409 reaches cqrs-es
/// as an optimistic-lock error; any other client error as the persistence
/// error of its kind.
pub proof fn lemma_client_error_persistence_kind(kind: ClientErrorKind, error: ClientError)
    ensures
        persistence_kind_of(classified(kind, error)) == if is_conflict(kind) {
            PersistenceErrorKind::OptimisticLock
        } else {
            client_persistence_kind(kind)
        },
        is_conflict(kind) ==> client_persistence_kind(kind) == PersistenceErrorKind::Unknown,
{
}

/// How cqrs-es learns of a client error: a conflict (status 409) is an
/// optimistic-lock error; an I/O, HTTP, URL or ping failure a connection error;
/// a JSON or response-type failure a deserialization error; any other client
/// error an unknown error. Only a client error is a connection or a
/// deserialization error.
pub proof fn lemma_persistence_kind_of_client_errors(kind: ClientErrorKind, error: ClientError)
    ensures
        persistence_kind_of(classified(kind, error)) is OptimisticLock <==> (kind matches ClientErrorKind::DbApi { status } && status == 409),
        (kind is Io || kind is Reqwest || kind is UrlParse || kind is PingFailed) <==> persistence_kind_of(classified(kind, error)) is Connection,
        (kind is SerdeJson || kind is InvalidResponseType) <==> persistence_kind_of(classified(kind, error)) is Deserialization,
        forall|e: EventSourcingDbError|
            !(e is Client) ==> !(#[trigger] persistence_kind_of(e) is Connection) && !(persistence_kind_of(e) is Deserialization),
{
}

impl EventSourcingDbError {
    /// The error for a client error of a known kind.
    pub fn from_classified(kind: ClientErrorKind, error: ClientError) -> (r: Self)
        ensures
            r == classified(kind, error),
            (r is OptimisticLock) <==> (kind matches ClientErrorKind::DbApi { status } && status
                == 409),
            !(r is OptimisticLock) ==> (r matches EventSourcingDbError::Client(k, e) && k == kind
                && e == error),
    {
        match kind {
            ClientErrorKind::DbApi { status } => {
                if status == 409 {
                    return EventSourcingDbError::OptimisticLock;
                }
            },
            _ => {},
        }
        EventSourcingDbError::Client(kind, error)
    }

    /// The error for a client error (`From<ClientError>`): an optimistic-lock
    /// error or the client error itself, whichever its kind gives.
    pub fn from_client_error(error: ClientError) -> (r: Self)
        ensures
            r == classified(client_error_kind_of(error), error),
    {
        let kind = client_error_kind(&error);
        Self::from_classified(kind, error)
    }

    /// The kind of `cqrs_es::persist::PersistenceError` that this error
    /// becomes (`From<EventSourcingDbError> for PersistenceError`).
    pub fn persistence_kind(&self) -> (r: PersistenceErrorKind)
        ensures
            r == persistence_kind_of(*self),
            (*self is OptimisticLock) <==> (r is OptimisticLock),
            self matches EventSourcingDbError::Client(k, _) ==> ((k is Io || k is Reqwest
                || k is UrlParse || k is PingFailed) <==> r is Connection),
            self matches EventSourcingDbError::Client(k, _) ==> ((k is SerdeJson
                || k is InvalidResponseType) <==> r is Deserialization),
            r is Connection || r is Deserialization ==> *self is Client,
    {
        match self {
            EventSourcingDbError::OptimisticLock => PersistenceErrorKind::OptimisticLock,
            EventSourcingDbError::Client(kind, _) => match kind {
                ClientErrorKind::Io
                | ClientErrorKind::Reqwest
                | ClientErrorKind::UrlParse
                | ClientErrorKind::PingFailed => PersistenceErrorKind::Connection,
                ClientErrorKind::SerdeJson
                | ClientErrorKind::InvalidResponseType => PersistenceErrorKind::Deserialization,
                _ => PersistenceErrorKind::Unknown,
            },
            _ => PersistenceErrorKind::Unknown,
        }
    }
}

} // verus!
