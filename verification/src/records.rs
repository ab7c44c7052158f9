//! The records that the mapping reads and writes, as plain values: an event as
//! EventSourcingDB stores it, an event candidate for a write, and a serialized
//! cqrs-es event.
use vstd::prelude::*;

use crate::json::JsonValue;

verus! {

/// An instant in UTC: seconds since the Unix epoch and the nanoseconds within
/// that second (`chrono::DateTime<Utc>`).
#[derive(Debug, Clone, Copy, PartialEq, Eq, Structural)]
pub struct Timestamp {
    pub seconds: i64,
    pub nanos: u32,
}

#[verifier::external_type_specification]
#[verifier::external_body]
pub struct ExTraceInfo(eventsourcingdb::event::TraceInfo);

/// An event as EventSourcingDB stores it (`eventsourcingdb::Event`).
#[derive(Debug)]
pub struct EventRecord {
    pub id: String,
    pub source: String,
    pub subject: String,
    pub ty: String,
    pub time: Timestamp,
    pub data: JsonValue,
    pub datacontenttype: String,
    pub specversion: String,
    pub hash: String,
    pub predecessorhash: String,
    pub traceinfo: Option<eventsourcingdb::event::TraceInfo>,
    pub signature: Option<String>,
}

/// An event to write to EventSourcingDB (`eventsourcingdb::EventCandidate`).
#[derive(Debug)]
pub struct EventCandidateRecord {
    pub data: JsonValue,
    pub source: String,
    pub subject: String,
    pub ty: String,
    pub traceinfo: Option<eventsourcingdb::event::TraceInfo>,
}

/// A serialized cqrs-es event (`cqrs_es::persist::SerializedEvent`).
#[derive(Debug)]
pub struct SerializedEventRecord {
    pub aggregate_id: String,
    pub sequence: usize,
    pub aggregate_type: String,
    pub event_type: String,
    pub event_version: String,
    pub payload: JsonValue,
    pub metadata: JsonValue,
}

} // verus!
