//! Mapping between cqrs-es events and EventSourcingDB events.
pub mod errors;
pub mod text;
pub mod unicode;
pub mod conversion;
pub mod mappers;
pub mod json;
pub mod records;
pub mod error;
pub mod event_repository;
pub mod view_repository;
