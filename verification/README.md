# eventsourcingdb-es

An [EventSourcingDB](https://docs.eventsourcingdb.io) implementation of the
`PersistedEventRepository` trait of cqrs-es, with its logic verified by Verus.

- `src/` is the verified library: the mapping between cqrs-es events and
  EventSourcingDB events (subjects, reverse domain names, qualified event types,
  the JSON envelope of event data), the classification of client errors, the
  decisions of the event repository (what a write sends, what a query keeps,
  what a replay forwards) and an in-memory view repository.
- `app/` holds the asynchronous I/O around it: the EventSourcingDB client calls,
  the cqrs-es trait impls, and the conversions to and from the serde, cqrs-es
  and EventSourcingDB types.
- `tests/` runs the library on concrete values.

## Behaviour of the event repository

- Events are stored under the subject `/{aggregate_type}/{aggregate_id}`, with
  the event type qualified in the repository's reversed domain and the major
  version always named, such as `io.eventsourcingdb.name-added.v1` for
  `NameAdded` of version `1.0`. A version number `n` reads back as `n.0`.
- The sequence of an event is its position in the stream of its subject,
  counted from 1, not the id that EventSourcingDB gives it.
- `get_last_events(id, n)` returns the events whose sequence is greater than
  `n`.
- A write whose first event does not follow the events stored, or whose
  subject changed since it was read, fails with an optimistic-lock error.
- Snapshots are not supported: `get_snapshot` returns nothing and `persist`
  writes the events of a snapshot update without the snapshot.
