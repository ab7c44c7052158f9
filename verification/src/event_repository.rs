//! The decisions of the EventSourcingDB event repository: what a write sends
//! and when it is stale, how the events of an aggregate are numbered and read
//! back, and which of them a query keeps or a replay forwards.
use vstd::prelude::*;

use std::sync::Arc;

use eventsourcingdb::error::ClientError;
use eventsourcingdb::Client;

use crate::conversion::{
    kebab_case, lemma_kebab_case_no_dot, lemma_parsed_version_has_no_dot, lemma_subject_parts, lemma_pascal_case_of_kebab_case,
    lemma_unwrap_wrap, map_event, map_event_ready, parse_event_type_spec, pascal_case,
    qualify_event_type, qualified_parts, subject_parts, unwraps_to, is_envelope_of,
    wrap_event_data, event_is_mappable, map_subject_to_aggregate_type_and_id, EventTypeFault,
    QualifiedEventType, ReversedDomain,
};
use crate::errors::{
    classified, client_error_kind, client_error_kind_of, ClientErrorKind, EventSourcingDbError,
};
use crate::json::is_empty_object;
use crate::records::{EventCandidateRecord, EventRecord, SerializedEventRecord};
use crate::text::{
    copy_str, decimal, has_char, is_ascii_char, is_ascii_upper, is_digit, join, lemma_decimal_digits,
    lemma_split_append, lemma_split_join, lemma_split_join_prefix, lemma_split_no_sep, lemma_split_on_nonempty,
    parse_usize_spec, push_str, split_on, split_str, starts_with, str_equal, string_push,
    views,
};

verus! {

#[verifier::external_type_specification]
#[verifier::external_body]
pub struct ExClient(eventsourcingdb::Client);

/// The source of the events that this repository writes.
pub const EVENT_SOURCE: &'static str = "tag:example.org,2026:esdb";

/// The number of events that a replay stream buffers.
pub const STREAM_CHANNEL_SIZE: usize = 100;

/// An event repository using EventSourcingDB for persistence, which names the
/// event types it writes in a reversed domain.
pub struct EventSourcingDbEventRepository {
    client: Arc<Client>,
    domain: ReversedDomain,
    stream_channel_size: usize,
}

impl EventSourcingDbEventRepository {
    pub closed spec fn channel_size(&self) -> usize {
        self.stream_channel_size
    }

    pub closed spec fn client_spec(&self) -> Client {
        *self.client
    }

    pub closed spec fn domain_spec(&self) -> Seq<Seq<char>> {
        self.domain@
    }

    /// A repository on `client` that names event types in `domain`, whose
    /// replay streams buffer 100 events.
    pub fn new(client: Arc<Client>, domain: ReversedDomain) -> (r: Self)
        ensures
            r.channel_size() == STREAM_CHANNEL_SIZE,
            r.client_spec() == *client,
            r.domain_spec() == domain@,
    {
        EventSourcingDbEventRepository { client, domain, stream_channel_size: STREAM_CHANNEL_SIZE }
    }

    /// The client of the repository.
    pub fn client(&self) -> (r: &Arc<Client>)
        ensures
            **r == self.client_spec(),
    {
        &self.client
    }

    /// The domain in which the repository names event types.
    pub fn domain(&self) -> (r: &ReversedDomain)
        ensures
            r@ == self.domain_spec(),
    {
        &self.domain
    }

    /// How many events a replay stream buffers.
    pub fn stream_channel_size(&self) -> (r: usize)
        ensures
            r == self.channel_size(),
    {
        self.stream_channel_size
    }
}

// ---------------------------------------------------------------------------
// Writing
// ---------------------------------------------------------------------------

/// The subject of an aggregate instance: `/`, the aggregate type, `/`, the id.
pub open spec fn subject_spec(aggregate_type: Seq<char>, aggregate_id: Seq<char>) -> Seq<char> {
    seq!['/'] + aggregate_type + seq!['/'] + aggregate_id
}

/// The subject under which the events of an aggregate instance are stored,
/// such as `/Customer/42`.
pub fn aggregate_subject(aggregate_type: &str, aggregate_id: &str) -> (r: String)
    ensures
        r@ == subject_spec(aggregate_type@, aggregate_id@),
{
    let mut r = String::new();
    string_push(&mut r, '/');
    push_str(&mut r, aggregate_type);
    string_push(&mut r, '/');
    push_str(&mut r, aggregate_id);
    r
}

/// The subject prefix of the instances of an aggregate type: `/`, the type,
/// `/`.
pub fn aggregate_subject_prefix(aggregate_type: &str) -> (r: String)
    ensures
        r@ == seq!['/'] + aggregate_type@ + seq!['/'],
{
    let mut r = String::new();
    string_push(&mut r, '/');
    push_str(&mut r, aggregate_type);
    string_push(&mut r, '/');
    r
}

/// The major version of a cqrs-es event version: what comes before its first
/// dot, such as `1` for `1.0`.
pub open spec fn major_version(event_version: Seq<char>) -> Seq<char> {
    split_on(event_version, '.')[0]
}

/// The major version of a cqrs-es event version.
pub fn major_version_of(event_version: &str) -> (r: String)
    ensures
        r@ == major_version(event_version@),
{
    let parts = split_str(event_version, '.');
    proof {
        lemma_split_on_nonempty(event_version@, '.');
    }
    assert(parts@[0]@ == views(parts@)[0]);
    parts[0].clone()
}

/// The parts of the event type that this repository stores for an event:
/// the domain labels, the event type in kebab case and, always, `v` and the
/// major version.
pub open spec fn stored_type_parts(
    domain: Seq<Seq<char>>,
    event_type: Seq<char>,
    event_version: Seq<char>,
) -> Seq<Seq<char>> {
    domain.push(kebab_case(event_type)).push(seq!['v'] + major_version(event_version))
}

/// The event type that this repository stores for an event of type
/// `event_type` and version `event_version`: the qualified event type of the
/// major version, with the version named even where it is `1`, such as
/// `io.eventsourcingdb.name-added.v1` for `NameAdded` of version `1.0`.
pub fn stored_event_type(domain: &ReversedDomain, event_type: &str, event_version: &str) -> (r:
    String)
    ensures
        r@ == join(stored_type_parts(domain@, event_type@, event_version@), seq!['.']),
        (forall|i: int| 0 <= i < domain@.len() ==> !has_char(#[trigger] domain@[i], '.'))
            ==> split_on(r@, '.').len() > domain@.len() && split_on(r@, '.').take(
            domain@.len() as int,
        ) == domain@,
{
    let major = major_version_of(event_version);
    let mut ty = qualify_event_type(domain, event_type, major.as_str());
    let ghost with_type = domain@.push(kebab_case(event_type@));
    let ghost parts = stored_type_parts(domain@, event_type@, event_version@);
    if str_equal(major.as_str(), "1") {
        proof {
            reveal_strlit("1");
            assert("1"@ =~= seq!['1']);
        }
        assert(major@ =~= seq!['1']);
        let ghost before = ty@;
        push_str(&mut ty, ".v1");
        proof {
            reveal_strlit(".v1");
            assert(parts.drop_last() =~= with_type);
            assert(parts.last() =~= seq!['v', '1']);
            assert(ty@ =~= before + seq!['.'] + seq!['v', '1']);
        }
    } else {
        proof {
            reveal_strlit("1");
            assert("1"@ =~= seq!['1']);
        }
        assert(major@ != seq!['1']);
        assert(qualified_parts(domain@, event_type@, major@) =~= parts);
    }
    proof {
        if forall|i: int| 0 <= i < domain@.len() ==> !has_char(#[trigger] domain@[i], '.') {
            assert forall|i: int| 0 <= i < domain@.len() implies !has_char(#[trigger] parts[i], '.') by {
                assert(parts[i] == domain@[i]);
            }
            lemma_split_join_prefix(parts, domain@.len() as int, '.');
            assert(parts.take(domain@.len() as int) =~= domain@);
        }
    }
    ty
}

/// Whether `c` is the event candidate that this repository writes for `e` in
/// `domain`: its data is the envelope of the payload and metadata, its subject
/// that of the aggregate instance, its type the stored event type.
pub open spec fn candidate_of(
    domain: Seq<Seq<char>>,
    e: SerializedEventRecord,
    c: EventCandidateRecord,
) -> bool {
    &&& is_envelope_of(c.data, e.payload, e.metadata)
    &&& c.source@ == EVENT_SOURCE@
    &&& c.subject@ == subject_spec(e.aggregate_type@, e.aggregate_id@)
    &&& c.ty@ == join(stored_type_parts(domain, e.event_type@, e.event_version@), seq!['.'])
    &&& c.traceinfo is None
}

/// The event candidate for a serialized event.
pub fn esdb_event_candidate(domain: &ReversedDomain, event: SerializedEventRecord) -> (r:
    EventCandidateRecord)
    ensures
        candidate_of(domain@, event, r),
{
    let subject = aggregate_subject(event.aggregate_type.as_str(), event.aggregate_id.as_str());
    let ty = stored_event_type(domain, event.event_type.as_str(), event.event_version.as_str());
    let SerializedEventRecord { payload, metadata, .. } = event;
    EventCandidateRecord {
        data: wrap_event_data(payload, metadata),
        source: copy_str(EVENT_SOURCE),
        subject,
        ty,
        traceinfo: None,
    }
}

/// The events that a subject holds, as far as a write needs them: how many
/// there are and the id of the latest.
pub struct StreamPosition {
    pub count: usize,
    pub last_event_id: Option<String>,
}

/// The number after `n`, where there is one in a `usize`.
pub open spec fn next_count(n: usize) -> usize {
    if n < usize::MAX {
        (n + 1) as usize
    } else {
        n
    }
}

impl StreamPosition {
    /// The position of a subject without events.
    pub fn new() -> (r: Self)
        ensures
            r.count == 0,
            r.last_event_id is None,
    {
        StreamPosition { count: 0, last_event_id: None }
    }

    /// Counts one more event of the subject, the latest so far.
    pub fn observe(&mut self, event: &EventRecord)
        ensures
            final(self).count == next_count(old(self).count),
            final(self).last_event_id matches Some(id) && id@ == event.id@,
    {
        if self.count < usize::MAX {
            self.count = self.count + 1;
        }
        self.last_event_id = Some(copy_str(event.id.as_str()));
    }
}

/// What a write must find to be carried out: a subject without events, or one
/// whose latest event has this id.
pub enum WritePrecondition {
    SubjectPristine(String),
    SubjectOnEventId(String, String),
}

/// What a write does: nothing for no events, else write these candidates where
/// the precondition holds.
pub enum WritePlan {
    Skip,
    Write(Vec<EventCandidateRecord>, WritePrecondition),
}

/// Whether `pre` is the precondition of a write that continues the subject of
/// `first` from `position`: the subject is pristine where no event was read,
/// else its latest event is the one read last.
pub open spec fn precondition_of(position: StreamPosition, first: SerializedEventRecord, pre: WritePrecondition) -> bool {
    match position.last_event_id {
        None => pre matches WritePrecondition::SubjectPristine(s) && s@ == subject_spec(
            first.aggregate_type@,
            first.aggregate_id@,
        ),
        Some(id) => pre matches WritePrecondition::SubjectOnEventId(s, i) && s@ == subject_spec(
            first.aggregate_type@,
            first.aggregate_id@,
        ) && i@ == id@,
    }
}

/// The write for `events` onto a subject at `position`: nothing where there
/// are none; an optimistic-lock error where the first event does not follow
/// the events stored; else the candidates of the events in order, on the
/// precondition that the subject of the first is still where it was read.
pub fn plan_write(
    domain: &ReversedDomain,
    events: Vec<SerializedEventRecord>,
    position: &StreamPosition,
) -> (r: Result<WritePlan, EventSourcingDbError>)
    ensures
        events@.len() == 0 ==> r matches Ok(WritePlan::Skip),
        events@.len() > 0 && events@[0].sequence != position.count + 1 ==> r matches Err(
            EventSourcingDbError::OptimisticLock,
        ),
        events@.len() > 0 && events@[0].sequence == position.count + 1 ==> (r matches Ok(
            WritePlan::Write(cs, pre),
        ) && cs@.len() == events@.len() && (forall|i: int|
            0 <= i < events@.len() ==> candidate_of(domain@, events@[i], #[trigger] cs@[i]))
            && precondition_of(*position, events@[0], pre)),
{
    if events.len() == 0 {
        return Ok(WritePlan::Skip);
    }
    let first = events[0].sequence;
    if first == 0 || first - 1 != position.count {
        return Err(EventSourcingDbError::OptimisticLock);
    }
    let subject = aggregate_subject(
        events[0].aggregate_type.as_str(),
        events[0].aggregate_id.as_str(),
    );
    let pre = match &position.last_event_id {
        None => WritePrecondition::SubjectPristine(subject),
        Some(id) => WritePrecondition::SubjectOnEventId(subject, copy_str(id.as_str())),
    };
    let ghost all = events@;
    assert(all.len() == events.len());
    let mut rest = events;
    let mut candidates: Vec<EventCandidateRecord> = Vec::new();
    let mut k: usize = 0;
    while rest.len() > 0
        invariant
            all.len() <= usize::MAX,
            k + rest@.len() == all.len(),
            rest@ == all.skip(k as int),
            candidates@.len() == k,
            forall|i: int| 0 <= i < k ==> candidate_of(domain@, all[i], #[trigger] candidates@[i]),
        decreases rest@.len(),
    {
        let event = rest.remove(0);
        assert(event == all[k as int]);
        candidates.push(esdb_event_candidate(domain, event));
        assert(rest@ =~= all.skip(k + 1));
        k = k + 1;
    }
    Ok(WritePlan::Write(candidates, pre))
}

// ---------------------------------------------------------------------------
// Numbering the events of a subject
// ---------------------------------------------------------------------------

/// The count of the first entry for `subject`, or 0 where there is none.
pub open spec fn count_in(entries: Seq<(String, usize)>, subject: Seq<char>) -> usize
    decreases entries.len(),
{
    if entries.len() == 0 {
        0
    } else if entries[0].0@ == subject {
        entries[0].1
    } else {
        count_in(entries.drop_first(), subject)
    }
}

/// The count of a subject is that of its first entry.
proof fn lemma_count_first(entries: Seq<(String, usize)>, i: int, subject: Seq<char>)
    requires
        0 <= i < entries.len(),
        entries[i].0@ == subject,
        forall|j: int| 0 <= j < i ==> (#[trigger] entries[j]).0@ != subject,
    ensures
        count_in(entries, subject) == entries[i].1,
    decreases i,
{
    if i > 0 {
        let rest = entries.drop_first();
        assert forall|j: int| 0 <= j < i - 1 implies (#[trigger] rest[j]).0@ != subject by {
            assert(rest[j] == entries[j + 1]);
        }
        lemma_count_first(rest, i - 1, subject);
        assert(entries[0].0@ != subject);
    }
}

/// Replacing the first entry of a subject changes its count alone.
proof fn lemma_count_update(entries: Seq<(String, usize)>, i: int, x: (String, usize), s: Seq<char>)
    requires
        0 <= i < entries.len(),
        entries[i].0@ == x.0@,
        forall|j: int| 0 <= j < i ==> (#[trigger] entries[j]).0@ != x.0@,
    ensures
        count_in(entries.update(i, x), s) == if s == x.0@ {
            x.1
        } else {
            count_in(entries, s)
        },
    decreases i,
{
    let u = entries.update(i, x);
    if i == 0 {
        assert(u[0] == x);
        assert(u.drop_first() =~= entries.drop_first());
    } else {
        let rest = entries.drop_first();
        assert forall|j: int| 0 <= j < i - 1 implies (#[trigger] rest[j]).0@ != x.0@ by {
            assert(rest[j] == entries[j + 1]);
        }
        lemma_count_update(rest, i - 1, x, s);
        assert(u.drop_first() =~= rest.update(i - 1, x));
        assert(u[0] == entries[0]);
        assert(entries[0].0@ != x.0@);
    }
}

/// Adding an entry for a subject that has none changes its count alone.
proof fn lemma_count_push(entries: Seq<(String, usize)>, x: (String, usize), s: Seq<char>)
    requires
        forall|j: int| 0 <= j < entries.len() ==> (#[trigger] entries[j]).0@ != x.0@,
    ensures
        count_in(entries.push(x), s) == if s == x.0@ {
            x.1
        } else {
            count_in(entries, s)
        },
    decreases entries.len(),
{
    let p = entries.push(x);
    if entries.len() == 0 {
        assert(p[0] == x);
        assert(p.drop_first() =~= Seq::<(String, usize)>::empty());
        assert(count_in(p.drop_first(), s) == 0);
        assert(count_in(entries, s) == 0);
    } else {
        let rest = entries.drop_first();
        assert forall|j: int| 0 <= j < rest.len() implies (#[trigger] rest[j]).0@ != x.0@ by {
            assert(rest[j] == entries[j + 1]);
        }
        lemma_count_push(rest, x, s);
        assert(p.drop_first() =~= rest.push(x));
        assert(p[0] == entries[0]);
        assert(entries[0].0@ != x.0@);
    }
}

/// How many events of each subject were read so far; the next event of a
/// subject has the next number, starting at 1.
pub struct SubjectSequences {
    entries: Vec<(String, usize)>,
}

impl SubjectSequences {
    /// How many events of `subject` were read.
    pub closed spec fn count(&self, subject: Seq<char>) -> usize {
        count_in(self.entries@, subject)
    }

    /// No event read yet.
    pub fn new() -> (r: Self)
        ensures
            forall|s: Seq<char>| #[trigger] r.count(s) == 0,
    {
        SubjectSequences { entries: Vec::new() }
    }

    /// The sequence number of the next event of `subject`: one more than the
    /// events of it read before, as far as a `usize` holds.
    pub fn next(&mut self, subject: &str) -> (r: usize)
        ensures
            r == next_count(old(self).count(subject@)),
            forall|s: Seq<char>|
                #[trigger] final(self).count(s) == if s == subject@ {
                    r
                } else {
                    old(self).count(s)
                },
    {
        let ghost entries = self.entries@;
        let mut i: usize = 0;
        while i < self.entries.len()
            invariant
                self.entries@ == entries,
                entries == old(self).entries@,
                i <= entries.len(),
                forall|j: int| 0 <= j < i ==> (#[trigger] entries[j]).0@ != subject@,
            decreases entries.len() - i,
        {
            if str_equal(self.entries[i].0.as_str(), subject) {
                proof {
                    lemma_count_first(entries, i as int, subject@);
                }
                let n = self.entries[i].1;
                let r = if n < usize::MAX { n + 1 } else { n };
                let x = (copy_str(subject), r);
                proof {
                    assert forall|s: Seq<char>| #[trigger] count_in(entries.update(i as int, x), s)
                        == if s == subject@ { r } else { count_in(entries, s) } by {
                        lemma_count_update(entries, i as int, x, s);
                    }
                }
                self.entries.set(i, x);
                return r;
            }
            i = i + 1;
        }
        let x = (copy_str(subject), 1usize);
        proof {
            assert(count_in(entries, subject@) == 0) by {
                lemma_count_absent(entries, subject@);
            }
            assert forall|s: Seq<char>| #[trigger] count_in(entries.push(x), s)
                == if s == subject@ { 1usize } else { count_in(entries, s) } by {
                lemma_count_push(entries, x, s);
            }
        }
        self.entries.push(x);
        1
    }
}

/// A subject without entries has count 0.
proof fn lemma_count_absent(entries: Seq<(String, usize)>, subject: Seq<char>)
    requires
        forall|j: int| 0 <= j < entries.len() ==> (#[trigger] entries[j]).0@ != subject,
    ensures
        count_in(entries, subject) == 0,
    decreases entries.len(),
{
    if entries.len() > 0 {
        let rest = entries.drop_first();
        assert forall|j: int| 0 <= j < rest.len() implies (#[trigger] rest[j]).0@ != subject by {
            assert(rest[j] == entries[j + 1]);
        }
        lemma_count_absent(rest, subject);
        assert(entries[0].0@ != subject);
    }
}

// ---------------------------------------------------------------------------
// Reading
// ---------------------------------------------------------------------------

/// The cqrs-es event version of an EventSourcingDB version number: `1` reads
/// as `1.0`.
pub open spec fn cqrs_version(n: nat) -> Seq<char> {
    decimal(n) + seq!['.', '0']
}

/// Whether `s` is the event that this repository reads from the stored event
/// `event` at position `sequence` of its subject: the type names the event type
/// (in PascalCase) and the version number (1 where it names none), the subject
/// the aggregate type and id, the data the payload and metadata.
pub open spec fn read_from(event: EventRecord, sequence: usize, s: SerializedEventRecord) -> bool {
    &&& parse_event_type_spec(event.ty@) matches Ok((_, event_type, version))
    &&& s.aggregate_type@ == subject_parts(event.subject@)[0]
    &&& s.aggregate_id@ == subject_parts(event.subject@)[1]
    &&& s.sequence == sequence
    &&& s.event_type@ == pascal_case(event_type)
    &&& s.event_version@ == cqrs_version(
        match version {
            Some(n) => n as nat,
            None => 1,
        },
    )
    &&& unwraps_to(event.data, s.payload, s.metadata)
}

/// Whether `r` is what reading `event` at `sequence` gives: the error of a
/// type that is no qualified event type, or of a subject that has no aggregate
/// type and id; else the event read.
pub open spec fn read_outcome(
    event: EventRecord,
    sequence: usize,
    r: Result<SerializedEventRecord, EventSourcingDbError>,
) -> bool {
    match parse_event_type_spec(event.ty@) {
        Err(EventTypeFault::Identifier) => (r matches Err(
            EventSourcingDbError::InvalidEventTypeIdentifier(t),
        ) && t@ == event.ty@),
        Err(EventTypeFault::VersionNumber) => r matches Err(
            EventSourcingDbError::InvalidSequence(_),
        ),
        Ok(_) => if subject_parts(event.subject@).len() != 2 {
            (r matches Err(EventSourcingDbError::InvalidSubject(t)) && t@ == event.subject@)
        } else {
            (r matches Ok(s) && read_from(event, sequence, s))
        },
    }
}

/// The version read from a stored event: `n.0` for a type ending in `.v<n>`,
/// and `1.0` for a type that names no version.
pub proof fn lemma_read_version(event: EventRecord, sequence: usize, s: SerializedEventRecord)
    requires
        read_from(event, sequence, s),
    ensures
        ({
            let last = split_on(event.ty@, '.').last();
            if last.len() > 0 && last[0] == 'v' {
                parse_usize_spec(last.drop_first()) matches Some(n) && s.event_version@ == decimal(
                    n as nat,
                ) + seq!['.', '0']
            } else {
                s.event_version@ == seq!['1', '.', '0']
            }
        }),
{
    assert(decimal(1) =~= seq!['1']);
}

/// Reads a stored event as the event at position `sequence` of its subject.
pub fn read_event(event: EventRecord, sequence: usize) -> (r: Result<
    SerializedEventRecord,
    EventSourcingDbError,
>)
    requires
        map_event_ready(event.ty@, event.subject@),
    ensures
        read_outcome(event, sequence, r),
        r matches Ok(s) ==> ({
            let last = split_on(event.ty@, '.').last();
            if last.len() > 0 && last[0] == 'v' {
                parse_usize_spec(last.drop_first()) matches Some(n) && s.event_version@ == decimal(
                    n as nat,
                ) + seq!['.', '0']
            } else {
                s.event_version@ == seq!['1', '.', '0']
            }
        }),
{
    match map_event(event, sequence) {
        Ok((s, _meta)) => {
            let mut s = s;
            push_str(&mut s.event_version, ".0");
            proof {
                reveal_strlit(".0");
                assert(".0"@ =~= seq!['.', '0']);
                assert(decimal(1) =~= seq!['1']);
            }
            Ok(s)
        },
        Err(e) => Err(e),
    }
}

/// An item of an event stream that the database sends.
pub enum StreamItem {
    Event(EventRecord),
    Failed(ClientErrorKind, ClientError),
}

impl StreamItem {
    /// The stream item of an error that the database sent, with its kind.
    pub fn failed(error: ClientError) -> (r: Self)
        ensures
            r matches StreamItem::Failed(k, e) && k == client_error_kind_of(error) && e == error,
    {
        let kind = client_error_kind(&error);
        StreamItem::Failed(kind, error)
    }
}

/// The stream items that the repository can read.
pub open spec fn item_readable(item: StreamItem) -> bool {
    item matches StreamItem::Event(e) ==> map_event_ready(e.ty@, e.subject@)
}

/// What a query does with a stream item.
pub enum QueryStep {
    Keep(SerializedEventRecord),
    Skip,
    Fail(EventSourcingDbError),
}

/// Whether `r` is what a query of the events after `after` does with the
/// stored event `e` at position `n`: it fails where the event cannot be read,
/// keeps it where `n` is after `after`, and skips it otherwise.
pub open spec fn query_outcome(e: EventRecord, n: usize, after: usize, r: QueryStep) -> bool {
    match parse_event_type_spec(e.ty@) {
        Err(EventTypeFault::Identifier) => (r matches QueryStep::Fail(
            EventSourcingDbError::InvalidEventTypeIdentifier(t),
        ) && t@ == e.ty@),
        Err(EventTypeFault::VersionNumber) => r matches QueryStep::Fail(
            EventSourcingDbError::InvalidSequence(_),
        ),
        Ok(_) => if subject_parts(e.subject@).len() != 2 {
            (r matches QueryStep::Fail(EventSourcingDbError::InvalidSubject(t)) && t@ == e.subject@)
        } else if n > after {
            (r matches QueryStep::Keep(s) && read_from(e, n, s))
        } else {
            r is Skip
        },
    }
}

/// What a query of the events after `after` does with a stream item at
/// position `sequence` of the subject's stream: it fails on an error and on an
/// event that it cannot read, keeps an event whose position is after `after`
/// and skips it otherwise.
pub fn query_step(item: StreamItem, sequence: usize, after: usize) -> (r: QueryStep)
    requires
        item_readable(item),
    ensures
        query_step_spec(item, sequence, after, r),
{
    match item {
        StreamItem::Failed(kind, error) => QueryStep::Fail(
            EventSourcingDbError::from_classified(kind, error),
        ),
        StreamItem::Event(e) => match read_event(e, sequence) {
            Ok(s) => if sequence > after {
                QueryStep::Keep(s)
            } else {
                QueryStep::Skip
            },
            Err(err) => QueryStep::Fail(err),
        },
    }
}

/// Whether `r` is what a query of the events after `after` does with `item`
/// at position `sequence`.
pub open spec fn query_step_spec(item: StreamItem, sequence: usize, after: usize, r: QueryStep) -> bool {
    match item {
        StreamItem::Failed(kind, error) => r == QueryStep::Fail(classified(kind, error)),
        StreamItem::Event(e) => query_outcome(e, sequence, after, r),
    }
}

/// A query step fails exactly on an item that the query cannot read, with its
/// error, and otherwise keeps the event read where its position is after
/// `after`.
proof fn lemma_query_step_cases(item: StreamItem, sequence: usize, after: usize, r: QueryStep)
    requires
        query_step_spec(item, sequence, after, r),
    ensures
        match r {
            QueryStep::Fail(err) => !item_reads(item) && item_error(item, sequence, err),
            QueryStep::Keep(s) => item_reads(item) && sequence > after && read_from(
                item->Event_0,
                sequence,
                s,
            ),
            QueryStep::Skip => item_reads(item) && sequence <= after,
        },
{
}

/// Whether the query reads a stream item: an event whose type is a qualified
/// event type and whose subject has an aggregate type and id.
pub open spec fn item_reads(item: StreamItem) -> bool {
    &&& item matches StreamItem::Event(e)
    &&& parse_event_type_spec(e.ty@) is Ok
    &&& subject_parts(e.subject@).len() == 2
}

/// Whether `err` is the error of a stream item at position `sequence` that
/// the query cannot read.
pub open spec fn item_error(item: StreamItem, sequence: usize, err: EventSourcingDbError) -> bool {
    match item {
        StreamItem::Failed(kind, error) => err == classified(kind, error),
        StreamItem::Event(e) => query_outcome(e, sequence, 0, QueryStep::Fail(err)),
    }
}

/// Whether the query can read the items of a stream up to the first that it
/// cannot read.
pub open spec fn query_ready(items: Seq<StreamItem>) -> bool {
    forall|i: int|
        0 <= i < items.len() && (forall|j: int| 0 <= j < i ==> item_reads(#[trigger] items[j]))
            ==> item_readable(#[trigger] items[i])
}

/// An item that follows only items the query reads is one it can read.
proof fn lemma_query_ready_at(items: Seq<StreamItem>, k: int)
    requires
        query_ready(items),
        0 <= k < items.len(),
        forall|j: int| 0 <= j < k ==> item_reads(#[trigger] items[j]),
    ensures
        item_readable(items[k]),
{
}

/// Whether the query reads a stream item.
pub fn is_item_read(item: &StreamItem) -> (r: bool)
    ensures
        r == item_reads(*item),
{
    match item {
        StreamItem::Event(e) => match QualifiedEventType::parse(e.ty.as_str()) {
            Ok(_) => map_subject_to_aggregate_type_and_id(e.subject.as_str()).is_ok(),
            Err(_) => false,
        },
        StreamItem::Failed(_, _) => false,
    }
}

/// Whether the query can read the items of a stream up to the first that it
/// cannot read.
pub fn is_query_ready(items: &Vec<StreamItem>) -> (r: bool)
    ensures
        r == query_ready(items@),
{
    let mut i: usize = 0;
    while i < items.len()
        invariant
            i <= items@.len(),
            forall|j: int| 0 <= j < i ==> item_reads(#[trigger] items@[j]),
            forall|j: int| 0 <= j < i ==> item_readable(#[trigger] items@[j]),
        decreases items@.len() - i,
    {
        if !is_item_readable(&items[i]) {
            return false;
        }
        if !is_item_read(&items[i]) {
            return true;
        }
        i = i + 1;
    }
    true
}

/// The events of a subject's stream after position `after`, in order: the
/// event at index `i` of the stream has position `i + 1`. The query fails with
/// the error of the first item that it cannot read.
#[verifier::rlimit(40)]
pub fn query_events_from(items: Vec<StreamItem>, after: usize) -> (r: Result<
    Vec<SerializedEventRecord>,
    EventSourcingDbError,
>)
    requires
        items@.len() < usize::MAX,
        query_ready(items@),
    ensures
        (forall|i: int| 0 <= i < items@.len() ==> item_reads(#[trigger] items@[i])) ==> (r matches Ok(v)
            && v@.len() == (if after < items@.len() { items@.len() - after } else { 0 })
            && forall|j: int|
            0 <= j < v@.len() ==> read_from(
                items@[after + j]->Event_0,
                (after + j + 1) as usize,
                #[trigger] v@[j],
            )),
        !(forall|i: int| 0 <= i < items@.len() ==> item_reads(#[trigger] items@[i])) ==> (r matches Err(
            err,
        ) && exists|k: int|
            0 <= k < items@.len() && !item_reads(#[trigger] items@[k]) && (forall|i: int|
                0 <= i < k ==> item_reads(items@[i])) && item_error(items@[k], (k + 1) as usize, err)),
{
    let ghost all = items@;
    assert(all.len() == items.len());
    let mut rest = items;
    let mut events: Vec<SerializedEventRecord> = Vec::new();
    let mut k: usize = 0;
    while rest.len() > 0
        invariant
            all == items@,
            all.len() < usize::MAX,
            query_ready(all),
            k + rest@.len() == all.len(),
            rest@ == all.skip(k as int),
            forall|i: int| 0 <= i < k ==> item_reads(#[trigger] all[i]),
            events@.len() == (if after < k { k - after } else { 0 }),
            forall|j: int|
                0 <= j < events@.len() ==> read_from(
                    all[after + j]->Event_0,
                    (after + j + 1) as usize,
                    #[trigger] events@[j],
                ),
        decreases rest@.len(),
    {
        let item = rest.remove(0);
        assert(item == all[k as int]);
        assert(rest@ =~= all.skip(k + 1));
        assert(item_readable(all[k as int])) by {
            lemma_query_ready_at(all, k as int);
        }
        let ghost before = events@;
        let step = query_step(item, k + 1, after);
        proof {
            lemma_query_step_cases(all[k as int], (k + 1) as usize, after, step);
        }
        match step {
            QueryStep::Keep(s) => {
                events.push(s);
                assert(events@ == before.push(s));
            },
            QueryStep::Skip => {},
            QueryStep::Fail(err) => {
                return Err(err);
            },
        }
        assert(item_reads(all[k as int]));
        k = k + 1;
    }
    assert(k == all.len());
    Ok(events)
}

/// Whether two events read agree: the same aggregate, sequence, type,
/// version and payload, and the same metadata, or both the empty object.
pub open spec fn same_read(a: SerializedEventRecord, b: SerializedEventRecord) -> bool {
    &&& a.aggregate_type@ == b.aggregate_type@
    &&& a.aggregate_id@ == b.aggregate_id@
    &&& a.sequence == b.sequence
    &&& a.event_type@ == b.event_type@
    &&& a.event_version@ == b.event_version@
    &&& a.payload == b.payload
    &&& (a.metadata == b.metadata || (is_empty_object(a.metadata) && is_empty_object(b.metadata)))
}

/// The last events after `after` are the events of the whole stream whose
/// sequence is after `after`, in order: where every item is read, the query
/// from `after` gives the events of the query from 0 past their first `after`,
/// and the event at index `j` of the whole stream has sequence `j + 1`.
pub proof fn lemma_last_events_follow_all_events(
    items: Seq<StreamItem>,
    after: usize,
    all_events: Seq<SerializedEventRecord>,
    last: Seq<SerializedEventRecord>,
)
    requires
        items.len() < usize::MAX,
        forall|i: int| 0 <= i < items.len() ==> item_reads(#[trigger] items[i]),
        all_events.len() == items.len(),
        forall|j: int|
            0 <= j < all_events.len() ==> read_from(
                items[j]->Event_0,
                (j + 1) as usize,
                #[trigger] all_events[j],
            ),
        last.len() == (if after < items.len() { items.len() - after } else { 0 }),
        forall|j: int|
            0 <= j < last.len() ==> read_from(
                items[after + j]->Event_0,
                (after + j + 1) as usize,
                #[trigger] last[j],
            ),
    ensures
        forall|j: int| 0 <= j < all_events.len() ==> (#[trigger] all_events[j]).sequence == j + 1,
        last.len() == (if after < all_events.len() { all_events.len() - after } else { 0 }),
        forall|j: int| 0 <= j < last.len() ==> same_read(#[trigger] last[j], all_events[after + j]),
{
    assert forall|j: int| 0 <= j < all_events.len() implies (#[trigger] all_events[j]).sequence == j + 1 by {
        assert(read_from(items[j]->Event_0, (j + 1) as usize, all_events[j]));
    }
    assert forall|j: int| 0 <= j < last.len() implies same_read(#[trigger] last[j], all_events[after + j]) by {
        assert(read_from(items[after + j]->Event_0, (after + j + 1) as usize, all_events[after + j]));
    }
}

/// What a replay does with a stream item.
pub enum ReplayAction {
    Skip,
    Send(SerializedEventRecord),
    SendError(EventSourcingDbError),
}

/// Whether a subject is one that a replay with this prefix filter forwards.
pub open spec fn passes_filter(prefix: Option<&str>, subject: Seq<char>) -> bool {
    match prefix {
        Some(p) => p@.is_prefix_of(subject),
        None => true,
    }
}

/// The stream items that a replay with this prefix filter can read.
pub open spec fn replay_readable(item: StreamItem, prefix: Option<&str>) -> bool {
    item matches StreamItem::Event(e) ==> (passes_filter(prefix, e.subject@) ==> map_event_ready(
        e.ty@,
        e.subject@,
    ))
}

/// Whether `r` is what a replay forwards for the stored event `e` at position
/// `n`: the error where it cannot be read, else the event read.
pub open spec fn replay_outcome(e: EventRecord, n: usize, r: ReplayAction) -> bool {
    match parse_event_type_spec(e.ty@) {
        Err(EventTypeFault::Identifier) => (r matches ReplayAction::SendError(
            EventSourcingDbError::InvalidEventTypeIdentifier(t),
        ) && t@ == e.ty@),
        Err(EventTypeFault::VersionNumber) => r matches ReplayAction::SendError(
            EventSourcingDbError::InvalidSequence(_),
        ),
        Ok(_) => if subject_parts(e.subject@).len() != 2 {
            (r matches ReplayAction::SendError(EventSourcingDbError::InvalidSubject(t)) && t@
                == e.subject@)
        } else {
            (r matches ReplayAction::Send(s) && read_from(e, n, s))
        },
    }
}

/// What a replay does with a stream item: it forwards an error, skips an event
/// whose subject does not start with `prefix` (where there is one), and
/// forwards every other event, numbered as the next of its subject, or the
/// error of reading it.
pub fn replay_step(item: StreamItem, prefix: Option<&str>, sequences: &mut SubjectSequences) -> (r:
    ReplayAction)
    requires
        replay_readable(item, prefix),
    ensures
        match item {
            StreamItem::Failed(kind, error) => r == ReplayAction::SendError(classified(kind, error))
                && forall|s: Seq<char>| #[trigger] final(sequences).count(s) == old(sequences).count(s),
            StreamItem::Event(e) => if !passes_filter(prefix, e.subject@) {
                &&& r is Skip
                &&& forall|s: Seq<char>| #[trigger] final(sequences).count(s) == old(sequences).count(s)
            } else {
                let n = next_count(old(sequences).count(e.subject@));
                &&& replay_outcome(e, n, r)
                &&& forall|s: Seq<char>|
                    #[trigger] final(sequences).count(s) == if s == e.subject@ {
                        n
                    } else {
                        old(sequences).count(s)
                    }
            },
        },
{
    match item {
        StreamItem::Failed(kind, error) => ReplayAction::SendError(
            EventSourcingDbError::from_classified(kind, error),
        ),
        StreamItem::Event(e) => {
            let keep = match prefix {
                Some(p) => starts_with(e.subject.as_str(), p),
                None => true,
            };
            if !keep {
                return ReplayAction::Skip;
            }
            let n = sequences.next(e.subject.as_str());
            match read_event(e, n) {
                Ok(s) => ReplayAction::Send(s),
                Err(err) => ReplayAction::SendError(err),
            }
        },
    }
}

/// Whether the repository can read a stream item.
pub fn is_item_readable(item: &StreamItem) -> (r: bool)
    ensures
        r == item_readable(*item),
{
    match item {
        StreamItem::Event(e) => event_is_mappable(e),
        StreamItem::Failed(_, _) => true,
    }
}

/// Whether a replay with this prefix filter can read a stream item.
pub fn is_replay_readable(item: &StreamItem, prefix: Option<&str>) -> (r: bool)
    ensures
        r == replay_readable(*item, prefix),
{
    match item {
        StreamItem::Event(e) => {
            let passes = match prefix {
                Some(p) => starts_with(e.subject.as_str(), p),
                None => true,
            };
            !passes || event_is_mappable(e)
        },
        StreamItem::Failed(_, _) => true,
    }
}

// ---------------------------------------------------------------------------
// Laws
// ---------------------------------------------------------------------------


/// The cqrs-es version of a version number has that number as its major
/// version, and the major version parses back to the number.
proof fn lemma_major_of_cqrs_version(v: usize)
    ensures
        major_version(cqrs_version(v as nat)) == decimal(v as nat),
        parse_usize_spec(decimal(v as nat)) == Some(v),
{
    let d = decimal(v as nat);
    lemma_decimal_digits(v as nat);
    assert(!has_char(d, '.')) by {
        if has_char(d, '.') {
            let i = choose|i: int| 0 <= i < d.len() && d[i] == '.';
            assert(is_digit(d[i]));
        }
    }
    assert(!has_char(seq!['0'], '.')) by {
        if has_char(seq!['0'], '.') {
            let i = choose|i: int| 0 <= i < 1 && seq!['0'][i] == '.';
            assert(seq!['0'][0] == '0');
        }
    }
    lemma_split_append(d, seq!['0'], '.');
    lemma_split_no_sep(d, '.');
    assert(cqrs_version(v as nat) =~= d + seq!['.'] + seq!['0']);
}


/// Reading back a written event: where a stored event holds the subject, type
/// and data of the candidate written for an event in `domain`, reading it at
/// any position succeeds and gives back the aggregate type and id, the event
/// type, the version, the payload and the metadata that were written, with
/// that position as its sequence. This holds where the domain has labels and
/// none holds a dot, the event type starts with an ASCII capital and holds only
/// ASCII characters but dashes and dots, the version is a number followed by
/// `.0`, and the aggregate type is not empty and neither it nor the id holds a
/// slash.
pub proof fn lemma_read_back_written_event(
    domain: Seq<Seq<char>>,
    e: SerializedEventRecord,
    c: EventCandidateRecord,
    stored: EventRecord,
    version: usize,
    sequence: usize,
)
    requires
        candidate_of(domain, e, c),
        stored.ty@ == c.ty@,
        stored.subject@ == c.subject@,
        stored.data == c.data,
        domain.len() >= 1,
        forall|i: int| 0 <= i < domain.len() ==> !has_char(#[trigger] domain[i], '.'),
        e.event_type@.len() >= 1,
        is_ascii_upper(e.event_type@[0]),
        forall|i: int|
            0 <= i < e.event_type@.len() ==> is_ascii_char(#[trigger] e.event_type@[i])
                && e.event_type@[i] != '-' && e.event_type@[i] != '.',
        e.event_version@ == cqrs_version(version as nat),
        e.aggregate_type@.len() >= 1,
        !has_char(e.aggregate_type@, '/'),
        !has_char(e.aggregate_id@, '/'),
    ensures
        map_event_ready(stored.ty@, stored.subject@),
        parse_event_type_spec(stored.ty@) is Ok,
        subject_parts(stored.subject@).len() == 2,
        forall|r: SerializedEventRecord|
            #[trigger] read_from(stored, sequence, r) ==> {
                &&& r.aggregate_type@ == e.aggregate_type@
                &&& r.aggregate_id@ == e.aggregate_id@
                &&& r.event_type@ == e.event_type@
                &&& r.event_version@ == e.event_version@
                &&& r.payload == e.payload
                &&& r.metadata == e.metadata
                &&& r.sequence == sequence
            },
{
    let et = e.event_type@;
    let k = kebab_case(et);
    let d = decimal(version as nat);
    let vp = seq!['v'] + d;
    lemma_major_of_cqrs_version(version);
    assert(!has_char(et, '.')) by {
        if has_char(et, '.') {
            let i = choose|i: int| 0 <= i < et.len() && et[i] == '.';
            assert(et[i] != '.');
        }
    }
    lemma_kebab_case_no_dot(et);
    lemma_pascal_case_of_kebab_case(et);
    lemma_parsed_version_has_no_dot(d);
    let parts = stored_type_parts(domain, et, e.event_version@);
    assert(parts == domain.push(k).push(vp));
    assert forall|i: int| 0 <= i < parts.len() implies !has_char(#[trigger] parts[i], '.') by {
        if i < domain.len() {
            assert(parts[i] == domain[i]);
        }
    }
    lemma_split_join(parts, '.');
    assert(parts.last() == vp);
    assert(vp.drop_first() =~= d);
    assert(parts.take(parts.len() - 2) =~= domain);
    assert(parts[parts.len() - 2] == k);
    assert(parse_event_type_spec(stored.ty@) == Ok::<(Seq<Seq<char>>, Seq<char>, Option<usize>), EventTypeFault>(
        (domain, k, Some(version)),
    ));
    lemma_subject_parts(e.aggregate_type@, e.aggregate_id@);
    assert forall|r: SerializedEventRecord| #[trigger] read_from(stored, sequence, r) implies {
        &&& r.aggregate_type@ == e.aggregate_type@
        &&& r.aggregate_id@ == e.aggregate_id@
        &&& r.event_type@ == e.event_type@
        &&& r.event_version@ == e.event_version@
        &&& r.payload == e.payload
        &&& r.metadata == e.metadata
        &&& r.sequence == sequence
    } by {
        lemma_unwrap_wrap(c.data, e.payload, e.metadata, r.payload, r.metadata);
    }
}

} // verus!
