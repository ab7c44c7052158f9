//! Conversion between cqrs-es event descriptions and the qualified event types
//! and subjects of EventSourcingDB.
use vstd::prelude::*;

use crate::errors::{EventSourcingDbError, EventSourcingDbResult};
use crate::json::{
    find_key, is_empty_object, is_string, key_position, lemma_key_position_bounds, member,
    take_member, JsonValue,
};
use crate::records::{EventRecord, SerializedEventRecord, Timestamp};
use crate::text::{
    lemma_split_join_prefix,
    ascii_lower, is_ascii_lower, lemma_join_split, decimal_value, lemma_decimal_digits, digit_char, digit_value, ascii_upper, chars_of, has_char, is_digit, lemma_concat_extend_last, lemma_concat_push,
    lemma_split_append, lemma_split_join, lemma_split_no_sep, lemma_split_on_nonempty, copy_str, decimal, decimal_string, is_ascii_char, is_ascii_upper, join,
    join_strings, lemma_join_take, lemma_views_push, parse_usize_spec, push_range, push_str, split_after_leading, split_on,
    split_str, str_equal, string_of_range, string_push, to_ascii_lower, to_ascii_upper,
    trim_start_char, views,
};
use crate::mappers::lemma_trim_leading_slash;
use crate::unicode::{char_is_uppercase, parse_usize, unicode_is_uppercase};

verus! {

/// Marks event data that this crate wrapped into an envelope.
pub const STORED_EVENT_ENVELOPE_MARKER: &'static str = "eventsourcingdb-es@1";

// ---------------------------------------------------------------------------
// Case conversion
// ---------------------------------------------------------------------------

/// A word with its first character in ASCII uppercase.
pub open spec fn capitalize_ascii(w: Seq<char>) -> Seq<char> {
    seq![ascii_upper(w[0])] + w.drop_first()
}

/// The dash-separated words of `s`.
pub open spec fn dash_words(s: Seq<char>) -> Seq<Seq<char>> {
    split_on(s, '-')
}

/// Every dash-separated word of `s` starts with an ASCII character (so it is
/// not empty and its first byte is a whole character).
pub open spec fn pascal_ready(s: Seq<char>) -> bool {
    forall|i: int|
        0 <= i < dash_words(s).len() ==> (#[trigger] dash_words(s)[i]).len() > 0
            && is_ascii_char(dash_words(s)[i][0])
}

/// The words of `s` capitalized and joined without separator.
pub open spec fn pascal_case(s: Seq<char>) -> Seq<char> {
    join(dash_words(s).map_values(|w: Seq<char>| capitalize_ascii(w)), Seq::<char>::empty())
}

/// Whether a character counts as uppercase: for ASCII the letters `A`-`Z`,
/// else the Unicode `Uppercase` property.
pub open spec fn is_upper(c: char) -> bool {
    if is_ascii_char(c) {
        is_ascii_upper(c)
    } else {
        unicode_is_uppercase(c)
    }
}

/// `s` with each uppercase character lowered and, but at the start, preceded by
/// a dash.
pub open spec fn kebab_case(s: Seq<char>) -> Seq<char>
    decreases s.len(),
{
    if s.len() == 0 {
        Seq::<char>::empty()
    } else {
        let prev = kebab_case(s.drop_last());
        let c = s.last();
        if is_upper(c) {
            if s.len() > 1 {
                prev.push('-').push(ascii_lower(c))
            } else {
                prev.push(ascii_lower(c))
            }
        } else {
            prev.push(c)
        }
    }
}

/// Turns a kebab-case word list into PascalCase: `book-created` becomes
/// `BookCreated`.
pub fn to_pascal_case(s: &str) -> (res: String)
    requires
        pascal_ready(s@),
    ensures
        res@ == pascal_case(s@),
{
    let parts = split_str(s, '-');
    let ghost caps = dash_words(s@).map_values(|w: Seq<char>| capitalize_ascii(w));
    let mut res = String::new();
    let mut i: usize = 0;
    assert(caps.take(0) =~= Seq::<Seq<char>>::empty());
    while i < parts.len()
        invariant
            views(parts@) == dash_words(s@),
            pascal_ready(s@),
            caps == dash_words(s@).map_values(|w: Seq<char>| capitalize_ascii(w)),
            i <= parts.len(),
            res@ == join(caps.take(i as int), Seq::<char>::empty()),
        decreases parts.len() - i,
    {
        let w = chars_of(parts[i].as_str());
        assert(w@ == dash_words(s@)[i as int]);
        let ghost before = res@;
        string_push(&mut res, to_ascii_upper(w[0]));
        push_range(&mut res, &w, 1, w.len());
        proof {
            lemma_join_take(caps, Seq::<char>::empty(), i as int);
            assert(seq![ascii_upper(w@[0])] + w@.subrange(1, w@.len() as int) =~= caps[i as int]);
            assert(res@ =~= before + caps[i as int]);
            if i > 0 {
                assert(before + Seq::<char>::empty() =~= before);
            }
        }
        i = i + 1;
    }
    assert(caps.take(parts.len() as int) =~= caps);
    res
}

/// Turns PascalCase into kebab-case: `BookCreated` becomes `book-created`.
pub fn pascal_to_kebab_case(s: &str) -> (res: String)
    ensures
        res@ == kebab_case(s@),
{
    let chars = chars_of(s);
    let mut out = String::new();
    let mut i: usize = 0;
    while i < chars.len()
        invariant
            chars@ == s@,
            i <= chars.len(),
            out@ == kebab_case(s@.take(i as int)),
        decreases chars.len() - i,
    {
        let c = chars[i];
        let upper = if c <= '\u{7f}' {
            'A' <= c && c <= 'Z'
        } else {
            char_is_uppercase(c)
        };
        assert(upper == is_upper(c));
        if upper {
            if i != 0 {
                string_push(&mut out, '-');
            }
            string_push(&mut out, to_ascii_lower(c));
        } else {
            string_push(&mut out, c);
        }
        assert(s@.take(i + 1).drop_last() =~= s@.take(i as int));
        i = i + 1;
    }
    assert(s@.take(chars.len() as int) =~= s@);
    out
}

// ---------------------------------------------------------------------------
// Subjects
// ---------------------------------------------------------------------------

/// The slash-separated pieces of a subject after its leading slashes.
pub open spec fn subject_parts(subject: Seq<char>) -> Seq<Seq<char>> {
    split_on(trim_start_char(subject, '/'), '/')
}

/// Splits a subject of the shape `/aggregate_type/aggregate_id` (leading slashes
/// optional) into the aggregate type and id; any other shape is an invalid
/// subject.
pub fn map_subject_to_aggregate_type_and_id(subject: &str) -> (res: Result<
    (String, String),
    EventSourcingDbError,
>)
    ensures
        subject_parts(subject@).len() == 2 <==> res is Ok,
        res matches Ok((t, id)) ==> t@ == subject_parts(subject@)[0] && id@ == subject_parts(
            subject@,
        )[1],
        res matches Err(e) ==> (e matches EventSourcingDbError::InvalidSubject(s) && s@
            == subject@),
{
    let parts = split_after_leading(subject, '/', '/');
    if parts.len() == 2 {
        let aggregate_type = parts[0].clone();
        let aggregate_id = parts[1].clone();
        Ok((aggregate_type, aggregate_id))
    } else {
        Err(EventSourcingDbError::InvalidSubject(copy_str(subject)))
    }
}

// ---------------------------------------------------------------------------
// Qualified event types
// ---------------------------------------------------------------------------

/// A domain name with its labels in reverse order, such as `io.eventsourcingdb`.
#[derive(Debug, Clone, PartialEq, Eq, Hash)]
pub struct ReversedDomain(Vec<String>);

impl View for ReversedDomain {
    type V = Seq<Seq<char>>;

    closed spec fn view(&self) -> Seq<Seq<char>> {
        views(self.0@)
    }
}

impl ReversedDomain {
    /// The domain of the given labels.
    pub fn new(labels: &[&str]) -> (r: Self)
        ensures
            r@ == labels@.map_values(|l: &str| l@),
    {
        let mut v: Vec<String> = Vec::new();
        let mut i: usize = 0;
        while i < labels.len()
            invariant
                i <= labels.len(),
                views(v@) == labels@.map_values(|l: &str| l@).take(i as int),
            decreases labels.len() - i,
        {
            let ghost before = v@;
            let label = copy_str(labels[i]);
            v.push(label);
            proof {
                lemma_views_push(before, label);
                assert(labels@.map_values(|l: &str| l@).take(i + 1) =~= labels@.map_values(
                    |l: &str| l@,
                ).take(i as int).push(labels@[i as int]@));
            }
            i = i + 1;
        }
        assert(labels@.map_values(|l: &str| l@).take(labels.len() as int) =~= labels@.map_values(
            |l: &str| l@,
        ));
        ReversedDomain(v)
    }

    /// The labels of the domain.
    pub fn labels(&self) -> (r: &[String])
        ensures
            views(r@) == self@,
    {
        self.0.as_slice()
    }
}

/// An event type of EventSourcingDB: reversed domain, event type and version,
/// such as `io.eventsourcingdb.book-created.v2`.
#[derive(Debug, Clone, PartialEq, Eq, Hash)]
pub struct QualifiedEventType {
    pub reversed_domain: ReversedDomain,
    pub event_type: String,
    pub event_version: Option<usize>,
}

/// Why an identifier is not a qualified event type.
#[derive(Debug, Clone, Copy, PartialEq, Eq, Structural)]
pub enum EventTypeFault {
    /// Too few dot-separated parts.
    Identifier,
    /// A `v` part whose number does not parse.
    VersionNumber,
}

/// Whether a part of an identifier names a version (it starts with `v`).
pub open spec fn is_version_part(p: Seq<char>) -> bool {
    p.len() > 0 && p[0] == 'v'
}

/// The reversed domain, event type and version that an identifier qualifies,
/// or why it does not: the identifier needs at least two dot-separated parts;
/// a last part `v<number>` is the version and needs two more parts before it.
pub open spec fn parse_event_type_spec(value: Seq<char>) -> Result<
    (Seq<Seq<char>>, Seq<char>, Option<usize>),
    EventTypeFault,
> {
    let parts = split_on(value, '.');
    if parts.len() < 2 {
        Err(EventTypeFault::Identifier)
    } else if is_version_part(parts.last()) {
        match parse_usize_spec(parts.last().drop_first()) {
            None => Err(EventTypeFault::VersionNumber),
            Some(n) => if parts.len() < 3 {
                Err(EventTypeFault::Identifier)
            } else {
                Ok((parts.take(parts.len() - 2), parts[parts.len() - 2], Some(n)))
            },
        }
    } else {
        Ok((parts.drop_last(), parts.last(), None))
    }
}

impl QualifiedEventType {
    /// Parses an identifier such as `io.eventsourcingdb.book-created.v2`.
    pub fn parse(value: &str) -> (res: Result<QualifiedEventType, EventSourcingDbError>)
        ensures
            match parse_event_type_spec(value@) {
                Ok((domain, event_type, version)) => res matches Ok(q) && q.reversed_domain@
                    == domain && q.event_type@ == event_type && q.event_version == version,
                Err(EventTypeFault::Identifier) => res matches Err(e) && (e matches EventSourcingDbError::InvalidEventTypeIdentifier(s) && s@ == value@),
                Err(EventTypeFault::VersionNumber) => res matches Err(e) && e is InvalidSequence,
            },
            res matches Ok(q) ==> ({
                let parts = split_on(value@, '.');
                let n = q.reversed_domain@.len();
                &&& parts.len() == n + if q.event_version is Some { 2int } else { 1int }
                &&& parts.take(n as int) == q.reversed_domain@
                &&& parts[n as int] == q.event_type@
                &&& match q.event_version {
                    Some(v) => parts.last().len() > 0 && parts.last()[0] == 'v' && parse_usize_spec(
                        parts.last().drop_first(),
                    ) == Some(v),
                    None => !(parts.last().len() > 0 && parts.last()[0] == 'v'),
                }
            }),
    {
        let mut parts = split_str(value, '.');
        let ghost all = split_on(value@, '.');
        if parts.len() < 2 {
            return Err(EventSourcingDbError::InvalidEventTypeIdentifier(copy_str(value)));
        }
        let mut version: Option<usize> = None;
        let last = chars_of(parts[parts.len() - 1].as_str());
        assert(last@ == all.last());
        if last.len() > 0 && last[0] == 'v' {
            let num = string_of_range(&last, 1, last.len());
            assert(num@ =~= all.last().drop_first());
            match parse_usize(num.as_str()) {
                Ok(n) => {
                    version = Some(n);
                    parts.pop();
                },
                Err(e) => {
                    return Err(EventSourcingDbError::InvalidSequence(e));
                },
            }
        }
        if parts.len() < 2 {
            return Err(EventSourcingDbError::InvalidEventTypeIdentifier(copy_str(value)));
        }
        let event_type = match parts.pop() {
            Some(t) => t,
            None => String::new(),
        };
        proof {
            if version is Some {
                assert(views(parts@) =~= all.take(all.len() - 2));
            } else {
                assert(views(parts@) =~= all.drop_last());
            }
        }
        Ok(QualifiedEventType { reversed_domain: ReversedDomain(parts), event_type, event_version: version })
    }
}

impl std::str::FromStr for QualifiedEventType {
    type Err = EventSourcingDbError;

    fn from_str(value: &str) -> (res: Result<Self, Self::Err>)
        ensures
            match parse_event_type_spec(value@) {
                Ok((domain, event_type, version)) => res matches Ok(q) && q.reversed_domain@
                    == domain && q.event_type@ == event_type && q.event_version == version,
                Err(EventTypeFault::Identifier) => res matches Err(e) && (e matches EventSourcingDbError::InvalidEventTypeIdentifier(s) && s@ == value@),
                Err(EventTypeFault::VersionNumber) => res matches Err(e) && e is InvalidSequence,
            },
            res matches Ok(q) ==> ({
                let parts = split_on(value@, '.');
                let n = q.reversed_domain@.len();
                &&& parts.len() == n + if q.event_version is Some { 2int } else { 1int }
                &&& parts.take(n as int) == q.reversed_domain@
                &&& parts[n as int] == q.event_type@
            }),
    {
        QualifiedEventType::parse(value)
    }
}

/// The parts of the qualified event type of an event of type `event_type` and
/// version `event_version`: the domain labels, the event type in kebab case and,
/// for any version but `1`, the version prefixed with `v`.
pub open spec fn qualified_parts(domain: Seq<Seq<char>>, event_type: Seq<char>, event_version: Seq<char>) -> Seq<Seq<char>> {
    let parts = domain.push(kebab_case(event_type));
    if event_version == seq!['1'] {
        parts
    } else {
        parts.push(seq!['v'] + event_version)
    }
}

/// The qualified event type of an event of type `event_type` and version
/// `event_version` in `domain`, such as `io.eventsourcingdb.book-created.v2`.
pub fn qualify_event_type(domain: &ReversedDomain, event_type: &str, event_version: &str) -> (res: String)
    ensures
        res@ == join(qualified_parts(domain@, event_type@, event_version@), seq!['.']),
        (forall|i: int| 0 <= i < domain@.len() ==> !has_char(#[trigger] domain@[i], '.'))
            ==> split_on(res@, '.').len() > domain@.len() && split_on(res@, '.').take(
            domain@.len() as int,
        ) == domain@,
        (forall|i: int| 0 <= i < domain@.len() ==> !has_char(#[trigger] domain@[i], '.'))
            && !has_char(kebab_case(event_type@), '.') && !has_char(event_version@, '.') ==> ({
            let parts = split_on(res@, '.');
            let n = domain@.len() as int;
            &&& parts[n] == kebab_case(event_type@)
            &&& event_version@ == seq!['1'] ==> parts.len() == n + 1
            &&& event_version@ != seq!['1'] ==> parts.len() == n + 2 && parts[n + 1] == seq!['v']
                + event_version@
        }),
{
    let labels = domain.labels();
    let mut parts: Vec<String> = Vec::new();
    let mut i: usize = 0;
    while i < labels.len()
        invariant
            i <= labels.len(),
            views(labels@) == domain@,
            views(parts@) == domain@.take(i as int),
        decreases labels.len() - i,
    {
        let ghost before = parts@;
        let label = labels[i].clone();
        parts.push(label);
        proof {
            lemma_views_push(before, label);
            assert(views(labels@)[i as int] == labels@[i as int]@);
            assert(domain@.take(i + 1) =~= domain@.take(i as int).push(labels@[i as int]@));
        }
        i = i + 1;
    }
    assert(domain@.take(labels.len() as int) =~= domain@);
    parts.push(pascal_to_kebab_case(event_type));
    let ghost with_type = views(parts@);
    assert(with_type =~= domain@.push(kebab_case(event_type@)));
    if !str_equal(event_version, "1") {
        let mut v = String::new();
        string_push(&mut v, 'v');
        push_str(&mut v, event_version);
        parts.push(v);
        assert(views(parts@) =~= with_type.push(seq!['v'] + event_version@));
    }
    proof {
        reveal_strlit("1");
        assert("1"@ =~= seq!['1']);
    }
    let res = join_strings(&parts, ".");
    proof {
        reveal_strlit(".");
        assert("."@ =~= seq!['.']);
        lemma_qualified_domain_first(domain@, event_type@, event_version@);
        lemma_qualified_parts_split(domain@, event_type@, event_version@);
    }
    res
}

/// The dot-separated parts of a qualified event type without dots in its
/// labels, its kebab-case type and its version: the labels, the type and, for
/// any version but `1`, `v` and the version.
proof fn lemma_qualified_parts_split(domain: Seq<Seq<char>>, event_type: Seq<char>, event_version: Seq<char>)
    ensures
        (forall|i: int| 0 <= i < domain.len() ==> !has_char(#[trigger] domain[i], '.'))
            && !has_char(kebab_case(event_type), '.') && !has_char(event_version, '.') ==> ({
            let parts = split_on(join(qualified_parts(domain, event_type, event_version), seq!['.']), '.');
            let n = domain.len() as int;
            &&& parts[n] == kebab_case(event_type)
            &&& event_version == seq!['1'] ==> parts.len() == n + 1
            &&& event_version != seq!['1'] ==> parts.len() == n + 2 && parts[n + 1] == seq!['v']
                + event_version
        }),
{
    if (forall|i: int| 0 <= i < domain.len() ==> !has_char(#[trigger] domain[i], '.'))
        && !has_char(kebab_case(event_type), '.') && !has_char(event_version, '.') {
        let q = qualified_parts(domain, event_type, event_version);
        let vp = seq!['v'] + event_version;
        assert(!has_char(vp, '.')) by {
            if has_char(vp, '.') {
                let i = choose|i: int| 0 <= i < vp.len() && vp[i] == '.';
                assert(event_version[i - 1] == '.');
            }
        }
        assert forall|i: int| 0 <= i < q.len() implies !has_char(#[trigger] q[i], '.') by {
            if i < domain.len() {
                assert(q[i] == domain[i]);
            }
        }
        lemma_split_join(q, '.');
    }
}

/// The qualified event type starts with the labels of the domain, in order,
/// where no label holds a dot.
pub proof fn lemma_qualified_domain_first(
    domain: Seq<Seq<char>>,
    event_type: Seq<char>,
    event_version: Seq<char>,
)
    ensures
        (forall|i: int| 0 <= i < domain.len() ==> !has_char(#[trigger] domain[i], '.')) ==> ({
            let parts = split_on(join(qualified_parts(domain, event_type, event_version), seq!['.']), '.');
            parts.len() > domain.len() && parts.take(domain.len() as int) == domain
        }),
{
    if forall|i: int| 0 <= i < domain.len() ==> !has_char(#[trigger] domain[i], '.') {
        let q = qualified_parts(domain, event_type, event_version);
        assert forall|i: int| 0 <= i < domain.len() implies !has_char(#[trigger] q[i], '.') by {
            assert(q[i] == domain[i]);
        }
        lemma_split_join_prefix(q, domain.len() as int, '.');
        assert(q.take(domain.len() as int) =~= domain);
    }
}

} // verus!

verus! {

// ---------------------------------------------------------------------------
// Event data envelopes
// ---------------------------------------------------------------------------

/// Whether the members `entries` are those of an envelope that this crate
/// wrapped: their `_cqrs_es` member is the marker string.
pub open spec fn is_envelope(entries: Seq<(String, JsonValue)>) -> bool {
    match member(entries, "_cqrs_es"@) {
        Some(v) => is_string(v, STORED_EVENT_ENVELOPE_MARKER@),
        None => false,
    }
}

/// Whether `payload` and `metadata` are what `data` unwraps to: for an envelope
/// its `payload` member (or null) and its `metadata` member (or the empty
/// object); for anything else `data` itself and the empty object.
pub open spec fn unwraps_to(data: JsonValue, payload: JsonValue, metadata: JsonValue) -> bool {
    match data {
        JsonValue::Object(entries) => if is_envelope(entries@) {
            &&& match member(entries@, "payload"@) {
                Some(p) => payload == p,
                None => payload is Null,
            }
            &&& match member(entries@, "metadata"@) {
                Some(m) => metadata == m,
                None => is_empty_object(metadata),
            }
        } else {
            payload == data && is_empty_object(metadata)
        },
        _ => payload == data && is_empty_object(metadata),
    }
}

/// Whether `v` is the envelope of `payload` and `metadata`: an object of the
/// marker, the payload and the metadata.
pub open spec fn is_envelope_of(v: JsonValue, payload: JsonValue, metadata: JsonValue) -> bool {
    &&& v matches JsonValue::Object(e)
    &&& e@.len() == 3
    &&& e@[0].0@ == "_cqrs_es"@
    &&& is_string(e@[0].1, STORED_EVENT_ENVELOPE_MARKER@)
    &&& e@[1].0@ == "payload"@
    &&& e@[1].1 == payload
    &&& e@[2].0@ == "metadata"@
    &&& e@[2].1 == metadata
}

fn empty_object() -> (r: JsonValue)
    ensures
        is_empty_object(r),
{
    JsonValue::Object(Vec::new())
}

/// Wraps a payload and its metadata into one envelope.
pub fn wrap_event_data(payload: JsonValue, metadata: JsonValue) -> (r: JsonValue)
    ensures
        is_envelope_of(r, payload, metadata),
        r matches JsonValue::Object(e) && (member(e@, "_cqrs_es"@) matches Some(mark) && is_string(
            mark,
            STORED_EVENT_ENVELOPE_MARKER@,
        )) && member(e@, "payload"@) == Some(payload) && member(e@, "metadata"@) == Some(metadata),
{
    let mut entries: Vec<(String, JsonValue)> = Vec::new();
    entries.push((copy_str("_cqrs_es"), JsonValue::String(copy_str(STORED_EVENT_ENVELOPE_MARKER))));
    entries.push((copy_str("payload"), payload));
    entries.push((copy_str("metadata"), metadata));
    let r = JsonValue::Object(entries);
    proof {
        lemma_envelope_members(r, payload, metadata);
    }
    r
}

/// The payload and the metadata of event data: those of an envelope that this
/// crate wrapped, or the data itself with empty metadata.
pub fn unwrap_event_data(data: JsonValue) -> (r: (JsonValue, JsonValue))
    ensures
        unwraps_to(data, r.0, r.1),
        !(data matches JsonValue::Object(e) && (member(e@, "_cqrs_es"@) matches Some(mark)
            && is_string(mark, STORED_EVENT_ENVELOPE_MARKER@))) ==> r.0 == data && is_empty_object(
            r.1,
        ),
        match data {
            JsonValue::Object(e) => (member(e@, "_cqrs_es"@) matches Some(mark) && is_string(
                mark,
                STORED_EVENT_ENVELOPE_MARKER@,
            )) ==> match member(e@, "payload"@) {
                Some(p) => r.0 == p,
                None => r.0 is Null,
            },
            _ => true,
        },
{
    match data {
        JsonValue::Object(entries) => {
            let mut entries = entries;
            proof {
                lemma_key_position_bounds(entries@, "_cqrs_es"@);
            }
            let marker_at = find_key(&entries, "_cqrs_es");
            let mut wrapped = false;
            if let Some(i) = marker_at {
                assert(member(entries@, "_cqrs_es"@) == Some(entries@[i as int].1));
                if let JsonValue::String(s) = &entries[i].1 {
                    wrapped = str_equal(s.as_str(), STORED_EVENT_ENVELOPE_MARKER);
                    assert(wrapped == is_envelope(entries@));
                } else {
                    assert(!is_envelope(entries@));
                }
            }
            if !wrapped {
                assert(!is_envelope(entries@));
                return (JsonValue::Object(entries), empty_object());
            }
            let ghost all = entries@;
            assert(is_envelope(all));
            let p = find_key(&entries, "payload");
            let m = find_key(&entries, "metadata");
            proof {
                lemma_key_position_bounds(all, "payload"@);
                lemma_key_position_bounds(all, "metadata"@);
                reveal_strlit("payload");
                reveal_strlit("metadata");
                assert("payload"@ != "metadata"@) by {
                    assert("payload"@[0] != "metadata"@[0]);
                }
            }
            match (p, m) {
                (Some(i), Some(j)) => {
                    if i < j {
                        let metadata = take_member(&mut entries, j);
                        let payload = take_member(&mut entries, i);
                        (payload, metadata)
                    } else {
                        let payload = take_member(&mut entries, i);
                        let metadata = take_member(&mut entries, j);
                        (payload, metadata)
                    }
                },
                (Some(i), None) => {
                    let payload = take_member(&mut entries, i);
                    (payload, empty_object())
                },
                (None, Some(j)) => {
                    let metadata = take_member(&mut entries, j);
                    (JsonValue::Null, metadata)
                },
                (None, None) => (JsonValue::Null, empty_object()),
            }
        },
        other => (other, empty_object()),
    }
}

/// The members of an envelope: its marker, its payload and its metadata.
proof fn lemma_envelope_members(v: JsonValue, payload: JsonValue, metadata: JsonValue)
    requires
        is_envelope_of(v, payload, metadata),
    ensures
        v matches JsonValue::Object(e) && member(e@, "_cqrs_es"@) == Some(e@[0].1) && member(
            e@,
            "payload"@,
        ) == Some(payload) && member(e@, "metadata"@) == Some(metadata),
{
    let e = v->Object_0@;
    reveal_strlit("_cqrs_es");
    reveal_strlit("payload");
    reveal_strlit("metadata");
    assert("payload"@ != "_cqrs_es"@) by {
        assert("payload"@[0] != "_cqrs_es"@[0]);
    }
    assert("metadata"@ != "_cqrs_es"@) by {
        assert("metadata"@[0] != "_cqrs_es"@[0]);
    }
    assert("metadata"@ != "payload"@) by {
        assert("metadata"@[0] != "payload"@[0]);
    }
    let d1 = e.drop_last();
    let d2 = d1.drop_last();
    let d3 = d2.drop_last();
    assert(d3 =~= Seq::<(String, JsonValue)>::empty());
    assert(d2 =~= seq![e[0]]);
    assert(d1 =~= seq![e[0], e[1]]);
    assert(d2.last() == e[0]);
    assert(d1.last() == e[1]);
    assert(e.last() == e[2]);
    assert(key_position(d3, "_cqrs_es"@) is None);
    assert(key_position(d2, "_cqrs_es"@) == Some(0int));
    assert(key_position(d1, "_cqrs_es"@) == Some(0int));
    assert(key_position(e, "_cqrs_es"@) == Some(0int));
    assert(key_position(d3, "payload"@) is None);
    assert(key_position(d2, "payload"@) is None);
    assert(key_position(d1, "payload"@) == Some(1int));
    assert(key_position(e, "payload"@) == Some(1int));
    assert(key_position(d3, "metadata"@) is None);
    assert(key_position(d2, "metadata"@) is None);
    assert(key_position(d1, "metadata"@) is None);
    assert(key_position(e, "metadata"@) == Some(2int));
}

/// Data is an envelope exactly where its marker member is the string
/// `STORED_EVENT_ENVELOPE_MARKER`, and every envelope that `wrap_event_data`
/// builds carries that marker.
pub proof fn lemma_envelope_marker(entries: Seq<(String, JsonValue)>, v: JsonValue, payload: JsonValue, metadata: JsonValue)
    ensures
        is_envelope(entries) <==> (member(entries, "_cqrs_es"@) matches Some(mark) && mark matches JsonValue::String(t) && t@ == STORED_EVENT_ENVELOPE_MARKER@),
        is_envelope_of(v, payload, metadata) ==> (v matches JsonValue::Object(e) && member(e@, "_cqrs_es"@) matches Some(mark) && mark matches JsonValue::String(t) && t@ == STORED_EVENT_ENVELOPE_MARKER@),
{
    if is_envelope_of(v, payload, metadata) {
        lemma_envelope_members(v, payload, metadata);
    }
}

/// Unwrapping an envelope gives back the payload and the metadata that were
/// wrapped into it.
pub proof fn lemma_unwrap_wrap(v: JsonValue, payload: JsonValue, metadata: JsonValue, p: JsonValue, m: JsonValue)
    requires
        is_envelope_of(v, payload, metadata),
        unwraps_to(v, p, m),
    ensures
        p == payload,
        m == metadata,
{
    lemma_envelope_members(v, payload, metadata);
}

// ---------------------------------------------------------------------------
// Events
// ---------------------------------------------------------------------------

/// The metadata of an EventSourcingDB event that cqrs-es does not keep.
#[derive(Debug)]
pub struct EventMetadata {
    pub source: String,
    pub subject: String,
    pub time: Timestamp,
    pub traceinfo: Option<eventsourcingdb::event::TraceInfo>,
    pub datacontenttype: String,
    pub specversion: String,
    pub hash: String,
    pub predecessorhash: String,
    pub signature: Option<String>,
}

/// Whether `meta` holds the metadata fields of an event with these fields.
pub open spec fn metadata_holds(
    meta: EventMetadata,
    source: String,
    subject: String,
    time: Timestamp,
    traceinfo: Option<eventsourcingdb::event::TraceInfo>,
    datacontenttype: String,
    specversion: String,
    hash: String,
    predecessorhash: String,
    signature: Option<String>,
) -> bool {
    &&& meta.source == source
    &&& meta.subject == subject
    &&& meta.time == time
    &&& meta.traceinfo == traceinfo
    &&& meta.datacontenttype == datacontenttype
    &&& meta.specversion == specversion
    &&& meta.hash == hash
    &&& meta.predecessorhash == predecessorhash
    &&& meta.signature == signature
}

/// Whether `meta` holds the metadata of `event`.
pub open spec fn metadata_of(event: EventRecord, meta: EventMetadata) -> bool {
    metadata_holds(
        meta,
        event.source,
        event.subject,
        event.time,
        event.traceinfo,
        event.datacontenttype,
        event.specversion,
        event.hash,
        event.predecessorhash,
        event.signature,
    )
}

impl EventMetadata {
    /// The metadata of an event (`From<&Event>`).
    pub fn from_record(event: EventRecord) -> (r: EventMetadata)
        ensures
            metadata_of(event, r),
    {
        EventMetadata {
            source: event.source,
            subject: event.subject,
            time: event.time,
            traceinfo: event.traceinfo,
            datacontenttype: event.datacontenttype,
            specversion: event.specversion,
            hash: event.hash,
            predecessorhash: event.predecessorhash,
            signature: event.signature,
        }
    }
}

/// An event that `map_event` can map without failing on its event type: where
/// the type and the subject are valid, every dash-separated word of the event
/// type starts with an ASCII character.
pub open spec fn map_event_ready(ty: Seq<char>, subject: Seq<char>) -> bool {
    match parse_event_type_spec(ty) {
        Ok((_, event_type, _)) => subject_parts(subject).len() == 2 ==> pascal_ready(event_type),
        Err(_) => true,
    }
}

/// Whether `s` is the serialized event of `event` at position `sequence`.
pub open spec fn serialized_from(event: EventRecord, sequence: usize, s: SerializedEventRecord) -> bool {
    &&& parse_event_type_spec(event.ty@) matches Ok((_, event_type, version))
    &&& s.aggregate_type@ == subject_parts(event.subject@)[0]
    &&& s.aggregate_id@ == subject_parts(event.subject@)[1]
    &&& s.sequence == sequence
    &&& s.event_type@ == pascal_case(event_type)
    &&& s.event_version@ == decimal(
        match version {
            Some(n) => n as nat,
            None => 1,
        },
    )
    &&& unwraps_to(event.data, s.payload, s.metadata)
}

/// Maps an EventSourcingDB event to the serialized cqrs-es event at position
/// `sequence` of its aggregate, and its metadata. The event type gives the
/// event type in PascalCase and the version (1 where it names none); the
/// subject gives the aggregate type and id; the data gives payload and
/// metadata.
pub fn map_event(event: EventRecord, sequence: usize) -> (res: EventSourcingDbResult<
    (SerializedEventRecord, EventMetadata),
>)
    requires
        map_event_ready(event.ty@, event.subject@),
    ensures
        match parse_event_type_spec(event.ty@) {
            Err(EventTypeFault::Identifier) => res matches Err(e) && (e matches EventSourcingDbError::InvalidEventTypeIdentifier(s) && s@ == event.ty@),
            Err(EventTypeFault::VersionNumber) => res matches Err(e) && e is InvalidSequence,
            Ok(_) => if subject_parts(event.subject@).len() != 2 {
                res matches Err(e) && (e matches EventSourcingDbError::InvalidSubject(s) && s@
                    == event.subject@)
            } else {
                res matches Ok((s, meta)) && serialized_from(event, sequence, s) && metadata_of(
                    event,
                    meta,
                )
            },
        },
        res matches Ok((s, _)) ==> ({
            let last = split_on(event.ty@, '.').last();
            if last.len() > 0 && last[0] == 'v' {
                parse_usize_spec(last.drop_first()) matches Some(n) && s.event_version@ == decimal(
                    n as nat,
                )
            } else {
                s.event_version@ == seq!['1']
            }
        }),
{
    let event_type = match QualifiedEventType::parse(event.ty.as_str()) {
        Ok(q) => q,
        Err(e) => return Err(e),
    };
    let (aggregate_type, aggregate_id) = match map_subject_to_aggregate_type_and_id(
        event.subject.as_str(),
    ) {
        Ok(pair) => pair,
        Err(e) => return Err(e),
    };
    let EventRecord {
        id: _,
        source,
        subject,
        ty: _,
        time,
        data,
        datacontenttype,
        specversion,
        hash,
        predecessorhash,
        traceinfo,
        signature,
    } = event;
    let (payload, metadata) = unwrap_event_data(data);
    let meta = EventMetadata {
        source,
        subject,
        time,
        traceinfo,
        datacontenttype,
        specversion,
        hash,
        predecessorhash,
        signature,
    };
    let version: usize = match event_type.event_version {
        Some(n) => n,
        None => 1,
    };
    let serialized = SerializedEventRecord {
        aggregate_id,
        sequence,
        aggregate_type,
        event_type: to_pascal_case(event_type.event_type.as_str()),
        event_version: decimal_string(version),
        payload,
        metadata,
    };
    Ok((serialized, meta))
}

} // verus!

verus! {

// ---------------------------------------------------------------------------
// Laws
// ---------------------------------------------------------------------------

/// A version number that `usize::from_str` accepts holds no dot.
pub proof fn lemma_parsed_version_has_no_dot(v: Seq<char>)
    requires
        parse_usize_spec(v) is Some,
    ensures
        !has_char(seq!['v'] + v, '.'),
{
    let d = if v.len() > 0 && v[0] == '+' { v.drop_first() } else { v };
    let w = seq!['v'] + v;
    if has_char(w, '.') {
        let i = choose|i: int| 0 <= i < w.len() && w[i] == '.';
        assert(i > 0);
        assert(v[i - 1] == '.');
        if v.len() > 0 && v[0] == '+' {
            assert(i - 1 > 0);
            assert(d[i - 2] == v[i - 1]);
            assert(is_digit(d[i - 2]));
        } else {
            assert(is_digit(d[i - 1]));
        }
    }
}

/// Parsing a qualified event type gives back its domain, its event type in
/// kebab case and its version (none for version `1`), where no domain label
/// and not the kebab-case type holds a dot, the version is `1` or a number, and
/// for version `1` the kebab-case type does not start with `v`.
pub proof fn lemma_parse_qualified_event_type(
    domain: Seq<Seq<char>>,
    event_type: Seq<char>,
    event_version: Seq<char>,
)
    requires
        domain.len() >= 1,
        forall|i: int| 0 <= i < domain.len() ==> !has_char(#[trigger] domain[i], '.'),
        !has_char(kebab_case(event_type), '.'),
        event_version == seq!['1'] || parse_usize_spec(event_version) is Some,
        event_version == seq!['1'] ==> !is_version_part(kebab_case(event_type)),
    ensures
        parse_event_type_spec(join(qualified_parts(domain, event_type, event_version), seq!['.']))
            == Ok::<(Seq<Seq<char>>, Seq<char>, Option<usize>), EventTypeFault>(
            (
                domain,
                kebab_case(event_type),
                if event_version == seq!['1'] {
                    None
                } else {
                    parse_usize_spec(event_version)
                },
            ),
        ),
{
    let k = kebab_case(event_type);
    let parts = qualified_parts(domain, event_type, event_version);
    let with_type = domain.push(k);
    if event_version == seq!['1'] {
        assert(parts == with_type);
        assert forall|i: int| 0 <= i < parts.len() implies !has_char(#[trigger] parts[i], '.') by {
            if i < domain.len() {
                assert(parts[i] == domain[i]);
            }
        }
        lemma_split_join(parts, '.');
        assert(parts.drop_last() =~= domain);
    } else {
        let vp = seq!['v'] + event_version;
        lemma_parsed_version_has_no_dot(event_version);
        assert(parts == with_type.push(vp));
        assert forall|i: int| 0 <= i < parts.len() implies !has_char(#[trigger] parts[i], '.') by {
            if i < domain.len() {
                assert(parts[i] == domain[i]);
            }
        }
        lemma_split_join(parts, '.');
        assert(parts.last() == vp);
        assert(vp.drop_first() =~= event_version);
        assert(parts.take(parts.len() - 2) =~= domain);
        assert(parts[parts.len() - 2] == k);
    }
}

/// The dash-separated words of the kebab case of `s` are not empty and start
/// with an ASCII character, and capitalizing and joining them gives back `s`.
proof fn lemma_kebab_words(s: Seq<char>)
    requires
        s.len() >= 1,
        is_ascii_upper(s[0]),
        forall|i: int| 0 <= i < s.len() ==> is_ascii_char(#[trigger] s[i]) && s[i] != '-',
    ensures
        pascal_ready(kebab_case(s)),
        pascal_case(kebab_case(s)) == s,
    decreases s.len(),
{
    let c = s.last();
    assert(s[s.len() - 1] == c);
    let caps = |w: Seq<char>| capitalize_ascii(w);
    if s.len() == 1 {
        let k = kebab_case(s);
        assert(s.drop_last() =~= Seq::<char>::empty());
        assert(c == s[0]);
        assert(is_upper(c));
        assert(kebab_case(s.drop_last()) =~= Seq::<char>::empty());
        assert(k =~= seq![ascii_lower(c)]);
        assert(!has_char(k, '-'));
        lemma_split_no_sep(k, '-');
        assert(dash_words(k).map_values(caps) =~= seq![capitalize_ascii(k)]);
        assert(capitalize_ascii(k) =~= s);
    } else {
        let p = s.drop_last();
        assert forall|i: int| 0 <= i < p.len() implies is_ascii_char(#[trigger] p[i]) && p[i] != '-' by {
            assert(p[i] == s[i]);
        }
        assert(p[0] == s[0]);
        lemma_kebab_words(p);
        let kp = kebab_case(p);
        let wp = dash_words(kp);
        lemma_split_on_nonempty(kp, '-');
        if is_ascii_upper(c) {
            let w = seq![ascii_lower(c)];
            assert(kebab_case(s) =~= kp + seq!['-'] + w);
            assert(!has_char(w, '-'));
            lemma_split_append(kp, w, '-');
            let ws = wp.push(w);
            assert(dash_words(kebab_case(s)) == ws);
            assert forall|i: int| 0 <= i < ws.len() implies (#[trigger] ws[i]).len() > 0
                && is_ascii_char(ws[i][0]) by {
                if i < wp.len() {
                    assert(ws[i] == wp[i]);
                }
            }
            assert(ws.map_values(caps) =~= wp.map_values(caps).push(capitalize_ascii(w)));
            lemma_concat_push(wp.map_values(caps), capitalize_ascii(w));
            assert(capitalize_ascii(w) =~= seq![c]);
            assert(p.push(c) =~= s);
        } else {
            assert(!is_upper(c));
            assert(kebab_case(s) == kp.push(c));
            assert(kp.push(c).drop_last() =~= kp);
            assert(kp.push(c).last() == c);
            assert(c != '-');
            let last = wp.last();
            let ws = wp.update(wp.len() - 1, last.push(c));
            assert(dash_words(kebab_case(s)) == ws);
            assert(wp[wp.len() - 1] == last);
            assert forall|i: int| 0 <= i < ws.len() implies (#[trigger] ws[i]).len() > 0
                && is_ascii_char(ws[i][0]) by {
                if i < wp.len() - 1 {
                    assert(ws[i] == wp[i]);
                } else {
                    assert(ws[i] == last.push(c));
                    assert(last.push(c)[0] == last[0]);
                }
            }
            let cw = wp.map_values(caps);
            assert(cw[cw.len() - 1] == capitalize_ascii(last));
            assert(capitalize_ascii(last.push(c)) =~= capitalize_ascii(last).push(c));
            assert(ws.map_values(caps) =~= cw.update(cw.len() - 1, cw.last().push(c)));
            lemma_concat_extend_last(cw, c);
            assert(p.push(c) =~= s);
        }
    }
}

/// Turning PascalCase into kebab case and back gives back the name, for a name
/// of ASCII characters without dashes that starts with an uppercase letter.
pub proof fn lemma_pascal_case_of_kebab_case(s: Seq<char>)
    requires
        s.len() >= 1,
        is_ascii_upper(s[0]),
        forall|i: int| 0 <= i < s.len() ==> is_ascii_char(#[trigger] s[i]) && s[i] != '-',
    ensures
        pascal_ready(kebab_case(s)),
        pascal_case(kebab_case(s)) == s,
{
    lemma_kebab_words(s);
}

} // verus!

verus! {

/// Whether every dash-separated word of `s` starts with an ASCII character,
/// which `to_pascal_case` needs.
pub fn is_pascal_ready(s: &str) -> (r: bool)
    ensures
        r == pascal_ready(s@),
{
    let words = split_str(s, '-');
    let mut i: usize = 0;
    while i < words.len()
        invariant
            views(words@) == dash_words(s@),
            i <= words.len(),
            forall|j: int|
                0 <= j < i ==> (#[trigger] dash_words(s@)[j]).len() > 0 && is_ascii_char(
                    dash_words(s@)[j][0],
                ),
        decreases words.len() - i,
    {
        let w = chars_of(words[i].as_str());
        assert(w@ == dash_words(s@)[i as int]);
        if w.len() == 0 || w[0] > '\u{7f}' {
            return false;
        }
        i = i + 1;
    }
    true
}

/// Whether `map_event` can map `event` without failing on its event type.
pub fn event_is_mappable(event: &EventRecord) -> (r: bool)
    ensures
        r == map_event_ready(event.ty@, event.subject@),
{
    match QualifiedEventType::parse(event.ty.as_str()) {
        Ok(q) => match map_subject_to_aggregate_type_and_id(event.subject.as_str()) {
            Ok(_) => is_pascal_ready(q.event_type.as_str()),
            Err(_) => true,
        },
        Err(_) => true,
    }
}


/// The kebab case of a name without dots holds no dot.
pub proof fn lemma_kebab_case_no_dot(s: Seq<char>)
    requires
        !has_char(s, '.'),
    ensures
        !has_char(kebab_case(s), '.'),
    decreases s.len(),
{
    if s.len() > 0 {
        let p = s.drop_last();
        assert forall|i: int| 0 <= i < p.len() implies p[i] != '.' by {
            assert(p[i] == s[i]);
        }
        lemma_kebab_case_no_dot(p);
        let c = s.last();
        assert(s[s.len() - 1] == c);
        assert(c != '.');
        let kp = kebab_case(p);
        let k = kebab_case(s);
        assert(ascii_lower(c) != '.') by {
            if is_ascii_upper(c) {
                assert(((c as u32) + 32) as char != '.');
            }
        }
        if has_char(k, '.') {
            let i = choose|i: int| 0 <= i < k.len() && k[i] == '.';
            if i < kp.len() {
                assert(k[i] == kp[i]);
            }
        }
    }
}

/// The subject of an aggregate instance splits into its type and id, where the
/// type is not empty and neither holds a slash.
pub proof fn lemma_subject_parts(aggregate_type: Seq<char>, aggregate_id: Seq<char>)
    requires
        aggregate_type.len() >= 1,
        !has_char(aggregate_type, '/'),
        !has_char(aggregate_id, '/'),
    ensures
        subject_parts(seq!['/'] + aggregate_type + seq!['/'] + aggregate_id) == seq![aggregate_type, aggregate_id],
{
    let rest = aggregate_type + seq!['/'] + aggregate_id;
    assert(aggregate_type[0] != '/');
    assert(seq!['/'] + aggregate_type + seq!['/'] + aggregate_id =~= seq!['/'] + rest);
    assert(rest[0] == aggregate_type[0]);
    lemma_trim_leading_slash(rest);
    lemma_split_append(aggregate_type, aggregate_id, '/');
    lemma_split_no_sep(aggregate_type, '/');
    assert(split_on(rest, '/') =~= seq![aggregate_type, aggregate_id]);
}

/// The kebab case of a name that starts with an ASCII capital starts with
/// that letter in lowercase.
proof fn lemma_kebab_case_first(s: Seq<char>)
    requires
        s.len() >= 1,
        is_ascii_upper(s[0]),
    ensures
        kebab_case(s).len() >= 1,
        kebab_case(s)[0] == ascii_lower(s[0]),
    decreases s.len(),
{
    let c = s.last();
    assert(is_upper(s[0]));
    if s.len() == 1 {
        assert(s.drop_last() =~= Seq::<char>::empty());
        assert(c == s[0]);
        assert(kebab_case(s.drop_last()) =~= Seq::<char>::empty());
        assert(kebab_case(s) =~= seq![ascii_lower(c)]);
    } else {
        let p = s.drop_last();
        assert(p[0] == s[0]);
        lemma_kebab_case_first(p);
        let kp = kebab_case(p);
        if is_upper(c) {
            assert(kebab_case(s) == kp.push('-').push(ascii_lower(c)));
        } else {
            assert(kebab_case(s) == kp.push(c));
        }
        assert(kebab_case(s)[0] == kp[0]);
    }
}

/// Mapping an event whose type is the qualified event type of a PascalCase
/// event type and a version number, and whose subject is that of an aggregate
/// instance, gives back that event type, version, aggregate type and id, at
/// the position it is mapped at. This holds where the domain has labels and
/// none holds a dot, the event type starts with an ASCII capital and holds only
/// ASCII characters but dashes and dots, it does not start with `V` where the
/// version is `1`, and the aggregate type is not empty and neither it nor the
/// id holds a slash.
pub proof fn lemma_map_event_of_qualified_type(
    domain: Seq<Seq<char>>,
    event_type: Seq<char>,
    version: usize,
    aggregate_type: Seq<char>,
    aggregate_id: Seq<char>,
    event: EventRecord,
    sequence: usize,
)
    requires
        domain.len() >= 1,
        forall|i: int| 0 <= i < domain.len() ==> !has_char(#[trigger] domain[i], '.'),
        event_type.len() >= 1,
        is_ascii_upper(event_type[0]),
        forall|i: int|
            0 <= i < event_type.len() ==> is_ascii_char(#[trigger] event_type[i])
                && event_type[i] != '-' && event_type[i] != '.',
        version == 1 ==> event_type[0] != 'V',
        aggregate_type.len() >= 1,
        !has_char(aggregate_type, '/'),
        !has_char(aggregate_id, '/'),
        event.ty@ == join(qualified_parts(domain, event_type, decimal(version as nat)), seq!['.']),
        event.subject@ == seq!['/'] + aggregate_type + seq!['/'] + aggregate_id,
    ensures
        map_event_ready(event.ty@, event.subject@),
        parse_event_type_spec(event.ty@) is Ok,
        subject_parts(event.subject@).len() == 2,
        forall|s: SerializedEventRecord|
            #[trigger] serialized_from(event, sequence, s) ==> {
                &&& s.event_type@ == event_type
                &&& s.event_version@ == decimal(version as nat)
                &&& s.aggregate_type@ == aggregate_type
                &&& s.aggregate_id@ == aggregate_id
                &&& s.sequence == sequence
            },
{
    let d = decimal(version as nat);
    let k = kebab_case(event_type);
    lemma_decimal_digits(version as nat);
    assert(parse_usize_spec(d) == Some(version));
    assert(d == seq!['1'] <==> version == 1) by {
        if d == seq!['1'] {
            assert(decimal_value(d) == decimal_value(d.drop_last()) * 10 + digit_value(d.last()));
            assert(d.drop_last() =~= Seq::<char>::empty());
        }
        if version == 1 {
            assert(d =~= seq![digit_char(1)]);
        }
    }
    assert(!has_char(event_type, '.')) by {
        if has_char(event_type, '.') {
            let i = choose|i: int| 0 <= i < event_type.len() && event_type[i] == '.';
            assert(event_type[i] != '.');
        }
    }
    lemma_kebab_case_no_dot(event_type);
    lemma_kebab_case_first(event_type);
    assert(version == 1 ==> !is_version_part(k)) by {
        if version == 1 && is_version_part(k) {
            assert(k[0] == 'v');
            assert(((event_type[0] as u32) + 32) as char == 'v');
        }
    }
    lemma_parse_qualified_event_type(domain, event_type, d);
    lemma_pascal_case_of_kebab_case(event_type);
    lemma_subject_parts(aggregate_type, aggregate_id);
}

/// What the kebab case appends for the characters `b` that follow at least
/// one character.
spec fn kebab_tail(b: Seq<char>) -> Seq<char>
    decreases b.len(),
{
    if b.len() == 0 {
        Seq::<char>::empty()
    } else {
        let prev = kebab_tail(b.drop_last());
        let c = b.last();
        if is_upper(c) {
            prev.push('-').push(ascii_lower(c))
        } else {
            prev.push(c)
        }
    }
}

/// The kebab case of `a + b`, for `a` not empty, is that of `a` followed by
/// the tail of `b`.
proof fn lemma_kebab_append(a: Seq<char>, b: Seq<char>)
    requires
        a.len() >= 1,
    ensures
        kebab_case(a + b) == kebab_case(a) + kebab_tail(b),
    decreases b.len(),
{
    if b.len() == 0 {
        assert(a + b =~= a);
        assert(kebab_case(a) + kebab_tail(b) =~= kebab_case(a));
    } else {
        let s = a + b;
        lemma_kebab_append(a, b.drop_last());
        assert(s.drop_last() =~= a + b.drop_last());
        assert(s.last() == b.last());
        assert(kebab_case(s) =~= kebab_case(a) + kebab_tail(b));
    }
}

/// The tail of `x + y` is the tail of `x` followed by the tail of `y`.
proof fn lemma_kebab_tail_append(x: Seq<char>, y: Seq<char>)
    ensures
        kebab_tail(x + y) == kebab_tail(x) + kebab_tail(y),
    decreases y.len(),
{
    if y.len() == 0 {
        assert(x + y =~= x);
        assert(kebab_tail(x) + kebab_tail(y) =~= kebab_tail(x));
    } else {
        lemma_kebab_tail_append(x, y.drop_last());
        assert((x + y).drop_last() =~= x + y.drop_last());
        assert((x + y).last() == y.last());
        assert(kebab_tail(x + y) =~= kebab_tail(x) + kebab_tail(y));
    }
}

/// Characters none of which is uppercase are their own tail.
proof fn lemma_kebab_tail_plain(b: Seq<char>)
    requires
        forall|i: int| 0 <= i < b.len() ==> !is_upper(#[trigger] b[i]),
    ensures
        kebab_tail(b) == b,
    decreases b.len(),
{
    if b.len() > 0 {
        let p = b.drop_last();
        assert forall|i: int| 0 <= i < p.len() implies !is_upper(#[trigger] p[i]) by {
            assert(p[i] == b[i]);
        }
        lemma_kebab_tail_plain(p);
        assert(!is_upper(b[b.len() - 1]));
        assert(b =~= p.push(b.last()));
    }
}

/// A word of kebab case: an ASCII lowercase letter, then ASCII lowercase
/// letters and digits.
pub open spec fn is_kebab_word(w: Seq<char>) -> bool {
    &&& w.len() >= 1
    &&& is_ascii_lower(w[0])
    &&& forall|i: int| 0 <= i < w.len() ==> is_ascii_lower(#[trigger] w[i]) || is_digit(w[i])
}

/// A capitalized kebab-case word turns back into the word, and after other
/// characters into a dash and the word.
proof fn lemma_kebab_of_capitalized(w: Seq<char>)
    requires
        is_kebab_word(w),
    ensures
        kebab_case(capitalize_ascii(w)) == w,
        kebab_tail(capitalize_ascii(w)) == seq!['-'] + w,
        capitalize_ascii(w).len() >= 1,
{
    let u = ascii_upper(w[0]);
    let rest = w.drop_first();
    assert(is_ascii_upper(u));
    assert(ascii_lower(u) == w[0]);
    assert(is_upper(u));
    assert forall|i: int| 0 <= i < rest.len() implies !is_upper(#[trigger] rest[i]) by {
        assert(rest[i] == w[i + 1]);
        assert(is_ascii_lower(w[i + 1]) || is_digit(w[i + 1]));
    }
    lemma_kebab_tail_plain(rest);
    let one = seq![u];
    assert(capitalize_ascii(w) =~= one + rest);
    assert(one.drop_last() =~= Seq::<char>::empty());
    assert(kebab_case(one.drop_last()) =~= Seq::<char>::empty());
    assert(kebab_case(one) =~= seq![w[0]]);
    lemma_kebab_append(one, rest);
    assert(seq![w[0]] + rest =~= w);
    assert(kebab_tail(one.drop_last()) =~= Seq::<char>::empty());
    assert(kebab_tail(one) =~= seq!['-', w[0]]);
    lemma_kebab_tail_append(one, rest);
    assert(seq!['-', w[0]] + rest =~= seq!['-'] + w);
}

/// The kebab case of the PascalCase of the first `i` words is those words
/// joined with dashes.
proof fn lemma_kebab_prefix(words: Seq<Seq<char>>, i: int)
    requires
        1 <= i <= words.len(),
        forall|j: int| 0 <= j < words.len() ==> is_kebab_word(#[trigger] words[j]),
    ensures
        join(words.map_values(|w: Seq<char>| capitalize_ascii(w)).take(i), Seq::<char>::empty()).len()
            >= 1,
        kebab_case(
            join(words.map_values(|w: Seq<char>| capitalize_ascii(w)).take(i), Seq::<char>::empty()),
        ) == join(words.take(i), seq!['-']),
    decreases i,
{
    let caps = words.map_values(|w: Seq<char>| capitalize_ascii(w));
    lemma_kebab_of_capitalized(words[i - 1]);
    assert(caps[i - 1] == capitalize_ascii(words[i - 1]));
    if i == 1 {
        assert(caps.take(1) =~= seq![caps[0]]);
        assert(words.take(1) =~= seq![words[0]]);
    } else {
        lemma_kebab_prefix(words, i - 1);
        let prev = join(caps.take(i - 1), Seq::<char>::empty());
        assert(caps.take(i).drop_last() =~= caps.take(i - 1));
        assert(caps.take(i).last() == caps[i - 1]);
        assert(join(caps.take(i), Seq::<char>::empty()) =~= prev + caps[i - 1]);
        lemma_kebab_append(prev, caps[i - 1]);
        assert(words.take(i).drop_last() =~= words.take(i - 1));
        assert(words.take(i).last() == words[i - 1]);
        assert(join(words.take(i), seq!['-']) =~= join(words.take(i - 1), seq!['-']) + seq!['-']
            + words[i - 1]);
    }
}

/// Turning kebab case into PascalCase and back gives back the name, where
/// every dash-separated word is an ASCII lowercase letter followed by ASCII
/// lowercase letters and digits.
pub proof fn lemma_kebab_case_of_pascal_case(k: Seq<char>)
    requires
        forall|i: int| 0 <= i < dash_words(k).len() ==> is_kebab_word(#[trigger] dash_words(k)[i]),
    ensures
        pascal_ready(k),
        kebab_case(pascal_case(k)) == k,
{
    let words = dash_words(k);
    lemma_split_on_nonempty(k, '-');
    assert forall|i: int| 0 <= i < words.len() implies (#[trigger] words[i]).len() > 0
        && is_ascii_char(words[i][0]) by {
        assert(is_kebab_word(words[i]));
    }
    lemma_kebab_prefix(words, words.len() as int);
    let caps = words.map_values(|w: Seq<char>| capitalize_ascii(w));
    assert(caps.take(words.len() as int) =~= caps);
    assert(words.take(words.len() as int) =~= words);
    lemma_join_split(k, '-');
}

} // verus!
