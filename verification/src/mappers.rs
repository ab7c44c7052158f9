//! The mapping between cqrs-es event descriptions and EventSourcingDB events
//! under the fixed `org.example` domain, with lowercased subjects. The event
//! repository names its events by `conversion` instead.
use vstd::prelude::*;

use crate::text::{
    ascii_lower, ascii_upper, is_ascii_lower, is_ascii_upper, lemma_join_front,
    chars_of, has_char, join, lemma_split_append, lemma_split_join, lemma_split_no_sep, join_strings, lemma_views_push, push_range, push_str, skip_leading, split_after_leading, split_on,
    split_str, string_of_range, string_push, trim_start_char, trim_start_seq, views,
};
use crate::unicode::{all_ascii, char_to_uppercase, lowercase_of, str_to_lowercase, uppercase_of};

verus! {

#[verifier::external_type_specification]
#[verifier::external_body]
pub struct ExRegexError(regex::Error);

/// The words of an event type: a capital followed by lowercase letters, or a
/// run of capitals.
pub const EVENT_TYPE_WORD_PATTERN: &'static str = r"(?x)
        (?:[A-Z][a-z]+) | # A capital letter followed by one or more lowercase letters
        (?:[A-Z]+)         # One or more capital letters
    ";

/// The prefix of the reverse domain names of this mapping.
pub const REVERSE_DOMAIN_PREFIX: &'static str = "org.example.";

/// What the regular expression `pattern` matches in `text`, from left to right
/// and without overlap, as the `regex` crate finds it; `None` where `pattern` is
/// not a valid regular expression.
pub uninterp spec fn regex_matches(pattern: Seq<char>, text: Seq<char>) -> Option<Seq<Seq<char>>>;

/// The length of the run of ASCII lowercase letters that starts `s`.
pub open spec fn lower_run(s: Seq<char>) -> nat
    decreases s.len(),
{
    if s.len() > 0 && is_ascii_lower(s[0]) {
        1 + lower_run(s.drop_first())
    } else {
        0
    }
}

/// The length of the run of ASCII capitals that starts `s`.
pub open spec fn upper_run(s: Seq<char>) -> nat
    decreases s.len(),
{
    if s.len() > 0 && is_ascii_upper(s[0]) {
        1 + upper_run(s.drop_first())
    } else {
        0
    }
}

/// A run is no longer than the characters it is in.
pub proof fn lemma_run_bounds(s: Seq<char>)
    ensures
        lower_run(s) <= s.len(),
        upper_run(s) <= s.len(),
    decreases s.len(),
{
    if s.len() > 0 {
        lemma_run_bounds(s.drop_first());
    }
}

/// The words that the event type word pattern matches in `t`, from left to
/// right and without overlap: at a capital that a lowercase letter follows, the
/// capital and the run of lowercase letters after it; at any other capital, the
/// run of capitals; any other character starts no match.
pub open spec fn event_type_words(t: Seq<char>) -> Seq<Seq<char>>
    decreases t.len(),
{
    if t.len() == 0 {
        Seq::<Seq<char>>::empty()
    } else if !is_ascii_upper(t[0]) {
        event_type_words(t.drop_first())
    } else {
        let n: int = if t.len() >= 2 && is_ascii_lower(t[1]) {
            (1 + lower_run(t.drop_first())) as int
        } else {
            upper_run(t) as int
        };
        proof {
            lemma_run_bounds(t);
            lemma_run_bounds(t.drop_first());
        }
        seq![t.take(n)] + event_type_words(t.skip(n))
    }
}

/// `regex::Regex::new(pattern)` and then `find_iter(text)`, each match taken as
/// a string. The matches are named. For the event type word pattern, which
/// compiles, they are stated: the regex crate finds the leftmost match first,
/// prefers the first alternative that matches, and repeats greedily, and `[A-Z]`
/// and `[a-z]` are the ASCII letters.
#[verifier::external_body]
pub(crate) fn regex_find_all(pattern: &str, text: &str) -> (r: Result<Vec<String>, regex::Error>)
    ensures
        match r {
            Ok(found) => regex_matches(pattern@, text@) == Some(views(found@)) && (pattern@
                == EVENT_TYPE_WORD_PATTERN@ ==> views(found@) == event_type_words(text@)),
            Err(_) => regex_matches(pattern@, text@) is None && pattern@ != EVENT_TYPE_WORD_PATTERN@,
        },
{
    let re = regex::Regex::new(pattern)?;
    Ok(re.find_iter(text).map(|m| m.as_str().to_string()).collect())
}

/// The reverse domain name of an event whose type has the words `words`:
/// `org.example.`, the lowercased words joined with dots, `.v` and the version.
pub open spec fn reverse_domain_name_spec(words: Seq<Seq<char>>, event_version: Seq<char>) -> Seq<char> {
    REVERSE_DOMAIN_PREFIX@ + join(
        words.map_values(|w: Seq<char>| lowercase_of(w)),
        seq!['.'],
    ) + seq!['.', 'v'] + event_version
}

/// The reverse domain name of an event whose type has the words `words`.
pub fn reverse_domain_name_from_words(words: &Vec<String>, event_version: &str) -> (res: String)
    ensures
        res@ == reverse_domain_name_spec(views(words@), event_version@),
{
    let mut lowered: Vec<String> = Vec::new();
    let mut i: usize = 0;
    while i < words.len()
        invariant
            i <= words.len(),
            views(lowered@) == views(words@).map_values(|w: Seq<char>| lowercase_of(w)).take(
                i as int,
            ),
        decreases words.len() - i,
    {
        let ghost before = lowered@;
        let w = str_to_lowercase(words[i].as_str());
        lowered.push(w);
        proof {
            lemma_views_push(before, w);
            assert(views(words@).map_values(|w: Seq<char>| lowercase_of(w)).take(i + 1)
                =~= views(words@).map_values(|w: Seq<char>| lowercase_of(w)).take(
                i as int,
            ).push(lowercase_of(words@[i as int]@)));
        }
        i = i + 1;
    }
    assert(views(words@).map_values(|w: Seq<char>| lowercase_of(w)).take(words.len() as int)
        =~= views(words@).map_values(|w: Seq<char>| lowercase_of(w)));
    let mut res = String::new();
    push_str(&mut res, REVERSE_DOMAIN_PREFIX);
    let joined = join_strings(&lowered, ".");
    push_str(&mut res, joined.as_str());
    string_push(&mut res, '.');
    string_push(&mut res, 'v');
    push_str(&mut res, event_version);
    proof {
        reveal_strlit(".");
        assert("."@ =~= seq!['.']);
        assert(res@ =~= reverse_domain_name_spec(views(words@), event_version@));
    }
    res
}

/// The reverse domain name of an event type, such as
/// `org.example.user.created.v1` for `UserCreated` of version `1`: the words
/// that the word pattern finds, lowercased and joined with dots.
pub fn map_event_type_to_reverse_domain_name(event_type: &str, event_version: &str) -> (res: String)
    ensures
        regex_matches(EVENT_TYPE_WORD_PATTERN@, event_type@) == Some(event_type_words(event_type@)),
        res@ == reverse_domain_name_spec(event_type_words(event_type@), event_version@),
{
    match regex_find_all(EVENT_TYPE_WORD_PATTERN, event_type) {
        Ok(words) => reverse_domain_name_from_words(&words, event_version),
        Err(_) => String::new(),
    }
}

/// A word with its first character mapped to Unicode uppercase.
pub open spec fn capitalize_unicode(w: Seq<char>) -> Seq<char> {
    if w.len() == 0 {
        Seq::<char>::empty()
    } else {
        uppercase_of(w[0]) + w.drop_first()
    }
}

/// The dot-separated parts of a reverse domain name after its prefix.
pub open spec fn reverse_domain_parts(name: Seq<char>) -> Seq<Seq<char>> {
    split_on(trim_start_seq(name, REVERSE_DOMAIN_PREFIX@), '.')
}

/// The event type and version of a reverse domain name: every part but the last,
/// capitalized and joined; the last part without its leading `v`s.
pub open spec fn reverse_domain_name_type_spec(name: Seq<char>) -> (Seq<char>, Seq<char>) {
    let parts = reverse_domain_parts(name);
    (
        join(parts.drop_last().map_values(|p: Seq<char>| capitalize_unicode(p)), Seq::<char>::empty()),
        trim_start_char(parts.last(), 'v'),
    )
}

/// The index after the repeated occurrences of `prefix` that start `s[from..]`.
fn skip_prefixes(s: &Vec<char>, from: usize, prefix: &Vec<char>) -> (k: usize)
    requires
        from <= s.len(),
        prefix.len() > 0,
    ensures
        from <= k <= s.len(),
        s@.skip(k as int) == trim_start_seq(s@.skip(from as int), prefix@),
    decreases s.len() - from,
{
    let rest = s.len() - from;
    if prefix.len() <= rest {
        let mut j: usize = 0;
        while j < prefix.len()
            invariant
                j <= prefix.len(),
                prefix.len() <= s.len() - from,
                forall|t: int| 0 <= t < j ==> s@[from + t] == prefix@[t],
            decreases prefix.len() - j,
        {
            if s[from + j] != prefix[j] {
                assert(s@.skip(from as int).take(prefix.len() as int)[j as int] != prefix@[j as int]);
                return from;
            }
            j = j + 1;
        }
        assert(s@.skip(from as int).take(prefix.len() as int) =~= prefix@);
        assert(s@.skip(from as int).skip(prefix.len() as int) =~= s@.skip(from + prefix.len()));
        skip_prefixes(s, from + prefix.len(), prefix)
    } else {
        from
    }
}

/// The event type and version of a reverse domain name, such as `UserCreated`
/// and `1` for `org.example.user.created.v1`.
pub fn map_reverse_domain_name_to_type(reverse_domain_name: &str) -> (res: (String, String))
    ensures
        (res.0@, res.1@) == reverse_domain_name_type_spec(reverse_domain_name@),
{
    let chars = chars_of(reverse_domain_name);
    let prefix = chars_of(REVERSE_DOMAIN_PREFIX);
    proof {
        reveal_strlit("org.example.");
    }
    let k = skip_prefixes(&chars, 0, &prefix);
    assert(chars@.skip(0) =~= chars@);
    let rest = string_of_range(&chars, k, chars.len());
    assert(rest@ =~= chars@.skip(k as int));
    let parts = split_str(rest.as_str(), '.');
    let ghost all = views(parts@);
    proof {
        crate::text::lemma_split_on_nonempty(rest@, '.');
    }
    let n = parts.len() - 1;
    // the version: the last part without its leading `v`s
    let last = chars_of(parts[n].as_str());
    let kv = skip_leading(&last, 0, 'v');
    assert(last@.skip(0) =~= last@);
    let version = string_of_range(&last, kv, last.len());
    assert(version@ =~= last@.skip(kv as int));
    // the type: every other part capitalized
    let ghost caps = all.drop_last().map_values(|p: Seq<char>| capitalize_unicode(p));
    let mut ty = String::new();
    let mut i: usize = 0;
    while i < n
        invariant
            n + 1 == parts.len(),
            all == views(parts@),
            caps == all.drop_last().map_values(|p: Seq<char>| capitalize_unicode(p)),
            i <= n,
            ty@ == join(caps.take(i as int), Seq::<char>::empty()),
        decreases n - i,
    {
        let part = chars_of(parts[i].as_str());
        let ghost before = ty@;
        if part.len() > 0 {
            let upper = char_to_uppercase(part[0]);
            push_str(&mut ty, upper.as_str());
            push_range(&mut ty, &part, 1, part.len());
            assert(ty@ =~= before + (uppercase_of(part@[0]) + part@.drop_first()));
        } else {
            assert(ty@ =~= before + Seq::<char>::empty());
        }
        proof {
            assert(caps[i as int] == capitalize_unicode(all[i as int]));
            crate::text::lemma_join_take(caps, Seq::<char>::empty(), i as int);
            if i == 0 {
                assert(before =~= Seq::<char>::empty());
                assert(ty@ =~= caps[0]);
            } else {
                assert(ty@ =~= before + Seq::<char>::empty() + caps[i as int]);
            }
        }
        i = i + 1;
    }
    assert(caps.take(n as int) =~= caps);
    (ty, version)
}

/// The subject of an aggregate instance: `/`, the aggregate type in lowercase,
/// `/` and the aggregate id.
pub fn map_aggregate_type_and_id_to_subject(aggregate_type: &str, aggregate_id: &str) -> (res: String)
    ensures
        res@ == seq!['/'] + lowercase_of(aggregate_type@) + seq!['/'] + aggregate_id@,
{
    let mut res = String::new();
    string_push(&mut res, '/');
    let lowered = str_to_lowercase(aggregate_type);
    push_str(&mut res, lowered.as_str());
    string_push(&mut res, '/');
    push_str(&mut res, aggregate_id);
    res
}

/// The slash-separated pieces of a subject after its leading slashes.
pub open spec fn subject_pieces(subject: Seq<char>) -> Seq<Seq<char>> {
    split_on(trim_start_char(subject, '/'), '/')
}

/// Whether a subject has the pieces that the mapping reads: an aggregate type
/// that is not empty, and an id.
pub open spec fn subject_readable(subject: Seq<char>) -> bool {
    subject_pieces(subject).len() >= 2 && subject_pieces(subject)[0].len() >= 1
}

/// The aggregate type and id of a subject: the first piece with its first
/// character uppercased, and the second piece.
pub open spec fn subject_type_and_id_spec(subject: Seq<char>) -> (Seq<char>, Seq<char>) {
    let pieces = subject_pieces(subject);
    (seq![uppercase_of(pieces[0][0])[0]] + pieces[0].drop_first(), pieces[1])
}

/// The aggregate type and id of a subject such as `/customer/12345`: `Customer`
/// and `12345`. Pieces after the second are ignored.
pub fn map_subject_to_aggregate_type_and_id(subject: &str) -> (res: (String, String))
    requires
        subject_readable(subject@),
    ensures
        (res.0@, res.1@) == subject_type_and_id_spec(subject@),
{
    let parts = split_after_leading(subject, '/', '/');
    let first = chars_of(parts[0].as_str());
    let upper = char_to_uppercase(first[0]);
    let upper_chars = chars_of(upper.as_str());
    let mut aggregate_type = String::new();
    string_push(&mut aggregate_type, upper_chars[0]);
    push_range(&mut aggregate_type, &first, 1, first.len());
    assert(aggregate_type@ =~= seq![upper@[0]] + first@.drop_first());
    let aggregate_id = parts[1].clone();
    (aggregate_type, aggregate_id)
}

} // verus!

verus! {

// ---------------------------------------------------------------------------
// Laws
// ---------------------------------------------------------------------------

/// Leading slashes trim away up to the first piece.
pub proof fn lemma_trim_leading_slash(rest: Seq<char>)
    requires
        rest.len() > 0,
        rest[0] != '/',
    ensures
        trim_start_char(seq!['/'] + rest, '/') == rest,
{
    let s = seq!['/'] + rest;
    assert(s.drop_first() =~= rest);
    assert(s[0] == '/');
    assert(trim_start_char(rest, '/') == rest);
}

/// Reading the subject of an aggregate instance gives back its lowercased
/// aggregate type, capitalized, and its id, where neither the lowercased type,
/// which is not empty, nor the id holds a slash.
pub proof fn lemma_subject_round_trip(aggregate_type: Seq<char>, aggregate_id: Seq<char>)
    requires
        lowercase_of(aggregate_type).len() >= 1,
        !has_char(lowercase_of(aggregate_type), '/'),
        !has_char(aggregate_id, '/'),
    ensures
        ({
            let subject = seq!['/'] + lowercase_of(aggregate_type) + seq!['/'] + aggregate_id;
            let lowered = lowercase_of(aggregate_type);
            &&& subject_readable(subject)
            &&& subject_type_and_id_spec(subject) == (
                seq![uppercase_of(lowered[0])[0]] + lowered.drop_first(),
                aggregate_id,
            )
        }),
{
    let lowered = lowercase_of(aggregate_type);
    let rest = lowered + seq!['/'] + aggregate_id;
    assert(lowered[0] != '/');
    assert(seq!['/'] + lowered + seq!['/'] + aggregate_id =~= seq!['/'] + rest);
    assert(rest[0] == lowered[0]);
    lemma_trim_leading_slash(rest);
    lemma_split_append(lowered, aggregate_id, '/');
    lemma_split_no_sep(lowered, '/');
    assert(split_on(rest, '/') =~= seq![lowered, aggregate_id]);
}

/// A replay of the instances of aggregate type `a` forwards the events of an
/// instance of aggregate type `b` exactly when the two lowercase names agree,
/// where neither holds a slash.
pub proof fn lemma_subject_prefix_selects_aggregate_type(
    a: Seq<char>,
    b: Seq<char>,
    aggregate_id: Seq<char>,
)
    requires
        !has_char(lowercase_of(a), '/'),
        !has_char(lowercase_of(b), '/'),
    ensures
        (seq!['/'] + lowercase_of(a) + seq!['/']).is_prefix_of(
            seq!['/'] + lowercase_of(b) + seq!['/'] + aggregate_id,
        ) <==> lowercase_of(a) == lowercase_of(b),
{
    let la = lowercase_of(a);
    let lb = lowercase_of(b);
    let prefix = seq!['/'] + la + seq!['/'];
    let subject = seq!['/'] + lb + seq!['/'] + aggregate_id;
    if prefix.is_prefix_of(subject) {
        if la.len() < lb.len() {
            assert(prefix[la.len() as int + 1] == '/');
            assert(subject[la.len() as int + 1] == lb[la.len() as int]);
            assert(lb[la.len() as int] != '/');
        } else if la.len() > lb.len() {
            assert(subject[lb.len() as int + 1] == '/');
            assert(prefix[lb.len() as int + 1] == la[lb.len() as int]);
            assert(la[lb.len() as int] != '/');
        } else {
            assert forall|i: int| 0 <= i < la.len() implies la[i] == lb[i] by {
                assert(prefix[i + 1] == la[i]);
                assert(subject[i + 1] == lb[i]);
            }
            assert(la =~= lb);
        }
    } else {
        if la == lb {
            assert(prefix.is_prefix_of(subject)) by {
                assert(subject.take(prefix.len() as int) =~= prefix);
            }
        }
    }
}

/// Reading back the reverse domain name of an event type gives the capitalized
/// lowercased words of the type and the version, where no lowercased word and
/// not the version holds a dot, the version does not start with `v`, and the
/// lowercased name does not itself start with the prefix.
pub proof fn lemma_reverse_domain_round_trip(words: Seq<Seq<char>>, event_version: Seq<char>)
    requires
        words.len() >= 1,
        forall|i: int|
            0 <= i < words.len() ==> !has_char(#[trigger] lowercase_of(words[i]), '.'),
        !has_char(event_version, '.'),
        event_version.len() == 0 || event_version[0] != 'v',
        !REVERSE_DOMAIN_PREFIX@.is_prefix_of(
            join(words.map_values(|w: Seq<char>| lowercase_of(w)), seq!['.']) + seq!['.', 'v']
                + event_version,
        ),
    ensures
        reverse_domain_name_type_spec(reverse_domain_name_spec(words, event_version)) == (
            join(
                words.map_values(|w: Seq<char>| lowercase_of(w)).map_values(
                    |p: Seq<char>| capitalize_unicode(p),
                ),
                Seq::<char>::empty(),
            ),
            event_version,
        ),
{
    let lowered = words.map_values(|w: Seq<char>| lowercase_of(w));
    let joined = join(lowered, seq!['.']);
    let vp = seq!['v'] + event_version;
    let rest = joined + seq!['.', 'v'] + event_version;
    let name = reverse_domain_name_spec(words, event_version);
    reveal_strlit("org.example.");
    let prefix = REVERSE_DOMAIN_PREFIX@;
    assert(name =~= prefix + rest);
    assert((prefix + rest).take(prefix.len() as int) =~= prefix);
    assert((prefix + rest).skip(prefix.len() as int) =~= rest);
    assert(trim_start_seq(rest, prefix) == rest);
    assert(trim_start_seq(name, prefix) == rest);
    assert(rest =~= joined + seq!['.'] + vp);
    assert(!has_char(vp, '.')) by {
        if has_char(vp, '.') {
            let i = choose|i: int| 0 <= i < vp.len() && vp[i] == '.';
            assert(event_version[i - 1] == '.');
        }
    }
    assert forall|i: int| 0 <= i < lowered.len() implies !has_char(#[trigger] lowered[i], '.') by {
        assert(lowered[i] == lowercase_of(words[i]));
    }
    lemma_split_join(lowered, '.');
    lemma_split_append(joined, vp, '.');
    let parts = reverse_domain_parts(name);
    assert(parts == lowered.push(vp));
    assert(parts.drop_last() =~= lowered);
    assert(vp.drop_first() =~= event_version);
    assert(trim_start_char(vp, 'v') == trim_start_char(event_version, 'v'));
}


/// Joining pieces without separator is the first followed by the rest.
proof fn lemma_concat_front(parts: Seq<Seq<char>>)
    requires
        parts.len() >= 1,
    ensures
        join(parts, Seq::<char>::empty()) == parts[0] + join(parts.drop_first(), Seq::<char>::empty()),
{
    if parts.len() == 1 {
        assert(parts.drop_first() =~= Seq::<Seq<char>>::empty());
        assert(parts[0] + Seq::<char>::empty() =~= parts[0]);
    } else {
        lemma_join_front(parts, Seq::<char>::empty());
        assert(parts[0] + Seq::<char>::empty() =~= parts[0]);
    }
}

/// A word of PascalCase: an ASCII capital followed by one or more ASCII
/// lowercase letters.
pub open spec fn is_pascal_word(w: Seq<char>) -> bool {
    &&& w.len() >= 2
    &&& is_ascii_upper(w[0])
    &&& forall|i: int| 1 <= i < w.len() ==> is_ascii_lower(#[trigger] w[i])
}

/// The run of lowercase letters of `a + b`, for lowercase `a` and a `b` that
/// does not start with a lowercase letter, is `a`.
proof fn lemma_lower_run_append(a: Seq<char>, b: Seq<char>)
    requires
        forall|i: int| 0 <= i < a.len() ==> is_ascii_lower(#[trigger] a[i]),
        b.len() == 0 || !is_ascii_lower(b[0]),
    ensures
        lower_run(a + b) == a.len(),
    decreases a.len(),
{
    if a.len() == 0 {
        assert(a + b =~= b);
    } else {
        let t = a.drop_first();
        assert forall|i: int| 0 <= i < t.len() implies is_ascii_lower(#[trigger] t[i]) by {
            assert(t[i] == a[i + 1]);
        }
        lemma_lower_run_append(t, b);
        assert((a + b).drop_first() =~= t + b);
        assert((a + b)[0] == a[0]);
    }
}

/// The word pattern finds exactly the words of a PascalCase name.
proof fn lemma_event_type_words_of_pascal(words: Seq<Seq<char>>)
    requires
        forall|i: int| 0 <= i < words.len() ==> is_pascal_word(#[trigger] words[i]),
    ensures
        event_type_words(join(words, Seq::<char>::empty())) == words,
    decreases words.len(),
{
    if words.len() == 0 {
        assert(join(words, Seq::<char>::empty()) =~= Seq::<char>::empty());
    } else {
        let w = words[0];
        let tail = words.drop_first();
        assert forall|i: int| 0 <= i < tail.len() implies is_pascal_word(#[trigger] tail[i]) by {
            assert(tail[i] == words[i + 1]);
        }
        lemma_event_type_words_of_pascal(tail);
        lemma_concat_front(words);
        let rest = join(tail, Seq::<char>::empty());
        let t = w + rest;
        assert(is_pascal_word(w));
        if tail.len() > 0 {
            lemma_concat_front(tail);
            assert(is_pascal_word(tail[0]));
            assert(rest[0] == tail[0][0]);
        }
        let lows = w.drop_first();
        assert forall|i: int| 0 <= i < lows.len() implies is_ascii_lower(#[trigger] lows[i]) by {
            assert(lows[i] == w[i + 1]);
        }
        lemma_lower_run_append(lows, rest);
        assert(t.drop_first() =~= lows + rest);
        assert(t[0] == w[0]);
        assert(t[1] == w[1]);
        assert(t.take(w.len() as int) =~= w);
        assert(t.skip(w.len() as int) =~= rest);
        assert(event_type_words(t) == seq![w] + tail);
        assert(seq![w] + tail =~= words);
    }
}

/// The lowercase of a PascalCase word, capitalized, is the word.
proof fn lemma_capitalize_lowered(w: Seq<char>)
    requires
        is_pascal_word(w),
    ensures
        capitalize_unicode(lowercase_of(w)) == w,
        !has_char(lowercase_of(w), '.'),
        lowercase_of(w).len() == w.len(),
        lowercase_of(w)[0] == ascii_lower(w[0]),
{
    assert(all_ascii(w));
    let l = lowercase_of(w);
    assert(l == w.map_values(|c: char| ascii_lower(c)));
    assert(is_ascii_lower(l[0]));
    assert(ascii_upper(ascii_lower(w[0])) == w[0]);
    assert(uppercase_of(l[0]) == seq![w[0]]);
    assert(l.drop_first() =~= w.drop_first());
    assert(capitalize_unicode(l) =~= w);
    assert(!has_char(l, '.')) by {
        if has_char(l, '.') {
            let i = choose|i: int| 0 <= i < l.len() && l[i] == '.';
            if i == 0 {
                assert(is_ascii_lower(l[0]));
            } else {
                assert(l[i] == w[i]);
            }
        }
    }
}

/// Where `q`, a dot and `y` start `l`, a dot and `x`, and neither `q` nor `l`
/// holds a dot, `l` is `q` and `y` starts `x`.
proof fn lemma_dotted_prefix(q: Seq<char>, y: Seq<char>, l: Seq<char>, x: Seq<char>)
    requires
        !has_char(q, '.'),
        !has_char(l, '.'),
        (q + seq!['.'] + y).is_prefix_of(l + seq!['.'] + x),
    ensures
        l == q,
        y.is_prefix_of(x),
{
    let a = q + seq!['.'] + y;
    let b = l + seq!['.'] + x;
    if l.len() < q.len() {
        assert(a[l.len() as int] == q[l.len() as int]);
        assert(b[l.len() as int] == '.');
    } else if l.len() > q.len() {
        assert(a[q.len() as int] == '.');
        assert(b[q.len() as int] == l[q.len() as int]);
    } else {
        assert forall|i: int| 0 <= i < l.len() implies l[i] == q[i] by {
            assert(a[i] == q[i]);
            assert(b[i] == l[i]);
        }
        assert(l =~= q);
        assert forall|i: int| 0 <= i < y.len() implies y[i] == x[i] by {
            assert(a[q.len() + 1 + i] == y[i]);
            assert(b[q.len() + 1 + i] == x[i]);
        }
        assert(y.len() <= x.len());
        assert(x.take(y.len() as int) =~= y);
    }
}

/// Writing the reverse domain name of a PascalCase event type and reading it
/// back gives the event type and the version, where the type does not start
/// with `OrgExample`, and the version holds no dot and does not start with `v`.
pub proof fn lemma_event_type_round_trip(words: Seq<Seq<char>>, event_version: Seq<char>)
    requires
        words.len() >= 1,
        forall|i: int| 0 <= i < words.len() ==> is_pascal_word(#[trigger] words[i]),
        !"OrgExample"@.is_prefix_of(join(words, Seq::<char>::empty())),
        !has_char(event_version, '.'),
        event_version.len() == 0 || event_version[0] != 'v',
    ensures
        event_type_words(join(words, Seq::<char>::empty())) == words,
        reverse_domain_name_type_spec(
            reverse_domain_name_spec(event_type_words(join(words, Seq::<char>::empty())), event_version),
        ) == (join(words, Seq::<char>::empty()), event_version),
{
    let t = join(words, Seq::<char>::empty());
    lemma_event_type_words_of_pascal(words);
    let lowered = words.map_values(|w: Seq<char>| lowercase_of(w));
    assert forall|i: int| 0 <= i < words.len() implies !has_char(#[trigger] lowercase_of(words[i]), '.')
        && capitalize_unicode(lowercase_of(words[i])) == words[i] by {
        lemma_capitalize_lowered(words[i]);
    }
    let tail = seq!['.', 'v'] + event_version;
    let s = join(lowered, seq!['.']) + tail;
    reveal_strlit("org.example.");
    reveal_strlit("OrgExample");
    if REVERSE_DOMAIN_PREFIX@.is_prefix_of(s) {
        let org = seq!['o', 'r', 'g'];
        let example = seq!['e', 'x', 'a', 'm', 'p', 'l', 'e'];
        assert(REVERSE_DOMAIN_PREFIX@ =~= org + seq!['.'] + (example + seq!['.']));
        assert(!has_char(org, '.'));
        assert(!has_char(example, '.'));
        assert(lowered[0] == lowercase_of(words[0]));
        let x: Seq<char> = if words.len() >= 2 {
            lemma_join_front(lowered, seq!['.']);
            join(lowered.drop_first(), seq!['.']) + tail
        } else {
            seq!['v'] + event_version
        };
        if words.len() >= 2 {
            assert(s =~= lowered[0] + seq!['.'] + x);
        } else {
            assert(lowered =~= seq![lowered[0]]);
            assert(s =~= lowered[0] + seq!['.'] + x);
        }
        lemma_dotted_prefix(org, example + seq!['.'], lowered[0], x);
        if words.len() >= 2 {
            let rest = lowered.drop_first();
            assert(rest[0] == lowercase_of(words[1]));
            let x2: Seq<char> = if words.len() >= 3 {
                lemma_join_front(rest, seq!['.']);
                join(rest.drop_first(), seq!['.']) + tail
            } else {
                seq!['v'] + event_version
            };
            if words.len() >= 3 {
                assert(x =~= rest[0] + seq!['.'] + x2);
            } else {
                assert(rest =~= seq![rest[0]]);
                assert(x =~= rest[0] + seq!['.'] + x2);
            }
            assert(example + seq!['.'] =~= example + seq!['.'] + Seq::<char>::empty());
            lemma_dotted_prefix(example, Seq::<char>::empty(), rest[0], x2);
            assert(words[0] == capitalize_unicode(org));
            assert(words[1] == capitalize_unicode(example));
            assert(uppercase_of('o') == seq!['O']);
            assert(uppercase_of('e') == seq!['E']);
            assert(words[0] =~= seq!['O', 'r', 'g']);
            assert(words[1] =~= seq!['E', 'x', 'a', 'm', 'p', 'l', 'e']);
            lemma_concat_front(words);
            lemma_concat_front(words.drop_first());
            assert(t =~= words[0] + (words[1] + join(words.drop_first().drop_first(), Seq::<char>::empty())));
            assert(t.take(10) =~= "OrgExample"@);
            assert(false);
        } else {
            assert(x[0] == 'v');
            assert((example + seq!['.'])[0] == 'e');
            assert(false);
        }
    }
    lemma_reverse_domain_round_trip(words, event_version);
    assert(lowered.map_values(|p: Seq<char>| capitalize_unicode(p)) =~= words);
}

} // verus!

verus! {

/// Whether a subject has an aggregate type that is not empty and an id, which
/// `map_subject_to_aggregate_type_and_id` needs.
pub fn is_subject_readable(subject: &str) -> (r: bool)
    ensures
        r == subject_readable(subject@),
{
    let parts = split_after_leading(subject, '/', '/');
    if parts.len() < 2 {
        return false;
    }
    let first = chars_of(parts[0].as_str());
    first.len() >= 1
}

} // verus!
