//! Character-sequence helpers used by the event mappers: splitting, joining,
//! trimming, ASCII case mapping and decimal numbers, each with its model.
use vstd::prelude::*;

verus! {

// ---------------------------------------------------------------------------
// Models
// ---------------------------------------------------------------------------

/// The character sequences of a sequence of strings.
pub open spec fn views(v: Seq<String>) -> Seq<Seq<char>> {
    v.map_values(|p: String| p@)
}

/// The pieces of `s` between occurrences of `sep`, as `str::split` yields them:
/// `n` separators give `n + 1` pieces, empty ones included.
pub open spec fn split_on(s: Seq<char>, sep: char) -> Seq<Seq<char>>
    decreases s.len(),
{
    if s.len() == 0 {
        seq![Seq::<char>::empty()]
    } else {
        let prev = split_on(s.drop_last(), sep);
        if s.last() == sep {
            prev.push(Seq::<char>::empty())
        } else {
            prev.update(prev.len() - 1, prev.last().push(s.last()))
        }
    }
}

/// The pieces joined with `sep` between each two of them.
pub open spec fn join(parts: Seq<Seq<char>>, sep: Seq<char>) -> Seq<char>
    decreases parts.len(),
{
    if parts.len() == 0 {
        Seq::<char>::empty()
    } else if parts.len() == 1 {
        parts[0]
    } else {
        join(parts.drop_last(), sep) + sep + parts.last()
    }
}

/// `s` without its leading occurrences of `c`.
pub open spec fn trim_start_char(s: Seq<char>, c: char) -> Seq<char>
    decreases s.len(),
{
    if s.len() > 0 && s[0] == c {
        trim_start_char(s.drop_first(), c)
    } else {
        s
    }
}

/// `s` without the repeated occurrences of the non-empty `prefix` at its start.
pub open spec fn trim_start_seq(s: Seq<char>, prefix: Seq<char>) -> Seq<char>
    decreases s.len(),
{
    if prefix.len() > 0 && prefix.len() <= s.len() && s.take(prefix.len() as int) == prefix {
        trim_start_seq(s.skip(prefix.len() as int), prefix)
    } else {
        s
    }
}

/// Whether `s` holds the character `c`.
pub open spec fn has_char(s: Seq<char>, c: char) -> bool {
    exists|i: int| 0 <= i < s.len() && s[i] == c
}

pub open spec fn is_ascii_char(c: char) -> bool {
    c <= '\u{7f}'
}

pub open spec fn is_ascii_upper(c: char) -> bool {
    'A' <= c && c <= 'Z'
}

pub open spec fn is_ascii_lower(c: char) -> bool {
    'a' <= c && c <= 'z'
}

/// `char::to_ascii_lowercase`.
pub open spec fn ascii_lower(c: char) -> char {
    if is_ascii_upper(c) {
        ((c as u32) + 32) as char
    } else {
        c
    }
}

/// `char::to_ascii_uppercase`.
pub open spec fn ascii_upper(c: char) -> char {
    if is_ascii_lower(c) {
        ((c as u32) - 32) as char
    } else {
        c
    }
}

pub open spec fn is_digit(c: char) -> bool {
    '0' <= c && c <= '9'
}

pub open spec fn all_digits(s: Seq<char>) -> bool {
    forall|i: int| 0 <= i < s.len() ==> is_digit(#[trigger] s[i])
}

pub open spec fn digit_value(c: char) -> int {
    (c as u32) - ('0' as u32)
}

pub open spec fn digit_char(d: int) -> char {
    (('0' as u32) + d) as char
}

/// The number that the decimal digits `s` write.
pub open spec fn decimal_value(s: Seq<char>) -> int
    decreases s.len(),
{
    if s.len() == 0 {
        0
    } else {
        decimal_value(s.drop_last()) * 10 + digit_value(s.last())
    }
}

/// The decimal digits of `n`, without leading zeros.
pub open spec fn decimal(n: nat) -> Seq<char>
    decreases n,
{
    if n < 10 {
        seq![digit_char(n as int)]
    } else {
        decimal(n / 10).push(digit_char((n % 10) as int))
    }
}

/// What `usize::from_str` accepts: an optional `+` and then one or more decimal
/// digits whose value fits in a `usize`; the value it gives back.
pub open spec fn parse_usize_spec(s: Seq<char>) -> Option<usize> {
    let d = if s.len() > 0 && s[0] == '+' { s.drop_first() } else { s };
    if d.len() > 0 && all_digits(d) && decimal_value(d) <= usize::MAX {
        Some(decimal_value(d) as usize)
    } else {
        None
    }
}

// ---------------------------------------------------------------------------
// Lemmas
// ---------------------------------------------------------------------------

pub proof fn lemma_split_on_nonempty(s: Seq<char>, sep: char)
    ensures
        split_on(s, sep).len() >= 1,
    decreases s.len(),
{
    if s.len() > 0 {
        lemma_split_on_nonempty(s.drop_last(), sep);
    }
}

pub proof fn lemma_decimal_digits(n: nat)
    ensures
        decimal(n).len() >= 1,
        all_digits(decimal(n)),
        decimal_value(decimal(n)) == n,
        decimal(n)[0] != '+',
    decreases n,
{
    if n < 10 {
        assert(decimal(n).drop_last() =~= Seq::<char>::empty());
        assert(digit_value(digit_char(n as int)) == n);
        let q = decimal(n);
        assert(decimal_value(q) == decimal_value(q.drop_last()) * 10 + digit_value(q.last()));
    } else {
        lemma_decimal_digits(n / 10);
        let p = decimal(n / 10);
        assert(decimal(n).drop_last() =~= p);
        assert(digit_value(digit_char((n % 10) as int)) == n % 10);
        assert(n == (n / 10) * 10 + n % 10);
        let q = decimal(n);
        assert(q.last() == digit_char((n % 10) as int));
        assert(decimal_value(q) == decimal_value(p) * 10 + digit_value(q.last()));
        assert forall|i: int| 0 <= i < decimal(n).len() implies is_digit(#[trigger] decimal(n)[i]) by {
            if i < p.len() {
                assert(decimal(n)[i] == p[i]);
            }
        }
    }
}

/// A piece without separators splits into itself.
pub proof fn lemma_split_no_sep(b: Seq<char>, sep: char)
    requires
        !has_char(b, sep),
    ensures
        split_on(b, sep) == seq![b],
    decreases b.len(),
{
    if b.len() > 0 {
        assert(!has_char(b.drop_last(), sep)) by {
            if has_char(b.drop_last(), sep) {
                let i = choose|i: int| 0 <= i < b.drop_last().len() && b.drop_last()[i] == sep;
                assert(b[i] == sep);
            }
        }
        lemma_split_no_sep(b.drop_last(), sep);
        assert(b.last() != sep) by {
            assert(b[b.len() - 1] == b.last());
        }
        assert(b.drop_last().push(b.last()) =~= b);
    } else {
        assert(b =~= Seq::<char>::empty());
    }
}

/// Splitting `a`, a separator and a piece `b` without separators gives the
/// pieces of `a` and then `b`.
pub proof fn lemma_split_append(a: Seq<char>, b: Seq<char>, sep: char)
    requires
        !has_char(b, sep),
    ensures
        split_on(a + seq![sep] + b, sep) == split_on(a, sep).push(b),
    decreases b.len(),
{
    let s = a + seq![sep] + b;
    if b.len() == 0 {
        assert(s.drop_last() =~= a);
        assert(b =~= Seq::<char>::empty());
    } else {
        assert(s.drop_last() =~= a + seq![sep] + b.drop_last());
        assert(!has_char(b.drop_last(), sep)) by {
            if has_char(b.drop_last(), sep) {
                let i = choose|i: int| 0 <= i < b.drop_last().len() && b.drop_last()[i] == sep;
                assert(b[i] == sep);
            }
        }
        lemma_split_append(a, b.drop_last(), sep);
        assert(s.last() == b.last());
        assert(b.last() != sep) by {
            assert(b[b.len() - 1] == b.last());
        }
        lemma_split_on_nonempty(a, sep);
        assert(b.drop_last().push(b.last()) =~= b);
        assert(split_on(a, sep).push(b.drop_last()).update(
            split_on(a, sep).len() as int,
            b.drop_last().push(b.last()),
        ) =~= split_on(a, sep).push(b));
    }
}

/// Joining pieces without separators and splitting again gives the pieces.
pub proof fn lemma_split_join(parts: Seq<Seq<char>>, sep: char)
    requires
        parts.len() >= 1,
        forall|i: int| 0 <= i < parts.len() ==> !has_char(#[trigger] parts[i], sep),
    ensures
        split_on(join(parts, seq![sep]), sep) == parts,
    decreases parts.len(),
{
    if parts.len() == 1 {
        lemma_split_no_sep(parts[0], sep);
        assert(parts =~= seq![parts[0]]);
    } else {
        let init = parts.drop_last();
        assert forall|i: int| 0 <= i < init.len() implies !has_char(#[trigger] init[i], sep) by {
            assert(init[i] == parts[i]);
        }
        lemma_split_join(init, sep);
        assert(!has_char(parts.last(), sep)) by {
            assert(parts[parts.len() - 1] == parts.last());
        }
        lemma_split_append(join(init, seq![sep]), parts.last(), sep);
        assert(init.push(parts.last()) =~= parts);
    }
}

/// Joining the pieces of `s` with the separator gives back `s`.
pub proof fn lemma_join_split(s: Seq<char>, sep: char)
    ensures
        join(split_on(s, sep), seq![sep]) == s,
    decreases s.len(),
{
    if s.len() == 0 {
        assert(split_on(s, sep) =~= seq![Seq::<char>::empty()]);
        assert(s =~= Seq::<char>::empty());
    } else {
        let p = s.drop_last();
        let prev = split_on(p, sep);
        lemma_join_split(p, sep);
        lemma_split_on_nonempty(p, sep);
        let c = s.last();
        if c == sep {
            let parts = prev.push(Seq::<char>::empty());
            assert(parts.drop_last() =~= prev);
            assert(join(parts, seq![sep]) == join(prev, seq![sep]) + seq![sep] + parts.last());
            assert(s =~= p + seq![sep] + Seq::<char>::empty());
        } else {
            let x = prev.last();
            let parts = prev.update(prev.len() - 1, x.push(c));
            if prev.len() == 1 {
                assert(join(prev, seq![sep]) == prev[0]);
                assert(parts.len() == 1);
                assert(join(parts, seq![sep]) == parts[0]);
                assert(s =~= p.push(c));
            } else {
                assert(parts.drop_last() =~= prev.drop_last());
                assert(join(parts, seq![sep]) == join(prev.drop_last(), seq![sep]) + seq![sep] + x.push(c));
                assert(join(prev, seq![sep]) == join(prev.drop_last(), seq![sep]) + seq![sep] + x);
                assert(s =~= p.push(c));
                assert(join(parts, seq![sep]) =~= join(prev, seq![sep]).push(c));
            }
        }
    }
}

/// Joining at least two pieces is the first, the separator, and the rest
/// joined.
pub proof fn lemma_join_front(parts: Seq<Seq<char>>, sep: Seq<char>)
    requires
        parts.len() >= 2,
    ensures
        join(parts, sep) == parts[0] + sep + join(parts.drop_first(), sep),
    decreases parts.len(),
{
    let init = parts.drop_last();
    let rest = parts.drop_first();
    assert(join(parts, sep) == join(init, sep) + sep + parts.last());
    if parts.len() == 2 {
        assert(init.len() == 1 && init[0] == parts[0]);
        assert(join(init, sep) == parts[0]);
        assert(rest.len() == 1 && rest[0] == parts[1]);
        assert(join(rest, sep) == parts[1]);
        assert(parts.last() == parts[1]);
        assert(join(parts, sep) =~= parts[0] + sep + join(rest, sep));
    } else {
        lemma_join_front(init, sep);
        assert(init.drop_first() =~= rest.drop_last());
        assert(init[0] == parts[0]);
        assert(rest.last() == parts.last());
        assert(join(rest, sep) == join(rest.drop_last(), sep) + sep + rest.last());
        assert(join(parts, sep) =~= parts[0] + sep + join(rest, sep));
    }
}

/// Splitting a piece without separators, a separator and more gives the piece
/// and then the pieces of the rest.
pub proof fn lemma_split_front(a: Seq<char>, b: Seq<char>, sep: char)
    requires
        !has_char(a, sep),
    ensures
        split_on(a + seq![sep] + b, sep) == seq![a] + split_on(b, sep),
    decreases b.len(),
{
    let s = a + seq![sep] + b;
    if b.len() == 0 {
        assert(s =~= a + seq![sep] + Seq::<char>::empty());
        lemma_split_append(a, Seq::<char>::empty(), sep);
        lemma_split_no_sep(a, sep);
        assert(split_on(b, sep) =~= seq![Seq::<char>::empty()]);
        assert(split_on(s, sep) =~= seq![a] + split_on(b, sep));
    } else {
        let p = b.drop_last();
        let c = b.last();
        lemma_split_front(a, p, sep);
        lemma_split_on_nonempty(p, sep);
        assert(s.drop_last() =~= a + seq![sep] + p);
        assert(s.last() == c);
        let prev = split_on(s.drop_last(), sep);
        let pb = split_on(p, sep);
        assert(prev == seq![a] + pb);
        if c == sep {
            assert(split_on(s, sep) == prev.push(Seq::<char>::empty()));
            assert(split_on(b, sep) == pb.push(Seq::<char>::empty()));
            assert(split_on(s, sep) =~= seq![a] + split_on(b, sep));
        } else {
            assert(split_on(s, sep) == prev.update(prev.len() - 1, prev.last().push(c)));
            assert(split_on(b, sep) == pb.update(pb.len() - 1, pb.last().push(c)));
            assert(prev.last() == pb.last());
            assert(split_on(s, sep) =~= seq![a] + split_on(b, sep));
        }
    }
}

/// The first `n` pieces of joined pieces, the first `n` of which hold no
/// separator and which have more than `n`, are those `n` pieces.
pub proof fn lemma_split_join_prefix(parts: Seq<Seq<char>>, n: int, sep: char)
    requires
        0 <= n < parts.len(),
        forall|i: int| 0 <= i < n ==> !has_char(#[trigger] parts[i], sep),
    ensures
        split_on(join(parts, seq![sep]), sep).len() > n,
        split_on(join(parts, seq![sep]), sep).take(n) == parts.take(n),
    decreases n,
{
    if n == 0 {
        lemma_split_on_nonempty(join(parts, seq![sep]), sep);
        assert(split_on(join(parts, seq![sep]), sep).take(0) =~= parts.take(0));
    } else {
        let rest = parts.drop_first();
        assert forall|i: int| 0 <= i < n - 1 implies !has_char(#[trigger] rest[i], sep) by {
            assert(rest[i] == parts[i + 1]);
        }
        lemma_split_join_prefix(rest, n - 1, sep);
        lemma_join_front(parts, seq![sep]);
        assert(!has_char(parts[0], sep));
        lemma_split_front(parts[0], join(rest, seq![sep]), sep);
        let sr = split_on(join(rest, seq![sep]), sep);
        assert(split_on(join(parts, seq![sep]), sep) == seq![parts[0]] + sr);
        assert((seq![parts[0]] + sr).take(n) =~= seq![parts[0]] + sr.take(n - 1));
        assert(parts.take(n) =~= seq![parts[0]] + rest.take(n - 1));
    }
}

/// Joining without separator after appending a piece appends that piece.
pub proof fn lemma_concat_push(parts: Seq<Seq<char>>, x: Seq<char>)
    ensures
        join(parts.push(x), Seq::<char>::empty()) == join(parts, Seq::<char>::empty()) + x,
{
    assert(parts.push(x).drop_last() =~= parts);
    if parts.len() == 0 {
        assert(parts.push(x) =~= seq![x]);
        assert(Seq::<char>::empty() + x =~= x);
    } else {
        assert(join(parts, Seq::<char>::empty()) + Seq::<char>::empty() + x =~= join(
            parts,
            Seq::<char>::empty(),
        ) + x);
    }
}

/// Joining without separator after extending the last piece by `c` extends the
/// result by `c`.
pub proof fn lemma_concat_extend_last(parts: Seq<Seq<char>>, c: char)
    requires
        parts.len() >= 1,
    ensures
        join(parts.update(parts.len() - 1, parts.last().push(c)), Seq::<char>::empty()) == join(
            parts,
            Seq::<char>::empty(),
        ).push(c),
{
    let init = parts.drop_last();
    assert(parts =~= init.push(parts.last()));
    assert(parts.update(parts.len() - 1, parts.last().push(c)) =~= init.push(parts.last().push(c)));
    lemma_concat_push(init, parts.last());
    lemma_concat_push(init, parts.last().push(c));
    assert(join(init, Seq::<char>::empty()) + parts.last().push(c) =~= (join(
        init,
        Seq::<char>::empty(),
    ) + parts.last()).push(c));
}

pub proof fn lemma_views_push(v: Seq<String>, s: String)
    ensures
        views(v.push(s)) == views(v).push(s@),
{
    assert(views(v.push(s)) =~= views(v).push(s@));
}

pub proof fn lemma_join_take(parts: Seq<Seq<char>>, sep: Seq<char>, i: int)
    requires
        0 <= i < parts.len(),
    ensures
        join(parts.take(i + 1), sep) == if i == 0 {
            parts[0]
        } else {
            join(parts.take(i), sep) + sep + parts[i]
        },
{
    if i > 0 {
        assert(parts.take(i + 1).drop_last() =~= parts.take(i));
    }
}

// ---------------------------------------------------------------------------
// Executable helpers
// ---------------------------------------------------------------------------

/// `String::push`: appends one character.
#[verifier::external_body]
pub(crate) fn string_push(s: &mut String, c: char)
    ensures
        final(s)@ == old(s)@.push(c),
{
    s.push(c)
}

/// The characters of `s`, in order.
pub fn chars_of(s: &str) -> (res: Vec<char>)
    ensures
        res@ == s@,
{
    let mut res: Vec<char> = Vec::new();
    let n: usize = s.unicode_len();
    let mut i: usize = 0;
    while i < n
        invariant
            n == s@.len(),
            i <= n,
            res@ == s@.take(i as int),
        decreases n - i,
    {
        let c = s.get_char(i);
        res.push(c);
        i = i + 1;
        assert(res@ =~= s@.take(i as int));
    }
    assert(res@ =~= s@);
    res
}

/// The string of the characters `chars[lo..hi]`.
pub fn string_of_range(chars: &Vec<char>, lo: usize, hi: usize) -> (res: String)
    requires
        lo <= hi <= chars.len(),
    ensures
        res@ == chars@.subrange(lo as int, hi as int),
{
    let mut res = String::new();
    let mut i: usize = lo;
    while i < hi
        invariant
            lo <= i <= hi <= chars.len(),
            res@ == chars@.subrange(lo as int, i as int),
        decreases hi - i,
    {
        string_push(&mut res, chars[i]);
        i = i + 1;
        assert(res@ =~= chars@.subrange(lo as int, i as int));
    }
    res
}

/// `s` with `chars[lo..hi]` appended.
pub fn push_range(s: &mut String, chars: &Vec<char>, lo: usize, hi: usize)
    requires
        lo <= hi <= chars.len(),
    ensures
        final(s)@ == old(s)@ + chars@.subrange(lo as int, hi as int),
{
    let ghost start = s@;
    let mut i: usize = lo;
    while i < hi
        invariant
            lo <= i <= hi <= chars.len(),
            s@ == start + chars@.subrange(lo as int, i as int),
        decreases hi - i,
    {
        string_push(s, chars[i]);
        i = i + 1;
        assert(s@ =~= start + chars@.subrange(lo as int, i as int));
    }
}

/// The string of all the characters `chars`.
pub fn string_of(chars: &Vec<char>) -> (res: String)
    ensures
        res@ == chars@,
{
    let res = string_of_range(chars, 0, chars.len());
    assert(chars@.subrange(0, chars@.len() as int) =~= chars@);
    res
}

/// A copy of `s`.
pub fn copy_str(s: &str) -> (res: String)
    ensures
        res@ == s@,
{
    let chars = chars_of(s);
    string_of(&chars)
}

/// Whether the two strings hold the same characters.
pub fn str_equal(a: &str, b: &str) -> (res: bool)
    ensures
        res == (a@ == b@),
{
    let n: usize = a.unicode_len();
    if n != b.unicode_len() {
        return false;
    }
    let mut i: usize = 0;
    while i < n
        invariant
            n == a@.len(),
            n == b@.len(),
            i <= n,
            forall|j: int| 0 <= j < i ==> a@[j] == b@[j],
        decreases n - i,
    {
        if a.get_char(i) != b.get_char(i) {
            return false;
        }
        i = i + 1;
    }
    assert(a@ =~= b@);
    true
}

/// Whether `s` starts with `prefix` (`str::starts_with`).
pub fn starts_with(s: &str, prefix: &str) -> (r: bool)
    ensures
        r == prefix@.is_prefix_of(s@),
{
    let n: usize = prefix.unicode_len();
    if n > s.unicode_len() {
        return false;
    }
    let mut i: usize = 0;
    while i < n
        invariant
            n == prefix@.len(),
            n <= s@.len(),
            i <= n,
            forall|j: int| 0 <= j < i ==> prefix@[j] == s@[j],
        decreases n - i,
    {
        if s.get_char(i) != prefix.get_char(i) {
            return false;
        }
        i = i + 1;
    }
    true
}

/// `s` with `t` appended.
pub fn push_str(s: &mut String, t: &str)
    ensures
        final(s)@ == old(s)@ + t@,
{
    let chars = chars_of(t);
    let ghost start = s@;
    let mut i: usize = 0;
    while i < chars.len()
        invariant
            chars@ == t@,
            i <= chars.len(),
            s@ == start + t@.take(i as int),
        decreases chars.len() - i,
    {
        string_push(s, chars[i]);
        i = i + 1;
        assert(s@ =~= start + t@.take(i as int));
    }
    assert(t@.take(chars.len() as int) =~= t@);
}

/// The pieces of `s` between the occurrences of `sep` (`str::split`).
pub fn split_str(s: &str, sep: char) -> (res: Vec<String>)
    ensures
        views(res@) == split_on(s@, sep),
{
    let chars = chars_of(s);
    let mut parts: Vec<String> = Vec::new();
    let mut cur = String::new();
    let mut i: usize = 0;
    assert(s@.take(0) =~= Seq::<char>::empty());
    assert(views(parts@).push(cur@) =~= split_on(s@.take(0), sep));
    while i < chars.len()
        invariant
            chars@ == s@,
            i <= chars.len(),
            views(parts@).push(cur@) == split_on(s@.take(i as int), sep),
        decreases chars.len() - i,
    {
        let c = chars[i];
        let ghost before = views(parts@).push(cur@);
        proof {
            lemma_split_on_nonempty(s@.take(i as int), sep);
            assert(s@.take(i + 1).drop_last() =~= s@.take(i as int));
        }
        if c == sep {
            parts.push(cur);
            cur = String::new();
            assert(views(parts@).push(cur@) =~= before.push(Seq::<char>::empty()));
        } else {
            string_push(&mut cur, c);
            assert(views(parts@).push(cur@) =~= before.update(
                before.len() - 1,
                before.last().push(c),
            ));
        }
        i = i + 1;
    }
    parts.push(cur);
    assert(s@.take(chars.len() as int) =~= s@);
    parts
}

/// The strings `parts` joined with `sep` between each two of them.
pub fn join_strings(parts: &Vec<String>, sep: &str) -> (res: String)
    ensures
        res@ == join(views(parts@), sep@),
{
    let mut res = String::new();
    let mut i: usize = 0;
    while i < parts.len()
        invariant
            i <= parts.len(),
            res@ == join(views(parts@).take(i as int), sep@),
        decreases parts.len() - i,
    {
        let ghost prefix = views(parts@).take(i as int);
        if i == 0 {
            push_str(&mut res, parts[i].as_str());
            assert(views(parts@).take(1) =~= seq![parts@[0]@]);
        } else {
            push_str(&mut res, sep);
            push_str(&mut res, parts[i].as_str());
            assert(views(parts@).take(i + 1).drop_last() =~= prefix);
        }
        i = i + 1;
    }
    assert(views(parts@).take(parts.len() as int) =~= views(parts@));
    res
}

/// The index of the first character of `s[from..]` that is not `c`: the start of
/// `trim_start_char(s[from..], c)`.
pub fn skip_leading(s: &Vec<char>, from: usize, c: char) -> (k: usize)
    requires
        from <= s.len(),
    ensures
        from <= k <= s.len(),
        s@.skip(k as int) == trim_start_char(s@.skip(from as int), c),
    decreases s.len() - from,
{
    if from < s.len() && s[from] == c {
        assert(s@.skip(from as int).drop_first() =~= s@.skip(from + 1));
        skip_leading(s, from + 1, c)
    } else {
        from
    }
}

/// The pieces between occurrences of `sep` of what follows the leading
/// occurrences of `lead` in `s`.
pub fn split_after_leading(s: &str, lead: char, sep: char) -> (res: Vec<String>)
    ensures
        views(res@) == split_on(trim_start_char(s@, lead), sep),
{
    let chars = chars_of(s);
    let k = skip_leading(&chars, 0, lead);
    assert(chars@.skip(0) =~= chars@);
    let rest = string_of_range(&chars, k, chars.len());
    assert(rest@ =~= chars@.skip(k as int));
    split_str(rest.as_str(), sep)
}

/// `char::to_ascii_lowercase`.
pub fn to_ascii_lower(c: char) -> (r: char)
    ensures
        r == ascii_lower(c),
{
    if 'A' <= c && c <= 'Z' {
        let b: u8 = (c as u8) + 32;
        b as char
    } else {
        c
    }
}

/// `char::to_ascii_uppercase`.
pub fn to_ascii_upper(c: char) -> (r: char)
    ensures
        r == ascii_upper(c),
{
    if 'a' <= c && c <= 'z' {
        let b: u8 = (c as u8) - 32;
        b as char
    } else {
        c
    }
}

/// The decimal digits of `n` (`usize::to_string`).
pub fn decimal_string(n: usize) -> (res: String)
    ensures
        res@ == decimal(n as nat),
    decreases n,
{
    let d: u8 = (n % 10) as u8;
    let c: char = (d + 48) as char;
    assert(c == digit_char((n % 10) as int));
    if n < 10 {
        let mut res = String::new();
        string_push(&mut res, c);
        assert(res@ =~= decimal(n as nat));
        res
    } else {
        let mut res = decimal_string(n / 10);
        string_push(&mut res, c);
        res
    }
}

} // verus!
