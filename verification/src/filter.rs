//! Filter expressions: `.`, `.field`, `.field.sub`, `.field[0]`, `.[2]` and their
//! combinations, parsed into a list of segments.

use vstd::prelude::*;
use vstd::string::StringExecFns;
use crate::json_parser::{digits_value, is_digit, lemma_digits_value_prefix};
use crate::text::{chars_of, push_char, string_from_range};

verus! {

/// One step of a filter.
#[derive(Debug, Clone, PartialEq)]
pub enum FilterSegment {
    /// The whole input, `.`.
    Identity,
    /// A member of an object, `.field`.
    Field(String),
    /// An element of an array, `[index]`.
    Index(usize),
}

/// The mathematical model of a [`FilterSegment`].
pub enum SegmentView {
    Identity,
    Field(Seq<char>),
    Index(usize),
}

impl View for FilterSegment {
    type V = SegmentView;

    open spec fn view(&self) -> SegmentView {
        match self {
            FilterSegment::Identity => SegmentView::Identity,
            FilterSegment::Field(f) => SegmentView::Field(f@),
            FilterSegment::Index(i) => SegmentView::Index(*i),
        }
    }
}

/// A parsed filter expression: its segments, applied left to right.
#[derive(Debug)]
pub struct Filter {
    pub segments: Vec<FilterSegment>,
}

/// The models of a sequence of segments.
pub open spec fn segments_model(v: Seq<FilterSegment>) -> Seq<SegmentView> {
    Seq::new(v.len(), |i: int| v[i]@)
}

impl View for Filter {
    type V = Seq<SegmentView>;

    open spec fn view(&self) -> Seq<SegmentView> {
        segments_model(self.segments@)
    }
}

// ---------------------------------------------------------------------------
// Specification
// ---------------------------------------------------------------------------

/// The index of the first `c` in `t`.
pub open spec fn first_index(t: Seq<char>, c: char) -> Option<int>
    decreases t.len(),
{
    if t.len() == 0 {
        None
    } else if t[0] == c {
        Some(0)
    } else {
        match first_index(t.drop_first(), c) {
            Some(i) => Some(i + 1),
            None => None,
        }
    }
}

/// The index of the last `c` in `t`.
pub open spec fn last_index(t: Seq<char>, c: char) -> Option<int>
    decreases t.len(),
{
    if t.len() == 0 {
        None
    } else if t.last() == c {
        Some(t.len() - 1)
    } else {
        last_index(t.drop_last(), c)
    }
}

/// The text of an unsigned number without its optional leading `+`.
pub open spec fn unsigned_digits(t: Seq<char>) -> Seq<char> {
    if t.len() > 0 && t[0] == '+' {
        t.drop_first()
    } else {
        t
    }
}

/// Every character of `d` is an ASCII digit.
pub open spec fn all_digits(d: Seq<char>) -> bool {
    forall|i: int| 0 <= i < d.len() ==> is_digit(#[trigger] d[i])
}

/// `str::parse::<usize>`: an optional `+` followed by at least one ASCII digit, of a
/// value that fits in a `usize`.
pub open spec fn spec_parse_usize(t: Seq<char>) -> Option<usize> {
    let d = unsigned_digits(t);
    if d.len() == 0 {
        None
    } else if !all_digits(d) {
        None
    } else if digits_value(d) > usize::MAX {
        None
    } else {
        Some(digits_value(d) as usize)
    }
}

/// The segments that one dot-separated, non-empty part of a filter denotes: a field
/// name, optionally followed by an index between the first `[` and the last `]`.
pub open spec fn spec_part(part: Seq<char>) -> Result<Seq<SegmentView>, Seq<char>> {
    match first_index(part, '[') {
        None => Ok(seq![SegmentView::Field(part)]),
        Some(b) => {
            let fields = if b > 0 {
                seq![SegmentView::Field(part.take(b))]
            } else {
                Seq::empty()
            };
            match last_index(part, ']') {
                None => Err("Missing closing bracket in part: "@ + part),
                Some(e) => if e > b + 1 {
                    let idx = part.subrange(b + 1, e);
                    match spec_parse_usize(idx) {
                        Some(n) => Ok(fields.push(SegmentView::Index(n))),
                        None => Err("Invalid array index: "@ + idx),
                    }
                } else {
                    Err("Malformed array index in part: "@ + part)
                },
            }
        },
    }
}

/// The segments of the parts in `rest`, the text after a dot; `whole` is the filter.
pub open spec fn spec_parts(rest: Seq<char>, whole: Seq<char>) -> Result<Seq<SegmentView>, Seq<char>>
    decreases rest.len(),
{
    let end = match first_index(rest, '.') {
        Some(i) => i,
        None => rest.len() as int,
    };
    proof {
        lemma_first_index(rest, '.');
    }
    let part = rest.take(end);
    if part.len() == 0 {
        Err("Invalid empty filter part in expression: "@ + whole)
    } else {
        match spec_part(part) {
            Err(e) => Err(e),
            Ok(segs) => if end < rest.len() {
                match spec_parts(rest.skip(end + 1), whole) {
                    Err(e) => Err(e),
                    Ok(more) => Ok(segs + more),
                }
            } else {
                Ok(segs)
            },
        }
    }
}

/// What a filter expression denotes, or the message that rejects it.
pub open spec fn spec_filter(s: Seq<char>) -> Result<Seq<SegmentView>, Seq<char>> {
    if s.len() == 0 || s == seq!['.'] {
        Ok(seq![SegmentView::Identity])
    } else if s[0] != '.' {
        Err("Filter expression must start with '.' (or be just '.')"@)
    } else {
        match spec_parts(s.drop_first(), s) {
            Err(e) => Err(e),
            Ok(segs) => if segs.len() == 0 {
                Err("Failed to parse filter into segments: "@ + s)
            } else {
                Ok(segs)
            },
        }
    }
}

/// Puts segments already read in front of a result.
pub open spec fn prepend(
    done: Seq<SegmentView>,
    r: Result<Seq<SegmentView>, Seq<char>>,
) -> Result<Seq<SegmentView>, Seq<char>> {
    match r {
        Ok(more) => Ok(done + more),
        Err(e) => Err(e),
    }
}

// ---------------------------------------------------------------------------
// Lemmas
// ---------------------------------------------------------------------------

/// What `first_index` finds: the first occurrence, or none at all.
pub proof fn lemma_first_index(t: Seq<char>, c: char)
    ensures
        first_index(t, c) matches Some(i) ==> 0 <= i < t.len() && t[i] == c && forall|j: int|
            0 <= j < i ==> t[j] != c,
        first_index(t, c) is None ==> forall|j: int| 0 <= j < t.len() ==> t[j] != c,
    decreases t.len(),
{
    if t.len() > 0 && t[0] != c {
        lemma_first_index(t.drop_first(), c);
        if first_index(t.drop_first(), c) is None {
            assert forall|j: int| 0 <= j < t.len() implies t[j] != c by {
                if j > 0 {
                    assert(t[j] == t.drop_first()[j - 1]);
                }
            }
        } else {
            let i = first_index(t.drop_first(), c)->Some_0;
            assert forall|j: int| 0 <= j < i + 1 implies t[j] != c by {
                if j > 0 {
                    assert(t[j] == t.drop_first()[j - 1]);
                }
            }
        }
    }
}

/// `first_index` is the first occurrence.
pub proof fn lemma_first_index_is(t: Seq<char>, c: char, i: int)
    requires
        0 <= i <= t.len(),
        i < t.len() ==> t[i] == c,
        forall|j: int| 0 <= j < i ==> t[j] != c,
    ensures
        first_index(t, c) == (if i < t.len() {
            Some(i)
        } else {
            None::<int>
        }),
{
    lemma_first_index(t, c);
    match first_index(t, c) {
        Some(k) => {
            if k < i {
                assert(t[k] != c);
            }
        },
        None => {},
    }
}

/// What `last_index` finds: the last occurrence, or none at all.
pub proof fn lemma_last_index(t: Seq<char>, c: char)
    ensures
        last_index(t, c) matches Some(i) ==> 0 <= i < t.len() && t[i] == c && forall|j: int|
            i < j < t.len() ==> t[j] != c,
        last_index(t, c) is None ==> forall|j: int| 0 <= j < t.len() ==> t[j] != c,
    decreases t.len(),
{
    if t.len() > 0 && t.last() != c {
        let u = t.drop_last();
        lemma_last_index(u, c);
        match last_index(u, c) {
            Some(i) => {
                assert forall|j: int| i < j < t.len() implies t[j] != c by {
                    if j < t.len() - 1 {
                        assert(t[j] == u[j]);
                    }
                }
            },
            None => {
                assert forall|j: int| 0 <= j < t.len() implies t[j] != c by {
                    if j < t.len() - 1 {
                        assert(t[j] == u[j]);
                    }
                }
            },
        }
    }
}

/// `last_index` is the last occurrence.
pub proof fn lemma_last_index_is(t: Seq<char>, c: char, i: int)
    requires
        -1 <= i < t.len(),
        i >= 0 ==> t[i] == c,
        forall|j: int| i < j < t.len() ==> t[j] != c,
    ensures
        last_index(t, c) == (if i >= 0 {
            Some(i)
        } else {
            None::<int>
        }),
{
    lemma_last_index(t, c);
    match last_index(t, c) {
        Some(k) => {
            if k > i {
                assert(t[k] != c);
            }
        },
        None => {},
    }
}

/// A field name that a filter can hold as a path step: not empty, with no `.` and no `[`.
pub open spec fn plain_field(k: Seq<char>) -> bool {
    k.len() > 0 && forall|i: int| 0 <= i < k.len() ==> #[trigger] k[i] != '.' && k[i] != '['
}

/// The field names `keys` joined by dots.
pub open spec fn dotted(keys: Seq<Seq<char>>) -> Seq<char>
    decreases keys.len(),
{
    if keys.len() == 0 {
        Seq::empty()
    } else if keys.len() == 1 {
        keys[0]
    } else {
        keys[0] + seq!['.'] + dotted(keys.drop_first())
    }
}

/// The parts after the first dot of a dotted path are its field steps.
pub proof fn lemma_dotted_parts(keys: Seq<Seq<char>>, whole: Seq<char>)
    requires
        keys.len() > 0,
        forall|i: int| 0 <= i < keys.len() ==> #[trigger] plain_field(keys[i]),
    ensures
        spec_parts(dotted(keys), whole) == Ok::<Seq<SegmentView>, Seq<char>>(
            keys.map_values(|k: Seq<char>| SegmentView::Field(k)),
        ),
    decreases keys.len(),
{
    let k0 = keys[0];
    assert(plain_field(k0));
    let rest = dotted(keys);
    lemma_first_index_is(k0, '[', k0.len() as int);
    if keys.len() == 1 {
        lemma_first_index_is(rest, '.', rest.len() as int);
        assert(rest.take(rest.len() as int) =~= k0);
        assert(keys.map_values(|k: Seq<char>| SegmentView::Field(k)) =~= seq![SegmentView::Field(k0)]);
    } else {
        let tail = keys.drop_first();
        assert forall|i: int| 0 <= i < tail.len() implies #[trigger] plain_field(tail[i]) by {
            assert(tail[i] == keys[i + 1]);
        }
        lemma_first_index_is(rest, '.', k0.len() as int);
        assert(rest.take(k0.len() as int) =~= k0);
        assert(rest.skip(k0.len() as int + 1) =~= dotted(tail));
        lemma_dotted_parts(tail, whole);
        assert(seq![SegmentView::Field(k0)] + tail.map_values(|k: Seq<char>| SegmentView::Field(k)) =~= keys.map_values(
            |k: Seq<char>| SegmentView::Field(k),
        ));
    }
}

/// A filter `.k1.k2...` of plain field names selects those fields in turn.
pub proof fn dotted_path_is_fields(keys: Seq<Seq<char>>)
    requires
        keys.len() > 0,
        forall|i: int| 0 <= i < keys.len() ==> #[trigger] plain_field(keys[i]),
    ensures
        spec_filter(seq!['.'] + dotted(keys)) == Ok::<Seq<SegmentView>, Seq<char>>(
            keys.map_values(|k: Seq<char>| SegmentView::Field(k)),
        ),
{
    let s = seq!['.'] + dotted(keys);
    assert(plain_field(keys[0]));
    assert(dotted(keys).len() > 0) by {
        if keys.len() > 1 {
            assert(dotted(keys).len() >= keys[0].len());
        }
    }
    assert(s != seq!['.']) by {
        assert(s.len() > 1);
    }
    assert(s.drop_first() =~= dotted(keys));
    lemma_dotted_parts(keys, s);
}

/// A part `k[n]`, with `k` free of `[` and possibly empty and `n` decimal digits of a
/// value that fits in a `usize`, selects field `k`, if not empty, then index `n`.
pub proof fn indexed_part_is_field_then_index(k: Seq<char>, d: Seq<char>)
    requires
        forall|i: int| 0 <= i < k.len() ==> #[trigger] k[i] != '[',
        d.len() > 0,
        all_digits(d),
        digits_value(d) <= usize::MAX,
    ensures
        spec_part(k + seq!['['] + d + seq![']']) == Ok::<Seq<SegmentView>, Seq<char>>(
            (if k.len() > 0 {
                seq![SegmentView::Field(k)]
            } else {
                Seq::empty()
            }).push(SegmentView::Index(digits_value(d) as usize)),
        ),
{
    let part = k + seq!['['] + d + seq![']'];
    let b = k.len() as int;
    let e = part.len() - 1;
    lemma_first_index_is(part, '[', b);
    lemma_last_index_is(part, ']', e);
    assert(part.take(b) =~= k);
    assert(part.subrange(b + 1, e) =~= d);
    assert(unsigned_digits(d) == d) by {
        if d.len() > 0 && d[0] == '+' {
            assert(is_digit(d[0]));
        }
    }
}

/// The parts after the first dot of a dotted path whose last part carries an index
/// `[d]` are its field steps followed by that index.
pub proof fn lemma_dotted_indexed_parts(keys: Seq<Seq<char>>, d: Seq<char>, whole: Seq<char>)
    requires
        keys.len() > 0,
        forall|i: int| 0 <= i < keys.len() ==> #[trigger] plain_field(keys[i]),
        d.len() > 0,
        forall|i: int| 0 <= i < d.len() ==> '0' <= #[trigger] d[i] <= '9',
        digits_value(d) <= usize::MAX,
    ensures
        spec_parts(dotted(keys) + (seq!['['] + d + seq![']']), whole) == Ok::<Seq<SegmentView>, Seq<char>>(
            keys.map_values(|k: Seq<char>| SegmentView::Field(k)).push(SegmentView::Index(digits_value(d) as usize)),
        ),
    decreases keys.len(),
{
    let k0 = keys[0];
    assert(plain_field(k0));
    let ix = seq!['['] + d + seq![']'];
    let rest = dotted(keys) + ix;
    assert(all_digits(d)) by {
        assert forall|i: int| 0 <= i < d.len() implies is_digit(#[trigger] d[i]) by {
            assert('0' <= d[i] <= '9');
        }
    }
    if keys.len() == 1 {
        assert(rest =~= k0 + seq!['['] + d + seq![']']);
        assert forall|j: int| 0 <= j < rest.len() implies rest[j] != '.' by {
            if j < k0.len() {
                assert(rest[j] == k0[j]);
            } else if j > k0.len() && j < rest.len() - 1 {
                assert(rest[j] == d[j - k0.len() - 1]);
            }
        }
        lemma_first_index_is(rest, '.', rest.len() as int);
        assert(rest.take(rest.len() as int) =~= rest);
        indexed_part_is_field_then_index(k0, d);
        assert(keys.map_values(|k: Seq<char>| SegmentView::Field(k)) =~= seq![SegmentView::Field(k0)]);
    } else {
        let tail = keys.drop_first();
        assert forall|i: int| 0 <= i < tail.len() implies #[trigger] plain_field(tail[i]) by {
            assert(tail[i] == keys[i + 1]);
        }
        assert(rest =~= k0 + seq!['.'] + (dotted(tail) + ix));
        assert forall|j: int| 0 <= j < k0.len() implies rest[j] != '.' by {
            assert(rest[j] == k0[j]);
        }
        lemma_first_index_is(rest, '.', k0.len() as int);
        assert(rest.take(k0.len() as int) =~= k0);
        assert(rest.skip(k0.len() as int + 1) =~= dotted(tail) + ix);
        lemma_first_index_is(k0, '[', k0.len() as int);
        lemma_dotted_indexed_parts(tail, d, whole);
        assert(seq![SegmentView::Field(k0)] + tail.map_values(|k: Seq<char>| SegmentView::Field(k)).push(
            SegmentView::Index(digits_value(d) as usize),
        ) =~= keys.map_values(|k: Seq<char>| SegmentView::Field(k)).push(SegmentView::Index(digits_value(d) as usize)));
    }
}

/// A filter `.k1.k2...kn[d]` of plain field names, the last followed by an index of
/// decimal digits, selects those fields in turn and then the element at that index:
/// an index on the last part is read like one on any other part.
pub proof fn dotted_path_with_index_is_fields_then_index(keys: Seq<Seq<char>>, d: Seq<char>)
    requires
        keys.len() > 0,
        forall|i: int| 0 <= i < keys.len() ==> #[trigger] plain_field(keys[i]),
        d.len() > 0,
        forall|i: int| 0 <= i < d.len() ==> '0' <= #[trigger] d[i] <= '9',
        digits_value(d) <= usize::MAX,
    ensures
        spec_filter(seq!['.'] + dotted(keys) + seq!['['] + d + seq![']']) == Ok::<Seq<SegmentView>, Seq<char>>(
            keys.map_values(|k: Seq<char>| SegmentView::Field(k)).push(SegmentView::Index(digits_value(d) as usize)),
        ),
{
    let s = seq!['.'] + dotted(keys) + seq!['['] + d + seq![']'];
    assert(s.len() > 1);
    assert(s[0] == '.');
    assert(s != seq!['.']);
    assert(s.drop_first() =~= dotted(keys) + (seq!['['] + d + seq![']']));
    lemma_dotted_indexed_parts(keys, d, s);
}

// ---------------------------------------------------------------------------
// Implementation
// ---------------------------------------------------------------------------

/// The first index of `c` in `s[from..to]`, counted from `from`.
fn find_first(s: &Vec<char>, from: usize, to: usize, c: char) -> (r: Option<usize>)
    requires
        from <= to <= s@.len(),
    ensures
        match r {
            Some(i) => first_index(s@.subrange(from as int, to as int), c) == Some(i as int) && from
                + i < to,
            None => first_index(s@.subrange(from as int, to as int), c) is None,
        },
{
    let mut i = from;
    while i < to
        invariant
            from <= i <= to <= s@.len(),
            forall|j: int| from <= j < i ==> s@[j] != c,
        decreases to - i,
    {
        if s[i] == c {
            proof {
                lemma_first_index_is(s@.subrange(from as int, to as int), c, i - from);
            }
            return Some(i - from);
        }
        i = i + 1;
    }
    proof {
        lemma_first_index_is(s@.subrange(from as int, to as int), c, to - from);
    }
    None
}

/// The last index of `c` in `s[from..to]`, counted from `from`.
fn find_last(s: &Vec<char>, from: usize, to: usize, c: char) -> (r: Option<usize>)
    requires
        from <= to <= s@.len(),
    ensures
        match r {
            Some(i) => last_index(s@.subrange(from as int, to as int), c) == Some(i as int) && from
                + i < to,
            None => last_index(s@.subrange(from as int, to as int), c) is None,
        },
{
    let mut i = to;
    while i > from
        invariant
            from <= i <= to <= s@.len(),
            forall|j: int| i <= j < to ==> s@[j] != c,
        decreases i - from,
    {
        if s[i - 1] == c {
            proof {
                lemma_last_index_is(s@.subrange(from as int, to as int), c, i - 1 - from);
            }
            return Some(i - 1 - from);
        }
        i = i - 1;
    }
    proof {
        lemma_last_index_is(s@.subrange(from as int, to as int), c, -1);
    }
    None
}

/// `str::parse::<usize>` on the characters `s[from..to]`.
fn parse_usize(s: &Vec<char>, from: usize, to: usize) -> (r: Option<usize>)
    requires
        from <= to <= s@.len(),
    ensures
        r == spec_parse_usize(s@.subrange(from as int, to as int)),
{
    let ghost t = s@.subrange(from as int, to as int);
    let start = if from < to && s[from] == '+' {
        from + 1
    } else {
        from
    };
    let ghost d = s@.subrange(start as int, to as int);
    proof {
        if from < to {
            assert(t[0] == s@[from as int]);
        }
        assert(d =~= unsigned_digits(t));
    }
    if start == to {
        return None;
    }
    let mut i = start;
    while i < to
        invariant
            start <= i <= to <= s@.len(),
            d == s@.subrange(start as int, to as int),
            d == unsigned_digits(s@.subrange(from as int, to as int)),
            forall|k: int| start <= k < i ==> is_digit(#[trigger] s@[k]),
        decreases to - i,
    {
        if !('0' <= s[i] && s[i] <= '9') {
            assert(!is_digit(d[i - start]));
            assert(!all_digits(d));
            return None;
        }
        i = i + 1;
    }
    assert(all_digits(d)) by {
        assert forall|k: int| 0 <= k < d.len() implies is_digit(#[trigger] d[k]) by {
            assert(d[k] == s@[start + k]);
        }
    }
    let mut acc: usize = 0;
    let mut i = start;
    while i < to
        invariant
            start <= i <= to <= s@.len(),
            d == s@.subrange(start as int, to as int),
            d == unsigned_digits(s@.subrange(from as int, to as int)),
            forall|k: int| 0 <= k < d.len() ==> is_digit(#[trigger] d[k]),
            acc as int == digits_value(s@.subrange(start as int, i as int)),
        decreases to - i,
    {
        assert(is_digit(d[i - start]));
        let digit = ((s[i] as u32) - ('0' as u32)) as usize;
        proof {
            assert(s@.subrange(start as int, i + 1).drop_last() =~= s@.subrange(
                start as int,
                i as int,
            ));
        }
        let next = match acc.checked_mul(10) {
            Some(m) => m.checked_add(digit),
            None => None,
        };
        match next {
            Some(v) => {
                acc = v;
            },
            None => {
                proof {
                    assert(d.take(i + 1 - start) =~= s@.subrange(start as int, i + 1));
                    lemma_digits_value_prefix(d, i + 1 - start);
                }
                return None;
            },
        }
        i = i + 1;
    }
    Some(acc)
}

/// A string made of the characters of `prefix` followed by `s[from..to]`.
fn message(prefix: &str, s: &Vec<char>, from: usize, to: usize) -> (m: String)
    requires
        from <= to <= s@.len(),
    ensures
        m@ == prefix@ + s@.subrange(from as int, to as int),
{
    let mut m = String::from_str(prefix);
    let mut i = from;
    while i < to
        invariant
            from <= i <= to <= s@.len(),
            m@ == prefix@ + s@.subrange(from as int, i as int),
        decreases to - i,
    {
        push_char(&mut m, s[i]);
        i = i + 1;
        assert(m@ =~= prefix@ + s@.subrange(from as int, i as int));
    }
    m
}

/// The segments of the non-empty part `s[from..to]`, pushed onto `segments`.
fn parse_part(s: &Vec<char>, from: usize, to: usize, segments: &mut Vec<FilterSegment>) -> (r:
    Result<(), String>)
    requires
        from < to <= s@.len(),
    ensures
        match r {
            Ok(()) => spec_part(s@.subrange(from as int, to as int)) matches Ok(segs)
                && segments_model(final(segments)@) == segments_model(old(segments)@) + segs,
            Err(e) => spec_part(s@.subrange(from as int, to as int)) == Err::<
                Seq<SegmentView>,
                Seq<char>,
            >(e@),
        },
{
    let ghost part = s@.subrange(from as int, to as int);
    let ghost before = segments_model(segments@);
    match find_first(s, from, to, '[') {
        None => {
            let f = string_from_range(s, from, to);
            segments.push(FilterSegment::Field(f));
            assert(segments_model(segments@) =~= before + seq![SegmentView::Field(part)]);
            Ok(())
        },
        Some(b) => {
            if b > 0 {
                let f = string_from_range(s, from, from + b);
                assert(f@ =~= part.take(b as int));
                segments.push(FilterSegment::Field(f));
            }
            let ghost mid = segments_model(segments@);
            let ghost fields = if b > 0 {
                seq![SegmentView::Field(part.take(b as int))]
            } else {
                Seq::<SegmentView>::empty()
            };
            assert(mid =~= before + fields);
            match find_last(s, from, to, ']') {
                None => Err(message("Missing closing bracket in part: ", s, from, to)),
                Some(e) => {
                    if e > b + 1 {
                        assert(s@.subrange(from + b + 1, from + e) =~= part.subrange(
                            b + 1,
                            e as int,
                        ));
                        match parse_usize(s, from + b + 1, from + e) {
                            Some(n) => {
                                segments.push(FilterSegment::Index(n));
                                assert(segments_model(segments@) =~= before + fields.push(
                                    SegmentView::Index(n),
                                ));
                                Ok(())
                            },
                            None => Err(message("Invalid array index: ", s, from + b + 1, from + e)),
                        }
                    } else {
                        Err(message("Malformed array index in part: ", s, from, to))
                    }
                },
            }
        },
    }
}

/// Parses a filter expression into its segments.
pub fn parse_filter_expression(filter_str: &str) -> (r: Result<Filter, String>)
    ensures
        match r {
            Ok(f) => spec_filter(filter_str@) == Ok::<Seq<SegmentView>, Seq<char>>(f@),
            Err(e) => spec_filter(filter_str@) == Err::<Seq<SegmentView>, Seq<char>>(e@),
        },
{
    let s = chars_of(filter_str);
    let n = s.len();
    if n == 0 || (n == 1 && s[0] == '.') {
        let segments = vec![FilterSegment::Identity];
        assert(n == 1 ==> s@ =~= seq!['.']);
        assert(segments_model(segments@) =~= seq![SegmentView::Identity]);
        return Ok(Filter { segments });
    }
    assert(s@ != seq!['.']) by {
        if n == 1 {
            assert(s@[0] != seq!['.'][0]);
        }
    }
    if s[0] != '.' {
        return Err(String::from_str("Filter expression must start with '.' (or be just '.')"));
    }
    let mut segments: Vec<FilterSegment> = Vec::new();
    let mut start: usize = 1;
    assert(s@.subrange(1, n as int) =~= s@.drop_first());
    assert(segments_model(segments@) =~= Seq::<SegmentView>::empty());
    loop
        invariant_except_break
            spec_parts(s@.drop_first(), s@) == prepend(
                segments_model(segments@),
                spec_parts(s@.subrange(start as int, n as int), s@),
            ),
        invariant
            1 <= start <= n,
            n == s@.len(),
            n >= 1,
            s@ == filter_str@,
            s@[0] == '.',
            s@ != seq!['.'],
        ensures
            spec_parts(s@.drop_first(), s@) == Ok::<Seq<SegmentView>, Seq<char>>(
                segments_model(segments@),
            ),
        decreases n - start,
    {
        let ghost rest = s@.subrange(start as int, n as int);
        let end = match find_first(&s, start, n, '.') {
            Some(i) => start + i,
            None => n,
        };
        proof {
            lemma_first_index(rest, '.');
            assert(rest.take(end - start) =~= s@.subrange(start as int, end as int));
        }
        if end == start {
            assert(s@.subrange(0, n as int) =~= s@);
            return Err(message("Invalid empty filter part in expression: ", &s, 0, n));
        }
        let ghost before = segments_model(segments@);
        match parse_part(&s, start, end, &mut segments) {
            Err(e) => {
                return Err(e);
            },
            Ok(()) => {},
        }
        if end < n {
            proof {
                assert(rest.skip(end - start + 1) =~= s@.subrange(end + 1, n as int));
                let segs = spec_part(s@.subrange(start as int, end as int))->Ok_0;
                match spec_parts(s@.subrange(end + 1, n as int), s@) {
                    Ok(more) => {
                        assert(before + (segs + more) =~= (before + segs) + more);
                    },
                    Err(_) => {},
                }
            }
            start = end + 1;
        } else {
            proof {
                let segs = spec_part(s@.subrange(start as int, end as int))->Ok_0;
                assert(before + segs == segments_model(segments@));
            }
            break;
        }
    }
    if segments.len() == 0 {
        assert(s@.subrange(0, n as int) =~= s@);
        return Err(message("Failed to parse filter into segments: ", &s, 0, n));
    }
    Ok(Filter { segments })
}

} // verus!
