//! Applying a filter to a JSON value.

use vstd::prelude::*;
use crate::filter::{Filter, FilterSegment, SegmentView, segments_model};
use crate::json_parser::{
    JSONValue,
    JsonNumber,
    JsonView,
    lemma_array_model,
    lemma_object_model,
    members_model,
    object_from_pairs,
    object_insert,
    values_model,
};

verus! {

/// The value of the first member of `entries` whose key is `k`.
pub open spec fn lookup(entries: Seq<(Seq<char>, JsonView)>, k: Seq<char>) -> Option<JsonView>
    decreases entries.len(),
{
    if entries.len() == 0 {
        None
    } else if entries[0].0 == k {
        Some(entries[0].1)
    } else {
        lookup(entries.drop_first(), k)
    }
}

/// The value that the segments `segs` select in `v`: a missing member, an index out
/// of bounds, or a step into a value of the wrong kind gives `null`.
pub open spec fn spec_apply(v: JsonView, segs: Seq<SegmentView>) -> JsonView
    decreases segs.len(),
{
    if segs.len() == 0 {
        v
    } else {
        match segs[0] {
            SegmentView::Identity => spec_apply(v, segs.drop_first()),
            SegmentView::Field(k) => match v {
                JsonView::Object(m) => match lookup(m, k) {
                    Some(x) => spec_apply(x, segs.drop_first()),
                    None => JsonView::Null,
                },
                _ => JsonView::Null,
            },
            SegmentView::Index(i) => match v {
                JsonView::Array(a) => if i < a.len() {
                    spec_apply(a[i as int], segs.drop_first())
                } else {
                    JsonView::Null
                },
                _ => JsonView::Null,
            },
        }
    }
}

/// Selecting anything in `null` gives `null`.
pub proof fn null_selects_null(segs: Seq<SegmentView>)
    ensures
        spec_apply(JsonView::Null, segs) == JsonView::Null,
    decreases segs.len(),
{
    if segs.len() > 0 {
        null_selects_null(segs.drop_first());
    }
}

/// A filter made only of identity segments (such as the filter `.`) gives back the
/// whole input.
pub proof fn identity_filter_keeps_value(v: JsonView, segs: Seq<SegmentView>)
    requires
        forall|i: int| 0 <= i < segs.len() ==> #[trigger] segs[i] == SegmentView::Identity,
    ensures
        spec_apply(v, segs) == v,
    decreases segs.len(),
{
    if segs.len() > 0 {
        identity_filter_keeps_value(v, segs.drop_first());
    }
}

/// Applying a filter whose segments are `first` followed by `second` is applying
/// `first`, then `second` to what it selected.
pub proof fn filter_composes(v: JsonView, first: Seq<SegmentView>, second: Seq<SegmentView>)
    ensures
        spec_apply(v, first + second) == spec_apply(spec_apply(v, first), second),
    decreases first.len(),
{
    if first.len() == 0 {
        assert(first + second =~= second);
    } else {
        assert((first + second).drop_first() =~= first.drop_first() + second);
        assert((first + second)[0] == first[0]);
        match first[0] {
            SegmentView::Identity => {
                filter_composes(v, first.drop_first(), second);
            },
            SegmentView::Field(k) => match v {
                JsonView::Object(m) => match lookup(m, k) {
                    Some(x) => {
                        filter_composes(x, first.drop_first(), second);
                    },
                    None => {
                        null_selects_null(second);
                    },
                },
                _ => {
                    null_selects_null(second);
                },
            },
            SegmentView::Index(i) => match v {
                JsonView::Array(a) => if i < a.len() {
                    filter_composes(a[i as int], first.drop_first(), second);
                } else {
                    null_selects_null(second);
                },
                _ => {
                    null_selects_null(second);
                },
            },
        }
    }
}

/// A field that the object lacks, or any field of a value that is no object, gives
/// `null`, whatever segments follow.
pub proof fn missing_field_selects_null(v: JsonView, k: Seq<char>, rest: Seq<SegmentView>)
    requires
        !(v matches JsonView::Object(m) && lookup(m, k) is Some),
    ensures
        spec_apply(v, seq![SegmentView::Field(k)] + rest) == JsonView::Null,
{
    let segs = seq![SegmentView::Field(k)] + rest;
    assert(segs[0] == SegmentView::Field(k));
}

/// An index past the end of the array, or any index into a value that is no array,
/// gives `null`, whatever segments follow.
pub proof fn missing_index_selects_null(v: JsonView, i: usize, rest: Seq<SegmentView>)
    requires
        !(v matches JsonView::Array(a) && i < a.len()),
    ensures
        spec_apply(v, seq![SegmentView::Index(i)] + rest) == JsonView::Null,
{
    let segs = seq![SegmentView::Index(i)] + rest;
    assert(segs[0] == SegmentView::Index(i));
}

/// A present field selects the value of the first member with that key.
pub proof fn field_selects_member(m: Seq<(Seq<char>, JsonView)>, k: Seq<char>, x: JsonView)
    requires
        lookup(m, k) == Some(x),
    ensures
        spec_apply(JsonView::Object(m), seq![SegmentView::Field(k)]) == x,
{
    let segs = seq![SegmentView::Field(k)];
    assert(segs[0] == SegmentView::Field(k));
    assert(segs.drop_first() =~= Seq::<SegmentView>::empty());
    assert(spec_apply(x, Seq::<SegmentView>::empty()) == x);
}

/// An index within bounds selects that element.
pub proof fn index_selects_element(a: Seq<JsonView>, i: usize)
    requires
        i < a.len(),
    ensures
        spec_apply(JsonView::Array(a), seq![SegmentView::Index(i)]) == a[i as int],
{
    let segs = seq![SegmentView::Index(i)];
    assert(segs[0] == SegmentView::Index(i));
    assert(segs.drop_first() =~= Seq::<SegmentView>::empty());
    assert(spec_apply(a[i as int], Seq::<SegmentView>::empty()) == a[i as int]);
}

/// The value of the last of `pairs` whose key is `k`.
pub open spec fn last_value(pairs: Seq<(Seq<char>, JsonView)>, k: Seq<char>) -> Option<JsonView>
    decreases pairs.len(),
{
    if pairs.len() == 0 {
        None
    } else if pairs.last().0 == k {
        Some(pairs.last().1)
    } else {
        last_value(pairs.drop_last(), k)
    }
}

/// No two members share a key.
pub open spec fn distinct_keys(entries: Seq<(Seq<char>, JsonView)>) -> bool {
    forall|i: int, j: int|
        #![trigger entries[i], entries[j]]
        0 <= i < j < entries.len() ==> entries[i].0 != entries[j].0
}

/// A member's key is found.
pub proof fn lemma_lookup_finds(entries: Seq<(Seq<char>, JsonView)>, j: int)
    requires
        0 <= j < entries.len(),
    ensures
        lookup(entries, entries[j].0) is Some,
    decreases entries.len(),
{
    if j > 0 && entries[0].0 != entries[j].0 {
        lemma_lookup_finds(entries.drop_first(), j - 1);
    }
}

/// A key that is found belongs to some member.
pub proof fn lemma_lookup_found(entries: Seq<(Seq<char>, JsonView)>, k: Seq<char>) -> (j: int)
    requires
        lookup(entries, k) is Some,
    ensures
        0 <= j < entries.len(),
        entries[j].0 == k,
    decreases entries.len(),
{
    if entries[0].0 == k {
        0
    } else {
        let j = lemma_lookup_found(entries.drop_first(), k);
        j + 1
    }
}

/// What a key finds after a member is added.
pub proof fn lemma_lookup_insert(entries: Seq<(Seq<char>, JsonView)>, k: Seq<char>, v: JsonView, x: Seq<char>)
    ensures
        lookup(object_insert(entries, k, v), x) == (if x == k {
            Some(v)
        } else {
            lookup(entries, x)
        }),
    decreases entries.len(),
{
    let r = object_insert(entries, k, v);
    if entries.len() == 0 {
        assert(r.drop_first() =~= Seq::<(Seq<char>, JsonView)>::empty());
        assert(lookup(Seq::<(Seq<char>, JsonView)>::empty(), x) is None);
        assert(r[0] == (k, v));
    } else if entries[0].0 == k {
        assert(r.drop_first() =~= entries.drop_first());
        assert(r[0] == (k, v));
    } else {
        lemma_lookup_insert(entries.drop_first(), k, v, x);
        assert(r.drop_first() =~= object_insert(entries.drop_first(), k, v));
        assert(r[0] == entries[0]);
    }
}

/// Adding a member keeps the keys distinct.
pub proof fn lemma_insert_distinct(entries: Seq<(Seq<char>, JsonView)>, k: Seq<char>, v: JsonView)
    requires
        distinct_keys(entries),
    ensures
        distinct_keys(object_insert(entries, k, v)),
    decreases entries.len(),
{
    let r = object_insert(entries, k, v);
    if entries.len() == 0 {
    } else if entries[0].0 == k {
        assert forall|i: int, j: int| #![trigger r[i], r[j]] 0 <= i < j < r.len() implies r[i].0 != r[j].0 by {
            assert(r[i].0 == entries[i].0 && r[j].0 == entries[j].0);
        }
    } else {
        let rest = entries.drop_first();
        let t = object_insert(rest, k, v);
        assert(distinct_keys(rest)) by {
            assert forall|i: int, j: int| #![trigger rest[i], rest[j]] 0 <= i < j < rest.len() implies rest[i].0 != rest[j].0 by {
                assert(rest[i] == entries[i + 1] && rest[j] == entries[j + 1]);
            }
        }
        lemma_insert_distinct(rest, k, v);
        assert(r =~= seq![entries[0]] + t);
        assert forall|i: int, j: int| #![trigger r[i], r[j]] 0 <= i < j < r.len() implies r[i].0 != r[j].0 by {
            if i == 0 {
                assert(r[j] == t[j - 1]);
                if t[j - 1].0 == entries[0].0 {
                    lemma_lookup_finds(t, j - 1);
                    lemma_lookup_insert(rest, k, v, entries[0].0);
                    let w = lemma_lookup_found(rest, entries[0].0);
                    assert(entries[w + 1] == rest[w]);
                }
            } else {
                assert(r[i] == t[i - 1] && r[j] == t[j - 1]);
            }
        }
    }
}

/// An object read from text has one member per key, and a key that occurs more than
/// once holds the value of its last occurrence.
pub proof fn object_keys_unique_last_wins(pairs: Seq<(Seq<char>, JsonView)>)
    ensures
        distinct_keys(object_from_pairs(pairs)),
        forall|k: Seq<char>| #[trigger] lookup(object_from_pairs(pairs), k) == last_value(pairs, k),
    decreases pairs.len(),
{
    if pairs.len() > 0 {
        let prev = object_from_pairs(pairs.drop_last());
        object_keys_unique_last_wins(pairs.drop_last());
        lemma_insert_distinct(prev, pairs.last().0, pairs.last().1);
        assert forall|k: Seq<char>| #[trigger] lookup(object_from_pairs(pairs), k) == last_value(pairs, k) by {
            lemma_lookup_insert(prev, pairs.last().0, pairs.last().1, k);
        }
    }
}

/// A copy of a number.
pub fn clone_number(n: &JsonNumber) -> (r: JsonNumber)
    ensures
        r@ == n@,
{
    JsonNumber {
        negative: n.negative,
        integer: n.integer.clone(),
        fraction: n.fraction.clone(),
        exponent: n.exponent,
    }
}

/// A deep copy of a value.
pub fn clone_value(v: &JSONValue) -> (r: JSONValue)
    ensures
        r@ == v@,
    decreases v,
{
    match v {
        JSONValue::Null => JSONValue::Null,
        JSONValue::True => JSONValue::True,
        JSONValue::False => JSONValue::False,
        JSONValue::Number(n) => JSONValue::Number(clone_number(n)),
        JSONValue::String(s) => JSONValue::String(s.clone()),
        JSONValue::Array(items) => {
            let mut out: Vec<JSONValue> = Vec::new();
            let mut i: usize = 0;
            while i < items.len()
                invariant
                    *v == JSONValue::Array(*items),
                    i <= items@.len(),
                    out@.len() == i,
                    forall|j: int| 0 <= j < i ==> #[trigger] out@[j]@ == items@[j]@,
                decreases items@.len() - i,
            {
                proof {
                    assert(decreases_to!(*v => (*v)->Array_0));
                    assert(decreases_to!(*items => items@));
                    assert(decreases_to!(items@ => items@[i as int]));
                }
                let c = clone_value(&items[i]);
                out.push(c);
                i = i + 1;
            }
            proof {
                lemma_array_model(*items);
                lemma_array_model(out);
                assert(values_model(out@) =~= values_model(items@));
            }
            JSONValue::Array(out)
        },
        JSONValue::Object(entries) => {
            let mut out: Vec<(String, JSONValue)> = Vec::new();
            let mut i: usize = 0;
            while i < entries.len()
                invariant
                    *v == JSONValue::Object(*entries),
                    i <= entries@.len(),
                    out@.len() == i,
                    forall|j: int|
                        0 <= j < i ==> #[trigger] out@[j].0@ == entries@[j].0@ && out@[j].1@
                            == entries@[j].1@,
                decreases entries@.len() - i,
            {
                proof {
                    assert(decreases_to!(*v => (*v)->Object_0));
                    assert(decreases_to!(*entries => entries@));
                    assert(decreases_to!(entries@ => entries@[i as int]));
                    assert(decreases_to!(entries@[i as int] => entries@[i as int].1));
                }
                let c = clone_value(&entries[i].1);
                let k = entries[i].0.clone();
                out.push((k, c));
                i = i + 1;
            }
            proof {
                lemma_object_model(*entries);
                lemma_object_model(out);
                assert(members_model(out@) =~= members_model(entries@));
            }
            JSONValue::Object(out)
        },
    }
}

/// The value of the first member of `entries` whose key is `key`.
fn get_member<'a>(entries: &'a Vec<(String, JSONValue)>, key: &String) -> (r: Option<&'a JSONValue>)
    ensures
        match r {
            Some(x) => lookup(members_model(entries@), key@) == Some(x@),
            None => lookup(members_model(entries@), key@) is None,
        },
{
    let ghost m = members_model(entries@);
    let mut i: usize = 0;
    assert(m.subrange(0, m.len() as int) =~= m);
    while i < entries.len()
        invariant
            i <= entries@.len(),
            m == members_model(entries@),
            lookup(m, key@) == lookup(m.subrange(i as int, m.len() as int), key@),
        decreases entries@.len() - i,
    {
        let ghost tail = m.subrange(i as int, m.len() as int);
        assert(tail[0] == m[i as int]);
        if entries[i].0 == *key {
            return Some(&entries[i].1);
        }
        assert(tail.drop_first() =~= m.subrange(i + 1, m.len() as int));
        i = i + 1;
    }
    None
}

/// The value that `filter` selects in `initial_value`; `null` where a member is missing,
/// an index is out of bounds, or a step meets a value of the wrong kind.
pub fn apply_filter_to_value(initial_value: &JSONValue, filter: &Filter) -> (r: Result<
    JSONValue,
    String,
>)
    ensures
        r matches Ok(v) && v@ == spec_apply(initial_value@, filter@),
{
    let ghost segs = filter@;
    let mut current: &JSONValue = initial_value;
    let mut i: usize = 0;
    assert(segs.skip(0) =~= segs);
    while i < filter.segments.len()
        invariant
            i <= filter.segments@.len(),
            segs == segments_model(filter.segments@),
            spec_apply(initial_value@, segs) == spec_apply(current@, segs.skip(i as int)),
        decreases filter.segments@.len() - i,
    {
        let ghost rest = segs.skip(i as int);
        assert(rest[0] == filter.segments@[i as int]@);
        assert(rest.drop_first() =~= segs.skip(i + 1));
        match &filter.segments[i] {
            FilterSegment::Identity => {},
            FilterSegment::Field(key) => {
                match current {
                    JSONValue::Object(map) => {
                        proof {
                            lemma_object_model(*map);
                        }
                        match get_member(map, key) {
                            Some(next) => {
                                current = next;
                            },
                            None => {
                                return Ok(JSONValue::Null);
                            },
                        }
                    },
                    _ => {
                        return Ok(JSONValue::Null);
                    },
                }
            },
            FilterSegment::Index(idx) => {
                match current {
                    JSONValue::Array(arr) => {
                        proof {
                            lemma_array_model(*arr);
                        }
                        if *idx < arr.len() {
                            current = &arr[*idx];
                        } else {
                            return Ok(JSONValue::Null);
                        }
                    },
                    _ => {
                        return Ok(JSONValue::Null);
                    },
                }
            },
        }
        i = i + 1;
    }
    Ok(clone_value(current))
}

} // verus!
