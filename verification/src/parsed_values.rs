//! What holds of every value that the parser returns: each object has each key once.

use vstd::prelude::*;
use crate::json_parser::{
    JsonView,
    object_from_pairs,
    object_insert,
    spec_array,
    spec_element,
    spec_elements,
    spec_elements_tail,
    spec_member,
    spec_members,
    spec_members_tail,
    spec_object,
    spec_parse,
    spec_value,
    lemma_string_advances,
    lemma_ws_end,
    spec_string,
    ws_end,
};
use crate::filter::SegmentView;
use crate::json_value_filter::{distinct_keys, lookup, object_keys_unique_last_wins, spec_apply};

verus! {

/// Every object in `v`, at any depth, has each key once.
pub open spec fn keys_once(v: JsonView) -> bool
    decreases v, 0nat,
{
    match v {
        JsonView::Array(a) => keys_once_elements(a, a.len()),
        JsonView::Object(m) => distinct_keys(m) && keys_once_members(m, m.len()),
        _ => true,
    }
}

/// `keys_once` holds of the first `n` elements.
pub open spec fn keys_once_elements(a: Seq<JsonView>, n: nat) -> bool
    decreases a, n,
{
    if n == 0 || n > a.len() {
        true
    } else {
        keys_once_elements(a, (n - 1) as nat) && keys_once(a[n - 1])
    }
}

/// `keys_once` holds of the values of the first `n` members.
pub open spec fn keys_once_members(m: Seq<(Seq<char>, JsonView)>, n: nat) -> bool
    decreases m, n,
{
    if n == 0 || n > m.len() {
        true
    } else {
        keys_once_members(m, (n - 1) as nat) && keys_once(m[n - 1].1)
    }
}

/// `keys_once_elements` holds exactly when each of the elements has each key once.
pub proof fn lemma_keys_once_elements(a: Seq<JsonView>, n: nat)
    requires
        n <= a.len(),
    ensures
        keys_once_elements(a, n) <==> forall|i: int| 0 <= i < n ==> #[trigger] keys_once(a[i]),
    decreases n,
{
    if n > 0 {
        lemma_keys_once_elements(a, (n - 1) as nat);
        if forall|i: int| 0 <= i < n ==> #[trigger] keys_once(a[i]) {
            assert(keys_once(a[n - 1]));
        }
    }
}

/// `keys_once_members` holds exactly when each member's value has each key once.
pub proof fn lemma_keys_once_members(m: Seq<(Seq<char>, JsonView)>, n: nat)
    requires
        n <= m.len(),
    ensures
        keys_once_members(m, n) <==> forall|i: int| 0 <= i < n ==> #[trigger] keys_once(m[i].1),
    decreases n,
{
    if n > 0 {
        lemma_keys_once_members(m, (n - 1) as nat);
        if forall|i: int| 0 <= i < n ==> #[trigger] keys_once(m[i].1) {
            assert(keys_once(m[n - 1].1));
        }
    }
}

/// The values of an object made from members are values of those members.
pub proof fn lemma_insert_values(entries: Seq<(Seq<char>, JsonView)>, k: Seq<char>, v: JsonView)
    requires
        forall|i: int| 0 <= i < entries.len() ==> #[trigger] keys_once(entries[i].1),
        keys_once(v),
    ensures
        forall|i: int|
            0 <= i < object_insert(entries, k, v).len() ==> #[trigger] keys_once(object_insert(entries, k, v)[i].1),
    decreases entries.len(),
{
    let r = object_insert(entries, k, v);
    if entries.len() == 0 {
    } else if entries[0].0 == k {
        assert forall|i: int| 0 <= i < r.len() implies #[trigger] keys_once(r[i].1) by {
            if i > 0 {
                assert(r[i] == entries[i]);
            }
        }
    } else {
        let rest = entries.drop_first();
        assert forall|i: int| 0 <= i < rest.len() implies #[trigger] keys_once(rest[i].1) by {
            assert(rest[i] == entries[i + 1]);
        }
        lemma_insert_values(rest, k, v);
        let t = object_insert(rest, k, v);
        assert(r =~= seq![entries[0]] + t);
        assert forall|i: int| 0 <= i < r.len() implies #[trigger] keys_once(r[i].1) by {
            if i > 0 {
                assert(r[i] == t[i - 1]);
            }
        }
    }
}

/// An object made from members whose values have each key once has each key once.
pub proof fn lemma_object_from_pairs_keys_once(pairs: Seq<(Seq<char>, JsonView)>)
    requires
        forall|i: int| 0 <= i < pairs.len() ==> #[trigger] keys_once(pairs[i].1),
    ensures
        keys_once(JsonView::Object(object_from_pairs(pairs))),
    decreases pairs.len(),
{
    let o = object_from_pairs(pairs);
    object_keys_unique_last_wins(pairs);
    lemma_values_from_pairs(pairs);
    lemma_keys_once_members(o, o.len());
}

/// The values of an object made from members whose values have each key once have
/// each key once.
pub proof fn lemma_values_from_pairs(pairs: Seq<(Seq<char>, JsonView)>)
    requires
        forall|i: int| 0 <= i < pairs.len() ==> #[trigger] keys_once(pairs[i].1),
    ensures
        forall|i: int|
            0 <= i < object_from_pairs(pairs).len() ==> #[trigger] keys_once(object_from_pairs(pairs)[i].1),
    decreases pairs.len(),
{
    if pairs.len() > 0 {
        let init = pairs.drop_last();
        assert forall|i: int| 0 <= i < init.len() implies #[trigger] keys_once(init[i].1) by {
            assert(init[i] == pairs[i]);
        }
        lemma_values_from_pairs(init);
        assert(keys_once(pairs.last().1)) by {
            assert(pairs.last() == pairs[pairs.len() - 1]);
        }
        lemma_insert_values(object_from_pairs(init), pairs.last().0, pairs.last().1);
    }
}

/// What a value read at `p` holds.
pub proof fn lemma_value_keys_once(s: Seq<char>, p: int)
    ensures
        spec_value(s, p) matches Ok((_, v)) ==> keys_once(v),
    decreases s.len() - p, 1int,
{
    let t = ws_end(s, p);
    lemma_ws_end(s, p);
    if 0 <= t < s.len() && s[t] == '{' {
        lemma_object_keys_once(s, t);
    } else if 0 <= t < s.len() && s[t] == '[' {
        lemma_array_keys_once(s, t);
    }
}

/// What an element read at `p` holds.
pub proof fn lemma_element_keys_once(s: Seq<char>, p: int)
    ensures
        spec_element(s, p) matches Ok((_, v)) ==> keys_once(v),
    decreases s.len() - p, 2int,
{
    lemma_ws_end(s, p);
    lemma_value_keys_once(s, ws_end(s, p));
}

/// What the elements read at `p` hold.
pub proof fn lemma_elements_keys_once(s: Seq<char>, p: int)
    ensures
        spec_elements(s, p) matches Ok((_, vs)) ==> forall|i: int| 0 <= i < vs.len() ==> #[trigger] keys_once(vs[i]),
    decreases s.len() - p, 3int,
{
    lemma_element_keys_once(s, p);
    match spec_element(s, p) {
        Err(_) => {},
        Ok((r, v)) => if p < r <= s.len() {
            lemma_elements_tail_keys_once(s, r, seq![v]);
        },
    }
}

/// What the further elements read after `r` hold, given those read before.
pub proof fn lemma_elements_tail_keys_once(s: Seq<char>, r: int, acc: Seq<JsonView>)
    requires
        forall|i: int| 0 <= i < acc.len() ==> #[trigger] keys_once(acc[i]),
    ensures
        spec_elements_tail(s, r, acc) matches Ok((_, vs)) ==> forall|i: int| 0 <= i < vs.len() ==> #[trigger] keys_once(vs[i]),
    decreases s.len() - r, 3int,
{
    let t = ws_end(s, r);
    lemma_ws_end(s, r);
    if 0 <= t < s.len() && s[t] == ',' {
        let q = ws_end(s, t + 1);
        lemma_ws_end(s, t + 1);
        lemma_element_keys_once(s, q);
        match spec_element(s, q) {
            Ok((r2, v)) => if r < r2 <= s.len() {
                assert forall|i: int| 0 <= i < acc.push(v).len() implies #[trigger] keys_once(acc.push(v)[i]) by {
                    if i < acc.len() {
                        assert(acc.push(v)[i] == acc[i]);
                    }
                }
                lemma_elements_tail_keys_once(s, r2, acc.push(v));
            },
            Err(_) => {},
        }
    }
}

/// What an array read at `p` holds.
pub proof fn lemma_array_keys_once(s: Seq<char>, p: int)
    ensures
        spec_array(s, p) matches Ok((_, v)) ==> keys_once(v),
    decreases s.len() - p, 0int,
{
    let t = ws_end(s, p);
    lemma_ws_end(s, p);
    if 0 <= t < s.len() && s[t] == '[' {
        let u = ws_end(s, t + 1);
        lemma_ws_end(s, t + 1);
        lemma_elements_keys_once(s, u);
        match spec_elements(s, u) {
            Ok((_, values)) => {
                lemma_keys_once_elements(values, values.len());
            },
            Err(_) => {},
        }
        if u < s.len() && s[u] == ']' {
            lemma_keys_once_elements(Seq::<JsonView>::empty(), 0);
        }
    }
}

/// What a member read at `p` holds.
pub proof fn lemma_member_keys_once(s: Seq<char>, p: int)
    ensures
        spec_member(s, p) matches Ok((_, kv)) ==> keys_once(kv.1),
    decreases s.len() - p, 2int,
{
    let t = ws_end(s, p);
    lemma_ws_end(s, p);
    match spec_string(s, t) {
        Err(_) => {},
        Ok((k, _)) => {
            let u = ws_end(s, k);
            lemma_string_advances(s, t);
            lemma_ws_end(s, k);
            if 0 <= u < s.len() && s[u] == ':' {
                lemma_ws_end(s, u + 1);
                lemma_element_keys_once(s, ws_end(s, u + 1));
            }
        },
    }
}

/// What the members read at `p` hold.
pub proof fn lemma_members_keys_once(s: Seq<char>, p: int)
    ensures
        spec_members(s, p) matches Ok((_, ms)) ==> forall|i: int| 0 <= i < ms.len() ==> #[trigger] keys_once(ms[i].1),
    decreases s.len() - p, 3int,
{
    lemma_member_keys_once(s, p);
    match spec_member(s, p) {
        Err(_) => {},
        Ok((r, kv)) => if p < r <= s.len() {
            lemma_members_tail_keys_once(s, r, seq![kv]);
        },
    }
}

/// What the further members read after `r` hold, given those read before.
pub proof fn lemma_members_tail_keys_once(s: Seq<char>, r: int, acc: Seq<(Seq<char>, JsonView)>)
    requires
        forall|i: int| 0 <= i < acc.len() ==> #[trigger] keys_once(acc[i].1),
    ensures
        spec_members_tail(s, r, acc) matches Ok((_, ms)) ==> forall|i: int| 0 <= i < ms.len() ==> #[trigger] keys_once(ms[i].1),
    decreases s.len() - r, 3int,
{
    let t = ws_end(s, r);
    lemma_ws_end(s, r);
    if 0 <= t < s.len() && s[t] == ',' {
        let q = ws_end(s, t + 1);
        lemma_ws_end(s, t + 1);
        lemma_member_keys_once(s, q);
        match spec_member(s, q) {
            Ok((r2, kv)) => if r < r2 <= s.len() {
                assert forall|i: int| 0 <= i < acc.push(kv).len() implies #[trigger] keys_once(acc.push(kv)[i].1) by {
                    if i < acc.len() {
                        assert(acc.push(kv)[i] == acc[i]);
                    }
                }
                lemma_members_tail_keys_once(s, r2, acc.push(kv));
            },
            Err(_) => {},
        }
    }
}

/// What an object read at `p` holds.
pub proof fn lemma_object_keys_once(s: Seq<char>, p: int)
    ensures
        spec_object(s, p) matches Ok((_, v)) ==> keys_once(v),
    decreases s.len() - p, 0int,
{
    let t = ws_end(s, p);
    lemma_ws_end(s, p);
    if 0 <= t < s.len() && s[t] == '{' {
        let u = ws_end(s, t + 1);
        lemma_ws_end(s, t + 1);
        lemma_members_keys_once(s, u);
        match spec_members(s, u) {
            Ok((_, pairs)) => {
                lemma_object_from_pairs_keys_once(pairs);
            },
            Err(_) => {},
        }
        if u < s.len() && s[u] == '}' {
            lemma_keys_once_members(Seq::<(Seq<char>, JsonView)>::empty(), 0);
        }
    }
}

/// Every object in a value that the parser returns, at any depth, has each key once.
pub proof fn parsed_values_have_keys_once(s: Seq<char>)
    ensures
        spec_parse(s) matches Ok(v) ==> keys_once(v),
{
    lemma_element_keys_once(s, 0);
}

/// The value that a key finds is the value of a member with that key.
pub proof fn lemma_lookup_value(m: Seq<(Seq<char>, JsonView)>, k: Seq<char>) -> (j: int)
    requires
        lookup(m, k) is Some,
    ensures
        0 <= j < m.len(),
        m[j] == (k, lookup(m, k)->0),
    decreases m.len(),
{
    if m[0].0 == k {
        0
    } else {
        let j = lemma_lookup_value(m.drop_first(), k);
        j + 1
    }
}

/// What a filter selects in a value whose objects have each key once has each key once
/// too.
pub proof fn selected_values_keep_keys_once(v: JsonView, segs: Seq<SegmentView>)
    requires
        keys_once(v),
    ensures
        keys_once(spec_apply(v, segs)),
    decreases segs.len(),
{
    if segs.len() > 0 {
        match segs[0] {
            SegmentView::Identity => {
                selected_values_keep_keys_once(v, segs.drop_first());
            },
            SegmentView::Field(k) => match v {
                JsonView::Object(m) => match lookup(m, k) {
                    Some(x) => {
                        let j = lemma_lookup_value(m, k);
                        lemma_keys_once_members(m, m.len());
                        assert(keys_once(m[j].1));
                        selected_values_keep_keys_once(x, segs.drop_first());
                    },
                    None => {},
                },
                _ => {},
            },
            SegmentView::Index(i) => match v {
                JsonView::Array(a) => if i < a.len() {
                    lemma_keys_once_elements(a, a.len());
                    assert(keys_once(a[i as int]));
                    selected_values_keep_keys_once(a[i as int], segs.drop_first());
                },
                _ => {},
            },
        }
    }
}

} // verus!
