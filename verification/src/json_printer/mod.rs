//! Writing JSON values as text, compact or pretty.
//!
//! A printer writes a sequence of [`OutputItem`]s: characters, and numbers, which are
//! written out as the decimal form of their floating-point value by the caller.

pub mod compact_printer;
pub mod pretty_printer;
pub mod round_trip;
pub mod pretty_round_trip;
pub mod sorted_round_trip;
pub mod layout;
pub mod utils;

use vstd::prelude::*;
use crate::json_parser::{JSONValue, JsonNumber, JsonView, NumberView, members_model};
use crate::json_printer::compact_printer::{CompactPrinter, spec_compact};
use crate::json_printer::pretty_printer::{PrettyPrinter, spec_pretty};
use crate::text::chars_of;

verus! {

/// One piece of printed output.
pub enum OutputItem {
    /// A character of the output.
    Char(char),
    /// A number, to be written as its floating-point value.
    Number(JsonNumber),
}

/// The model of an [`OutputItem`]; a character is modelled by its scalar value.
pub enum OutView {
    Char(u32),
    Number(NumberView),
}

impl View for OutputItem {
    type V = OutView;

    open spec fn view(&self) -> OutView {
        match self {
            OutputItem::Char(c) => OutView::Char(*c as u32),
            OutputItem::Number(n) => OutView::Number(n@),
        }
    }
}

/// The models of a sequence of output items.
pub open spec fn out_model(v: Seq<OutputItem>) -> Seq<OutView> {
    Seq::new(v.len(), |i: int| v[i]@)
}

/// Plain text as output.
pub open spec fn out_text(t: Seq<char>) -> Seq<OutView> {
    t.map_values(|c: char| OutView::Char(c as u32))
}

/// How values are printed: compact or pretty, with sorted keys or not, indented by
/// tabs or by two spaces.
#[derive(Default)]
pub struct PrintOptions {
    pub compact: bool,
    pub sort_keys: bool,
    pub use_tabs: bool,
}

/// Appends one character to `out`.
pub fn push_item_char(out: &mut Vec<OutputItem>, c: char)
    ensures
        out_model(final(out)@) == out_model(old(out)@) + seq![OutView::Char(c as u32)],
{
    out.push(OutputItem::Char(c));
    assert(out_model(out@) =~= out_model(old(out)@) + seq![OutView::Char(c as u32)]);
}

/// Appends the characters of `t` to `out`.
pub fn push_text(out: &mut Vec<OutputItem>, t: &str)
    ensures
        out_model(final(out)@) == out_model(old(out)@) + out_text(t@),
{
    let cs = chars_of(t);
    let mut i: usize = 0;
    proof {
        lemma_text_concat(Seq::empty(), Seq::empty());
        assert(cs@.take(0) =~= Seq::<char>::empty());
        assert(out_text(Seq::<char>::empty()) =~= Seq::<OutView>::empty());
        assert(out_model(out@) + out_text(cs@.take(0)) =~= out_model(out@));
    }
    while i < cs.len()
        invariant
            i <= cs@.len(),
            cs@ == t@,
            out_model(out@) == out_model(old(out)@) + out_text(cs@.take(i as int)),
        decreases cs@.len() - i,
    {
        let c = cs[i];
        push_item_char(out, c);
        proof {
            assert(out_text(seq![c]) =~= seq![OutView::Char(c as u32)]);
            lemma_text_concat(cs@.take(i as int), seq![c]);
            assert(cs@.take(i + 1) =~= cs@.take(i as int) + seq![c]);
        }
        i = i + 1;
    }
    assert(cs@.take(cs@.len() as int) =~= cs@);
}

/// Appends the characters of `s` to `out`.
pub fn push_string(out: &mut Vec<OutputItem>, s: &String)
    ensures
        out_model(final(out)@) == out_model(old(out)@) + out_text(s@),
{
    push_text(out, s.as_str());
}

/// Text concatenates as output.
pub proof fn lemma_text_concat(a: Seq<char>, b: Seq<char>)
    ensures
        out_text(a + b) == out_text(a) + out_text(b),
{
    assert(out_text(a + b) =~= out_text(a) + out_text(b));
}

// ---------------------------------------------------------------------------
// Key order
// ---------------------------------------------------------------------------

/// `a` comes strictly before `b`: the order of `String`, which compares UTF-8 bytes
/// and so the characters' scalar values, position by position.
pub open spec fn key_less(a: Seq<char>, b: Seq<char>) -> bool
    decreases a.len(),
{
    if b.len() == 0 {
        false
    } else if a.len() == 0 {
        true
    } else if a[0] != b[0] {
        (a[0] as u32) < (b[0] as u32)
    } else {
        key_less(a.drop_first(), b.drop_first())
    }
}

/// The keys of an object's members.
pub open spec fn keys_of(m: Seq<(Seq<char>, JsonView)>) -> Seq<Seq<char>> {
    Seq::new(m.len(), |i: int| m[i].0)
}

/// Inserts index `i` into `order` before the first index whose key is greater.
pub open spec fn insert_sorted(order: Seq<int>, keys: Seq<Seq<char>>, i: int) -> Seq<int>
    decreases order.len(),
{
    if order.len() == 0 {
        seq![i]
    } else if key_less(keys[i], keys[order[0]]) {
        seq![i] + order
    } else {
        seq![order[0]] + insert_sorted(order.drop_first(), keys, i)
    }
}

/// The indices `0..n` ordered by their keys; equal keys keep their order.
pub open spec fn sorted_order(keys: Seq<Seq<char>>, n: nat) -> Seq<int>
    decreases n,
{
    if n == 0 {
        Seq::empty()
    } else {
        insert_sorted(sorted_order(keys, (n - 1) as nat), keys, n - 1)
    }
}

/// The order in which an object's members are printed: by key when `sort` holds, as
/// stored otherwise.
pub open spec fn key_order(m: Seq<(Seq<char>, JsonView)>, sort: bool) -> Seq<int> {
    if sort {
        sorted_order(keys_of(m), m.len())
    } else {
        Seq::new(m.len(), |i: int| i)
    }
}

/// Whether `a` comes strictly before `b`, as `String`'s order says.
pub fn key_is_less(a: &String, b: &String) -> (r: bool)
    ensures
        r == key_less(a@, b@),
{
    let x = chars_of(a.as_str());
    let y = chars_of(b.as_str());
    let mut i: usize = 0;
    assert(x@.skip(0) =~= x@ && y@.skip(0) =~= y@);
    while i < x.len() && i < y.len()
        invariant
            i <= x@.len(),
            i <= y@.len(),
            x@ == a@,
            y@ == b@,
            key_less(a@, b@) == key_less(x@.skip(i as int), y@.skip(i as int)),
        decreases x@.len() - i,
    {
        assert(x@.skip(i as int)[0] == x@[i as int] && y@.skip(i as int)[0] == y@[i as int]);
        if x[i] != y[i] {
            return (x[i] as u32) < (y[i] as u32);
        }
        assert(x@.skip(i as int).drop_first() =~= x@.skip(i + 1));
        assert(y@.skip(i as int).drop_first() =~= y@.skip(i + 1));
        i = i + 1;
    }
    i < y.len()
}

/// `insert_sorted` puts `i` before the first index whose key is greater.
pub proof fn lemma_insert_sorted_at(order: Seq<int>, keys: Seq<Seq<char>>, i: int, j: int)
    requires
        0 <= j <= order.len(),
        j < order.len() ==> key_less(keys[i], keys[order[j]]),
        forall|k: int| 0 <= k < j ==> !key_less(keys[i], keys[#[trigger] order[k]]),
    ensures
        insert_sorted(order, keys, i) == order.take(j) + seq![i] + order.skip(j),
    decreases order.len(),
{
    if order.len() == 0 {
        assert(order.take(j) + seq![i] + order.skip(j) =~= seq![i]);
    } else if j == 0 {
        assert(order.take(j) + seq![i] + order.skip(j) =~= seq![i] + order);
    } else {
        assert(!key_less(keys[i], keys[order[0]]));
        let rest = order.drop_first();
        assert forall|k: int| 0 <= k < j - 1 implies !key_less(keys[i], keys[#[trigger] rest[k]]) by {
            assert(rest[k] == order[k + 1]);
        }
        lemma_insert_sorted_at(rest, keys, i, j - 1);
        assert(seq![order[0]] + (rest.take(j - 1) + seq![i] + rest.skip(j - 1)) =~= order.take(j)
            + seq![i] + order.skip(j));
    }
}

/// Inserting one index makes the order one longer.
pub proof fn lemma_insert_sorted_len(order: Seq<int>, keys: Seq<Seq<char>>, i: int)
    ensures
        insert_sorted(order, keys, i).len() == order.len() + 1,
    decreases order.len(),
{
    if order.len() > 0 && !key_less(keys[i], keys[order[0]]) {
        lemma_insert_sorted_len(order.drop_first(), keys, i);
    }
}

/// An object's print order lists one index per member.
pub proof fn lemma_key_order_len(m: Seq<(Seq<char>, JsonView)>, sort: bool)
    ensures
        key_order(m, sort).len() == m.len(),
{
    if sort {
        lemma_sorted_order_len(keys_of(m), m.len());
    }
}

/// `sorted_order(keys, n)` holds `n` indices.
pub proof fn lemma_sorted_order_len(keys: Seq<Seq<char>>, n: nat)
    ensures
        sorted_order(keys, n).len() == n,
    decreases n,
{
    if n > 0 {
        lemma_sorted_order_len(keys, (n - 1) as nat);
        lemma_insert_sorted_len(sorted_order(keys, (n - 1) as nat), keys, n - 1);
    }
}

/// `key_less` never holds both ways.
pub proof fn lemma_key_less_asymmetric(a: Seq<char>, b: Seq<char>)
    ensures
        key_less(a, b) ==> !key_less(b, a),
    decreases a.len(),
{
    if a.len() > 0 && b.len() > 0 && a[0] == b[0] {
        lemma_key_less_asymmetric(a.drop_first(), b.drop_first());
    }
}

/// `key_less` is transitive.
pub proof fn lemma_key_less_transitive(a: Seq<char>, b: Seq<char>, c: Seq<char>)
    requires
        key_less(a, b),
        key_less(b, c),
    ensures
        key_less(a, c),
    decreases a.len(),
{
    if a.len() > 0 && a[0] == b[0] && b[0] == c[0] {
        lemma_key_less_transitive(a.drop_first(), b.drop_first(), c.drop_first());
    }
}

/// The indices of `ord` list their keys in order: no later key is less than an
/// earlier one.
pub open spec fn keys_in_order(ord: Seq<int>, keys: Seq<Seq<char>>) -> bool {
    forall|p: int, q: int|
        #![trigger ord[p], ord[q]]
        0 <= p < q < ord.len() ==> !key_less(keys[ord[q]], keys[ord[p]])
}

/// Inserting into an ordered sequence keeps it ordered, and adds exactly the new index.
pub proof fn lemma_insert_sorted_keeps_order(order: Seq<int>, keys: Seq<Seq<char>>, i: int)
    requires
        keys_in_order(order, keys),
    ensures
        keys_in_order(insert_sorted(order, keys, i), keys),
        insert_sorted(order, keys, i).len() == order.len() + 1,
        forall|x: int| #[trigger] insert_sorted(order, keys, i).contains(x) <==> (x == i || order.contains(x)),
        order.no_duplicates() && !order.contains(i) ==> insert_sorted(order, keys, i).no_duplicates(),
    decreases order.len(),
{
    let r = insert_sorted(order, keys, i);
    if order.len() == 0 {
        assert(r =~= seq![i]);
        assert forall|x: int| #[trigger] r.contains(x) <==> (x == i || order.contains(x)) by {
            if x == i {
                assert(r[0] == i);
            }
        }
    } else if key_less(keys[i], keys[order[0]]) {
        assert(r =~= seq![i] + order);
        assert forall|p: int, q: int| #![trigger r[p], r[q]] 0 <= p < q < r.len() implies !key_less(keys[r[q]], keys[r[p]]) by {
            assert(r[q] == order[q - 1]);
            if p == 0 {
                lemma_key_less_asymmetric(keys[i], keys[order[0]]);
                if q - 1 > 0 {
                    assert(!key_less(keys[order[q - 1]], keys[order[0]]));
                    if key_less(keys[order[q - 1]], keys[i]) {
                        lemma_key_less_transitive(keys[order[q - 1]], keys[i], keys[order[0]]);
                    }
                }
            } else {
                assert(r[p] == order[p - 1]);
            }
        }
        assert forall|x: int| #[trigger] r.contains(x) <==> (x == i || order.contains(x)) by {
            if x == i {
                assert(r[0] == i);
            }
            if order.contains(x) {
                let w = choose|w: int| 0 <= w < order.len() && order[w] == x;
                assert(r[w + 1] == x);
            }
            if r.contains(x) && x != i {
                let w = choose|w: int| 0 <= w < r.len() && r[w] == x;
                assert(order[w - 1] == x);
            }
        }
        if order.no_duplicates() && !order.contains(i) {
            assert forall|p: int, q: int| 0 <= p < q < r.len() implies r[p] != r[q] by {
                if p == 0 {
                    assert(order[q - 1] == r[q]);
                } else {
                    assert(order[p - 1] == r[p] && order[q - 1] == r[q]);
                }
            }
        }
    } else {
        let rest = order.drop_first();
        assert(keys_in_order(rest, keys)) by {
            assert forall|p: int, q: int| #![trigger rest[p], rest[q]] 0 <= p < q < rest.len() implies !key_less(keys[rest[q]], keys[rest[p]]) by {
                assert(rest[p] == order[p + 1] && rest[q] == order[q + 1]);
            }
        }
        lemma_insert_sorted_keeps_order(rest, keys, i);
        let t = insert_sorted(rest, keys, i);
        assert(r =~= seq![order[0]] + t);
        assert forall|p: int, q: int| #![trigger r[p], r[q]] 0 <= p < q < r.len() implies !key_less(keys[r[q]], keys[r[p]]) by {
            assert(r[q] == t[q - 1]);
            if p == 0 {
                assert(t.contains(t[q - 1]));
                if t[q - 1] != i {
                    assert(rest.contains(t[q - 1]));
                    let w = choose|w: int| 0 <= w < rest.len() && rest[w] == t[q - 1];
                    assert(order[w + 1] == rest[w]);
                }
            } else {
                assert(r[p] == t[p - 1]);
            }
        }
        assert forall|x: int| #[trigger] r.contains(x) <==> (x == i || order.contains(x)) by {
            if x == order[0] {
                assert(r[0] == x);
                assert(order[0] == x);
            }
            if t.contains(x) {
                let w = choose|w: int| 0 <= w < t.len() && t[w] == x;
                assert(r[w + 1] == x);
            }
            if r.contains(x) {
                let w = choose|w: int| 0 <= w < r.len() && r[w] == x;
                if w > 0 {
                    assert(t[w - 1] == x);
                }
            }
            if rest.contains(x) {
                let w = choose|w: int| 0 <= w < rest.len() && rest[w] == x;
                assert(order[w + 1] == x);
            }
            if order.contains(x) && x != order[0] {
                let w = choose|w: int| 0 <= w < order.len() && order[w] == x;
                assert(rest[w - 1] == x);
            }
        }
        if order.no_duplicates() && !order.contains(i) {
            assert(rest.no_duplicates()) by {
                assert forall|p: int, q: int| 0 <= p < q < rest.len() implies rest[p] != rest[q] by {
                    assert(rest[p] == order[p + 1] && rest[q] == order[q + 1]);
                }
            }
            assert(!rest.contains(i)) by {
                if rest.contains(i) {
                    let w = choose|w: int| 0 <= w < rest.len() && rest[w] == i;
                    assert(order[w + 1] == i);
                }
            }
            assert(!t.contains(order[0])) by {
                assert(order[0] != i) by {
                    assert(order.contains(order[0]));
                }
                if rest.contains(order[0]) {
                    let w = choose|w: int| 0 <= w < rest.len() && rest[w] == order[0];
                    assert(order[w + 1] == order[0]);
                }
            }
            assert forall|p: int, q: int| 0 <= p < q < r.len() implies r[p] != r[q] by {
                if p == 0 {
                    assert(r[q] == t[q - 1]);
                    assert(t.contains(t[q - 1]));
                } else {
                    assert(r[p] == t[p - 1] && r[q] == t[q - 1]);
                }
            }
        }
    }
}

/// `sorted_order(keys, n)` lists each of the indices `0..n` once, in key order.
pub proof fn lemma_sorted_order(keys: Seq<Seq<char>>, n: nat)
    ensures
        sorted_order(keys, n).len() == n,
        keys_in_order(sorted_order(keys, n), keys),
        sorted_order(keys, n).no_duplicates(),
        forall|x: int| #[trigger] sorted_order(keys, n).contains(x) <==> 0 <= x < n,
    decreases n,
{
    if n == 0 {
        assert forall|x: int| #[trigger] sorted_order(keys, n).contains(x) <==> 0 <= x < n by {}
    } else {
        let prev = sorted_order(keys, (n - 1) as nat);
        lemma_sorted_order(keys, (n - 1) as nat);
        lemma_insert_sorted_keeps_order(prev, keys, n - 1);
    }
}

/// With sorting on, an object's members are printed each exactly once, in the order
/// of their keys.
pub proof fn sorted_members_print_in_key_order(m: Seq<(Seq<char>, JsonView)>)
    ensures
        key_order(m, true).len() == m.len(),
        key_order(m, true).no_duplicates(),
        forall|k: int| 0 <= k < m.len() <==> #[trigger] key_order(m, true).contains(k),
        forall|p: int, q: int|
            #![trigger key_order(m, true)[p], key_order(m, true)[q]]
            0 <= p < q < m.len() ==> !key_less(m[key_order(m, true)[q]].0, m[key_order(m, true)[p]].0),
{
    let keys = keys_of(m);
    let ord = key_order(m, true);
    lemma_sorted_order(keys, m.len());
    assert forall|p: int, q: int|
        #![trigger ord[p], ord[q]]
        0 <= p < q < m.len() implies !key_less(m[ord[q]].0, m[ord[p]].0) by {
        assert(ord.contains(ord[p]) && ord.contains(ord[q]));
        assert(keys[ord[p]] == m[ord[p]].0 && keys[ord[q]] == m[ord[q]].0);
    }
}

/// With sorting off, an object's members are printed in the order they are stored.
pub proof fn unsorted_members_print_in_stored_order(m: Seq<(Seq<char>, JsonView)>)
    ensures
        key_order(m, false) == Seq::new(m.len(), |k: int| k),
{
}

/// The order in which the members of `obj` are printed, as indices.
pub fn object_key_order(obj: &Vec<(String, JSONValue)>, sort_keys: bool) -> (order: Vec<usize>)
    ensures
        order@.len() == obj@.len(),
        key_order(members_model(obj@), sort_keys).len() == obj@.len(),
        forall|k: int| 0 <= k < order@.len() ==> (#[trigger] order@[k] as int) == key_order(
            members_model(obj@),
            sort_keys,
        )[k],
        forall|k: int| 0 <= k < order@.len() ==> #[trigger] order@[k] < obj@.len(),
{
    let ghost m = members_model(obj@);
    let ghost keys = keys_of(m);
    let mut order: Vec<usize> = Vec::new();
    if !sort_keys {
        let mut i: usize = 0;
        while i < obj.len()
            invariant
                i <= obj@.len(),
                order@.len() == i,
                forall|k: int| 0 <= k < i ==> #[trigger] order@[k] == k,
            decreases obj@.len() - i,
        {
            order.push(i);
            i = i + 1;
        }
        return order;
    }
    let mut i: usize = 0;
    while i < obj.len()
        invariant
            i <= obj@.len(),
            m == members_model(obj@),
            keys == keys_of(m),
            order@.len() == i,
            forall|k: int| 0 <= k < i ==> #[trigger] order@[k] < i,
            forall|k: int| 0 <= k < i ==> (#[trigger] order@[k] as int) == sorted_order(
                keys,
                i as nat,
            )[k],
            sorted_order(keys, i as nat).len() == i,
        decreases obj@.len() - i,
    {
        let ghost prev = sorted_order(keys, i as nat);
        let mut j: usize = 0;
        while j < order.len() && !key_is_less(&obj[i].0, &obj[order[j]].0)
            invariant
                j <= order@.len(),
                i < obj@.len(),
                order@.len() == i,
                m == members_model(obj@),
                keys == keys_of(m),
                forall|k: int| 0 <= k < i ==> #[trigger] order@[k] < i,
                forall|k: int| 0 <= k < i ==> (#[trigger] order@[k] as int) == prev[k],
                forall|k: int| 0 <= k < j ==> !key_less(keys[i as int], keys[#[trigger] prev[k]]),
            decreases order@.len() - j,
        {
            j = j + 1;
        }
        proof {
            if j < order@.len() {
                assert(keys[order@[j as int] as int] == obj@[order@[j as int] as int].0@);
            }
            lemma_insert_sorted_at(prev, keys, i as int, j as int);
        }
        let ghost old_order = order@;
        order.insert(j, i);
        assert forall|k: int| 0 <= k < i + 1 implies (#[trigger] order@[k] as int) == sorted_order(
            keys,
            (i + 1) as nat,
        )[k] by {
            assert(sorted_order(keys, (i + 1) as nat) == insert_sorted(prev, keys, i as int));
            if k < j {
                assert(order@[k] == old_order[k]);
            } else if k > j {
                assert(order@[k] == old_order[k - 1]);
            }
        }
        assert forall|k: int| 0 <= k < i + 1 implies #[trigger] order@[k] < i + 1 by {
            if k < j {
                assert(order@[k] == old_order[k]);
            } else if k > j {
                assert(order@[k] == old_order[k - 1]);
            }
        }
        i = i + 1;
    }
    order
}

// ---------------------------------------------------------------------------
// Printing a value
// ---------------------------------------------------------------------------

/// How deeply arrays and objects nest in a value.
pub open spec fn depth(v: JsonView) -> nat
    decreases v, 0nat,
{
    match v {
        JsonView::Array(a) => 1 + depth_of_elements(a, a.len()),
        JsonView::Object(m) => 1 + depth_of_members(m, m.len()),
        _ => 0,
    }
}

/// The greatest depth among the first `n` elements.
pub open spec fn depth_of_elements(a: Seq<JsonView>, n: nat) -> nat
    decreases a, n,
{
    if n == 0 || n > a.len() {
        0
    } else {
        let d = depth(a[n - 1]);
        let e = depth_of_elements(a, (n - 1) as nat);
        if d > e {
            d
        } else {
            e
        }
    }
}

/// The greatest depth among the values of the first `n` members.
pub open spec fn depth_of_members(m: Seq<(Seq<char>, JsonView)>, n: nat) -> nat
    decreases m, n,
{
    if n == 0 || n > m.len() {
        0
    } else {
        let d = depth(m[n - 1].1);
        let e = depth_of_members(m, (n - 1) as nat);
        if d > e {
            d
        } else {
            e
        }
    }
}

/// An element is no deeper than the elements it is counted among.
pub proof fn lemma_depth_of_elements(a: Seq<JsonView>, n: nat, i: int)
    requires
        0 <= i < n <= a.len(),
    ensures
        depth(a[i]) <= depth_of_elements(a, n),
    decreases n,
{
    if i < n - 1 {
        lemma_depth_of_elements(a, (n - 1) as nat, i);
    }
}

/// A member's value is no deeper than the members it is counted among.
pub proof fn lemma_depth_of_members(m: Seq<(Seq<char>, JsonView)>, n: nat, i: int)
    requires
        0 <= i < n <= m.len(),
    ensures
        depth(m[i].1) <= depth_of_members(m, n),
    decreases n,
{
    if i < n - 1 {
        lemma_depth_of_members(m, (n - 1) as nat, i);
    }
}

/// The whole output for `value` at indentation level `indent`: compact or pretty as the
/// options say, followed by a line break at the top level.
pub open spec fn spec_format(value: JsonView, indent: nat, options_compact: bool, sort: bool, tabs: bool) -> Seq<OutView> {
    let body = if options_compact {
        spec_compact(value, sort)
    } else {
        spec_pretty(value, sort, tabs, indent)
    };
    if indent == 0 {
        body + out_text("\n"@)
    } else {
        body
    }
}

/// What printing a value writes is the output of the chosen printer, compact or pretty,
/// followed by a line break when the value is printed at the top level.
pub proof fn format_is_printer_output_and_line_break(value: JsonView, indent: nat, compact: bool, sort: bool, tabs: bool)
    ensures
        spec_format(value, indent, compact, sort, tabs) == (if compact {
            spec_compact(value, sort)
        } else {
            spec_pretty(value, sort, tabs, indent)
        }) + (if indent == 0 {
            out_text("\n"@)
        } else {
            Seq::empty()
        }),
{
    let body = if compact {
        spec_compact(value, sort)
    } else {
        spec_pretty(value, sort, tabs, indent)
    };
    if indent != 0 {
        assert(body + Seq::<OutView>::empty() =~= body);
    }
}

/// What printing `value` at indentation level `indent` writes.
pub fn format_json_value(value: &JSONValue, indent: usize, options: &PrintOptions) -> (out: Vec<
    OutputItem,
>)
    requires
        indent + depth(value@) <= usize::MAX,
    ensures
        out_model(out@) == spec_format(
            value@,
            indent as nat,
            options.compact,
            options.sort_keys,
            options.use_tabs,
        ),
{
    let mut out = if options.compact {
        let printer = CompactPrinter { sort_keys: options.sort_keys };
        printer.print_value(value, indent)
    } else {
        let printer = PrettyPrinter { sort_keys: options.sort_keys, use_tabs: options.use_tabs };
        printer.print_value(value, indent)
    };
    if indent == 0 {
        push_text(&mut out, "\n");
    }
    out
}

} // verus!
