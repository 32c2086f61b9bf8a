//! Sorted output read back: printing with sorted keys prints the value whose objects
//! have their members in key order, and that value is what the parser reads back.

use vstd::prelude::*;
use crate::json_parser::{JSONParseError, JsonView, spec_parse};
use crate::json_printer::{key_order, lemma_key_order_len, lemma_sorted_order, keys_of, out_text, spec_format};
use crate::json_printer::compact_printer::{spec_compact, spec_compact_elements, spec_compact_members};
use crate::json_printer::pretty_printer::{
    pretty_element_line,
    pretty_member_line,
    spec_pretty,
    spec_pretty_elements,
    spec_pretty_members,
};
use crate::json_printer::pretty_round_trip::printed_value_reads_back;
use crate::json_printer::round_trip::{out_chars, printable, printable_elements, printable_members};
use crate::json_value_filter::distinct_keys;

verus! {

/// `v` with the members of each of its objects, at any depth, put in the order of their
/// keys.
pub open spec fn sort_value(v: JsonView) -> JsonView
    decreases v,
{
    match v {
        JsonView::Array(a) => JsonView::Array(
            Seq::new(
                a.len(),
                |i: int|
                    if 0 <= i < a.len() {
                        sort_value(a[i])
                    } else {
                        JsonView::Null
                    },
            ),
        ),
        JsonView::Object(m) => {
            let ord = key_order(m, true);
            JsonView::Object(
                Seq::new(
                    m.len(),
                    |i: int|
                        if 0 <= i < ord.len() && 0 <= ord[i] < m.len() {
                            (m[ord[i]].0, sort_value(m[ord[i]].1))
                        } else {
                            (Seq::empty(), JsonView::Null)
                        },
                ),
            )
        },
        _ => v,
    }
}

/// The positions that sorting puts in order are positions of members.
pub proof fn lemma_sorted_positions(m: Seq<(Seq<char>, JsonView)>)
    ensures
        key_order(m, true).len() == m.len(),
        key_order(m, true).no_duplicates(),
        forall|i: int| 0 <= i < m.len() ==> 0 <= #[trigger] key_order(m, true)[i] < m.len(),
{
    lemma_sorted_order(keys_of(m), m.len());
    assert forall|i: int| 0 <= i < m.len() implies 0 <= #[trigger] key_order(m, true)[i] < m.len() by {
        assert(key_order(m, true).contains(key_order(m, true)[i]));
    }
}

/// Printing elements compactly with sorted keys prints the sorted elements.
pub proof fn lemma_sorted_compact_elements(a: Seq<JsonView>, n: nat)
    requires
        n <= a.len(),
    ensures
        spec_compact_elements(a, true, n) == spec_compact_elements(
            sort_value(JsonView::Array(a))->Array_0,
            false,
            n,
        ),
    decreases a, n,
{
    if n > 0 {
        lemma_sorted_compact_elements(a, (n - 1) as nat);
        lemma_sorted_compact(a[n - 1]);
        assert(sort_value(JsonView::Array(a))->Array_0[n - 1] == sort_value(a[n - 1]));
    }
}

/// Printing members compactly with sorted keys prints the sorted members.
pub proof fn lemma_sorted_compact_members(m: Seq<(Seq<char>, JsonView)>, n: nat)
    requires
        n <= m.len(),
    ensures
        ({
            let s = sort_value(JsonView::Object(m))->Object_0;
            spec_compact_members(m, key_order(m, true), true, n) == spec_compact_members(
                s,
                key_order(s, false),
                false,
                n,
            )
        }),
    decreases m, n,
{
    let s = sort_value(JsonView::Object(m))->Object_0;
    let ord = key_order(m, true);
    lemma_sorted_positions(m);
    if n > 0 {
        lemma_sorted_compact_members(m, (n - 1) as nat);
        let k = ord[n - 1];
        assert(0 <= k < m.len());
        assert(s[n - 1] == (m[k].0, sort_value(m[k].1)));
        assert(key_order(s, false)[n - 1] == n - 1);
        lemma_sorted_compact(m[k].1);
    }
}

/// Printing compactly with sorted keys prints the sorted value.
pub proof fn lemma_sorted_compact(v: JsonView)
    ensures
        spec_compact(v, true) == spec_compact(sort_value(v), false),
    decreases v,
{
    match v {
        JsonView::Array(a) => {
            lemma_sorted_compact_elements(a, a.len());
        },
        JsonView::Object(m) => {
            lemma_sorted_positions(m);
            let s = sort_value(v)->Object_0;
            lemma_key_order_len(s, false);
            lemma_sorted_compact_members(m, m.len());
        },
        _ => {},
    }
}

/// Printing elements pretty with sorted keys prints the sorted elements.
pub proof fn lemma_sorted_pretty_elements(a: Seq<JsonView>, tabs: bool, d: nat, n: nat)
    requires
        n <= a.len(),
    ensures
        spec_pretty_elements(a, true, tabs, d, n) == spec_pretty_elements(
            sort_value(JsonView::Array(a))->Array_0,
            false,
            tabs,
            d,
            n,
        ),
    decreases a, n,
{
    if n > 0 {
        lemma_sorted_pretty_elements(a, tabs, d, (n - 1) as nat);
        lemma_sorted_pretty(a[n - 1], tabs, d + 1);
        let b = sort_value(JsonView::Array(a))->Array_0;
        assert(b[n - 1] == sort_value(a[n - 1]));
        assert(pretty_element_line(a[n - 1], true, tabs, d + 1, n < a.len()) == pretty_element_line(
            b[n - 1],
            false,
            tabs,
            d + 1,
            n < b.len(),
        ));
    }
}

/// Printing members pretty with sorted keys prints the sorted members.
pub proof fn lemma_sorted_pretty_members(m: Seq<(Seq<char>, JsonView)>, tabs: bool, d: nat, n: nat)
    requires
        n <= m.len(),
    ensures
        ({
            let s = sort_value(JsonView::Object(m))->Object_0;
            spec_pretty_members(m, key_order(m, true), true, tabs, d, n) == spec_pretty_members(
                s,
                key_order(s, false),
                false,
                tabs,
                d,
                n,
            )
        }),
    decreases m, n,
{
    let s = sort_value(JsonView::Object(m))->Object_0;
    let ord = key_order(m, true);
    lemma_sorted_positions(m);
    if n > 0 {
        lemma_sorted_pretty_members(m, tabs, d, (n - 1) as nat);
        let k = ord[n - 1];
        assert(0 <= k < m.len());
        assert(s[n - 1] == (m[k].0, sort_value(m[k].1)));
        assert(key_order(s, false)[n - 1] == n - 1);
        lemma_sorted_pretty(m[k].1, tabs, d + 1);
        lemma_key_order_len(s, false);
        assert(pretty_member_line(m[k].0, m[k].1, true, tabs, d + 1, n < ord.len()) == pretty_member_line(
            s[n - 1].0,
            s[n - 1].1,
            false,
            tabs,
            d + 1,
            n < key_order(s, false).len(),
        ));
    }
}

/// Printing pretty with sorted keys prints the sorted value.
pub proof fn lemma_sorted_pretty(v: JsonView, tabs: bool, d: nat)
    ensures
        spec_pretty(v, true, tabs, d) == spec_pretty(sort_value(v), false, tabs, d),
    decreases v,
{
    match v {
        JsonView::Array(a) => {
            lemma_sorted_pretty_elements(a, tabs, d, a.len());
        },
        JsonView::Object(m) => {
            lemma_sorted_positions(m);
            let s = sort_value(v)->Object_0;
            lemma_key_order_len(s, false);
            lemma_sorted_pretty_members(m, tabs, d, m.len());
        },
        _ => {},
    }
}

/// Printable elements stay printable when sorted.
pub proof fn lemma_printable_elements_all(a: Seq<JsonView>, n: nat)
    requires
        n <= a.len(),
    ensures
        printable_elements(a, n) <==> forall|i: int| 0 <= i < n ==> #[trigger] printable(a[i]),
    decreases n,
{
    if n > 0 {
        lemma_printable_elements_all(a, (n - 1) as nat);
        if forall|i: int| 0 <= i < n ==> #[trigger] printable(a[i]) {
            assert(printable(a[n - 1]));
        }
    }
}

/// `printable_members` holds exactly when each member has a printable value.
pub proof fn lemma_printable_members_all(m: Seq<(Seq<char>, JsonView)>, n: nat)
    requires
        n <= m.len(),
    ensures
        printable_members(m, n) <==> forall|i: int| #![trigger m[i]] 0 <= i < n ==> printable(m[i].1),
    decreases n,
{
    if n > 0 {
        lemma_printable_members_all(m, (n - 1) as nat);
        if forall|i: int| #![trigger m[i]] 0 <= i < n ==> printable(m[i].1) {
            assert(printable(m[n - 1].1));
        }
    }
}

/// Sorting a printable value keeps it printable.
pub proof fn lemma_sorted_printable(v: JsonView)
    requires
        printable(v),
    ensures
        printable(sort_value(v)),
    decreases v,
{
    match v {
        JsonView::Array(a) => {
            let b = sort_value(v)->Array_0;
            lemma_printable_elements_all(a, a.len());
            assert forall|i: int| 0 <= i < b.len() implies #[trigger] printable(b[i]) by {
                assert(b[i] == sort_value(a[i]));
                lemma_sorted_printable(a[i]);
            }
            lemma_printable_elements_all(b, b.len());
        },
        JsonView::Object(m) => {
            let s = sort_value(v)->Object_0;
            let ord = key_order(m, true);
            lemma_sorted_positions(m);
            lemma_printable_members_all(m, m.len());
            assert forall|i: int| #![trigger s[i]] 0 <= i < s.len() implies printable(s[i].1) by {
                let k = ord[i];
                assert(s[i] == (m[k].0, sort_value(m[k].1)));
                assert(printable(m[k].1));
                lemma_sorted_printable(m[k].1);
            }
            lemma_printable_members_all(s, s.len());
            assert(distinct_keys(s)) by {
                assert forall|i: int, j: int| #![trigger s[i], s[j]] 0 <= i < j < s.len() implies s[i].0 != s[j].0 by {
                    assert(s[i].0 == m[ord[i]].0 && s[j].0 == m[ord[j]].0);
                    assert(ord[i] != ord[j]);
                    if ord[i] < ord[j] {
                        assert(m[ord[i]].0 != m[ord[j]].0);
                    } else {
                        assert(m[ord[j]].0 != m[ord[i]].0);
                    }
                }
            }
        },
        _ => {},
    }
}

/// What the library prints for a printable value (no numbers, no key given twice in an
/// object), compact or pretty, at any indentation level, with keys sorted or not, is read
/// back by the parser as that value, with the members of each object in key order when
/// keys are sorted.
pub proof fn printed_output_reads_back(v: JsonView, indent: nat, compact: bool, sort: bool, tabs: bool)
    requires
        printable(v),
    ensures
        spec_parse(out_chars(spec_format(v, indent, compact, sort, tabs))) == Ok::<JsonView, JSONParseError>(
            if sort {
                sort_value(v)
            } else {
                v
            },
        ),
{
    if sort {
        lemma_sorted_compact(v);
        lemma_sorted_pretty(v, tabs, indent);
        lemma_sorted_printable(v);
        assert(spec_format(v, indent, compact, true, tabs) == spec_format(sort_value(v), indent, compact, false, tabs));
        printed_value_reads_back(sort_value(v), indent, compact, tabs);
    } else {
        printed_value_reads_back(v, indent, compact, tabs);
    }
}

} // verus!
