//! Compact output: no whitespace between tokens.

use vstd::prelude::*;
use crate::json_parser::{JSONValue, JsonView, lemma_array_model, lemma_object_model, members_model, values_model};
use crate::json_printer::{OutView, OutputItem, key_order, object_key_order, out_model, push_string, push_text, out_text};
use crate::json_printer::utils::{print_string, spec_print_string};
use crate::json_value_filter::clone_number;

verus! {

/// Printer for compact output.
pub struct CompactPrinter {
    pub sort_keys: bool,
}

/// The compact output for a value.
pub open spec fn spec_compact(v: JsonView, sort: bool) -> Seq<OutView>
    decreases v, 0nat,
{
    match v {
        JsonView::Null => out_text("null"@),
        JsonView::True => out_text("true"@),
        JsonView::False => out_text("false"@),
        JsonView::Number(n) => seq![OutView::Number(n)],
        JsonView::Str(s) => out_text(spec_print_string(s)),
        JsonView::Array(a) => if a.len() == 0 {
            out_text("[]"@)
        } else {
            out_text("["@) + spec_compact_elements(a, sort, a.len()) + out_text("]"@)
        },
        JsonView::Object(m) => if m.len() == 0 {
            out_text("{}"@)
        } else {
            let ord = key_order(m, sort);
            out_text("{"@) + spec_compact_members(m, ord, sort, ord.len()) + out_text("}"@)
        },
    }
}

/// The first `n` elements of an array, each followed by a comma unless it is the last.
pub open spec fn spec_compact_elements(a: Seq<JsonView>, sort: bool, n: nat) -> Seq<OutView>
    decreases a, n,
{
    if n == 0 || n > a.len() {
        Seq::empty()
    } else {
        spec_compact_elements(a, sort, (n - 1) as nat) + spec_compact(a[n - 1], sort) + (if n
            < a.len() {
            out_text(","@)
        } else {
            Seq::empty()
        })
    }
}

/// The members at the first `n` positions of `ord`, each `"key":value` (the key written
/// as a string literal) followed by a comma unless it is the last.
pub open spec fn spec_compact_members(
    m: Seq<(Seq<char>, JsonView)>,
    ord: Seq<int>,
    sort: bool,
    n: nat,
) -> Seq<OutView>
    decreases m, n,
{
    if n == 0 || n > ord.len() {
        Seq::empty()
    } else {
        let k = ord[n - 1];
        let prev = spec_compact_members(m, ord, sort, (n - 1) as nat);
        if 0 <= k < m.len() {
            prev + out_text(spec_print_string(m[k].0)) + out_text(":"@) + spec_compact(m[k].1, sort) + (if n
                < ord.len() {
                out_text(","@)
            } else {
                Seq::empty()
            })
        } else {
            prev
        }
    }
}

impl CompactPrinter {
    /// The compact output for `value`; `indent` plays no part in it.
    pub fn print_value(&self, value: &JSONValue, indent: usize) -> (out: Vec<OutputItem>)
        ensures
            out_model(out@) == spec_compact(value@, self.sort_keys),
    {
        let mut out: Vec<OutputItem> = Vec::new();
        self.write_value(value, &mut out);
        assert(out_model(out@) =~= spec_compact(value@, self.sort_keys));
        out
    }

    /// The indices of the members of `obj` in the order they are printed.
    pub fn sort_object_keys(&self, obj: &Vec<(String, JSONValue)>) -> (order: Vec<usize>)
        ensures
            order@.len() == obj@.len(),
            key_order(members_model(obj@), self.sort_keys).len() == obj@.len(),
            forall|k: int| 0 <= k < order@.len() ==> (#[trigger] order@[k] as int) == key_order(
                members_model(obj@),
                self.sort_keys,
            )[k],
            forall|k: int| 0 <= k < order@.len() ==> #[trigger] order@[k] < obj@.len(),
    {
        object_key_order(obj, self.sort_keys)
    }

    /// Appends the compact output for `value` to `out`.
    fn write_value(&self, value: &JSONValue, out: &mut Vec<OutputItem>)
        ensures
            out_model(final(out)@) == out_model(old(out)@) + spec_compact(value@, self.sort_keys),
        decreases value,
    {
        let ghost start = out_model(out@);
        match value {
            JSONValue::Null => push_text(out, "null"),
            JSONValue::True => push_text(out, "true"),
            JSONValue::False => push_text(out, "false"),
            JSONValue::Number(n) => {
                out.push(OutputItem::Number(clone_number(n)));
                assert(out_model(out@) =~= start + seq![OutView::Number(n@)]);
            },
            JSONValue::String(s) => {
                let lit = print_string(s.as_str());
                push_string(out, &lit);
            },
            JSONValue::Array(arr) => {
                let ghost a = values_model(arr@);
                proof {
                    lemma_array_model(*arr);
                }
                if arr.len() == 0 {
                    push_text(out, "[]");
                } else {
                    push_text(out, "[");
                    let mut i: usize = 0;
                    while i < arr.len()
                        invariant
                            *value == JSONValue::Array(*arr),
                            a == values_model(arr@),
                            i <= arr@.len(),
                            out_model(out@) == start + out_text("["@) + spec_compact_elements(
                                a,
                                self.sort_keys,
                                i as nat,
                            ),
                        decreases arr@.len() - i,
                    {
                        proof {
                            assert(decreases_to!(*value => (*value)->Array_0));
                            assert(decreases_to!(*arr => arr@));
                            assert(decreases_to!(arr@ => arr@[i as int]));
                        }
                        self.write_value(&arr[i], out);
                        if i + 1 < arr.len() {
                            push_text(out, ",");
                        }
                        i = i + 1;
                        assert(a[i - 1] == arr@[i - 1]@);
                        assert(out_model(out@) =~= start + out_text("["@) + spec_compact_elements(
                            a,
                            self.sort_keys,
                            i as nat,
                        ));
                    }
                    push_text(out, "]");
                }
            },
            JSONValue::Object(obj) => {
                let ghost m = members_model(obj@);
                proof {
                    lemma_object_model(*obj);
                }
                if obj.len() == 0 {
                    push_text(out, "{}");
                } else {
                    let keys = self.sort_object_keys(obj);
                    let ghost ord = key_order(m, self.sort_keys);
                    assert(ord.len() == keys@.len());
                    push_text(out, "{");
                    let mut i: usize = 0;
                    while i < keys.len()
                        invariant
                            *value == JSONValue::Object(*obj),
                            m == members_model(obj@),
                            ord == key_order(m, self.sort_keys),
                            ord.len() == keys@.len(),
                            forall|k: int|
                                0 <= k < keys@.len() ==> (#[trigger] keys@[k] as int) == ord[k],
                            forall|k: int| 0 <= k < keys@.len() ==> #[trigger] keys@[k] < obj@.len(),
                            i <= keys@.len(),
                            out_model(out@) == start + out_text("{"@) + spec_compact_members(
                                m,
                                ord,
                                self.sort_keys,
                                i as nat,
                            ),
                        decreases keys@.len() - i,
                    {
                        let k = keys[i];
                        assert(keys@[i as int] == k);
                        let key = print_string(obj[k].0.as_str());
                        push_string(out, &key);
                        push_text(out, ":");
                        proof {
                            assert(decreases_to!(*value => (*value)->Object_0));
                            assert(decreases_to!(*obj => obj@));
                            assert(decreases_to!(obj@ => obj@[k as int]));
                            assert(decreases_to!(obj@[k as int] => obj@[k as int].1));
                        }
                        self.write_value(&obj[k].1, out);
                        if i + 1 < keys.len() {
                            push_text(out, ",");
                        }
                        i = i + 1;
                        assert(m[k as int] == (obj@[k as int].0@, obj@[k as int].1@));
                        assert(out_model(out@) =~= start + out_text("{"@) + spec_compact_members(
                            m,
                            ord,
                            self.sort_keys,
                            i as nat,
                        ));
                    }
                    push_text(out, "}");
                }
            },
        }
    }
}

} // verus!
