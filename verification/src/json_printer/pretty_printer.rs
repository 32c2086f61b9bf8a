//! Pretty output: one element or member per line, indented.

use vstd::prelude::*;
use crate::json_parser::{JSONValue, JsonView, lemma_array_model, lemma_object_model, members_model, values_model};
use crate::json_printer::{
    OutView,
    OutputItem,
    depth,
    depth_of_elements,
    depth_of_members,
    key_order,
    lemma_key_order_len,
    lemma_depth_of_elements,
    lemma_depth_of_members,
    object_key_order,
    out_model,
    push_string,
    push_text,
    out_text,
};
use crate::json_printer::utils::{print_string, spec_print_string};
use crate::json_value_filter::clone_number;

verus! {

/// Printer for pretty output.
pub struct PrettyPrinter {
    pub sort_keys: bool,
    pub use_tabs: bool,
}

/// One level of indentation: a tab, or two spaces.
pub open spec fn indent_unit(tabs: bool) -> Seq<char> {
    if tabs {
        "\t"@
    } else {
        "  "@
    }
}

/// `t` written `n` times.
pub open spec fn repeat(t: Seq<char>, n: nat) -> Seq<char>
    decreases n,
{
    if n == 0 {
        Seq::empty()
    } else {
        repeat(t, (n - 1) as nat) + t
    }
}

/// The pretty output for a value at indentation level `indent`.
pub open spec fn spec_pretty(v: JsonView, sort: bool, tabs: bool, indent: nat) -> Seq<OutView>
    decreases v, 0nat,
{
    match v {
        JsonView::Null => out_text("null"@),
        JsonView::True => out_text("true"@),
        JsonView::False => out_text("false"@),
        JsonView::Number(n) => seq![OutView::Number(n)],
        JsonView::Str(s) => out_text(spec_print_string(s)),
        JsonView::Array(a) => if a.len() == 0 {
            out_text("[]"@)
        } else {
            out_text("[\n"@) + spec_pretty_elements(a, sort, tabs, indent, a.len()) + out_text(
                repeat(indent_unit(tabs), indent),
            ) + out_text("]"@)
        },
        JsonView::Object(m) => if m.len() == 0 {
            out_text("{}"@)
        } else {
            let ord = key_order(m, sort);
            out_text("{\n"@) + spec_pretty_members(m, ord, sort, tabs, indent, ord.len()) + out_text(
                repeat(indent_unit(tabs), indent),
            ) + out_text("}"@)
        },
    }
}

/// One line of an array: the indented element, a comma when `comma`, and a line break.
pub open spec fn pretty_element_line(v: JsonView, sort: bool, tabs: bool, indent: nat, comma: bool) -> Seq<
    OutView,
>
    decreases v, 1nat,
{
    out_text(repeat(indent_unit(tabs), indent)) + spec_pretty(v, sort, tabs, indent) + (if comma {
        out_text(","@)
    } else {
        Seq::empty()
    }) + out_text("\n"@)
}

/// One line of an object: the indented `"key": value`, a comma when `comma`, and a line
/// break.
pub open spec fn pretty_member_line(
    key: Seq<char>,
    v: JsonView,
    sort: bool,
    tabs: bool,
    indent: nat,
    comma: bool,
) -> Seq<OutView>
    decreases v, 1nat,
{
    out_text(repeat(indent_unit(tabs), indent)) + out_text(spec_print_string(key)) + out_text(":"@)
        + out_text(" "@) + spec_pretty(v, sort, tabs, indent) + (if comma {
        out_text(","@)
    } else {
        Seq::empty()
    }) + out_text("\n"@)
}

/// The first `n` elements of an array, one per line, one level deeper than `indent`.
pub open spec fn spec_pretty_elements(
    a: Seq<JsonView>,
    sort: bool,
    tabs: bool,
    indent: nat,
    n: nat,
) -> Seq<OutView>
    decreases a, n,
{
    if n == 0 || n > a.len() {
        Seq::empty()
    } else {
        spec_pretty_elements(a, sort, tabs, indent, (n - 1) as nat) + pretty_element_line(
            a[n - 1],
            sort,
            tabs,
            indent + 1,
            n < a.len(),
        )
    }
}

/// The members at the first `n` positions of `ord`, one `"key": value` per line, one
/// level deeper than `indent`.
pub open spec fn spec_pretty_members(
    m: Seq<(Seq<char>, JsonView)>,
    ord: Seq<int>,
    sort: bool,
    tabs: bool,
    indent: nat,
    n: nat,
) -> Seq<OutView>
    decreases m, n,
{
    if n == 0 || n > ord.len() {
        Seq::empty()
    } else {
        let k = ord[n - 1];
        let prev = spec_pretty_members(m, ord, sort, tabs, indent, (n - 1) as nat);
        if 0 <= k < m.len() {
            prev + pretty_member_line(m[k].0, m[k].1, sort, tabs, indent + 1, n < ord.len())
        } else {
            prev
        }
    }
}

impl PrettyPrinter {
    /// The pretty output for `value` at indentation level `indent`.
    pub fn print_value(&self, value: &JSONValue, indent: usize) -> (out: Vec<OutputItem>)
        requires
            indent + depth(value@) <= usize::MAX,
        ensures
            out_model(out@) == spec_pretty(value@, self.sort_keys, self.use_tabs, indent as nat),
    {
        let mut out: Vec<OutputItem> = Vec::new();
        self.write_value(value, indent, &mut out);
        assert(out_model(out@) =~= spec_pretty(
            value@,
            self.sort_keys,
            self.use_tabs,
            indent as nat,
        ));
        out
    }

    /// The indices of the members of `obj` in the order they are printed.
    pub fn sort_object_keys(&self, obj: &Vec<(String, JSONValue)>) -> (order: Vec<usize>)
        ensures
            order@.len() == obj@.len(),
            key_order(members_model(obj@), self.sort_keys).len() == obj@.len(),
            forall|k: int| 0 <= k < order@.len() ==> (#[trigger] order@[k] as int) == key_order(
                members_model(obj@),
                self.sort_keys,
            )[k],
            forall|k: int| 0 <= k < order@.len() ==> #[trigger] order@[k] < obj@.len(),
    {
        object_key_order(obj, self.sort_keys)
    }

    /// Appends `n` levels of indentation to `out`.
    fn write_indent(&self, n: usize, out: &mut Vec<OutputItem>)
        ensures
            out_model(final(out)@) == out_model(old(out)@) + out_text(
                repeat(indent_unit(self.use_tabs), n as nat),
            ),
    {
        let unit = if self.use_tabs {
            "\t"
        } else {
            "  "
        };
        let mut i: usize = 0;
        assert(out_model(out@) =~= out_model(old(out)@) + out_text(
            repeat(indent_unit(self.use_tabs), 0),
        ));
        while i < n
            invariant
                i <= n,
                unit@ == indent_unit(self.use_tabs),
                out_model(out@) == out_model(old(out)@) + out_text(
                    repeat(indent_unit(self.use_tabs), i as nat),
                ),
            decreases n - i,
        {
            push_text(out, unit);
            i = i + 1;
            assert(out_text(repeat(indent_unit(self.use_tabs), i as nat)) =~= out_text(
                repeat(indent_unit(self.use_tabs), (i - 1) as nat),
            ) + out_text(unit@));
            assert(out_model(out@) =~= out_model(old(out)@) + out_text(
                repeat(indent_unit(self.use_tabs), i as nat),
            ));
        }
    }

    /// Appends one line of an array: the indented element, a comma when `comma`, and a
    /// line break.
    fn write_line(&self, value: &JSONValue, indent: usize, comma: bool, out: &mut Vec<OutputItem>)
        requires
            indent + depth(value@) <= usize::MAX,
        ensures
            out_model(final(out)@) == out_model(old(out)@) + pretty_element_line(
                value@,
                self.sort_keys,
                self.use_tabs,
                indent as nat,
                comma,
            ),
        decreases value, 2int,
    {
        self.write_indent(indent, out);
        self.write_value(value, indent, out);
        if comma {
            push_text(out, ",");
        }
        push_text(out, "\n");
    }

    /// Appends one line of an object: the indented `"key": value`, a comma when `comma`,
    /// and a line break.
    fn write_member_line(
        &self,
        key: &String,
        value: &JSONValue,
        indent: usize,
        comma: bool,
        out: &mut Vec<OutputItem>,
    )
        requires
            indent + depth(value@) <= usize::MAX,
        ensures
            out_model(final(out)@) == out_model(old(out)@) + pretty_member_line(
                key@,
                value@,
                self.sort_keys,
                self.use_tabs,
                indent as nat,
                comma,
            ),
        decreases value, 2int,
    {
        self.write_indent(indent, out);
        let lit = print_string(key.as_str());
        push_string(out, &lit);
        push_text(out, ":");
        push_text(out, " ");
        self.write_value(value, indent, out);
        if comma {
            push_text(out, ",");
        }
        push_text(out, "\n");
    }

    /// Appends the elements of an array, one line each, one level deeper than `indent`.
    fn write_elements(&self, arr: &Vec<JSONValue>, indent: usize, out: &mut Vec<OutputItem>)
        requires
            indent + 1 + depth_of_elements(values_model(arr@), arr@.len()) <= usize::MAX,
        ensures
            out_model(final(out)@) == out_model(old(out)@) + spec_pretty_elements(
                values_model(arr@),
                self.sort_keys,
                self.use_tabs,
                indent as nat,
                arr@.len(),
            ),
        decreases arr, 3int,
    {
        let ghost start = out_model(out@);
        let ghost sort = self.sort_keys;
        let ghost tabs = self.use_tabs;
        let ghost a = values_model(arr@);
        let mut i: usize = 0;
        assert(out_model(out@) =~= start + spec_pretty_elements(a, sort, tabs, indent as nat, 0));
        while i < arr.len()
            invariant
                a == values_model(arr@),
                a.len() == arr@.len(),
                indent + 1 + depth_of_elements(a, a.len()) <= usize::MAX,
                sort == self.sort_keys,
                tabs == self.use_tabs,
                i <= arr@.len(),
                out_model(out@) == start + spec_pretty_elements(a, sort, tabs, indent as nat, i as nat),
            decreases arr@.len() - i,
        {
            proof {
                assert(decreases_to!(*arr => arr@));
                assert(decreases_to!(arr@ => arr@[i as int]));
                lemma_depth_of_elements(a, a.len(), i as int);
                assert(a[i as int] == arr@[i as int]@);
            }
            self.write_line(&arr[i], indent + 1, i + 1 < arr.len(), out);
            i = i + 1;
            assert(out_model(out@) =~= start + spec_pretty_elements(a, sort, tabs, indent as nat, i as nat));
        }
    }

    /// Appends the members of an object, one line each in printing order, one level
    /// deeper than `indent`.
    fn write_members(&self, obj: &Vec<(String, JSONValue)>, indent: usize, out: &mut Vec<OutputItem>)
        requires
            indent + 1 + depth_of_members(members_model(obj@), obj@.len()) <= usize::MAX,
        ensures
            out_model(final(out)@) == out_model(old(out)@) + spec_pretty_members(
                members_model(obj@),
                key_order(members_model(obj@), self.sort_keys),
                self.sort_keys,
                self.use_tabs,
                indent as nat,
                obj@.len(),
            ),
        decreases obj, 3int,
    {
        let ghost start = out_model(out@);
        let ghost sort = self.sort_keys;
        let ghost tabs = self.use_tabs;
        let ghost m = members_model(obj@);
        proof {
            lemma_object_model(*obj);
        }
        let keys = self.sort_object_keys(obj);
        let ghost ord = key_order(m, sort);
        let mut i: usize = 0;
        assert(out_model(out@) =~= start + spec_pretty_members(m, ord, sort, tabs, indent as nat, 0));
        while i < keys.len()
            invariant
                m == members_model(obj@),
                m.len() == obj@.len(),
                indent + 1 + depth_of_members(m, m.len()) <= usize::MAX,
                sort == self.sort_keys,
                tabs == self.use_tabs,
                ord == key_order(m, sort),
                ord.len() == keys@.len(),
                keys@.len() == obj@.len(),
                forall|k: int| 0 <= k < keys@.len() ==> (#[trigger] keys@[k] as int) == ord[k],
                forall|k: int| 0 <= k < keys@.len() ==> #[trigger] keys@[k] < obj@.len(),
                i <= keys@.len(),
                out_model(out@) == start + spec_pretty_members(m, ord, sort, tabs, indent as nat, i as nat),
            decreases keys@.len() - i,
        {
            let k = keys[i];
            let ghost prev = out_model(out@);
            proof {
                assert(keys@[i as int] == k);
                assert(decreases_to!(*obj => obj@));
                assert(decreases_to!(obj@ => obj@[k as int]));
                assert(decreases_to!(obj@[k as int] => obj@[k as int].1));
                lemma_depth_of_members(m, m.len(), k as int);
                assert(m[k as int] == (obj@[k as int].0@, obj@[k as int].1@));
            }
            self.write_member_line(&obj[k].0, &obj[k].1, indent + 1, i + 1 < keys.len(), out);
            i = i + 1;
            assert(out_model(out@) =~= start + spec_pretty_members(m, ord, sort, tabs, indent as nat, i as nat));
        }
    }

    /// Appends the pretty output for an array at indentation level `indent`.
    fn write_array(&self, arr: &Vec<JSONValue>, indent: usize, out: &mut Vec<OutputItem>)
        requires
            indent + depth(JsonView::Array(values_model(arr@))) <= usize::MAX,
        ensures
            out_model(final(out)@) == out_model(old(out)@) + spec_pretty(
                JsonView::Array(values_model(arr@)),
                self.sort_keys,
                self.use_tabs,
                indent as nat,
            ),
        decreases arr, 4int,
    {
        let ghost start = out_model(out@);
        if arr.len() == 0 {
            push_text(out, "[]");
        } else {
            push_text(out, "[\n");
            self.write_elements(arr, indent, out);
            self.write_indent(indent, out);
            push_text(out, "]");
            assert(out_model(out@) =~= start + spec_pretty(
                JsonView::Array(values_model(arr@)),
                self.sort_keys,
                self.use_tabs,
                indent as nat,
            ));
        }
    }

    /// Appends the pretty output for an object at indentation level `indent`.
    fn write_object(&self, obj: &Vec<(String, JSONValue)>, indent: usize, out: &mut Vec<OutputItem>)
        requires
            indent + depth(JsonView::Object(members_model(obj@))) <= usize::MAX,
        ensures
            out_model(final(out)@) == out_model(old(out)@) + spec_pretty(
                JsonView::Object(members_model(obj@)),
                self.sort_keys,
                self.use_tabs,
                indent as nat,
            ),
        decreases obj, 4int,
    {
        let ghost start = out_model(out@);
        if obj.len() == 0 {
            push_text(out, "{}");
        } else {
            push_text(out, "{\n");
            self.write_members(obj, indent, out);
            self.write_indent(indent, out);
            push_text(out, "}");
            proof {
                lemma_key_order_len(members_model(obj@), self.sort_keys);
            }
            assert(out_model(out@) =~= start + spec_pretty(
                JsonView::Object(members_model(obj@)),
                self.sort_keys,
                self.use_tabs,
                indent as nat,
            ));
        }
    }

    /// Appends the pretty output for `value` at indentation level `indent` to `out`.
    fn write_value(&self, value: &JSONValue, indent: usize, out: &mut Vec<OutputItem>)
        requires
            indent + depth(value@) <= usize::MAX,
        ensures
            out_model(final(out)@) == out_model(old(out)@) + spec_pretty(
                value@,
                self.sort_keys,
                self.use_tabs,
                indent as nat,
            ),
        decreases value, 1int,
    {
        let ghost start = out_model(out@);
        let ghost sort = self.sort_keys;
        let ghost tabs = self.use_tabs;
        match value {
            JSONValue::Null => push_text(out, "null"),
            JSONValue::True => push_text(out, "true"),
            JSONValue::False => push_text(out, "false"),
            JSONValue::Number(n) => {
                out.push(OutputItem::Number(clone_number(n)));
                assert(out_model(out@) =~= start + seq![OutView::Number(n@)]);
            },
            JSONValue::String(s) => {
                let lit = print_string(s.as_str());
                push_string(out, &lit);
            },
            JSONValue::Array(arr) => {
                proof {
                    lemma_array_model(*arr);
                    assert(decreases_to!(*value => (*value)->Array_0));
                }
                self.write_array(arr, indent, out);
            },
            JSONValue::Object(obj) => {
                proof {
                    lemma_object_model(*obj);
                    assert(decreases_to!(*value => (*value)->Object_0));
                }
                self.write_object(obj, indent, out);
            },
        }
    }
}

} // verus!
