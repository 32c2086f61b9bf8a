//! Pretty output is compact output plus layout: with the whitespace between its
//! tokens taken out, the pretty text of a value is its compact text.

use vstd::prelude::*;
use crate::json_parser::{JsonView, is_json_ws};
use crate::json_printer::{OutView, key_order, out_text};
use crate::json_printer::compact_printer::{spec_compact, spec_compact_elements, spec_compact_members};
use crate::json_printer::pretty_printer::{
    indent_unit,
    pretty_element_line,
    pretty_member_line,
    repeat,
    spec_pretty,
    spec_pretty_elements,
    spec_pretty_members,
};
use crate::json_printer::utils::{escape_body, escape_char, spec_print_string};

verus! {

/// A whitespace character of the output.
pub open spec fn is_layout(x: OutView) -> bool {
    match x {
        OutView::Char(u) => is_json_ws(u as char),
        OutView::Number(_) => false,
    }
}

/// Output with its whitespace characters taken out.
pub open spec fn strip_layout(o: Seq<OutView>) -> Seq<OutView>
    decreases o.len(),
{
    if o.len() == 0 {
        Seq::empty()
    } else {
        strip_layout(o.drop_last()) + (if is_layout(o.last()) {
            Seq::empty()
        } else {
            seq![o.last()]
        })
    }
}

/// Text without whitespace characters.
pub open spec fn ws_free(t: Seq<char>) -> bool {
    forall|i: int| 0 <= i < t.len() ==> !is_json_ws(#[trigger] t[i])
}

/// No string and no key in `v`, at any depth, holds a whitespace character.
pub open spec fn layout_free(v: JsonView) -> bool
    decreases v, 0nat,
{
    match v {
        JsonView::Str(s) => ws_free(s),
        JsonView::Array(a) => layout_free_elements(a, a.len()),
        JsonView::Object(m) => layout_free_members(m, m.len()),
        _ => true,
    }
}

/// `layout_free` holds of the first `n` elements.
pub open spec fn layout_free_elements(a: Seq<JsonView>, n: nat) -> bool
    decreases a, n,
{
    if n == 0 || n > a.len() {
        true
    } else {
        layout_free_elements(a, (n - 1) as nat) && layout_free(a[n - 1])
    }
}

/// The first `n` members have keys without whitespace and values that are
/// `layout_free`.
pub open spec fn layout_free_members(m: Seq<(Seq<char>, JsonView)>, n: nat) -> bool
    decreases m, n,
{
    if n == 0 || n > m.len() {
        true
    } else {
        layout_free_members(m, (n - 1) as nat) && ws_free(m[n - 1].0) && layout_free(m[n - 1].1)
    }
}

/// Taking whitespace out distributes over concatenation.
pub proof fn lemma_strip_add(a: Seq<OutView>, b: Seq<OutView>)
    ensures
        strip_layout(a + b) == strip_layout(a) + strip_layout(b),
    decreases b.len(),
{
    if b.len() == 0 {
        assert(a + b =~= a);
        assert(strip_layout(a) + strip_layout(b) =~= strip_layout(a));
    } else {
        assert((a + b).drop_last() =~= a + b.drop_last());
        assert((a + b).last() == b.last());
        lemma_strip_add(a, b.drop_last());
        assert(strip_layout(a + b) =~= strip_layout(a) + strip_layout(b));
    }
}

/// Text without whitespace loses nothing; text of whitespace only loses everything.
pub proof fn lemma_strip_text(t: Seq<char>)
    ensures
        ws_free(t) ==> strip_layout(out_text(t)) == out_text(t),
        (forall|i: int| 0 <= i < t.len() ==> is_json_ws(#[trigger] t[i])) ==> strip_layout(out_text(t))
            == Seq::<OutView>::empty(),
    decreases t.len(),
{
    if t.len() > 0 {
        let u = t.drop_last();
        lemma_strip_text(u);
        assert(out_text(t).drop_last() =~= out_text(u));
        let c = t.last();
        assert(out_text(t).last() == OutView::Char(c as u32));
        vstd::utf8::char_u32_cast(c, c as u32);
        if ws_free(t) {
            assert(ws_free(u)) by {
                assert forall|i: int| 0 <= i < u.len() implies !is_json_ws(#[trigger] u[i]) by {
                    assert(u[i] == t[i]);
                }
            }
            assert(!is_json_ws(t[t.len() - 1]));
            assert(strip_layout(out_text(t)) =~= out_text(t));
        }
        if forall|i: int| 0 <= i < t.len() ==> is_json_ws(#[trigger] t[i]) {
            assert forall|i: int| 0 <= i < u.len() implies is_json_ws(#[trigger] u[i]) by {
                assert(u[i] == t[i]);
            }
            assert(is_json_ws(t[t.len() - 1]));
            assert(strip_layout(out_text(t)) =~= Seq::<OutView>::empty());
        }
    }
}

/// Indentation is whitespace only.
pub proof fn lemma_repeat_ws(tabs: bool, n: nat)
    ensures
        forall|i: int| 0 <= i < repeat(indent_unit(tabs), n).len() ==> is_json_ws(
            #[trigger] repeat(indent_unit(tabs), n)[i],
        ),
    decreases n,
{
    reveal_strlit("\t");
    reveal_strlit("  ");
    if n > 0 {
        let prev = repeat(indent_unit(tabs), (n - 1) as nat);
        lemma_repeat_ws(tabs, (n - 1) as nat);
        let r = repeat(indent_unit(tabs), n);
        assert(r == prev + indent_unit(tabs));
        assert forall|i: int| 0 <= i < r.len() implies is_json_ws(#[trigger] r[i]) by {
            if i < prev.len() {
                assert(r[i] == prev[i]);
            } else {
                assert(r[i] == indent_unit(tabs)[i - prev.len()]);
            }
        }
    }
}

/// Escaping text without whitespace gives text without whitespace.
pub proof fn lemma_escape_ws_free(s: Seq<char>)
    requires
        ws_free(s),
    ensures
        ws_free(escape_body(s)),
    decreases s.len(),
{
    if s.len() > 0 {
        let u = s.drop_last();
        assert(ws_free(u)) by {
            assert forall|i: int| 0 <= i < u.len() implies !is_json_ws(#[trigger] u[i]) by {
                assert(u[i] == s[i]);
            }
        }
        lemma_escape_ws_free(u);
        assert(!is_json_ws(s[s.len() - 1]));
        let e = escape_char(s.last());
        let r = escape_body(s);
        assert(r == escape_body(u) + e);
        assert forall|i: int| 0 <= i < r.len() implies !is_json_ws(#[trigger] r[i]) by {
            if i < escape_body(u).len() {
                assert(r[i] == escape_body(u)[i]);
            } else {
                assert(r[i] == e[i - escape_body(u).len()]);
            }
        }
    }
}

/// A string without whitespace is written as a literal without whitespace.
pub proof fn lemma_printed_ws_free(s: Seq<char>)
    requires
        ws_free(s),
    ensures
        ws_free(spec_print_string(s)),
{
    lemma_escape_ws_free(s);
    let p = spec_print_string(s);
    let e = escape_body(s);
    assert forall|i: int| 0 <= i < p.len() implies !is_json_ws(#[trigger] p[i]) by {
        if 0 < i < p.len() - 1 {
            assert(p[i] == e[i - 1]);
        }
    }
}

/// A literal without whitespace is kept whole.
pub proof fn lemma_strip_literal(t: Seq<char>)
    requires
        ws_free(t),
    ensures
        strip_layout(out_text(t)) == out_text(t),
{
    lemma_strip_text(t);
}

/// A run of whitespace is taken out whole.
pub proof fn lemma_strip_blank(t: Seq<char>)
    requires
        forall|i: int| 0 <= i < t.len() ==> is_json_ws(#[trigger] t[i]),
    ensures
        strip_layout(out_text(t)) == Seq::<OutView>::empty(),
{
    lemma_strip_text(t);
}

/// With its whitespace taken out, the pretty text of a value is its compact text, when
/// no string and no key in it holds whitespace.
pub proof fn pretty_output_is_compact_output_plus_layout(v: JsonView, sort: bool, tabs: bool, d: nat)
    requires
        layout_free(v),
    ensures
        strip_layout(spec_pretty(v, sort, tabs, d)) == spec_compact(v, sort),
    decreases v, 0nat,
{
    reveal_strlit("null");
    reveal_strlit("true");
    reveal_strlit("false");
    reveal_strlit("[]");
    reveal_strlit("{}");
    reveal_strlit("[\n");
    reveal_strlit("{\n");
    reveal_strlit("[");
    reveal_strlit("{");
    reveal_strlit("]");
    reveal_strlit("}");
    match v {
        JsonView::Null => {
            lemma_strip_literal("null"@);
        },
        JsonView::True => {
            lemma_strip_literal("true"@);
        },
        JsonView::False => {
            lemma_strip_literal("false"@);
        },
        JsonView::Number(n) => {
            assert(seq![OutView::Number(n)].drop_last() =~= Seq::<OutView>::empty());
            assert(strip_layout(Seq::<OutView>::empty()) =~= Seq::<OutView>::empty());
            assert(!is_layout(seq![OutView::Number(n)].last()));
            assert(strip_layout(seq![OutView::Number(n)]) =~= seq![OutView::Number(n)]);
        },
        JsonView::Str(s) => {
            lemma_printed_ws_free(s);
            lemma_strip_literal(spec_print_string(s));
        },
        JsonView::Array(a) => {
            if a.len() == 0 {
                lemma_strip_literal("[]"@);
            } else {
                let body = spec_pretty_elements(a, sort, tabs, d, a.len());
                let ind = out_text(repeat(indent_unit(tabs), d));
                lemma_strip_add(out_text("[\n"@) + body + ind, out_text("]"@));
                lemma_strip_add(out_text("[\n"@) + body, ind);
                lemma_strip_add(out_text("[\n"@), body);
                assert(out_text("[\n"@) =~= out_text("["@) + out_text(seq!['\n']));
                lemma_strip_add(out_text("["@), out_text(seq!['\n']));
                lemma_strip_literal("["@);
                lemma_strip_literal("]"@);
                lemma_strip_blank(seq!['\n']);
                lemma_repeat_ws(tabs, d);
                lemma_strip_blank(repeat(indent_unit(tabs), d));
                lemma_pretty_elements_layout(a, sort, tabs, d, a.len());
                assert(strip_layout(spec_pretty(v, sort, tabs, d)) =~= spec_compact(v, sort));
            }
        },
        JsonView::Object(m) => {
            if m.len() == 0 {
                lemma_strip_literal("{}"@);
            } else {
                let ord = key_order(m, sort);
                let body = spec_pretty_members(m, ord, sort, tabs, d, ord.len());
                let ind = out_text(repeat(indent_unit(tabs), d));
                lemma_strip_add(out_text("{\n"@) + body + ind, out_text("}"@));
                lemma_strip_add(out_text("{\n"@) + body, ind);
                lemma_strip_add(out_text("{\n"@), body);
                assert(out_text("{\n"@) =~= out_text("{"@) + out_text(seq!['\n']));
                lemma_strip_add(out_text("{"@), out_text(seq!['\n']));
                lemma_strip_literal("{"@);
                lemma_strip_literal("}"@);
                lemma_strip_blank(seq!['\n']);
                lemma_repeat_ws(tabs, d);
                lemma_strip_blank(repeat(indent_unit(tabs), d));
                lemma_pretty_members_layout(m, ord, sort, tabs, d, ord.len());
                assert(strip_layout(spec_pretty(v, sort, tabs, d)) =~= spec_compact(v, sort));
            }
        },
    }
}

/// The pretty lines of the first `n` elements, with whitespace taken out, are their
/// compact texts.
pub proof fn lemma_pretty_elements_layout(a: Seq<JsonView>, sort: bool, tabs: bool, d: nat, n: nat)
    requires
        layout_free_elements(a, a.len()),
        n <= a.len(),
    ensures
        strip_layout(spec_pretty_elements(a, sort, tabs, d, n)) == spec_compact_elements(a, sort, n),
    decreases a, n,
{
    reveal_strlit(",");
    reveal_strlit("\n");
    if n > 0 {
        lemma_pretty_elements_layout(a, sort, tabs, d, (n - 1) as nat);
        lemma_layout_free_element(a, a.len(), n - 1);
        pretty_output_is_compact_output_plus_layout(a[n - 1], sort, tabs, d + 1);
        let ind = out_text(repeat(indent_unit(tabs), d + 1));
        let val = spec_pretty(a[n - 1], sort, tabs, d + 1);
        let c = if n < a.len() {
            out_text(","@)
        } else {
            Seq::empty()
        };
        let nl = out_text("\n"@);
        let prev = spec_pretty_elements(a, sort, tabs, d, (n - 1) as nat);
        assert(pretty_element_line(a[n - 1], sort, tabs, d + 1, n < a.len()) == ind + val + c + nl);
        lemma_strip_add(prev, ind + val + c + nl);
        lemma_strip_add(ind + val + c, nl);
        lemma_strip_add(ind + val, c);
        lemma_strip_add(ind, val);
        lemma_repeat_ws(tabs, d + 1);
        lemma_strip_blank(repeat(indent_unit(tabs), d + 1));
        lemma_strip_blank("\n"@);
        if n < a.len() {
            lemma_strip_literal(","@);
        } else {
            assert(strip_layout(c) =~= Seq::<OutView>::empty());
        }
        assert(strip_layout(spec_pretty_elements(a, sort, tabs, d, n)) =~= spec_compact_elements(a, sort, n));
    }
}

/// The pretty lines of the members at the first `n` positions of `ord`, with whitespace
/// taken out, are their compact texts.
#[verifier::rlimit(60)]
pub proof fn lemma_pretty_members_layout(
    m: Seq<(Seq<char>, JsonView)>,
    ord: Seq<int>,
    sort: bool,
    tabs: bool,
    d: nat,
    n: nat,
)
    requires
        layout_free_members(m, m.len()),
        n <= ord.len(),
    ensures
        strip_layout(spec_pretty_members(m, ord, sort, tabs, d, n)) == spec_compact_members(m, ord, sort, n),
    decreases m, n,
{
    reveal_strlit(",");
    reveal_strlit("\n");
    reveal_strlit(":");
    reveal_strlit(" ");
    if n > 0 {
        lemma_pretty_members_layout(m, ord, sort, tabs, d, (n - 1) as nat);
        let k = ord[n - 1];
        if 0 <= k < m.len() {
            lemma_layout_free_member(m, m.len(), k);
            pretty_output_is_compact_output_plus_layout(m[k].1, sort, tabs, d + 1);
            let ind = out_text(repeat(indent_unit(tabs), d + 1));
            let kt = out_text(spec_print_string(m[k].0));
            let qc = out_text(":"@);
            let sp = out_text(" "@);
            let val = spec_pretty(m[k].1, sort, tabs, d + 1);
            let c = if n < ord.len() {
                out_text(","@)
            } else {
                Seq::empty()
            };
            let nl = out_text("\n"@);
            let prev = spec_pretty_members(m, ord, sort, tabs, d, (n - 1) as nat);
            assert(pretty_member_line(m[k].0, m[k].1, sort, tabs, d + 1, n < ord.len()) == ind + kt + qc + sp
                + val + c + nl);
            lemma_strip_add(prev, ind + kt + qc + sp + val + c + nl);
            lemma_strip_add(ind + kt + qc + sp + val + c, nl);
            lemma_strip_add(ind + kt + qc + sp + val, c);
            lemma_strip_add(ind + kt + qc + sp, val);
            lemma_strip_add(ind + kt + qc, sp);
            lemma_strip_add(ind + kt, qc);
            lemma_strip_add(ind, kt);
            lemma_repeat_ws(tabs, d + 1);
            lemma_strip_blank(repeat(indent_unit(tabs), d + 1));
            lemma_strip_blank("\n"@);
            lemma_strip_blank(" "@);
            lemma_strip_literal(":"@);
            lemma_printed_ws_free(m[k].0);
            lemma_strip_literal(spec_print_string(m[k].0));
            if n < ord.len() {
                lemma_strip_literal(","@);
            } else {
                assert(strip_layout(c) =~= Seq::<OutView>::empty());
            }
            assert(strip_layout(spec_pretty_members(m, ord, sort, tabs, d, n)) =~= spec_compact_members(
                m,
                ord,
                sort,
                n,
            ));
        }
    }
}

/// An element of `layout_free` elements is `layout_free`.
pub proof fn lemma_layout_free_element(a: Seq<JsonView>, n: nat, i: int)
    requires
        layout_free_elements(a, n),
        0 <= i < n <= a.len(),
    ensures
        layout_free(a[i]),
    decreases n,
{
    if i < n - 1 {
        lemma_layout_free_element(a, (n - 1) as nat, i);
    }
}

/// A member of `layout_free` members has a key without whitespace and a `layout_free`
/// value.
pub proof fn lemma_layout_free_member(m: Seq<(Seq<char>, JsonView)>, n: nat, i: int)
    requires
        layout_free_members(m, n),
        0 <= i < n <= m.len(),
    ensures
        ws_free(m[i].0),
        layout_free(m[i].1),
    decreases n,
{
    if i < n - 1 {
        lemma_layout_free_member(m, (n - 1) as nat, i);
    }
}

} // verus!
