//! Pretty output read back: the text that the pretty printer writes for a value, at
//! any indentation level and with either indentation, is read by the parser as that
//! same value.

use vstd::prelude::*;
use crate::json_parser::{
    JsonView,
    is_json_ws,
    spec_array,
    spec_element,
    spec_elements,
    spec_elements_tail,
    spec_member,
    spec_members,
    spec_members_tail,
    spec_object,
    spec_parse,
    spec_string,
    spec_value,
    ws_end,
};
use crate::json_printer::{key_order, out_text, spec_format};
use crate::json_printer::pretty_printer::{
    indent_unit,
    pretty_element_line,
    pretty_member_line,
    repeat,
    spec_pretty,
    spec_pretty_elements,
    spec_pretty_members,
};
use crate::json_printer::compact_printer::spec_compact;
use crate::json_printer::round_trip::{
    comma_if,
    compact_text,
    lemma_compact_text_shape,
    lemma_object_from_distinct,
    lemma_out_chars_add,
    lemma_out_chars_text,
    lemma_printable_element,
    lemma_printable_member,
    lemma_reads_back,
    lemma_text_at_part,
    lemma_ws_end_here,
    out_chars,
    printable,
    printable_elements,
    printable_members,
};
use crate::json_printer::utils::{lemma_printed_string_at, spec_print_string};

verus! {

/// The pretty text of a value at indentation level `d`, with members in stored order.
#[verifier::opaque]
pub open spec fn pretty_text(v: JsonView, tabs: bool, d: nat) -> Seq<char> {
    out_chars(spec_pretty(v, false, tabs, d))
}

/// The pretty text of the first `n` elements of an array at level `d`: one line each.
#[verifier::opaque]
pub open spec fn pretty_elements_text(a: Seq<JsonView>, tabs: bool, d: nat, n: nat) -> Seq<char> {
    out_chars(spec_pretty_elements(a, false, tabs, d, n))
}

/// The pretty text of the first `n` members of an object at level `d`: one line each.
#[verifier::opaque]
pub open spec fn pretty_members_text(m: Seq<(Seq<char>, JsonView)>, tabs: bool, d: nat, n: nat) -> Seq<char> {
    out_chars(spec_pretty_members(m, key_order(m, false), false, tabs, d, n))
}

/// `n` levels of indentation.
#[verifier::opaque]
pub open spec fn indent_text(tabs: bool, n: nat) -> Seq<char> {
    repeat(indent_unit(tabs), n)
}

/// The text of a member on its line, after the indentation: its quoted key, a colon, a
/// space and its value.
pub open spec fn pretty_member_text(k: Seq<char>, v: JsonView, tabs: bool, d: nat) -> Seq<char> {
    spec_print_string(k) + seq![':', ' '] + pretty_text(v, tabs, d)
}

/// Indentation is whitespace.
pub proof fn lemma_indent_is_ws(tabs: bool, n: nat)
    ensures
        forall|i: int| 0 <= i < indent_text(tabs, n).len() ==> is_json_ws(#[trigger] indent_text(tabs, n)[i]),
    decreases n,
{
    reveal_strlit("\t");
    reveal_strlit("  ");
    reveal(indent_text);
    if n > 0 {
        lemma_indent_is_ws(tabs, (n - 1) as nat);
        let prev = indent_text(tabs, (n - 1) as nat);
        assert(indent_text(tabs, n) == prev + indent_unit(tabs));
        assert forall|i: int| 0 <= i < indent_text(tabs, n).len() implies is_json_ws(#[trigger] indent_text(tabs, n)[i]) by {
            if i < prev.len() {
                assert(indent_text(tabs, n)[i] == prev[i]);
            } else {
                assert(indent_text(tabs, n)[i] == indent_unit(tabs)[i - prev.len()]);
            }
        }
    }
}

/// Whitespace skipping moves over a whole run of whitespace and stops after it.
pub proof fn lemma_ws_run(s: Seq<char>, p: int, w: int)
    requires
        0 <= p,
        0 <= w,
        p + w <= s.len(),
        forall|i: int| p <= i < p + w ==> is_json_ws(#[trigger] s[i]),
        p + w < s.len() ==> !is_json_ws(s[p + w]),
    ensures
        ws_end(s, p) == p + w,
    decreases w,
{
    if w > 0 {
        assert(is_json_ws(s[p]));
        lemma_ws_run(s, p + 1, w - 1);
    }
}

/// The pretty texts of scalars, strings, arrays and objects.
pub proof fn lemma_pretty_text_shape(v: JsonView, tabs: bool, d: nat)
    ensures
        !(v is Array) && !(v is Object) ==> pretty_text(v, tabs, d) == compact_text(v),
        v matches JsonView::Array(a) ==> pretty_text(v, tabs, d) == (if a.len() == 0 {
            seq!['[', ']']
        } else {
            seq!['[', '\n'] + pretty_elements_text(a, tabs, d, a.len()) + indent_text(tabs, d) + seq![']']
        }),
        v matches JsonView::Object(m) ==> pretty_text(v, tabs, d) == (if m.len() == 0 {
            seq!['{', '}']
        } else {
            seq!['{', '\n'] + pretty_members_text(m, tabs, d, m.len()) + indent_text(tabs, d) + seq!['}']
        }),
{
    reveal(pretty_text);
    reveal(pretty_elements_text);
    reveal(pretty_members_text);
    reveal(indent_text);
    reveal_strlit("[]");
    reveal_strlit("{}");
    reveal_strlit("[\n");
    reveal_strlit("{\n");
    reveal_strlit("]");
    reveal_strlit("}");
    lemma_compact_text_shape(v);
    match v {
        JsonView::Array(a) => {
            if a.len() == 0 {
                lemma_out_chars_text("[]"@);
            } else {
                let body = spec_pretty_elements(a, false, tabs, d, a.len());
                let ind = out_text(repeat(indent_unit(tabs), d));
                lemma_out_chars_add(out_text("[\n"@) + body + ind, out_text("]"@));
                lemma_out_chars_add(out_text("[\n"@) + body, ind);
                lemma_out_chars_add(out_text("[\n"@), body);
                lemma_out_chars_text("[\n"@);
                lemma_out_chars_text("]"@);
                lemma_out_chars_text(repeat(indent_unit(tabs), d));
            }
        },
        JsonView::Object(m) => {
            if m.len() == 0 {
                lemma_out_chars_text("{}"@);
            } else {
                let ord = key_order(m, false);
                assert(ord.len() == m.len());
                let body = spec_pretty_members(m, ord, false, tabs, d, m.len());
                let ind = out_text(repeat(indent_unit(tabs), d));
                lemma_out_chars_add(out_text("{\n"@) + body + ind, out_text("}"@));
                lemma_out_chars_add(out_text("{\n"@) + body, ind);
                lemma_out_chars_add(out_text("{\n"@), body);
                lemma_out_chars_text("{\n"@);
                lemma_out_chars_text("}"@);
                lemma_out_chars_text(repeat(indent_unit(tabs), d));
            }
        },
        _ => {},
    }
}

/// Each element adds a line: indentation, its text, a comma unless it is the last, and
/// a line break.
pub proof fn lemma_pretty_elements_step(a: Seq<JsonView>, tabs: bool, d: nat, n: nat)
    requires
        n < a.len(),
    ensures
        pretty_elements_text(a, tabs, d, n + 1) == pretty_elements_text(a, tabs, d, n) + indent_text(tabs, d + 1)
            + pretty_text(a[n as int], tabs, d + 1) + comma_if(n + 1 < a.len()) + seq!['\n'],
{
    reveal(pretty_text);
    reveal(pretty_elements_text);
    reveal(indent_text);
    reveal_strlit(",");
    reveal_strlit("\n");
    let ind = out_text(repeat(indent_unit(tabs), d + 1));
    let val = spec_pretty(a[n as int], false, tabs, d + 1);
    let c = if n + 1 < a.len() {
        out_text(","@)
    } else {
        Seq::empty()
    };
    let nl = out_text("\n"@);
    assert(pretty_element_line(a[n as int], false, tabs, d + 1, n + 1 < a.len()) == ind + val + c + nl);
    lemma_out_chars_add(spec_pretty_elements(a, false, tabs, d, n), ind + val + c + nl);
    lemma_out_chars_add(ind + val + c, nl);
    lemma_out_chars_add(ind + val, c);
    lemma_out_chars_add(ind, val);
    lemma_out_chars_text(repeat(indent_unit(tabs), d + 1));
    lemma_out_chars_text("\n"@);
    if n + 1 < a.len() {
        lemma_out_chars_text(","@);
    } else {
        assert(out_chars(c) =~= Seq::<char>::empty());
    }
    assert(pretty_elements_text(a, tabs, d, n + 1) =~= pretty_elements_text(a, tabs, d, n) + indent_text(tabs, d + 1)
        + pretty_text(a[n as int], tabs, d + 1) + comma_if(n + 1 < a.len()) + seq!['\n']);
}

/// Each member adds a line: indentation, its text, a comma unless it is the last, and a
/// line break.
pub proof fn lemma_pretty_members_step(m: Seq<(Seq<char>, JsonView)>, tabs: bool, d: nat, n: nat)
    requires
        n < m.len(),
    ensures
        pretty_members_text(m, tabs, d, n + 1) == pretty_members_text(m, tabs, d, n) + indent_text(tabs, d + 1)
            + pretty_member_text(m[n as int].0, m[n as int].1, tabs, d + 1) + comma_if(n + 1 < m.len()) + seq!['\n'],
{
    reveal(pretty_text);
    reveal(pretty_members_text);
    reveal(indent_text);
    reveal_strlit(",");
    reveal_strlit("\n");
    reveal_strlit(":");
    reveal_strlit(" ");
    let ord = key_order(m, false);
    assert(ord[n as int] == n);
    let k = m[n as int].0;
    let ind = out_text(repeat(indent_unit(tabs), d + 1));
    let kt = out_text(spec_print_string(k));
    let qc = out_text(":"@);
    let sp = out_text(" "@);
    let val = spec_pretty(m[n as int].1, false, tabs, d + 1);
    let c = if n + 1 < m.len() {
        out_text(","@)
    } else {
        Seq::empty()
    };
    let nl = out_text("\n"@);
    assert(pretty_member_line(k, m[n as int].1, false, tabs, d + 1, n + 1 < m.len()) == ind + kt + qc + sp + val + c
        + nl);
    lemma_out_chars_add(spec_pretty_members(m, ord, false, tabs, d, n), ind + kt + qc + sp + val + c + nl);
    lemma_out_chars_add(ind + kt + qc + sp + val + c, nl);
    lemma_out_chars_add(ind + kt + qc + sp + val, c);
    lemma_out_chars_add(ind + kt + qc + sp, val);
    lemma_out_chars_add(ind + kt + qc, sp);
    lemma_out_chars_add(ind + kt, qc);
    lemma_out_chars_add(ind, kt);
    lemma_out_chars_text(repeat(indent_unit(tabs), d + 1));
    lemma_out_chars_text(spec_print_string(k));
    lemma_out_chars_text(":"@);
    lemma_out_chars_text(" "@);
    lemma_out_chars_text("\n"@);
    if n + 1 < m.len() {
        lemma_out_chars_text(","@);
    } else {
        assert(out_chars(c) =~= Seq::<char>::empty());
    }
    assert(pretty_members_text(m, tabs, d, n + 1) =~= pretty_members_text(m, tabs, d, n) + indent_text(tabs, d + 1)
        + pretty_member_text(k, m[n as int].1, tabs, d + 1) + comma_if(n + 1 < m.len()) + seq!['\n']);
}

/// The pretty text of fewer elements begins that of more.
pub proof fn lemma_pretty_elements_prefix(a: Seq<JsonView>, tabs: bool, d: nat, k: nat, n: nat)
    requires
        k <= n <= a.len(),
    ensures
        pretty_elements_text(a, tabs, d, k).len() <= pretty_elements_text(a, tabs, d, n).len(),
        pretty_elements_text(a, tabs, d, n).subrange(0, pretty_elements_text(a, tabs, d, k).len() as int)
            == pretty_elements_text(a, tabs, d, k),
    decreases n - k,
{
    if k < n {
        lemma_pretty_elements_prefix(a, tabs, d, k, (n - 1) as nat);
        lemma_pretty_elements_step(a, tabs, d, (n - 1) as nat);
        assert(pretty_elements_text(a, tabs, d, n).subrange(0, pretty_elements_text(a, tabs, d, k).len() as int)
            =~= pretty_elements_text(a, tabs, d, (n - 1) as nat).subrange(
            0,
            pretty_elements_text(a, tabs, d, k).len() as int,
        ));
    } else {
        assert(pretty_elements_text(a, tabs, d, n).subrange(0, pretty_elements_text(a, tabs, d, k).len() as int)
            =~= pretty_elements_text(a, tabs, d, k));
    }
}

/// The pretty text of fewer members begins that of more.
pub proof fn lemma_pretty_members_prefix(m: Seq<(Seq<char>, JsonView)>, tabs: bool, d: nat, k: nat, n: nat)
    requires
        k <= n <= m.len(),
    ensures
        pretty_members_text(m, tabs, d, k).len() <= pretty_members_text(m, tabs, d, n).len(),
        pretty_members_text(m, tabs, d, n).subrange(0, pretty_members_text(m, tabs, d, k).len() as int)
            == pretty_members_text(m, tabs, d, k),
    decreases n - k,
{
    if k < n {
        lemma_pretty_members_prefix(m, tabs, d, k, (n - 1) as nat);
        lemma_pretty_members_step(m, tabs, d, (n - 1) as nat);
        assert(pretty_members_text(m, tabs, d, n).subrange(0, pretty_members_text(m, tabs, d, k).len() as int)
            =~= pretty_members_text(m, tabs, d, (n - 1) as nat).subrange(
            0,
            pretty_members_text(m, tabs, d, k).len() as int,
        ));
    } else {
        assert(pretty_members_text(m, tabs, d, n).subrange(0, pretty_members_text(m, tabs, d, k).len() as int)
            =~= pretty_members_text(m, tabs, d, k));
    }
}

/// Where the closing bracket of an array stands whose element lines start at `p0`.
pub open spec fn elements_close(p0: int, a: Seq<JsonView>, tabs: bool, d: nat) -> int {
    p0 + pretty_elements_text(a, tabs, d, a.len()).len() + indent_text(tabs, d).len()
}

/// Where the text of element `k` starts, after its indentation.
pub open spec fn element_at(p0: int, a: Seq<JsonView>, tabs: bool, d: nat, k: nat) -> int {
    p0 + pretty_elements_text(a, tabs, d, k).len() + indent_text(tabs, d + 1).len()
}

/// Where reading element `k` with its trailing whitespace ends: at its comma, or at the
/// closing bracket after the last one.
pub open spec fn element_end(p0: int, a: Seq<JsonView>, tabs: bool, d: nat, k: nat) -> int {
    if k + 1 < a.len() {
        element_at(p0, a, tabs, d, k) + pretty_text(a[k as int], tabs, d + 1).len()
    } else {
        elements_close(p0, a, tabs, d)
    }
}

/// The element lines of a non-empty printable array, its closing indentation and its
/// closing bracket stand in `s` from `p0` on.
pub open spec fn elements_laid_out(s: Seq<char>, p0: int, a: Seq<JsonView>, tabs: bool, d: nat) -> bool {
    let e = pretty_elements_text(a, tabs, d, a.len());
    let c = elements_close(p0, a, tabs, d);
    &&& printable_elements(a, a.len())
    &&& a.len() > 0
    &&& 0 <= p0
    &&& c < s.len()
    &&& s.subrange(p0, p0 + e.len()) == e
    &&& s.subrange(p0 + e.len(), c) == indent_text(tabs, d)
    &&& s[c] == ']'
}

/// Where the closing brace of an object stands whose member lines start at `p0`.
pub open spec fn members_close(p0: int, m: Seq<(Seq<char>, JsonView)>, tabs: bool, d: nat) -> int {
    p0 + pretty_members_text(m, tabs, d, m.len()).len() + indent_text(tabs, d).len()
}

/// Where the text of member `k` starts, after its indentation.
pub open spec fn member_at(p0: int, m: Seq<(Seq<char>, JsonView)>, tabs: bool, d: nat, k: nat) -> int {
    p0 + pretty_members_text(m, tabs, d, k).len() + indent_text(tabs, d + 1).len()
}

/// Where reading member `k` with its trailing whitespace ends: at its comma, or at the
/// closing brace after the last one.
pub open spec fn member_end(p0: int, m: Seq<(Seq<char>, JsonView)>, tabs: bool, d: nat, k: nat) -> int {
    if k + 1 < m.len() {
        member_at(p0, m, tabs, d, k) + pretty_member_text(m[k as int].0, m[k as int].1, tabs, d + 1).len()
    } else {
        members_close(p0, m, tabs, d)
    }
}

/// The member lines of a non-empty printable object, its closing indentation and its
/// closing brace stand in `s` from `p0` on.
pub open spec fn members_laid_out(s: Seq<char>, p0: int, m: Seq<(Seq<char>, JsonView)>, tabs: bool, d: nat) -> bool {
    let e = pretty_members_text(m, tabs, d, m.len());
    let c = members_close(p0, m, tabs, d);
    &&& printable_members(m, m.len())
    &&& m.len() > 0
    &&& 0 <= p0
    &&& c < s.len()
    &&& s.subrange(p0, p0 + e.len()) == e
    &&& s.subrange(p0 + e.len(), c) == indent_text(tabs, d)
    &&& s[c] == '}'
}

/// The pretty text of a printable value starts with `n`, `t`, `f`, a quote, `[` or `{`.
pub proof fn lemma_pretty_text_start(v: JsonView, tabs: bool, d: nat)
    requires
        printable(v),
    ensures
        pretty_text(v, tabs, d).len() > 0,
        pretty_text(v, tabs, d)[0] == 'n' || pretty_text(v, tabs, d)[0] == 't' || pretty_text(v, tabs, d)[0] == 'f'
            || pretty_text(v, tabs, d)[0] == '"' || pretty_text(v, tabs, d)[0] == '['
            || pretty_text(v, tabs, d)[0] == '{',
{
    lemma_pretty_text_shape(v, tabs, d);
    crate::json_printer::round_trip::lemma_compact_text_start(v);
}

/// Where element `k`'s line stands: indentation, the element's text, then a comma and a
/// line break, or a line break, the closing indentation and the closing bracket.
pub proof fn lemma_pretty_element_layout(s: Seq<char>, p0: int, a: Seq<JsonView>, tabs: bool, d: nat, k: nat)
    requires
        elements_laid_out(s, p0, a, tabs, d),
        k < a.len(),
    ensures
        printable(a[k as int]),
        pretty_elements_text(a, tabs, d, k + 1).len() == pretty_elements_text(a, tabs, d, k).len() + indent_text(
            tabs,
            d + 1,
        ).len() + pretty_text(a[k as int], tabs, d + 1).len() + (if k + 1 < a.len() {
            2int
        } else {
            1int
        }),
        forall|i: int|
            p0 + pretty_elements_text(a, tabs, d, k).len() <= i < element_at(p0, a, tabs, d, k) ==> is_json_ws(
                #[trigger] s[i],
            ),
        s.subrange(
            element_at(p0, a, tabs, d, k),
            element_at(p0, a, tabs, d, k) + pretty_text(a[k as int], tabs, d + 1).len(),
        ) == pretty_text(a[k as int], tabs, d + 1),
        !is_json_ws(s[element_at(p0, a, tabs, d, k)]),
        s[element_at(p0, a, tabs, d, k)] != ']',
        s[element_at(p0, a, tabs, d, k)] != ',',
        k + 1 < a.len() ==> s[element_end(p0, a, tabs, d, k)] == ','
            && s[element_end(p0, a, tabs, d, k) + 1] == '\n'
            && element_end(p0, a, tabs, d, k) + 2 == p0 + pretty_elements_text(a, tabs, d, k + 1).len(),
        k + 1 == a.len() ==> forall|i: int|
            element_at(p0, a, tabs, d, k) + pretty_text(a[k as int], tabs, d + 1).len() <= i < elements_close(
                p0,
                a,
                tabs,
                d,
            ) ==> is_json_ws(#[trigger] s[i]),
        pretty_elements_text(a, tabs, d, k + 1).len() <= pretty_elements_text(a, tabs, d, a.len()).len(),
        element_at(p0, a, tabs, d, k) + pretty_text(a[k as int], tabs, d + 1).len() < elements_close(p0, a, tabs, d),
        element_end(p0, a, tabs, d, k) <= elements_close(p0, a, tabs, d),
{
    let e = pretty_elements_text(a, tabs, d, a.len());
    let ek = pretty_elements_text(a, tabs, d, k);
    let ek1 = pretty_elements_text(a, tabs, d, k + 1);
    let ind = indent_text(tabs, d + 1);
    let t = pretty_text(a[k as int], tabs, d + 1);
    let c = elements_close(p0, a, tabs, d);
    lemma_printable_element(a, a.len(), k as int);
    lemma_pretty_text_start(a[k as int], tabs, d + 1);
    lemma_pretty_elements_step(a, tabs, d, k);
    lemma_pretty_elements_prefix(a, tabs, d, k + 1, a.len());
    lemma_indent_is_ws(tabs, d + 1);
    lemma_indent_is_ws(tabs, d);
    let line = ind + t + comma_if(k + 1 < a.len()) + seq!['\n'];
    assert(ek1 == ek + line);
    assert forall|i: int| 0 <= i < line.len() implies s[p0 + ek.len() + i] == #[trigger] line[i] by {
        assert(e.subrange(0, ek1.len() as int)[ek.len() + i] == ek1[ek.len() + i]);
        assert(s.subrange(p0, p0 + e.len())[ek.len() + i] == e[ek.len() + i]);
    }
    assert forall|i: int| p0 + ek.len() <= i < element_at(p0, a, tabs, d, k) implies is_json_ws(#[trigger] s[i]) by {
        assert(line[i - p0 - ek.len()] == ind[i - p0 - ek.len()]);
    }
    assert(s.subrange(element_at(p0, a, tabs, d, k), element_at(p0, a, tabs, d, k) + t.len()) =~= t) by {
        assert forall|i: int| 0 <= i < t.len() implies s.subrange(
            element_at(p0, a, tabs, d, k),
            element_at(p0, a, tabs, d, k) + t.len(),
        )[i] == t[i] by {
            assert(line[ind.len() + i] == t[i]);
        }
    }
    assert(s[element_at(p0, a, tabs, d, k)] == t[0]) by {
        assert(line[ind.len() as int] == t[0]);
    }
    if k + 1 < a.len() {
        assert(line[ind.len() + t.len() as int] == ',');
        assert(line[ind.len() + t.len() as int + 1] == '\n');
    } else {
        assert(line[ind.len() + t.len() as int] == '\n');
        assert(ek1.len() == e.len()) by {
            assert(ek1 =~= e.subrange(0, ek1.len() as int));
        }
        assert forall|i: int|
            element_at(p0, a, tabs, d, k) + t.len() <= i < c implies is_json_ws(#[trigger] s[i]) by {
            if i == element_at(p0, a, tabs, d, k) + t.len() {
                assert(s[i] == line[ind.len() + t.len() as int]);
            } else {
                assert(s.subrange(p0 + e.len(), c)[i - p0 - e.len()] == indent_text(tabs, d)[i - p0 - e.len()]);
            }
        }
    }
}

/// Where member `k`'s line stands: indentation, the member's text, then a comma and a
/// line break, or a line break, the closing indentation and the closing brace.
pub proof fn lemma_pretty_member_layout(s: Seq<char>, p0: int, m: Seq<(Seq<char>, JsonView)>, tabs: bool, d: nat, k: nat)
    requires
        members_laid_out(s, p0, m, tabs, d),
        k < m.len(),
    ensures
        printable(m[k as int].1),
        pretty_members_text(m, tabs, d, k + 1).len() == pretty_members_text(m, tabs, d, k).len() + indent_text(
            tabs,
            d + 1,
        ).len() + pretty_member_text(m[k as int].0, m[k as int].1, tabs, d + 1).len() + (if k + 1 < m.len() {
            2int
        } else {
            1int
        }),
        forall|i: int|
            p0 + pretty_members_text(m, tabs, d, k).len() <= i < member_at(p0, m, tabs, d, k) ==> is_json_ws(
                #[trigger] s[i],
            ),
        s.subrange(
            member_at(p0, m, tabs, d, k),
            member_at(p0, m, tabs, d, k) + pretty_member_text(m[k as int].0, m[k as int].1, tabs, d + 1).len(),
        ) == pretty_member_text(m[k as int].0, m[k as int].1, tabs, d + 1),
        s[member_at(p0, m, tabs, d, k)] == '"',
        k + 1 < m.len() ==> s[member_end(p0, m, tabs, d, k)] == ','
            && s[member_end(p0, m, tabs, d, k) + 1] == '\n'
            && member_end(p0, m, tabs, d, k) + 2 == p0 + pretty_members_text(m, tabs, d, k + 1).len(),
        k + 1 == m.len() ==> forall|i: int|
            member_at(p0, m, tabs, d, k) + pretty_member_text(m[k as int].0, m[k as int].1, tabs, d + 1).len() <= i
                < members_close(p0, m, tabs, d) ==> is_json_ws(#[trigger] s[i]),
        pretty_members_text(m, tabs, d, k + 1).len() <= pretty_members_text(m, tabs, d, m.len()).len(),
        member_at(p0, m, tabs, d, k) + pretty_member_text(m[k as int].0, m[k as int].1, tabs, d + 1).len() < members_close(
            p0,
            m,
            tabs,
            d,
        ),
        member_end(p0, m, tabs, d, k) <= members_close(p0, m, tabs, d),
{
    let e = pretty_members_text(m, tabs, d, m.len());
    let ek = pretty_members_text(m, tabs, d, k);
    let ek1 = pretty_members_text(m, tabs, d, k + 1);
    let ind = indent_text(tabs, d + 1);
    let t = pretty_member_text(m[k as int].0, m[k as int].1, tabs, d + 1);
    let c = members_close(p0, m, tabs, d);
    lemma_printable_member(m, m.len(), k as int);
    lemma_pretty_members_step(m, tabs, d, k);
    lemma_pretty_members_prefix(m, tabs, d, k + 1, m.len());
    lemma_indent_is_ws(tabs, d + 1);
    lemma_indent_is_ws(tabs, d);
    let line = ind + t + comma_if(k + 1 < m.len()) + seq!['\n'];
    assert(ek1 == ek + line);
    assert forall|i: int| 0 <= i < line.len() implies s[p0 + ek.len() + i] == #[trigger] line[i] by {
        assert(e.subrange(0, ek1.len() as int)[ek.len() + i] == ek1[ek.len() + i]);
        assert(s.subrange(p0, p0 + e.len())[ek.len() + i] == e[ek.len() + i]);
    }
    assert forall|i: int| p0 + ek.len() <= i < member_at(p0, m, tabs, d, k) implies is_json_ws(#[trigger] s[i]) by {
        assert(line[i - p0 - ek.len()] == ind[i - p0 - ek.len()]);
    }
    assert(s.subrange(member_at(p0, m, tabs, d, k), member_at(p0, m, tabs, d, k) + t.len()) =~= t) by {
        assert forall|i: int| 0 <= i < t.len() implies s.subrange(
            member_at(p0, m, tabs, d, k),
            member_at(p0, m, tabs, d, k) + t.len(),
        )[i] == t[i] by {
            assert(line[ind.len() + i] == t[i]);
        }
    }
    assert(s[member_at(p0, m, tabs, d, k)] == t[0]) by {
        assert(line[ind.len() as int] == t[0]);
    }
    if k + 1 < m.len() {
        assert(line[ind.len() + t.len() as int] == ',');
        assert(line[ind.len() + t.len() as int + 1] == '\n');
    } else {
        assert(line[ind.len() + t.len() as int] == '\n');
        assert(ek1.len() == e.len()) by {
            assert(ek1 =~= e.subrange(0, ek1.len() as int));
        }
        assert forall|i: int|
            member_at(p0, m, tabs, d, k) + t.len() <= i < c implies is_json_ws(#[trigger] s[i]) by {
            if i == member_at(p0, m, tabs, d, k) + t.len() {
                assert(s[i] == line[ind.len() + t.len() as int]);
            } else {
                assert(s.subrange(p0 + e.len(), c)[i - p0 - e.len()] == indent_text(tabs, d)[i - p0 - e.len()]);
            }
        }
    }
}

/// The pretty text of a printable value, found at `p`, is read there as that value.
pub proof fn lemma_pretty_reads_back(s: Seq<char>, p: int, v: JsonView, tabs: bool, d: nat)
    requires
        printable(v),
        0 <= p,
        p + pretty_text(v, tabs, d).len() <= s.len(),
        s.subrange(p, p + pretty_text(v, tabs, d).len()) == pretty_text(v, tabs, d),
    ensures
        spec_value(s, p) == Ok::<(int, JsonView), crate::json_parser::JSONParseError>(
            (p + pretty_text(v, tabs, d).len(), v),
        ),
    decreases v, 0int,
{
    lemma_pretty_text_shape(v, tabs, d);
    lemma_pretty_text_start(v, tabs, d);
    match v {
        JsonView::Array(a) => {
            assert(s[p] == pretty_text(v, tabs, d)[0]);
            lemma_ws_end_here(s, p);
            lemma_pretty_array_reads_back(s, p, a, tabs, d);
        },
        JsonView::Object(m) => {
            assert(s[p] == pretty_text(v, tabs, d)[0]);
            lemma_ws_end_here(s, p);
            lemma_pretty_object_reads_back(s, p, m, tabs, d);
        },
        _ => {
            lemma_reads_back(s, p, v);
        },
    }
}

/// The pretty text of a printable array, found at `p`, is read there as that array.
#[verifier::rlimit(40)]
pub proof fn lemma_pretty_array_reads_back(s: Seq<char>, p: int, a: Seq<JsonView>, tabs: bool, d: nat)
    requires
        printable(JsonView::Array(a)),
        0 <= p,
        p + pretty_text(JsonView::Array(a), tabs, d).len() <= s.len(),
        s.subrange(p, p + pretty_text(JsonView::Array(a), tabs, d).len()) == pretty_text(JsonView::Array(a), tabs, d),
    ensures
        spec_array(s, p) == Ok::<(int, JsonView), crate::json_parser::JSONParseError>(
            (p + pretty_text(JsonView::Array(a), tabs, d).len(), JsonView::Array(a)),
        ),
    decreases a, a.len() + 1,
{
    let t = pretty_text(JsonView::Array(a), tabs, d);
    lemma_pretty_text_shape(JsonView::Array(a), tabs, d);
    assert(s[p] == t[0]);
    lemma_ws_end_here(s, p);
    if a.len() == 0 {
        assert(s[p + 1] == t[1]);
        assert(a =~= Seq::<JsonView>::empty());
    } else {
        let e = pretty_elements_text(a, tabs, d, a.len());
        let ind = indent_text(tabs, d);
        let p0 = p + 2;
        let c = elements_close(p0, a, tabs, d);
        lemma_text_at_part(s, p, t, 2, 2 + e.len() as int);
        assert(t.subrange(2, 2 + e.len() as int) =~= e);
        lemma_text_at_part(s, p, t, 2 + e.len() as int, 2 + e.len() + ind.len() as int);
        assert(t.subrange(2 + e.len() as int, 2 + e.len() + ind.len() as int) =~= ind);
        assert(s[c] == t[2 + e.len() + ind.len() as int]);
        assert(s[p + 1] == t[1]);
        assert(elements_laid_out(s, p0, a, tabs, d));
        assert(pretty_elements_text(a, tabs, d, 0) =~= Seq::<char>::empty()) by {
            reveal(pretty_elements_text);
        }
        lemma_pretty_element_layout(s, p0, a, tabs, d, 0);
        let v0 = element_at(p0, a, tabs, d, 0);
        lemma_ws_run(s, p + 1, v0 - p - 1);
        lemma_pretty_element_reads_back(s, p0, a, tabs, d, 0);
        lemma_pretty_elements_read_back(s, p0, a, tabs, d, 1);
        assert(a.take(1) =~= seq![a[0]]);
        assert(spec_elements(s, v0) == Ok::<(int, Seq<JsonView>), crate::json_parser::JSONParseError>((c, a)));
        lemma_ws_end_here(s, c);
    }
}

/// Element `k` of an array is read back where its text stands, with the whitespace
/// after it.
pub proof fn lemma_pretty_element_reads_back(s: Seq<char>, p0: int, a: Seq<JsonView>, tabs: bool, d: nat, k: nat)
    requires
        elements_laid_out(s, p0, a, tabs, d),
        k < a.len(),
    ensures
        spec_element(s, element_at(p0, a, tabs, d, k)) == Ok::<(int, JsonView), crate::json_parser::JSONParseError>(
            (element_end(p0, a, tabs, d, k), a[k as int]),
        ),
    decreases a, a.len() - k - 1,
{
    lemma_pretty_element_layout(s, p0, a, tabs, d, k);
    let v = element_at(p0, a, tabs, d, k);
    let t = pretty_text(a[k as int], tabs, d + 1);
    lemma_ws_end_here(s, v);
    lemma_pretty_reads_back(s, v, a[k as int], tabs, d + 1);
    if k + 1 < a.len() {
        lemma_ws_end_here(s, v + t.len());
    } else {
        lemma_ws_run(s, v + t.len(), elements_close(p0, a, tabs, d) - v - t.len());
    }
}

/// After the first `k` elements of an array, the rest of its elements are read back.
pub proof fn lemma_pretty_elements_read_back(s: Seq<char>, p0: int, a: Seq<JsonView>, tabs: bool, d: nat, k: nat)
    requires
        elements_laid_out(s, p0, a, tabs, d),
        1 <= k <= a.len(),
    ensures
        spec_elements_tail(s, element_end(p0, a, tabs, d, (k - 1) as nat), a.take(k as int)) == Ok::<
            (int, Seq<JsonView>),
            crate::json_parser::JSONParseError,
        >((elements_close(p0, a, tabs, d), a)),
    decreases a, a.len() - k,
{
    let r = element_end(p0, a, tabs, d, (k - 1) as nat);
    lemma_pretty_element_layout(s, p0, a, tabs, d, (k - 1) as nat);
    if k == a.len() {
        lemma_ws_end_here(s, r);
        assert(a.take(k as int) =~= a);
    } else {
        lemma_ws_end_here(s, r);
        lemma_pretty_element_layout(s, p0, a, tabs, d, k);
        let v = element_at(p0, a, tabs, d, k);
        lemma_ws_run(s, r + 1, v - r - 1);
        lemma_pretty_element_reads_back(s, p0, a, tabs, d, k);
        lemma_pretty_elements_read_back(s, p0, a, tabs, d, k + 1);
        assert(a.take(k as int).push(a[k as int]) =~= a.take(k + 1 as int));
    }
}

/// The pretty text of a printable object, found at `p`, is read there as that object.
#[verifier::rlimit(40)]
pub proof fn lemma_pretty_object_reads_back(s: Seq<char>, p: int, m: Seq<(Seq<char>, JsonView)>, tabs: bool, d: nat)
    requires
        printable(JsonView::Object(m)),
        0 <= p,
        p + pretty_text(JsonView::Object(m), tabs, d).len() <= s.len(),
        s.subrange(p, p + pretty_text(JsonView::Object(m), tabs, d).len()) == pretty_text(JsonView::Object(m), tabs, d),
    ensures
        spec_object(s, p) == Ok::<(int, JsonView), crate::json_parser::JSONParseError>(
            (p + pretty_text(JsonView::Object(m), tabs, d).len(), JsonView::Object(m)),
        ),
    decreases m, m.len() + 1,
{
    let t = pretty_text(JsonView::Object(m), tabs, d);
    lemma_pretty_text_shape(JsonView::Object(m), tabs, d);
    assert(s[p] == t[0]);
    lemma_ws_end_here(s, p);
    if m.len() == 0 {
        assert(s[p + 1] == t[1]);
        assert(m =~= Seq::<(Seq<char>, JsonView)>::empty());
    } else {
        let e = pretty_members_text(m, tabs, d, m.len());
        let ind = indent_text(tabs, d);
        let p0 = p + 2;
        let c = members_close(p0, m, tabs, d);
        lemma_text_at_part(s, p, t, 2, 2 + e.len() as int);
        assert(t.subrange(2, 2 + e.len() as int) =~= e);
        lemma_text_at_part(s, p, t, 2 + e.len() as int, 2 + e.len() + ind.len() as int);
        assert(t.subrange(2 + e.len() as int, 2 + e.len() + ind.len() as int) =~= ind);
        assert(s[c] == t[2 + e.len() + ind.len() as int]);
        assert(s[p + 1] == t[1]);
        assert(members_laid_out(s, p0, m, tabs, d));
        assert(pretty_members_text(m, tabs, d, 0) =~= Seq::<char>::empty()) by {
            reveal(pretty_members_text);
        }
        lemma_pretty_member_layout(s, p0, m, tabs, d, 0);
        let v0 = member_at(p0, m, tabs, d, 0);
        lemma_ws_run(s, p + 1, v0 - p - 1);
        lemma_pretty_member_reads_back(s, p0, m, tabs, d, 0);
        lemma_pretty_members_read_back(s, p0, m, tabs, d, 1);
        assert(m.take(1) =~= seq![(m[0].0, m[0].1)]);
        assert(spec_members(s, v0) == Ok::<(int, Seq<(Seq<char>, JsonView)>), crate::json_parser::JSONParseError>(
            (c, m),
        ));
        lemma_ws_end_here(s, c);
        lemma_object_from_distinct(m);
    }
}

/// Member `k` of an object is read back where its text stands, with the whitespace
/// after it.
#[verifier::rlimit(40)]
pub proof fn lemma_pretty_member_reads_back(s: Seq<char>, p0: int, m: Seq<(Seq<char>, JsonView)>, tabs: bool, d: nat, k: nat)
    requires
        members_laid_out(s, p0, m, tabs, d),
        k < m.len(),
    ensures
        spec_member(s, member_at(p0, m, tabs, d, k)) == Ok::<
            (int, (Seq<char>, JsonView)),
            crate::json_parser::JSONParseError,
        >((member_end(p0, m, tabs, d, k), (m[k as int].0, m[k as int].1))),
    decreases m, m.len() - k - 1,
{
    lemma_pretty_member_layout(s, p0, m, tabs, d, k);
    let q = member_at(p0, m, tabs, d, k);
    let key = m[k as int].0;
    let val = m[k as int].1;
    let mt = pretty_member_text(key, val, tabs, d + 1);
    let t = pretty_text(val, tabs, d + 1);
    let kl = spec_print_string(key).len() - 2;
    lemma_pretty_text_start(val, tabs, d + 1);
    assert(spec_string(s, q) == Ok::<(int, Seq<char>), crate::json_parser::JSONParseError>((q + kl + 2, key))
        && s[q] == '"') by {
        lemma_text_at_part(s, q, mt, 0, kl + 2);
        assert(mt.subrange(0, kl + 2) =~= spec_print_string(key));
        lemma_printed_string_at(s, q, key);
    }
    lemma_ws_end_here(s, q);
    assert(s[q + kl + 2] == mt[kl + 2]);
    lemma_ws_end_here(s, q + kl + 2);
    assert(s[q + kl + 3] == mt[kl + 3]);
    assert(s[q + kl + 4] == mt[kl + 4]);
    assert(mt[kl + 4] == t[0]);
    lemma_ws_run(s, q + kl + 3, 1);
    lemma_text_at_part(s, q, mt, kl + 4, mt.len() as int);
    assert(mt.subrange(kl + 4, mt.len() as int) =~= t);
    lemma_pretty_reads_back(s, q + kl + 4, val, tabs, d + 1);
    if k + 1 < m.len() {
        lemma_ws_end_here(s, q + mt.len());
    } else {
        lemma_ws_run(s, q + mt.len(), members_close(p0, m, tabs, d) - q - mt.len());
    }
}

/// After the first `k` members of an object, the rest of its members are read back.
pub proof fn lemma_pretty_members_read_back(s: Seq<char>, p0: int, m: Seq<(Seq<char>, JsonView)>, tabs: bool, d: nat, k: nat)
    requires
        members_laid_out(s, p0, m, tabs, d),
        1 <= k <= m.len(),
    ensures
        spec_members_tail(s, member_end(p0, m, tabs, d, (k - 1) as nat), m.take(k as int)) == Ok::<
            (int, Seq<(Seq<char>, JsonView)>),
            crate::json_parser::JSONParseError,
        >((members_close(p0, m, tabs, d), m)),
    decreases m, m.len() - k,
{
    let r = member_end(p0, m, tabs, d, (k - 1) as nat);
    lemma_pretty_member_layout(s, p0, m, tabs, d, (k - 1) as nat);
    if k == m.len() {
        lemma_ws_end_here(s, r);
        assert(m.take(k as int) =~= m);
    } else {
        lemma_ws_end_here(s, r);
        lemma_pretty_member_layout(s, p0, m, tabs, d, k);
        let v = member_at(p0, m, tabs, d, k);
        lemma_ws_run(s, r + 1, v - r - 1);
        lemma_pretty_member_reads_back(s, p0, m, tabs, d, k);
        lemma_pretty_members_read_back(s, p0, m, tabs, d, k + 1);
        assert(m.take(k as int).push((m[k as int].0, m[k as int].1)) =~= m.take(k + 1 as int));
    }
}

/// The pretty text of a printable value (no numbers, no key given twice in an object),
/// at any indentation level, indented by tabs or by spaces, with members in stored
/// order, is read back by the parser as the same value.
pub proof fn pretty_text_reads_back(v: JsonView, tabs: bool, d: nat)
    requires
        printable(v),
    ensures
        spec_parse(pretty_text(v, tabs, d)) == Ok::<JsonView, crate::json_parser::JSONParseError>(v),
{
    let t = pretty_text(v, tabs, d);
    lemma_pretty_text_start(v, tabs, d);
    assert(t.subrange(0, t.len() as int) =~= t);
    lemma_pretty_reads_back(t, 0, v, tabs, d);
    lemma_ws_end_here(t, 0);
}

/// What the library prints for a printable value (no numbers, no key given twice in an
/// object), compact or pretty, at any indentation level, with keys in stored order, is
/// read back by the parser as the same value.
pub proof fn printed_value_reads_back(v: JsonView, indent: nat, compact: bool, tabs: bool)
    requires
        printable(v),
    ensures
        spec_parse(out_chars(spec_format(v, indent, compact, false, tabs))) == Ok::<
            JsonView,
            crate::json_parser::JSONParseError,
        >(v),
{
    reveal(pretty_text);
    reveal_strlit("\n");
    let body = if compact {
        spec_compact(v, false)
    } else {
        spec_pretty(v, false, tabs, indent)
    };
    let t = out_chars(body);
    let s = out_chars(spec_format(v, indent, compact, false, tabs));
    if indent == 0 {
        lemma_out_chars_add(body, out_text("\n"@));
        lemma_out_chars_text("\n"@);
        assert(s == t + seq!['\n']);
    } else {
        assert(s == t);
    }
    assert(s.subrange(0, t.len() as int) =~= t);
    if compact {
        crate::json_printer::round_trip::lemma_compact_text_start(v);
        lemma_reads_back(s, 0, v);
    } else {
        lemma_pretty_text_start(v, tabs, indent);
        lemma_pretty_reads_back(s, 0, v, tabs, indent);
    }
    assert(s[0] == t[0]);
    lemma_ws_end_here(s, 0);
    if indent == 0 {
        lemma_ws_run(s, t.len() as int, 1);
    }
}

} // verus!
