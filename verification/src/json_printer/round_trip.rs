//! Compact output read back: the text that the compact printer writes for a value is
//! read by the parser as that same value.

use vstd::prelude::*;
use crate::json_parser::{JsonView, object_from_pairs, lemma_object_insert_new, spec_parse, spec_value, spec_element, spec_elements, spec_elements_tail, spec_array, spec_member, spec_members, spec_members_tail, spec_object, spec_string, spec_string_scan, spec_bool, ws_end, is_json_ws};
use crate::text::has_prefix_at;
use crate::json_printer::{OutView, out_text, key_order};
use crate::json_printer::compact_printer::{spec_compact, spec_compact_elements, spec_compact_members};
use crate::json_printer::utils::{escape_body, lemma_printed_string_at, lemma_scan_escaped, spec_print_string};
use crate::json_value_filter::distinct_keys;

verus! {

/// The characters of printed output; numbers, which are no characters, stand as `0`.
pub open spec fn out_chars(o: Seq<OutView>) -> Seq<char> {
    o.map_values(
        |x: OutView|
            match x {
                OutView::Char(u) => u as char,
                OutView::Number(_) => '0',
            },
    )
}

/// A value whose compact text reads back as itself: no numbers (printed as floating
/// point) and no two members of an object with one key.
pub open spec fn printable(v: JsonView) -> bool
    decreases v, 0nat,
{
    match v {
        JsonView::Number(_) => false,
        JsonView::Array(a) => printable_elements(a, a.len()),
        JsonView::Object(m) => distinct_keys(m) && printable_members(m, m.len()),
        _ => true,
    }
}

/// The first `n` elements are printable.
pub open spec fn printable_elements(a: Seq<JsonView>, n: nat) -> bool
    decreases a, n,
{
    if n == 0 || n > a.len() {
        true
    } else {
        printable_elements(a, (n - 1) as nat) && printable(a[n - 1])
    }
}

/// The first `n` members have printable values.
pub open spec fn printable_members(m: Seq<(Seq<char>, JsonView)>, n: nat) -> bool
    decreases m, n,
{
    if n == 0 || n > m.len() {
        true
    } else {
        printable_members(m, (n - 1) as nat) && printable(m[n - 1].1)
    }
}

/// The compact text of a value, with members in stored order.
pub open spec fn compact_text(v: JsonView) -> Seq<char> {
    out_chars(spec_compact(v, false))
}

/// Reading characters back from output distributes over concatenation.
pub proof fn lemma_out_chars_add(a: Seq<OutView>, b: Seq<OutView>)
    ensures
        out_chars(a + b) == out_chars(a) + out_chars(b),
{
    assert(out_chars(a + b) =~= out_chars(a) + out_chars(b));
}

/// Text written as output reads back as itself.
pub proof fn lemma_out_chars_text(t: Seq<char>)
    ensures
        out_chars(out_text(t)) == t,
{
    assert forall|i: int| 0 <= i < t.len() implies #[trigger] out_chars(out_text(t))[i] == t[i] by {
        let c = t[i];
        assert(out_text(t)[i] == OutView::Char(c as u32));
        vstd::utf8::char_u32_cast(c, c as u32);
    }
    assert(out_chars(out_text(t)) =~= t);
}

/// The compact text of the first `n` elements of an array, with their commas.
pub open spec fn elements_text(a: Seq<JsonView>, n: nat) -> Seq<char> {
    out_chars(spec_compact_elements(a, false, n))
}

/// The compact text of the first `n` members of an object, with their commas.
pub open spec fn members_text(m: Seq<(Seq<char>, JsonView)>, n: nat) -> Seq<char> {
    out_chars(spec_compact_members(m, key_order(m, false), false, n))
}

/// A comma when `more` holds, nothing otherwise.
pub open spec fn comma_if(more: bool) -> Seq<char> {
    if more {
        seq![',']
    } else {
        Seq::empty()
    }
}

/// The compact text of a member: its key as a string literal, a colon and its value.
pub open spec fn member_text(k: Seq<char>, v: JsonView) -> Seq<char> {
    spec_print_string(k) + seq![':'] + compact_text(v)
}

/// The compact texts of scalars, strings, arrays and objects.
pub proof fn lemma_compact_text_shape(v: JsonView)
    ensures
        v is Null ==> compact_text(v) == seq!['n', 'u', 'l', 'l'],
        v is True ==> compact_text(v) == seq!['t', 'r', 'u', 'e'],
        v is False ==> compact_text(v) == seq!['f', 'a', 'l', 's', 'e'],
        v matches JsonView::Str(t) ==> compact_text(v) == spec_print_string(t),
        v matches JsonView::Array(a) ==> compact_text(v) == (if a.len() == 0 {
            seq!['[', ']']
        } else {
            seq!['['] + elements_text(a, a.len()) + seq![']']
        }),
        v matches JsonView::Object(m) ==> compact_text(v) == (if m.len() == 0 {
            seq!['{', '}']
        } else {
            seq!['{'] + members_text(m, m.len()) + seq!['}']
        }),
{
    reveal_strlit("null");
    reveal_strlit("true");
    reveal_strlit("false");
    reveal_strlit("[]");
    reveal_strlit("{}");
    reveal_strlit("[");
    reveal_strlit("]");
    reveal_strlit("{");
    reveal_strlit("}");
    match v {
        JsonView::Null => {
            lemma_out_chars_text("null"@);
        },
        JsonView::True => {
            lemma_out_chars_text("true"@);
        },
        JsonView::False => {
            lemma_out_chars_text("false"@);
        },
        JsonView::Str(t) => {
            lemma_out_chars_text(spec_print_string(t));
        },
        JsonView::Array(a) => {
            if a.len() == 0 {
                lemma_out_chars_text("[]"@);
            } else {
                let body = spec_compact_elements(a, false, a.len());
                lemma_out_chars_add(out_text("["@) + body, out_text("]"@));
                lemma_out_chars_add(out_text("["@), body);
                lemma_out_chars_text("["@);
                lemma_out_chars_text("]"@);
            }
        },
        JsonView::Object(m) => {
            if m.len() == 0 {
                lemma_out_chars_text("{}"@);
            } else {
                let ord = key_order(m, false);
                assert(ord.len() == m.len());
                let body = spec_compact_members(m, ord, false, m.len());
                lemma_out_chars_add(out_text("{"@) + body, out_text("}"@));
                lemma_out_chars_add(out_text("{"@), body);
                lemma_out_chars_text("{"@);
                lemma_out_chars_text("}"@);
            }
        },
        JsonView::Number(_) => {},
    }
}

/// Each element adds its text and, unless it is the last, a comma.
pub proof fn lemma_elements_text_step(a: Seq<JsonView>, n: nat)
    requires
        n < a.len(),
    ensures
        elements_text(a, n + 1) == elements_text(a, n) + compact_text(a[n as int]) + comma_if(n + 1 < a.len()),
{
    reveal_strlit(",");
    let prev = spec_compact_elements(a, false, n);
    let cur = spec_compact(a[n as int], false);
    let tail = if n + 1 < a.len() {
        out_text(","@)
    } else {
        Seq::empty()
    };
    assert(spec_compact_elements(a, false, n + 1) == prev + cur + tail);
    lemma_out_chars_add(prev + cur, tail);
    lemma_out_chars_add(prev, cur);
    if n + 1 < a.len() {
        lemma_out_chars_text(","@);
    } else {
        assert(out_chars(tail) =~= Seq::<char>::empty());
    }
}

/// Each member adds its text and, unless it is the last, a comma.
pub proof fn lemma_members_text_step(m: Seq<(Seq<char>, JsonView)>, n: nat)
    requires
        n < m.len(),
    ensures
        members_text(m, n + 1) == members_text(m, n) + member_text(m[n as int].0, m[n as int].1) + comma_if(
            n + 1 < m.len(),
        ),
{
    reveal_strlit(",");
    reveal_strlit(":");
    let ord = key_order(m, false);
    assert(ord[n as int] == n);
    let prev = spec_compact_members(m, ord, false, n);
    let kt = out_text(spec_print_string(m[n as int].0));
    let cur = spec_compact(m[n as int].1, false);
    let tail = if n + 1 < m.len() {
        out_text(","@)
    } else {
        Seq::empty()
    };
    assert(spec_compact_members(m, ord, false, n + 1) == prev + kt + out_text(":"@) + cur + tail);
    lemma_out_chars_add(prev + kt + out_text(":"@) + cur, tail);
    lemma_out_chars_add(prev + kt + out_text(":"@), cur);
    lemma_out_chars_add(prev + kt, out_text(":"@));
    lemma_out_chars_add(prev, kt);
    lemma_out_chars_text(spec_print_string(m[n as int].0));
    lemma_out_chars_text(":"@);
    if n + 1 < m.len() {
        lemma_out_chars_text(","@);
    } else {
        assert(out_chars(tail) =~= Seq::<char>::empty());
    }
    assert(members_text(m, n + 1) =~= members_text(m, n) + member_text(m[n as int].0, m[n as int].1)
        + comma_if(n + 1 < m.len()));
}

/// A stretch of text found at `p` gives each of its parts at the matching place.
pub proof fn lemma_text_at_part(s: Seq<char>, p: int, x: Seq<char>, i: int, j: int)
    requires
        0 <= p,
        p + x.len() <= s.len(),
        s.subrange(p, p + x.len()) == x,
        0 <= i <= j <= x.len(),
    ensures
        s.subrange(p + i, p + j) == x.subrange(i, j),
{
    assert forall|k: int| 0 <= k < j - i implies #[trigger] s.subrange(p + i, p + j)[k] == x.subrange(i, j)[k] by {
        assert(s.subrange(p, p + x.len())[i + k] == x[i + k]);
    }
    assert(s.subrange(p + i, p + j) =~= x.subrange(i, j));
}

/// The text of fewer elements begins the text of more.
pub proof fn lemma_elements_text_prefix(a: Seq<JsonView>, k: nat, n: nat)
    requires
        k <= n <= a.len(),
    ensures
        elements_text(a, k).len() <= elements_text(a, n).len(),
        elements_text(a, n).subrange(0, elements_text(a, k).len() as int) == elements_text(a, k),
    decreases n - k,
{
    if k < n {
        lemma_elements_text_prefix(a, k, (n - 1) as nat);
        lemma_elements_text_step(a, (n - 1) as nat);
        assert(elements_text(a, n).subrange(0, elements_text(a, k).len() as int) =~= elements_text(
            a,
            (n - 1) as nat,
        ).subrange(0, elements_text(a, k).len() as int));
    } else {
        assert(elements_text(a, n).subrange(0, elements_text(a, k).len() as int) =~= elements_text(a, k));
    }
}

/// The text of fewer members begins the text of more.
pub proof fn lemma_members_text_prefix(m: Seq<(Seq<char>, JsonView)>, k: nat, n: nat)
    requires
        k <= n <= m.len(),
    ensures
        members_text(m, k).len() <= members_text(m, n).len(),
        members_text(m, n).subrange(0, members_text(m, k).len() as int) == members_text(m, k),
    decreases n - k,
{
    if k < n {
        lemma_members_text_prefix(m, k, (n - 1) as nat);
        lemma_members_text_step(m, (n - 1) as nat);
        assert(members_text(m, n).subrange(0, members_text(m, k).len() as int) =~= members_text(
            m,
            (n - 1) as nat,
        ).subrange(0, members_text(m, k).len() as int));
    } else {
        assert(members_text(m, n).subrange(0, members_text(m, k).len() as int) =~= members_text(m, k));
    }
}

/// An element of printable elements is printable.
pub proof fn lemma_printable_element(a: Seq<JsonView>, n: nat, i: int)
    requires
        printable_elements(a, n),
        0 <= i < n <= a.len(),
    ensures
        printable(a[i]),
    decreases n,
{
    if i < n - 1 {
        lemma_printable_element(a, (n - 1) as nat, i);
    }
}

/// A member of printable members has a printable value.
pub proof fn lemma_printable_member(m: Seq<(Seq<char>, JsonView)>, n: nat, i: int)
    requires
        printable_members(m, n),
        0 <= i < n <= m.len(),
    ensures
        printable(m[i].1),
    decreases n,
{
    if i < n - 1 {
        lemma_printable_member(m, (n - 1) as nat, i);
    }
}

/// The compact text of a printable value starts with `n`, `t`, `f`, a quote, `[` or `{`.
pub proof fn lemma_compact_text_start(v: JsonView)
    requires
        printable(v),
    ensures
        compact_text(v).len() > 0,
        compact_text(v)[0] == 'n' || compact_text(v)[0] == 't' || compact_text(v)[0] == 'f'
            || compact_text(v)[0] == '"' || compact_text(v)[0] == '[' || compact_text(v)[0] == '{',
{
    lemma_compact_text_shape(v);
}

/// Distinct keys make an object out of its members unchanged.
pub proof fn lemma_object_from_distinct(m: Seq<(Seq<char>, JsonView)>)
    requires
        distinct_keys(m),
    ensures
        object_from_pairs(m) == m,
    decreases m.len(),
{
    if m.len() > 0 {
        let init = m.drop_last();
        assert(distinct_keys(init)) by {
            assert forall|i: int, j: int| #![trigger init[i], init[j]] 0 <= i < j < init.len() implies init[i].0
                != init[j].0 by {
                assert(init[i] == m[i] && init[j] == m[j]);
            }
        }
        lemma_object_from_distinct(init);
        assert forall|j: int| 0 <= j < init.len() implies init[j].0 != m.last().0 by {
            assert(init[j] == m[j]);
            assert(m.last() == m[m.len() - 1]);
        }
        lemma_object_insert_new(init, m.last().0, m.last().1);
        assert(init.push((m.last().0, m.last().1)) =~= m);
    }
}

/// Whitespace skipping stops at once on a character that is no whitespace.
pub proof fn lemma_ws_end_here(s: Seq<char>, p: int)
    requires
        0 <= p < s.len(),
        !is_json_ws(s[p]),
    ensures
        ws_end(s, p) == p,
{
}

/// A member's text is read back as that member, when its value's text is.
pub proof fn lemma_member_at(s: Seq<char>, q: int, key: Seq<char>, val: JsonView)
    requires
        printable(val),
        0 <= q,
        q + member_text(key, val).len() < s.len(),
        s.subrange(q, q + member_text(key, val).len()) == member_text(key, val),
        !is_json_ws(s[q + member_text(key, val).len()]),
        spec_value(s, q + spec_print_string(key).len() + 1) == Ok::<(int, JsonView), crate::json_parser::JSONParseError>(
            (q + member_text(key, val).len(), val),
        ),
    ensures
        spec_member(s, q) == Ok::<(int, (Seq<char>, JsonView)), crate::json_parser::JSONParseError>(
            (q + member_text(key, val).len(), (key, val)),
        ),
{
    let mt = member_text(key, val);
    let n = mt.len() as int;
    let lit = spec_print_string(key);
    let kl = lit.len() as int;
    lemma_compact_text_start(val);
    lemma_text_at_part(s, q, mt, 0, kl);
    assert(mt.subrange(0, kl) =~= lit);
    lemma_printed_string_at(s, q, key);
    lemma_ws_end_here(s, q);
    assert(s[q + kl] == mt[kl]);
    assert(mt[kl] == ':');
    lemma_ws_end_here(s, q + kl);
    assert(s[q + kl + 1] == mt[kl + 1]);
    assert(mt[kl + 1] == compact_text(val)[0]);
    lemma_ws_end_here(s, q + kl + 1);
    lemma_ws_end_here(s, q + n);
}

/// Where the elements of an array stand in its text: element `k` right after the
/// text of the elements before it, followed by a comma or by the closing bracket.
pub proof fn lemma_element_layout(s: Seq<char>, p0: int, a: Seq<JsonView>, k: nat)
    requires
        printable_elements(a, a.len()),
        k < a.len(),
        0 <= p0,
        p0 + elements_text(a, a.len()).len() < s.len(),
        s.subrange(p0, p0 + elements_text(a, a.len()).len()) == elements_text(a, a.len()),
        s[p0 + elements_text(a, a.len()).len()] == ']',
    ensures
        printable(a[k as int]),
        elements_text(a, k + 1).len() == elements_text(a, k).len() + compact_text(a[k as int]).len() + (if k + 1
            < a.len() {
            1int
        } else {
            0int
        }),
        elements_text(a, k + 1).len() <= elements_text(a, a.len()).len(),
        s.subrange(
            p0 + elements_text(a, k).len(),
            p0 + elements_text(a, k).len() + compact_text(a[k as int]).len(),
        ) == compact_text(a[k as int]),
        !is_json_ws(s[p0 + elements_text(a, k).len()]),
        s[p0 + elements_text(a, k).len() + compact_text(a[k as int]).len()] == (if k + 1 < a.len() {
            ','
        } else {
            ']'
        }),
        k == a.len() - 1 ==> elements_text(a, k + 1).len() == elements_text(a, a.len()).len(),
{
    let e = elements_text(a, a.len());
    let ek = elements_text(a, k);
    let tk = compact_text(a[k as int]);
    let ek1 = elements_text(a, k + 1);
    lemma_printable_element(a, a.len(), k as int);
    lemma_compact_text_start(a[k as int]);
    lemma_elements_text_step(a, k);
    lemma_elements_text_prefix(a, k + 1, a.len());
    assert(ek1 == ek + tk + comma_if(k + 1 < a.len()));
    lemma_text_at_part(s, p0, e, ek.len() as int, ek.len() + tk.len() as int);
    assert(e.subrange(ek.len() as int, ek.len() + tk.len() as int) =~= tk) by {
        assert forall|i: int| 0 <= i < tk.len() implies e.subrange(ek.len() as int, ek.len() + tk.len() as int)[i]
            == tk[i] by {
            assert(e.subrange(0, ek1.len() as int)[ek.len() + i] == ek1[ek.len() + i]);
        }
    }
    assert(s[p0 + ek.len()] == s.subrange(p0 + ek.len(), p0 + ek.len() + tk.len())[0]);
    if k + 1 < a.len() {
        assert(ek1[ek.len() + tk.len() as int] == ',');
        assert(e.subrange(0, ek1.len() as int)[ek.len() + tk.len() as int] == ',');
        assert(s.subrange(p0, p0 + e.len())[ek.len() + tk.len() as int] == e[ek.len() + tk.len() as int]);
    } else {
        assert(ek1 =~= e.subrange(0, ek1.len() as int));
    }
}

/// Where the members of an object stand in its text: member `k` right after the text of
/// the members before it, followed by a comma or by the closing brace.
pub proof fn lemma_member_layout(s: Seq<char>, p0: int, m: Seq<(Seq<char>, JsonView)>, k: nat)
    requires
        printable_members(m, m.len()),
        k < m.len(),
        0 <= p0,
        p0 + members_text(m, m.len()).len() < s.len(),
        s.subrange(p0, p0 + members_text(m, m.len()).len()) == members_text(m, m.len()),
        s[p0 + members_text(m, m.len()).len()] == '}',
    ensures
        printable(m[k as int].1),
        members_text(m, k + 1).len() == members_text(m, k).len() + member_text(m[k as int].0, m[k as int].1).len()
            + (if k + 1 < m.len() {
            1int
        } else {
            0int
        }),
        members_text(m, k + 1).len() <= members_text(m, m.len()).len(),
        s.subrange(
            p0 + members_text(m, k).len(),
            p0 + members_text(m, k).len() + member_text(m[k as int].0, m[k as int].1).len(),
        ) == member_text(m[k as int].0, m[k as int].1),
        s[p0 + members_text(m, k).len()] == '"',
        !is_json_ws(s[p0 + members_text(m, k).len() + member_text(m[k as int].0, m[k as int].1).len()]),
        s[p0 + members_text(m, k).len() + member_text(m[k as int].0, m[k as int].1).len()] == (if k + 1
            < m.len() {
            ','
        } else {
            '}'
        }),
        k == m.len() - 1 ==> members_text(m, k + 1).len() == members_text(m, m.len()).len(),
{
    let e = members_text(m, m.len());
    let ek = members_text(m, k);
    let tk = member_text(m[k as int].0, m[k as int].1);
    let ek1 = members_text(m, k + 1);
    lemma_printable_member(m, m.len(), k as int);
    lemma_members_text_step(m, k);
    lemma_members_text_prefix(m, k + 1, m.len());
    assert(ek1 == ek + tk + comma_if(k + 1 < m.len()));
    lemma_text_at_part(s, p0, e, ek.len() as int, ek.len() + tk.len() as int);
    assert(e.subrange(ek.len() as int, ek.len() + tk.len() as int) =~= tk) by {
        assert forall|i: int| 0 <= i < tk.len() implies e.subrange(ek.len() as int, ek.len() + tk.len() as int)[i]
            == tk[i] by {
            assert(e.subrange(0, ek1.len() as int)[ek.len() + i] == ek1[ek.len() + i]);
        }
    }
    assert(s[p0 + ek.len()] == s.subrange(p0 + ek.len(), p0 + ek.len() + tk.len())[0]);
    if k + 1 < m.len() {
        assert(ek1[ek.len() + tk.len() as int] == ',');
        assert(e.subrange(0, ek1.len() as int)[ek.len() + tk.len() as int] == ',');
        assert(s.subrange(p0, p0 + e.len())[ek.len() + tk.len() as int] == e[ek.len() + tk.len() as int]);
    } else {
        assert(ek1 =~= e.subrange(0, ek1.len() as int));
    }
}

/// The compact text of a printable value, found at `p`, is read there as that value.
pub proof fn lemma_reads_back(s: Seq<char>, p: int, v: JsonView)
    requires
        printable(v),
        0 <= p,
        p + compact_text(v).len() <= s.len(),
        s.subrange(p, p + compact_text(v).len()) == compact_text(v),
    ensures
        spec_value(s, p) == Ok::<(int, JsonView), crate::json_parser::JSONParseError>(
            (p + compact_text(v).len(), v),
        ),
    decreases v, 0int,
{
    let t = compact_text(v);
    let n = t.len() as int;
    lemma_compact_text_shape(v);
    lemma_compact_text_start(v);
    assert(s[p] == t[0]);
    lemma_ws_end_here(s, p);
    match v {
        JsonView::Null => {
            assert(s.subrange(p, p + 4) == seq!['n', 'u', 'l', 'l']);
            assert(!has_prefix_at(s, p, seq!['t', 'r', 'u', 'e'])) by {
                if has_prefix_at(s, p, seq!['t', 'r', 'u', 'e']) {
                    assert(s.subrange(p, p + 4)[0] == 't');
                }
            }
            assert(!has_prefix_at(s, p, seq!['f', 'a', 'l', 's', 'e'])) by {
                if has_prefix_at(s, p, seq!['f', 'a', 'l', 's', 'e']) {
                    assert(s.subrange(p, p + 5)[0] == 'f');
                }
            }
            assert(spec_bool(s, p) is Err);
        },
        JsonView::True => {
            assert(s.subrange(p, p + 4) == seq!['t', 'r', 'u', 'e']);
        },
        JsonView::False => {
            assert(s.subrange(p, p + 5) == seq!['f', 'a', 'l', 's', 'e']);
            assert(!has_prefix_at(s, p, seq!['t', 'r', 'u', 'e'])) by {
                if has_prefix_at(s, p, seq!['t', 'r', 'u', 'e']) {
                    assert(s.subrange(p, p + 4)[0] == 't');
                }
            }
        },
        JsonView::Str(text) => {
            let eb = escape_body(text);
            lemma_text_at_part(s, p, t, 1, n);
            assert(t.subrange(1, n) =~= eb + seq!['"']);
            lemma_scan_escaped(s, p + 1, text, Seq::empty(), crate::json_parser::rem(s, p + 1));
            assert(Seq::<char>::empty() + text =~= text);
        },
        JsonView::Array(a) => {
            lemma_array_reads_back(s, p, a);
        },
        JsonView::Object(m) => {
            lemma_object_reads_back(s, p, m);
        },
        JsonView::Number(_) => {},
    }
}

/// The compact text of a printable array, found at `p`, is read there as that array.
#[verifier::rlimit(50)]
pub proof fn lemma_array_reads_back(s: Seq<char>, p: int, a: Seq<JsonView>)
    requires
        printable(JsonView::Array(a)),
        0 <= p,
        p + compact_text(JsonView::Array(a)).len() <= s.len(),
        s.subrange(p, p + compact_text(JsonView::Array(a)).len()) == compact_text(JsonView::Array(a)),
    ensures
        spec_array(s, p) == Ok::<(int, JsonView), crate::json_parser::JSONParseError>(
            (p + compact_text(JsonView::Array(a)).len(), JsonView::Array(a)),
        ),
    decreases a, a.len() + 1,
{
    let t = compact_text(JsonView::Array(a));
    lemma_compact_text_shape(JsonView::Array(a));
    assert(s[p] == t[0]);
    lemma_ws_end_here(s, p);
    if a.len() == 0 {
        assert(s[p + 1] == t[1]);
        assert(a =~= Seq::<JsonView>::empty());
    } else {
        let e = elements_text(a, a.len());
        let p0 = p + 1;
        lemma_text_at_part(s, p, t, 1, 1 + e.len() as int);
        assert(t.subrange(1, 1 + e.len() as int) =~= e);
        assert(s[p0 + e.len()] == t[1 + e.len() as int]);
        assert(elements_text(a, 0) =~= Seq::<char>::empty());
        lemma_element_layout(s, p0, a, 0);
        let t0 = compact_text(a[0]);
        lemma_ws_end_here(s, p0);
        lemma_reads_back(s, p0, a[0]);
        let r1 = p0 + t0.len();
        lemma_ws_end_here(s, r1);
        assert(spec_element(s, p0) == Ok::<(int, JsonView), crate::json_parser::JSONParseError>((r1, a[0])));
        lemma_elements_read_back(s, p0, a, 1);
        assert(a.take(1) =~= seq![a[0]]);
        assert(spec_elements(s, p0) == Ok::<(int, Seq<JsonView>), crate::json_parser::JSONParseError>(
            (p0 + e.len(), a),
        ));
        lemma_ws_end_here(s, p0 + e.len());
    }
}

/// The compact text of a printable object, found at `p`, is read there as that object.
#[verifier::rlimit(50)]
pub proof fn lemma_object_reads_back(s: Seq<char>, p: int, m: Seq<(Seq<char>, JsonView)>)
    requires
        printable(JsonView::Object(m)),
        0 <= p,
        p + compact_text(JsonView::Object(m)).len() <= s.len(),
        s.subrange(p, p + compact_text(JsonView::Object(m)).len()) == compact_text(JsonView::Object(m)),
    ensures
        spec_object(s, p) == Ok::<(int, JsonView), crate::json_parser::JSONParseError>(
            (p + compact_text(JsonView::Object(m)).len(), JsonView::Object(m)),
        ),
    decreases m, m.len() + 1,
{
    let t = compact_text(JsonView::Object(m));
    lemma_compact_text_shape(JsonView::Object(m));
    assert(s[p] == t[0]);
    lemma_ws_end_here(s, p);
    if m.len() == 0 {
        assert(s[p + 1] == t[1]);
        assert(m =~= Seq::<(Seq<char>, JsonView)>::empty());
    } else {
        let e = members_text(m, m.len());
        let p0 = p + 1;
        lemma_text_at_part(s, p, t, 1, 1 + e.len() as int);
        assert(t.subrange(1, 1 + e.len() as int) =~= e);
        assert(s[p0 + e.len()] == t[1 + e.len() as int]);
        assert(members_text(m, 0) =~= Seq::<char>::empty());
        lemma_member_layout(s, p0, m, 0);
        lemma_ws_end_here(s, p0);
        lemma_member_reads_back(s, p0, m, 0);
        lemma_members_read_back(s, p0, m, 1);
        assert(m.take(1) =~= seq![(m[0].0, m[0].1)]);
        assert(spec_members(s, p0) == Ok::<(int, Seq<(Seq<char>, JsonView)>), crate::json_parser::JSONParseError>(
            (p0 + e.len(), m),
        ));
        lemma_ws_end_here(s, p0 + e.len());
        lemma_object_from_distinct(m);
    }
}

/// Member `k` of an object is read back where its text stands.
pub proof fn lemma_member_reads_back(s: Seq<char>, p0: int, m: Seq<(Seq<char>, JsonView)>, k: nat)
    requires
        printable_members(m, m.len()),
        k < m.len(),
        0 <= p0,
        p0 + members_text(m, m.len()).len() < s.len(),
        s.subrange(p0, p0 + members_text(m, m.len()).len()) == members_text(m, m.len()),
        s[p0 + members_text(m, m.len()).len()] == '}',
    ensures
        spec_member(s, p0 + members_text(m, k).len()) == Ok::<
            (int, (Seq<char>, JsonView)),
            crate::json_parser::JSONParseError,
        >(
            (
                p0 + members_text(m, k).len() + member_text(m[k as int].0, m[k as int].1).len(),
                (m[k as int].0, m[k as int].1),
            ),
        ),
    decreases m, m.len() - k - 1,
{
    lemma_member_layout(s, p0, m, k);
    let q = p0 + members_text(m, k).len();
    let key = m[k as int].0;
    let val = m[k as int].1;
    let tk = member_text(key, val);
    let kl = spec_print_string(key).len() as int;
    lemma_text_at_part(s, q, tk, kl + 1, tk.len() as int);
    assert(tk.subrange(kl + 1, tk.len() as int) =~= compact_text(val));
    lemma_reads_back(s, q + kl + 1, val);
    lemma_member_at(s, q, key, val);
}

/// After the first `k` elements of an array, the rest of its elements are read back.
pub proof fn lemma_elements_read_back(s: Seq<char>, p0: int, a: Seq<JsonView>, k: nat)
    requires
        printable_elements(a, a.len()),
        1 <= k <= a.len(),
        0 <= p0,
        p0 + elements_text(a, a.len()).len() < s.len(),
        s.subrange(p0, p0 + elements_text(a, a.len()).len()) == elements_text(a, a.len()),
        s[p0 + elements_text(a, a.len()).len()] == ']',
    ensures
        spec_elements_tail(
            s,
            p0 + elements_text(a, k).len() - (if k < a.len() {
                1int
            } else {
                0int
            }),
            a.take(k as int),
        ) == Ok::<(int, Seq<JsonView>), crate::json_parser::JSONParseError>((p0 + elements_text(a, a.len()).len(), a)),
    decreases a, a.len() - k,
{
    let e = elements_text(a, a.len());
    let ek = elements_text(a, k);
    lemma_element_layout(s, p0, a, (k - 1) as nat);
    if k == a.len() {
        lemma_ws_end_here(s, p0 + e.len());
        assert(a.take(k as int) =~= a);
    } else {
        let r = p0 + ek.len() - 1;
        lemma_ws_end_here(s, r);
        lemma_element_layout(s, p0, a, k);
        let tk = compact_text(a[k as int]);
        let q = r + 1;
        lemma_ws_end_here(s, q);
        lemma_reads_back(s, q, a[k as int]);
        let r2 = q + tk.len();
        lemma_ws_end_here(s, r2);
        assert(spec_element(s, q) == Ok::<(int, JsonView), crate::json_parser::JSONParseError>((r2, a[k as int])));
        lemma_elements_read_back(s, p0, a, k + 1);
        assert(a.take(k as int).push(a[k as int]) =~= a.take(k + 1 as int));
    }
}

/// After the first `k` members of an object, the rest of its members are read back.
pub proof fn lemma_members_read_back(s: Seq<char>, p0: int, m: Seq<(Seq<char>, JsonView)>, k: nat)
    requires
        printable_members(m, m.len()),
        1 <= k <= m.len(),
        0 <= p0,
        p0 + members_text(m, m.len()).len() < s.len(),
        s.subrange(p0, p0 + members_text(m, m.len()).len()) == members_text(m, m.len()),
        s[p0 + members_text(m, m.len()).len()] == '}',
    ensures
        spec_members_tail(
            s,
            p0 + members_text(m, k).len() - (if k < m.len() {
                1int
            } else {
                0int
            }),
            m.take(k as int),
        ) == Ok::<(int, Seq<(Seq<char>, JsonView)>), crate::json_parser::JSONParseError>(
            (p0 + members_text(m, m.len()).len(), m),
        ),
    decreases m, m.len() - k,
{
    let e = members_text(m, m.len());
    let ek = members_text(m, k);
    lemma_member_layout(s, p0, m, (k - 1) as nat);
    if k == m.len() {
        lemma_ws_end_here(s, p0 + e.len());
        assert(m.take(k as int) =~= m);
    } else {
        let r = p0 + ek.len() - 1;
        lemma_ws_end_here(s, r);
        lemma_member_layout(s, p0, m, k);
        let q = r + 1;
        lemma_ws_end_here(s, q);
        lemma_member_reads_back(s, p0, m, k);
        lemma_members_read_back(s, p0, m, k + 1);
        assert(m.take(k as int).push((m[k as int].0, m[k as int].1)) =~= m.take(k + 1 as int));
    }
}

/// The compact text of a printable value (no numbers, no key given twice in an
/// object), with members in stored order, is read back by the parser as the same value.
pub proof fn compact_text_reads_back(v: JsonView)
    requires
        printable(v),
    ensures
        spec_parse(compact_text(v)) == Ok::<JsonView, crate::json_parser::JSONParseError>(v),
{
    let t = compact_text(v);
    lemma_compact_text_start(v);
    assert(t.subrange(0, t.len() as int) =~= t);
    lemma_reads_back(t, 0, v);
    lemma_ws_end_here(t, 0);
}

} // verus!
