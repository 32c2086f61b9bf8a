//! Whitespace around a JSON text does not change what the parser reads from it.

use vstd::prelude::*;
use crate::json_parser::{
    JSONParseError,
    JsonView,
    digits_end,
    hex_value,
    is_digit,
    is_json_ws,
    is_surrogate,
    lemma_digits_end,
    lemma_hex_digits_bounds,
    lemma_string_advances,
    lemma_ws_end,
    spec_array,
    spec_bool,
    spec_element,
    spec_elements,
    spec_elements_tail,
    spec_exponent,
    spec_fraction,
    spec_hex_digits,
    spec_integer_parts,
    spec_member,
    spec_members,
    spec_members_tail,
    spec_null,
    spec_number,
    spec_object,
    spec_parse,
    spec_string,
    spec_string_scan,
    spec_value,
    ws_end,
};
use crate::text::has_prefix_at;

verus! {

/// Every character of `w` is whitespace.
pub open spec fn all_ws(w: Seq<char>) -> bool {
    forall|i: int| 0 <= i < w.len() ==> is_json_ws(#[trigger] w[i])
}

/// Where a position of `s` that ends a run of whitespace lands in `w1 + s + w2`: shifted
/// past `w1`, or at the very end when it is the end of `s`.
pub open spec fn ext(w1: Seq<char>, s: Seq<char>, w2: Seq<char>, r: int) -> int {
    if r < s.len() {
        r + w1.len()
    } else {
        (w1.len() + s.len() + w2.len()) as int
    }
}

/// The characters of `w1 + s + w2`: those of `s` shifted past `w1`, whitespace around.
pub proof fn lemma_wrapped(w1: Seq<char>, s: Seq<char>, w2: Seq<char>)
    requires
        all_ws(w1),
        all_ws(w2),
    ensures
        (w1 + s + w2).len() == w1.len() + s.len() + w2.len(),
        forall|i: int| 0 <= i < s.len() ==> #[trigger] (w1 + s + w2)[i + w1.len()] == s[i],
        forall|j: int|
            (0 <= j < w1.len() || w1.len() + s.len() <= j < w1.len() + s.len() + w2.len()) ==> is_json_ws(
                #[trigger] (w1 + s + w2)[j],
            ),
{
    let t = w1 + s + w2;
    assert forall|i: int| 0 <= i < s.len() implies #[trigger] t[i + w1.len()] == s[i] by {
        assert((w1 + s)[i + w1.len()] == s[i]);
    }
    assert forall|j: int|
        (0 <= j < w1.len() || w1.len() + s.len() <= j < w1.len() + s.len() + w2.len()) implies is_json_ws(
        #[trigger] t[j],
    ) by {
        if j < w1.len() {
            assert(t[j] == w1[j]);
        } else {
            assert(t[j] == w2[j - w1.len() - s.len()]);
        }
    }
}

/// Whitespace skipping in `w1 + s + w2` from a shifted position of `s`.
pub proof fn lemma_ws_end_wrapped(w1: Seq<char>, s: Seq<char>, w2: Seq<char>, p: int)
    requires
        all_ws(w1),
        all_ws(w2),
        0 <= p <= s.len(),
    ensures
        ws_end(w1 + s + w2, p + w1.len()) == ext(w1, s, w2, ws_end(s, p)),
    decreases s.len() - p,
{
    let t = w1 + s + w2;
    lemma_wrapped(w1, s, w2);
    if p < s.len() && is_json_ws(s[p]) {
        lemma_ws_end_wrapped(w1, s, w2, p + 1);
        assert(t[p + w1.len()] == s[p]);
    } else if p < s.len() {
        assert(t[p + w1.len()] == s[p]);
    } else {
        lemma_ws_to_end(t, p + w1.len());
    }
}

/// From a position after which the text is all whitespace, whitespace skipping goes to
/// the end.
pub proof fn lemma_ws_to_end(t: Seq<char>, p: int)
    requires
        0 <= p <= t.len(),
        forall|j: int| p <= j < t.len() ==> is_json_ws(#[trigger] t[j]),
    ensures
        ws_end(t, p) == t.len(),
    decreases t.len() - p,
{
    if p < t.len() {
        lemma_ws_to_end(t, p + 1);
    }
}

/// Digit runs read the same in `w1 + s + w2`.
pub proof fn lemma_digits_end_wrapped(w1: Seq<char>, s: Seq<char>, w2: Seq<char>, p: int)
    requires
        all_ws(w1),
        all_ws(w2),
        0 <= p <= s.len(),
    ensures
        digits_end(w1 + s + w2, p + w1.len()) == digits_end(s, p) + w1.len(),
    decreases s.len() - p,
{
    let t = w1 + s + w2;
    lemma_wrapped(w1, s, w2);
    if p < s.len() {
        assert(t[p + w1.len()] == s[p]);
        if is_digit(s[p]) {
            lemma_digits_end_wrapped(w1, s, w2, p + 1);
        }
    } else if p + w1.len() < t.len() {
        assert(is_json_ws(t[p + w1.len()]));
    }
}

/// A stretch of `s` stands shifted in `w1 + s + w2`.
pub proof fn lemma_sub_wrapped(w1: Seq<char>, s: Seq<char>, w2: Seq<char>, a: int, b: int)
    requires
        all_ws(w1),
        all_ws(w2),
        0 <= a <= b <= s.len(),
    ensures
        (w1 + s + w2).subrange(a + w1.len(), b + w1.len()) == s.subrange(a, b),
{
    lemma_wrapped(w1, s, w2);
    assert forall|i: int| 0 <= i < b - a implies #[trigger] (w1 + s + w2).subrange(a + w1.len(), b + w1.len())[i]
        == s.subrange(a, b)[i] by {
        assert((w1 + s + w2)[a + i + w1.len()] == s[a + i]);
    }
    assert((w1 + s + w2).subrange(a + w1.len(), b + w1.len()) =~= s.subrange(a, b));
}

/// A number read in `s` is read shifted in `w1 + s + w2`.
pub proof fn lemma_number_wrapped(w1: Seq<char>, s: Seq<char>, w2: Seq<char>, p: int)
    requires
        all_ws(w1),
        all_ws(w2),
        0 <= p <= s.len(),
        spec_number(s, p) is Ok,
    ensures
        spec_number(w1 + s + w2, p + w1.len()) == Ok::<(int, JsonView), JSONParseError>(
            (spec_number(s, p)->Ok_0.0 + w1.len(), spec_number(s, p)->Ok_0.1),
        ),
        p < spec_number(s, p)->Ok_0.0 <= s.len(),
{
    let t = w1 + s + w2;
    let k = w1.len() as int;
    lemma_wrapped(w1, s, w2);
    // integer part
    let negative = 0 <= p < s.len() && s[p] == '-';
    let q0 = if negative { p + 1 } else { p };
    if p < s.len() {
        assert(t[p + k] == s[p]);
    } else if p + k < t.len() {
        assert(is_json_ws(t[p + k]));
    }
    assert(q0 < s.len());
    assert(t[q0 + k] == s[q0]);
    if s[q0] == '0' {
        if q0 + 1 < s.len() {
            assert(t[q0 + 1 + k] == s[q0 + 1]);
        } else if q0 + 1 + k < t.len() {
            assert(is_json_ws(t[q0 + 1 + k]));
        }
    } else {
        lemma_digits_end_wrapped(w1, s, w2, q0 + 1);
        lemma_digits_end(s, q0 + 1);
        lemma_sub_wrapped(w1, s, w2, q0, digits_end(s, q0 + 1));
    }
    let (q, neg, integer) = spec_integer_parts(s, p)->Ok_0;
    assert(spec_integer_parts(t, p + k) == Ok::<(int, bool, Seq<char>), JSONParseError>((q + k, neg, integer)));
    // fraction
    assert(q <= s.len()) by {
        lemma_digits_end(s, q0 + 1);
    }
    if q < s.len() {
        assert(t[q + k] == s[q]);
        if s[q] == '.' {
            lemma_digits_end_wrapped(w1, s, w2, q + 1);
            lemma_digits_end(s, q + 1);
            lemma_sub_wrapped(w1, s, w2, q + 1, digits_end(s, q + 1));
        }
    } else if q + k < t.len() {
        assert(is_json_ws(t[q + k]));
    }
    let (r, fraction) = spec_fraction(s, q)->Ok_0;
    assert(spec_fraction(t, q + k) == Ok::<(int, Seq<char>), JSONParseError>((r + k, fraction)));
    // exponent
    assert(r <= s.len()) by {
        lemma_digits_end(s, q + 1);
    }
    if r < s.len() {
        assert(t[r + k] == s[r]);
        if s[r] == 'e' || s[r] == 'E' {
            let r1 = r + 1;
            if r1 < s.len() {
                assert(t[r1 + k] == s[r1]);
            } else if r1 + k < t.len() {
                assert(is_json_ws(t[r1 + k]));
            }
            let qq = if r1 < s.len() && (s[r1] == '+' || s[r1] == '-') { r1 + 1 } else { r1 };
            lemma_digits_end_wrapped(w1, s, w2, qq);
            lemma_digits_end(s, qq);
            lemma_sub_wrapped(w1, s, w2, qq, digits_end(s, qq));
        }
    } else if r + k < t.len() {
        assert(is_json_ws(t[r + k]));
    }
}

/// A string scan that succeeds in `s` succeeds shifted in `w1 + s + w2`.
pub proof fn lemma_scan_wrapped(
    w1: Seq<char>,
    s: Seq<char>,
    w2: Seq<char>,
    q: int,
    escaping: bool,
    acc: Seq<char>,
    init: nat,
    init2: nat,
)
    requires
        all_ws(w1),
        all_ws(w2),
        0 <= q <= s.len(),
        spec_string_scan(s, q, escaping, acc, init) is Ok,
    ensures
        spec_string_scan(w1 + s + w2, q + w1.len(), escaping, acc, init2) == Ok::<
            (int, Seq<char>),
            JSONParseError,
        >(
            (spec_string_scan(s, q, escaping, acc, init)->Ok_0.0 + w1.len(), spec_string_scan(
                s,
                q,
                escaping,
                acc,
                init,
            )->Ok_0.1),
        ),
    decreases s.len() - q,
{
    let t = w1 + s + w2;
    let k = w1.len() as int;
    lemma_wrapped(w1, s, w2);
    assert(q < s.len());
    let c = s[q];
    assert(t[q + k] == c);
    if c == '\\' && !escaping {
        lemma_scan_wrapped(w1, s, w2, q + 1, true, acc, init, init2);
    } else if c == '"' && !escaping {
    } else if escaping {
        if c == '"' || c == '\\' || c == '/' {
            lemma_scan_wrapped(w1, s, w2, q + 1, false, acc.push(c), init, init2);
        } else if c == 'b' {
            lemma_scan_wrapped(w1, s, w2, q + 1, false, acc.push('\x08'), init, init2);
        } else if c == 'f' {
            lemma_scan_wrapped(w1, s, w2, q + 1, false, acc.push('\x0C'), init, init2);
        } else if c == 'n' {
            lemma_scan_wrapped(w1, s, w2, q + 1, false, acc.push('\n'), init, init2);
        } else if c == 'r' {
            lemma_scan_wrapped(w1, s, w2, q + 1, false, acc.push('\r'), init, init2);
        } else if c == 't' {
            lemma_scan_wrapped(w1, s, w2, q + 1, false, acc.push('\t'), init, init2);
        } else if c == 'u' {
            lemma_hex_wrapped(w1, s, w2, q + 1, 4, 0, init, init2);
            lemma_hex_digits_bounds(s, q + 1, 4, 0, init);
            let u = spec_hex_digits(s, q + 1, 4, 0, init)->Ok_0;
            lemma_scan_wrapped(w1, s, w2, q + 5, false, acc.push(u as char), init, init2);
        }
    } else {
        lemma_scan_wrapped(w1, s, w2, q + 1, false, acc.push(c), init, init2);
    }
}

/// Hexadecimal digits read in `s` are read the same in `w1 + s + w2`.
pub proof fn lemma_hex_wrapped(
    w1: Seq<char>,
    s: Seq<char>,
    w2: Seq<char>,
    q: int,
    n: nat,
    acc: u32,
    init: nat,
    init2: nat,
)
    requires
        all_ws(w1),
        all_ws(w2),
        0 <= q <= s.len(),
        spec_hex_digits(s, q, n, acc, init) is Ok,
    ensures
        spec_hex_digits(w1 + s + w2, q + w1.len(), n, acc, init2) == Ok::<u32, JSONParseError>(
            spec_hex_digits(s, q, n, acc, init)->Ok_0,
        ),
    decreases n,
{
    lemma_wrapped(w1, s, w2);
    if n > 0 {
        assert(q < s.len());
        assert((w1 + s + w2)[q + w1.len()] == s[q]);
        let d = hex_value(s[q])->Some_0;
        lemma_hex_wrapped(w1, s, w2, q + 1, (n - 1) as nat, (acc * 16 + d) as u32, init, init2);
    }
}

/// A string read in `s` is read shifted in `w1 + s + w2`.
pub proof fn lemma_string_wrapped(w1: Seq<char>, s: Seq<char>, w2: Seq<char>, p: int)
    requires
        all_ws(w1),
        all_ws(w2),
        0 <= p <= s.len(),
        spec_string(s, p) is Ok,
    ensures
        spec_string(w1 + s + w2, p + w1.len()) == Ok::<(int, Seq<char>), JSONParseError>(
            (spec_string(s, p)->Ok_0.0 + w1.len(), spec_string(s, p)->Ok_0.1),
        ),
{
    lemma_wrapped(w1, s, w2);
    assert((w1 + s + w2)[p + w1.len()] == s[p]);
    lemma_scan_wrapped(
        w1,
        s,
        w2,
        p + 1,
        false,
        Seq::empty(),
        crate::json_parser::rem(s, p + 1),
        crate::json_parser::rem(w1 + s + w2, p + 1 + w1.len()),
    );
}

/// A value read in `s` is read shifted in `w1 + s + w2`.
pub proof fn lemma_value_wrapped(w1: Seq<char>, s: Seq<char>, w2: Seq<char>, p: int)
    requires
        all_ws(w1),
        all_ws(w2),
        0 <= p <= s.len(),
        spec_value(s, p) is Ok,
    ensures
        spec_value(w1 + s + w2, p + w1.len()) == Ok::<(int, JsonView), JSONParseError>(
            (spec_value(s, p)->Ok_0.0 + w1.len(), spec_value(s, p)->Ok_0.1),
        ),
        p < s.len(),
        p < spec_value(s, p)->Ok_0.0 <= s.len(),
    decreases s.len() - p, 1int,
{
    let t2 = w1 + s + w2;
    let k = w1.len() as int;
    lemma_wrapped(w1, s, w2);
    lemma_ws_end(s, p);
    lemma_ws_end_wrapped(w1, s, w2, p);
    let t = ws_end(s, p);
    if t == s.len() {
        assert(!has_prefix_at(s, t, seq!['t', 'r', 'u', 'e']));
        assert(!has_prefix_at(s, t, seq!['f', 'a', 'l', 's', 'e']));
        assert(!has_prefix_at(s, t, seq!['n', 'u', 'l', 'l']));
        assert(false);
    }
    assert(t2[t + k] == s[t]);
    if s[t] == '{' {
        lemma_object_wrapped(w1, s, w2, t);
    } else if s[t] == '[' {
        lemma_array_wrapped(w1, s, w2, t);
    } else if s[t] == '"' {
        lemma_string_wrapped(w1, s, w2, t);
        lemma_string_advances(s, t);
    } else if s[t] == '-' || is_digit(s[t]) {
        lemma_number_wrapped(w1, s, w2, t);
    } else {
        if has_prefix_at(s, t, seq!['t', 'r', 'u', 'e']) {
            lemma_sub_wrapped(w1, s, w2, t, t + 4);
        } else if has_prefix_at(s, t, seq!['f', 'a', 'l', 's', 'e']) {
            lemma_sub_wrapped(w1, s, w2, t, t + 5);
            assert(!has_prefix_at(t2, t + k, seq!['t', 'r', 'u', 'e'])) by {
                if has_prefix_at(t2, t + k, seq!['t', 'r', 'u', 'e']) {
                    assert(t2.subrange(t + k, t + k + 4)[0] == 't');
                    assert(s.subrange(t, t + 5)[0] == 'f');
                }
            }
        } else {
            assert(has_prefix_at(s, t, seq!['n', 'u', 'l', 'l']));
            lemma_sub_wrapped(w1, s, w2, t, t + 4);
            assert(s.subrange(t, t + 4)[0] == 'n');
            assert(!has_prefix_at(t2, t + k, seq!['t', 'r', 'u', 'e'])) by {
                if has_prefix_at(t2, t + k, seq!['t', 'r', 'u', 'e']) {
                    assert(t2.subrange(t + k, t + k + 4)[0] == 't');
                }
            }
            assert(!has_prefix_at(t2, t + k, seq!['f', 'a', 'l', 's', 'e'])) by {
                if has_prefix_at(t2, t + k, seq!['f', 'a', 'l', 's', 'e']) {
                    assert(t2.subrange(t + k, t + k + 5)[0] == 'f');
                }
            }
            assert(spec_bool(t2, t + k) is Err);
            assert(spec_null(t2, t + k) == Ok::<(int, JsonView), JSONParseError>((t + k + 4, JsonView::Null)));
        }
    }
}

/// An element read in `s` is read in `w1 + s + w2`, its end moved as [`ext`] says.
pub proof fn lemma_element_wrapped(w1: Seq<char>, s: Seq<char>, w2: Seq<char>, p: int)
    requires
        all_ws(w1),
        all_ws(w2),
        0 <= p <= s.len(),
        spec_element(s, p) is Ok,
    ensures
        spec_element(w1 + s + w2, p + w1.len()) == Ok::<(int, JsonView), JSONParseError>(
            (ext(w1, s, w2, spec_element(s, p)->Ok_0.0), spec_element(s, p)->Ok_0.1),
        ),
        p < s.len(),
        p < spec_element(s, p)->Ok_0.0 <= s.len(),
        ws_end(s, spec_element(s, p)->Ok_0.0) == spec_element(s, p)->Ok_0.0,
    decreases s.len() - p, 2int,
{
    lemma_ws_end(s, p);
    let t = ws_end(s, p);
    lemma_ws_end_wrapped(w1, s, w2, p);
    lemma_value_wrapped(w1, s, w2, t);
    let r = spec_value(s, t)->Ok_0.0;
    lemma_ws_end(s, r);
    lemma_ws_end_wrapped(w1, s, w2, r);
}

/// Further elements read in `s` are read in `w1 + s + w2`.
pub proof fn lemma_elements_tail_wrapped(w1: Seq<char>, s: Seq<char>, w2: Seq<char>, r: int, acc: Seq<JsonView>)
    requires
        all_ws(w1),
        all_ws(w2),
        0 <= r <= s.len(),
        spec_elements_tail(s, r, acc) is Ok,
    ensures
        spec_elements_tail(w1 + s + w2, ext(w1, s, w2, r), acc) == Ok::<(int, Seq<JsonView>), JSONParseError>(
            (ext(w1, s, w2, spec_elements_tail(s, r, acc)->Ok_0.0), spec_elements_tail(s, r, acc)->Ok_0.1),
        ),
        r <= spec_elements_tail(s, r, acc)->Ok_0.0 <= s.len(),
    decreases s.len() - r, 3int,
{
    let t2 = w1 + s + w2;
    let k = w1.len() as int;
    lemma_wrapped(w1, s, w2);
    lemma_ws_end(s, r);
    let t = ws_end(s, r);
    if r < s.len() {
        lemma_ws_end_wrapped(w1, s, w2, r);
    } else {
        lemma_ws_to_end(t2, t2.len() as int);
    }
    if t < s.len() {
        assert(t2[t + k] == s[t]);
    }
    if 0 <= t < s.len() && s[t] == ',' {
        let q = ws_end(s, t + 1);
        lemma_ws_end(s, t + 1);
        lemma_ws_end_wrapped(w1, s, w2, t + 1);
        lemma_element_wrapped(w1, s, w2, q);
        let r2 = spec_element(s, q)->Ok_0.0;
        lemma_elements_tail_wrapped(w1, s, w2, r2, acc.push(spec_element(s, q)->Ok_0.1));
    }
}

/// Elements read in `s`, the first of them read there, are read in `w1 + s + w2`.
pub proof fn lemma_elements_wrapped(w1: Seq<char>, s: Seq<char>, w2: Seq<char>, p: int)
    requires
        all_ws(w1),
        all_ws(w2),
        0 <= p <= s.len(),
        spec_element(s, p) is Ok,
        spec_elements(s, p) is Ok,
    ensures
        spec_elements(w1 + s + w2, p + w1.len()) == Ok::<(int, Seq<JsonView>), JSONParseError>(
            (ext(w1, s, w2, spec_elements(s, p)->Ok_0.0), spec_elements(s, p)->Ok_0.1),
        ),
        p < spec_elements(s, p)->Ok_0.0 <= s.len(),
    decreases s.len() - p, 3int,
{
    lemma_element_wrapped(w1, s, w2, p);
    let (r, v) = spec_element(s, p)->Ok_0;
    lemma_elements_tail_wrapped(w1, s, w2, r, seq![v]);
}

/// An array read in `s` is read shifted in `w1 + s + w2`.
pub proof fn lemma_array_wrapped(w1: Seq<char>, s: Seq<char>, w2: Seq<char>, p: int)
    requires
        all_ws(w1),
        all_ws(w2),
        0 <= p <= s.len(),
        spec_array(s, p) is Ok,
    ensures
        spec_array(w1 + s + w2, p + w1.len()) == Ok::<(int, JsonView), JSONParseError>(
            (spec_array(s, p)->Ok_0.0 + w1.len(), spec_array(s, p)->Ok_0.1),
        ),
        p < spec_array(s, p)->Ok_0.0 <= s.len(),
    decreases s.len() - p, 0int,
{
    let t2 = w1 + s + w2;
    let k = w1.len() as int;
    lemma_wrapped(w1, s, w2);
    lemma_ws_end(s, p);
    lemma_ws_end_wrapped(w1, s, w2, p);
    let t = ws_end(s, p);
    assert(t2[t + k] == s[t]);
    let u = ws_end(s, t + 1);
    lemma_ws_end(s, t + 1);
    lemma_ws_end_wrapped(w1, s, w2, t + 1);
    if u < s.len() {
        assert(t2[u + k] == s[u]);
    }
    if !(u < s.len() && s[u] == ']') {
        if spec_element(s, u) is Err {
            assert(spec_elements(s, u) == Ok::<(int, Seq<JsonView>), JSONParseError>((u, Seq::empty())));
            assert(false);
        }
        lemma_elements_wrapped(w1, s, w2, u);
        let r = spec_elements(s, u)->Ok_0.0;
        lemma_ws_end(s, r);
        let w = ws_end(s, r);
        if r == s.len() {
            assert(w == s.len());
            assert(false);
        }
        lemma_ws_end_wrapped(w1, s, w2, r);
        assert(t2[w + k] == s[w]);
    }
}

/// A member read in `s` is read in `w1 + s + w2`, its end moved as [`ext`] says.
pub proof fn lemma_member_wrapped(w1: Seq<char>, s: Seq<char>, w2: Seq<char>, p: int)
    requires
        all_ws(w1),
        all_ws(w2),
        0 <= p <= s.len(),
        spec_member(s, p) is Ok,
    ensures
        spec_member(w1 + s + w2, p + w1.len()) == Ok::<(int, (Seq<char>, JsonView)), JSONParseError>(
            (ext(w1, s, w2, spec_member(s, p)->Ok_0.0), spec_member(s, p)->Ok_0.1),
        ),
        p < spec_member(s, p)->Ok_0.0 <= s.len(),
    decreases s.len() - p, 2int,
{
    let t2 = w1 + s + w2;
    let k = w1.len() as int;
    lemma_wrapped(w1, s, w2);
    lemma_ws_end(s, p);
    lemma_ws_end_wrapped(w1, s, w2, p);
    let t = ws_end(s, p);
    lemma_string_advances(s, t);
    lemma_string_wrapped(w1, s, w2, t);
    let kk = spec_string(s, t)->Ok_0.0;
    lemma_ws_end(s, kk);
    lemma_ws_end_wrapped(w1, s, w2, kk);
    let u = ws_end(s, kk);
    assert(t2[u + k] == s[u]);
    lemma_ws_end(s, u + 1);
    lemma_ws_end_wrapped(w1, s, w2, u + 1);
    let v = ws_end(s, u + 1);
    lemma_element_wrapped(w1, s, w2, v);
}

/// Further members read in `s` are read in `w1 + s + w2`.
pub proof fn lemma_members_tail_wrapped(
    w1: Seq<char>,
    s: Seq<char>,
    w2: Seq<char>,
    r: int,
    acc: Seq<(Seq<char>, JsonView)>,
)
    requires
        all_ws(w1),
        all_ws(w2),
        0 <= r <= s.len(),
        spec_members_tail(s, r, acc) is Ok,
    ensures
        spec_members_tail(w1 + s + w2, ext(w1, s, w2, r), acc) == Ok::<
            (int, Seq<(Seq<char>, JsonView)>),
            JSONParseError,
        >((ext(w1, s, w2, spec_members_tail(s, r, acc)->Ok_0.0), spec_members_tail(s, r, acc)->Ok_0.1)),
        r <= spec_members_tail(s, r, acc)->Ok_0.0 <= s.len(),
    decreases s.len() - r, 3int,
{
    let t2 = w1 + s + w2;
    let k = w1.len() as int;
    lemma_wrapped(w1, s, w2);
    lemma_ws_end(s, r);
    let t = ws_end(s, r);
    if r < s.len() {
        lemma_ws_end_wrapped(w1, s, w2, r);
    } else {
        lemma_ws_to_end(t2, t2.len() as int);
    }
    if t < s.len() {
        assert(t2[t + k] == s[t]);
    }
    if 0 <= t < s.len() && s[t] == ',' {
        let q = ws_end(s, t + 1);
        lemma_ws_end(s, t + 1);
        lemma_ws_end_wrapped(w1, s, w2, t + 1);
        lemma_member_wrapped(w1, s, w2, q);
        let r2 = spec_member(s, q)->Ok_0.0;
        lemma_members_tail_wrapped(w1, s, w2, r2, acc.push(spec_member(s, q)->Ok_0.1));
    }
}

/// Members read in `s`, the first of them read there, are read in `w1 + s + w2`.
pub proof fn lemma_members_wrapped(w1: Seq<char>, s: Seq<char>, w2: Seq<char>, p: int)
    requires
        all_ws(w1),
        all_ws(w2),
        0 <= p <= s.len(),
        spec_member(s, p) is Ok,
        spec_members(s, p) is Ok,
    ensures
        spec_members(w1 + s + w2, p + w1.len()) == Ok::<(int, Seq<(Seq<char>, JsonView)>), JSONParseError>(
            (ext(w1, s, w2, spec_members(s, p)->Ok_0.0), spec_members(s, p)->Ok_0.1),
        ),
        p < spec_members(s, p)->Ok_0.0 <= s.len(),
    decreases s.len() - p, 3int,
{
    lemma_member_wrapped(w1, s, w2, p);
    let (r, kv) = spec_member(s, p)->Ok_0;
    lemma_members_tail_wrapped(w1, s, w2, r, seq![kv]);
}

/// An object read in `s` is read shifted in `w1 + s + w2`.
#[verifier::rlimit(50)]
pub proof fn lemma_object_wrapped(w1: Seq<char>, s: Seq<char>, w2: Seq<char>, p: int)
    requires
        all_ws(w1),
        all_ws(w2),
        0 <= p <= s.len(),
        spec_object(s, p) is Ok,
    ensures
        spec_object(w1 + s + w2, p + w1.len()) == Ok::<(int, JsonView), JSONParseError>(
            (spec_object(s, p)->Ok_0.0 + w1.len(), spec_object(s, p)->Ok_0.1),
        ),
        p < spec_object(s, p)->Ok_0.0 <= s.len(),
    decreases s.len() - p, 0int,
{
    let t2 = w1 + s + w2;
    let k = w1.len() as int;
    lemma_wrapped(w1, s, w2);
    lemma_ws_end(s, p);
    lemma_ws_end_wrapped(w1, s, w2, p);
    let t = ws_end(s, p);
    assert(t2[t + k] == s[t]);
    let u = ws_end(s, t + 1);
    lemma_ws_end(s, t + 1);
    lemma_ws_end_wrapped(w1, s, w2, t + 1);
    if u < s.len() {
        assert(t2[u + k] == s[u]);
    }
    if !(u < s.len() && s[u] == '}') {
        if spec_member(s, u) is Err {
            assert(spec_members(s, u) == Ok::<(int, Seq<(Seq<char>, JsonView)>), JSONParseError>(
                (u, Seq::empty()),
            ));
            assert(false);
        }
        lemma_members_wrapped(w1, s, w2, u);
        let r = spec_members(s, u)->Ok_0.0;
        lemma_ws_end(s, r);
        let w = ws_end(s, r);
        if r == s.len() {
            assert(w == s.len());
            assert(false);
        }
        lemma_ws_end_wrapped(w1, s, w2, r);
        assert(t2[w + k] == s[w]);
    }
}

/// Whitespace skipping over a prefix of whitespace reaches what skipping from after it
/// reaches.
pub proof fn lemma_ws_prefix(t: Seq<char>, p: int, k: int)
    requires
        0 <= p <= k <= t.len(),
        forall|j: int| p <= j < k ==> is_json_ws(#[trigger] t[j]),
    ensures
        ws_end(t, p) == ws_end(t, k),
    decreases k - p,
{
    if p < k {
        lemma_ws_prefix(t, p + 1, k);
    }
}

/// Whitespace before and after a JSON text does not change what the parser reads from
/// it, when it reads a value.
pub proof fn surrounding_whitespace_keeps_parse(w1: Seq<char>, s: Seq<char>, w2: Seq<char>)
    requires
        all_ws(w1),
        all_ws(w2),
        spec_parse(s) is Ok,
    ensures
        spec_parse(w1 + s + w2) == spec_parse(s),
{
    let t2 = w1 + s + w2;
    let k = w1.len() as int;
    lemma_wrapped(w1, s, w2);
    lemma_element_wrapped(w1, s, w2, 0);
    lemma_ws_prefix(t2, 0, k);
    lemma_ws_end(t2, 0);
    assert(spec_element(t2, 0) == spec_element(t2, k));
    let r = spec_element(s, 0)->Ok_0.0;
    assert(r == s.len());
    lemma_ws_to_end(t2, t2.len() as int);
}

} // verus!
