//! A reader of JSON text over string slices in the style of parser combinators: each
//! function reads one construct at the start of its input and hands back the value
//! read together with the rest of the input.
//!
//! It differs from [`crate::json_parser`] in several ways: escapes in strings stand
//! for the escaping letter itself (`\n` reads as `n`), blanks are space, tab, line feed
//! and carriage return, a number whose integer part is zero loses its sign, and
//! integer digits or exponent digits beyond `i64::MAX` are outside what it reads
//! (the functions that could meet them require that they do not occur).
//!
//! Its specification functions return `None` on those inputs, and
//! `Some(Ok((end, value)))` or `Some(Err(e))` otherwise, positions counting characters.

use vstd::prelude::*;
use vstd::string::StrSliceExecFns;
use crate::json_parser::{
    JSONValue,
    JsonNumber,
    JsonView,
    NumberView,
    digits_end,
    digits_to_i64,
    digits_value,
    fits_usize,
    is_digit,
    lemma_array_model,
    lemma_digits_end,
    lemma_digits_to_end,
    lemma_object_model,
    members_model,
    object_from_pairs,
    object_of_pairs,
    rem,
    rem_bytes,
    skip_digits,
    str_byte_len,
    values_model,
};
use crate::text::{chars_of, has_prefix_at, push_char, starts_with_at, string_from_range};

verus! {

/// Why a construct could not be read.
#[derive(Debug, Clone, PartialEq, Eq, Structural)]
pub enum ParseError {
    Error(usize),
    NotFound,
    UnexpectedChar(usize),
    MissingClosing(usize),
}

/// A value read from the start of a text, and the text after it.
pub struct Token<'a> {
    rest: &'a str,
    value: JSONValue,
}

impl<'a> Token<'a> {
    fn new(rest: &'a str, value: JSONValue) -> (t: Self)
        ensures
            t.rest@ == rest@,
            t.value@ == value@,
    {
        Token { rest, value }
    }

    /// The text after the value.
    pub closed spec fn spec_rest(&self) -> Seq<char> {
        self.rest@
    }

    /// The model of the value.
    pub closed spec fn spec_value(&self) -> JsonView {
        self.value@
    }

    /// The text after the value.
    pub fn rest(&self) -> (r: &'a str)
        ensures
            r@ == self.spec_rest(),
    {
        self.rest
    }

    /// The value read.
    pub fn value(&self) -> (v: &JSONValue)
        ensures
            v@ == self.spec_value(),
    {
        &self.value
    }
}

// ---------------------------------------------------------------------------
// Specification
// ---------------------------------------------------------------------------

/// A blank: space, line feed, tab or carriage return.
pub open spec fn is_blank(c: char) -> bool {
    c == ' ' || c == '\n' || c == '\t' || c == '\r'
}

/// The first position at or after `p` that holds no blank.
pub open spec fn blank_end(s: Seq<char>, p: int) -> int
    decreases s.len() - p,
{
    if 0 <= p < s.len() && is_blank(s[p]) {
        blank_end(s, p + 1)
    } else {
        p
    }
}

/// `null` at `p`.
pub open spec fn tok_null(s: Seq<char>, p: int) -> Result<(int, JsonView), ParseError> {
    if has_prefix_at(s, p, seq!['n', 'u', 'l', 'l']) {
        Ok((p + 4, JsonView::Null))
    } else {
        Err(ParseError::NotFound)
    }
}

/// `true` or `false` at `p`.
pub open spec fn tok_bool(s: Seq<char>, p: int) -> Result<(int, JsonView), ParseError> {
    if has_prefix_at(s, p, seq!['t', 'r', 'u', 'e']) {
        Ok((p + 4, JsonView::True))
    } else if has_prefix_at(s, p, seq!['f', 'a', 'l', 's', 'e']) {
        Ok((p + 5, JsonView::False))
    } else {
        Err(ParseError::NotFound)
    }
}

/// A character that may follow a backslash in a string.
pub open spec fn is_escape_letter(c: char) -> bool {
    c == '"' || c == '\\' || c == '/' || c == 'b' || c == 'n' || c == 'r' || c == 't' || c == 'u'
}

/// The characters of a string body from `q` on, `acc` holding those read before.
/// `init` is the byte length of the text after the opening quote.
pub open spec fn tok_string_scan(s: Seq<char>, q: int, escaping: bool, acc: Seq<char>, init: nat) -> Result<
    (int, Seq<char>),
    ParseError,
>
    decreases s.len() - q,
{
    if !(0 <= q < s.len()) {
        Err(ParseError::MissingClosing(init as usize))
    } else {
        let c = s[q];
        if c == '\\' && !escaping {
            tok_string_scan(s, q + 1, true, acc, init)
        } else if c == '"' && !escaping {
            Ok((q + 1, acc))
        } else if escaping {
            if is_escape_letter(c) {
                tok_string_scan(s, q + 1, false, acc.push(c), init)
            } else {
                Err(ParseError::UnexpectedChar((s.len() - (q + 1)) as usize))
            }
        } else {
            tok_string_scan(s, q + 1, false, acc.push(c), init)
        }
    }
}

/// A string at `p`.
pub open spec fn tok_string(s: Seq<char>, p: int) -> Result<(int, Seq<char>), ParseError> {
    if 0 <= p < s.len() && s[p] == '"' {
        tok_string_scan(s, p + 1, false, Seq::empty(), rem(s, p + 1))
    } else {
        Err(ParseError::NotFound)
    }
}

/// The integer part of a number at `p`: where it ends, whether a minus sign preceded
/// it, and its digits (a leading `0` stands alone). `None` when the digits exceed
/// `i64::MAX`.
pub open spec fn tok_integer(s: Seq<char>, p: int) -> Option<Result<(int, bool, Seq<char>), ParseError>> {
    let negative = 0 <= p < s.len() && s[p] == '-';
    let q = if negative {
        p + 1
    } else {
        p
    };
    if 0 <= q < s.len() && '1' <= s[q] <= '9' {
        let e = digits_end(s, q + 1);
        if digits_value(s.subrange(q, e)) > i64::MAX {
            None
        } else {
            Some(Ok((e, negative, s.subrange(q, e))))
        }
    } else if 0 <= q < s.len() && s[q] == '0' {
        Some(Ok((q + 1, negative, seq!['0'])))
    } else {
        Some(Err(ParseError::NotFound))
    }
}

/// The fraction part at `p`: its end and digits, empty when there is none; `.` with no
/// digit after it is no fraction.
pub open spec fn tok_fraction(s: Seq<char>, p: int) -> (int, Seq<char>) {
    if 0 <= p < s.len() && s[p] == '.' && digits_end(s, p + 1) > p + 1 {
        (digits_end(s, p + 1), s.subrange(p + 1, digits_end(s, p + 1)))
    } else {
        (p, Seq::empty())
    }
}

/// The exponent part at `p`: its end and value, `0` when there is none; `e` with no
/// digit after it is no exponent. `None` when the digits exceed `i64::MAX`.
pub open spec fn tok_exponent(s: Seq<char>, p: int) -> Option<(int, int)> {
    if 0 <= p < s.len() && (s[p] == 'e' || s[p] == 'E') {
        let r = p + 1;
        let negative = r < s.len() && s[r] == '-';
        let q = if r < s.len() && (s[r] == '+' || s[r] == '-') {
            r + 1
        } else {
            r
        };
        let e = digits_end(s, q);
        if e == q {
            Some((p, 0))
        } else if digits_value(s.subrange(q, e)) > i64::MAX {
            None
        } else {
            let v = digits_value(s.subrange(q, e)) as int;
            Some(
                (
                    e,
                    if negative {
                        -v
                    } else {
                        v
                    },
                ),
            )
        }
    } else {
        Some((p, 0))
    }
}

/// A number at `p`. Its sign is kept only when its integer part is not zero.
pub open spec fn tok_number(s: Seq<char>, p: int) -> Option<Result<(int, JsonView), ParseError>> {
    match tok_integer(s, p) {
        None => None,
        Some(Err(e)) => Some(Err(e)),
        Some(Ok((q, negative, integer))) => {
            let (r, fraction) = tok_fraction(s, q);
            match tok_exponent(s, r) {
                None => None,
                Some((t, exponent)) => Some(
                    Ok(
                        (
                            t,
                            JsonView::Number(
                                NumberView {
                                    negative: negative && digits_value(integer) != 0,
                                    integer,
                                    fraction,
                                    exponent,
                                },
                            ),
                        ),
                    ),
                ),
            }
        },
    }
}

/// The model of what a reading function on characters returns.
pub open spec fn lift_tok(r: Result<(usize, JSONValue), ParseError>) -> Result<(int, JsonView), ParseError> {
    match r {
        Ok((p, v)) => Ok((p as int, v@)),
        Err(e) => Err(e),
    }
}

// ---------------------------------------------------------------------------
// Reading on characters
// ---------------------------------------------------------------------------

/// Whether `c` is a blank.
fn blank_char(c: char) -> (b: bool)
    ensures
        b == is_blank(c),
{
    c == ' ' || c == '\n' || c == '\t' || c == '\r'
}

/// `blank_end` moves forward over blanks only.
pub proof fn lemma_blank_end(s: Seq<char>, p: int)
    ensures
        p <= blank_end(s, p),
        0 <= p <= s.len() ==> blank_end(s, p) <= s.len(),
        0 <= p <= s.len() ==> (blank_end(s, p) == s.len() || !is_blank(s[blank_end(s, p)])),
        forall|k: int| p <= k < blank_end(s, p) ==> is_blank(#[trigger] s[k]),
    decreases s.len() - p,
{
    if 0 <= p < s.len() && is_blank(s[p]) {
        lemma_blank_end(s, p + 1);
    }
}

/// The first position at or after `p` that holds no blank.
fn trim_blanks(s: &Vec<char>, p: usize) -> (r: usize)
    requires
        p <= s@.len(),
    ensures
        r == blank_end(s@, p as int),
        p <= r <= s@.len(),
{
    proof {
        lemma_blank_end(s@, p as int);
    }
    let mut r = p;
    while r < s.len() && blank_char(s[r])
        invariant
            p <= r <= s@.len(),
            blank_end(s@, r as int) == blank_end(s@, p as int),
        decreases s@.len() - r,
    {
        r = r + 1;
    }
    r
}

/// `null` at `p`.
fn null_at(s: &Vec<char>, p: usize) -> (r: Result<(usize, JSONValue), ParseError>)
    requires
        p <= s@.len(),
    ensures
        lift_tok(r) == tok_null(s@, p as int),
        r matches Ok((q, _)) ==> p < q <= s@.len(),
{
    let n: [char; 4] = ['n', 'u', 'l', 'l'];
    assert(n@ =~= seq!['n', 'u', 'l', 'l']);
    let len = s.len();
    if starts_with_at(s, p, n.as_slice()) {
        assert(p + 4 <= len);
        Ok((p + 4, JSONValue::Null))
    } else {
        Err(ParseError::NotFound)
    }
}

/// `true` or `false` at `p`.
fn bool_at(s: &Vec<char>, p: usize) -> (r: Result<(usize, JSONValue), ParseError>)
    requires
        p <= s@.len(),
    ensures
        lift_tok(r) == tok_bool(s@, p as int),
        r matches Ok((q, _)) ==> p < q <= s@.len(),
{
    let t: [char; 4] = ['t', 'r', 'u', 'e'];
    let f: [char; 5] = ['f', 'a', 'l', 's', 'e'];
    assert(t@ =~= seq!['t', 'r', 'u', 'e']);
    assert(f@ =~= seq!['f', 'a', 'l', 's', 'e']);
    let len = s.len();
    if starts_with_at(s, p, t.as_slice()) {
        assert(p + 4 <= len);
        Ok((p + 4, JSONValue::True))
    } else if starts_with_at(s, p, f.as_slice()) {
        assert(p + 5 <= len);
        Ok((p + 5, JSONValue::False))
    } else {
        Err(ParseError::NotFound)
    }
}

/// A string at `p`.
fn string_at(s: &Vec<char>, p: usize) -> (r: Result<(usize, String), ParseError>)
    requires
        p <= s@.len(),
        fits_usize(s@),
    ensures
        match r {
            Ok((q, text)) => tok_string(s@, p as int) == Ok::<(int, Seq<char>), ParseError>(
                (q as int, text@),
            ) && p < q <= s@.len(),
            Err(e) => tok_string(s@, p as int) == Err::<(int, Seq<char>), ParseError>(e),
        },
{
    if !(p < s.len() && s[p] == '"') {
        return Err(ParseError::NotFound);
    }
    let init = rem_bytes(s, p + 1);
    let mut result = String::new();
    let mut escaping = false;
    let mut q = p + 1;
    assert(result@ =~= Seq::<char>::empty());
    while q < s.len()
        invariant
            p < q <= s@.len(),
            init == rem(s@, p + 1),
            tok_string(s@, p as int) == tok_string_scan(s@, q as int, escaping, result@, init as nat),
        decreases s@.len() - q,
    {
        let c = s[q];
        if c == '\\' && !escaping {
            escaping = true;
        } else if c == '"' && !escaping {
            return Ok((q + 1, result));
        } else if escaping {
            if c == '"' || c == '\\' || c == '/' || c == 'b' || c == 'n' || c == 'r' || c == 't' || c == 'u' {
                push_char(&mut result, c);
                escaping = false;
            } else {
                return Err(ParseError::UnexpectedChar(s.len() - (q + 1)));
            }
        } else {
            push_char(&mut result, c);
        }
        q = q + 1;
    }
    Err(ParseError::MissingClosing(init))
}

/// The integer part of a number at `p`.
fn integer_at(s: &Vec<char>, p: usize) -> (r: Result<(usize, bool, String), ParseError>)
    requires
        p <= s@.len(),
        tok_integer(s@, p as int) is Some,
    ensures
        match r {
            Ok((q, neg, digits)) => tok_integer(s@, p as int) == Some(
                Ok::<(int, bool, Seq<char>), ParseError>((q as int, neg, digits@)),
            ) && p < q <= s@.len(),
            Err(e) => tok_integer(s@, p as int) == Some(Err::<(int, bool, Seq<char>), ParseError>(e)),
        },
{
    let negative = p < s.len() && s[p] == '-';
    let q = if negative {
        p + 1
    } else {
        p
    };
    if q < s.len() && '1' <= s[q] && s[q] <= '9' {
        let e = skip_digits(s, q + 1);
        Ok((e, negative, string_from_range(s, q, e)))
    } else if q < s.len() && s[q] == '0' {
        let mut digits = String::new();
        push_char(&mut digits, '0');
        assert(digits@ =~= seq!['0']);
        Ok((q + 1, negative, digits))
    } else {
        Err(ParseError::NotFound)
    }
}

/// The fraction part at `p`, if any.
fn fraction_at(s: &Vec<char>, p: usize) -> (r: (usize, String))
    requires
        p <= s@.len(),
    ensures
        tok_fraction(s@, p as int) == (r.0 as int, r.1@),
        p <= r.0 <= s@.len(),
{
    if p < s.len() && s[p] == '.' {
        let e = skip_digits(s, p + 1);
        if e > p + 1 {
            return (e, string_from_range(s, p + 1, e));
        }
    }
    (p, String::new())
}

/// The exponent part at `p`, if any.
fn exponent_at(s: &Vec<char>, p: usize) -> (r: (usize, i64))
    requires
        p <= s@.len(),
        tok_exponent(s@, p as int) is Some,
    ensures
        tok_exponent(s@, p as int) == Some((r.0 as int, r.1 as int)),
        p <= r.0 <= s@.len(),
{
    if p < s.len() && (s[p] == 'e' || s[p] == 'E') {
        let r = p + 1;
        let negative = r < s.len() && s[r] == '-';
        let q = if r < s.len() && (s[r] == '+' || s[r] == '-') {
            r + 1
        } else {
            r
        };
        let e = skip_digits(s, q);
        proof {
            lemma_digits_end(s@, q as int);
        }
        if e == q {
            return (p, 0);
        }
        match digits_to_i64(s, q, e) {
            None => {
                return (p, 0);
            },
            Some(v) => {
                let value = if negative {
                    -v
                } else {
                    v
                };
                return (e, value);
            },
        }
    }
    (p, 0)
}

/// Digits whose prefix has a non-zero value have a non-zero value.
proof fn lemma_digits_value_zero_prefix(d: Seq<char>, k: int)
    requires
        0 < k <= d.len(),
        forall|i: int| 0 <= i < d.len() ==> is_digit(#[trigger] d[i]),
        d[k - 1] != '0',
    ensures
        digits_value(d) != 0,
    decreases d.len() - k,
{
    if k < d.len() {
        lemma_digits_value_zero_prefix(d.drop_last(), k);
    }
}

/// A number at `p`.
fn number_at(s: &Vec<char>, p: usize) -> (r: Result<(usize, JSONValue), ParseError>)
    requires
        p <= s@.len(),
        tok_number(s@, p as int) is Some,
    ensures
        Some(lift_tok(r)) == tok_number(s@, p as int),
        r matches Ok((q, _)) ==> p < q <= s@.len(),
{
    let (q, negative, integer) = integer_at(s, p)?;
    let (r, fraction) = fraction_at(s, q);
    let (t, exponent) = exponent_at(s, r);
    let d = chars_of(integer.as_str());
    let zero = d.len() == 1 && d[0] == '0';
    proof {
        let q0 = if negative { p + 1 } else { p as int };
        if 0 <= q0 < s@.len() && '1' <= s@[q0] <= '9' {
            lemma_digits_end(s@, q0 + 1);
            let e = digits_end(s@, q0 + 1);
            assert(integer@ == s@.subrange(q0, e));
            assert forall|i: int| 0 <= i < integer@.len() implies is_digit(#[trigger] integer@[i]) by {
                assert(integer@[i] == s@[q0 + i]);
            }
            lemma_digits_value_zero_prefix(integer@, 1);
            assert(!zero);
        } else {
            assert(integer@ =~= seq!['0']);
            assert(integer@.drop_last() =~= Seq::<char>::empty());
            assert(integer@.last() == '0');
            assert(digits_value(Seq::<char>::empty()) == 0);
            assert(digits_value(integer@) == 0);
            assert(zero);
        }
    }
    Ok((t, JSONValue::Number(JsonNumber { negative: negative && !zero, integer, fraction, exponent })))
}


// ---------------------------------------------------------------------------
// Specification of nested values
// ---------------------------------------------------------------------------

/// `a`, unless it found nothing, in which case `b`.
pub open spec fn or_else<T>(a: Option<Result<T, ParseError>>, b: Option<Result<T, ParseError>>) -> Option<
    Result<T, ParseError>,
> {
    match a {
        Some(Err(ParseError::NotFound)) => b,
        _ => a,
    }
}

/// A value at `p`: an object, an array, a string, a number, a boolean or `null`,
/// tried in that order.
pub open spec fn tok_value(s: Seq<char>, p: int) -> Option<Result<(int, JsonView), ParseError>>
    decreases s.len() - p, 1int,
{
    or_else(
        tok_object(s, p),
        or_else(
            tok_array(s, p),
            or_else(
                Some(
                    match tok_string(s, p) {
                        Ok((q, text)) => Ok((q, JsonView::Str(text))),
                        Err(e) => Err(e),
                    },
                ),
                or_else(tok_number(s, p), or_else(Some(tok_bool(s, p)), Some(tok_null(s, p)))),
            ),
        ),
    )
}

/// A value with the blanks around it at `p`; the end is after the trailing blanks.
pub open spec fn tok_element(s: Seq<char>, p: int) -> Option<Result<(int, JsonView), ParseError>>
    decreases s.len() - p, 2int,
{
    proof {
        lemma_blank_end(s, p);
    }
    match tok_value(s, blank_end(s, p)) {
        Some(Ok((r, v))) => Some(Ok((blank_end(s, r), v))),
        other => other,
    }
}

/// Elements separated by commas from `q` on, following the elements `acc`.
pub open spec fn tok_elements_from(s: Seq<char>, q: int, acc: Seq<JsonView>) -> Option<
    Result<(int, Seq<JsonView>), ParseError>,
>
    decreases s.len() - q, 3int,
{
    match tok_element(s, q) {
        None => None,
        Some(Err(e)) => Some(Err(e)),
        Some(Ok((r, v))) => if q < r <= s.len() {
            if r < s.len() && s[r] == ',' {
                tok_elements_from(s, r + 1, acc.push(v))
            } else {
                Some(Ok((r, acc.push(v))))
            }
        } else {
            Some(Err(ParseError::NotFound))
        },
    }
}

/// An array at `p`.
pub open spec fn tok_array(s: Seq<char>, p: int) -> Option<Result<(int, JsonView), ParseError>>
    decreases s.len() - p, 0int,
{
    if 0 <= p < s.len() && s[p] == '[' {
        let u = blank_end(s, p + 1);
        proof {
            lemma_blank_end(s, p + 1);
        }
        if u < s.len() && s[u] == ']' {
            Some(Ok((u + 1, JsonView::Array(Seq::empty()))))
        } else {
            match tok_elements_from(s, u, Seq::empty()) {
                None => None,
                Some(Err(e)) => Some(Err(e)),
                Some(Ok((r, values))) => if 0 <= r < s.len() && s[r] == ']' {
                    Some(Ok((r + 1, JsonView::Array(values))))
                } else {
                    Some(Err(ParseError::MissingClosing(rem(s, u) as usize)))
                },
            }
        }
    } else {
        Some(Err(ParseError::NotFound))
    }
}

/// A member `"key": value` at `p`, after any blanks.
pub open spec fn tok_member(s: Seq<char>, p: int) -> Option<Result<(int, (Seq<char>, JsonView)), ParseError>>
    decreases s.len() - p, 2int,
{
    let t = blank_end(s, p);
    proof {
        lemma_blank_end(s, p);
    }
    match tok_string(s, t) {
        Err(e) => Some(Err(e)),
        Ok((k, key)) => {
            let u = blank_end(s, k);
            proof {
                lemma_tok_string_advances(s, t);
                lemma_blank_end(s, k);
            }
            if 0 <= u < s.len() && s[u] == ':' {
                match tok_element(s, u + 1) {
                    None => None,
                    Some(Err(e)) => Some(Err(e)),
                    Some(Ok((r, v))) => Some(Ok((r, (key, v)))),
                }
            } else {
                Some(Err(ParseError::UnexpectedChar(rem(s, u) as usize)))
            }
        },
    }
}

/// Members separated by commas from `q` on, following the members `acc`.
pub open spec fn tok_members_from(s: Seq<char>, q: int, acc: Seq<(Seq<char>, JsonView)>) -> Option<
    Result<(int, Seq<(Seq<char>, JsonView)>), ParseError>,
>
    decreases s.len() - q, 3int,
{
    match tok_member(s, q) {
        None => None,
        Some(Err(e)) => Some(Err(e)),
        Some(Ok((r, kv))) => if q < r <= s.len() {
            if r < s.len() && s[r] == ',' {
                tok_members_from(s, r + 1, acc.push(kv))
            } else {
                Some(Ok((r, acc.push(kv))))
            }
        } else {
            Some(Err(ParseError::NotFound))
        },
    }
}

/// An object at `p`; a key given twice keeps its last value.
pub open spec fn tok_object(s: Seq<char>, p: int) -> Option<Result<(int, JsonView), ParseError>>
    decreases s.len() - p, 0int,
{
    if 0 <= p < s.len() && s[p] == '{' {
        let u = blank_end(s, p + 1);
        proof {
            lemma_blank_end(s, p + 1);
        }
        if u < s.len() && s[u] == '}' {
            Some(Ok((u + 1, JsonView::Object(Seq::empty()))))
        } else {
            match tok_members_from(s, u, Seq::empty()) {
                None => None,
                Some(Err(e)) => Some(Err(e)),
                Some(Ok((r, pairs))) => if 0 <= r < s.len() && s[r] == '}' {
                    Some(Ok((r + 1, JsonView::Object(object_from_pairs(pairs)))))
                } else {
                    Some(Err(ParseError::MissingClosing(rem(s, u) as usize)))
                },
            }
        }
    } else {
        Some(Err(ParseError::NotFound))
    }
}

/// A string read successfully ends after its opening quote.
pub proof fn lemma_tok_string_advances(s: Seq<char>, p: int)
    ensures
        tok_string(s, p) matches Ok((k, _)) ==> p < k <= s.len(),
{
    if 0 <= p < s.len() && s[p] == '"' {
        lemma_tok_scan_advances(s, p + 1, false, Seq::empty(), rem(s, p + 1));
    }
}

/// Scanning a string body ends after where it starts.
pub proof fn lemma_tok_scan_advances(s: Seq<char>, q: int, escaping: bool, acc: Seq<char>, init: nat)
    ensures
        tok_string_scan(s, q, escaping, acc, init) matches Ok((k, _)) ==> q < k <= s.len(),
    decreases s.len() - q,
{
    if 0 <= q < s.len() {
        let c = s[q];
        if c == '\\' && !escaping {
            lemma_tok_scan_advances(s, q + 1, true, acc, init);
        } else if c == '"' && !escaping {
        } else if escaping {
            if is_escape_letter(c) {
                lemma_tok_scan_advances(s, q + 1, false, acc.push(c), init);
            }
        } else {
            lemma_tok_scan_advances(s, q + 1, false, acc.push(c), init);
        }
    }
}

// ---------------------------------------------------------------------------
// Reading nested values on characters
// ---------------------------------------------------------------------------

/// A value at `p`.
fn value_at(s: &Vec<char>, p: usize) -> (r: Result<(usize, JSONValue), ParseError>)
    requires
        p <= s@.len(),
        fits_usize(s@),
        tok_value(s@, p as int) is Some,
    ensures
        Some(lift_tok(r)) == tok_value(s@, p as int),
        r matches Ok((q, _)) ==> p < q <= s@.len(),
    decreases s@.len() - p, 1int,
{
    match object_at(s, p) {
        Ok(x) => {
            return Ok(x);
        },
        Err(ParseError::NotFound) => {},
        Err(e) => {
            return Err(e);
        },
    }
    match array_at(s, p) {
        Ok(x) => {
            return Ok(x);
        },
        Err(ParseError::NotFound) => {},
        Err(e) => {
            return Err(e);
        },
    }
    match string_at(s, p) {
        Ok((q, text)) => {
            return Ok((q, JSONValue::String(text)));
        },
        Err(ParseError::NotFound) => {},
        Err(e) => {
            return Err(e);
        },
    }
    match number_at(s, p) {
        Ok(x) => {
            return Ok(x);
        },
        Err(ParseError::NotFound) => {},
        Err(e) => {
            return Err(e);
        },
    }
    match bool_at(s, p) {
        Ok(x) => {
            return Ok(x);
        },
        Err(ParseError::NotFound) => {},
        Err(e) => {
            return Err(e);
        },
    }
    null_at(s, p)
}

/// A value with the blanks around it at `p`.
fn element_at(s: &Vec<char>, p: usize) -> (r: Result<(usize, JSONValue), ParseError>)
    requires
        p <= s@.len(),
        fits_usize(s@),
        tok_element(s@, p as int) is Some,
    ensures
        Some(lift_tok(r)) == tok_element(s@, p as int),
        r matches Ok((q, _)) ==> p < q <= s@.len(),
    decreases s@.len() - p, 2int,
{
    let t = trim_blanks(s, p);
    match value_at(s, t) {
        Ok((r, v)) => {
            let u = trim_blanks(s, r);
            Ok((u, v))
        },
        Err(e) => Err(e),
    }
}

/// Elements separated by commas from `p` on.
fn elements_at(s: &Vec<char>, p: usize) -> (r: Result<(usize, Vec<JSONValue>), ParseError>)
    requires
        p <= s@.len(),
        fits_usize(s@),
        tok_elements_from(s@, p as int, Seq::empty()) is Some,
    ensures
        match r {
            Ok((q, values)) => tok_elements_from(s@, p as int, Seq::empty()) == Some(
                Ok::<(int, Seq<JsonView>), ParseError>((q as int, values_model(values@))),
            ) && p < q <= s@.len(),
            Err(e) => tok_elements_from(s@, p as int, Seq::empty()) == Some(
                Err::<(int, Seq<JsonView>), ParseError>(e),
            ),
        },
    decreases s@.len() - p, 3int,
{
    let mut values: Vec<JSONValue> = Vec::new();
    let mut src = p;
    assert(values_model(values@) =~= Seq::<JsonView>::empty());
    loop
        invariant
            p <= src <= s@.len(),
            fits_usize(s@),
            values@.len() > 0 ==> p < src,
            tok_elements_from(s@, p as int, Seq::empty()) == tok_elements_from(
                s@,
                src as int,
                values_model(values@),
            ),
            tok_elements_from(s@, src as int, values_model(values@)) is Some,
        decreases s@.len() - src,
    {
        proof {
            assert(tok_element(s@, src as int) is Some);
        }
        match element_at(s, src) {
            Ok((r, v)) => {
                let ghost before = values_model(values@);
                let ghost vm = v@;
                values.push(v);
                assert(values_model(values@) =~= before.push(vm));
                if r < s.len() && s[r] == ',' {
                    src = r + 1;
                } else {
                    return Ok((r, values));
                }
            },
            Err(e) => {
                return Err(e);
            },
        }
    }
}

/// An array at `p`.
fn array_at(s: &Vec<char>, p: usize) -> (r: Result<(usize, JSONValue), ParseError>)
    requires
        p <= s@.len(),
        fits_usize(s@),
        tok_array(s@, p as int) is Some,
    ensures
        Some(lift_tok(r)) == tok_array(s@, p as int),
        r matches Ok((q, _)) ==> p < q <= s@.len(),
    decreases s@.len() - p, 0int,
{
    if !(p < s.len() && s[p] == '[') {
        return Err(ParseError::NotFound);
    }
    let u = trim_blanks(s, p + 1);
    if u < s.len() && s[u] == ']' {
        let empty: Vec<JSONValue> = Vec::new();
        proof {
            lemma_array_model(empty);
            assert(values_model(empty@) =~= Seq::<JsonView>::empty());
        }
        return Ok((u + 1, JSONValue::Array(empty)));
    }
    let (r, values) = elements_at(s, u)?;
    if r < s.len() && s[r] == ']' {
        proof {
            lemma_array_model(values);
        }
        Ok((r + 1, JSONValue::Array(values)))
    } else {
        Err(ParseError::MissingClosing(rem_bytes(s, u)))
    }
}

/// A member `"key": value` at `p`, after any blanks.
fn member_at(s: &Vec<char>, p: usize) -> (r: Result<(usize, (String, JSONValue)), ParseError>)
    requires
        p <= s@.len(),
        fits_usize(s@),
        tok_member(s@, p as int) is Some,
    ensures
        match r {
            Ok((q, kv)) => tok_member(s@, p as int) == Some(
                Ok::<(int, (Seq<char>, JsonView)), ParseError>((q as int, (kv.0@, kv.1@))),
            ) && p < q <= s@.len(),
            Err(e) => tok_member(s@, p as int) == Some(Err::<(int, (Seq<char>, JsonView)), ParseError>(e)),
        },
    decreases s@.len() - p, 2int,
{
    let t = trim_blanks(s, p);
    let (k, key) = string_at(s, t)?;
    let u = trim_blanks(s, k);
    if !(u < s.len() && s[u] == ':') {
        return Err(ParseError::UnexpectedChar(rem_bytes(s, u)));
    }
    let (r, value) = element_at(s, u + 1)?;
    Ok((r, (key, value)))
}

/// Members separated by commas from `p` on.
fn members_at(s: &Vec<char>, p: usize) -> (r: Result<(usize, Vec<(String, JSONValue)>), ParseError>)
    requires
        p <= s@.len(),
        fits_usize(s@),
        tok_members_from(s@, p as int, Seq::empty()) is Some,
    ensures
        match r {
            Ok((q, pairs)) => tok_members_from(s@, p as int, Seq::empty()) == Some(
                Ok::<(int, Seq<(Seq<char>, JsonView)>), ParseError>((q as int, members_model(pairs@))),
            ) && p < q <= s@.len(),
            Err(e) => tok_members_from(s@, p as int, Seq::empty()) == Some(
                Err::<(int, Seq<(Seq<char>, JsonView)>), ParseError>(e),
            ),
        },
    decreases s@.len() - p, 3int,
{
    let mut pairs: Vec<(String, JSONValue)> = Vec::new();
    let mut src = p;
    assert(members_model(pairs@) =~= Seq::<(Seq<char>, JsonView)>::empty());
    loop
        invariant
            p <= src <= s@.len(),
            fits_usize(s@),
            pairs@.len() > 0 ==> p < src,
            tok_members_from(s@, p as int, Seq::empty()) == tok_members_from(
                s@,
                src as int,
                members_model(pairs@),
            ),
            tok_members_from(s@, src as int, members_model(pairs@)) is Some,
        decreases s@.len() - src,
    {
        proof {
            assert(tok_member(s@, src as int) is Some);
        }
        match member_at(s, src) {
            Ok((r, kv)) => {
                let ghost before = members_model(pairs@);
                let ghost km = kv.0@;
                let ghost vm = kv.1@;
                pairs.push(kv);
                assert(members_model(pairs@) =~= before.push((km, vm)));
                if r < s.len() && s[r] == ',' {
                    src = r + 1;
                } else {
                    return Ok((r, pairs));
                }
            },
            Err(e) => {
                return Err(e);
            },
        }
    }
}

/// An object at `p`.
fn object_at(s: &Vec<char>, p: usize) -> (r: Result<(usize, JSONValue), ParseError>)
    requires
        p <= s@.len(),
        fits_usize(s@),
        tok_object(s@, p as int) is Some,
    ensures
        Some(lift_tok(r)) == tok_object(s@, p as int),
        r matches Ok((q, _)) ==> p < q <= s@.len(),
    decreases s@.len() - p, 0int,
{
    if !(p < s.len() && s[p] == '{') {
        return Err(ParseError::NotFound);
    }
    let u = trim_blanks(s, p + 1);
    if u < s.len() && s[u] == '}' {
        let empty: Vec<(String, JSONValue)> = Vec::new();
        proof {
            lemma_object_model(empty);
            assert(members_model(empty@) =~= Seq::<(Seq<char>, JsonView)>::empty());
        }
        return Ok((u + 1, JSONValue::Object(empty)));
    }
    let (r, pairs) = members_at(s, u)?;
    if r < s.len() && s[r] == '}' {
        let map = object_of_pairs(pairs);
        proof {
            lemma_object_model(map);
        }
        Ok((r + 1, JSONValue::Object(map)))
    } else {
        Err(ParseError::MissingClosing(rem_bytes(s, u)))
    }
}

// ---------------------------------------------------------------------------
// Entry points on string slices
// ---------------------------------------------------------------------------

/// What a reading function on string slices returns for the reading `spec` of `src`:
/// the value, and the text after what was read.
pub open spec fn token_matches(src: Seq<char>, spec: Result<(int, JsonView), ParseError>, r: Result<Token, ParseError>) -> bool {
    match r {
        Ok(t) => spec matches Ok((q, v)) && 0 <= q <= src.len() && t.spec_value() == v && t.spec_rest()
            == src.subrange(q, src.len() as int),
        Err(e) => spec == Err::<(int, JsonView), ParseError>(e),
    }
}

/// Reads `null` at the start of `src`.
pub fn null(src: &str) -> (r: Result<Token, ParseError>)
    ensures
        token_matches(src@, tok_null(src@, 0), r),
{
    let s = chars_of(src);
    let (q, v) = null_at(&s, 0)?;
    Ok(Token::new(src.substring_char(q, s.len()), v))
}

/// Reads `true` or `false` at the start of `src`.
pub fn bool(src: &str) -> (r: Result<Token, ParseError>)
    ensures
        token_matches(src@, tok_bool(src@, 0), r),
{
    let s = chars_of(src);
    let (q, v) = bool_at(&s, 0)?;
    Ok(Token::new(src.substring_char(q, s.len()), v))
}

/// Reads a string at the start of `src`.
pub fn string(src: &str) -> (r: Result<Token, ParseError>)
    ensures
        token_matches(
            src@,
            match tok_string(src@, 0) {
                Ok((q, text)) => Ok((q, JsonView::Str(text))),
                Err(e) => Err(e),
            },
            r,
        ),
{
    let _bytes = str_byte_len(src);
    let s = chars_of(src);
    let (q, text) = string_at(&s, 0)?;
    Ok(Token::new(src.substring_char(q, s.len()), JSONValue::String(text)))
}

/// Reads a number at the start of `src`.
pub fn number(src: &str) -> (r: Result<Token, ParseError>)
    requires
        tok_number(src@, 0) is Some,
    ensures
        token_matches(src@, tok_number(src@, 0)->0, r),
{
    let s = chars_of(src);
    let (q, v) = number_at(&s, 0)?;
    Ok(Token::new(src.substring_char(q, s.len()), v))
}

/// Reads values separated by commas, each with the blanks around it, at the start of
/// `src`; returns them and the text after the last one.
pub fn elements(src: &str) -> (r: Result<(&str, Vec<JSONValue>), ParseError>)
    requires
        tok_elements_from(src@, 0, Seq::empty()) is Some,
    ensures
        match r {
            Ok((rest, values)) => tok_elements_from(src@, 0, Seq::empty()) matches Some(Ok((q, vs)))
                && vs == values_model(values@) && 0 <= q <= src@.len() && rest@ == src@.subrange(
                q,
                src@.len() as int,
            ),
            Err(e) => tok_elements_from(src@, 0, Seq::empty()) == Some(
                Err::<(int, Seq<JsonView>), ParseError>(e),
            ),
        },
{
    let _bytes = str_byte_len(src);
    let s = chars_of(src);
    let (q, values) = elements_at(&s, 0)?;
    Ok((src.substring_char(q, s.len()), values))
}

/// Every string of decimal digits without a leading zero, of a value that fits in an
/// `i64`, is read whole as a number: an integer with those digits.
pub proof fn digit_strings_read_as_integers(d: Seq<char>)
    requires
        d.len() > 0,
        '1' <= d[0] <= '9',
        forall|i: int| 0 <= i < d.len() ==> '0' <= #[trigger] d[i] <= '9',
        digits_value(d) <= i64::MAX,
    ensures
        tok_number(d, 0) == Some(
            Ok::<(int, JsonView), ParseError>(
                (
                    d.len() as int,
                    JsonView::Number(NumberView { negative: false, integer: d, fraction: Seq::empty(), exponent: 0 }),
                ),
            ),
        ),
{
    let n = d.len() as int;
    lemma_digits_to_end(d, 1);
    assert(d.subrange(0, n) =~= d);
    assert(tok_integer(d, 0) == Some(Ok::<(int, bool, Seq<char>), ParseError>((n, false, d))));
    assert(tok_fraction(d, n) == (n, Seq::<char>::empty()));
    assert(tok_exponent(d, n) == Some((n, 0int)));
}

} // verus!
