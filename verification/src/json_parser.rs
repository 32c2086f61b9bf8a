//! JSON text to values: a recursive-descent parser over the characters of the input.
//!
//! Every parsing function takes the whole input as characters and a position in it,
//! and on success returns the position just after what it consumed. Error positions
//! are counted in bytes of UTF-8, as `str::len` counts them.

use vstd::prelude::*;
use vstd::string::{StrSliceExecFns, StringSliceAdditionalSpecFns};
use crate::text::{byte_len, char_from_u32, chars_of, lemma_byte_len_is_encoded_len, byte_len_from, has_prefix_at, push_char, starts_with_at, string_from_range, utf8_width};

verus! {

/// Why a text is not accepted as JSON.
#[derive(Debug, Clone, PartialEq, Eq, Structural)]
pub enum JSONParseError {
    Error(usize),
    NotFound,
    UnexpectedChar(usize),
    MissingClosing(usize),
}

/// A JSON number as written in the text: its sign, its integer digits, its fraction
/// digits (empty when the number has no fraction part) and its decimal exponent.
/// Its value is `(integer.fraction) * 10^exponent`, negated when `negative`.
#[derive(Debug, Clone, PartialEq)]
pub struct JsonNumber {
    pub negative: bool,
    pub integer: String,
    pub fraction: String,
    pub exponent: i64,
}

/// The mathematical model of a [`JsonNumber`].
pub struct NumberView {
    pub negative: bool,
    pub integer: Seq<char>,
    pub fraction: Seq<char>,
    pub exponent: int,
}

impl View for JsonNumber {
    type V = NumberView;

    open spec fn view(&self) -> NumberView {
        NumberView {
            negative: self.negative,
            integer: self.integer@,
            fraction: self.fraction@,
            exponent: self.exponent as int,
        }
    }
}

/// A JSON value. An object keeps its members in the order in which their keys first
/// appeared, each key once.
#[derive(Debug, PartialEq)]
pub enum JSONValue {
    Null,
    True,
    False,
    Number(JsonNumber),
    String(String),
    Array(Vec<JSONValue>),
    Object(Vec<(String, JSONValue)>),
}

/// The mathematical model of a [`JSONValue`].
pub enum JsonView {
    Null,
    True,
    False,
    Number(NumberView),
    Str(Seq<char>),
    Array(Seq<JsonView>),
    Object(Seq<(Seq<char>, JsonView)>),
}

impl JSONValue {
    /// The model of this value.
    pub open spec fn model(&self) -> JsonView
        decreases self,
    {
        match self {
            JSONValue::Null => JsonView::Null,
            JSONValue::True => JsonView::True,
            JSONValue::False => JsonView::False,
            JSONValue::Number(n) => JsonView::Number(n@),
            JSONValue::String(s) => JsonView::Str(s@),
            JSONValue::Array(v) => JsonView::Array(
                Seq::new(
                    v@.len(),
                    |i: int|
                        if 0 <= i < v@.len() {
                            v@[i].model()
                        } else {
                            JsonView::Null
                        },
                ),
            ),
            JSONValue::Object(v) => JsonView::Object(
                Seq::new(
                    v@.len(),
                    |i: int|
                        if 0 <= i < v@.len() {
                            (v@[i].0@, v@[i].1.model())
                        } else {
                            (Seq::empty(), JsonView::Null)
                        },
                ),
            ),
        }
    }
}

impl View for JSONValue {
    type V = JsonView;

    open spec fn view(&self) -> JsonView {
        self.model()
    }
}

// ---------------------------------------------------------------------------
// Specification of the grammar
// ---------------------------------------------------------------------------

/// ASCII whitespace, as `char::is_ascii_whitespace` defines it.
pub open spec fn is_json_ws(c: char) -> bool {
    c == ' ' || c == '\t' || c == '\n' || c == '\x0C' || c == '\r'
}

/// The first position at or after `p` that does not hold whitespace.
pub open spec fn ws_end(s: Seq<char>, p: int) -> int
    decreases s.len() - p,
{
    if 0 <= p < s.len() && is_json_ws(s[p]) {
        ws_end(s, p + 1)
    } else {
        p
    }
}

/// Bytes of input left from position `p` on.
pub open spec fn rem(s: Seq<char>, p: int) -> nat {
    byte_len(s.subrange(p, s.len() as int))
}

/// An ASCII decimal digit.
pub open spec fn is_digit(c: char) -> bool {
    '0' <= c <= '9'
}

/// The end of the run of decimal digits that starts at `p`.
pub open spec fn digits_end(s: Seq<char>, p: int) -> int
    decreases s.len() - p,
{
    if 0 <= p < s.len() && is_digit(s[p]) {
        digits_end(s, p + 1)
    } else {
        p
    }
}

/// The value of a sequence of decimal digits.
pub open spec fn digits_value(d: Seq<char>) -> nat
    decreases d.len(),
{
    if d.len() == 0 {
        0
    } else {
        digits_value(d.drop_last()) * 10 + ((d.last() as u32) - ('0' as u32)) as nat
    }
}

/// The integer part of a number at `p`: where it ends, whether a minus sign preceded
/// it, and its digits.
pub open spec fn spec_integer_parts(s: Seq<char>, p: int) -> Result<
    (int, bool, Seq<char>),
    JSONParseError,
> {
    let negative = 0 <= p < s.len() && s[p] == '-';
    let q = if negative {
        p + 1
    } else {
        p
    };
    if 0 <= q < s.len() && s[q] == '0' {
        if q + 1 < s.len() && is_digit(s[q + 1]) {
            Err(JSONParseError::UnexpectedChar(0))
        } else {
            Ok((q + 1, negative, seq!['0']))
        }
    } else if 0 <= q < s.len() && '1' <= s[q] <= '9' {
        let e = digits_end(s, q + 1);
        Ok((e, negative, s.subrange(q, e)))
    } else {
        Err(JSONParseError::NotFound)
    }
}

/// The fraction part at `p`, if the text continues with one.
pub open spec fn spec_fraction(s: Seq<char>, p: int) -> Result<(int, Seq<char>), JSONParseError> {
    if 0 <= p < s.len() && s[p] == '.' {
        let e = digits_end(s, p + 1);
        if e == p + 1 {
            Err(JSONParseError::NotFound)
        } else {
            Ok((e, s.subrange(p + 1, e)))
        }
    } else {
        Ok((p, Seq::empty()))
    }
}

/// The exponent part at `p`, if the text continues with one. An exponent whose
/// digits exceed `i64::MAX` is an error.
pub open spec fn spec_exponent(s: Seq<char>, p: int) -> Result<(int, int), JSONParseError> {
    if 0 <= p < s.len() && (s[p] == 'e' || s[p] == 'E') {
        let r = p + 1;
        let negative = r < s.len() && s[r] == '-';
        let q = if r < s.len() && (s[r] == '+' || s[r] == '-') {
            r + 1
        } else {
            r
        };
        let e = digits_end(s, q);
        if e == q {
            Err(JSONParseError::NotFound)
        } else if digits_value(s.subrange(q, e)) > i64::MAX {
            Err(JSONParseError::Error(0))
        } else {
            let v = digits_value(s.subrange(q, e)) as int;
            Ok((
                e,
                if negative {
                    -v
                } else {
                    v
                },
            ))
        }
    } else {
        Ok((p, 0))
    }
}

/// A number at `p`.
pub open spec fn spec_number(s: Seq<char>, p: int) -> Result<(int, JsonView), JSONParseError> {
    match spec_integer_parts(s, p) {
        Err(e) => Err(e),
        Ok((q, negative, integer)) => match spec_fraction(s, q) {
            Err(e) => Err(e),
            Ok((r, fraction)) => match spec_exponent(s, r) {
                Err(e) => Err(e),
                Ok((t, exponent)) => Ok(
                    (
                        t,
                        JsonView::Number(
                            NumberView { negative, integer, fraction, exponent },
                        ),
                    ),
                ),
            },
        },
    }
}

/// `true` or `false` at `p`.
pub open spec fn spec_bool(s: Seq<char>, p: int) -> Result<(int, JsonView), JSONParseError> {
    if has_prefix_at(s, p, seq!['t', 'r', 'u', 'e']) {
        Ok((p + 4, JsonView::True))
    } else if has_prefix_at(s, p, seq!['f', 'a', 'l', 's', 'e']) {
        Ok((p + 5, JsonView::False))
    } else {
        Err(JSONParseError::NotFound)
    }
}

/// `null` at `p`.
pub open spec fn spec_null(s: Seq<char>, p: int) -> Result<(int, JsonView), JSONParseError> {
    if has_prefix_at(s, p, seq!['n', 'u', 'l', 'l']) {
        Ok((p + 4, JsonView::Null))
    } else {
        Err(JSONParseError::NotFound)
    }
}

/// The value of a hexadecimal digit.
pub open spec fn hex_value(c: char) -> Option<u32> {
    if '0' <= c <= '9' {
        Some(((c as u32) - ('0' as u32)) as u32)
    } else if 'a' <= c <= 'f' {
        Some(((c as u32) - ('a' as u32) + 10) as u32)
    } else if 'A' <= c <= 'F' {
        Some(((c as u32) - ('A' as u32) + 10) as u32)
    } else {
        None
    }
}

/// `n` hexadecimal digits from `q` on, accumulated onto `acc`. `init` is the byte
/// length of the text after the opening quote of the string being read.
pub open spec fn spec_hex_digits(s: Seq<char>, q: int, n: nat, acc: u32, init: nat) -> Result<
    u32,
    JSONParseError,
>
    decreases n,
{
    if n == 0 {
        Ok(acc)
    } else if !(0 <= q < s.len()) {
        Err(JSONParseError::UnexpectedChar(init as usize))
    } else {
        match hex_value(s[q]) {
            None => Err(JSONParseError::UnexpectedChar((init - rem(s, q + 1)) as usize)),
            Some(d) => spec_hex_digits(s, q + 1, (n - 1) as nat, (acc * 16 + d) as u32, init),
        }
    }
}

/// A UTF-16 surrogate code unit, which is no `char`.
pub open spec fn is_surrogate(u: u32) -> bool {
    0xD800 <= u <= 0xDFFF
}

/// The characters of a string body from `q` on, `acc` holding those already decoded.
pub open spec fn spec_string_scan(
    s: Seq<char>,
    q: int,
    escaping: bool,
    acc: Seq<char>,
    init: nat,
) -> Result<(int, Seq<char>), JSONParseError>
    decreases s.len() - q,
{
    if !(0 <= q < s.len()) {
        Err(JSONParseError::MissingClosing(init as usize))
    } else {
        let c = s[q];
        if c == '\\' && !escaping {
            spec_string_scan(s, q + 1, true, acc, init)
        } else if c == '"' && !escaping {
            Ok((q + 1, acc))
        } else if escaping {
            if c == '"' || c == '\\' || c == '/' {
                spec_string_scan(s, q + 1, false, acc.push(c), init)
            } else if c == 'b' {
                spec_string_scan(s, q + 1, false, acc.push('\x08'), init)
            } else if c == 'f' {
                spec_string_scan(s, q + 1, false, acc.push('\x0C'), init)
            } else if c == 'n' {
                spec_string_scan(s, q + 1, false, acc.push('\n'), init)
            } else if c == 'r' {
                spec_string_scan(s, q + 1, false, acc.push('\r'), init)
            } else if c == 't' {
                spec_string_scan(s, q + 1, false, acc.push('\t'), init)
            } else if c == 'u' {
                match spec_hex_digits(s, q + 1, 4, 0, init) {
                    Err(e) => Err(e),
                    Ok(u) => {
                        proof {
                            lemma_hex_digits_bounds(s, q + 1, 4, 0, init);
                        }
                        if is_surrogate(u) {
                            Err(JSONParseError::UnexpectedChar((init - rem(s, q + 5)) as usize))
                        } else {
                            spec_string_scan(s, q + 5, false, acc.push(u as char), init)
                        }
                    },
                }
            } else {
                Err(JSONParseError::UnexpectedChar((init - rem(s, q + 1) - 1) as usize))
            }
        } else {
            spec_string_scan(s, q + 1, false, acc.push(c), init)
        }
    }
}

/// A string literal at `p`: where it ends and the characters it denotes.
pub open spec fn spec_string(s: Seq<char>, p: int) -> Result<(int, Seq<char>), JSONParseError> {
    if 0 <= p < s.len() && s[p] == '"' {
        spec_string_scan(s, p + 1, false, Seq::empty(), rem(s, p + 1))
    } else {
        Err(JSONParseError::NotFound)
    }
}

/// Adds a member to an object: a key already present gets the new value in its place,
/// a new key goes last.
pub open spec fn object_insert(entries: Seq<(Seq<char>, JsonView)>, k: Seq<char>, v: JsonView) -> Seq<
    (Seq<char>, JsonView),
>
    decreases entries.len(),
{
    if entries.len() == 0 {
        seq![(k, v)]
    } else if entries[0].0 == k {
        entries.update(0, (k, v))
    } else {
        seq![entries[0]] + object_insert(entries.drop_first(), k, v)
    }
}

/// The object that the members `pairs` make when inserted in order.
pub open spec fn object_from_pairs(pairs: Seq<(Seq<char>, JsonView)>) -> Seq<(Seq<char>, JsonView)>
    decreases pairs.len(),
{
    if pairs.len() == 0 {
        Seq::empty()
    } else {
        object_insert(object_from_pairs(pairs.drop_last()), pairs.last().0, pairs.last().1)
    }
}

/// A value at `p`, after any whitespace: the kind of value is chosen by its first character.
pub open spec fn spec_value(s: Seq<char>, p: int) -> Result<(int, JsonView), JSONParseError>
    decreases s.len() - p, 1int,
{
    let t = ws_end(s, p);
    proof {
        lemma_ws_end(s, p);
    }
    if 0 <= t < s.len() && s[t] == '{' {
        spec_object(s, t)
    } else if 0 <= t < s.len() && s[t] == '[' {
        spec_array(s, t)
    } else if 0 <= t < s.len() && s[t] == '"' {
        match spec_string(s, t) {
            Ok((q, text)) => Ok((q, JsonView::Str(text))),
            Err(e) => Err(e),
        }
    } else if 0 <= t < s.len() && (s[t] == '-' || is_digit(s[t])) {
        spec_number(s, t)
    } else {
        match spec_bool(s, t) {
            Ok(r) => Ok(r),
            Err(_) => spec_null(s, t),
        }
    }
}

/// A value surrounded by whitespace at `p`; the result position is after the trailing
/// whitespace.
pub open spec fn spec_element(s: Seq<char>, p: int) -> Result<(int, JsonView), JSONParseError>
    decreases s.len() - p, 2int,
{
    proof {
        lemma_ws_end(s, p);
    }
    match spec_value(s, ws_end(s, p)) {
        Ok((r, v)) => Ok((ws_end(s, r), v)),
        Err(e) => Err(e),
    }
}

/// The elements of an array, starting at `p`: none when no element can be read there.
pub open spec fn spec_elements(s: Seq<char>, p: int) -> Result<(int, Seq<JsonView>), JSONParseError>
    decreases s.len() - p, 3int,
{
    match spec_element(s, p) {
        Err(_) => Ok((p, Seq::empty())),
        Ok((r, v)) => if p < r <= s.len() {
            spec_elements_tail(s, r, seq![v])
        } else {
            Err(JSONParseError::NotFound)
        },
    }
}

/// Further elements, each after a comma, following the elements `acc` that end at `r`.
pub open spec fn spec_elements_tail(s: Seq<char>, r: int, acc: Seq<JsonView>) -> Result<
    (int, Seq<JsonView>),
    JSONParseError,
>
    decreases s.len() - r, 3int,
{
    let t = ws_end(s, r);
    proof {
        lemma_ws_end(s, r);
    }
    if 0 <= t < s.len() && s[t] == ',' {
        let q = ws_end(s, t + 1);
        proof {
            lemma_ws_end(s, t + 1);
        }
        match spec_element(s, q) {
            Ok((r2, v)) => if r < r2 <= s.len() {
                spec_elements_tail(s, r2, acc.push(v))
            } else {
                Err(JSONParseError::NotFound)
            },
            Err(JSONParseError::NotFound) => Err(JSONParseError::UnexpectedChar(0)),
            Err(e) => Err(e),
        }
    } else {
        Ok((r, acc))
    }
}

/// An array at `p`, after any whitespace.
pub open spec fn spec_array(s: Seq<char>, p: int) -> Result<(int, JsonView), JSONParseError>
    decreases s.len() - p, 0int,
{
    let t = ws_end(s, p);
    proof {
        lemma_ws_end(s, p);
    }
    if !(0 <= t < s.len() && s[t] == '[') {
        Err(JSONParseError::NotFound)
    } else {
        let u = ws_end(s, t + 1);
        proof {
            lemma_ws_end(s, t + 1);
        }
        if u < s.len() && s[u] == ']' {
            Ok((u + 1, JsonView::Array(Seq::empty())))
        } else if u < s.len() && s[u] == ',' {
            Err(JSONParseError::UnexpectedChar(0))
        } else {
            match spec_elements(s, u) {
                Err(e) => Err(e),
                Ok((r, values)) => {
                    let w = ws_end(s, r);
                    if 0 <= w < s.len() && s[w] == ']' {
                        Ok((w + 1, JsonView::Array(values)))
                    } else {
                        Err(JSONParseError::MissingClosing(rem(s, w) as usize))
                    }
                },
            }
        }
    }
}

/// A member `"key": value` of an object at `p`, after any whitespace.
pub open spec fn spec_member(s: Seq<char>, p: int) -> Result<
    (int, (Seq<char>, JsonView)),
    JSONParseError,
>
    decreases s.len() - p, 2int,
{
    let t = ws_end(s, p);
    proof {
        lemma_ws_end(s, p);
    }
    match spec_string(s, t) {
        Err(e) => Err(e),
        Ok((k, key)) => {
            let u = ws_end(s, k);
            proof {
                lemma_string_advances(s, t);
                lemma_ws_end(s, k);
            }
            if !(0 <= u < s.len() && s[u] == ':') {
                Err(JSONParseError::UnexpectedChar(rem(s, u) as usize))
            } else {
                let v = ws_end(s, u + 1);
                proof {
                    lemma_ws_end(s, u + 1);
                }
                match spec_element(s, v) {
                    Err(e) => Err(e),
                    Ok((r, value)) => Ok((r, (key, value))),
                }
            }
        },
    }
}

/// The members of an object, starting at `p`: none when no member can be read there.
pub open spec fn spec_members(s: Seq<char>, p: int) -> Result<
    (int, Seq<(Seq<char>, JsonView)>),
    JSONParseError,
>
    decreases s.len() - p, 3int,
{
    match spec_member(s, p) {
        Err(_) => Ok((p, Seq::empty())),
        Ok((r, kv)) => if p < r <= s.len() {
            spec_members_tail(s, r, seq![kv])
        } else {
            Err(JSONParseError::NotFound)
        },
    }
}

/// Further members, each after a comma, following the members `acc` that end at `r`.
pub open spec fn spec_members_tail(s: Seq<char>, r: int, acc: Seq<(Seq<char>, JsonView)>) -> Result<
    (int, Seq<(Seq<char>, JsonView)>),
    JSONParseError,
>
    decreases s.len() - r, 3int,
{
    let t = ws_end(s, r);
    proof {
        lemma_ws_end(s, r);
    }
    if 0 <= t < s.len() && s[t] == ',' {
        let q = ws_end(s, t + 1);
        proof {
            lemma_ws_end(s, t + 1);
        }
        match spec_member(s, q) {
            Ok((r2, kv)) => if r < r2 <= s.len() {
                spec_members_tail(s, r2, acc.push(kv))
            } else {
                Err(JSONParseError::NotFound)
            },
            Err(JSONParseError::NotFound) => Err(JSONParseError::UnexpectedChar(0)),
            Err(e) => Err(e),
        }
    } else {
        Ok((r, acc))
    }
}

/// An object at `p`, after any whitespace.
pub open spec fn spec_object(s: Seq<char>, p: int) -> Result<(int, JsonView), JSONParseError>
    decreases s.len() - p, 0int,
{
    let t = ws_end(s, p);
    proof {
        lemma_ws_end(s, p);
    }
    if !(0 <= t < s.len() && s[t] == '{') {
        Err(JSONParseError::NotFound)
    } else {
        let u = ws_end(s, t + 1);
        proof {
            lemma_ws_end(s, t + 1);
        }
        if u < s.len() && s[u] == '}' {
            Ok((u + 1, JsonView::Object(Seq::empty())))
        } else if u < s.len() && s[u] == ',' {
            Err(JSONParseError::UnexpectedChar(0))
        } else {
            match spec_members(s, u) {
                Err(e) => Err(e),
                Ok((r, pairs)) => {
                    let w = ws_end(s, r);
                    if 0 <= w < s.len() && s[w] == '}' {
                        Ok((w + 1, JsonView::Object(object_from_pairs(pairs))))
                    } else {
                        Err(JSONParseError::MissingClosing(rem(s, w) as usize))
                    }
                },
            }
        }
    }
}

/// A whole JSON text: one element and nothing but whitespace after it.
pub open spec fn spec_parse(s: Seq<char>) -> Result<JsonView, JSONParseError> {
    match spec_element(s, 0) {
        Err(e) => Err(e),
        Ok((r, v)) => {
            let t = ws_end(s, r);
            if t == s.len() {
                Ok(v)
            } else {
                Err(
                    JSONParseError::UnexpectedChar(
                        ((byte_len(s) - rem(s, r)) + rem(s, t) - rem(s, r)) as usize,
                    ),
                )
            }
        },
    }
}

// ---------------------------------------------------------------------------
// Lemmas on the grammar
// ---------------------------------------------------------------------------

/// `ws_end` moves forward over whitespace only.
pub proof fn lemma_ws_end(s: Seq<char>, p: int)
    ensures
        p <= ws_end(s, p),
        0 <= p <= s.len() ==> ws_end(s, p) <= s.len(),
        0 <= p <= s.len() ==> (ws_end(s, p) == s.len() || !is_json_ws(s[ws_end(s, p)])),
        forall|k: int| p <= k < ws_end(s, p) ==> is_json_ws(#[trigger] s[k]),
        ws_end(s, ws_end(s, p)) == ws_end(s, p),
    decreases s.len() - p,
{
    if 0 <= p < s.len() && is_json_ws(s[p]) {
        lemma_ws_end(s, p + 1);
    }
}

/// `digits_end` moves forward over digits only.
pub proof fn lemma_digits_end(s: Seq<char>, p: int)
    ensures
        p <= digits_end(s, p),
        0 <= p <= s.len() ==> digits_end(s, p) <= s.len(),
        0 <= p <= s.len() ==> (digits_end(s, p) == s.len() || !is_digit(s[digits_end(s, p)])),
        forall|k: int| p <= k < digits_end(s, p) ==> is_digit(#[trigger] s[k]),
    decreases s.len() - p,
{
    if 0 <= p < s.len() && is_digit(s[p]) {
        lemma_digits_end(s, p + 1);
    }
}

/// Reading hexadecimal digits stays within the text and below `16^n` times more.
pub proof fn lemma_hex_digits_bounds(s: Seq<char>, q: int, n: nat, acc: u32, init: nat)
    ensures
        0 <= q <= s.len() && spec_hex_digits(s, q, n, acc, init) is Ok ==> q + n <= s.len(),
    decreases n,
{
    if n > 0 && 0 <= q < s.len() {
        match hex_value(s[q]) {
            None => {},
            Some(d) => {
                lemma_hex_digits_bounds(s, q + 1, (n - 1) as nat, (acc * 16 + d) as u32, init);
            },
        }
    }
}

/// Each character takes at least one byte.
pub proof fn lemma_rem_step(s: Seq<char>, x: int)
    requires
        0 <= x < s.len(),
    ensures
        rem(s, x) == utf8_width(s[x]) + rem(s, x + 1),
        rem(s, x) >= rem(s, x + 1) + 1,
{
    assert(s.subrange(x, s.len() as int).drop_first() =~= s.subrange(x + 1, s.len() as int));
}

/// Later positions have fewer bytes left, at least one fewer per character.
pub proof fn lemma_rem_mono(s: Seq<char>, x: int, y: int)
    requires
        0 <= x <= y <= s.len(),
    ensures
        rem(s, y) + (y - x) <= rem(s, x),
    decreases y - x,
{
    if x < y {
        lemma_rem_step(s, x);
        lemma_rem_mono(s, x + 1, y);
    }
}

/// Nothing is left at the end of the text, and all of it is left at its start.
pub proof fn lemma_rem_ends(s: Seq<char>)
    ensures
        rem(s, s.len() as int) == 0,
        rem(s, 0) == byte_len(s),
{
    assert(s.subrange(s.len() as int, s.len() as int) =~= Seq::<char>::empty());
    assert(s.subrange(0, s.len() as int) =~= s);
}

/// Texts whose byte lengths fit in a `usize`, as those of all `str` values do.
pub open spec fn fits_usize(s: Seq<char>) -> bool {
    byte_len(s) <= usize::MAX
}

/// The model of what a parsing function returns.
pub open spec fn lift(r: Result<(usize, JSONValue), JSONParseError>) -> Result<
    (int, JsonView),
    JSONParseError,
> {
    match r {
        Ok((p, v)) => Ok((p as int, v@)),
        Err(e) => Err(e),
    }
}

// ---------------------------------------------------------------------------
// Scanning
// ---------------------------------------------------------------------------

/// Whether `c` is ASCII whitespace.
pub fn is_whitespace_char(c: char) -> (b: bool)
    ensures
        b == is_json_ws(c),
{
    c == ' ' || c == '\t' || c == '\n' || c == '\x0C' || c == '\r'
}

/// The first position at or after `p` that does not hold whitespace.
pub fn skip_ws(s: &Vec<char>, p: usize) -> (r: usize)
    requires
        p <= s@.len(),
    ensures
        r == ws_end(s@, p as int),
        p <= r <= s@.len(),
{
    let mut r = p;
    proof {
        lemma_ws_end(s@, p as int);
    }
    while r < s.len() && is_whitespace_char(s[r])
        invariant
            p <= r <= s@.len(),
            ws_end(s@, r as int) == ws_end(s@, p as int),
        decreases s@.len() - r,
    {
        r = r + 1;
    }
    r
}

/// Bytes of input left from `p` on.
pub(crate) fn rem_bytes(s: &Vec<char>, p: usize) -> (n: usize)
    requires
        p <= s@.len(),
        fits_usize(s@),
    ensures
        n == rem(s@, p as int),
{
    byte_len_from(s, p)
}

/// The end of the run of digits that starts at `p`.
pub(crate) fn skip_digits(s: &Vec<char>, p: usize) -> (r: usize)
    requires
        p <= s@.len(),
    ensures
        r == digits_end(s@, p as int),
        p <= r <= s@.len(),
{
    let mut r = p;
    proof {
        lemma_digits_end(s@, p as int);
    }
    while r < s.len() && '0' <= s[r] && s[r] <= '9'
        invariant
            p <= r <= s@.len(),
            digits_end(s@, r as int) == digits_end(s@, p as int),
        decreases s@.len() - r,
    {
        r = r + 1;
    }
    r
}

/// A longer run of digits has at least the value of its prefix.
pub proof fn lemma_digits_value_prefix(d: Seq<char>, k: int)
    requires
        0 <= k <= d.len(),
        forall|i: int| 0 <= i < d.len() ==> is_digit(#[trigger] d[i]),
    ensures
        digits_value(d.take(k)) <= digits_value(d),
    decreases d.len() - k,
{
    if k < d.len() {
        assert(d.drop_last().take(k) =~= d.take(k));
        lemma_digits_value_prefix(d.drop_last(), k);
        assert(d.take(d.len() as int) =~= d);
    } else {
        assert(d.take(k) =~= d);
    }
}

/// The value of the digits `s[from..to]`, if it fits in an `i64`.
pub(crate) fn digits_to_i64(s: &Vec<char>, from: usize, to: usize) -> (r: Option<i64>)
    requires
        from <= to <= s@.len(),
        forall|k: int| from <= k < to ==> is_digit(#[trigger] s@[k]),
    ensures
        match r {
            Some(v) => v as int == digits_value(s@.subrange(from as int, to as int)),
            None => digits_value(s@.subrange(from as int, to as int)) > i64::MAX,
        },
{
    let mut acc: i64 = 0;
    let mut i = from;
    while i < to
        invariant
            from <= i <= to <= s@.len(),
            forall|k: int| from <= k < to ==> is_digit(#[trigger] s@[k]),
            acc as int == digits_value(s@.subrange(from as int, i as int)),
        decreases to - i,
    {
        let d = ((s[i] as u32) - ('0' as u32)) as i64;
        proof {
            assert(s@.subrange(from as int, i + 1).drop_last() =~= s@.subrange(from as int, i as int));
        }
        let next = match acc.checked_mul(10) {
            Some(m) => m.checked_add(d),
            None => None,
        };
        match next {
            Some(v) => {
                acc = v;
            },
            None => {
                proof {
                    let whole = s@.subrange(from as int, to as int);
                    assert(whole.take(i + 1 - from) =~= s@.subrange(from as int, i + 1));
                    lemma_digits_value_prefix(whole, i + 1 - from);
                }
                return None;
            },
        }
        i = i + 1;
    }
    Some(acc)
}

// ---------------------------------------------------------------------------
// Literals and numbers
// ---------------------------------------------------------------------------

/// `true` or `false` at `p`.
fn bool_at(s: &Vec<char>, p: usize) -> (r: Result<(usize, JSONValue), JSONParseError>)
    requires
        p <= s@.len(),
    ensures
        lift(r) == spec_bool(s@, p as int),
        r matches Ok((q, _)) ==> p < q <= s@.len(),
{
    let t: [char; 4] = ['t', 'r', 'u', 'e'];
    let f: [char; 5] = ['f', 'a', 'l', 's', 'e'];
    assert(t@ =~= seq!['t', 'r', 'u', 'e']);
    assert(f@ =~= seq!['f', 'a', 'l', 's', 'e']);
    let len = s.len();
    if starts_with_at(s, p, t.as_slice()) {
        assert(p + 4 <= len);
        Ok((p + 4, JSONValue::True))
    } else if starts_with_at(s, p, f.as_slice()) {
        assert(p + 5 <= len);
        Ok((p + 5, JSONValue::False))
    } else {
        Err(JSONParseError::NotFound)
    }
}

/// `null` at `p`.
fn null_at(s: &Vec<char>, p: usize) -> (r: Result<(usize, JSONValue), JSONParseError>)
    requires
        p <= s@.len(),
    ensures
        lift(r) == spec_null(s@, p as int),
        r matches Ok((q, _)) ==> p < q <= s@.len(),
{
    let n: [char; 4] = ['n', 'u', 'l', 'l'];
    assert(n@ =~= seq!['n', 'u', 'l', 'l']);
    let len = s.len();
    if starts_with_at(s, p, n.as_slice()) {
        assert(p + 4 <= len);
        Ok((p + 4, JSONValue::Null))
    } else {
        Err(JSONParseError::NotFound)
    }
}

/// The integer part of a number at `p`.
fn integer_parts_at(s: &Vec<char>, p: usize) -> (r: Result<(usize, bool, String), JSONParseError>)
    requires
        p <= s@.len(),
    ensures
        match r {
            Ok((q, neg, digits)) => spec_integer_parts(s@, p as int) == Ok::<
                (int, bool, Seq<char>),
                JSONParseError,
            >((q as int, neg, digits@)) && p < q <= s@.len(),
            Err(e) => spec_integer_parts(s@, p as int) == Err::<
                (int, bool, Seq<char>),
                JSONParseError,
            >(e),
        },
{
    let negative = p < s.len() && s[p] == '-';
    let q = if negative {
        p + 1
    } else {
        p
    };
    if q < s.len() && s[q] == '0' {
        if q + 1 < s.len() && '0' <= s[q + 1] && s[q + 1] <= '9' {
            Err(JSONParseError::UnexpectedChar(0))
        } else {
            let mut digits = String::new();
            push_char(&mut digits, '0');
            assert(digits@ =~= seq!['0']);
            Ok((q + 1, negative, digits))
        }
    } else if q < s.len() && '1' <= s[q] && s[q] <= '9' {
        let e = skip_digits(s, q + 1);
        Ok((e, negative, string_from_range(s, q, e)))
    } else {
        Err(JSONParseError::NotFound)
    }
}

/// The fraction part at `p`, if any.
fn fraction_at(s: &Vec<char>, p: usize) -> (r: Result<(usize, String), JSONParseError>)
    requires
        p <= s@.len(),
    ensures
        match r {
            Ok((q, digits)) => spec_fraction(s@, p as int) == Ok::<
                (int, Seq<char>),
                JSONParseError,
            >((q as int, digits@)) && p <= q <= s@.len(),
            Err(e) => spec_fraction(s@, p as int) == Err::<(int, Seq<char>), JSONParseError>(e),
        },
{
    if p < s.len() && s[p] == '.' {
        let e = skip_digits(s, p + 1);
        if e == p + 1 {
            Err(JSONParseError::NotFound)
        } else {
            Ok((e, string_from_range(s, p + 1, e)))
        }
    } else {
        let empty = String::new();
        Ok((p, empty))
    }
}

/// The exponent part at `p`, if any.
fn exponent_at(s: &Vec<char>, p: usize) -> (r: Result<(usize, i64), JSONParseError>)
    requires
        p <= s@.len(),
    ensures
        match r {
            Ok((q, v)) => spec_exponent(s@, p as int) == Ok::<(int, int), JSONParseError>(
                (q as int, v as int),
            ) && p <= q <= s@.len(),
            Err(e) => spec_exponent(s@, p as int) == Err::<(int, int), JSONParseError>(e),
        },
{
    if p < s.len() && (s[p] == 'e' || s[p] == 'E') {
        let r = p + 1;
        let negative = r < s.len() && s[r] == '-';
        let q = if r < s.len() && (s[r] == '+' || s[r] == '-') {
            r + 1
        } else {
            r
        };
        let e = skip_digits(s, q);
        proof {
            lemma_digits_end(s@, q as int);
        }
        if e == q {
            Err(JSONParseError::NotFound)
        } else {
            match digits_to_i64(s, q, e) {
                None => Err(JSONParseError::Error(0)),
                Some(v) => {
                    let value = if negative {
                        -v
                    } else {
                        v
                    };
                    Ok((e, value))
                },
            }
        }
    } else {
        Ok((p, 0))
    }
}

/// A number at `p`.
fn number_at(s: &Vec<char>, p: usize) -> (r: Result<(usize, JSONValue), JSONParseError>)
    requires
        p <= s@.len(),
    ensures
        lift(r) == spec_number(s@, p as int),
        r matches Ok((q, _)) ==> p < q <= s@.len(),
{
    let (q, negative, integer) = integer_parts_at(s, p)?;
    let (r, fraction) = fraction_at(s, q)?;
    let (t, exponent) = exponent_at(s, r)?;
    Ok((t, JSONValue::Number(JsonNumber { negative, integer, fraction, exponent })))
}

// ---------------------------------------------------------------------------
// Strings
// ---------------------------------------------------------------------------

/// The value of a hexadecimal digit.
fn hex_digit(c: char) -> (r: Option<u32>)
    ensures
        r == hex_value(c),
{
    if '0' <= c && c <= '9' {
        Some((c as u32) - ('0' as u32))
    } else if 'a' <= c && c <= 'f' {
        Some((c as u32) - ('a' as u32) + 10)
    } else if 'A' <= c && c <= 'F' {
        Some((c as u32) - ('A' as u32) + 10)
    } else {
        None
    }
}

/// Bound on a value made of `k` hexadecimal digits.
pub open spec fn hex_bound(k: int) -> int {
    if k <= 0 {
        1
    } else if k == 1 {
        16
    } else if k == 2 {
        256
    } else if k == 3 {
        4096
    } else {
        65536
    }
}

/// A string literal at `p`: where it ends and the characters it denotes.
fn string_at(s: &Vec<char>, p: usize) -> (r: Result<(usize, String), JSONParseError>)
    requires
        p <= s@.len(),
        fits_usize(s@),
    ensures
        match r {
            Ok((q, text)) => spec_string(s@, p as int) == Ok::<(int, Seq<char>), JSONParseError>(
                (q as int, text@),
            ) && p < q <= s@.len(),
            Err(e) => spec_string(s@, p as int) == Err::<(int, Seq<char>), JSONParseError>(e),
        },
{
    if !(p < s.len() && s[p] == '"') {
        return Err(JSONParseError::NotFound);
    }
    let init = rem_bytes(s, p + 1);
    let mut result = String::new();
    let mut escaping = false;
    let mut q = p + 1;
    assert(result@ =~= Seq::<char>::empty());
    loop
        invariant
            p + 1 <= q <= s@.len(),
            escaping ==> q >= p + 2,
            fits_usize(s@),
            init == rem(s@, p + 1),
            spec_string(s@, p as int) == spec_string_scan(s@, q as int, escaping, result@, init as nat),
        decreases s@.len() - q,
    {
        if q >= s.len() {
            return Err(JSONParseError::MissingClosing(init));
        }
        let c = s[q];
        if c == '\\' && !escaping {
            escaping = true;
            q = q + 1;
        } else if c == '"' && !escaping {
            return Ok((q + 1, result));
        } else if escaping {
            if c == '"' || c == '\\' || c == '/' {
                push_char(&mut result, c);
            } else if c == 'b' {
                push_char(&mut result, '\x08');
            } else if c == 'f' {
                push_char(&mut result, '\x0C');
            } else if c == 'n' {
                push_char(&mut result, '\n');
            } else if c == 'r' {
                push_char(&mut result, '\r');
            } else if c == 't' {
                push_char(&mut result, '\t');
            } else if c == 'u' {
                let mut val: u32 = 0;
                let mut k: usize = 0;
                let mut h: usize = q + 1;
                while k < 4
                    invariant
                        p + 2 <= q < s@.len(),
                        h == q + 1 + k,
                        h <= s@.len(),
                        escaping,
                        s@[q as int] == 'u',
                        spec_string(s@, p as int) == spec_string_scan(
                            s@,
                            q as int,
                            escaping,
                            result@,
                            init as nat,
                        ),
                        k <= 4,
                        (val as int) < hex_bound(k as int),
                        fits_usize(s@),
                        init == rem(s@, p + 1),
                        spec_hex_digits(s@, q + 1, 4, 0, init as nat) == spec_hex_digits(
                            s@,
                            h as int,
                            (4 - k) as nat,
                            val,
                            init as nat,
                        ),
                    decreases 4 - k,
                {
                    if h >= s.len() {
                        proof {
                            lemma_rem_ends(s@);
                        }
                        return Err(JSONParseError::UnexpectedChar(init));
                    }
                    match hex_digit(s[h]) {
                        None => {
                            proof {
                                lemma_rem_mono(s@, p + 1, h + 1);
                            }
                            return Err(JSONParseError::UnexpectedChar(init - rem_bytes(s, h + 1)));
                        },
                        Some(d) => {
                            val = val * 16 + d;
                            h = h + 1;
                            k = k + 1;
                        },
                    }
                }
                match char_from_u32(val) {
                    Some(ch) => {
                        push_char(&mut result, ch);
                    },
                    None => {
                        proof {
                            lemma_rem_mono(s@, p + 1, h as int);
                        }
                        return Err(JSONParseError::UnexpectedChar(init - rem_bytes(s, h)));
                    },
                }
                q = q + 4;
            } else {
                proof {
                    lemma_rem_mono(s@, p + 1, q + 1);
                }
                return Err(JSONParseError::UnexpectedChar(init - rem_bytes(s, q + 1) - 1));
            }
            escaping = false;
            q = q + 1;
        } else {
            push_char(&mut result, c);
            q = q + 1;
        }
    }
}

/// A string literal spans at least its two quotes.
pub proof fn lemma_string_scan_advances(s: Seq<char>, q: int, escaping: bool, acc: Seq<char>, init: nat)
    requires
        0 <= q,
    ensures
        spec_string_scan(s, q, escaping, acc, init) matches Ok((k, _)) ==> q < k <= s.len(),
    decreases s.len() - q,
{
    if 0 <= q < s.len() {
        let c = s[q];
        if c == '\\' && !escaping {
            lemma_string_scan_advances(s, q + 1, true, acc, init);
        } else if c == '"' && !escaping {
        } else if escaping {
            if c == 'u' {
                lemma_hex_digits_bounds(s, q + 1, 4, 0, init);
                match spec_hex_digits(s, q + 1, 4, 0, init) {
                    Err(e) => {},
                    Ok(u) => {
                        if !is_surrogate(u) {
                            lemma_string_scan_advances(s, q + 5, false, acc.push(u as char), init);
                        }
                    },
                }
            } else if c == '"' || c == '\\' || c == '/' {
                lemma_string_scan_advances(s, q + 1, false, acc.push(c), init);
            } else if c == 'b' {
                lemma_string_scan_advances(s, q + 1, false, acc.push('\x08'), init);
            } else if c == 'f' {
                lemma_string_scan_advances(s, q + 1, false, acc.push('\x0C'), init);
            } else if c == 'n' {
                lemma_string_scan_advances(s, q + 1, false, acc.push('\n'), init);
            } else if c == 'r' {
                lemma_string_scan_advances(s, q + 1, false, acc.push('\r'), init);
            } else if c == 't' {
                lemma_string_scan_advances(s, q + 1, false, acc.push('\t'), init);
            }
        } else {
            lemma_string_scan_advances(s, q + 1, false, acc.push(c), init);
        }
    }
}

/// A string literal at `p` ends after `p`, within the text.
pub proof fn lemma_string_advances(s: Seq<char>, p: int)
    ensures
        spec_string(s, p) matches Ok((k, _)) ==> p < k <= s.len(),
{
    if 0 <= p < s.len() && s[p] == '"' {
        lemma_string_scan_advances(s, p + 1, false, Seq::empty(), rem(s, p + 1));
    }
}

// ---------------------------------------------------------------------------
// Values, arrays and objects
// ---------------------------------------------------------------------------

/// The models of a sequence of values.
pub open spec fn values_model(v: Seq<JSONValue>) -> Seq<JsonView> {
    Seq::new(v.len(), |i: int| v[i]@)
}

/// The models of a sequence of members.
pub open spec fn members_model(v: Seq<(String, JSONValue)>) -> Seq<(Seq<char>, JsonView)> {
    Seq::new(v.len(), |i: int| (v[i].0@, v[i].1@))
}

/// The model of an array is the sequence of the models of its elements.
pub proof fn lemma_array_model(v: Vec<JSONValue>)
    ensures
        JSONValue::Array(v)@ == JsonView::Array(values_model(v@)),
{
    let m = JSONValue::Array(v)@;
    assert(m->Array_0 =~= values_model(v@));
}

/// The model of an object is the sequence of the models of its members.
pub proof fn lemma_object_model(v: Vec<(String, JSONValue)>)
    ensures
        JSONValue::Object(v)@ == JsonView::Object(members_model(v@)),
{
    let m = JSONValue::Object(v)@;
    assert(m->Object_0 =~= members_model(v@));
}

/// `object_insert` replaces the member whose key matches first.
pub proof fn lemma_object_insert_at(
    entries: Seq<(Seq<char>, JsonView)>,
    k: Seq<char>,
    v: JsonView,
    i: int,
)
    requires
        0 <= i < entries.len(),
        entries[i].0 == k,
        forall|j: int| 0 <= j < i ==> entries[j].0 != k,
    ensures
        object_insert(entries, k, v) == entries.update(i, (k, v)),
    decreases entries.len(),
{
    if i > 0 {
        lemma_object_insert_at(entries.drop_first(), k, v, i - 1);
        assert(seq![entries[0]] + entries.drop_first().update(i - 1, (k, v)) =~= entries.update(
            i,
            (k, v),
        ));
    }
}

/// `object_insert` appends a member whose key is new.
pub proof fn lemma_object_insert_new(entries: Seq<(Seq<char>, JsonView)>, k: Seq<char>, v: JsonView)
    requires
        forall|j: int| 0 <= j < entries.len() ==> entries[j].0 != k,
    ensures
        object_insert(entries, k, v) == entries.push((k, v)),
    decreases entries.len(),
{
    if entries.len() > 0 {
        lemma_object_insert_new(entries.drop_first(), k, v);
        assert(seq![entries[0]] + entries.drop_first().push((k, v)) =~= entries.push((k, v)));
    }
}

/// Adds a member to an object as [`object_insert`] says.
fn insert_member(entries: &mut Vec<(String, JSONValue)>, k: String, v: JSONValue)
    ensures
        members_model(final(entries)@) == object_insert(members_model(old(entries)@), k@, v@),
{
    let ghost old_model = members_model(entries@);
    let mut i: usize = 0;
    let mut found = false;
    while i < entries.len()
        invariant
            i <= entries@.len(),
            entries@ == old(entries)@,
            old_model == members_model(old(entries)@),
            forall|j: int| 0 <= j < i ==> old_model[j].0 != k@,
            found ==> i < entries@.len() && old_model[i as int].0 == k@,
        ensures
            !found ==> i == entries@.len(),
            entries@ == old(entries)@,
            forall|j: int| 0 <= j < i ==> old_model[j].0 != k@,
            found ==> i < entries@.len() && old_model[i as int].0 == k@,
        decreases entries@.len() - i,
    {
        if entries[i].0 == k {
            found = true;
            break;
        }
        i = i + 1;
    }
    let ghost kv = k@;
    let ghost vv = v@;
    if found {
        proof {
            lemma_object_insert_at(old_model, kv, vv, i as int);
        }
        entries.set(i, (k, v));
        assert(members_model(entries@) =~= old_model.update(i as int, (kv, vv)));
    } else {
        proof {
            lemma_object_insert_new(old_model, kv, vv);
        }
        entries.push((k, v));
        assert(members_model(entries@) =~= old_model.push((kv, vv)));
    }
}

/// The object made of `pairs`, inserted in order.
pub(crate) fn object_of_pairs(pairs: Vec<(String, JSONValue)>) -> (r: Vec<(String, JSONValue)>)
    ensures
        members_model(r@) == object_from_pairs(members_model(pairs@)),
{
    let ghost all = members_model(pairs@);
    let n = pairs.len();
    let mut pairs = pairs;
    let mut map: Vec<(String, JSONValue)> = Vec::new();
    let mut done: usize = 0;
    assert(all.take(0) =~= Seq::<(Seq<char>, JsonView)>::empty());
    assert(members_model(map@) =~= Seq::<(Seq<char>, JsonView)>::empty());
    assert(members_model(pairs@) =~= all.skip(0));
    while pairs.len() > 0
        invariant
            done + pairs@.len() == all.len(),
            all.len() == n,
            members_model(pairs@) == all.skip(done as int),
            members_model(map@) == object_from_pairs(all.take(done as int)),
        decreases pairs@.len(),
    {
        let ghost before = pairs@;
        let (k, v) = pairs.remove(0);
        assert(members_model(pairs@) =~= all.skip(done + 1)) by {
            assert forall|j: int| 0 <= j < pairs@.len() implies #[trigger] members_model(pairs@)[j]
                == all.skip(done + 1)[j] by {
                assert(pairs@[j] == before[j + 1]);
                assert(members_model(before)[j + 1] == all.skip(done as int)[j + 1]);
            }
        }
        assert(k@ == all[done as int].0 && v@ == all[done as int].1) by {
            assert(members_model(before)[0] == all.skip(done as int)[0]);
        }
        insert_member(&mut map, k, v);
        assert(all.take(done + 1).drop_last() =~= all.take(done as int));
        done = done + 1;
    }
    assert(all.take(done as int) =~= all);
    map
}

/// A value at `p`, after any whitespace.
fn value_at(s: &Vec<char>, p: usize) -> (r: Result<(usize, JSONValue), JSONParseError>)
    requires
        p <= s@.len(),
        fits_usize(s@),
    ensures
        lift(r) == spec_value(s@, p as int),
        r matches Ok((q, _)) ==> p < q <= s@.len(),
    decreases s@.len() - p, 1int,
{
    let t = skip_ws(s, p);
    if t < s.len() && s[t] == '{' {
        object_at(s, t)
    } else if t < s.len() && s[t] == '[' {
        array_at(s, t)
    } else if t < s.len() && s[t] == '"' {
        match string_at(s, t) {
            Ok((q, text)) => Ok((q, JSONValue::String(text))),
            Err(e) => Err(e),
        }
    } else if t < s.len() && (s[t] == '-' || ('0' <= s[t] && s[t] <= '9')) {
        number_at(s, t)
    } else {
        match bool_at(s, t) {
            Ok(r) => Ok(r),
            Err(_) => null_at(s, t),
        }
    }
}

/// A value surrounded by whitespace at `p`.
fn element_at(s: &Vec<char>, p: usize) -> (r: Result<(usize, JSONValue), JSONParseError>)
    requires
        p <= s@.len(),
        fits_usize(s@),
    ensures
        lift(r) == spec_element(s@, p as int),
        r matches Ok((q, _)) ==> p < q <= s@.len(),
    decreases s@.len() - p, 2int,
{
    let t = skip_ws(s, p);
    match value_at(s, t) {
        Ok((r, v)) => Ok((skip_ws(s, r), v)),
        Err(e) => Err(e),
    }
}

/// The elements of an array, starting at `p`.
fn elements_at(s: &Vec<char>, p: usize) -> (r: Result<(usize, Vec<JSONValue>), JSONParseError>)
    requires
        p <= s@.len(),
        fits_usize(s@),
    ensures
        match r {
            Ok((q, values)) => spec_elements(s@, p as int) == Ok::<
                (int, Seq<JsonView>),
                JSONParseError,
            >((q as int, values_model(values@))) && p <= q <= s@.len(),
            Err(e) => spec_elements(s@, p as int) == Err::<(int, Seq<JsonView>), JSONParseError>(
                e,
            ),
        },
    decreases s@.len() - p, 3int,
{
    let mut values: Vec<JSONValue> = Vec::new();
    let mut src = match element_at(s, p) {
        Ok((r, v)) => {
            values.push(v);
            r
        },
        Err(_) => {
            assert(values_model(values@) =~= Seq::<JsonView>::empty());
            return Ok((p, values));
        },
    };
    assert(values_model(values@) =~= seq![values@[0]@]);
    loop
        invariant
            p < src <= s@.len(),
            fits_usize(s@),
            spec_elements(s@, p as int) == spec_elements_tail(
                s@,
                src as int,
                values_model(values@),
            ),
        decreases s@.len() - src,
    {
        let t = skip_ws(s, src);
        if t < s.len() && s[t] == ',' {
            let q = skip_ws(s, t + 1);
            match element_at(s, q) {
                Ok((r, v)) => {
                    let ghost before = values_model(values@);
                    let ghost vm = v@;
                    values.push(v);
                    assert(values_model(values@) =~= before.push(vm));
                    src = r;
                },
                Err(JSONParseError::NotFound) => {
                    return Err(JSONParseError::UnexpectedChar(0));
                },
                Err(e) => {
                    return Err(e);
                },
            }
        } else {
            return Ok((src, values));
        }
    }
}

/// An array at `p`, after any whitespace.
fn array_at(s: &Vec<char>, p: usize) -> (r: Result<(usize, JSONValue), JSONParseError>)
    requires
        p <= s@.len(),
        fits_usize(s@),
    ensures
        lift(r) == spec_array(s@, p as int),
        r matches Ok((q, _)) ==> p < q <= s@.len(),
    decreases s@.len() - p, 0int,
{
    let t = skip_ws(s, p);
    if !(t < s.len() && s[t] == '[') {
        return Err(JSONParseError::NotFound);
    }
    let u = skip_ws(s, t + 1);
    if u < s.len() && s[u] == ']' {
        let empty: Vec<JSONValue> = Vec::new();
        proof {
            lemma_array_model(empty);
            assert(values_model(empty@) =~= Seq::<JsonView>::empty());
        }
        return Ok((u + 1, JSONValue::Array(empty)));
    }
    if u < s.len() && s[u] == ',' {
        return Err(JSONParseError::UnexpectedChar(0));
    }
    let (r, values) = elements_at(s, u)?;
    let w = skip_ws(s, r);
    if w < s.len() && s[w] == ']' {
        proof {
            lemma_array_model(values);
        }
        Ok((w + 1, JSONValue::Array(values)))
    } else {
        Err(JSONParseError::MissingClosing(rem_bytes(s, w)))
    }
}

/// A member `"key": value` at `p`, after any whitespace.
fn member_at(s: &Vec<char>, p: usize) -> (r: Result<(usize, (String, JSONValue)), JSONParseError>)
    requires
        p <= s@.len(),
        fits_usize(s@),
    ensures
        match r {
            Ok((q, kv)) => spec_member(s@, p as int) == Ok::<
                (int, (Seq<char>, JsonView)),
                JSONParseError,
            >((q as int, (kv.0@, kv.1@))) && p < q <= s@.len(),
            Err(e) => spec_member(s@, p as int) == Err::<
                (int, (Seq<char>, JsonView)),
                JSONParseError,
            >(e),
        },
    decreases s@.len() - p, 2int,
{
    let t = skip_ws(s, p);
    let (k, key) = string_at(s, t)?;
    let u = skip_ws(s, k);
    if !(u < s.len() && s[u] == ':') {
        return Err(JSONParseError::UnexpectedChar(rem_bytes(s, u)));
    }
    let v = skip_ws(s, u + 1);
    let (r, value) = element_at(s, v)?;
    Ok((r, (key, value)))
}

/// The members of an object, starting at `p`.
fn members_at(s: &Vec<char>, p: usize) -> (r: Result<(usize, Vec<(String, JSONValue)>), JSONParseError>)
    requires
        p <= s@.len(),
        fits_usize(s@),
    ensures
        match r {
            Ok((q, pairs)) => spec_members(s@, p as int) == Ok::<
                (int, Seq<(Seq<char>, JsonView)>),
                JSONParseError,
            >((q as int, members_model(pairs@))) && p <= q <= s@.len(),
            Err(e) => spec_members(s@, p as int) == Err::<
                (int, Seq<(Seq<char>, JsonView)>),
                JSONParseError,
            >(e),
        },
    decreases s@.len() - p, 3int,
{
    let mut pairs: Vec<(String, JSONValue)> = Vec::new();
    let mut src = match member_at(s, p) {
        Ok((r, kv)) => {
            pairs.push(kv);
            r
        },
        Err(_) => {
            assert(members_model(pairs@) =~= Seq::<(Seq<char>, JsonView)>::empty());
            return Ok((p, pairs));
        },
    };
    assert(members_model(pairs@) =~= seq![(pairs@[0].0@, pairs@[0].1@)]);
    loop
        invariant
            p < src <= s@.len(),
            fits_usize(s@),
            spec_members(s@, p as int) == spec_members_tail(
                s@,
                src as int,
                members_model(pairs@),
            ),
        decreases s@.len() - src,
    {
        let t = skip_ws(s, src);
        if t < s.len() && s[t] == ',' {
            let q = skip_ws(s, t + 1);
            match member_at(s, q) {
                Ok((r, kv)) => {
                    let ghost before = members_model(pairs@);
                    let ghost km = kv.0@;
                    let ghost vm = kv.1@;
                    pairs.push(kv);
                    assert(members_model(pairs@) =~= before.push((km, vm)));
                    src = r;
                },
                Err(JSONParseError::NotFound) => {
                    return Err(JSONParseError::UnexpectedChar(0));
                },
                Err(e) => {
                    return Err(e);
                },
            }
        } else {
            return Ok((src, pairs));
        }
    }
}

/// An object at `p`, after any whitespace.
fn object_at(s: &Vec<char>, p: usize) -> (r: Result<(usize, JSONValue), JSONParseError>)
    requires
        p <= s@.len(),
        fits_usize(s@),
    ensures
        lift(r) == spec_object(s@, p as int),
        r matches Ok((q, _)) ==> p < q <= s@.len(),
    decreases s@.len() - p, 0int,
{
    let t = skip_ws(s, p);
    if !(t < s.len() && s[t] == '{') {
        return Err(JSONParseError::NotFound);
    }
    let u = skip_ws(s, t + 1);
    if u < s.len() && s[u] == '}' {
        let empty: Vec<(String, JSONValue)> = Vec::new();
        proof {
            lemma_object_model(empty);
            assert(members_model(empty@) =~= Seq::<(Seq<char>, JsonView)>::empty());
        }
        return Ok((u + 1, JSONValue::Object(empty)));
    }
    if u < s.len() && s[u] == ',' {
        return Err(JSONParseError::UnexpectedChar(0));
    }
    let (r, pairs) = members_at(s, u)?;
    let w = skip_ws(s, r);
    if w < s.len() && s[w] == '}' {
        let map = object_of_pairs(pairs);
        proof {
            lemma_object_model(map);
        }
        Ok((w + 1, JSONValue::Object(map)))
    } else {
        Err(JSONParseError::MissingClosing(rem_bytes(s, w)))
    }
}

// ---------------------------------------------------------------------------
// Entry points on string slices
// ---------------------------------------------------------------------------

/// The byte length of a string slice, which fits in a `usize`.
pub(crate) fn str_byte_len(src: &str) -> (n: usize)
    ensures
        n == byte_len(src@),
        fits_usize(src@),
{
    let n = src.as_bytes().len();
    proof {
        lemma_byte_len_is_encoded_len(src@);
    }
    n
}

/// Parses a whole JSON text: one value, with only whitespace around it.
pub fn parse(src: &str) -> (r: Result<JSONValue, JSONParseError>)
    ensures
        match r {
            Ok(v) => spec_parse(src@) == Ok::<JsonView, JSONParseError>(v@),
            Err(e) => spec_parse(src@) == Err::<JsonView, JSONParseError>(e),
        },
{
    let total_len = str_byte_len(src);
    let s = chars_of(src);
    let (rest, res) = element_at(&s, 0)?;
    let trimmed = skip_ws(&s, rest);
    if trimmed == s.len() {
        Ok(res)
    } else {
        proof {
            lemma_ws_end(s@, 0);
            let t0 = ws_end(s@, 0);
            match spec_value(s@, t0) {
                Ok((r0, v)) => {
                    lemma_ws_end(s@, r0);
                },
                Err(_) => {},
            }
            lemma_rem_ends(s@);
            lemma_rem_mono(s@, 0, rest as int);
        }
        let rest_len = rem_bytes(&s, rest);
        let trimmed_len = rem_bytes(&s, trimmed);
        let parsed_len = total_len - rest_len;
        Err(JSONParseError::UnexpectedChar(parsed_len + trimmed_len - rest_len))
    }
}

/// Skipping whitespace removes exactly the leading ASCII whitespace: what it removes is
/// all whitespace, what is left does not start with whitespace, and skipping again
/// removes nothing.
pub proof fn skipping_whitespace_strips_leading_whitespace(s: Seq<char>)
    ensures
        0 <= ws_end(s, 0) <= s.len(),
        forall|k: int| 0 <= k < ws_end(s, 0) ==> is_json_ws(#[trigger] s[k]),
        ws_end(s, 0) < s.len() ==> !is_json_ws(s[ws_end(s, 0)]),
        ws_end(s.subrange(ws_end(s, 0), s.len() as int), 0) == 0,
{
    lemma_ws_end(s, 0);
    let t = s.subrange(ws_end(s, 0), s.len() as int);
    if t.len() > 0 {
        assert(t[0] == s[ws_end(s, 0)]);
    }
}

/// The text after the leading whitespace of `src`.
pub fn skip_whitespace(src: &str) -> (r: &str)
    ensures
        r@ == src@.subrange(ws_end(src@, 0), src@.len() as int),
{
    let s = chars_of(src);
    let t = skip_ws(&s, 0);
    src.substring_char(t, s.len())
}

/// `true` or `false` at the start of `src`, and the text after it.
pub fn bool_val(src: &str) -> (r: Result<(&str, JSONValue), JSONParseError>)
    ensures
        match r {
            Ok((rest, v)) => spec_bool(src@, 0) matches Ok((q, w)) && v@ == w && rest@ == src@.subrange(
                q,
                src@.len() as int,
            ),
            Err(e) => spec_bool(src@, 0) == Err::<(int, JsonView), JSONParseError>(e),
        },
{
    let s = chars_of(src);
    let (q, v) = bool_at(&s, 0)?;
    Ok((src.substring_char(q, s.len()), v))
}

/// `null` at the start of `src`, and the text after it.
pub fn null_val(src: &str) -> (r: Result<(&str, JSONValue), JSONParseError>)
    ensures
        match r {
            Ok((rest, v)) => spec_null(src@, 0) matches Ok((q, w)) && v@ == w && rest@ == src@.subrange(
                q,
                src@.len() as int,
            ),
            Err(e) => spec_null(src@, 0) == Err::<(int, JsonView), JSONParseError>(e),
        },
{
    let s = chars_of(src);
    let (q, v) = null_at(&s, 0)?;
    Ok((src.substring_char(q, s.len()), v))
}

// ---------------------------------------------------------------------------
// Laws of the grammar
// ---------------------------------------------------------------------------

/// The base-16 value of an ASCII hexadecimal digit, in either case (`0`-`9`, `a`-`f`,
/// `A`-`F` for 0 to 15).
pub open spec fn base16_digit(c: char) -> int {
    if '0' <= c <= '9' {
        c as int - '0' as int
    } else if 'a' <= c <= 'f' {
        c as int - 'a' as int + 10
    } else {
        c as int - 'A' as int + 10
    }
}

/// An ASCII hexadecimal digit, in either case.
pub open spec fn is_base16_digit(c: char) -> bool {
    ('0' <= c <= '9') || ('a' <= c <= 'f') || ('A' <= c <= 'F')
}

/// The case of a hexadecimal digit does not matter: an upper-case letter `A`-`F` has the
/// value of its lower-case letter, 10 to 15.
pub proof fn hex_digit_case_does_not_matter(c: char)
    requires
        'A' <= c <= 'F',
    ensures
        hex_value(c) == hex_value(((c as u32) + 32) as char),
        hex_value(c) == Some((c as u32 - 'A' as u32 + 10) as u32),
{
    let l = ((c as u32) + 32) as char;
    assert(l as u32 == (c as u32) + 32) by {
        vstd::utf8::char_u32_cast(c, c as u32);
    }
}

/// A `\u` escape of four hexadecimal digits, in either case, reads as the one character
/// whose code is the base-16 value of those digits (when that code is no surrogate).
pub proof fn unicode_escape_reads_as_its_code(h0: char, h1: char, h2: char, h3: char)
    requires
        is_base16_digit(h0),
        is_base16_digit(h1),
        is_base16_digit(h2),
        is_base16_digit(h3),
        !(0xD800 <= ((base16_digit(h0) * 16 + base16_digit(h1)) * 16 + base16_digit(h2)) * 16
            + base16_digit(h3) <= 0xDFFF),
    ensures
        spec_string(seq!['"', '\\', 'u', h0, h1, h2, h3, '"'], 0) == Ok::<(int, Seq<char>), JSONParseError>(
            (
                8,
                seq![
                    ((((base16_digit(h0) * 16 + base16_digit(h1)) * 16 + base16_digit(h2)) * 16 + base16_digit(
                        h3,
                    )) as u32) as char,
                ],
            ),
        ),
{
    let s = seq!['"', '\\', 'u', h0, h1, h2, h3, '"'];
    let init = rem(s, 1);
    let v0 = base16_digit(h0);
    let v1 = base16_digit(h1);
    let v2 = base16_digit(h2);
    let v3 = base16_digit(h3);
    assert(hex_value(h0) == Some(v0 as u32));
    assert(hex_value(h1) == Some(v1 as u32));
    assert(hex_value(h2) == Some(v2 as u32));
    assert(hex_value(h3) == Some(v3 as u32));
    assert(0 <= v0 < 16 && 0 <= v1 < 16 && 0 <= v2 < 16 && 0 <= v3 < 16);
    let a1 = (0 * 16 + v0) as u32;
    let a2 = (a1 * 16 + v1) as u32;
    let a3 = (a2 * 16 + v2) as u32;
    let a4 = (a3 * 16 + v3) as u32;
    assert(a1 == v0);
    assert(a2 == v0 * 16 + v1);
    assert(a3 == (v0 * 16 + v1) * 16 + v2);
    assert(a4 == ((v0 * 16 + v1) * 16 + v2) * 16 + v3);
    assert(spec_hex_digits(s, 7, 0, a4, init) == Ok::<u32, JSONParseError>(a4));
    assert(spec_hex_digits(s, 6, 1, a3, init) == Ok::<u32, JSONParseError>(a4));
    assert(spec_hex_digits(s, 5, 2, a2, init) == Ok::<u32, JSONParseError>(a4));
    assert(spec_hex_digits(s, 4, 3, a1, init) == Ok::<u32, JSONParseError>(a4));
    assert(spec_hex_digits(s, 3, 4, 0, init) == Ok::<u32, JSONParseError>(a4));
    assert(!is_surrogate(a4));
    let acc = Seq::<char>::empty().push(a4 as char);
    assert(spec_string_scan(s, 7, false, acc, init) == Ok::<(int, Seq<char>), JSONParseError>((8, acc)));
    assert(spec_string_scan(s, 2, true, Seq::empty(), init) == spec_string_scan(s, 7, false, acc, init));
    assert(spec_string_scan(s, 1, false, Seq::empty(), init) == spec_string_scan(s, 2, true, Seq::empty(), init));
    assert(acc =~= seq![(a4 as int as u32) as char]);
}

/// From `p` on, where every character is a digit, a run of digits reaches the end.
pub proof fn lemma_digits_to_end(s: Seq<char>, p: int)
    requires
        0 <= p <= s.len(),
        forall|i: int| p <= i < s.len() ==> '0' <= #[trigger] s[i] <= '9',
    ensures
        digits_end(s, p) == s.len(),
{
    lemma_digits_end(s, p);
    if digits_end(s, p) < s.len() {
        assert('0' <= s[digits_end(s, p)] <= '9');
    }
}

/// Every string of decimal digits without a leading zero is a JSON text: an integer,
/// with those digits, and with a minus sign in front a negative one.
pub proof fn digit_strings_parse_as_integers(d: Seq<char>)
    requires
        d.len() > 0,
        '1' <= d[0] <= '9',
        forall|i: int| 0 <= i < d.len() ==> '0' <= #[trigger] d[i] <= '9',
    ensures
        spec_parse(d) == Ok::<JsonView, JSONParseError>(
            JsonView::Number(NumberView { negative: false, integer: d, fraction: Seq::empty(), exponent: 0 }),
        ),
        spec_parse(seq!['-'] + d) == Ok::<JsonView, JSONParseError>(
            JsonView::Number(NumberView { negative: true, integer: d, fraction: Seq::empty(), exponent: 0 }),
        ),
{
    let n = d.len() as int;
    lemma_digits_to_end(d, 1);
    assert(d.subrange(0, n) =~= d);
    assert(ws_end(d, 0) == 0);
    assert(ws_end(d, n) == n);
    assert(spec_integer_parts(d, 0) == Ok::<(int, bool, Seq<char>), JSONParseError>((n, false, d)));
    assert(spec_number(d, 0) == Ok::<(int, JsonView), JSONParseError>(
        (n, JsonView::Number(NumberView { negative: false, integer: d, fraction: Seq::empty(), exponent: 0 })),
    ));
    assert(spec_value(d, 0) == spec_number(d, 0));
    let m = seq!['-'] + d;
    assert forall|i: int| 1 <= i < m.len() implies '0' <= #[trigger] m[i] <= '9' by {
        assert(m[i] == d[i - 1]);
    }
    assert(m[1] == d[0]);
    lemma_digits_to_end(m, 2);
    assert(m.subrange(1, n + 1) =~= d);
    assert(ws_end(m, 0) == 0);
    assert(ws_end(m, n + 1) == n + 1);
    assert(spec_integer_parts(m, 0) == Ok::<(int, bool, Seq<char>), JSONParseError>((n + 1, true, d)));
    assert(spec_number(m, 0) == Ok::<(int, JsonView), JSONParseError>(
        (n + 1, JsonView::Number(NumberView { negative: true, integer: d, fraction: Seq::empty(), exponent: 0 })),
    ));
    assert(spec_value(m, 0) == spec_number(m, 0));
}

} // verus!
