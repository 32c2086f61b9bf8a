//! Character-level helpers shared by the parsers and printers.

use vstd::prelude::*;

verus! {

/// Number of bytes that the UTF-8 encoding of `c` takes.
pub open spec fn utf8_width(c: char) -> nat {
    if (c as u32) < 0x80 {
        1
    } else if (c as u32) < 0x800 {
        2
    } else if (c as u32) < 0x10000 {
        3
    } else {
        4
    }
}

/// Number of bytes that the UTF-8 encoding of `s` takes (what `str::len` reports).
pub open spec fn byte_len(s: Seq<char>) -> nat
    decreases s.len(),
{
    if s.len() == 0 {
        0
    } else {
        utf8_width(s[0]) + byte_len(s.drop_first())
    }
}

/// The characters of a string slice, in order.
pub fn chars_of(s: &str) -> (v: Vec<char>)
    ensures
        v@ == s@,
{
    let mut v: Vec<char> = Vec::new();
    for c in it: s.chars()
        invariant
            v@ == it.seq().take(it.index() as int),
    {
        v.push(c);
    }
    v
}

/// `String::push`: appends one character at the end of the string.
#[verifier::external_body]
pub(crate) fn push_char(s: &mut String, c: char)
    ensures
        final(s)@ == old(s)@.push(c),
{
    s.push(c);
}

/// Width in bytes of the UTF-8 encoding of `c`.
pub fn char_width(c: char) -> (w: usize)
    ensures
        w == utf8_width(c),
{
    let u = c as u32;
    if u < 0x80 {
        1
    } else if u < 0x800 {
        2
    } else if u < 0x10000 {
        3
    } else {
        4
    }
}

/// Splitting a sequence splits its byte length.
pub proof fn lemma_byte_len_append(a: Seq<char>, b: Seq<char>)
    ensures
        byte_len(a + b) == byte_len(a) + byte_len(b),
    decreases a.len(),
{
    if a.len() == 0 {
        assert(a + b =~= b);
    } else {
        assert((a + b).drop_first() =~= a.drop_first() + b);
        lemma_byte_len_append(a.drop_first(), b);
    }
}

/// Byte length of the characters of `v` from index `pos` on.
pub fn byte_len_from(v: &Vec<char>, pos: usize) -> (n: usize)
    requires
        pos <= v@.len(),
        byte_len(v@) <= usize::MAX,
    ensures
        n == byte_len(v@.subrange(pos as int, v@.len() as int)),
{
    let mut n: usize = 0;
    let mut i: usize = v.len();
    proof {
        lemma_byte_len_append(v@.subrange(0, pos as int), v@.subrange(pos as int, v@.len() as int));
        assert(v@.subrange(0, pos as int) + v@.subrange(pos as int, v@.len() as int) =~= v@);
    }
    while i > pos
        invariant
            pos <= i <= v@.len(),
            byte_len(v@.subrange(pos as int, v@.len() as int)) <= usize::MAX,
            n == byte_len(v@.subrange(i as int, v@.len() as int)),
        decreases i,
    {
        i = i - 1;
        proof {
            let whole = v@.subrange(pos as int, v@.len() as int);
            assert(v@.subrange(i as int, v@.len() as int).drop_first() =~= v@.subrange(i + 1, v@.len() as int));
            lemma_byte_len_append(v@.subrange(pos as int, i as int), v@.subrange(i as int, v@.len() as int));
            assert(v@.subrange(pos as int, i as int) + v@.subrange(i as int, v@.len() as int) =~= whole);
        }
        n = n + char_width(v[i]);
    }
    n
}

/// The byte length of a character sequence is the length of its UTF-8 encoding.
pub proof fn lemma_byte_len_is_encoded_len(s: Seq<char>)
    ensures
        byte_len(s) == vstd::utf8::encode_utf8(s).len(),
    decreases s.len(),
{
    if s.len() > 0 {
        lemma_byte_len_is_encoded_len(s.drop_first());
        let u = s[0] as u32;
        assert(vstd::utf8::is_scalar(u)) by {
            vstd::utf8::char_is_scalar(s[0]);
        }
    }
}

/// A string holding the characters `v[from..to]`.
pub fn string_from_range(v: &Vec<char>, from: usize, to: usize) -> (s: String)
    requires
        from <= to <= v@.len(),
    ensures
        s@ == v@.subrange(from as int, to as int),
{
    let mut s = String::new();
    let mut i: usize = from;
    while i < to
        invariant
            from <= i <= to <= v@.len(),
            s@ == v@.subrange(from as int, i as int),
        decreases to - i,
    {
        push_char(&mut s, v[i]);
        i = i + 1;
        assert(s@ =~= v@.subrange(from as int, i as int));
    }
    s
}

/// Whether `s` holds the characters of `lit` from index `p` on.
pub open spec fn has_prefix_at(s: Seq<char>, p: int, lit: Seq<char>) -> bool {
    0 <= p && p + lit.len() <= s.len() && s.subrange(p, p + lit.len()) == lit
}

/// Tests `has_prefix_at` on concrete characters.
pub fn starts_with_at(s: &Vec<char>, p: usize, lit: &[char]) -> (b: bool)
    requires
        p <= s@.len(),
    ensures
        b == has_prefix_at(s@, p as int, lit@),
{
    let n = s.len();
    if lit.len() > n - p {
        return false;
    }
    let mut i: usize = 0;
    while i < lit.len()
        invariant
            i <= lit@.len(),
            p + lit@.len() <= s@.len(),
            n == s@.len(),
            forall|k: int| 0 <= k < i ==> s@[p + k] == lit@[k],
        decreases lit@.len() - i,
    {
        if s[p + i] != lit[i] {
            assert(s@.subrange(p as int, p + lit@.len())[i as int] != lit@[i as int]);
            return false;
        }
        i = i + 1;
    }
    assert(s@.subrange(p as int, p + lit@.len()) =~= lit@);
    true
}

/// `char::from_u32`: the character whose scalar value is `u`, or `None` when `u` is a
/// surrogate (`0xD800..=0xDFFF`) or above `0x10FFFF`.
#[verifier::external_body]
pub(crate) fn char_from_u32(u: u32) -> (r: Option<char>)
    ensures
        r is Some <==> (u <= 0x10FFFF && !(0xD800 <= u <= 0xDFFF)),
        r matches Some(c) ==> c == u as char,
{
    char::from_u32(u)
}

} // verus!
