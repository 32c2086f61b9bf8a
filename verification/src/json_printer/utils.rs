//! Writing strings as JSON string literals.

use vstd::prelude::*;
use crate::json_parser::{JsonView, spec_parse, spec_string, spec_string_scan, ws_end};
use crate::text::{chars_of, push_char};

verus! {

/// How one character of a string is written inside a JSON string literal: quotes,
/// backslashes and the usual control characters are escaped, all others stand as they are.
pub open spec fn escape_char(c: char) -> Seq<char> {
    if c == '"' {
        seq!['\\', '"']
    } else if c == '\\' {
        seq!['\\', '\\']
    } else if c == '\n' {
        seq!['\\', 'n']
    } else if c == '\r' {
        seq!['\\', 'r']
    } else if c == '\t' {
        seq!['\\', 't']
    } else if c == '\x08' {
        seq!['\\', 'b']
    } else if c == '\x0C' {
        seq!['\\', 'f']
    } else {
        seq![c]
    }
}

/// The escaped characters of `s`.
pub open spec fn escape_body(s: Seq<char>) -> Seq<char>
    decreases s.len(),
{
    if s.len() == 0 {
        Seq::empty()
    } else {
        escape_body(s.drop_last()) + escape_char(s.last())
    }
}

/// `s` as a JSON string literal: escaped and between double quotes.
pub open spec fn spec_print_string(s: Seq<char>) -> Seq<char> {
    seq!['"'] + escape_body(s) + seq!['"']
}

/// Escaping a concatenation escapes each part.
pub proof fn lemma_escape_body_append(a: Seq<char>, b: Seq<char>)
    ensures
        escape_body(a + b) == escape_body(a) + escape_body(b),
    decreases b.len(),
{
    if b.len() == 0 {
        assert(a + b =~= a);
        assert(escape_body(a) + escape_body(b) =~= escape_body(a));
    } else {
        assert((a + b).drop_last() =~= a + b.drop_last());
        assert((a + b).last() == b.last());
        lemma_escape_body_append(a, b.drop_last());
        assert(escape_body(a + b) =~= escape_body(a) + escape_body(b));
    }
}

/// Reading an escaped body followed by a closing quote gives back the characters
/// that were escaped.
pub proof fn lemma_scan_escaped(s: Seq<char>, q: int, t: Seq<char>, acc: Seq<char>, init: nat)
    requires
        0 <= q,
        q + escape_body(t).len() + 1 <= s.len(),
        s.subrange(q, q + escape_body(t).len() + 1) == escape_body(t) + seq!['"'],
    ensures
        spec_string_scan(s, q, false, acc, init) == Ok::<(int, Seq<char>), crate::json_parser::JSONParseError>(
            (q + escape_body(t).len() + 1, acc + t),
        ),
    decreases t.len(),
{
    let e = escape_body(t);
    if t.len() == 0 {
        assert(s[q] == (escape_body(t) + seq!['"'])[0]);
        assert(acc + t =~= acc);
    } else {
        let c = t[0];
        let rest = t.drop_first();
        assert(t =~= seq![c] + rest);
        lemma_escape_body_append(seq![c], rest);
        assert(seq![c].drop_last() =~= Seq::<char>::empty());
        assert(seq![c].last() == c);
        assert(escape_body(Seq::<char>::empty()) =~= Seq::<char>::empty());
        assert(escape_body(seq![c]) =~= escape_char(c));
        let ec = escape_char(c);
        let er = escape_body(rest);
        assert(e =~= ec + er);
        let w = ec.len() as int;
        assert forall|k: int| 0 <= k < w implies s[q + k] == ec[k] by {
            assert(s.subrange(q, q + e.len() + 1)[k] == (e + seq!['"'])[k]);
        }
        assert(s.subrange(q + w, q + w + er.len() + 1) =~= er + seq!['"']) by {
            assert forall|k: int| 0 <= k < er.len() + 1 implies s.subrange(q + w, q + w + er.len() + 1)[k]
                == (er + seq!['"'])[k] by {
                assert(s.subrange(q, q + e.len() + 1)[w + k] == (e + seq!['"'])[w + k]);
            }
        }
        lemma_scan_escaped(s, q + w, rest, acc.push(c), init);
        assert(acc.push(c) + rest =~= acc + t);
        if w == 1 {
            assert(s[q] == c);
            assert(spec_string_scan(s, q, false, acc, init) == spec_string_scan(s, q + 1, false, acc.push(c), init));
        } else {
            assert(s[q] == '\\');
            assert(s[q + 1] == ec[1]);
            assert(spec_string_scan(s, q, false, acc, init) == spec_string_scan(s, q + 1, true, acc, init));
            assert(spec_string_scan(s, q + 1, true, acc, init) == spec_string_scan(s, q + 2, false, acc.push(c), init));
        }
    }
}

/// A string literal written by `print_string`, found at `p` in a text, is read there as
/// the string that was written, ending right after its closing quote.
pub proof fn lemma_printed_string_at(s: Seq<char>, p: int, t: Seq<char>)
    requires
        0 <= p,
        p + spec_print_string(t).len() <= s.len(),
        s.subrange(p, p + spec_print_string(t).len()) == spec_print_string(t),
    ensures
        spec_string(s, p) == Ok::<(int, Seq<char>), crate::json_parser::JSONParseError>(
            (p + spec_print_string(t).len(), t),
        ),
        spec_print_string(t).len() >= 2,
        s[p] == '"',
{
    let lit = spec_print_string(t);
    let e = escape_body(t);
    let n = lit.len() as int;
    assert(s[p] == s.subrange(p, p + n)[0]);
    assert(s.subrange(p + 1, p + 1 + e.len() + 1) =~= e + seq!['"']) by {
        assert forall|k: int| 0 <= k < e.len() + 1 implies s.subrange(p + 1, p + 1 + e.len() + 1)[k]
            == (e + seq!['"'])[k] by {
            assert(s.subrange(p, p + n)[1 + k] == lit[1 + k]);
        }
    }
    lemma_scan_escaped(s, p + 1, t, Seq::empty(), crate::json_parser::rem(s, p + 1));
    assert(Seq::<char>::empty() + t =~= t);
}

/// A string written by `print_string` is read back by the parser as the same string,
/// and the literal is the whole JSON text.
pub proof fn printed_string_parses_back(t: Seq<char>)
    ensures
        spec_string(spec_print_string(t), 0) == Ok::<(int, Seq<char>), crate::json_parser::JSONParseError>(
            (spec_print_string(t).len() as int, t),
        ),
        spec_parse(spec_print_string(t)) == Ok::<JsonView, crate::json_parser::JSONParseError>(JsonView::Str(t)),
{
    let s = spec_print_string(t);
    let e = escape_body(t);
    assert(s.subrange(1, 1 + e.len() as int + 1) =~= e + seq!['"']);
    lemma_scan_escaped(s, 1, t, Seq::empty(), crate::json_parser::rem(s, 1));
    assert(Seq::<char>::empty() + t =~= t);
    assert(ws_end(s, 0) == 0);
    assert(ws_end(s, s.len() as int) == s.len());
}

/// A string literal written by `print_string`, followed by any text, is read by the
/// string reader as the string that was written, which stops right after its closing
/// quote.
pub proof fn printed_string_reads_back_before_any_text(t: Seq<char>, rest: Seq<char>)
    ensures
        spec_string(spec_print_string(t) + rest, 0) == Ok::<(int, Seq<char>), crate::json_parser::JSONParseError>(
            (spec_print_string(t).len() as int, t),
        ),
{
    let p = spec_print_string(t);
    let s = p + rest;
    let e = escape_body(t);
    assert(s.subrange(1, 1 + e.len() as int + 1) =~= e + seq!['"']);
    lemma_scan_escaped(s, 1, t, Seq::empty(), crate::json_parser::rem(s, 1));
    assert(Seq::<char>::empty() + t =~= t);
    assert(s[0] == '"');
}

/// Appends the escaped form of `c` to `out`.
fn push_escaped(out: &mut String, c: char)
    ensures
        final(out)@ == old(out)@ + escape_char(c),
{
    if c == '"' {
        push_char(out, '\\');
        push_char(out, '"');
    } else if c == '\\' {
        push_char(out, '\\');
        push_char(out, '\\');
    } else if c == '\n' {
        push_char(out, '\\');
        push_char(out, 'n');
    } else if c == '\r' {
        push_char(out, '\\');
        push_char(out, 'r');
    } else if c == '\t' {
        push_char(out, '\\');
        push_char(out, 't');
    } else if c == '\x08' {
        push_char(out, '\\');
        push_char(out, 'b');
    } else if c == '\x0C' {
        push_char(out, '\\');
        push_char(out, 'f');
    } else {
        push_char(out, c);
    }
    assert(out@ =~= old(out)@ + escape_char(c));
}

/// Writes `s` as a JSON string literal.
pub fn print_string(s: &str) -> (output: String)
    ensures
        output@ == spec_print_string(s@),
{
    let cs = chars_of(s);
    let mut output = String::new();
    push_char(&mut output, '"');
    let mut i: usize = 0;
    assert(cs@.take(0) =~= Seq::<char>::empty());
    while i < cs.len()
        invariant
            i <= cs@.len(),
            output@ == seq!['"'] + escape_body(cs@.take(i as int)),
        decreases cs@.len() - i,
    {
        push_escaped(&mut output, cs[i]);
        assert(cs@.take(i + 1).drop_last() =~= cs@.take(i as int));
        i = i + 1;
        assert(output@ =~= seq!['"'] + escape_body(cs@.take(i as int)));
    }
    push_char(&mut output, '"');
    assert(cs@.take(cs@.len() as int) =~= cs@);
    assert(output@ =~= spec_print_string(s@));
    output
}

} // verus!
