//! Escaping for quoted literals. Inside `'...'` the characters `'`, `\`,
//! newline and tab are written as `\'`, `\\`, `\n` and `\t`; unescaping maps
//! any other `\x` back to `x` (escape-of-itself). Nothing else is special —
//! in particular `"` is not.

use vstd::prelude::*;

use crate::text::{push_char, str_to_chars};

verus! {

/// How one character is written inside a quoted literal.
pub open spec fn escape_char(c: char) -> Seq<char> {
    if c == '\'' {
        seq!['\\', '\'']
    } else if c == '\\' {
        seq!['\\', '\\']
    } else if c == '\n' {
        seq!['\\', 'n']
    } else if c == '\t' {
        seq!['\\', 't']
    } else {
        seq![c]
    }
}

/// The escaped form of a whole string.
pub open spec fn escape_spec(s: Seq<char>) -> Seq<char>
    decreases s.len(),
{
    if s.len() == 0 {
        Seq::empty()
    } else {
        escape_char(s[0]) + escape_spec(s.drop_first())
    }
}

/// The character denoted by `x` in an escape sequence `\x`.
pub open spec fn unescape_char(c: char) -> char {
    if c == 'n' {
        '\n'
    } else if c == 't' {
        '\t'
    } else {
        c
    }
}

/// The parser's inverse of `escape_spec`: `\x` becomes `unescape_char(x)`,
/// every other character stands for itself. A lone trailing backslash is
/// dropped; escaped input never produces one.
pub open spec fn unescape_spec(s: Seq<char>) -> Seq<char>
    decreases s.len(),
{
    if s.len() == 0 {
        Seq::empty()
    } else if s[0] == '\\' {
        if s.len() == 1 {
            Seq::empty()
        } else {
            seq![unescape_char(s[1])] + unescape_spec(s.subrange(2, s.len() as int))
        }
    } else {
        seq![s[0]] + unescape_spec(s.drop_first())
    }
}

/// Unescaping undoes escaping on every string.
pub proof fn lemma_unescape_escape(s: Seq<char>)
    ensures
        unescape_spec(escape_spec(s)) == s,
    decreases s.len(),
{
    if s.len() == 0 {
    } else {
        let c = s[0];
        let rest = s.drop_first();
        lemma_unescape_escape(rest);
        let e = escape_spec(s);
        assert(e == escape_char(c) + escape_spec(rest));
        if c == '\'' || c == '\\' || c == '\n' || c == '\t' {
            assert(e[0] == '\\');
            assert(e.len() >= 2);
            assert(e.subrange(2, e.len() as int) =~= escape_spec(rest));
            assert(unescape_char(e[1]) == c);
            assert(unescape_spec(e) == seq![c] + unescape_spec(escape_spec(rest)));
            assert(seq![c] + rest =~= s);
        } else {
            assert(e[0] == c);
            assert(e.drop_first() =~= escape_spec(rest));
            assert(unescape_spec(e) == seq![c] + unescape_spec(escape_spec(rest)));
            assert(seq![c] + rest =~= s);
        }
    }
}

/// How one byte is written inside a quoted literal; agrees with
/// `escape_char` on ASCII text.
pub open spec fn escape_byte(b: u8) -> Seq<u8> {
    if b == 0x27 {
        seq![0x5c, 0x27]
    } else if b == 0x5c {
        seq![0x5c, 0x5c]
    } else if b == 0x0a {
        seq![0x5c, 0x6e]
    } else if b == 0x09 {
        seq![0x5c, 0x74]
    } else {
        seq![b]
    }
}

/// The escaped form of a byte string.
pub open spec fn escape_bytes_spec(s: Seq<u8>) -> Seq<u8>
    decreases s.len(),
{
    if s.len() == 0 {
        Seq::empty()
    } else {
        escape_byte(s[0]) + escape_bytes_spec(s.drop_first())
    }
}

/// Escapes `'`, `\`, newline and tab in a byte string.
pub fn escape_bytes(input: &[u8]) -> (r: Vec<u8>)
    ensures
        r@ == escape_bytes_spec(input@),
{
    let n = input.len();
    let mut out: Vec<u8> = Vec::new();
    let mut i: usize = 0;
    proof {
        assert(input@.subrange(0, n as int) =~= input@);
        assert(out@ + escape_bytes_spec(input@) =~= escape_bytes_spec(input@));
    }
    while i < n
        invariant
            n == input@.len(),
            i <= n,
            out@ + escape_bytes_spec(input@.subrange(i as int, n as int)) == escape_bytes_spec(
                input@,
            ),
        decreases n - i,
    {
        let b = *vstd::slice::slice_index_get(input, i);
        let ghost out0 = out@;
        proof {
            let suf = input@.subrange(i as int, n as int);
            assert(suf[0] == b);
            assert(suf.drop_first() =~= input@.subrange(i as int + 1, n as int));
        }
        if b == 0x27 || b == 0x5c {
            out.push(0x5c);
            out.push(b);
        } else if b == 0x0a {
            out.push(0x5c);
            out.push(0x6e);
        } else if b == 0x09 {
            out.push(0x5c);
            out.push(0x74);
        } else {
            out.push(b);
        }
        proof {
            let suf = input@.subrange(i as int, n as int);
            let tail = input@.subrange(i as int + 1, n as int);
            assert(out@ =~= out0 + escape_byte(b));
            assert(out@ + escape_bytes_spec(tail) =~= out0 + (escape_byte(b) + escape_bytes_spec(
                tail,
            )));
            assert(escape_bytes_spec(suf) == escape_byte(b) + escape_bytes_spec(tail));
        }
        i = i + 1;
    }
    proof {
        assert(input@.subrange(n as int, n as int) =~= Seq::<u8>::empty());
        assert(out@ =~= escape_bytes_spec(input@));
    }
    out
}

/// The bytes of an ASCII character sequence.
pub open spec fn ascii_bytes(s: Seq<char>) -> Seq<u8> {
    s.map_values(|c: char| c as u8)
}

/// The byte and text escapers agree character-for-character on ASCII text.
pub proof fn lemma_escape_bytes_agrees(s: Seq<char>)
    requires
        forall|i: int| 0 <= i < s.len() ==> ((#[trigger] s[i]) as u32) < 128,
    ensures
        escape_bytes_spec(ascii_bytes(s)) == ascii_bytes(escape_spec(s)),
    decreases s.len(),
{
    let bs = ascii_bytes(s);
    if s.len() == 0 {
        assert(bs =~= Seq::<u8>::empty());
        assert(ascii_bytes(escape_spec(s)) =~= Seq::<u8>::empty());
    } else {
        let c = s[0];
        let rest = s.drop_first();
        assert(forall|i: int| 0 <= i < rest.len() ==> ((#[trigger] rest[i]) as u32) < 128);
        lemma_escape_bytes_agrees(rest);
        assert(bs[0] == c as u8);
        assert(bs.drop_first() =~= ascii_bytes(rest));
        assert(escape_bytes_spec(bs) == escape_byte(c as u8) + escape_bytes_spec(
            ascii_bytes(rest),
        ));
        if c == '\'' {
            assert(escape_byte(c as u8) =~= ascii_bytes(escape_char(c)));
        } else if c == '\\' {
            assert(escape_byte(c as u8) =~= ascii_bytes(escape_char(c)));
        } else if c == '\n' {
            assert(escape_byte(c as u8) =~= ascii_bytes(escape_char(c)));
        } else if c == '\t' {
            assert(escape_byte(c as u8) =~= ascii_bytes(escape_char(c)));
        } else {
            vstd::utf8::char_is_scalar(c);
            vstd::utf8::char_u32_cast(c, c as u32);
            vstd::utf8::char_u32_cast('\'', '\'' as u32);
            vstd::utf8::char_u32_cast('\\', '\\' as u32);
            vstd::utf8::char_u32_cast('\n', '\n' as u32);
            vstd::utf8::char_u32_cast('\t', '\t' as u32);
            assert((s[0] as u32) < 128);
            assert(c as u32 != 0x27 && c as u32 != 0x5c && c as u32 != 0x0a && c as u32
                != 0x09);
            assert(c as u8 as u32 == c as u32);
            assert(c as u8 != 0x27 && c as u8 != 0x5c && c as u8 != 0x0a && c as u8 != 0x09);
            assert(escape_byte(c as u8) =~= ascii_bytes(escape_char(c)));
        }
        assert(ascii_bytes(escape_spec(s)) =~= ascii_bytes(escape_char(c)) + ascii_bytes(
            escape_spec(rest),
        ));
    }
}

/// A wrapper marking a sink whose text is escaped on the way through; the
/// writer adapters over it belong to the unverified I/O layer.
pub struct Escaped<W>(pub W);

impl<W> Escaped<W> {
    pub fn new(write: W) -> (r: Self)
        ensures
            r.0 == write,
    {
        Escaped(write)
    }

    pub fn into_inner(self) -> (r: W)
        ensures
            r == self.0,
    {
        self.0
    }
}

/// Escapes `'`, `\`, newline and tab in a string.
pub fn escape(input: &str) -> (r: String)
    ensures
        r@ == escape_spec(input@),
{
    let cs = str_to_chars(input);
    let n = cs.len();
    let mut out = String::new();
    let mut i: usize = 0;
    proof {
        assert(cs@.subrange(0, n as int) =~= cs@);
        assert(out@ + escape_spec(cs@) =~= escape_spec(cs@));
    }
    while i < n
        invariant
            n == cs@.len(),
            cs@ == input@,
            i <= n,
            out@ + escape_spec(cs@.subrange(i as int, n as int)) == escape_spec(cs@),
        decreases n - i,
    {
        let c = cs[i];
        let ghost out0 = out@;
        proof {
            let suf = cs@.subrange(i as int, n as int);
            assert(suf[0] == c);
            assert(suf.drop_first() =~= cs@.subrange(i as int + 1, n as int));
        }
        if c == '\'' {
            push_char(&mut out, '\\');
            push_char(&mut out, '\'');
        } else if c == '\\' {
            push_char(&mut out, '\\');
            push_char(&mut out, '\\');
        } else if c == '\n' {
            push_char(&mut out, '\\');
            push_char(&mut out, 'n');
        } else if c == '\t' {
            push_char(&mut out, '\\');
            push_char(&mut out, 't');
        } else {
            push_char(&mut out, c);
        }
        proof {
            let suf = cs@.subrange(i as int, n as int);
            let tail = cs@.subrange(i as int + 1, n as int);
            assert(out@ =~= out0 + escape_char(c));
            assert(out@ + escape_spec(tail) =~= out0 + (escape_char(c) + escape_spec(tail)));
            assert(escape_spec(suf) == escape_char(c) + escape_spec(tail));
        }
        i = i + 1;
    }
    proof {
        assert(cs@.subrange(n as int, n as int) =~= Seq::<char>::empty());
        assert(out@ =~= escape_spec(input@));
    }
    out
}

} // verus!
