//! Character-level helpers shared by the parser, the formatter, the
//! translator and the streaming transformer: whitespace classification,
//! ASCII digit handling, and conversions between `str`/`String` and
//! `Vec<char>`.

use vstd::prelude::*;

verus! {

/// The Unicode `White_Space` characters, the set that `char::is_whitespace`
/// accepts.
pub open spec fn is_ws_char(c: char) -> bool {
    ||| c == ' '
    ||| (0x09 <= c as u32 && c as u32 <= 0x0d)
    ||| c as u32 == 0x85
    ||| c as u32 == 0xa0
    ||| c as u32 == 0x1680
    ||| (0x2000 <= c as u32 && c as u32 <= 0x200a)
    ||| c as u32 == 0x2028
    ||| c as u32 == 0x2029
    ||| c as u32 == 0x202f
    ||| c as u32 == 0x205f
    ||| c as u32 == 0x3000
}

/// Whitespace test over scalar values, matching `is_ws_char`.
pub fn is_ws(c: char) -> (r: bool)
    ensures
        r == is_ws_char(c),
{
    let u = c as u32;
    u == 0x20 || (0x09 <= u && u <= 0x0d) || u == 0x85 || u == 0xa0 || u == 0x1680 || (0x2000 <= u
        && u <= 0x200a) || u == 0x2028 || u == 0x2029 || u == 0x202f || u == 0x205f || u == 0x3000
}

pub open spec fn is_digit_char(c: char) -> bool {
    0x30 <= c as u32 && c as u32 <= 0x39
}

pub open spec fn digit_val(c: char) -> int {
    c as u32 - 0x30
}

/// Whether a sequence is a well-formed placeholder index: one or more ASCII
/// digits and nothing else.
pub open spec fn is_digits(s: Seq<char>) -> bool {
    s.len() >= 1 && forall|i: int| 0 <= i < s.len() ==> is_digit_char(#[trigger] s[i])
}

/// The numeric value of a digit sequence, most significant digit first.
pub open spec fn digits_val(s: Seq<char>) -> int
    decreases s.len(),
{
    if s.len() == 0 {
        0
    } else {
        digits_val(s.drop_last()) * 10 + digit_val(s.last())
    }
}

/// The value of a digit sequence is never negative.
pub proof fn lemma_digits_val_nonneg(s: Seq<char>)
    requires
        forall|i: int| 0 <= i < s.len() ==> is_digit_char(#[trigger] s[i]),
    ensures
        digits_val(s) >= 0,
    decreases s.len(),
{
    if s.len() > 0 {
        assert(forall|i: int|
            0 <= i < s.drop_last().len() ==> is_digit_char(#[trigger] s.drop_last()[i]));
        lemma_digits_val_nonneg(s.drop_last());
    }
}

/// A digit sequence is worth at least any of its prefixes.
pub proof fn lemma_digits_val_prefix(s: Seq<char>, j: int)
    requires
        is_digits(s),
        0 <= j <= s.len(),
    ensures
        digits_val(s) >= digits_val(s.subrange(0, j)),
    decreases s.len() - j,
{
    if j == s.len() {
        assert(s.subrange(0, j) =~= s);
    } else {
        lemma_digits_val_prefix(s, j + 1);
        let p = s.subrange(0, j + 1);
        assert(p.drop_last() =~= s.subrange(0, j));
        assert(p.last() == s[j]);
        assert(forall|i: int| 0 <= i < j ==> is_digit_char(#[trigger] s.subrange(0, j)[i]));
        lemma_digits_val_nonneg(s.subrange(0, j));
        assert(digits_val(p) == digits_val(s.subrange(0, j)) * 10 + digit_val(s[j]));
        assert(digit_val(s[j]) >= 0);
        assert(digits_val(s.subrange(0, j)) * 10 >= digits_val(s.subrange(0, j))) by (nonlinear_arith)
            requires
                digits_val(s.subrange(0, j)) >= 0,
        ;
    }
}

/// Reads the placeholder index written between braces: `Some(k)` exactly
/// when the text is one or more ASCII digits denoting a value below
/// `bound`; anything else — empty, non-digit, or too large — is `None`.
pub(crate) fn parse_index(cs: &Vec<char>, from: usize, to: usize, bound: usize) -> (r: Option<
    usize,
>)
    requires
        from <= to <= cs@.len(),
    ensures
        match r {
            Some(k) => is_digits(cs@.subrange(from as int, to as int)) && digits_val(
                cs@.subrange(from as int, to as int),
            ) == k as int && k < bound,
            None => !(is_digits(cs@.subrange(from as int, to as int)) && digits_val(
                cs@.subrange(from as int, to as int),
            ) < bound as int),
        },
{
    let ghost idx = cs@.subrange(from as int, to as int);
    if from == to {
        proof {
            assert(idx.len() == 0);
        }
        return None;
    }
    let mut j: usize = from;
    let mut val: usize = 0;
    while j < to
        invariant
            from <= j <= to <= cs@.len(),
            idx == cs@.subrange(from as int, to as int),
            forall|i: int| from <= i < j ==> is_digit_char(#[trigger] cs@[i]),
            val as int == digits_val(cs@.subrange(from as int, j as int)),
        decreases to - j,
    {
        let c = cs[j];
        let u = c as u32;
        if u < 0x30 || u > 0x39 {
            proof {
                assert(idx[j - from] == cs@[j as int]);
                assert(!is_digit_char(idx[j - from]));
            }
            return None;
        }
        let d = (u - 0x30) as usize;
        proof {
            assert(is_digit_char(cs@[j as int]));
            assert(d as int == digit_val(cs@[j as int]));
        }
        if val > (usize::MAX - d) / 10 {
            proof {
                let pre = cs@.subrange(from as int, j as int + 1);
                assert(pre.drop_last() =~= cs@.subrange(from as int, j as int));
                assert(pre.last() == cs@[j as int]);
                assert(digits_val(pre) == val as int * 10 + d as int);
                assert(val as int * 10 + d > usize::MAX as int) by (nonlinear_arith)
                    requires
                        val as int > (usize::MAX as int - d as int) / 10,
                        0 <= d as int <= 9,
                        d as int <= usize::MAX as int,
                ;
                if is_digits(idx) {
                    lemma_digits_val_prefix(idx, j as int + 1 - from);
                    assert(idx.subrange(0, j as int + 1 - from) =~= pre);
                    assert(digits_val(idx) > usize::MAX as int);
                }
            }
            return None;
        }
        proof {
            let pre = cs@.subrange(from as int, j as int + 1);
            assert(pre.drop_last() =~= cs@.subrange(from as int, j as int));
            assert(pre.last() == cs@[j as int]);
            assert(val as int * 10 + d <= usize::MAX as int) by (nonlinear_arith)
                requires
                    val as int <= (usize::MAX as int - d as int) / 10,
                    0 <= d as int,
                    d as int <= usize::MAX as int,
            ;
        }
        val = val * 10 + d;
        j = j + 1;
    }
    proof {
        assert(forall|i: int| 0 <= i < idx.len() ==> is_digit_char(#[trigger] idx[i]));
        assert(is_digits(idx));
        assert(cs@.subrange(from as int, j as int) == idx);
    }
    if val < bound {
        Some(val)
    } else {
        None
    }
}

/// Appends the characters `cs[from..to]` to a `String`.
pub(crate) fn push_range(out: &mut String, cs: &Vec<char>, from: usize, to: usize)
    requires
        from <= to <= cs@.len(),
    ensures
        final(out)@ == old(out)@ + cs@.subrange(from as int, to as int),
{
    let ghost base = out@;
    let mut j: usize = from;
    proof {
        assert(base + cs@.subrange(from as int, from as int) =~= base);
    }
    while j < to
        invariant
            from <= j <= to <= cs@.len(),
            out@ == base + cs@.subrange(from as int, j as int),
        decreases to - j,
    {
        push_char(out, cs[j]);
        proof {
            assert((base + cs@.subrange(from as int, j as int)).push(cs@[j as int]) =~= base
                + cs@.subrange(from as int, j as int + 1));
        }
        j = j + 1;
    }
}

/// Appends one character to a `String`.
/// Relies on `String::push`: it appends exactly the given character.
#[verifier::external_body]
pub(crate) fn push_char(s: &mut String, c: char)
    ensures
        final(s)@ == old(s)@.push(c),
{
    s.push(c)
}

/// Collects the characters of a `&str` into a vector.
pub(crate) fn str_to_chars(s: &str) -> (v: Vec<char>)
    ensures
        v@ == s@,
{
    let n = s.unicode_len();
    let mut v: Vec<char> = Vec::new();
    let mut i: usize = 0;
    while i < n
        invariant
            n == s@.len(),
            i <= n,
            v@ == s@.subrange(0, i as int),
        decreases n - i,
    {
        v.push(s.get_char(i));
        i = i + 1;
        proof {
            assert(v@ =~= s@.subrange(0, i as int));
        }
    }
    proof {
        assert(v@ =~= s@);
    }
    v
}

} // verus!
