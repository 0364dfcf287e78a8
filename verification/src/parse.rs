//! Recursive-descent parser for the textual encoding.
//!
//! Grammar:
//! ```text
//! value      := literal | template
//! literal    := "'" literal-char* "'"
//! template   := "t!(" ws literal ( ws "," ws value )* ws ")"
//! ```
//! Whitespace is skipped after `t!(`, around each `,` and before `)`.
//! Trailing characters after a complete top-level value are ignored.

use vstd::prelude::*;

use crate::escape::unescape_char;
use crate::text::{is_ws, is_ws_char, str_to_chars};
use crate::{I18nString, I18nView, InvalidFormat, view_args};

verus! {

/// The first position at or after `i` holding a non-whitespace character.
pub open spec fn skip_ws_spec(s: Seq<char>, i: int) -> int
    decreases s.len() - i,
{
    if 0 <= i < s.len() && is_ws_char(s[i]) {
        skip_ws_spec(s, i + 1)
    } else {
        i
    }
}

/// Scans a literal body from `i` (just past the opening quote) up to the
/// closing quote: the unescaped content and the position after the quote,
/// or `None` when the input ends first.
pub open spec fn scan_lit(s: Seq<char>, i: int) -> Option<(Seq<char>, int)>
    decreases s.len() - i, 0int,
{
    if i < 0 || i >= s.len() {
        None
    } else if s[i] == '\'' {
        Some((Seq::empty(), i + 1))
    } else if s[i] == '\\' {
        scan_lit_esc(s, i + 1)
    } else {
        match scan_lit(s, i + 1) {
            Some((t, e)) => Some((seq![s[i]] + t, e)),
            None => None,
        }
    }
}

/// Continues a literal scan directly after a backslash: the next character
/// is taken as an escape code, even a quote.
pub open spec fn scan_lit_esc(s: Seq<char>, i: int) -> Option<(Seq<char>, int)>
    decreases s.len() - i, 1int,
{
    if i < 0 || i >= s.len() {
        None
    } else {
        match scan_lit(s, i + 1) {
            Some((t, e)) => Some((seq![unescape_char(s[i])] + t, e)),
            None => None,
        }
    }
}

/// Parses a quoted literal starting at `i`: the opening quote, the body,
/// the closing quote.
pub open spec fn parse_lit_spec(s: Seq<char>, i: int) -> Option<(Seq<char>, int)> {
    if 0 <= i < s.len() && s[i] == '\'' {
        scan_lit(s, i + 1)
    } else {
        None
    }
}

/// Whether the macro keyword `t!(` starts at position `i`.
pub open spec fn is_macro_start(s: Seq<char>, i: int) -> bool {
    0 <= i && i + 3 <= s.len() && s[i] == 't' && s[i + 1] == '!' && s[i + 2] == '('
}

/// Parses one value starting at `i`: a quoted literal or a `t!(...)`
/// template; anything else fails.
pub open spec fn parse_value_spec(s: Seq<char>, i: int) -> Option<(I18nView, int)>
    decreases s.len() - i, 2int,
{
    if i < 0 || i >= s.len() {
        None
    } else if s[i] == '\'' {
        match scan_lit(s, i + 1) {
            Some((t, e)) => Some((I18nView::Literal(t), e)),
            None => None,
        }
    } else if is_macro_start(s, i) {
        parse_macro_spec(s, i)
    } else {
        None
    }
}

/// Parses a whole `t!( ws literal ( ws , ws value )* ws )` template
/// starting at `i`. The cursor-advance guards can never fail; they make
/// the recursion manifestly well-founded.
pub open spec fn parse_macro_spec(s: Seq<char>, i: int) -> Option<(I18nView, int)>
    decreases s.len() - i, 1int,
{
    if !is_macro_start(s, i) {
        None
    } else {
        let j = skip_ws_spec(s, i + 3);
        match parse_lit_spec(s, j) {
            Some((body, e)) => {
                if e <= i || e > s.len() {
                    None
                } else {
                    match parse_args_spec(s, e) {
                        Some((args, e2)) => Some((I18nView::Template(body, args), e2)),
                        None => None,
                    }
                }
            },
            None => None,
        }
    }
}

/// Parses the argument-list tail of a template from `i`: repeatedly either
/// the closing `)` or a `,` followed by one value, with whitespace skipped
/// around both.
pub open spec fn parse_args_spec(s: Seq<char>, i: int) -> Option<(Seq<I18nView>, int)>
    decreases s.len() - i, 0int,
{
    let k = skip_ws_spec(s, i);
    if k < i || k >= s.len() {
        None
    } else if s[k] == ')' {
        Some((Seq::empty(), k + 1))
    } else if s[k] == ',' {
        let m = skip_ws_spec(s, k + 1);
        if m <= i || m > s.len() {
            None
        } else {
            match parse_value_spec(s, m) {
                Some((v, n)) => {
                    if n <= m || n > s.len() {
                        None
                    } else {
                        match parse_args_spec(s, n) {
                            Some((rest, e)) => Some((seq![v] + rest, e)),
                            None => None,
                        }
                    }
                },
                None => None,
            }
        }
    } else {
        None
    }
}

/// Parses a top-level value at the start of the input; trailing characters
/// after it are ignored.
pub open spec fn parse_spec(s: Seq<char>) -> Option<I18nView> {
    match parse_value_spec(s, 0) {
        Some((v, e)) => Some(v),
        None => None,
    }
}

/// `skip_ws_spec` never moves backwards and never leaves the input.
pub proof fn lemma_skip_ws_bounds(s: Seq<char>, i: int)
    requires
        0 <= i <= s.len(),
    ensures
        i <= skip_ws_spec(s, i) <= s.len(),
    decreases s.len() - i,
{
    if i < s.len() && is_ws_char(s[i]) {
        lemma_skip_ws_bounds(s, i + 1);
    }
}

struct Parser {
    chars: Vec<char>,
    cursor: usize,
}

impl Parser {
    spec fn wf(&self) -> bool {
        self.cursor <= self.chars@.len()
    }

    fn new(input: &str) -> (p: Parser)
        ensures
            p.wf(),
            p.chars@ == input@,
            p.cursor == 0,
    {
        Parser { chars: str_to_chars(input), cursor: 0 }
    }

    fn peek_char(&self) -> (r: Option<char>)
        requires
            self.wf(),
        ensures
            self.cursor < self.chars@.len() ==> r == Some(self.chars@[self.cursor as int]),
            self.cursor == self.chars@.len() ==> r is None,
    {
        if self.cursor < self.chars.len() {
            Some(self.chars[self.cursor])
        } else {
            None
        }
    }

    fn skip_whitespace(&mut self)
        requires
            old(self).wf(),
        ensures
            final(self).wf(),
            final(self).chars@ == old(self).chars@,
            final(self).cursor as int == skip_ws_spec(old(self).chars@, old(self).cursor as int),
    {
        let ghost s = self.chars@;
        let ghost c0 = self.cursor as int;
        while self.cursor < self.chars.len() && is_ws(self.chars[self.cursor])
            invariant
                self.chars@ == s,
                self.cursor <= s.len(),
                skip_ws_spec(s, self.cursor as int) == skip_ws_spec(s, c0),
            decreases s.len() - self.cursor,
        {
            self.cursor = self.cursor + 1;
        }
    }

    fn match_char(&mut self, target: char) -> (r: bool)
        requires
            old(self).wf(),
        ensures
            final(self).wf(),
            final(self).chars@ == old(self).chars@,
            r == (old(self).cursor < old(self).chars@.len() && old(self).chars@[old(
                self,
            ).cursor as int] == target),
            r ==> final(self).cursor == old(self).cursor + 1,
            !r ==> final(self).cursor == old(self).cursor,
    {
        if self.cursor < self.chars.len() && self.chars[self.cursor] == target {
            self.cursor = self.cursor + 1;
            true
        } else {
            false
        }
    }

    fn expect_char(&mut self, target: char) -> (r: Result<(), InvalidFormat>)
        requires
            old(self).wf(),
        ensures
            final(self).wf(),
            final(self).chars@ == old(self).chars@,
            r is Ok <==> (old(self).cursor < old(self).chars@.len() && old(self).chars@[old(
                self,
            ).cursor as int] == target),
            r is Ok ==> final(self).cursor == old(self).cursor + 1,
            r is Err ==> final(self).cursor == old(self).cursor,
    {
        if self.match_char(target) {
            Ok(())
        } else {
            Err(InvalidFormat)
        }
    }

    fn expect_str(&mut self, target: &str) -> (r: Result<(), InvalidFormat>)
        requires
            old(self).wf(),
        ensures
            final(self).wf(),
            final(self).chars@ == old(self).chars@,
            r is Ok <==> (old(self).cursor + target@.len() <= old(self).chars@.len() && old(
                self,
            ).chars@.subrange(
                old(self).cursor as int,
                old(self).cursor as int + target@.len(),
            ) == target@),
            r is Ok ==> final(self).cursor == old(self).cursor + target@.len(),
            r is Err ==> final(self).cursor == old(self).cursor,
    {
        let n = target.unicode_len();
        let len = self.chars.len();
        if n > len - self.cursor {
            return Err(InvalidFormat);
        }
        let ghost s = self.chars@;
        let ghost c0 = self.cursor as int;
        let mut k: usize = 0;
        while k < n
            invariant
                self.chars@ == s,
                self.cursor == c0,
                len == s.len(),
                c0 + n <= len,
                n == target@.len(),
                k <= n,
                s.subrange(c0, c0 + k as int) == target@.subrange(0, k as int),
            decreases n - k,
        {
            if self.chars[self.cursor + k] != target.get_char(k) {
                return Err(InvalidFormat);
            }
            k = k + 1;
            proof {
                assert(s.subrange(c0, c0 + k as int) =~= target@.subrange(0, k as int));
            }
        }
        proof {
            assert(s.subrange(c0, c0 + n as int) =~= target@.subrange(0, n as int));
            assert(target@.subrange(0, n as int) =~= target@);
        }
        self.cursor = self.cursor + n;
        Ok(())
    }

    #[verifier::loop_isolation(false)]
    fn parse_literal(&mut self) -> (r: Result<String, InvalidFormat>)
        requires
            old(self).wf(),
        ensures
            final(self).wf(),
            final(self).chars@ == old(self).chars@,
            match r {
                Ok(t) => parse_lit_spec(old(self).chars@, old(self).cursor as int) == Some(
                    (t@, final(self).cursor as int),
                ) && old(self).cursor < final(self).cursor,
                Err(_) => parse_lit_spec(old(self).chars@, old(self).cursor as int) is None,
            },
    {
        let ghost s = self.chars@;
        let ghost c0 = self.cursor as int;
        match self.expect_char('\'') {
            Ok(()) => {},
            Err(e) => {
                return Err(e);
            },
        }
        let ghost p0 = self.cursor as int;
        let len = self.chars.len();
        let mut out = String::new();
        let mut escaping = false;
        loop
            invariant
                self.wf(),
                self.chars@ == s,
                len == s.len(),
                p0 <= self.cursor as int <= len,
                (!escaping ==> opt_prepend(out@, scan_lit(s, self.cursor as int)) == scan_lit(
                    s,
                    p0,
                )),
                (escaping ==> opt_prepend(out@, scan_lit_esc(s, self.cursor as int)) == scan_lit(
                    s,
                    p0,
                )),
            decreases 2 * (len - self.cursor) + if escaping {
                0int
            } else {
                1int
            },
        {
            if self.cursor >= len {
                return Err(InvalidFormat);
            }
            let c = self.chars[self.cursor];
            let ghost cur = self.cursor as int;
            let ghost out0 = out@;
            self.cursor = self.cursor + 1;
            if escaping {
                escaping = false;
                let u = if c == 'n' {
                    '\n'
                } else if c == 't' {
                    '\t'
                } else {
                    c
                };
                crate::text::push_char(&mut out, u);
                proof {
                    assert(u == crate::escape::unescape_char(c));
                    lemma_opt_prepend_shift(out0, seq![u], scan_lit(s, cur + 1));
                    assert(scan_lit_esc(s, cur) == opt_prepend(seq![u], scan_lit(s, cur + 1)));
                    assert(out@ =~= out0 + seq![u]);
                }
            } else {
                if c == '\'' {
                    proof {
                        assert(scan_lit(s, cur) == Some((Seq::<char>::empty(), cur + 1)));
                        assert(out0 + Seq::<char>::empty() =~= out0);
                    }
                    return Ok(out);
                } else if c == '\\' {
                    escaping = true;
                    proof {
                        assert(scan_lit(s, cur) == scan_lit_esc(s, cur + 1));
                    }
                } else {
                    crate::text::push_char(&mut out, c);
                    proof {
                        lemma_opt_prepend_shift(out0, seq![c], scan_lit(s, cur + 1));
                        assert(scan_lit(s, cur) == opt_prepend(seq![c], scan_lit(s, cur + 1)));
                        assert(out@ =~= out0 + seq![c]);
                    }
                }
            }
        }
    }

    fn at_macro_start(&self) -> (r: bool)
        requires
            self.wf(),
        ensures
            r == is_macro_start(self.chars@, self.cursor as int),
    {
        self.chars.len() >= 3 && self.cursor <= self.chars.len() - 3 && self.chars[self.cursor]
            == 't' && self.chars[self.cursor + 1] == '!' && self.chars[self.cursor + 2] == '('
    }

    #[verifier::loop_isolation(false)]
    fn parse_macro(&mut self) -> (r: Result<(String, Vec<I18nString>), InvalidFormat>)
        requires
            old(self).wf(),
        ensures
            final(self).wf(),
            final(self).chars@ == old(self).chars@,
            match r {
                Ok(p) => parse_macro_spec(old(self).chars@, old(self).cursor as int) == Some(
                    (
                        I18nView::Template(p.0@, view_args(p.1@)),
                        final(self).cursor as int,
                    ),
                ) && old(self).cursor < final(self).cursor,
                Err(_) => parse_macro_spec(old(self).chars@, old(self).cursor as int) is None,
            },
        decreases old(self).chars@.len() - old(self).cursor, 1int,
    {
        let ghost s = self.chars@;
        let ghost c0 = self.cursor as int;
        proof {
            reveal_strlit("t!(");
            lemma_macro_start_subrange(s, c0);
        }
        match self.expect_str("t!(") {
            Ok(()) => {},
            Err(e) => {
                return Err(e);
            },
        }
        self.skip_whitespace();
        proof {
            lemma_skip_ws_bounds(s, c0 + 3);
        }
        let template = match self.parse_literal() {
            Ok(t) => t,
            Err(e) => {
                return Err(e);
            },
        };
        let ghost e_lit = self.cursor as int;
        let len = self.chars.len();
        let mut args: Vec<I18nString> = Vec::new();
        proof {
            assert(view_args(args@) == Seq::<I18nView>::empty());
            if parse_args_spec(s, e_lit) is Some {
                let (t, e) = parse_args_spec(s, e_lit)->Some_0;
                assert(Seq::<I18nView>::empty() + t =~= t);
            }
        }
        loop
            invariant
                self.wf(),
                self.chars@ == s,
                e_lit <= self.cursor as int <= len,
                c0 < e_lit,
                opt_args_prepend(view_args(args@), parse_args_spec(s, self.cursor as int))
                    == parse_args_spec(s, e_lit),
            decreases len - self.cursor,
        {
            let ghost c_iter = self.cursor as int;
            self.skip_whitespace();
            proof {
                lemma_skip_ws_bounds(s, c_iter);
            }
            let ghost k = self.cursor as int;
            if self.match_char(')') {
                return Ok((template, args));
            } else if self.match_char(',') {
                self.skip_whitespace();
                proof {
                    lemma_skip_ws_bounds(s, k + 1);
                }
                let ghost m = self.cursor as int;
                match self.parse() {
                    Ok(v) => {
                        proof {
                            crate::lemma_view_args_push(args@, v);
                            let rendered = view_args(args@);
                            let n = self.cursor as int;
                            if parse_args_spec(s, n) is Some {
                                let (rest, e) = parse_args_spec(s, n)->Some_0;
                                assert(parse_args_spec(s, c_iter) == Some(
                                    (seq![v@] + rest, e),
                                ));
                                assert(rendered + (seq![v@] + rest) =~= (rendered + seq![v@])
                                    + rest);
                            } else {
                                assert(parse_args_spec(s, c_iter) is None);
                            }
                        }
                        args.push(v);
                    },
                    Err(e) => {
                        return Err(e);
                    },
                }
            } else {
                return Err(InvalidFormat);
            }
        }
    }

    fn parse(&mut self) -> (r: Result<I18nString, InvalidFormat>)
        requires
            old(self).wf(),
        ensures
            final(self).wf(),
            final(self).chars@ == old(self).chars@,
            match r {
                Ok(v) => parse_value_spec(old(self).chars@, old(self).cursor as int) == Some(
                    (v@, final(self).cursor as int),
                ) && old(self).cursor < final(self).cursor,
                Err(_) => parse_value_spec(old(self).chars@, old(self).cursor as int) is None,
            },
        decreases old(self).chars@.len() - old(self).cursor, 2int,
    {
        let ghost s = self.chars@;
        let ghost c0 = self.cursor as int;
        if self.peek_char() == Some('\'') {
            match self.parse_literal() {
                Ok(text) => Ok(I18nString::Literal(text)),
                Err(e) => Err(e),
            }
        } else if self.at_macro_start() {
            match self.parse_macro() {
                Ok((template, args)) => Ok(I18nString::Template(template, args)),
                Err(e) => Err(e),
            }
        } else {
            Err(InvalidFormat)
        }
    }
}

/// Parses the textual encoding into a tree. Trailing characters after the
/// first complete value are deliberately ignored, mirroring the streaming
/// transformer's tolerance for surrounding free text.
pub fn parse(input: &str) -> (r: Result<I18nString, InvalidFormat>)
    ensures
        match r {
            Ok(v) => parse_spec(input@) == Some(v@),
            Err(_) => parse_spec(input@) is None,
        },
{
    let mut parser = Parser::new(input);
    parser.parse()
}

/// Prepends already-parsed argument views to the result of an
/// argument-list parse.
pub(crate) open spec fn opt_args_prepend(pre: Seq<I18nView>, o: Option<(Seq<I18nView>, int)>) -> Option<
    (Seq<I18nView>, int),
> {
    match o {
        Some((t, e)) => Some((pre + t, e)),
        None => None,
    }
}

/// `t!(` starts at `i` exactly when the three characters there spell it.
pub(crate) proof fn lemma_macro_start_subrange(s: Seq<char>, i: int)
    requires
        0 <= i,
    ensures
        is_macro_start(s, i) <==> (i + 3 <= s.len() && s.subrange(i, i + 3) == "t!("@),
{
    reveal_strlit("t!(");
    if i + 3 <= s.len() {
        let sub = s.subrange(i, i + 3);
        if is_macro_start(s, i) {
            assert(sub =~= "t!("@);
        }
        if sub == "t!("@ {
            assert(s[i] == sub[0] && s[i + 1] == sub[1] && s[i + 2] == sub[2]);
        }
    }
}

/// Prepends already-scanned content to the result of a literal scan.
pub(crate) open spec fn opt_prepend(pre: Seq<char>, o: Option<(Seq<char>, int)>) -> Option<
    (Seq<char>, int),
> {
    match o {
        Some((t, e)) => Some((pre + t, e)),
        None => None,
    }
}

proof fn lemma_opt_prepend_shift(pre: Seq<char>, mid: Seq<char>, o: Option<(Seq<char>, int)>)
    ensures
        opt_prepend(pre + mid, o) == opt_prepend(pre, opt_prepend(mid, o)),
{
    match o {
        Some((t, e)) => {
            assert((pre + mid) + t =~= pre + (mid + t));
        },
        None => {},
    }
}

} // verus!
