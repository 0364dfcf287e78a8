//! Streaming transformer: rewrites free text containing embedded
//! `t!(...)` occurrences into final text without building a tree. Text
//! outside macros is copied verbatim; each macro is parsed with the same
//! grammar as the tree parser, its body resolved, its arguments —
//! literals or nested macros — transformed eagerly to text, and the
//! placeholders substituted with the same tolerant state machine as the
//! tree translator. The first malformed macro fails the whole transform.

use vstd::prelude::*;

use crate::parse::{is_macro_start, parse_lit_spec, scan_lit, skip_ws_spec, lemma_skip_ws_bounds};
use crate::text::{push_char, str_to_chars};
use crate::translate::subst_spec;
use crate::{InvalidFormat, Resolver};

verus! {

/// The first position at or after `i` where `t!(` starts.
pub open spec fn find_macro_from(s: Seq<char>, i: int) -> Option<int>
    decreases s.len() - i,
{
    if i < 0 || i + 3 > s.len() {
        None
    } else if is_macro_start(s, i) {
        Some(i)
    } else {
        find_macro_from(s, i + 1)
    }
}

/// Transforms one `t!(...)` occurrence starting at `i`: the resolved body
/// with every in-range placeholder replaced by the transformed text of the
/// argument it names. The cursor-advance guards can never fail; they make
/// the recursion manifestly well-founded.
pub open spec fn tmacro_spec<R: Resolver>(s: Seq<char>, i: int, r: &R) -> Option<(Seq<char>, int)>
    decreases s.len() - i, 0int,
{
    if !is_macro_start(s, i) {
        None
    } else {
        let j = skip_ws_spec(s, i + 3);
        match parse_lit_spec(s, j) {
            Some((body, e)) => {
                if e <= i || e > s.len() {
                    None
                } else {
                    match targs_spec(s, e, r) {
                        Some((rendered, e2)) => Some(
                            (subst_spec(r.resolve_spec(body), rendered), e2),
                        ),
                        None => None,
                    }
                }
            },
            None => None,
        }
    }
}

/// Transforms one macro argument starting at `i`: a quoted literal gives
/// its unescaped content, a nested macro its transformed text; anything
/// else fails.
pub open spec fn targ_spec<R: Resolver>(s: Seq<char>, i: int, r: &R) -> Option<(Seq<char>, int)>
    decreases s.len() - i, 1int,
{
    if i < 0 || i >= s.len() {
        None
    } else if s[i] == '\'' {
        scan_lit(s, i + 1)
    } else if is_macro_start(s, i) {
        tmacro_spec(s, i, r)
    } else {
        None
    }
}

/// Transforms the argument-list tail of a macro from `i`: repeatedly
/// either the closing `)` or a `,` followed by one argument, with
/// whitespace skipped around both.
pub open spec fn targs_spec<R: Resolver>(s: Seq<char>, i: int, r: &R) -> Option<
    (Seq<Seq<char>>, int),
>
    decreases s.len() - i, 2int,
{
    let k = skip_ws_spec(s, i);
    if k < i || k >= s.len() {
        None
    } else if s[k] == ')' {
        Some((Seq::empty(), k + 1))
    } else if s[k] == ',' {
        let m = skip_ws_spec(s, k + 1);
        if m <= i || m > s.len() {
            None
        } else {
            match targ_spec(s, m, r) {
                Some((t, n)) => {
                    if n <= m || n > s.len() {
                        None
                    } else {
                        match targs_spec(s, n, r) {
                            Some((rest, e)) => Some((seq![t] + rest, e)),
                            None => None,
                        }
                    }
                },
                None => None,
            }
        }
    } else {
        None
    }
}

/// The transformed text of everything from `i` on: free text up to each
/// macro occurrence is kept verbatim, each macro is rewritten.
pub open spec fn transform_from<R: Resolver>(s: Seq<char>, i: int, r: &R) -> Option<Seq<char>>
    decreases s.len() - i,
{
    if i < 0 || i > s.len() {
        None
    } else {
        match find_macro_from(s, i) {
            None => Some(s.subrange(i, s.len() as int)),
            Some(j) => {
                if j < i || j > s.len() {
                    None
                } else {
                    match tmacro_spec(s, j, r) {
                        Some((txt, e)) => {
                            if e <= j || e > s.len() {
                                None
                            } else {
                                match transform_from(s, e, r) {
                                    Some(rest) => Some(s.subrange(i, j) + txt + rest),
                                    None => None,
                                }
                            }
                        },
                        None => None,
                    }
                }
            },
        }
    }
}

/// The transform of a whole input.
pub open spec fn transform_spec<R: Resolver>(s: Seq<char>, r: &R) -> Option<Seq<char>> {
    transform_from(s, 0, r)
}

/// Where no `t!` pair occurs at all, no macro start occurs either.
proof fn lemma_no_tbang_no_macro(s: Seq<char>, i: int)
    requires
        forall|j: int| 0 <= j && j + 1 < s.len() ==> !((#[trigger] s[j]) == 't' && s[j + 1] == '!'),
        0 <= i,
    ensures
        find_macro_from(s, i) is None,
    decreases s.len() - i,
{
    if i + 3 <= s.len() {
        lemma_no_tbang_no_macro(s, i + 1);
    }
}

/// Text without the substring `t!` is transformed to itself, whatever the
/// resolver.
pub proof fn lemma_transform_no_macro<R: Resolver>(s: Seq<char>, r: &R)
    requires
        forall|j: int| 0 <= j && j + 1 < s.len() ==> !((#[trigger] s[j]) == 't' && s[j + 1] == '!'),
    ensures
        transform_spec(s, r) == Some(s),
{
    lemma_no_tbang_no_macro(s, 0);
    assert(s.subrange(0, s.len() as int) =~= s);
}

/// Where the tree parser reads a macro, the transformer rewrites it to
/// exactly the translation of the parsed tree — and both fail together.
proof fn lemma_tmacro_is_translate<R: Resolver>(s: Seq<char>, i: int, r: &R)
    ensures
        match crate::parse::parse_macro_spec(s, i) {
            Some((v, e)) => tmacro_spec(s, i, r) == Some(
                (crate::translate::translate_spec(v, r), e),
            ),
            None => tmacro_spec(s, i, r) is None,
        },
    decreases s.len() - i, 0int,
{
    if is_macro_start(s, i) {
        let j = skip_ws_spec(s, i + 3);
        match parse_lit_spec(s, j) {
            Some((body, e)) => {
                if e <= i || e > s.len() {
                } else {
                    lemma_targs_is_rendered(s, e, r);
                }
            },
            None => {},
        }
    }
}

/// Where the tree parser reads a value, the transformer's argument text is
/// exactly the translation of the parsed tree — and both fail together.
proof fn lemma_targ_is_translate<R: Resolver>(s: Seq<char>, i: int, r: &R)
    ensures
        match crate::parse::parse_value_spec(s, i) {
            Some((v, e)) => targ_spec(s, i, r) == Some(
                (crate::translate::translate_spec(v, r), e),
            ),
            None => targ_spec(s, i, r) is None,
        },
    decreases s.len() - i, 1int,
{
    if 0 <= i < s.len() {
        if s[i] == '\'' {
        } else if is_macro_start(s, i) {
            lemma_tmacro_is_translate(s, i, r);
        }
    }
}

/// Where the tree parser reads an argument list, the transformer's
/// argument texts are exactly the rendered translations of the parsed
/// trees — and both fail together.
proof fn lemma_targs_is_rendered<R: Resolver>(s: Seq<char>, i: int, r: &R)
    ensures
        match crate::parse::parse_args_spec(s, i) {
            Some((views, e)) => targs_spec(s, i, r) == Some(
                (crate::translate::rendered_args(views, r), e),
            ),
            None => targs_spec(s, i, r) is None,
        },
    decreases s.len() - i, 2int,
{
    let k = skip_ws_spec(s, i);
    if k < i || k >= s.len() {
    } else if s[k] == ')' {
        assert(crate::translate::rendered_args(Seq::<crate::I18nView>::empty(), r)
            == Seq::<Seq<char>>::empty());
    } else if s[k] == ',' {
        let m = skip_ws_spec(s, k + 1);
        if m <= i || m > s.len() {
        } else {
            lemma_targ_is_translate(s, m, r);
            match crate::parse::parse_value_spec(s, m) {
                Some((v, n)) => {
                    if n <= m || n > s.len() {
                    } else {
                        lemma_targs_is_rendered(s, n, r);
                        match crate::parse::parse_args_spec(s, n) {
                            Some((rest, e)) => {
                                let all = seq![v] + rest;
                                assert(all[0] == v);
                                assert(all.drop_first() =~= rest);
                                assert(crate::translate::rendered_args(all, r)
                                    == seq![crate::translate::translate_spec(v, r)]
                                    + crate::translate::rendered_args(rest, r));
                            },
                            None => {},
                        }
                    }
                },
                None => {},
            }
        }
    }
}

/// The two evaluation paths agree: streaming transformation of the
/// canonical text of a template produces exactly the tree translation of
/// that template, under any resolver.
pub proof fn lemma_transform_matches_translate<R: Resolver>(v: crate::I18nView, r: &R)
    requires
        v is Template,
    ensures
        transform_spec(crate::format::format_spec(v), r) == Some(
            crate::translate::translate_spec(v, r),
        ),
{
    let s = crate::format::format_spec(v);
    let len = s.len() as int;
    match v {
        crate::I18nView::Literal(_) => {},
        crate::I18nView::Template(body, args) => {
            assert(s[0] == 't' && s[1] == '!' && s[2] == '(');
            assert(is_macro_start(s, 0));
        },
    }
    assert(s.subrange(0, len) =~= s);
    crate::format::lemma_parse_format_at(s, 0, v);
    assert(crate::parse::parse_value_spec(s, 0) == Some((v, len)));
    assert(crate::parse::parse_macro_spec(s, 0) == Some((v, len)));
    lemma_tmacro_is_translate(s, 0, r);
    let txt = crate::translate::translate_spec(v, r);
    assert(tmacro_spec(s, 0, r) == Some((txt, len)));
    assert(find_macro_from(s, 0) == Some(0int));
    assert(find_macro_from(s, len) is None);
    assert(s.subrange(len, len) =~= Seq::<char>::empty());
    assert(transform_from(s, len, r) == Some(Seq::<char>::empty()));
    assert(s.subrange(0, 0) =~= Seq::<char>::empty());
    assert(s.subrange(0, 0) + txt + Seq::<char>::empty() =~= txt);
}

/// Prepends already-transformed argument texts to the result of an
/// argument-list transform.
pub(crate) open spec fn opt_texts_prepend(pre: Seq<Seq<char>>, o: Option<(Seq<Seq<char>>, int)>) -> Option<
    (Seq<Seq<char>>, int),
> {
    match o {
        Some((t, e)) => Some((pre + t, e)),
        None => None,
    }
}

struct Transformer {
    chars: Vec<char>,
    cursor: usize,
}

impl Transformer {
    spec fn wf(&self) -> bool {
        self.cursor <= self.chars@.len()
    }

    fn new(input: &str) -> (t: Transformer)
        ensures
            t.wf(),
            t.chars@ == input@,
            t.cursor == 0,
    {
        Transformer { chars: str_to_chars(input), cursor: 0 }
    }

    fn peek_char(&self) -> (r: Option<char>)
        requires
            self.wf(),
        ensures
            self.cursor < self.chars@.len() ==> r == Some(self.chars@[self.cursor as int]),
            self.cursor == self.chars@.len() ==> r is None,
    {
        if self.cursor < self.chars.len() {
            Some(self.chars[self.cursor])
        } else {
            None
        }
    }

    fn skip_whitespace(&mut self)
        requires
            old(self).wf(),
        ensures
            final(self).wf(),
            final(self).chars@ == old(self).chars@,
            final(self).cursor as int == skip_ws_spec(old(self).chars@, old(self).cursor as int),
    {
        let ghost s = self.chars@;
        let ghost c0 = self.cursor as int;
        while self.cursor < self.chars.len() && crate::text::is_ws(self.chars[self.cursor])
            invariant
                self.chars@ == s,
                self.cursor <= s.len(),
                skip_ws_spec(s, self.cursor as int) == skip_ws_spec(s, c0),
            decreases s.len() - self.cursor,
        {
            self.cursor = self.cursor + 1;
        }
    }

    fn match_char(&mut self, target: char) -> (r: bool)
        requires
            old(self).wf(),
        ensures
            final(self).wf(),
            final(self).chars@ == old(self).chars@,
            r == (old(self).cursor < old(self).chars@.len() && old(self).chars@[old(
                self,
            ).cursor as int] == target),
            r ==> final(self).cursor == old(self).cursor + 1,
            !r ==> final(self).cursor == old(self).cursor,
    {
        if self.cursor < self.chars.len() && self.chars[self.cursor] == target {
            self.cursor = self.cursor + 1;
            true
        } else {
            false
        }
    }

    fn expect_char(&mut self, target: char) -> (r: Result<(), InvalidFormat>)
        requires
            old(self).wf(),
        ensures
            final(self).wf(),
            final(self).chars@ == old(self).chars@,
            r is Ok <==> (old(self).cursor < old(self).chars@.len() && old(self).chars@[old(
                self,
            ).cursor as int] == target),
            r is Ok ==> final(self).cursor == old(self).cursor + 1,
            r is Err ==> final(self).cursor == old(self).cursor,
    {
        if self.match_char(target) {
            Ok(())
        } else {
            Err(InvalidFormat)
        }
    }

    fn at_macro_start(&self) -> (r: bool)
        requires
            self.wf(),
        ensures
            r == is_macro_start(self.chars@, self.cursor as int),
    {
        self.chars.len() >= 3 && self.cursor <= self.chars.len() - 3 && self.chars[self.cursor]
            == 't' && self.chars[self.cursor + 1] == '!' && self.chars[self.cursor + 2] == '('
    }

    fn expect_str(&mut self, target: &str) -> (r: Result<(), InvalidFormat>)
        requires
            old(self).wf(),
        ensures
            final(self).wf(),
            final(self).chars@ == old(self).chars@,
            r is Ok <==> (old(self).cursor + target@.len() <= old(self).chars@.len() && old(
                self,
            ).chars@.subrange(
                old(self).cursor as int,
                old(self).cursor as int + target@.len(),
            ) == target@),
            r is Ok ==> final(self).cursor == old(self).cursor + target@.len(),
            r is Err ==> final(self).cursor == old(self).cursor,
    {
        let n = target.unicode_len();
        let len = self.chars.len();
        if n > len - self.cursor {
            return Err(InvalidFormat);
        }
        let ghost s = self.chars@;
        let ghost c0 = self.cursor as int;
        let mut k: usize = 0;
        while k < n
            invariant
                self.chars@ == s,
                self.cursor == c0,
                len == s.len(),
                c0 + n <= len,
                n == target@.len(),
                k <= n,
                s.subrange(c0, c0 + k as int) == target@.subrange(0, k as int),
            decreases n - k,
        {
            if self.chars[self.cursor + k] != target.get_char(k) {
                return Err(InvalidFormat);
            }
            k = k + 1;
            proof {
                assert(s.subrange(c0, c0 + k as int) =~= target@.subrange(0, k as int));
            }
        }
        proof {
            assert(s.subrange(c0, c0 + n as int) =~= target@.subrange(0, n as int));
            assert(target@.subrange(0, n as int) =~= target@);
        }
        self.cursor = self.cursor + n;
        Ok(())
    }

    /// Scans a quoted literal and returns its unescaped content.
    #[verifier::loop_isolation(false)]
    fn parse_string_literal(&mut self) -> (r: Result<String, InvalidFormat>)
        requires
            old(self).wf(),
        ensures
            final(self).wf(),
            final(self).chars@ == old(self).chars@,
            match r {
                Ok(t) => parse_lit_spec(old(self).chars@, old(self).cursor as int) == Some(
                    (t@, final(self).cursor as int),
                ) && old(self).cursor < final(self).cursor,
                Err(_) => parse_lit_spec(old(self).chars@, old(self).cursor as int) is None,
            },
    {
        let ghost s = self.chars@;
        let ghost c0 = self.cursor as int;
        match self.expect_char('\'') {
            Ok(()) => {},
            Err(e) => {
                return Err(e);
            },
        }
        let ghost p0 = self.cursor as int;
        let len = self.chars.len();
        let mut out = String::new();
        let mut escaping = false;
        loop
            invariant
                self.wf(),
                self.chars@ == s,
                len == s.len(),
                p0 <= self.cursor as int <= len,
                (!escaping ==> crate::parse::opt_prepend(out@, scan_lit(s, self.cursor as int))
                    == scan_lit(s, p0)),
                (escaping ==> crate::parse::opt_prepend(
                    out@,
                    crate::parse::scan_lit_esc(s, self.cursor as int),
                ) == scan_lit(s, p0)),
            decreases 2 * (len - self.cursor) + if escaping {
                0int
            } else {
                1int
            },
        {
            if self.cursor >= len {
                return Err(InvalidFormat);
            }
            let c = self.chars[self.cursor];
            let ghost cur = self.cursor as int;
            let ghost out0 = out@;
            self.cursor = self.cursor + 1;
            if escaping {
                escaping = false;
                let u = if c == 'n' {
                    '\n'
                } else if c == 't' {
                    '\t'
                } else {
                    c
                };
                push_char(&mut out, u);
                proof {
                    assert(u == crate::escape::unescape_char(c));
                    assert(out@ =~= out0 + seq![u]);
                    if scan_lit(s, cur + 1) is Some {
                        let (t, e) = scan_lit(s, cur + 1)->Some_0;
                        assert(out0 + (seq![u] + t) =~= out@ + t);
                    }
                }
            } else {
                if c == '\'' {
                    proof {
                        assert(scan_lit(s, cur) == Some((Seq::<char>::empty(), cur + 1)));
                        assert(out0 + Seq::<char>::empty() =~= out0);
                    }
                    return Ok(out);
                } else if c == '\\' {
                    escaping = true;
                    proof {
                        assert(scan_lit(s, cur) == crate::parse::scan_lit_esc(s, cur + 1));
                    }
                } else {
                    push_char(&mut out, c);
                    proof {
                        assert(out@ =~= out0 + seq![c]);
                        if scan_lit(s, cur + 1) is Some {
                            let (t, e) = scan_lit(s, cur + 1)->Some_0;
                            assert(out0 + (seq![c] + t) =~= out@ + t);
                        }
                    }
                }
            }
        }
    }

    /// Substitutes placeholders in a resolved body against the already
    /// transformed argument texts, with the same tolerant state machine as
    /// the tree translator.
    #[verifier::loop_isolation(false)]
    fn format_message(&self, template: String, args: &Vec<String>) -> (r: String)
        ensures
            r@ == subst_spec(template@, args.deep_view()),
    {
        let ghost rendered = args.deep_view();
        let cs = str_to_chars(template.as_str());
        let n = cs.len();
        let mut output = String::new();
        let mut st = crate::translate::SubstState::Normal;
        let mut i: usize = 0;
        proof {
            assert(Seq::<char>::empty() + subst_spec(cs@, rendered) =~= subst_spec(cs@, rendered));
        }
        while i < n
            invariant
                i <= n,
                (st matches crate::translate::SubstState::OpenBrace(pos) ==> pos < i),
                output@ + crate::translate::subst_tail(cs@, rendered, i as int, st) == subst_spec(
                    cs@,
                    rendered,
                ),
            decreases n - i,
        {
            let c = cs[i];
            let ghost out0 = output@;
            let ghost st0 = st;
            match st {
                crate::translate::SubstState::Normal => {
                    if c == '{' {
                        st = crate::translate::SubstState::OpenBrace(i);
                    } else if c == '}' {
                        st = crate::translate::SubstState::CloseBrace;
                    } else {
                        push_char(&mut output, c);
                        proof {
                            assert(out0 + (seq![c] + crate::translate::subst_tail(
                                cs@,
                                rendered,
                                i as int + 1,
                                st,
                            )) =~= output@ + crate::translate::subst_tail(
                                cs@,
                                rendered,
                                i as int + 1,
                                st,
                            ));
                        }
                    }
                },
                crate::translate::SubstState::OpenBrace(pos) => {
                    if c == '}' {
                        let ghost idx = cs@.subrange(pos as int + 1, i as int);
                        st = crate::translate::SubstState::Normal;
                        match crate::text::parse_index(&cs, pos + 1, i, args.len()) {
                            Some(k) => {
                                output.append(args[k].as_str());
                                proof {
                                    assert(rendered[k as int] == args@[k as int]@);
                                    assert(out0 + (rendered[k as int]
                                        + crate::translate::subst_tail(
                                        cs@,
                                        rendered,
                                        i as int + 1,
                                        st,
                                    )) =~= output@ + crate::translate::subst_tail(
                                        cs@,
                                        rendered,
                                        i as int + 1,
                                        st,
                                    ));
                                }
                            },
                            None => {
                                push_char(&mut output, '{');
                                crate::text::push_range(&mut output, &cs, pos + 1, i);
                                push_char(&mut output, '}');
                                proof {
                                    assert(output@ =~= out0 + seq!['{'] + idx + seq!['}']);
                                    assert(out0 + (seq!['{'] + idx + seq!['}']
                                        + crate::translate::subst_tail(
                                        cs@,
                                        rendered,
                                        i as int + 1,
                                        st,
                                    )) =~= output@ + crate::translate::subst_tail(
                                        cs@,
                                        rendered,
                                        i as int + 1,
                                        st,
                                    ));
                                }
                            },
                        }
                    } else if c == '{' {
                        push_char(&mut output, '{');
                        st = crate::translate::SubstState::Normal;
                        proof {
                            assert(out0 + (seq!['{'] + crate::translate::subst_tail(
                                cs@,
                                rendered,
                                i as int + 1,
                                st,
                            )) =~= output@ + crate::translate::subst_tail(
                                cs@,
                                rendered,
                                i as int + 1,
                                st,
                            ));
                        }
                    } else {
                        proof {
                            assert(crate::translate::subst_tail(cs@, rendered, i as int, st0)
                                == crate::translate::subst_tail(cs@, rendered, i as int + 1, st));
                        }
                    }
                },
                crate::translate::SubstState::CloseBrace => {
                    if c == '}' {
                        push_char(&mut output, '}');
                        st = crate::translate::SubstState::Normal;
                        proof {
                            assert(out0 + (seq!['}'] + crate::translate::subst_tail(
                                cs@,
                                rendered,
                                i as int + 1,
                                st,
                            )) =~= output@ + crate::translate::subst_tail(
                                cs@,
                                rendered,
                                i as int + 1,
                                st,
                            ));
                        }
                    } else {
                        push_char(&mut output, '}');
                        push_char(&mut output, c);
                        st = crate::translate::SubstState::Normal;
                        proof {
                            assert(out0 + (seq!['}', c] + crate::translate::subst_tail(
                                cs@,
                                rendered,
                                i as int + 1,
                                st,
                            )) =~= output@ + crate::translate::subst_tail(
                                cs@,
                                rendered,
                                i as int + 1,
                                st,
                            ));
                        }
                    }
                },
            }
            i = i + 1;
        }
        match st {
            crate::translate::SubstState::Normal => {},
            crate::translate::SubstState::OpenBrace(pos) => {
                push_char(&mut output, '{');
                crate::text::push_range(&mut output, &cs, pos + 1, n);
            },
            crate::translate::SubstState::CloseBrace => {
                push_char(&mut output, '}');
            },
        }
        proof {
            assert(output@ =~= subst_spec(cs@, rendered));
        }
        output
    }

    /// Transforms one macro argument: a quoted literal or a nested macro.
    fn parse_arg<R: Resolver>(&mut self, resolver: &R) -> (r: Result<String, InvalidFormat>)
        requires
            old(self).wf(),
        ensures
            final(self).wf(),
            final(self).chars@ == old(self).chars@,
            match r {
                Ok(t) => targ_spec(old(self).chars@, old(self).cursor as int, resolver) == Some(
                    (t@, final(self).cursor as int),
                ) && old(self).cursor < final(self).cursor,
                Err(_) => targ_spec(old(self).chars@, old(self).cursor as int, resolver) is None,
            },
        decreases old(self).chars@.len() - old(self).cursor, 1int,
    {
        if self.peek_char() == Some('\'') {
            self.parse_string_literal()
        } else if self.at_macro_start() {
            self.parse_macro(resolver)
        } else {
            Err(InvalidFormat)
        }
    }

    /// Transforms one `t!(...)` occurrence at the cursor: parses the body,
    /// resolves it, transforms each argument, and substitutes.
    #[verifier::loop_isolation(false)]
    fn parse_macro<R: Resolver>(&mut self, resolver: &R) -> (r: Result<String, InvalidFormat>)
        requires
            old(self).wf(),
        ensures
            final(self).wf(),
            final(self).chars@ == old(self).chars@,
            match r {
                Ok(t) => tmacro_spec(old(self).chars@, old(self).cursor as int, resolver) == Some(
                    (t@, final(self).cursor as int),
                ) && old(self).cursor < final(self).cursor,
                Err(_) => tmacro_spec(old(self).chars@, old(self).cursor as int, resolver) is None,
            },
        decreases old(self).chars@.len() - old(self).cursor, 0int,
    {
        let ghost s = self.chars@;
        let ghost c0 = self.cursor as int;
        proof {
            reveal_strlit("t!(");
            crate::parse::lemma_macro_start_subrange(s, c0);
        }
        match self.expect_str("t!(") {
            Ok(()) => {},
            Err(e) => {
                return Err(e);
            },
        }
        self.skip_whitespace();
        proof {
            lemma_skip_ws_bounds(s, c0 + 3);
        }
        let template = match self.parse_string_literal() {
            Ok(t) => t,
            Err(e) => {
                return Err(e);
            },
        };
        let resolved = resolver.resolve(template.as_str());
        let ghost e_lit = self.cursor as int;
        let len = self.chars.len();
        let mut args: Vec<String> = Vec::new();
        proof {
            assert(args.deep_view() =~= Seq::<Seq<char>>::empty());
            if targs_spec(s, e_lit, resolver) is Some {
                let (t, e) = targs_spec(s, e_lit, resolver)->Some_0;
                assert(Seq::<Seq<char>>::empty() + t =~= t);
            }
        }
        loop
            invariant
                self.wf(),
                self.chars@ == s,
                e_lit <= self.cursor as int <= len,
                c0 < e_lit,
                len == s.len(),
                opt_texts_prepend(args.deep_view(), targs_spec(s, self.cursor as int, resolver))
                    == targs_spec(s, e_lit, resolver),
            decreases len - self.cursor,
        {
            let ghost c_iter = self.cursor as int;
            self.skip_whitespace();
            proof {
                lemma_skip_ws_bounds(s, c_iter);
            }
            let ghost k = self.cursor as int;
            if self.match_char(')') {
                return Ok(self.format_message(resolved, &args));
            } else if self.match_char(',') {
                self.skip_whitespace();
                proof {
                    lemma_skip_ws_bounds(s, k + 1);
                }
                let ghost m = self.cursor as int;
                match self.parse_arg(resolver) {
                    Ok(v) => {
                        let ghost pre = args.deep_view();
                        let ghost oldv = args@;
                        let ghost vv = v@;
                        args.push(v);
                        proof {
                            let n = self.cursor as int;
                            assert forall|x: int| 0 <= x < args@.len() implies args.deep_view()[x]
                                == (pre + seq![vv])[x] by {
                                if x < oldv.len() {
                                    assert(args@[x] == oldv[x]);
                                    assert(pre[x] == oldv[x]@);
                                }
                            }
                            assert(args.deep_view() =~= pre + seq![vv]);
                            if targs_spec(s, n, resolver) is Some {
                                let (rest, e) = targs_spec(s, n, resolver)->Some_0;
                                assert(targs_spec(s, c_iter, resolver) == Some(
                                    (seq![vv] + rest, e),
                                ));
                                assert(pre + (seq![vv] + rest) =~= (pre + seq![vv]) + rest);
                            } else {
                                assert(targs_spec(s, c_iter, resolver) is None);
                            }
                        }
                    },
                    Err(e) => {
                        return Err(e);
                    },
                }
            } else {
                return Err(InvalidFormat);
            }
        }
    }

    /// The next `t!(` occurrence at or after the cursor.
    #[verifier::loop_isolation(false)]
    fn find_macro(&self) -> (r: Option<usize>)
        requires
            self.wf(),
        ensures
            match r {
                Some(j) => find_macro_from(self.chars@, self.cursor as int) == Some(j as int)
                    && self.cursor <= j && j + 3 <= self.chars@.len(),
                None => find_macro_from(self.chars@, self.cursor as int) is None,
            },
    {
        let ghost s = self.chars@;
        let ghost c0 = self.cursor as int;
        let len = self.chars.len();
        let mut j: usize = self.cursor;
        if len < 3 || j > len - 3 {
            return None;
        }
        while j <= len - 3
            invariant
                c0 <= j as int,
                j <= len - 2,
                find_macro_from(s, c0) == find_macro_from(s, j as int),
            decreases len - j,
        {
            if self.chars[j] == 't' && self.chars[j + 1] == '!' && self.chars[j + 2] == '(' {
                return Some(j);
            }
            j = j + 1;
        }
        None
    }

    /// Transforms everything from the cursor on: free text is copied
    /// verbatim, each macro occurrence is rewritten.
    #[verifier::loop_isolation(false)]
    fn transform<R: Resolver>(self, resolver: &R) -> (r: Result<String, InvalidFormat>)
        requires
            self.wf(),
        ensures
            match r {
                Ok(t) => transform_from(self.chars@, self.cursor as int, resolver) == Some(t@),
                Err(_) => transform_from(self.chars@, self.cursor as int, resolver) is None,
            },
    {
        let mut this = self;
        let ghost s = this.chars@;
        let ghost c0 = this.cursor as int;
        let len = this.chars.len();
        let mut result = String::new();
        proof {
            if transform_from(s, c0, resolver) is Some {
                let t = transform_from(s, c0, resolver)->Some_0;
                assert(Seq::<char>::empty() + t =~= t);
            }
        }
        loop
            invariant
                self.wf(),
                this.chars@ == s,
                c0 <= this.cursor as int <= len,
                len == s.len(),
                (match transform_from(s, this.cursor as int, resolver) {
                    Some(rest) => transform_from(s, c0, resolver) == Some(result@ + rest),
                    None => transform_from(s, c0, resolver) is None,
                }),
            decreases len - this.cursor,
        {
            let ghost c_iter = this.cursor as int;
            let ghost res0 = result@;
            match this.find_macro() {
                None => {
                    crate::text::push_range(&mut result, &this.chars, this.cursor, len);
                    proof {
                        assert(transform_from(s, c_iter, resolver) == Some(
                            s.subrange(c_iter, len as int),
                        ));
                        assert(result@ =~= res0 + s.subrange(c_iter, len as int));
                    }
                    return Ok(result);
                },
                Some(j) => {
                    crate::text::push_range(&mut result, &this.chars, this.cursor, j);
                    this.cursor = j;
                    match this.parse_macro(resolver) {
                        Ok(txt) => {
                            result.append(txt.as_str());
                            proof {
                                let e = this.cursor as int;
                                if transform_from(s, e, resolver) is Some {
                                    let rest = transform_from(s, e, resolver)->Some_0;
                                    assert(transform_from(s, c_iter, resolver) == Some(
                                        s.subrange(c_iter, j as int) + txt@ + rest,
                                    ));
                                    assert(res0 + (s.subrange(c_iter, j as int) + txt@ + rest)
                                        =~= result@ + rest);
                                } else {
                                    assert(transform_from(s, c_iter, resolver) is None);
                                }
                            }
                        },
                        Err(e) => {
                            proof {
                                assert(transform_from(s, c_iter, resolver) is None);
                            }
                            return Err(e);
                        },
                    }
                },
            }
        }
    }
}

/// Whether the two-character substring `t!` occurs anywhere.
#[verifier::loop_isolation(false)]
fn has_tbang(cs: &Vec<char>) -> (r: bool)
    ensures
        !r ==> forall|j: int|
            0 <= j && j + 1 < cs@.len() ==> !((#[trigger] cs@[j]) == 't' && cs@[j + 1] == '!'),
{
    let len = cs.len();
    if len < 2 {
        return false;
    }
    let mut i: usize = 0;
    while i + 1 < len
        invariant
            i <= len - 1,
            forall|j: int| 0 <= j < i ==> !((#[trigger] cs@[j]) == 't' && cs@[j + 1] == '!'),
        decreases len - i,
    {
        if cs[i] == 't' && cs[i + 1] == '!' {
            return true;
        }
        i = i + 1;
    }
    false
}

/// Rewrites every embedded `t!(...)` occurrence in the input into its
/// final text, leaving the surrounding free text untouched. Input without
/// the substring `t!` is returned unchanged at once. The first malformed
/// macro fails the whole transform with `InvalidFormat`.
pub fn transform<R: Resolver>(input: &str, resolver: &R) -> (r: Result<String, InvalidFormat>)
    ensures
        match r {
            Ok(t) => transform_spec(input@, resolver) == Some(t@),
            Err(_) => transform_spec(input@, resolver) is None,
        },
{
    let cs = str_to_chars(input);
    if !has_tbang(&cs) {
        proof {
            lemma_transform_no_macro(input@, resolver);
        }
        return Ok(input.to_owned());
    }
    Transformer::new(input).transform(resolver)
}

} // verus!
