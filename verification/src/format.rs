//! Formatter: serializes a tree back to the textual encoding, always in
//! canonical form — literals as `'...'` with escaping applied, templates as
//! `t!('body',arg0,arg1,...)` with no space after commas and no trailing
//! comma. The formatter is the exact syntactic inverse of the parser.

use vstd::prelude::*;

use crate::escape::{escape, escape_char, escape_spec, unescape_char};
use crate::text::push_char;
use crate::{I18nString, I18nView, lemma_view_args_index, view_args};

verus! {

/// The canonical text of a tree.
pub open spec fn format_spec(v: I18nView) -> Seq<char>
    decreases v,
{
    match v {
        I18nView::Literal(s) => seq!['\''] + escape_spec(s) + seq!['\''],
        I18nView::Template(body, args) => seq!['t', '!', '(', '\''] + escape_spec(body)
            + seq!['\''] + format_args_spec(args) + seq![')'],
    }
}

/// The canonical text of an argument list: `,arg` for each argument.
pub open spec fn format_args_spec(args: Seq<I18nView>) -> Seq<char>
    decreases args,
{
    if args.len() == 0 {
        Seq::empty()
    } else {
        seq![','] + format_spec(args[0]) + format_args_spec(args.drop_first())
    }
}

/// One character of a stretch of text known to equal `t`.
proof fn lemma_known_index(s: Seq<char>, i: int, t: Seq<char>, k: int)
    requires
        0 <= i,
        i + t.len() <= s.len(),
        s.subrange(i, i + t.len()) == t,
        0 <= k < t.len(),
    ensures
        s[i + k] == t[k],
{
    assert(s.subrange(i, i + t.len())[k] == s[i + k]);
}

/// A sub-stretch of a stretch of text known to equal `t`.
proof fn lemma_known_subrange(s: Seq<char>, i: int, t: Seq<char>, a: int, b: int)
    requires
        0 <= i,
        i + t.len() <= s.len(),
        s.subrange(i, i + t.len()) == t,
        0 <= a <= b <= t.len(),
    ensures
        s.subrange(i + a, i + b) == t.subrange(a, b),
{
    assert forall|k: int| 0 <= k < b - a implies s.subrange(i + a, i + b)[k] == t.subrange(
        a,
        b,
    )[k] by {
        assert(s.subrange(i, i + t.len())[a + k] == s[i + (a + k)]);
        assert(s.subrange(i + a, i + b)[k] == s[(i + a) + k]);
        assert(s[(i + a) + k] == s[i + (a + k)]);
        assert(t.subrange(a, b)[k] == t[a + k]);
    }
    assert(s.subrange(i + a, i + b) =~= t.subrange(a, b));
}

/// Scanning a literal body that was written by the escaper, up to the
/// closing quote, recovers the body that was escaped, exactly.
proof fn lemma_scan_escaped(s: Seq<char>, i: int, body: Seq<char>)
    requires
        0 <= i,
        i + escape_spec(body).len() + 1 <= s.len(),
        s.subrange(i, i + escape_spec(body).len()) == escape_spec(body),
        s[i + escape_spec(body).len()] == '\'',
    ensures
        crate::parse::scan_lit(s, i) == Some((body, i + escape_spec(body).len() + 1)),
    decreases body.len(),
{
    let e = escape_spec(body);
    if body.len() == 0 {
        assert(s[i] == '\'');
        assert(body =~= Seq::<char>::empty());
    } else {
        let c = body[0];
        let rest = body.drop_first();
        let ec = escape_char(c);
        let er = escape_spec(rest);
        assert(e == ec + er);
        if c == '\'' || c == '\\' || c == '\n' || c == '\t' {
            assert(ec.len() == 2 && ec[0] == '\\');
            lemma_known_index(s, i, e, 0);
            lemma_known_index(s, i, e, 1);
            assert(s[i] == '\\');
            assert(s[i + 1] == ec[1]);
            assert(unescape_char(ec[1]) == c);
            lemma_known_subrange(s, i, e, 2, e.len() as int);
            assert(e.subrange(2, e.len() as int) =~= er);
            assert(i + 2 + er.len() == i + e.len());
            lemma_scan_escaped(s, i + 2, rest);
            assert(crate::parse::scan_lit_esc(s, i + 1) == Some(
                (seq![unescape_char(s[i + 1])] + rest, i + 2 + er.len() + 1),
            ));
            assert(seq![unescape_char(s[i + 1])] + rest =~= body);
            assert(crate::parse::scan_lit(s, i) == Some((body, i + e.len() + 1)));
        } else {
            assert(ec =~= seq![c]);
            lemma_known_index(s, i, e, 0);
            assert(s[i] == c);
            assert(c != '\'' && c != '\\');
            lemma_known_subrange(s, i, e, 1, e.len() as int);
            assert(e.subrange(1, e.len() as int) =~= er);
            assert(s[i + 1 + er.len()] == '\'');
            lemma_scan_escaped(s, i + 1, rest);
            assert(crate::parse::scan_lit(s, i + 1) == Some((rest, i + 1 + er.len() + 1)));
            assert(seq![s[i]] + rest =~= body);
            assert(crate::parse::scan_lit(s, i) == Some((body, i + e.len() + 1)));
        }
    }
}

/// The first character of a formatted value: a quote or a `t`. Neither is
/// whitespace, so the parser\'s whitespace skipping stops right there.
proof fn lemma_format_first_char(v: I18nView)
    ensures
        format_spec(v).len() >= 2,
        format_spec(v)[0] == '\'' || format_spec(v)[0] == 't',
{
    match v {
        I18nView::Literal(s) => {},
        I18nView::Template(body, args) => {},
    }
}

/// Parsing a formatted value embedded in surrounding text yields the value
/// back and stops right after it.
pub(crate) proof fn lemma_parse_format_at(s: Seq<char>, i: int, v: I18nView)
    requires
        0 <= i,
        i + format_spec(v).len() <= s.len(),
        s.subrange(i, i + format_spec(v).len()) == format_spec(v),
    ensures
        crate::parse::parse_value_spec(s, i) == Some((v, i + format_spec(v).len())),
    decreases crate::translate::tree_size(v), 0int, 0int,
{
    let f = format_spec(v);
    match v {
        I18nView::Literal(text) => {
            let eb = escape_spec(text);
            assert(f == seq!['\''] + eb + seq!['\'']);
            lemma_known_index(s, i, f, 0);
            assert(s[i] == '\'');
            lemma_known_subrange(s, i, f, 1, 1 + eb.len() as int);
            assert(f.subrange(1, 1 + eb.len() as int) =~= eb);
            lemma_known_index(s, i, f, 1 + eb.len() as int);
            assert(f[1 + eb.len() as int] == '\'');
            assert(s[(i + 1) + eb.len()] == s[i + (1 + eb.len())]);
            lemma_scan_escaped(s, i + 1, text);
            assert(crate::parse::parse_value_spec(s, i) == Some((v, i + f.len())));
        },
        I18nView::Template(body, args) => {
            let eb = escape_spec(body);
            let fa = format_args_spec(args);
            let head = seq!['t', '!', '(', '\''];
            assert(f == head + eb + seq!['\''] + fa + seq![')']);
            lemma_known_index(s, i, f, 0);
            lemma_known_index(s, i, f, 1);
            lemma_known_index(s, i, f, 2);
            lemma_known_index(s, i, f, 3);
            assert(s[i] == 't' && s[i + 1] == '!' && s[i + 2] == '(' && s[i + 3] == '\'');
            assert(crate::parse::is_macro_start(s, i));
            assert(!crate::text::is_ws_char('\''));
            assert(crate::parse::skip_ws_spec(s, i + 3) == i + 3);
            lemma_known_subrange(s, i, f, 4, 4 + eb.len() as int);
            assert(f.subrange(4, 4 + eb.len() as int) =~= eb);
            lemma_known_index(s, i, f, 4 + eb.len() as int);
            assert(f[4 + eb.len() as int] == '\'');
            assert(s[(i + 4) + eb.len()] == s[i + (4 + eb.len())]);
            lemma_scan_escaped(s, i + 4, body);
            let e_lit = i + 4 + eb.len() + 1;
            assert(crate::parse::parse_lit_spec(s, i + 3) == Some((body, e_lit)));
            lemma_known_subrange(s, i, f, 5 + eb.len() as int, f.len() as int);
            assert(f.subrange(5 + eb.len() as int, f.len() as int) =~= fa + seq![')']);
            assert(s.subrange(e_lit, e_lit + fa.len() + 1) == s.subrange(
                i + (5 + eb.len() as int),
                i + f.len(),
            ));
            lemma_parse_args_format_at(s, e_lit, args);
            assert(crate::parse::parse_args_spec(s, e_lit) == Some((args, e_lit + fa.len() + 1)));
            assert(e_lit + fa.len() + 1 == i + f.len());
            assert(crate::parse::parse_macro_spec(s, i) == Some((v, i + f.len())));
            assert(s[i] != '\'');
            assert(crate::parse::parse_value_spec(s, i) == Some((v, i + f.len())));
        },
    }
}

/// Parsing a formatted argument list followed by `)` yields the arguments
/// back and stops right after the parenthesis.
proof fn lemma_parse_args_format_at(s: Seq<char>, i: int, args: Seq<I18nView>)
    requires
        0 <= i,
        i + format_args_spec(args).len() + 1 <= s.len(),
        s.subrange(i, i + format_args_spec(args).len() + 1) == format_args_spec(args) + seq![')'],
    ensures
        crate::parse::parse_args_spec(s, i) == Some(
            (args, i + format_args_spec(args).len() + 1),
        ),
    decreases crate::translate::args_size(args), 1int, args.len(),
{
    let fa = format_args_spec(args);
    let fap = fa + seq![')'];
    if args.len() == 0 {
        lemma_known_index(s, i, fap, 0);
        assert(s[i] == ')');
        assert(!crate::text::is_ws_char(')'));
        assert(crate::parse::skip_ws_spec(s, i) == i);
        assert(args =~= Seq::<I18nView>::empty());
        assert(crate::parse::parse_args_spec(s, i) == Some((args, i + 1)));
    } else {
        let a0 = args[0];
        let rest = args.drop_first();
        let f0 = format_spec(a0);
        let fr = format_args_spec(rest);
        assert(fa == seq![','] + f0 + fr);
        lemma_known_index(s, i, fap, 0);
        assert(s[i] == ',');
        assert(!crate::text::is_ws_char(','));
        assert(crate::parse::skip_ws_spec(s, i) == i);
        assert(s[i] != ')');
        lemma_format_first_char(a0);
        lemma_known_index(s, i, fap, 1);
        assert(s[i + 1] == f0[0]);
        assert(!crate::text::is_ws_char('\'') && !crate::text::is_ws_char('t'));
        assert(!crate::text::is_ws_char(s[i + 1]));
        assert(crate::parse::skip_ws_spec(s, i + 1) == i + 1);
        lemma_known_subrange(s, i, fap, 1, 1 + f0.len() as int);
        assert(fap.subrange(1, 1 + f0.len() as int) =~= f0);
        crate::translate::lemma_args_size_index(args, 0);
        lemma_parse_format_at(s, i + 1, a0);
        let n = i + 1 + f0.len();
        assert(crate::parse::parse_value_spec(s, i + 1) == Some((a0, n)));
        lemma_known_subrange(s, i, fap, 1 + f0.len() as int, fap.len() as int);
        assert(fap.subrange(1 + f0.len() as int, fap.len() as int) =~= fr + seq![')']);
        assert(s.subrange(n, n + fr.len() + 1) == s.subrange(
            i + (1 + f0.len() as int),
            i + fap.len(),
        ));
        lemma_parse_args_format_at(s, n, rest);
        assert(crate::parse::parse_args_spec(s, n) == Some((rest, n + fr.len() + 1)));
        assert(seq![a0] + rest =~= args);
        assert(n + fr.len() + 1 == i + fa.len() + 1);
        assert(crate::parse::parse_args_spec(s, i) == Some((args, i + fa.len() + 1)));
    }
}

/// Round trip: parsing the canonical text of any tree gives the tree back.
/// Escaping is chosen to make this exact, not merely human-equivalent.
pub proof fn lemma_parse_format_roundtrip(v: I18nView)
    ensures
        crate::parse::parse_spec(format_spec(v)) == Some(v),
{
    let s = format_spec(v);
    assert(s.subrange(0, s.len() as int) =~= s);
    lemma_parse_format_at(s, 0, v);
}

/// Formatting is stable under re-parsing: the canonical text parses to a
/// tree whose canonical text is the same.
pub proof fn lemma_format_parse_format(v: I18nView)
    ensures
        crate::parse::parse_spec(format_spec(v)) matches Some(w) && format_spec(w) == format_spec(
            v,
        ),
{
    lemma_parse_format_roundtrip(v);
}

/// Appends the canonical text of the tree to `out`.
#[verifier::loop_isolation(false)]
pub fn format_to(out: &mut String, s: &I18nString)
    ensures
        final(out)@ == old(out)@ + format_spec(s@),
    decreases *s,
{
    let ghost base = out@;
    match s {
        I18nString::Literal(text) => {
            push_char(out, '\'');
            let escaped = escape(text.as_str());
            out.append(escaped.as_str());
            push_char(out, '\'');
            proof {
                assert(out@ =~= base + (seq!['\''] + escape_spec(text@) + seq!['\'']));
            }
        },
        I18nString::Template(body, args) => {
            push_char(out, 't');
            push_char(out, '!');
            push_char(out, '(');
            push_char(out, '\'');
            let escaped = escape(body.as_str());
            out.append(escaped.as_str());
            push_char(out, '\'');
            let ghost va = view_args(args@);
            let ghost mid = out@;
            proof {
                lemma_view_args_index(args@);
                assert(mid =~= base + (seq!['t', '!', '(', '\''] + escape_spec(body@)
                    + seq!['\'']));
                assert(va.subrange(0, va.len() as int) =~= va);
            }
            let n = args.len();
            let mut i: usize = 0;
            while i < n
                invariant
                    i <= n,
                    out@ + format_args_spec(va.subrange(i as int, n as int)) == mid
                        + format_args_spec(va),
                decreases n - i,
            {
                let ghost out0 = out@;
                push_char(out, ',');
                proof {
                    let suf = va.subrange(i as int, n as int);
                    assert(suf[0] == va[i as int]);
                    assert(suf.drop_first() =~= va.subrange(i as int + 1, n as int));
                    assert(decreases_to!(*s => args@[i as int]));
                }
                format_to(out, &args[i]);
                proof {
                    let tail = va.subrange(i as int + 1, n as int);
                    assert(out@ =~= out0 + seq![','] + format_spec(va[i as int]));
                    assert(out@ + format_args_spec(tail) =~= out0 + (seq![','] + format_spec(
                        va[i as int],
                    ) + format_args_spec(tail)));
                }
                i = i + 1;
            }
            push_char(out, ')');
            proof {
                assert(va.subrange(n as int, n as int) =~= Seq::<I18nView>::empty());
                assert(out@ =~= base + format_spec(s@));
            }
        },
    }
}

} // verus!
