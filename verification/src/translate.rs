//! Translator: evaluates a tree into a final string. A literal is emitted
//! verbatim; a template body is first passed through the resolver and then
//! scanned for `{n}` placeholders, each in-range index being replaced by
//! the translation of the corresponding argument. Malformed or
//! out-of-range placeholders pass through unchanged — substitution is
//! deliberately lenient while parsing is strict.

use vstd::prelude::*;

use crate::text::{digits_val, is_digits, parse_index, push_char, str_to_chars};
use crate::{I18nString, I18nView, Resolver, lemma_view_args_index, view_args};

verus! {

/// The brace state machine: scanning plain text, inside a `{...}` opened at
/// a remembered position, or just past a dangling `}`.
#[derive(Clone, Copy)]
pub enum SubstState {
    Normal,
    OpenBrace(usize),
    CloseBrace,
}

/// What the placeholder scan emits from position `i` onwards in state
/// `st`, splicing `rendered[n]` for each well-formed in-range `{n}`.
/// The transitions are deliberately permissive:
/// `{` inside a placeholder discards the pending text and emits `{`;
/// a dangling `}` is emitted as-is; an unterminated `{` at the end emits
/// the brace and the rest verbatim.
pub open spec fn subst_tail(
    body: Seq<char>,
    rendered: Seq<Seq<char>>,
    i: int,
    st: SubstState,
) -> Seq<char>
    decreases body.len() - i,
{
    if i < 0 || i >= body.len() {
        match st {
            SubstState::Normal => Seq::empty(),
            SubstState::OpenBrace(pos) => seq!['{'] + body.subrange(
                pos as int + 1,
                body.len() as int,
            ),
            SubstState::CloseBrace => seq!['}'],
        }
    } else {
        let c = body[i];
        match st {
            SubstState::Normal => {
                if c == '{' {
                    subst_tail(body, rendered, i + 1, SubstState::OpenBrace(i as usize))
                } else if c == '}' {
                    subst_tail(body, rendered, i + 1, SubstState::CloseBrace)
                } else {
                    seq![c] + subst_tail(body, rendered, i + 1, SubstState::Normal)
                }
            },
            SubstState::OpenBrace(pos) => {
                if c == '}' {
                    let idx = body.subrange(pos as int + 1, i);
                    if is_digits(idx) && digits_val(idx) < rendered.len() {
                        rendered[digits_val(idx)] + subst_tail(
                            body,
                            rendered,
                            i + 1,
                            SubstState::Normal,
                        )
                    } else {
                        seq!['{'] + idx + seq!['}'] + subst_tail(
                            body,
                            rendered,
                            i + 1,
                            SubstState::Normal,
                        )
                    }
                } else if c == '{' {
                    seq!['{'] + subst_tail(body, rendered, i + 1, SubstState::Normal)
                } else {
                    subst_tail(body, rendered, i + 1, st)
                }
            },
            SubstState::CloseBrace => {
                if c == '}' {
                    seq!['}'] + subst_tail(body, rendered, i + 1, SubstState::Normal)
                } else {
                    seq!['}', c] + subst_tail(body, rendered, i + 1, SubstState::Normal)
                }
            },
        }
    }
}

/// Placeholder substitution over a whole resolved body, given the already
/// rendered text of each argument. Shared by the tree translator and the
/// streaming transformer so the two cannot drift apart.
pub open spec fn subst_spec(body: Seq<char>, rendered: Seq<Seq<char>>) -> Seq<char> {
    subst_tail(body, rendered, 0, SubstState::Normal)
}

/// The number of nodes of a tree; the translation recursion shrinks it.
pub open spec fn tree_size(v: I18nView) -> nat
    decreases v,
{
    match v {
        I18nView::Literal(_) => 1,
        I18nView::Template(_, args) => 1 + args_size(args),
    }
}

/// The total number of nodes of a sequence of trees.
pub open spec fn args_size(args: Seq<I18nView>) -> nat
    decreases args,
{
    if args.len() == 0 {
        0
    } else {
        tree_size(args[0]) + args_size(args.drop_first())
    }
}

/// The translation of a tree under a resolver: a literal is itself; a
/// template is its resolved body with each in-range placeholder replaced
/// by the translation of the argument it names.
pub open spec fn translate_spec<R: Resolver>(v: I18nView, r: &R) -> Seq<char>
    decreases tree_size(v), 0int, 0int,
{
    match v {
        I18nView::Literal(s) => s,
        I18nView::Template(body, args) => subst_spec(r.resolve_spec(body), rendered_args(args, r)),
    }
}

/// The translations of every argument of a template, in order.
pub open spec fn rendered_args<R: Resolver>(args: Seq<I18nView>, r: &R) -> Seq<Seq<char>>
    decreases args_size(args), 1int, args.len(),
{
    if args.len() == 0 {
        Seq::empty()
    } else {
        seq![translate_spec(args[0], r)] + rendered_args(args.drop_first(), r)
    }
}

/// `rendered_args` translates the sequence element by element.
pub proof fn lemma_rendered_args_index<R: Resolver>(args: Seq<I18nView>, r: &R)
    ensures
        rendered_args(args, r).len() == args.len(),
        forall|k: int|
            0 <= k < args.len() ==> rendered_args(args, r)[k] == translate_spec(
                #[trigger] args[k],
                r,
            ),
    decreases args,
{
    if args.len() > 0 {
        lemma_rendered_args_index(args.drop_first(), r);
        assert(rendered_args(args, r) == seq![translate_spec(args[0], r)] + rendered_args(
            args.drop_first(),
            r,
        ));
        assert forall|k: int|
            0 <= k < args.len() implies rendered_args(args, r)[k] == translate_spec(
            #[trigger] args[k],
            r,
        ) by {
            if k > 0 {
                assert(args.drop_first()[k - 1] == args[k]);
                assert(rendered_args(args, r)[k] == rendered_args(args.drop_first(), r)[k - 1]);
            }
        }
    }
}

/// No tree in a sequence is bigger than the whole sequence.
pub(crate) proof fn lemma_args_size_index(args: Seq<I18nView>, k: int)
    requires
        0 <= k < args.len(),
    ensures
        tree_size(args[k]) <= args_size(args),
    decreases args,
{
    if k > 0 {
        lemma_args_size_index(args.drop_first(), k - 1);
        assert(args.drop_first()[k - 1] == args[k]);
    }
}

/// The argument indices that the placeholder scan substitutes from
/// position `i` onwards in state `st`: the in-range well-formed `{n}`.
pub open spec fn used_tail(body: Seq<char>, n: int, i: int, st: SubstState) -> Set<int>
    decreases body.len() - i,
{
    if i < 0 || i >= body.len() {
        Set::empty()
    } else {
        let c = body[i];
        match st {
            SubstState::Normal => {
                if c == '{' {
                    used_tail(body, n, i + 1, SubstState::OpenBrace(i as usize))
                } else if c == '}' {
                    used_tail(body, n, i + 1, SubstState::CloseBrace)
                } else {
                    used_tail(body, n, i + 1, SubstState::Normal)
                }
            },
            SubstState::OpenBrace(pos) => {
                if c == '}' {
                    let idx = body.subrange(pos as int + 1, i);
                    if is_digits(idx) && digits_val(idx) < n {
                        used_tail(body, n, i + 1, SubstState::Normal).insert(digits_val(idx))
                    } else {
                        used_tail(body, n, i + 1, SubstState::Normal)
                    }
                } else if c == '{' {
                    used_tail(body, n, i + 1, SubstState::Normal)
                } else {
                    used_tail(body, n, i + 1, st)
                }
            },
            SubstState::CloseBrace => used_tail(body, n, i + 1, SubstState::Normal),
        }
    }
}

/// The argument indices a template body substitutes, given how many
/// arguments there are.
pub open spec fn used_indices(body: Seq<char>, n: int) -> Set<int> {
    used_tail(body, n, 0, SubstState::Normal)
}

/// The template bodies that translating `v` under `r` hands to the
/// resolver: each visited template's own body, and, through every
/// argument an in-range placeholder names, the bodies visited below it.
/// Arguments never named by an in-range placeholder contribute nothing.
pub open spec fn visited_bodies<R: Resolver>(v: I18nView, r: &R) -> Set<Seq<char>>
    decreases tree_size(v), 0int, 0int,
{
    match v {
        I18nView::Literal(_) => Set::empty(),
        I18nView::Template(body, args) => {
            let used = used_indices(r.resolve_spec(body), args.len() as int);
            set![body].union(visited_args_bodies(args, used, r))
        },
    }
}

/// A sequence of trees weighs its last tree plus the rest.
proof fn lemma_args_size_drop_last(args: Seq<I18nView>)
    requires
        args.len() > 0,
    ensures
        args_size(args) == tree_size(args.last()) + args_size(args.drop_last()),
    decreases args.len(),
{
    if args.len() == 1 {
        assert(args.drop_first() =~= Seq::<I18nView>::empty());
        assert(args.drop_last() =~= Seq::<I18nView>::empty());
        assert(args.last() == args[0]);
    } else {
        lemma_args_size_drop_last(args.drop_first());
        assert(args.drop_first().last() == args.last());
        assert(args.drop_first().drop_last() =~= args.drop_last().drop_first());
        assert(args.drop_last()[0] == args[0]);
        assert(args_size(args.drop_last()) == tree_size(args[0]) + args_size(
            args.drop_last().drop_first(),
        ));
    }
}

/// The bodies visited below the arguments whose index is in `used`.
pub open spec fn visited_args_bodies<R: Resolver>(
    args: Seq<I18nView>,
    used: Set<int>,
    r: &R,
) -> Set<Seq<char>>
    decreases args_size(args), 1int, args.len(),
    via visited_args_bodies_decreases::<R>
{
    if args.len() == 0 {
        Set::empty()
    } else {
        let last = args.len() - 1;
        let below = visited_args_bodies(args.drop_last(), used, r);
        if used.contains(last as int) {
            below.union(visited_bodies(args.last(), r))
        } else {
            below
        }
    }
}

#[via_fn]
proof fn visited_args_bodies_decreases<R: Resolver>(args: Seq<I18nView>, used: Set<int>, r: &R) {
    if args.len() > 0 {
        lemma_args_size_drop_last(args);
    }
}

/// The bodies visited below one named argument are visited at the template.
proof fn lemma_visited_args_contains<R: Resolver>(
    args: Seq<I18nView>,
    used: Set<int>,
    r: &R,
    k: int,
)
    requires
        0 <= k < args.len(),
        used.contains(k),
    ensures
        visited_bodies(args[k], r).subset_of(visited_args_bodies(args, used, r)),
    decreases args.len(),
{
    if k == args.len() - 1 {
        assert(args.last() == args[k]);
    } else {
        lemma_visited_args_contains(args.drop_last(), used, r, k);
        assert(args.drop_last()[k] == args[k]);
    }
}

/// The placeholder scan reads only the rendered arguments it names: where
/// two argument lists of the same length agree on every index the body
/// names, substitution cannot tell them apart.
proof fn lemma_subst_uses_only_used(
    body: Seq<char>,
    r1: Seq<Seq<char>>,
    r2: Seq<Seq<char>>,
    i: int,
    st: SubstState,
)
    requires
        r1.len() == r2.len(),
        forall|k: int|
            used_tail(body, r1.len() as int, i, st).contains(k) ==> r1[k] == #[trigger] r2[k],
    ensures
        subst_tail(body, r1, i, st) == subst_tail(body, r2, i, st),
    decreases body.len() - i,
{
    if 0 <= i < body.len() {
        let c = body[i];
        match st {
            SubstState::Normal => {
                if c == '{' {
                    lemma_subst_uses_only_used(body, r1, r2, i + 1, SubstState::OpenBrace(
                        i as usize,
                    ));
                } else if c == '}' {
                    lemma_subst_uses_only_used(body, r1, r2, i + 1, SubstState::CloseBrace);
                } else {
                    lemma_subst_uses_only_used(body, r1, r2, i + 1, SubstState::Normal);
                }
            },
            SubstState::OpenBrace(pos) => {
                if c == '}' {
                    let idx = body.subrange(pos as int + 1, i);
                    lemma_subst_uses_only_used(body, r1, r2, i + 1, SubstState::Normal);
                    if is_digits(idx) && digits_val(idx) < r1.len() {
                        assert(used_tail(body, r1.len() as int, i, st).contains(digits_val(idx)));
                        assert(r1[digits_val(idx)] == r2[digits_val(idx)]);
                    }
                } else if c == '{' {
                    lemma_subst_uses_only_used(body, r1, r2, i + 1, SubstState::Normal);
                } else {
                    lemma_subst_uses_only_used(body, r1, r2, i + 1, st);
                }
            },
            SubstState::CloseBrace => {
                lemma_subst_uses_only_used(body, r1, r2, i + 1, SubstState::Normal);
            },
        }
    }
}

/// Resolver laziness, semantically: the translation of a tree depends on
/// the resolver only at the bodies the traversal visits. Two resolvers
/// that agree there — however much they differ on the bodies of arguments
/// never named by an in-range placeholder — translate the tree to the
/// same text.
pub proof fn lemma_translate_resolves_only_visited<R1: Resolver, R2: Resolver>(
    v: I18nView,
    r1: &R1,
    r2: &R2,
)
    requires
        forall|b: Seq<char>|
            visited_bodies(v, r1).contains(b) ==> r1.resolve_spec(b) == #[trigger] r2.resolve_spec(
                b,
            ),
    ensures
        translate_spec(v, r1) == translate_spec(v, r2),
    decreases tree_size(v), 2int, 0int,
{
    match v {
        I18nView::Literal(_) => {},
        I18nView::Template(body, args) => {
            assert(visited_bodies(v, r1).contains(body));
            let resolved = r1.resolve_spec(body);
            assert(r2.resolve_spec(body) == resolved);
            let n = args.len() as int;
            let used = used_indices(resolved, n);
            lemma_rendered_args_index(args, r1);
            lemma_rendered_args_index(args, r2);
            let a1 = rendered_args(args, r1);
            let a2 = rendered_args(args, r2);
            assert forall|k: int| used_tail(resolved, n, 0, SubstState::Normal).contains(k)
                implies a1[k] == #[trigger] a2[k] by {
                lemma_used_tail_in_range(resolved, n, 0, SubstState::Normal, k);
                lemma_visited_args_contains(args, used, r1, k);
                crate::translate::lemma_args_size_index(args, k);
                lemma_translate_resolves_only_visited(args[k], r1, r2);
            }
            lemma_subst_uses_only_used(resolved, a1, a2, 0, SubstState::Normal);
        },
    }
}

/// Every index the scan names is a real argument index.
proof fn lemma_used_tail_in_range(body: Seq<char>, n: int, i: int, st: SubstState, k: int)
    requires
        used_tail(body, n, i, st).contains(k),
    ensures
        0 <= k < n,
    decreases body.len() - i,
{
    if 0 <= i < body.len() {
        let c = body[i];
        match st {
            SubstState::Normal => {
                if c == '{' {
                    lemma_used_tail_in_range(body, n, i + 1, SubstState::OpenBrace(i as usize), k);
                } else if c == '}' {
                    lemma_used_tail_in_range(body, n, i + 1, SubstState::CloseBrace, k);
                } else {
                    lemma_used_tail_in_range(body, n, i + 1, SubstState::Normal, k);
                }
            },
            SubstState::OpenBrace(pos) => {
                if c == '}' {
                    let idx = body.subrange(pos as int + 1, i);
                    if is_digits(idx) && digits_val(idx) < n && k == digits_val(idx) {
                        crate::text::lemma_digits_val_nonneg(idx);
                    } else {
                        lemma_used_tail_in_range(body, n, i + 1, SubstState::Normal, k);
                    }
                } else if c == '{' {
                    lemma_used_tail_in_range(body, n, i + 1, SubstState::Normal, k);
                } else {
                    lemma_used_tail_in_range(body, n, i + 1, st, k);
                }
            },
            SubstState::CloseBrace => {
                lemma_used_tail_in_range(body, n, i + 1, SubstState::Normal, k);
            },
        }
    }
}

/// Appends the translation of `input` to `output`, resolving and
/// substituting on demand: only arguments actually named by an in-range
/// placeholder are visited.
#[verifier::loop_isolation(false)]
fn translate_to<R: Resolver>(input: &I18nString, output: &mut String, resolver: &R)
    ensures
        final(output)@ == old(output)@ + translate_spec(input@, resolver),
    decreases tree_size(input@),
{
    let ghost base = output@;
    match input {
        I18nString::Literal(s) => {
            output.append(s.as_str());
        },
        I18nString::Template(body, args) => {
            let resolved = resolver.resolve(body.as_str());
            let cs = str_to_chars(resolved.as_str());
            let ghost va = view_args(args@);
            let ghost rendered = rendered_args(va, resolver);
            proof {
                lemma_view_args_index(args@);
                lemma_rendered_args_index(va, resolver);
                assert(translate_spec(input@, resolver) == subst_spec(cs@, rendered));
            }
            let n = cs.len();
            let mut st = SubstState::Normal;
            let mut i: usize = 0;
            while i < n
                invariant
                    i <= n,
                    (st matches SubstState::OpenBrace(pos) ==> pos < i),
                    output@ + subst_tail(cs@, rendered, i as int, st) == base + subst_spec(
                        cs@,
                        rendered,
                    ),
                decreases n - i,
            {
                let c = cs[i];
                let ghost out0 = output@;
                let ghost st0 = st;
                match st {
                    SubstState::Normal => {
                        if c == '{' {
                            st = SubstState::OpenBrace(i);
                        } else if c == '}' {
                            st = SubstState::CloseBrace;
                        } else {
                            push_char(output, c);
                            proof {
                                assert(subst_tail(cs@, rendered, i as int, st0) == seq![c]
                                    + subst_tail(cs@, rendered, i as int + 1, st));
                                assert(out0 + (seq![c] + subst_tail(
                                    cs@,
                                    rendered,
                                    i as int + 1,
                                    st,
                                )) =~= output@ + subst_tail(cs@, rendered, i as int + 1, st));
                            }
                        }
                    },
                    SubstState::OpenBrace(pos) => {
                        if c == '}' {
                            let ghost idx = cs@.subrange(pos as int + 1, i as int);
                            st = SubstState::Normal;
                            match parse_index(&cs, pos + 1, i, args.len()) {
                                Some(k) => {
                                    proof {
                                        lemma_args_size_index(va, k as int);
                                        assert(va[k as int] == args@[k as int]@);
                                        assert(rendered[k as int] == translate_spec(
                                            va[k as int],
                                            resolver,
                                        ));
                                        assert(subst_tail(cs@, rendered, i as int, st0)
                                            == rendered[k as int] + subst_tail(
                                            cs@,
                                            rendered,
                                            i as int + 1,
                                            st,
                                        ));
                                    }
                                    translate_to(&args[k], output, resolver);
                                    proof {
                                        assert(out0 + (rendered[k as int] + subst_tail(
                                            cs@,
                                            rendered,
                                            i as int + 1,
                                            st,
                                        )) =~= output@ + subst_tail(
                                            cs@,
                                            rendered,
                                            i as int + 1,
                                            st,
                                        ));
                                    }
                                },
                                None => {
                                    push_char(output, '{');
                                    let mut j: usize = pos + 1;
                                    while j < i
                                        invariant
                                            pos + 1 <= j <= i,
                                            output@ == out0 + seq!['{'] + cs@.subrange(
                                                pos as int + 1,
                                                j as int,
                                            ),
                                        decreases i - j,
                                    {
                                        push_char(output, cs[j]);
                                        proof {
                                            assert(cs@.subrange(pos as int + 1, j as int).push(
                                                cs@[j as int],
                                            ) =~= cs@.subrange(pos as int + 1, j as int + 1));
                                        }
                                        j = j + 1;
                                    }
                                    push_char(output, '}');
                                    proof {
                                        assert(subst_tail(cs@, rendered, i as int, st0)
                                            == seq!['{'] + idx + seq!['}'] + subst_tail(
                                            cs@,
                                            rendered,
                                            i as int + 1,
                                            st,
                                        ));
                                        assert(output@ =~= out0 + seq!['{'] + idx + seq!['}']);
                                        assert(out0 + (seq!['{'] + idx + seq!['}'] + subst_tail(
                                            cs@,
                                            rendered,
                                            i as int + 1,
                                            st,
                                        )) =~= output@ + subst_tail(
                                            cs@,
                                            rendered,
                                            i as int + 1,
                                            st,
                                        ));
                                    }
                                },
                            }
                        } else if c == '{' {
                            push_char(output, '{');
                            st = SubstState::Normal;
                            proof {
                                assert(subst_tail(cs@, rendered, i as int, st0) == seq!['{']
                                    + subst_tail(cs@, rendered, i as int + 1, st));
                                assert(out0 + (seq!['{'] + subst_tail(
                                    cs@,
                                    rendered,
                                    i as int + 1,
                                    st,
                                )) =~= output@ + subst_tail(cs@, rendered, i as int + 1, st));
                            }
                        } else {
                            proof {
                                assert(subst_tail(cs@, rendered, i as int, st0) == subst_tail(
                                    cs@,
                                    rendered,
                                    i as int + 1,
                                    st,
                                ));
                            }
                        }
                    },
                    SubstState::CloseBrace => {
                        if c == '}' {
                            push_char(output, '}');
                            st = SubstState::Normal;
                            proof {
                                assert(subst_tail(cs@, rendered, i as int, st0) == seq!['}']
                                    + subst_tail(cs@, rendered, i as int + 1, st));
                                assert(out0 + (seq!['}'] + subst_tail(
                                    cs@,
                                    rendered,
                                    i as int + 1,
                                    st,
                                )) =~= output@ + subst_tail(cs@, rendered, i as int + 1, st));
                            }
                        } else {
                            push_char(output, '}');
                            push_char(output, c);
                            st = SubstState::Normal;
                            proof {
                                assert(subst_tail(cs@, rendered, i as int, st0) == seq!['}', c]
                                    + subst_tail(cs@, rendered, i as int + 1, st));
                                assert(out0 + (seq!['}', c] + subst_tail(
                                    cs@,
                                    rendered,
                                    i as int + 1,
                                    st,
                                )) =~= output@ + subst_tail(cs@, rendered, i as int + 1, st));
                            }
                        }
                    },
                }
                i = i + 1;
            }
            match st {
                SubstState::Normal => {},
                SubstState::OpenBrace(pos) => {
                    let ghost outb = output@;
                    push_char(output, '{');
                    let mut j: usize = pos + 1;
                    proof {
                        assert(output@ =~= outb + seq!['{'] + cs@.subrange(
                            pos as int + 1,
                            j as int,
                        ));
                    }
                    while j < n
                        invariant
                            pos + 1 <= j <= n,
                            output@ == outb + seq!['{'] + cs@.subrange(pos as int + 1, j as int),
                        decreases n - j,
                    {
                        push_char(output, cs[j]);
                        proof {
                            assert(cs@.subrange(pos as int + 1, j as int).push(cs@[j as int])
                                =~= cs@.subrange(pos as int + 1, j as int + 1));
                        }
                        j = j + 1;
                    }
                    proof {
                        assert(output@ =~= outb + (seq!['{'] + cs@.subrange(
                            pos as int + 1,
                            n as int,
                        )));
                    }
                },
                SubstState::CloseBrace => {
                    push_char(output, '}');
                },
            }
            proof {
                assert(output@ =~= base + subst_spec(cs@, rendered));
            }
        },
    }
}

impl I18nString {
    /// Translates the tree into its final text under the given resolver.
    pub fn translate<R: Resolver>(&self, resolver: R) -> (r: String)
        ensures
            r@ == translate_spec(self@, &resolver),
    {
        let mut res = String::new();
        translate_to(self, &mut res, &resolver);
        res
    }
}

} // verus!
