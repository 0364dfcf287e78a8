//! A small text format for translatable strings: a value is either a plain
//! literal or a template with `{n}`-style placeholders and nested arguments.
//! The crate parses the textual encoding into a tree, renders trees back to
//! text, and evaluates trees (or raw text with embedded `t!(...)` macros)
//! into final strings through a caller-supplied resolver.

use vstd::prelude::*;

pub mod builder;
pub mod escape;
pub mod format;
pub mod parse;
pub mod transform;
pub mod translate;
mod text;

verus! {

/// The single parse-failure value: no payload, no position information.
#[derive(Debug, PartialEq, Eq, Structural)]
pub struct InvalidFormat;

/// A capability that maps a template body to its (possibly language-specific)
/// resolved form. `resolve_spec` is the mathematical model of the mapping;
/// `resolve` must agree with it.
pub trait Resolver {
    /// The model of the mapping. The default is the identity — a resolver
    /// that rewrites bodies redefines this alongside `resolve`.
    open spec fn resolve_spec(&self, template: Seq<char>) -> Seq<char> {
        template
    }

    fn resolve(&self, template: &str) -> (r: String)
        ensures
            r@ == self.resolve_spec(template@),
    ;
}

/// A translatable string: either an already-resolved literal, or a template
/// body with `{n}` placeholders together with its ordered arguments, each a
/// full tree of its own. Construction is bottom-up, so no cycles exist.
#[derive(Debug, PartialEq, Eq, Hash, PartialOrd, Ord)]
pub enum I18nString {
    Literal(String),
    Template(String, Vec<I18nString>),
}

/// The mathematical model of an `I18nString`: the same tree over character
/// sequences.
pub enum I18nView {
    Literal(Seq<char>),
    Template(Seq<char>, Seq<I18nView>),
}

/// The views of a sequence of trees.
pub open spec fn view_args(args: Seq<I18nString>) -> Seq<I18nView>
    decreases args,
{
    if args.len() == 0 {
        Seq::empty()
    } else {
        seq![args[0]@] + view_args(args.drop_first())
    }
}

impl View for I18nString {
    type V = I18nView;

    open spec fn view(&self) -> I18nView
        decreases self,
    {
        match self {
            I18nString::Literal(s) => I18nView::Literal(s@),
            I18nString::Template(body, args) => I18nView::Template(body@, view_args(args@)),
        }
    }
}

/// `view_args` maps the view over the sequence, element by element.
pub proof fn lemma_view_args_index(args: Seq<I18nString>)
    ensures
        view_args(args).len() == args.len(),
        forall|i: int| 0 <= i < args.len() ==> view_args(args)[i] == (#[trigger] args[i])@,
    decreases args,
{
    if args.len() > 0 {
        lemma_view_args_index(args.drop_first());
        assert(view_args(args) == seq![args[0]@] + view_args(args.drop_first()));
        assert forall|i: int| 0 <= i < args.len() implies view_args(args)[i] == (
        #[trigger] args[i])@ by {
            if i > 0 {
                assert(args.drop_first()[i - 1] == args[i]);
                assert(view_args(args)[i] == view_args(args.drop_first())[i - 1]);
            }
        }
    }
}

/// Appending a tree appends its view.
pub proof fn lemma_view_args_push(args: Seq<I18nString>, v: I18nString)
    ensures
        view_args(args.push(v)) == view_args(args) + seq![v@],
    decreases args,
{
    if args.len() == 0 {
        assert(args.push(v).drop_first() =~= Seq::<I18nString>::empty());
        assert(args.push(v)[0] == v);
        assert(view_args(Seq::<I18nString>::empty()) == Seq::<I18nView>::empty());
        assert(view_args(args.push(v)) == seq![v@] + Seq::<I18nView>::empty());
        assert(view_args(args) == Seq::<I18nView>::empty());
        assert(view_args(args.push(v)) =~= view_args(args) + seq![v@]);
    } else {
        lemma_view_args_push(args.drop_first(), v);
        assert(args.push(v).drop_first() =~= args.drop_first().push(v));
        assert(args.push(v)[0] == args[0]);
        assert(view_args(args) == seq![args[0]@] + view_args(args.drop_first()));
        assert(view_args(args.push(v)) == seq![args[0]@] + view_args(args.drop_first().push(v)));
        assert(seq![args[0]@] + (view_args(args.drop_first()) + seq![v@]) =~= (seq![args[0]@]
            + view_args(args.drop_first())) + seq![v@]);
        assert(view_args(args.push(v)) == seq![args[0]@] + (view_args(args.drop_first())
            + seq![v@]));
        assert(view_args(args) + seq![v@] == (seq![args[0]@] + view_args(args.drop_first()))
            + seq![v@]);
        assert(view_args(args.push(v)) =~= view_args(args) + seq![v@]);
    }
}

impl<'a, R: Resolver> Resolver for &'a R {
    open spec fn resolve_spec(&self, template: Seq<char>) -> Seq<char> {
        (**self).resolve_spec(template)
    }

    fn resolve(&self, template: &str) -> (r: String) {
        (**self).resolve(template)
    }
}

impl<R: Resolver> Resolver for Box<R> {
    open spec fn resolve_spec(&self, template: Seq<char>) -> Seq<char> {
        (**self).resolve_spec(template)
    }

    fn resolve(&self, template: &str) -> (r: String) {
        (**self).resolve(template)
    }
}

/// A resolver that returns every template body unchanged.
pub struct NoResolver;

impl Resolver for NoResolver {
    open spec fn resolve_spec(&self, template: Seq<char>) -> Seq<char> {
        template
    }

    fn resolve(&self, template: &str) -> (r: String) {
        template.to_owned()
    }
}

/// Rewrites every embedded `t!(...)` occurrence in the input into its
/// final text; free text around the macros is kept verbatim.
pub fn transform<R: Resolver>(input: &str, resolver: &R) -> (r: Result<String, InvalidFormat>)
    ensures
        match r {
            Ok(t) => transform::transform_spec(input@, resolver) == Some(t@),
            Err(_) => transform::transform_spec(input@, resolver) is None,
        },
{
    transform::transform(input, resolver)
}

/// Text that can be translated in place by rewriting the `t!(...)`
/// occurrences it contains.
pub trait Translatable {
    /// The text to be rewritten.
    spec fn text_view(&self) -> Seq<char>;

    /// Rewrites the text in place; on failure the text is unchanged.
    fn translate_in_place<R: Resolver>(&mut self, resolver: &R) -> (r: Result<(), InvalidFormat>)
        ensures
            match transform::transform_spec(old(self).text_view(), resolver) {
                Some(t) => r is Ok && final(self).text_view() == t,
                None => r is Err && final(self).text_view() == old(self).text_view(),
            },
    ;
}

impl Translatable for String {
    open spec fn text_view(&self) -> Seq<char> {
        self@
    }

    fn translate_in_place<R: Resolver>(&mut self, resolver: &R) -> (r: Result<(), InvalidFormat>) {
        match transform::transform(self.as_str(), resolver) {
            Ok(s) => {
                *self = s;
                Ok(())
            },
            Err(e) => Err(e),
        }
    }
}

} // verus!
