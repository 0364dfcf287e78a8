//! Typestate builder for the textual encoding: call order
//! `template → arg* → finish` is forced at compile time by the state
//! parameter. The builder writes the same canonical form as the
//! formatter, so anything built here parses back.

use vstd::prelude::*;

use crate::escape::{escape, escape_spec};
use crate::text::push_char;
use crate::transform::transform_spec;
use crate::{NoResolver, Resolver, Translatable};

verus! {

/// Builder state: the template body is still to be written.
pub struct WantsTemplate;

/// Builder state: arguments may be appended, or the macro closed.
pub struct WantsArgs;

/// A finished `t!(...)` encoding.
pub struct Finish(String);

impl Finish {
    /// The text that was built.
    pub closed spec fn encoded(&self) -> Seq<char> {
        self.0@
    }

    /// Hands the built text out.
    pub fn into_string(self) -> (r: String)
        ensures
            r@ == self.encoded(),
    {
        self.0
    }
}

/// Appends one `t!(...)` invocation onto an owned text buffer.
pub struct I18nBuilder<S> {
    out: String,
    _state: core::marker::PhantomData<S>,
}

impl<S> I18nBuilder<S> {
    /// The text accumulated so far.
    pub closed spec fn buf(&self) -> Seq<char> {
        self.out@
    }
}

impl I18nBuilder<WantsTemplate> {
    /// Starts a builder that appends onto `output`.
    pub fn new(output: String) -> (r: I18nBuilder<WantsTemplate>)
        ensures
            r.buf() == output@,
    {
        I18nBuilder { out: output, _state: core::marker::PhantomData }
    }

    /// Writes `t!('` and the escaped template body and the closing quote.
    pub fn template(self, template: &str) -> (r: I18nBuilder<WantsArgs>)
        ensures
            r.buf() == self.buf() + seq!['t', '!', '(', '\''] + escape_spec(template@)
                + seq!['\''],
    {
        let I18nBuilder { mut out, _state } = self;
        push_char(&mut out, 't');
        push_char(&mut out, '!');
        push_char(&mut out, '(');
        push_char(&mut out, '\'');
        let escaped = escape(template);
        out.append(escaped.as_str());
        push_char(&mut out, '\'');
        proof {
            assert(out@ =~= self.buf() + seq!['t', '!', '(', '\''] + escape_spec(template@)
                + seq!['\'']);
        }
        I18nBuilder { out, _state: core::marker::PhantomData }
    }
}

impl I18nBuilder<WantsArgs> {
    /// Appends a comma and the encoding that `arg` builds.
    pub fn arg_i18n<Arg: I18n>(self, arg: &Arg) -> (r: I18nBuilder<WantsArgs>)
        ensures
            r.buf() == self.buf() + seq![','] + arg.i18n_spec(),
    {
        let I18nBuilder { mut out, _state } = self;
        push_char(&mut out, ',');
        let finished = arg.build_i18n(I18nBuilder::new(out));
        let out2 = finished.into_string();
        proof {
            assert(out2@ =~= self.buf() + seq![','] + arg.i18n_spec());
        }
        I18nBuilder { out: out2, _state: core::marker::PhantomData }
    }

    /// Appends a comma and the text as an escaped quoted literal.
    pub fn arg_str(self, arg: &str) -> (r: I18nBuilder<WantsArgs>)
        ensures
            r.buf() == self.buf() + seq![',', '\''] + escape_spec(arg@) + seq!['\''],
    {
        let I18nBuilder { mut out, _state } = self;
        push_char(&mut out, ',');
        push_char(&mut out, '\'');
        let escaped = escape(arg);
        out.append(escaped.as_str());
        push_char(&mut out, '\'');
        proof {
            assert(out@ =~= self.buf() + seq![',', '\''] + escape_spec(arg@) + seq!['\'']);
        }
        I18nBuilder { out, _state: core::marker::PhantomData }
    }

    /// Appends a comma and the text as a nested argument-free template.
    pub fn arg_str_t(self, arg: &str) -> (r: I18nBuilder<WantsArgs>)
        ensures
            r.buf() == self.buf() + seq![',', 't', '!', '(', '\''] + escape_spec(arg@)
                + seq!['\'', ')'],
    {
        let I18nBuilder { mut out, _state } = self;
        push_char(&mut out, ',');
        push_char(&mut out, 't');
        push_char(&mut out, '!');
        push_char(&mut out, '(');
        push_char(&mut out, '\'');
        let escaped = escape(arg);
        out.append(escaped.as_str());
        push_char(&mut out, '\'');
        push_char(&mut out, ')');
        proof {
            assert(out@ =~= self.buf() + seq![',', 't', '!', '(', '\''] + escape_spec(arg@)
                + seq!['\'', ')']);
        }
        I18nBuilder { out, _state: core::marker::PhantomData }
    }

    /// Closes the invocation.
    pub fn finish(self) -> (r: Finish)
        ensures
            r.encoded() == self.buf() + seq![')'],
    {
        let I18nBuilder { mut out, _state } = self;
        push_char(&mut out, ')');
        Finish(out)
    }
}

/// A value that can write itself as a `t!(...)` encoding.
pub trait I18n {
    /// The encoding this value builds. The default stands for impls that
    /// state nothing about their encoding; a verified impl redefines it
    /// alongside `build_i18n`.
    open spec fn i18n_spec(&self) -> Seq<char> {
        Seq::empty()
    }

    /// Appends this value's encoding onto the given builder.
    fn build_i18n(&self, builder: I18nBuilder<WantsTemplate>) -> (r: Finish)
        ensures
            r.encoded() == builder.buf() + self.i18n_spec(),
    ;

    /// The encoding of this value as fresh text.
    fn to_i18n_string(&self) -> (r: String)
        ensures
            r@ == self.i18n_spec(),
    {
        let finished = self.build_i18n(I18nBuilder::new(String::new()));
        let out = finished.into_string();
        proof {
            assert(Seq::<char>::empty() + self.i18n_spec() =~= self.i18n_spec());
        }
        out
    }

    /// The encoding built and then rewritten through the resolver; where
    /// the encoding cannot be rewritten, it is returned as built.
    fn to_localized_string<R: Resolver>(&self, resolver: &R) -> (r: String)
        ensures
            match transform_spec(self.i18n_spec(), resolver) {
                Some(t) => r@ == t,
                None => r@ == self.i18n_spec(),
            },
    {
        let mut s = self.to_i18n_string();
        let _ = s.translate_in_place(resolver);
        s
    }

    /// The encoding rewritten without any translation applied.
    fn to_no_localized_string(&self) -> (r: String)
        ensures
            match transform_spec(self.i18n_spec(), &NoResolver) {
                Some(t) => r@ == t,
                None => r@ == self.i18n_spec(),
            },
    {
        self.to_localized_string(&NoResolver)
    }
}

} // verus!
