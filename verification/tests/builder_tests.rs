use i18n_string::builder::{Finish, I18n, I18nBuilder, WantsTemplate};
use i18n_string::{NoResolver, Translatable};

enum I18nInnerError {
    IoError(&'static str),
    HasEscaped(&'static str),
}

impl I18n for I18nInnerError {
    fn build_i18n(&self, builder: I18nBuilder<WantsTemplate>) -> Finish {
        match self {
            I18nInnerError::IoError(msg) => builder.template("io error: {0}").arg_str(msg).finish(),
            I18nInnerError::HasEscaped(msg) => {
                builder.template("has escaped: '{0}'").arg_str(msg).finish()
            },
        }
    }
}

enum I18nError {
    InnerError(I18nInnerError),
    InvalidFormat,
}

impl I18n for I18nError {
    fn build_i18n(&self, builder: I18nBuilder<WantsTemplate>) -> Finish {
        match self {
            I18nError::InnerError(err) => {
                builder.template("inner error: {0}").arg_i18n(err).finish()
            },
            I18nError::InvalidFormat => builder.template("invalid format").finish(),
        }
    }
}

#[test]
fn test_builder() {
    let cases = [
        (
            I18nError::InnerError(I18nInnerError::IoError("test")),
            "t!('inner error: {0}',t!('io error: {0}','test'))",
            "inner error: io error: test",
        ),
        (
            I18nError::InnerError(I18nInnerError::HasEscaped("\\test")),
            "t!('inner error: {0}',t!('has escaped: \\'{0}\\'','\\\\test'))",
            "inner error: has escaped: '\\test'",
        ),
        (I18nError::InvalidFormat, "t!('invalid format')", "invalid format"),
    ];

    for (input, expected_template, expected) in cases {
        let buffer = String::with_capacity(64);
        let mut s = input.build_i18n(I18nBuilder::new(buffer)).into_string();

        assert_eq!(&*s, expected_template);

        s.translate_in_place(&NoResolver).unwrap();

        assert_eq!(&*s, expected);
    }
}

#[test]
fn bench_builder() {
    const N: usize = 1_000;

    let begin_at = std::time::Instant::now();

    for _ in 0..N {
        std::hint::black_box(test_builder());
    }

    let elapsed = begin_at.elapsed();
    println!("bench_builder: {:?}", elapsed / N as u32);
}

#[test]
fn builder_writes_canonical_form() {
    let built = I18nBuilder::new(String::new())
        .template("a {0} b {1}")
        .arg_str("x'y")
        .arg_str_t("t\\z")
        .finish()
        .into_string();
    assert_eq!(built, "t!('a {0} b {1}','x\\'y',t!('t\\\\z'))");
}

#[test]
fn builder_appends_to_existing_buffer() {
    let built = I18nBuilder::new(String::from("prefix "))
        .template("m")
        .finish()
        .into_string();
    assert_eq!(built, "prefix t!('m')");
}

struct Greeting(&'static str);

impl I18n for Greeting {
    fn build_i18n(&self, builder: I18nBuilder<WantsTemplate>) -> Finish {
        builder.template("hello {0}").arg_str(self.0).finish()
    }
}

#[test]
fn i18n_trait_convenience_methods() {
    let g = Greeting("sam");
    assert_eq!(g.to_i18n_string(), "t!('hello {0}','sam')");
    assert_eq!(g.to_no_localized_string(), "hello sam");
    assert_eq!(g.to_localized_string(&NoResolver), "hello sam");
}
