use std::borrow::Cow;

use i18n_string::{transform, NoResolver, Resolver, Translatable};

struct SimpleResolver;

impl Resolver for SimpleResolver {
    fn resolve(&self, template: &str) -> String {
        match template {
            "resource changed" => "\u{8d44}\u{6e90}\u{53d8}\u{66f4}".to_string(),
            _ => template.to_string(),
        }
    }
}

#[test]
fn test_simple_i18n() {
    let resolver = SimpleResolver;

    let cases = [
        (
            "t!('pull {1} error: {0}', t!('resource changed'), '/file')",
            "pull /file error: \u{8d44}\u{6e90}\u{53d8}\u{66f4}",
        ),
        ("t!('User {0} says: \\'Hello\\'!', 'Alice')", "User Alice says: 'Hello'!"),
        (
            "t!('Start -> {0} -> End', t!('Middle {0}', t!('Inner')))",
            "Start -> Middle Inner -> End",
        ),
        (
            "Error log: t!('File not found: {0}', 'config.json'). Please check.",
            "Error log: File not found: config.json. Please check.",
        ),
        ("t!(  'Trim {0}'  ,  'test'  )", "Trim test"),
        ("t!('Just string')", "Just string"),
        ("Prefix t!('A') middle t!('B') suffix", "Prefix A middle B suffix"),
    ];

    for (input, expected) in cases {
        let output = transform(input, &resolver).unwrap();

        assert_eq!(output, expected);
    }
}

#[test]
fn bench_simple_i18n() {
    const N: usize = 1_000;

    let begin_at = std::time::Instant::now();

    for _ in 0..N {
        std::hint::black_box(test_simple_i18n());
    }

    let elapsed = begin_at.elapsed();
    println!("bench_simple_i18n: {:?}", elapsed / N as u32);
}

#[test]
fn no_macro_input_is_returned_unchanged() {
    let input = "plain text, no macro at all";
    assert_eq!(transform(input, &NoResolver).unwrap(), input);

    let tricky = "a t! without parenthesis";
    assert_eq!(transform(tricky, &NoResolver).unwrap(), tricky);
}

#[test]
fn transform_rejects_malformed_macros() {
    assert!(transform("t!('unterminated", &NoResolver).is_err());
    assert!(transform("t!(noquote)", &NoResolver).is_err());
    assert!(transform("pre t!('a' 'b') post", &NoResolver).is_err());
    assert!(transform("t!('a',)", &NoResolver).is_err());
    assert!(transform("t!('a'", &NoResolver).is_err());
}

#[test]
fn transform_is_tolerant_about_placeholders() {
    assert_eq!(transform("t!('x {9}')", &NoResolver).unwrap(), "x {9}");
    assert_eq!(transform("t!('{{0}}', 'a')", &NoResolver).unwrap(), "{0}");
    assert_eq!(transform("t!('a }} b')", &NoResolver).unwrap(), "a } b");
    assert_eq!(transform("t!('x }')", &NoResolver).unwrap(), "x }");
    assert_eq!(transform("t!('{+0}', 'a')", &NoResolver).unwrap(), "{+0}");
    assert_eq!(transform("t!('open {0', 'a')", &NoResolver).unwrap(), "open {0");
}

#[test]
fn translate_in_place_rewrites_or_keeps() {
    let mut s = String::from("say t!('hi {0}', 'you') now");
    s.translate_in_place(&NoResolver).unwrap();
    assert_eq!(s, "say hi you now");

    let mut bad = String::from("broken t!('oops");
    assert!(bad.translate_in_place(&NoResolver).is_err());
    assert_eq!(bad, "broken t!('oops");
}

struct CowResolver;

impl Resolver for CowResolver {
    fn resolve(&self, template: &str) -> String {
        let c: Cow<'_, str> = Cow::Borrowed(template);
        c.into_owned()
    }
}

#[test]
fn resolver_can_borrow_internally() {
    assert_eq!(transform("t!('kept {0}', 'x')", &CowResolver).unwrap(), "kept x");
}
