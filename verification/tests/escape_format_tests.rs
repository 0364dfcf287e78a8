use i18n_string::escape::{escape, escape_bytes, Escaped};
use i18n_string::format::format_to;
use i18n_string::parse::parse;
use i18n_string::{I18nString, InvalidFormat};

#[test]
fn escape_rewrites_the_four_special_characters() {
    assert_eq!(escape("a'b"), "a\\'b");
    assert_eq!(escape("a\\b"), "a\\\\b");
    assert_eq!(escape("x\ny\tz"), "x\\ny\\tz");
    assert_eq!(escape("plain \"text\""), "plain \"text\"");
    assert_eq!(escape(""), "");
}

#[test]
fn escape_bytes_agrees_with_escape_on_ascii() {
    let text = "a'b\\c\nd\te";
    assert_eq!(escape_bytes(text.as_bytes()), escape(text).as_bytes());
    assert_eq!(escape_bytes(b"no change"), b"no change");
}

#[test]
fn escaped_wrapper_hands_its_sink_back() {
    let sink = String::from("inner");
    let wrapped = Escaped::new(sink);
    assert_eq!(wrapped.into_inner(), "inner");
}

#[test]
fn unescaping_undoes_escaping_through_the_parser() {
    for original in ["", "plain", "qu'ote", "back\\slash", "mix'of\\all\nfour\t!", "''''"] {
        let mut encoded = String::from("'");
        encoded.push_str(&escape(original));
        encoded.push('\'');
        let tree = parse(&encoded).unwrap();
        assert_eq!(tree, I18nString::Literal(original.to_string()));
    }
}

#[test]
fn format_then_parse_gives_the_tree_back() {
    let trees = [
        I18nString::Literal("plain".to_string()),
        I18nString::Literal("needs 'escaping' \\ here\n".to_string()),
        I18nString::Template("no args".to_string(), vec![]),
        I18nString::Template(
            "outer {0} and {1}".to_string(),
            vec![
                I18nString::Literal("leaf'1".to_string()),
                I18nString::Template(
                    "inner {0}".to_string(),
                    vec![I18nString::Literal("deep".to_string())],
                ),
            ],
        ),
    ];
    for tree in trees {
        let mut text = String::new();
        format_to(&mut text, &tree);
        assert_eq!(parse(&text).unwrap(), tree);
    }
}

#[test]
fn format_emits_canonical_text() {
    let tree = I18nString::Template(
        "a {0}".to_string(),
        vec![
            I18nString::Literal("x".to_string()),
            I18nString::Template("b".to_string(), vec![]),
        ],
    );
    let mut text = String::new();
    format_to(&mut text, &tree);
    assert_eq!(text, "t!('a {0}','x',t!('b'))");
}

#[test]
fn parse_rejects_malformed_input() {
    assert_eq!(parse(""), Err(InvalidFormat));
    assert_eq!(parse("x"), Err(InvalidFormat));
    assert_eq!(parse("'unterminated"), Err(InvalidFormat));
    assert_eq!(parse("t!("), Err(InvalidFormat));
    assert_eq!(parse("t!(x)"), Err(InvalidFormat));
    assert_eq!(parse("t!('a' 'b')"), Err(InvalidFormat));
    assert_eq!(parse("t!('a',)"), Err(InvalidFormat));
    assert_eq!(parse("t!('a', 3)"), Err(InvalidFormat));
    assert_eq!(parse("t! ('a')"), Err(InvalidFormat));
}

#[test]
fn parse_ignores_trailing_characters() {
    assert_eq!(parse("'a' trailing").unwrap(), I18nString::Literal("a".to_string()));
    assert_eq!(
        parse("t!('a')garbage)").unwrap(),
        I18nString::Template("a".to_string(), vec![])
    );
}

#[test]
fn parse_skips_whitespace_inside_macros() {
    assert_eq!(
        parse("t!(\n  'b'\t, 'c'  )").unwrap(),
        I18nString::Template(
            "b".to_string(),
            vec![I18nString::Literal("c".to_string())]
        )
    );
}
