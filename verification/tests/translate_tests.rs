use std::cell::RefCell;

use i18n_string::parse::parse;
use i18n_string::{I18nString, NoResolver, Resolver};

#[test]
fn out_of_range_placeholder_passes_through() {
    let tree = parse("t!('x {9}')").unwrap();
    assert_eq!(tree.translate(NoResolver), "x {9}");
}

#[test]
fn escaped_quotes_round_trip_into_translation() {
    let tree = parse("t!('User {0} says: \\'Hello\\'!', 'Alice')").unwrap();
    assert_eq!(tree.translate(NoResolver), "User Alice says: 'Hello'!");
}

#[test]
fn unclosed_brace_is_emitted_verbatim() {
    let tree = parse("t!('Hello {0')").unwrap();
    assert_eq!(tree.translate(NoResolver), "Hello {0");
}

#[test]
fn empty_argument_substitutes_empty_text() {
    let tree = parse("t!('Empty: {0}', '')").unwrap();
    assert_eq!(tree.translate(NoResolver), "Empty: ");
}

#[test]
fn nested_templates_translate_inside_out() {
    let tree = parse("t!('pull {1} error: {0}', t!('inner'), '/file')").unwrap();
    assert_eq!(tree.translate(NoResolver), "pull /file error: inner");
}

#[test]
fn literal_translates_to_itself() {
    let tree = parse("'just text'").unwrap();
    assert_eq!(tree.translate(NoResolver), "just text");
}

#[test]
fn escape_codes_unescape_in_literals() {
    let tree = parse("t!('line\\nbreak\\ttab \\x')").unwrap();
    assert_eq!(tree.translate(NoResolver), "line\nbreak\ttab x");
}

#[test]
fn doubled_close_brace_collapses() {
    let tree = parse("t!('a }}}} b')").unwrap();
    assert_eq!(tree.translate(NoResolver), "a }} b");
}

struct RecordingResolver {
    seen: RefCell<Vec<String>>,
}

impl Resolver for RecordingResolver {
    fn resolve(&self, template: &str) -> String {
        self.seen.borrow_mut().push(template.to_string());
        template.to_string()
    }
}

#[test]
fn resolver_never_sees_unreferenced_arguments() {
    let tree = parse("t!('only {1}', t!('never resolved'), 'used')").unwrap();
    let recorder = RecordingResolver { seen: RefCell::new(Vec::new()) };
    let out = tree.translate(&recorder);
    assert_eq!(out, "only used");
    assert_eq!(*recorder.seen.borrow(), vec!["only {1}".to_string()]);
}

#[test]
fn resolver_sees_each_visited_template_once() {
    let tree = parse("t!('a {0} {0}', t!('b'))").unwrap();
    let recorder = RecordingResolver { seen: RefCell::new(Vec::new()) };
    let out = tree.translate(&recorder);
    assert_eq!(out, "a b b");
    assert_eq!(*recorder.seen.borrow(), vec!["a {0} {0}".to_string(), "b".to_string(), "b".to_string()]);
}

struct UpperResolver;

impl Resolver for UpperResolver {
    fn resolve(&self, template: &str) -> String {
        template.to_uppercase()
    }
}

#[test]
fn resolver_output_is_scanned_for_placeholders() {
    let tree = parse("t!('greet {0}', 'world')").unwrap();
    assert_eq!(tree.translate(UpperResolver), "GREET world");
}

#[test]
fn oversized_and_odd_indices_pass_through() {
    let tree = parse("t!('{99999999999999999999999999}', 'a')").unwrap();
    assert_eq!(tree.translate(NoResolver), "{99999999999999999999999999}");

    let tree = parse("t!('{}', 'a')").unwrap();
    assert_eq!(tree.translate(NoResolver), "{}");

    let tree = parse("t!('{00}{001}', 'x', 'y')").unwrap();
    assert_eq!(tree.translate(NoResolver), "xy");
}

#[test]
fn empty_template_translates_to_empty() {
    let tree = parse("t!('')").unwrap();
    assert_eq!(tree.translate(NoResolver), "");
    let tree = parse("''").unwrap();
    assert_eq!(tree.translate(NoResolver), "");
}

#[test]
fn parse_builds_the_expected_tree() {
    let tree = parse("t!('body {0}', 'leaf', t!('sub'))").unwrap();
    let expected = I18nString::Template(
        "body {0}".to_string(),
        vec![
            I18nString::Literal("leaf".to_string()),
            I18nString::Template("sub".to_string(), vec![]),
        ],
    );
    assert_eq!(tree, expected);
}
