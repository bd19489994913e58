use tracing_assertions::AssertionType;
use tracing_assertions::Layer;

#[derive(Debug)]
struct Point {
    x: i32,
    y: i32,
}

#[test]
fn literal_rule_accepts_the_equal_message_only() {
    let rule = AssertionType::matches("one");
    assert!(rule.accepts(&String::from("one")));
    assert!(!rule.accepts(&String::from("one two")));
    assert!(!rule.accepts(&String::from("One")));
    assert!(!rule.accepts(&String::new()));
    assert_eq!(rule.to_string(), "one");
}

#[test]
fn regex_rule_accepts_a_message_with_a_match_anywhere() {
    let rule = AssertionType::regex("a.c").unwrap();
    assert!(rule.accepts(&String::from("abc")));
    assert!(rule.accepts(&String::from("xxabcxx")));
    assert!(!rule.accepts(&String::from("a.")));
    assert!(!rule.accepts(&String::from("ac")));
    assert!(!rule.accepts(&String::from("a.c").replace('.', "")));
    assert_eq!(rule.to_string(), "a.c");
}

#[test]
fn regex_rule_is_no_literal() {
    let rule = AssertionType::regex("^one|two$").unwrap();
    assert!(!rule.accepts(&String::from("^one|tw")));
    assert!(rule.accepts(&String::from("one")));
    assert!(rule.accepts(&String::from("two")));
}

#[test]
fn rule_with_a_pattern_that_does_not_compile_accepts_nothing() {
    let rule = AssertionType::Regex(String::from("("));
    assert!(!rule.accepts(&String::from("(")));
    assert!(!rule.accepts(&String::new()));
}

#[test]
fn clone_of_a_rule_is_the_same_rule() {
    let rule = AssertionType::regex("[0-9]+").unwrap();
    let copy = rule.clone();
    assert_eq!(copy.to_string(), "[0-9]+");
    assert!(copy.accepts(&String::from("a1")));
    assert!(matches!(copy, AssertionType::Regex(_)));
    let literal = AssertionType::matches("[0-9]+").clone();
    assert!(matches!(literal, AssertionType::Matches(_)));
    assert!(!literal.accepts(&String::from("1")));
}

#[test]
fn malformed_pattern_is_refused_with_the_reason() {
    let made = AssertionType::regex("foo(bar");
    let error = made.err().unwrap();
    assert_eq!(error.pattern, "foo(bar");
    assert_eq!(error.message, regex::Regex::new("foo(bar").unwrap_err().to_string());
    assert_eq!(error.to_string(), error.message);
    assert!(!error.message.is_empty());
}

#[test]
fn pattern_that_compiles_too_big_is_refused() {
    let made = AssertionType::regex("\\w{1000}");
    let error = made.err().unwrap();
    assert_eq!(error.pattern, "\\w{1000}");
    assert_eq!(error.message, regex::Regex::new("\\w{1000}").unwrap_err().to_string());
}

#[test]
fn layer_refuses_a_malformed_pattern_and_stays_as_it_was() {
    let mut layer = Layer::new();
    let one = layer.matches("one");
    let made = layer.regex("[a-");
    assert!(made.is_err());
    assert_eq!(made.err().unwrap().pattern, "[a-");
    assert_eq!(layer.len(), 1);
    assert_eq!(layer.pending(), vec![0]);
    layer.deliver("[a-");
    assert!(!one.eval(&layer));
    assert_eq!(layer.pending(), vec![0]);
}

#[test]
fn regex_expectation_is_declared_like_any_other() {
    let mut layer = Layer::new();
    let digits = layer.regex("^[0-9]+$").unwrap();
    assert_eq!(digits.leaves(), vec![0]);
    assert_eq!(layer.pending(), vec![0]);
    layer.deliver("12a");
    assert!(!digits.eval(&layer));
    layer.deliver("123");
    assert!(digits.eval(&layer));
}

#[test]
fn debug_expectation_matches_what_debug_prints() {
    let mut layer = Layer::new();
    let point = layer.debug(Point { x: 2, y: 3 });
    let text = layer.debug("a \"b\"");
    layer.deliver("Point { x: 2, y: 3 }");
    assert!(point.eval(&layer));
    assert!(!text.eval(&layer));
    layer.deliver("a \"b\"");
    assert!(!text.eval(&layer));
    layer.deliver("\"a \\\"b\\\"\"");
    assert!(text.eval(&layer));
    assert_eq!(Point { x: 2, y: 3 }.x + Point { x: 2, y: 3 }.y, 5);
}

#[test]
fn report_of_one_expectation_is_its_text_in_quotes_and_colour() {
    let mut layer = Layer::new();
    let one = layer.matches("one");
    assert_eq!(one.ansi(&layer), "\u{1b}[31m\"one\"\u{1b}[0m");
    assert_eq!(one.ansi(&layer), ansi_term::Colour::Red.paint("\"one\"").to_string());
    layer.deliver("one");
    assert_eq!(one.ansi(&layer), "\u{1b}[32m\"one\"\u{1b}[0m");
    assert_eq!(one.ansi(&layer), ansi_term::Colour::Green.paint("\"one\"").to_string());
}

#[test]
fn report_escapes_the_text_as_debug_does() {
    let mut layer = Layer::new();
    let text = layer.matches("say \"hi\"\n\\");
    assert_eq!(text.ansi(&layer), "\u{1b}[31m\"say \\\"hi\\\"\\n\\\\\"\u{1b}[0m");
    let empty = layer.matches("");
    assert_eq!(empty.ansi(&layer), "\u{1b}[31m\"\"\u{1b}[0m");
}

#[test]
fn report_shows_a_pattern_as_it_was_written() {
    let mut layer = Layer::new();
    let pattern = layer.regex("01234.789").unwrap();
    layer.deliver("0123456789");
    assert_eq!(pattern.check(&layer).err(), Some(String::from("\u{1b}[31m\"01234.789\"\u{1b}[0m")));
}

#[test]
fn report_follows_the_switch() {
    let mut layer = Layer::new();
    let one = layer.matches("one");
    let negation = one.not();
    layer.disable();
    assert_eq!(negation.ansi(&layer), "!\u{1b}[32m\"one\"\u{1b}[0m");
    assert_eq!(negation.check(&layer).err(), Some(String::from("!\u{1b}[32m\"one\"\u{1b}[0m")));
    layer.enable();
    assert_eq!(negation.ansi(&layer), "!\u{1b}[31m\"one\"\u{1b}[0m");
    assert!(negation.check(&layer).is_ok());
}

#[test]
fn report_of_or_and_not() {
    let mut layer = Layer::new();
    let a = layer.matches("a");
    let b = layer.matches("b");
    let either = a.or(&b);
    let negation = either.not();
    layer.deliver("b");
    assert_eq!(
        negation.ansi(&layer),
        "!(\u{1b}[31m\"a\"\u{1b}[0m || \u{1b}[32m\"b\"\u{1b}[0m)"
    );
}

#[test]
fn debug_rule_is_the_literal_that_debug_prints() {
    let rule = AssertionType::debug(&Point { x: -1, y: 7 });
    assert!(matches!(rule, AssertionType::Matches(_)));
    assert_eq!(rule.to_string(), "Point { x: -1, y: 7 }");
    assert!(rule.accepts(&String::from("Point { x: -1, y: 7 }")));
    let text = AssertionType::debug(&"a.c");
    assert_eq!(text.to_string(), "\"a.c\"");
    assert!(!text.accepts(&String::from("abc")));
}

#[test]
fn report_without_colours_is_the_same_in_every_state() {
    let mut layer = Layer::new();
    let a = layer.matches("a");
    let b = layer.regex("b+").unwrap();
    let c = layer.matches("m[0m");
    let tree = a.and(&b).or(&c.not());
    let strip = |report: String| {
        report.replace("\u{1b}[32m", "").replace("\u{1b}[31m", "").replace("\u{1b}[0m", "")
    };
    let plain = "((\"a\" && \"b+\") || !\"m[0m\")";
    assert_eq!(strip(tree.ansi(&layer)), plain);
    layer.deliver("a");
    assert_eq!(strip(tree.ansi(&layer)), plain);
    layer.deliver("bb");
    layer.deliver("m[0m");
    assert_eq!(strip(tree.ansi(&layer)), plain);
    layer.disable();
    assert_eq!(strip(tree.ansi(&layer)), plain);
    layer.enable();
    tree.reset(&mut layer);
    assert_eq!(strip(tree.ansi(&layer)), plain);
    assert_eq!(
        tree.ansi(&layer),
        "((\u{1b}[31m\"a\"\u{1b}[0m && \u{1b}[31m\"b+\"\u{1b}[0m) || !\u{1b}[31m\"m[0m\"\u{1b}[0m)"
    );
}
