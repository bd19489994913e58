use tracing_assertions::Assertion;
use tracing_assertions::Layer;

/// Hands the assertion back if it holds and panics with its report if not.
fn hold<'a>(assertion: &'a Assertion, layer: &Layer) -> &'a Assertion {
    match assertion.check(layer) {
        Ok(same) => same,
        Err(report) => panic!("{}", report),
    }
}

#[derive(Debug)]
struct MyStruct {
    x: i32,
    y: i32,
}

#[test]
fn regex_pass() {
    let mut asserter = Layer::default();
    let condition = asserter.regex("01234.6789").unwrap();
    asserter.deliver("0123456789");
    hold(&condition, &asserter);
}

#[should_panic(expected = "\u{1b}[31m\"01234.789\"\u{1b}[0m")]
#[test]
fn regex_fail() {
    let mut asserter = Layer::default();
    let condition = asserter.regex("01234.789").unwrap();
    asserter.deliver("0123456789");
    hold(&condition, &asserter);
}

#[test]
fn debug() {
    let mut asserter = Layer::default();
    let value = MyStruct { x: 2, y: 3 };
    assert_eq!(value.x + value.y, 5);
    let condition = asserter.debug(&value);
    asserter.deliver(&format!("{value:?}"));
    hold(&condition, &asserter);
}

#[test]
fn pass_all() {
    let mut asserter = Layer::default();

    asserter.deliver("stuff");
    let condition = asserter.matches("missing");
    asserter.disable();
    asserter.deliver("more stuff");
    hold(&condition, &asserter);
    asserter.enable();
    let negation = condition.not();
    hold(&negation, &asserter);
}

#[test]
#[should_panic(
    expected = "((\u{1b}[32m\"one\"\u{1b}[0m && \u{1b}[31m\"two\"\u{1b}[0m) || (\u{1b}[31m\"three\"\u{1b}[0m && !\u{1b}[31m\"four\"\u{1b}[0m))"
)]
fn panics() {
    let mut asserter = Layer::default();
    let one = asserter.matches("one");
    let two = asserter.matches("two");
    let three = asserter.matches("three");
    let four = asserter.matches("four");
    let one_and_two = one.and(&two);
    let not_four = four.not();
    let three_and_not_four = three.and(&not_four);
    let assertion = one_and_two.or(&three_and_not_four);
    asserter.deliver("one");
    asserter.disable();
    hold(&assertion, &asserter);
    assert_eq!(assertion.ansi(&asserter),"((\u{1b}[32m\"one\"\u{1b}[0m && \u{1b}[32m\"two\"\u{1b}[0m) || (\u{1b}[32m\"three\"\u{1b}[0m && !\u{1b}[32m\"four\"\u{1b}[0m))");
    asserter.enable();
    hold(&assertion, &asserter);
}

#[test]
fn and() {
    let mut asserter = Layer::default();
    let one = asserter.matches("one");
    let two = asserter.matches("two");
    let two_again = two.clone(&mut asserter);
    let a = one.and(&two_again);
    let one_again = one.clone(&mut asserter);
    let b = one_again.and(&two);
    let c = one.and(&two);
    let d = one.and(&two);
    asserter.deliver("one");
    asserter.deliver("two");
    hold(&a, &asserter);
    hold(&b, &asserter);
    hold(&c, &asserter);
    hold(&d, &asserter);
}

#[test]
fn or() {
    let mut asserter = Layer::default();
    let one = asserter.matches("one");
    let two = asserter.matches("two");
    let two_again = two.clone(&mut asserter);
    let a = one.or(&two_again);
    let one_again = one.clone(&mut asserter);
    let b = one_again.or(&two);
    let c = one.or(&two);
    let d = one.or(&two);
    asserter.deliver("one");
    hold(&a, &asserter);
    hold(&b, &asserter);
    hold(&c, &asserter);
    hold(&d, &asserter);
}

#[test]
fn matches() {
    let mut asserter = Layer::default();

    let two = asserter.matches("two");
    let three = asserter.matches("three");
    let or = two.or(&three);
    let and = two.and(&three);
    let two_again = two.clone(&mut asserter);
    let three_again = three.clone(&mut asserter);
    let or2 = two_again.or(&three_again);
    let two_again = two.clone(&mut asserter);
    let three_again = three.clone(&mut asserter);
    let and2 = two_again.and(&three_again);

    // The assertion is false as message matching `two` has not been encountered.
    hold(&two.not(), &asserter);

    asserter.deliver("one");

    // Still false.
    hold(&two.not(), &asserter);
    hold(&or.not(), &asserter);
    hold(&or2.not(), &asserter);

    asserter.deliver("two");

    // The assertion is true as a message matching `two` has been encountered.
    hold(&two, &asserter);
    hold(&or, &asserter);
    hold(&or2, &asserter);
    hold(&and.not(), &asserter);
    hold(&and2.not(), &asserter);

    asserter.deliver("three");

    // Still true.
    hold(&two, &asserter);
    hold(&and, &asserter);
    hold(&and2, &asserter);

    // If an assertion is created after the message, it will be false.
    // Each assertion can only be fulfilled based on messages after its creation.
    let two = asserter.matches("two");
    hold(&two.not(), &asserter);
    assert!(!two.eval(&asserter));
}

#[test]
fn repeat() {
    let mut asserter = Layer::default();

    let one = asserter.matches("one");
    let two = asserter.matches("two");
    let or = one.or(&two);
    let and = one.and(&two);
    let not = one.not();

    asserter.deliver("one");
    asserter.deliver("two");

    hold(&one, &asserter);
    hold(&two, &asserter);
    hold(&or, &asserter);
    hold(&and, &asserter);
    hold(&not.not(), &asserter);

    let one2 = one.repeat(&mut asserter);
    let two2 = two.repeat(&mut asserter);
    let or2 = or.repeat(&mut asserter);
    let and2 = and.repeat(&mut asserter);
    let not2 = not.repeat(&mut asserter);

    hold(&one2.not(), &asserter);
    hold(&two2.not(), &asserter);
    hold(&or2.not(), &asserter);
    hold(&and2.not(), &asserter);
    let not_not2 = not2.not();
    hold(&not_not2.not(), &asserter);

    asserter.deliver("one");
    asserter.deliver("two");

    hold(&one2, &asserter);
    hold(&two2, &asserter);
    hold(&or2, &asserter);
    hold(&and2, &asserter);
    hold(&not2.not(), &asserter);
}

#[test]
fn reset() {
    let mut asserter = Layer::default();

    let one = asserter.matches("one");
    let two = asserter.matches("two");
    let or = one.or(&two);
    let and = one.and(&two);
    let not = one.not();

    hold(&not, &asserter).reset(&mut asserter);

    asserter.deliver("one");
    asserter.deliver("two");

    hold(&one, &asserter).reset(&mut asserter);
    hold(&two, &asserter).reset(&mut asserter);
    // `or`, `and` and `not` hold the expectations of `one` and `two`, so
    // the two resets have reached them.
    assert!(!or.eval(&asserter));
    or.reset(&mut asserter);
    assert!(!and.eval(&asserter));
    and.reset(&mut asserter);

    hold(&one.not(), &asserter);
    hold(&two.not(), &asserter);
    hold(&or.not(), &asserter);
    hold(&and.not(), &asserter);
    assert!(!not.not().eval(&asserter));

    asserter.deliver("one");
    asserter.deliver("two");

    hold(&one, &asserter);
    hold(&two, &asserter);
    hold(&or, &asserter);
    hold(&and, &asserter);
    hold(&not.not(), &asserter);
}
