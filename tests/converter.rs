use postfix_calc::{evaluate, CalcError, Converter, Stackable};

#[test]
fn parse_simple() {
    let example_string = String::from("33 + 23");

    let converter = Converter::convert(example_string).unwrap();
    assert_eq!(converter.result, String::from("33 23 +"))
}

#[test]
fn parse_complex() {
    let example_string = String::from("4 / 2 + 3 * 2");

    // `4 / 2` and `3 * 2` both bind tighter than `+`, and each is emitted
    // as soon as an operator of lower or equal precedence arrives.
    let converter = Converter::convert(example_string).unwrap();
    assert_eq!(converter.result, String::from("4 2 / 3 2 * +"));
    assert_eq!(evaluate(&converter.postfix), Ok(8));
}

#[test]
fn parse_reads_operators_and_operands() {
    let tokens = Converter::parse("12 + -3 * 4 / 2 - 1").unwrap();
    assert_eq!(
        tokens,
        vec![
            Stackable::Value(12),
            Stackable::Operation('+'),
            Stackable::Value(-3),
            Stackable::Operation('*'),
            Stackable::Value(4),
            Stackable::Operation('/'),
            Stackable::Value(2),
            Stackable::Operation('-'),
            Stackable::Value(1),
        ]
    );
}

#[test]
fn parse_splits_on_any_whitespace() {
    let tokens = Converter::parse("  7\t+\n 8 \u{3000}*\r\n9  ").unwrap();
    assert_eq!(
        tokens,
        vec![
            Stackable::Value(7),
            Stackable::Operation('+'),
            Stackable::Value(8),
            Stackable::Operation('*'),
            Stackable::Value(9),
        ]
    );
}

#[test]
fn parse_empty_text() {
    assert_eq!(Converter::parse(""), Ok(vec![]));
    assert_eq!(Converter::parse(" \t\n "), Ok(vec![]));
}

#[test]
fn parse_signed_literals() {
    assert_eq!(
        Converter::parse("+5 -2147483648 2147483647"),
        Ok(vec![
            Stackable::Value(5),
            Stackable::Value(-2147483648),
            Stackable::Value(2147483647),
        ])
    );
}

#[test]
fn parse_malformed_operand() {
    assert_eq!(
        Converter::parse("1 + x2 * y"),
        Err(CalcError::MalformedOperand(String::from("x2")))
    );
    assert_eq!(
        Converter::parse("2147483648"),
        Err(CalcError::MalformedOperand(String::from("2147483648")))
    );
    assert_eq!(
        Converter::parse("3 ++ 4"),
        Err(CalcError::MalformedOperand(String::from("++")))
    );
    assert_eq!(
        Converter::parse("3 + 4 -"),
        Ok(vec![
            Stackable::Value(3),
            Stackable::Operation('+'),
            Stackable::Value(4),
            Stackable::Operation('-'),
        ])
    );
    assert_eq!(
        Converter::parse("5 %"),
        Err(CalcError::MalformedOperand(String::from("%")))
    );
}

#[test]
fn convert_malformed_operand() {
    assert!(matches!(
        Converter::convert(String::from("1 + 2.5")),
        Err(CalcError::MalformedOperand(ref f)) if f == "2.5"
    ));
}

#[test]
fn convert_equal_precedence_is_left_to_right() {
    let c = Converter::convert(String::from("5 - 3 + 1")).unwrap();
    assert_eq!(c.result, "5 3 - 1 +");
    assert_eq!(evaluate(&c.postfix), Ok(3));

    let c = Converter::convert(String::from("100 / 10 * 2")).unwrap();
    assert_eq!(c.result, "100 10 / 2 *");
    assert_eq!(evaluate(&c.postfix), Ok(20));
}

#[test]
fn convert_keeps_precedence() {
    let c = Converter::convert(String::from("1 + 2 * 3 - 4")).unwrap();
    assert_eq!(c.result, "1 2 3 * + 4 -");
    assert_eq!(evaluate(&c.postfix), Ok(3));
    assert_eq!(c.raw, "1 + 2 * 3 - 4");
}

#[test]
fn convert_keeps_token_counts() {
    let c = Converter::convert(String::from("1 + 2 * 3 - 4 / 5")).unwrap();
    let values = c.postfix().iter().filter(|t| matches!(t, Stackable::Value(_))).count();
    let operators = c.postfix().iter().filter(|t| matches!(t, Stackable::Operation(_))).count();
    assert_eq!(values, 5);
    assert_eq!(operators, 4);
}

#[test]
fn convert_renders_negative_operands() {
    let c = Converter::convert(String::from("-12 - -3 * +4")).unwrap();
    assert_eq!(c.result, "-12 -3 4 * -");
    assert_eq!(evaluate(&c.postfix), Ok(0));
}

#[test]
fn convert_single_operand_and_empty() {
    let c = Converter::convert(String::from("42")).unwrap();
    assert_eq!(c.result, "42");
    let c = Converter::convert(String::from("")).unwrap();
    assert_eq!(c.result, "");
    assert!(c.postfix.is_empty());
}

#[test]
fn convert_is_deterministic() {
    let a = Converter::convert(String::from("8 - 2 * 3 + 1")).unwrap();
    let b = Converter::convert(String::from("8 - 2 * 3 + 1")).unwrap();
    assert_eq!(a.result, b.result);
    assert_eq!(a.postfix, b.postfix);
}

#[test]
fn process_and_render_tokens() {
    let infix = vec![
        Stackable::Value(2),
        Stackable::Operation('*'),
        Stackable::Value(3),
        Stackable::Operation('+'),
        Stackable::Value(4),
    ];
    let postfix = Converter::process(&infix);
    assert_eq!(
        postfix,
        vec![
            Stackable::Value(2),
            Stackable::Value(3),
            Stackable::Operation('*'),
            Stackable::Value(4),
            Stackable::Operation('+'),
        ]
    );
    assert_eq!(postfix_calc::converter::render(&postfix), "2 3 * 4 +");
}
