use postfix_calc::processor::apply;
use postfix_calc::{evaluate, CalcError, Converter, Processor, Stackable};

#[test]
fn calculate_plus() {
    let example_string = String::from("4 2 +");

    let mut processor = Processor::new(example_string).unwrap();
    assert_eq!(processor.calculate(), Ok(6))
}

#[test]
fn calculate_minus() {
    let example_string = String::from("4 2 -");

    let mut processor = Processor::new(example_string).unwrap();
    assert_eq!(processor.calculate(), Ok(2))
}

#[test]
fn calculate_multi() {
    let example_string = String::from("4 2 *");

    let mut processor = Processor::new(example_string).unwrap();
    assert_eq!(processor.calculate(), Ok(8))
}

#[test]
fn calculate_div() {
    let example_string = String::from("8 2 /");

    let mut processor = Processor::new(example_string).unwrap();
    assert_eq!(processor.calculate(), Ok(4))
}

#[test]
fn calculate_complex() {
    let example_string = String::from("5 1 2 + 4 * + 3 -");

    let mut processor = Processor::new(example_string).unwrap();
    assert_eq!(processor.calculate(), Ok(14))
}

#[test]
fn calculate_division_by_zero() {
    let mut processor = Processor::new(String::from("8 0 /")).unwrap();
    assert_eq!(processor.calculate(), Err(CalcError::DivisionByZero));
}

#[test]
fn calculate_operator_first_underflows() {
    let mut processor = Processor::new(String::from("+ 4 2")).unwrap();
    assert_eq!(processor.calculate(), Err(CalcError::StackUnderflow));
}

#[test]
fn calculate_trailing_or_missing_result() {
    let mut processor = Processor::new(String::from("4 2")).unwrap();
    assert_eq!(processor.calculate(), Err(CalcError::TrailingOrMissingResult(2)));
    let mut processor = Processor::new(String::from("")).unwrap();
    assert_eq!(processor.calculate(), Err(CalcError::TrailingOrMissingResult(0)));
}

#[test]
fn calculate_overflow() {
    let mut processor = Processor::new(String::from("2147483647 1 +")).unwrap();
    assert_eq!(processor.calculate(), Err(CalcError::Overflow));
    let mut processor = Processor::new(String::from("-2147483648 -1 /")).unwrap();
    assert_eq!(processor.calculate(), Err(CalcError::Overflow));
    let mut processor = Processor::new(String::from("65536 65536 *")).unwrap();
    assert_eq!(processor.calculate(), Err(CalcError::Overflow));
}

#[test]
fn calculate_truncating_division() {
    let mut processor = Processor::new(String::from("7 -2 /")).unwrap();
    assert_eq!(processor.calculate(), Ok(-3));
    let mut processor = Processor::new(String::from("-7 2 /")).unwrap();
    assert_eq!(processor.calculate(), Ok(-3));
    let mut processor = Processor::new(String::from("-7 -2 /")).unwrap();
    assert_eq!(processor.calculate(), Ok(3));
}

#[test]
fn calculate_first_error_wins() {
    let mut processor = Processor::new(String::from("1 0 / +")).unwrap();
    assert_eq!(processor.calculate(), Err(CalcError::DivisionByZero));
}

#[test]
fn calculate_is_repeatable() {
    let mut processor = Processor::new(String::from("3 4 * 2 -")).unwrap();
    assert_eq!(processor.calculate(), Ok(10));
    assert_eq!(processor.calculate(), Ok(10));
}

#[test]
fn new_rejects_malformed_operand() {
    assert!(matches!(
        Processor::new(String::from("4 two +")),
        Err(CalcError::MalformedOperand(ref f)) if f == "two"
    ));
}

#[test]
fn evaluate_unexpected_operator() {
    let tokens = vec![Stackable::Value(1), Stackable::Value(2), Stackable::Operation('%')];
    assert_eq!(evaluate(&tokens), Err(CalcError::UnexpectedOperator('%')));
}

#[test]
fn apply_each_operator() {
    assert_eq!(apply('+', 4, 2), Ok(6));
    assert_eq!(apply('-', 4, 6), Ok(-2));
    assert_eq!(apply('*', -4, 2), Ok(-8));
    assert_eq!(apply('/', 9, 2), Ok(4));
    assert_eq!(apply('/', 9, 0), Err(CalcError::DivisionByZero));
    assert_eq!(apply('^', 9, 2), Err(CalcError::UnexpectedOperator('^')));
}

#[test]
fn convert_then_evaluate_matches_infix() {
    let cases = [
        ("4 / 2 + 3 * 2", 8),
        ("2 + 3 * 4", 14),
        ("10 - 4 - 3", 3),
        ("20 / 2 / 5", 2),
        ("1 - 2 * 3 + 8 / 4", -3),
        ("7", 7),
    ];
    for (text, expected) in cases {
        let c = Converter::convert(String::from(text)).unwrap();
        assert_eq!(evaluate(&c.postfix), Ok(expected), "{}", text);
    }
}
