use calculator::evaluate_str;
use calculator::Error;
use calculator::Token;

fn value_of(input: &str) -> i32 {
    evaluate_str(input.to_string()).unwrap().0
}

fn rendered_of(input: &str) -> String {
    evaluate_str(input.to_string()).unwrap().1
}

fn error_of(input: &str) -> Error {
    evaluate_str(input.to_string()).unwrap_err()
}

#[test]
fn plain_literal_is_itself() {
    assert_eq!(evaluate_str("42".to_string()).unwrap(), (42, "42".to_string()));
    assert_eq!(evaluate_str("  42".to_string()).unwrap(), (42, "42".to_string()));
    assert_eq!(evaluate_str("0".to_string()).unwrap(), (0, "0".to_string()));
    assert_eq!(evaluate_str("\t 2147483647".to_string()).unwrap(), (2147483647, "2147483647".to_string()));
}

#[test]
fn subtraction_associates_left() {
    assert_eq!(value_of("1-2-3"), -4);
    assert_eq!(rendered_of("1-2-3"), "<<1-2>-3>");
}

#[test]
fn multiplication_binds_tighter() {
    assert_eq!(value_of("2+3*4"), 14);
    assert_eq!(value_of("(2+3)*4"), 20);
}

#[test]
fn division_truncates_toward_zero() {
    assert_eq!(value_of("7/2"), 3);
    assert_eq!(value_of("-7/2"), -3);
}

#[test]
fn division_by_zero_fails() {
    assert_eq!(error_of("1/0"), Error::DivisionByZero);
}

#[test]
fn unary_minus_only_precedes_a_literal() {
    assert_eq!(error_of("-(1+2)"), Error::UnexpectedToken(Token::LeftParen));
    assert_eq!(error_of("--1"), Error::UnexpectedToken(Token::Sub));
}

#[test]
fn unclosed_group_fails() {
    assert_eq!(error_of("(1+2"), Error::UnbalancedParenthesis);
    assert_eq!(error_of("1+2)"), Error::TrailingInput(Token::RightParen));
}

#[test]
fn trailing_garbage_fails() {
    assert_eq!(error_of("1 2"), Error::TrailingInput(Token::Number(2)));
}

#[test]
fn whitespace_between_tokens_is_insignificant() {
    assert_eq!(value_of("  12   +   3 "), 15);
    assert_eq!(value_of("12+3"), 15);
}

#[test]
fn empty_and_dangling_inputs_fail() {
    assert_eq!(error_of(""), Error::UnexpectedEndOfInput);
    assert_eq!(error_of("   "), Error::UnexpectedEndOfInput);
    assert_eq!(error_of("("), Error::UnexpectedEndOfInput);
    assert_eq!(error_of("1+"), Error::UnexpectedEndOfInput);
    assert_eq!(error_of(")"), Error::UnexpectedToken(Token::RightParen));
}

#[test]
fn invalid_character_is_reported_with_its_index() {
    assert_eq!(error_of("1 + a"), Error::InvalidCharacter(4, 'a'));
    assert_eq!(error_of("x"), Error::InvalidCharacter(0, 'x'));
}

#[test]
fn overflow_wraps_around() {
    assert_eq!(value_of("2147483648"), -2147483648);
    assert_eq!(value_of("-2147483648"), -2147483648);
    assert_eq!(value_of("2147483647+1"), -2147483648);
}

#[test]
fn rendered_output_reevaluates_to_the_same_value() {
    let inputs = [
        "-1 * (-2 + 5)",
        "12 + 34 - (56 / 7) * 8",
        "(-12 + 34) * ((56 / 7) + 8)",
        "1-2-3",
        "2+3*4",
        "7/2",
        "  42",
    ];
    for input in inputs {
        let (value, rendered) = evaluate_str(input.to_string()).unwrap();
        let reparsed = rendered.replace('<', "(").replace('>', ")");
        let (again, _) = evaluate_str(reparsed).unwrap();
        assert_eq!(again, value);
    }
}

#[test]
fn negated_wrapped_literal_renders_unparseably() {
    // The one shape whose rendering cannot be read back: the literal wraps
    // below zero, so the rendering holds two minus signs in a row.
    let (value, rendered) = evaluate_str("-2147483648".to_string()).unwrap();
    assert_eq!(value, -2147483648);
    assert_eq!(rendered, "<--2147483648>");
    let reparsed = rendered.replace('<', "(").replace('>', ")");
    assert_eq!(
        evaluate_str(reparsed).unwrap_err(),
        Error::UnexpectedToken(Token::Sub)
    );
}

#[test]
fn error_messages_describe_the_failure() {
    assert_eq!(error_of("1/0").message(), "division by zero");
    assert_eq!(error_of("").message(), "unexpected end of input");
    assert_eq!(error_of("(1+2").message(), "unbalanced parenthesis");
    assert_eq!(error_of("1 + a").message(), "invalid character 'a' at index 4");
    assert_eq!(error_of("1 2").message(), "trailing input after expression: number 2");
    assert_eq!(error_of("--5").message(), "unexpected token '-'");
}
