use calculator::evaluate;
use calculator::TokenParser;

#[test]
fn calc_test_expr1() {
    let parser = TokenParser::new("-1 * (-2 + 5)".to_string());
    let n = evaluate(parser).unwrap();
    assert_eq!(n.eval().unwrap(), -3);
}

#[test]
fn calc_test_expr2() {
    let parser = TokenParser::new("12 + 34 - (56 / 7) * 8".to_string());
    let n = evaluate(parser).unwrap();
    assert_eq!(n.eval().unwrap(), -18);
}

#[test]
fn test_expr3() {
    let parser = TokenParser::new("(-12 + 34) * ((56 / 7) + 8)".to_string());
    let n = evaluate(parser).unwrap();
    assert_eq!(n.eval().unwrap(), 352);
}

#[test]
fn main_test_expr1() {
    let input = "-1 * (-2 + 5)".to_string();
    let parser = TokenParser::new(input);
    let n = evaluate(parser).unwrap();
    assert_eq!(n.eval().unwrap(), -3);
}

#[test]
fn main_test_expr2() {
    let input = "12 + 34 - (56 / 7) * 8".to_string();
    let parser = TokenParser::new(input);
    let n = evaluate(parser).unwrap();
    assert_eq!(n.eval().unwrap(), -18);
}

#[test]
fn renders_canonical_form() {
    let parser = TokenParser::new("-1 * (-2 + 5)".to_string());
    let n = evaluate(parser).unwrap();
    assert_eq!(n.repr(), "<<-1>*(<<-2>+5>)>");
}

#[test]
fn renders_worked_example() {
    let (value, rendered) = calculator::evaluate_str("12 + 34 - (56 / 7) * 8".to_string()).unwrap();
    assert_eq!(value, -18);
    assert_eq!(rendered, "<<12+34>-<(<56/7>)*8>>");
}
