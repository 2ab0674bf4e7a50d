use calculator::eval::{eval, evaluate_expression};
use calculator::lexer::{Lexer, Token};
use calculator::parser::{Expr, ParseFailure, Parser};

fn value_of(input: &str) -> Result<i64, ParseFailure> {
    evaluate_expression(input.chars().collect())
}

fn do_eval(input: &str, expect: i64) {
    let lexer = Lexer::new(input.chars().collect());
    let mut parser = Parser::new(lexer);
    let result = eval(&parser.parse().unwrap());
    assert_eq!(result, Ok(expect));
}

#[test]
fn test_eval() {
    do_eval("1 + 2", 3);
    do_eval("1 + 2 * 3", 7);
    do_eval("1 + (2 + 3) * -(3 / 3)", -4);
}

#[test]
fn subtraction_groups_to_the_left() {
    assert_eq!(value_of("8 - 3 - 2"), Ok(3));
    assert_eq!(value_of("100 / 10 / 5"), Ok(2));
}

#[test]
fn product_before_sum() {
    assert_eq!(value_of("1 + 2 * 3"), Ok(7));
    assert_eq!(value_of("(1 + 2) * 3"), Ok(9));
}

#[test]
fn minus_in_front_before_binary_operators() {
    assert_eq!(value_of("-1 + 2 * 3"), Ok(5));
    assert_eq!(value_of("-2 * -3"), Ok(6));
    assert_eq!(value_of("--7"), Ok(7));
}

#[test]
fn groups_and_nested_negation() {
    assert_eq!(value_of("1 + (2 + 3) * -(3 / 3)"), Ok(-4));
}

#[test]
fn a_number_is_its_own_value() {
    assert_eq!(value_of("42"), Ok(42));
    assert_eq!(value_of("  0  "), Ok(0));
    assert_eq!(value_of("9223372036854775807"), Ok(i64::MAX));
    assert_eq!(value_of("-9223372036854775807 - 1"), Ok(i64::MIN));
}

#[test]
fn the_four_operations() {
    assert_eq!(value_of("6 + 3"), Ok(9));
    assert_eq!(value_of("6 - 9"), Ok(-3));
    assert_eq!(value_of("6 * 3"), Ok(18));
    assert_eq!(value_of("6 / 3"), Ok(2));
}

#[test]
fn division_rounds_towards_zero() {
    assert_eq!(value_of("7 / 2"), Ok(3));
    assert_eq!(value_of("-7 / 2"), Ok(-3));
    assert_eq!(value_of("7 / -2"), Ok(-3));
    assert_eq!(value_of("-7 / -2"), Ok(3));
    assert_eq!(value_of("1 / 2"), Ok(0));
    assert_eq!(value_of("-1 / 2"), Ok(0));
    assert_eq!(value_of("0 / 5"), Ok(0));
}

#[test]
fn division_by_zero_is_a_failure() {
    assert_eq!(value_of("1 / 0"), Err(ParseFailure::DivisionByZero));
    assert_eq!(value_of("0 / 0"), Err(ParseFailure::DivisionByZero));
    assert_eq!(value_of("1 / (2 - 2)"), Err(ParseFailure::DivisionByZero));
    assert_eq!(value_of("3 + 4 * (5 / -0)"), Err(ParseFailure::DivisionByZero));
}

#[test]
fn results_that_do_not_fit_are_a_failure() {
    assert_eq!(
        value_of("9223372036854775807 + 1"),
        Err(ParseFailure::Overflow)
    );
    assert_eq!(
        value_of("-9223372036854775807 - 2"),
        Err(ParseFailure::Overflow)
    );
    assert_eq!(
        value_of("4611686018427387904 * 2"),
        Err(ParseFailure::Overflow)
    );
    assert_eq!(
        value_of("(-9223372036854775807 - 1) / -1"),
        Err(ParseFailure::Overflow)
    );
    assert_eq!(
        value_of("-(-9223372036854775807 - 1)"),
        Err(ParseFailure::Overflow)
    );
    assert_eq!(value_of("4611686018427387904 * -2"), Ok(i64::MIN));
}

#[test]
fn numbers_that_do_not_fit_are_a_failure() {
    assert_eq!(
        value_of("9223372036854775808"),
        Err(ParseFailure::NumberTooLarge)
    );
    assert_eq!(
        value_of("-9223372036854775808"),
        Err(ParseFailure::NumberTooLarge)
    );
    assert_eq!(
        value_of("1 + 99999999999999999999"),
        Err(ParseFailure::NumberTooLarge)
    );
    assert_eq!(
        value_of("( 99999999999999999999"),
        Err(ParseFailure::NumberTooLarge)
    );
}

#[test]
fn malformed_text_is_a_failure() {
    assert_eq!(value_of(""), Err(ParseFailure::EmptyInput));
    assert_eq!(value_of("("), Err(ParseFailure::EmptyInput));
    assert_eq!(value_of("1 +"), Err(ParseFailure::EmptyInput));
    assert_eq!(value_of("+ 1"), Err(ParseFailure::UnexpectedToken));
    assert_eq!(value_of(")"), Err(ParseFailure::UnexpectedToken));
    assert_eq!(value_of("(1 + 2"), Err(ParseFailure::UnmatchedParenthesis));
    assert_eq!(value_of("(1 2)"), Err(ParseFailure::UnmatchedParenthesis));
}

#[test]
fn the_first_failure_is_the_one_reported() {
    assert_eq!(
        value_of("1 / 0 + (9223372036854775807 + 1)"),
        Err(ParseFailure::DivisionByZero)
    );
    assert_eq!(
        value_of("(9223372036854775807 + 1) + 1 / 0"),
        Err(ParseFailure::Overflow)
    );
    assert_eq!(
        value_of("(9223372036854775807 + 1) / 0"),
        Err(ParseFailure::Overflow)
    );
    assert_eq!(value_of("1 / 0 + ("), Err(ParseFailure::EmptyInput));
}

#[test]
fn tokens_behind_the_expression_are_not_read() {
    assert_eq!(value_of("1 2"), Ok(1));
    assert_eq!(value_of("1 + 2 ) * 5"), Ok(3));
    assert_eq!(value_of("4 (1 / 0)"), Ok(4));
}

#[test]
fn characters_that_mean_nothing_are_passed_over() {
    assert_eq!(value_of("1_000 + 1"), Ok(1));
    assert_eq!(value_of("two + 2"), Err(ParseFailure::UnexpectedToken));
    assert_eq!(value_of("2 + x3"), Ok(5));
    assert_eq!(value_of("1\t+\n2"), Ok(3));
}

#[test]
fn a_tree_built_by_hand() {
    let tree = Expr::InfixExpr {
        left: Box::new(Expr::PrefixExpr {
            operator: Token::Minus,
            right: Box::new(Expr::Number(-5)),
        }),
        operator: Token::Asterisk,
        right: Box::new(Expr::InfixExpr {
            left: Box::new(Expr::Number(10)),
            operator: Token::Minus,
            right: Box::new(Expr::Number(4)),
        }),
    };
    assert_eq!(eval(&tree), Ok(30));
    assert_eq!(eval(&Expr::Number(i64::MIN)), Ok(i64::MIN));
}
