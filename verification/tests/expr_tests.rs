use gengen::expr::{compute, evaluate_postfix, tokenize, Eval, Op, Token};

fn eval(text: &str) -> Option<i64> {
    Eval::new().eval(text)
}

#[test]
fn multiplication_binds_tighter_than_addition() {
    assert_eq!(eval("3 + 4 * 2"), Some(11));
}

#[test]
fn parentheses_group() {
    assert_eq!(eval("( 3 + 4 ) * 2"), Some(14));
}

#[test]
fn division_by_zero_has_no_value() {
    assert_eq!(eval("8 / 0"), None);
}

#[test]
fn two_operators_in_a_row_have_no_value() {
    assert_eq!(eval("3 + + 4"), None);
    assert_eq!(Eval::new().to_postfix("3 + + 4"), None);
}

#[test]
fn two_operands_in_a_row_have_no_value() {
    assert_eq!(eval("3 4"), None);
    assert_eq!(Eval::new().to_postfix("3 4"), None);
}

#[test]
fn leading_operator_has_no_value() {
    assert_eq!(eval("+ 3"), None);
    assert_eq!(Eval::new().to_postfix("- 3"), None);
}

#[test]
fn trailing_operator_has_no_value() {
    assert_eq!(
        Eval::new().to_postfix("3 +"),
        Some(vec![Token::Number(3), Token::Operator(Op::Add)])
    );
    assert_eq!(eval("3 +"), None);
}

#[test]
fn unknown_word_has_no_value() {
    assert_eq!(eval("3 + x"), None);
    assert_eq!(Eval::new().to_postfix("3 ^ 4"), None);
}

#[test]
fn closing_parenthesis_without_opening_fails() {
    assert_eq!(Eval::new().to_postfix("3 )"), None);
    assert_eq!(eval("3 + 4 )"), None);
}

#[test]
fn opening_parenthesis_without_closing_is_dropped() {
    assert_eq!(
        Eval::new().to_postfix("( 3 + 4"),
        Some(vec![Token::Number(3), Token::Number(4), Token::Operator(Op::Add)])
    );
    assert_eq!(eval("( 3 + 4"), Some(7));
    assert_eq!(eval("2 * ( 3 + 4"), Some(14));
}

#[test]
fn empty_text_has_no_value() {
    assert_eq!(Eval::new().to_postfix(""), Some(vec![]));
    assert_eq!(eval(""), None);
    assert_eq!(eval("   "), None);
}

#[test]
fn empty_parentheses_have_no_value() {
    assert_eq!(Eval::new().to_postfix("( )"), Some(vec![]));
    assert_eq!(eval("( )"), None);
}

#[test]
fn equal_precedence_goes_left_to_right() {
    assert_eq!(eval("8 - 3 - 2"), Some(3));
    assert_eq!(eval("8 / 2 / 2"), Some(2));
    assert_eq!(eval("8 / 2 * 3"), Some(12));
    assert_eq!(eval("1 - 2 + 3"), Some(2));
}

#[test]
fn division_rounds_toward_zero() {
    assert_eq!(eval("7 / 2"), Some(3));
    assert_eq!(eval("( 0 - 7 ) / 2"), Some(-3));
    assert_eq!(eval("7 / ( 0 - 2 )"), Some(-3));
    assert_eq!(eval("( 0 - 7 ) / ( 0 - 2 )"), Some(3));
    assert_eq!(eval("0 / 5"), Some(0));
}

#[test]
fn single_number_is_its_own_value() {
    assert_eq!(eval("7"), Some(7));
    assert_eq!(eval("0042"), Some(42));
    assert_eq!(eval("9223372036854775807"), Some(i64::MAX));
}

#[test]
fn results_out_of_range_have_no_value() {
    assert_eq!(eval("9223372036854775807 + 1"), None);
    assert_eq!(eval("0 - 9223372036854775807 - 2"), None);
    assert_eq!(eval("4611686018427387904 * 2"), None);
    assert_eq!(eval("( 0 - 9223372036854775807 - 1 ) / ( 0 - 1 )"), None);
    assert_eq!(eval("0 - 9223372036854775807 - 1"), Some(i64::MIN));
}

#[test]
fn postfix_order_of_mixed_precedence() {
    assert_eq!(
        Eval::new().to_postfix("3 + 4 * 2"),
        Some(vec![
            Token::Number(3),
            Token::Number(4),
            Token::Number(2),
            Token::Operator(Op::Mul),
            Token::Operator(Op::Add),
        ])
    );
    assert_eq!(
        Eval::new().to_postfix("3 * 4 + 2"),
        Some(vec![
            Token::Number(3),
            Token::Number(4),
            Token::Operator(Op::Mul),
            Token::Number(2),
            Token::Operator(Op::Add),
        ])
    );
    assert_eq!(
        Eval::new().to_postfix("( 3 + 4 ) * 2"),
        Some(vec![
            Token::Number(3),
            Token::Number(4),
            Token::Operator(Op::Add),
            Token::Number(2),
            Token::Operator(Op::Mul),
        ])
    );
}

#[test]
fn arrange_works_on_tokens() {
    let tokens = vec![
        Token::Number(1),
        Token::Operator(Op::Sub),
        Token::Number(2),
        Token::Operator(Op::Sub),
        Token::Number(3),
    ];
    assert_eq!(
        Eval::new().arrange(&tokens),
        Some(vec![
            Token::Number(1),
            Token::Number(2),
            Token::Operator(Op::Sub),
            Token::Number(3),
            Token::Operator(Op::Sub),
        ])
    );
    assert_eq!(Eval::new().arrange(&vec![Token::Unknown]), None);
    assert_eq!(Eval::new().arrange(&vec![Token::RParen]), None);
}

#[test]
fn words_are_classified() {
    assert_eq!(
        tokenize("12 + - * / ( ) abc"),
        Some(vec![
            Token::Number(12),
            Token::Operator(Op::Add),
            Token::Operator(Op::Sub),
            Token::Operator(Op::Mul),
            Token::Operator(Op::Div),
            Token::LParen,
            Token::RParen,
            Token::Unknown,
        ])
    );
    assert_eq!(tokenize("++ -5 (3"), Some(vec![Token::Unknown, Token::Unknown, Token::Unknown]));
}

#[test]
fn any_run_of_blanks_separates_words() {
    assert_eq!(
        tokenize("  3 \t+\n\n4\u{2003}"),
        Some(vec![Token::Number(3), Token::Operator(Op::Add), Token::Number(4)])
    );
    assert_eq!(eval("3   +  4"), Some(7));
    assert_eq!(tokenize(""), Some(vec![]));
}

#[test]
fn a_word_that_starts_with_a_digit_must_be_a_number() {
    assert_eq!(tokenize("3x"), None);
    assert_eq!(tokenize("1 + 2a"), None);
    assert_eq!(tokenize("9223372036854775808"), None);
    assert_eq!(tokenize("99999999999999999999999"), None);
    assert_eq!(tokenize("9223372036854775807"), Some(vec![Token::Number(i64::MAX)]));
}

#[test]
fn precedence_table_ranks() {
    let e = Eval::new();
    assert_eq!(e.precedence_of(Op::Add), 0);
    assert_eq!(e.precedence_of(Op::Sub), 0);
    assert_eq!(e.precedence_of(Op::Mul), 1);
    assert_eq!(e.precedence_of(Op::Div), 1);
}

#[test]
fn operators_compute() {
    assert_eq!(compute(Op::Add, 3, 4), Some(7));
    assert_eq!(compute(Op::Sub, 3, 4), Some(-1));
    assert_eq!(compute(Op::Mul, 3, 4), Some(12));
    assert_eq!(compute(Op::Div, 9, 4), Some(2));
    assert_eq!(compute(Op::Div, -9, 4), Some(-2));
    assert_eq!(compute(Op::Div, 9, 0), None);
    assert_eq!(compute(Op::Add, i64::MAX, 1), None);
    assert_eq!(compute(Op::Div, i64::MIN, -1), None);
}

#[test]
fn postfix_runs_on_a_stack() {
    let three_four_add = vec![Token::Number(3), Token::Number(4), Token::Operator(Op::Add)];
    assert_eq!(evaluate_postfix(&three_four_add), Some(7));
    // The value pushed last is the right operand.
    let eight_two_sub = vec![Token::Number(8), Token::Number(2), Token::Operator(Op::Sub)];
    assert_eq!(evaluate_postfix(&eight_two_sub), Some(6));
    let eight_two_div = vec![Token::Number(8), Token::Number(2), Token::Operator(Op::Div)];
    assert_eq!(evaluate_postfix(&eight_two_div), Some(4));
}

#[test]
fn postfix_must_leave_exactly_one_value() {
    assert_eq!(evaluate_postfix(&vec![]), None);
    assert_eq!(evaluate_postfix(&vec![Token::Number(1), Token::Number(2)]), None);
    assert_eq!(evaluate_postfix(&vec![Token::Number(1), Token::Operator(Op::Add)]), None);
    assert_eq!(evaluate_postfix(&vec![Token::Operator(Op::Add)]), None);
}

#[test]
fn postfix_ignores_other_tokens() {
    let tokens = vec![Token::LParen, Token::Number(5), Token::Unknown, Token::RParen];
    assert_eq!(evaluate_postfix(&tokens), Some(5));
}
