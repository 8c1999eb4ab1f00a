use infix_calc::lexer::lexer;
use infix_calc::parser::{parser, precedence, process, EvalError, Expr, Pending};
use infix_calc::token::{Operator, Parentheses, Token};

fn num(text: &str) -> Expr {
    Expr::Number(text.chars().collect())
}

fn bin(op: Operator, left: Expr, right: Expr) -> Expr {
    Expr::Binary(op, Box::new(left), Box::new(right))
}

fn parse_line(line: &str) -> Result<Expr, EvalError> {
    parser(&lexer(line).unwrap())
}

fn value(expr: &Expr) -> f64 {
    match expr {
        Expr::Number(text) => text.iter().collect::<String>().parse::<f64>().unwrap(),
        Expr::Binary(op, left, right) => {
            let x = value(left);
            let y = value(right);
            match op {
                Operator::Add => x + y,
                Operator::Subtract => x - y,
                Operator::Multiply => x * y,
                Operator::Divide => x / y,
            }
        }
    }
}

fn evaluate(line: &str) -> f64 {
    value(&parse_line(line).unwrap())
}

#[test]
fn single_number_is_its_own_result() {
    assert_eq!(parse_line("42"), Ok(num("42")));
    assert_eq!(evaluate("42"), 42.0);
    assert_eq!(evaluate("3.25\n"), 3.25);
    assert_eq!(evaluate(".5"), 0.5);
}

#[test]
fn multiplication_binds_tighter_than_addition() {
    assert_eq!(
        parse_line("2+3*4"),
        Ok(bin(Operator::Add, num("2"), bin(Operator::Multiply, num("3"), num("4"))))
    );
    assert_eq!(evaluate("2+3*4"), 14.0);
}

#[test]
fn parentheses_group() {
    assert_eq!(
        parse_line("(2+3)*4"),
        Ok(bin(Operator::Multiply, bin(Operator::Add, num("2"), num("3")), num("4")))
    );
    assert_eq!(evaluate("(2+3)*4"), 20.0);
}

#[test]
fn subtraction_groups_from_the_left() {
    assert_eq!(
        parse_line("10-2-3"),
        Ok(bin(Operator::Subtract, bin(Operator::Subtract, num("10"), num("2")), num("3")))
    );
    assert_eq!(evaluate("10-2-3"), 5.0);
}

#[test]
fn division_groups_from_the_left() {
    assert_eq!(evaluate("100/10/5"), 2.0);
    assert_eq!(evaluate("2*3/4"), 1.5);
}

#[test]
fn division_by_zero_is_infinite() {
    assert_eq!(parse_line("1/0"), Ok(bin(Operator::Divide, num("1"), num("0"))));
    assert_eq!(evaluate("1/0"), f64::INFINITY);
}

#[test]
fn nested_parentheses() {
    assert_eq!(evaluate("((1+2)*(3+4))-5"), 16.0);
    assert_eq!(evaluate("2*(3+(4-1))/3"), 4.0);
    assert_eq!(evaluate("((7))"), 7.0);
}

#[test]
fn blanks_do_not_change_the_result() {
    assert_eq!(parse_line(" 2 + 3 * 4 \n"), parse_line("2+3*4"));
    assert_eq!(evaluate("( 2 + 3 )\n* 4"), 20.0);
}

#[test]
fn unmatched_closing_parenthesis_is_rejected() {
    assert_eq!(parse_line("2)"), Err(EvalError::StackUnderflow));
    assert_eq!(parse_line(")"), Err(EvalError::StackUnderflow));
    assert_eq!(parse_line("(1+2))"), Err(EvalError::StackUnderflow));
    assert_eq!(parse_line("1+2)*3"), Err(EvalError::StackUnderflow));
}

#[test]
fn unmatched_opening_parenthesis_is_rejected() {
    assert_eq!(parse_line("(2"), Err(EvalError::StackUnderflow));
    assert_eq!(parse_line("("), Err(EvalError::StackUnderflow));
    assert_eq!(parse_line("(2+3"), Err(EvalError::StackUnderflow));
    assert_eq!(parse_line("2+(3"), Err(EvalError::StackUnderflow));
    assert_eq!(parse_line("1*(2+(3)"), Err(EvalError::StackUnderflow));
}

#[test]
fn operator_without_operands_is_rejected() {
    assert_eq!(parse_line("+"), Err(EvalError::StackUnderflow));
    assert_eq!(parse_line("1+"), Err(EvalError::StackUnderflow));
    assert_eq!(parse_line("*2"), Err(EvalError::StackUnderflow));
    assert_eq!(parse_line("1++2"), Err(EvalError::StackUnderflow));
    assert_eq!(parse_line("-1"), Err(EvalError::StackUnderflow));
}

#[test]
fn leftover_operands_are_rejected() {
    assert_eq!(parse_line("1 2"), Err(EvalError::StackUnderflow));
    assert_eq!(parse_line("(1)(2)"), Err(EvalError::StackUnderflow));
    assert_eq!(parse_line("()"), Err(EvalError::StackUnderflow));
}

#[test]
fn no_tokens_are_rejected() {
    assert_eq!(parser(&Vec::new()), Err(EvalError::StackUnderflow));
}

#[test]
fn open_parenthesis_left_at_the_end_takes_two_operands() {
    assert_eq!(parse_line("1 2 3 ("), Ok(num("1")));
    assert_eq!(parse_line("1 2 ("), Err(EvalError::StackUnderflow));
}

#[test]
fn parser_takes_tokens_written_by_hand() {
    let tokens = vec![
        Token::Parentheses(Parentheses::Open),
        Token::Number(vec!['8']),
        Token::Operator(Operator::Divide),
        Token::Number(vec!['2']),
        Token::Parentheses(Parentheses::Close),
    ];
    assert_eq!(parser(&tokens), Ok(bin(Operator::Divide, num("8"), num("2"))));
}

#[test]
fn precedence_table() {
    assert_eq!(precedence(&Pending::Operator(Operator::Add)), 1);
    assert_eq!(precedence(&Pending::Operator(Operator::Subtract)), 1);
    assert_eq!(precedence(&Pending::Operator(Operator::Multiply)), 2);
    assert_eq!(precedence(&Pending::Operator(Operator::Divide)), 2);
    assert_eq!(precedence(&Pending::Open), 0);
}

#[test]
fn process_applies_the_top_operator_to_the_two_top_operands() {
    let mut operators = vec![Pending::Open, Pending::Operator(Operator::Subtract)];
    let mut operands = vec![num("1"), num("2"), num("3")];
    assert_eq!(process(&mut operators, &mut operands), Ok(()));
    assert_eq!(operators, vec![Pending::Open]);
    assert_eq!(operands, vec![num("1"), bin(Operator::Subtract, num("2"), num("3"))]);
}

#[test]
fn process_on_an_open_parenthesis_pushes_nothing() {
    let mut operators = vec![Pending::Open];
    let mut operands = vec![num("1"), num("2"), num("3")];
    assert_eq!(process(&mut operators, &mut operands), Ok(()));
    assert_eq!(operators, Vec::new());
    assert_eq!(operands, vec![num("1")]);
}

#[test]
fn process_without_enough_operands_changes_nothing() {
    let mut operators = vec![Pending::Operator(Operator::Add)];
    let mut operands = vec![num("1")];
    assert_eq!(process(&mut operators, &mut operands), Err(EvalError::StackUnderflow));
    assert_eq!(operators, vec![Pending::Operator(Operator::Add)]);
    assert_eq!(operands, vec![num("1")]);
}

#[test]
fn process_without_an_operator_changes_nothing() {
    let mut operators: Vec<Pending> = Vec::new();
    let mut operands = vec![num("1"), num("2")];
    assert_eq!(process(&mut operators, &mut operands), Err(EvalError::StackUnderflow));
    assert_eq!(operands, vec![num("1"), num("2")]);
}

#[test]
fn right_operand_keeps_its_parentheses() {
    assert_eq!(
        parse_line("1-(2-3)"),
        Ok(bin(Operator::Subtract, num("1"), bin(Operator::Subtract, num("2"), num("3"))))
    );
    assert_eq!(evaluate("1-(2-3)"), 2.0);
    assert_eq!(evaluate("8/(4/2)"), 4.0);
}

#[test]
fn mixed_operators_without_parentheses() {
    assert_eq!(
        parse_line("1+2*3-4/5"),
        Ok(bin(
            Operator::Subtract,
            bin(Operator::Add, num("1"), bin(Operator::Multiply, num("2"), num("3"))),
            bin(Operator::Divide, num("4"), num("5")),
        ))
    );
    assert_eq!(evaluate("1+2*3-4/5"), 6.2);
}

#[test]
fn tighter_operator_first_in_either_order() {
    assert_eq!(
        parse_line("2*3+4"),
        Ok(bin(Operator::Add, bin(Operator::Multiply, num("2"), num("3")), num("4")))
    );
    assert_eq!(evaluate("2*3+4"), 10.0);
    assert_eq!(evaluate("2+3*4"), 14.0);
    assert_eq!(evaluate("2-6/3"), 0.0);
}

#[test]
fn fully_parenthesised_expression_is_read_back() {
    assert_eq!(
        parse_line("((1+2)*(3-4))"),
        Ok(bin(
            Operator::Multiply,
            bin(Operator::Add, num("1"), num("2")),
            bin(Operator::Subtract, num("3"), num("4")),
        ))
    );
}

#[test]
fn accepted_tokens_hold_one_number_more_than_operators() {
    for line in ["7", "1+2", "2+3*4", "(2+3)*4", "((1))", "1-(2-(3-4))"] {
        let tokens = lexer(line).unwrap();
        let numbers = tokens.iter().filter(|t| matches!(t, Token::Number(_))).count();
        let operators = tokens.iter().filter(|t| matches!(t, Token::Operator(_))).count();
        assert!(parser(&tokens).is_ok());
        assert_eq!(numbers, operators + 1);
    }
}

#[test]
fn division_of_zero_by_zero_is_not_a_number() {
    assert!(evaluate("0/0").is_nan());
    assert_eq!(evaluate("0-1/0"), f64::NEG_INFINITY);
}

#[test]
fn decimal_literals_keep_their_value() {
    assert_eq!(evaluate("1.5+2.25"), 3.75);
    assert_eq!(evaluate("5.*.5"), 2.5);
    assert_eq!(evaluate("007"), 7.0);
}
