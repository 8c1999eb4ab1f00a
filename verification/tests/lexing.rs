use infix_calc::lexer::{lexer, LexError};
use infix_calc::token::{literal, Operator, Parentheses, Token};

fn number(text: &str) -> Token {
    Token::Number(text.chars().collect())
}

fn chars(text: &str) -> Vec<char> {
    text.chars().collect()
}

#[test]
fn lexes_operators_and_numbers_in_reading_order() {
    assert_eq!(
        lexer("2+3*4"),
        Ok(vec![
            number("2"),
            Token::Operator(Operator::Add),
            number("3"),
            Token::Operator(Operator::Multiply),
            number("4"),
        ])
    );
}

#[test]
fn lexes_every_symbol() {
    assert_eq!(
        lexer("(1-2)/3\n"),
        Ok(vec![
            Token::Parentheses(Parentheses::Open),
            number("1"),
            Token::Operator(Operator::Subtract),
            number("2"),
            Token::Parentheses(Parentheses::Close),
            Token::Operator(Operator::Divide),
            number("3"),
        ])
    );
}

#[test]
fn single_number_gives_one_token() {
    assert_eq!(lexer("42"), Ok(vec![number("42")]));
    assert_eq!(lexer("3.25"), Ok(vec![number("3.25")]));
}

#[test]
fn number_at_end_of_line_needs_no_delimiter() {
    assert_eq!(lexer("42"), lexer("42\n"));
    assert_eq!(lexer("1+2"), lexer("1+2\n"));
}

#[test]
fn keeps_the_literal_as_written() {
    assert_eq!(lexer("007.50"), Ok(vec![number("007.50")]));
    assert_eq!(lexer("5."), Ok(vec![number("5.")]));
    assert_eq!(lexer(".5"), Ok(vec![number(".5")]));
}

#[test]
fn two_points_are_an_invalid_number() {
    assert_eq!(lexer("1..2"), Err(LexError::InvalidNumber));
    assert_eq!(lexer("1.2.3"), Err(LexError::InvalidNumber));
    assert_eq!(lexer("1.2.3\n"), Err(LexError::InvalidNumber));
}

#[test]
fn lone_point_is_an_invalid_number() {
    assert_eq!(lexer("."), Err(LexError::InvalidNumber));
    assert_eq!(lexer("1+.\n"), Err(LexError::InvalidNumber));
}

#[test]
fn foreign_character_is_rejected() {
    assert_eq!(lexer("1#2"), Err(LexError::InvalidCharacter));
    assert_eq!(lexer("q\n"), Err(LexError::InvalidCharacter));
    assert_eq!(lexer("1\t+2"), Err(LexError::InvalidCharacter));
    assert_eq!(lexer("2×3"), Err(LexError::InvalidCharacter));
}

#[test]
fn first_error_wins() {
    assert_eq!(lexer("1..2#"), Err(LexError::InvalidNumber));
    assert_eq!(lexer("#1..2"), Err(LexError::InvalidCharacter));
}

#[test]
fn blank_lines_give_empty_result() {
    assert_eq!(lexer(""), Err(LexError::EmptyResult));
    assert_eq!(lexer("   "), Err(LexError::EmptyResult));
    assert_eq!(lexer("\n"), Err(LexError::EmptyResult));
    assert_eq!(lexer(" \n \n"), Err(LexError::EmptyResult));
}

#[test]
fn lexing_twice_gives_equal_tokens() {
    let line = "(2+3)*4 - 10/2.5\n";
    assert_eq!(lexer(line), lexer(line));
    let bad = "1..2";
    assert_eq!(lexer(bad), lexer(bad));
}

#[test]
fn blanks_between_tokens_change_nothing() {
    let plain = lexer("(2+3)*4");
    assert_eq!(lexer(" ( 2 + 3 ) * 4 "), plain);
    assert_eq!(lexer("(2+3)\n*4\n"), plain);
    assert_eq!(lexer("\n(2 +3)*  4"), plain);
}

#[test]
fn blank_inside_a_number_splits_it() {
    assert_eq!(lexer("1 2"), Ok(vec![number("1"), number("2")]));
    assert_eq!(lexer("12"), Ok(vec![number("12")]));
}

#[test]
fn literal_accepts_decimal_texts() {
    assert!(literal(&chars("0")));
    assert!(literal(&chars("123")));
    assert!(literal(&chars("1.5")));
    assert!(literal(&chars("5.")));
    assert!(literal(&chars(".5")));
}

#[test]
fn literal_rejects_other_texts() {
    assert!(!literal(&chars("")));
    assert!(!literal(&chars(".")));
    assert!(!literal(&chars("..")));
    assert!(!literal(&chars("1..2")));
    assert!(!literal(&chars("1.2.")));
    assert!(!literal(&chars("1a")));
    assert!(!literal(&chars("-1")));
    assert!(!literal(&chars("1e5")));
}

#[test]
fn literals_are_what_parses_as_a_float() {
    for text in ["0", "12", "1.5", "5.", ".5", "", ".", "..", "1..2", ".1.", "00.00"] {
        assert_eq!(literal(&chars(text)), text.parse::<f64>().is_ok());
    }
}

#[test]
fn blank_at_any_place_outside_a_number_changes_nothing() {
    let line: Vec<char> = "(12+3.5)*4-10/2".chars().collect();
    let plain = lexer(&line.iter().collect::<String>());
    assert!(plain.is_ok());
    for blank in [' ', '\n'] {
        for at in 0..=line.len() {
            let inside = at > 0
                && at < line.len()
                && (line[at - 1].is_ascii_digit() || line[at - 1] == '.')
                && (line[at].is_ascii_digit() || line[at] == '.');
            if !inside {
                let mut wide = line.clone();
                wide.insert(at, blank);
                assert_eq!(lexer(&wide.iter().collect::<String>()), plain);
            }
        }
    }
}

#[test]
fn blank_keeps_the_error_too() {
    assert_eq!(lexer("1..2 "), lexer("1..2"));
    assert_eq!(lexer(" 1#2"), lexer("1#2"));
    assert_eq!(lexer("1 #2"), lexer("1#2"));
}

#[test]
fn numbers_among_the_tokens_are_literals() {
    for token in lexer("1.5+.5*(3.-42)").unwrap() {
        if let Token::Number(text) = token {
            assert!(literal(&text));
        }
    }
}
