use vstd::prelude::*;
use vstd::std_specs::iter::IteratorSpec;
use crate::token::{is_literal, is_numeric, lexemes, literal, Lexeme, Operator, Parentheses, Token};

verus! {

/// Why a line could not be turned into tokens.
#[derive(Clone, Copy, Debug, PartialEq, Eq, Structural)]
pub enum LexError {
    /// A run of digits and points is no decimal literal.
    InvalidNumber,
    /// A character that no token starts with and that is no blank.
    InvalidCharacter,
    /// The line holds no token at all.
    EmptyResult,
}

/// What a character that belongs to no number stands for.
pub enum Symbol {
    Token(Lexeme),
    Blank,
    Invalid,
}

/// The token of `+ - * / ( )`, a blank for a space or a newline, and nothing
/// valid for any other character.
pub open spec fn classify(c: char) -> Symbol {
    if c == '+' {
        Symbol::Token(Lexeme::Operator(Operator::Add))
    } else if c == '-' {
        Symbol::Token(Lexeme::Operator(Operator::Subtract))
    } else if c == '*' {
        Symbol::Token(Lexeme::Operator(Operator::Multiply))
    } else if c == '/' {
        Symbol::Token(Lexeme::Operator(Operator::Divide))
    } else if c == '(' {
        Symbol::Token(Lexeme::Parentheses(Parentheses::Open))
    } else if c == ')' {
        Symbol::Token(Lexeme::Parentheses(Parentheses::Close))
    } else if c == ' ' || c == '\n' {
        Symbol::Blank
    } else {
        Symbol::Invalid
    }
}

/// The lexer between two characters: the tokens read so far and the
/// characters of the number that is being read, or the error that ended the scan.
pub enum Scan {
    Reading { tokens: Seq<Lexeme>, number: Seq<char> },
    Failed(LexError),
}

/// Ends the number that is being read: its literal becomes a token.
pub open spec fn flush(tokens: Seq<Lexeme>, number: Seq<char>) -> Result<Seq<Lexeme>, LexError> {
    if number.len() == 0 {
        Ok(tokens)
    } else if is_literal(number) {
        Ok(tokens.push(Lexeme::Number(number)))
    } else {
        Err(LexError::InvalidNumber)
    }
}

/// The scan after one more character.
pub open spec fn feed(state: Scan, c: char) -> Scan {
    match state {
        Scan::Failed(e) => Scan::Failed(e),
        Scan::Reading { tokens, number } => {
            if is_numeric(c) {
                Scan::Reading { tokens, number: number.push(c) }
            } else {
                match flush(tokens, number) {
                    Err(e) => Scan::Failed(e),
                    Ok(flushed) => match classify(c) {
                        Symbol::Token(t) => Scan::Reading {
                            tokens: flushed.push(t),
                            number: Seq::empty(),
                        },
                        Symbol::Blank => Scan::Reading { tokens: flushed, number: Seq::empty() },
                        Symbol::Invalid => Scan::Failed(LexError::InvalidCharacter),
                    },
                }
            }
        },
    }
}

/// The scan after all of `text`, read from left to right.
pub open spec fn scan(text: Seq<char>) -> Scan
    decreases text.len(),
{
    if text.len() == 0 {
        Scan::Reading { tokens: Seq::empty(), number: Seq::empty() }
    } else {
        feed(scan(text.drop_last()), text.last())
    }
}

/// What a scan that has reached the end of the text amounts to. A number that
/// is still being read ends there, as if a blank followed it.
pub open spec fn conclude(state: Scan) -> Result<Seq<Lexeme>, LexError> {
    match state {
        Scan::Failed(e) => Err(e),
        Scan::Reading { tokens, number } => match flush(tokens, number) {
            Err(e) => Err(e),
            Ok(flushed) => if flushed.len() == 0 {
                Err(LexError::EmptyResult)
            } else {
                Ok(flushed)
            },
        },
    }
}

/// The tokens of `text`, or the first error in it.
pub open spec fn lex(text: Seq<char>) -> Result<Seq<Lexeme>, LexError> {
    conclude(scan(text))
}

/// Every number among `tokens` carries a decimal literal.
pub open spec fn numbers_are_literals(tokens: Seq<Lexeme>) -> bool {
    forall|i: int|
        0 <= i < tokens.len() ==> (#[trigger] tokens[i] matches Lexeme::Number(text)
            ==> is_literal(text))
}

/// What `lexer` promises of its result on `input`.
pub open spec fn lexed(input: Seq<char>, result: Result<Vec<Token>, LexError>) -> bool {
    match result {
        Ok(tokens) => lex(input) == Ok::<Seq<Lexeme>, LexError>(lexemes(tokens@)),
        Err(e) => lex(input) == Err::<Seq<Lexeme>, LexError>(e),
    }
}

/// Turns a line of text into its tokens, in reading order.
///
/// Digits and points are gathered into number literals; `+ - * / ( )` give one
/// token each; spaces and newlines separate and are dropped. The first run of
/// digits and points that is no decimal literal fails with `InvalidNumber`, the
/// first other character with `InvalidCharacter`, and a line without any token
/// with `EmptyResult`. A literal at the very end of the line needs no
/// character behind it.
pub fn lexer(input: &str) -> (result: Result<Vec<Token>, LexError>)
    ensures
        lexed(input@, result),
        result matches Ok(tokens) ==> tokens@.len() > 0 && numbers_are_literals(
            lexemes(tokens@),
        ),
{
    proof {
        crate::lexer_laws::lemma_tokens_well_formed(input@);
    }
    let mut tokens: Vec<Token> = Vec::new();
    let mut number: Vec<char> = Vec::new();
    let mut rest = input.chars();
    let ghost mut index: int = 0;
    proof {
        assert(lexemes(tokens@) =~= Seq::empty());
        assert(input@.skip(0) =~= input@);
    }
    loop
        invariant
            0 <= index <= input@.len(),
            rest.remaining() == input@.skip(index),
            scan(input@.take(index)) == (Scan::Reading {
                tokens: lexemes(tokens@),
                number: number@,
            }),
        ensures
            index == input@.len(),
        decreases input@.len() - index,
    {
        let next = rest.next();
        if next.is_none() {
            break ;
        }
        let c = next.unwrap();
        proof {
            assert(c == input@[index]);
            assert(input@.skip(index).drop_first() =~= input@.skip(index + 1));
            assert(input@.take(index + 1).drop_last() =~= input@.take(index));
            assert(input@.take(index + 1).last() == c);
        }
        if ('0' <= c && c <= '9') || c == '.' {
            number.push(c);
        } else {
            if number.len() > 0 {
                if !literal(&number) {
                    proof {
                        lemma_failed_stays(input@, index + 1);
                    }
                    return Err(LexError::InvalidNumber);
                }
                let ghost before = tokens@;
                tokens.push(Token::Number(number));
                number = Vec::new();
                proof {
                    assert(lexemes(tokens@) =~= lexemes(before).push(tokens@.last()@));
                }
            }
            let ghost before = tokens@;
            match c {
                '+' => tokens.push(Token::Operator(Operator::Add)),
                '-' => tokens.push(Token::Operator(Operator::Subtract)),
                '*' => tokens.push(Token::Operator(Operator::Multiply)),
                '/' => tokens.push(Token::Operator(Operator::Divide)),
                '(' => tokens.push(Token::Parentheses(Parentheses::Open)),
                ')' => tokens.push(Token::Parentheses(Parentheses::Close)),
                ' ' => (),
                '\n' => (),
                _ => {
                    proof {
                        lemma_failed_stays(input@, index + 1);
                    }
                    return Err(LexError::InvalidCharacter);
                },
            }
            proof {
                if tokens@.len() > before.len() {
                    assert(lexemes(tokens@) =~= lexemes(before).push(tokens@.last()@));
                }
            }
        }
        proof {
            index = index + 1;
        }
    }
    proof {
        assert(input@.take(index) =~= input@);
    }
    if number.len() > 0 {
        if !literal(&number) {
            return Err(LexError::InvalidNumber);
        }
        let ghost before = tokens@;
        tokens.push(Token::Number(number));
        proof {
            assert(lexemes(tokens@) =~= lexemes(before).push(tokens@.last()@));
        }
    }
    if tokens.len() == 0 {
        Err(LexError::EmptyResult)
    } else {
        Ok(tokens)
    }
}

/// Once a prefix of the text has failed, the whole text fails with the same error.
pub proof fn lemma_failed_stays(text: Seq<char>, n: int)
    requires
        0 <= n <= text.len(),
        scan(text.take(n)) is Failed,
    ensures
        scan(text) == scan(text.take(n)),
    decreases text.len() - n,
{
    if n == text.len() {
        assert(text.take(n) =~= text);
    } else {
        assert(text.take(n + 1).drop_last() =~= text.take(n));
        lemma_failed_stays(text, n + 1);
    }
}

} // verus!
