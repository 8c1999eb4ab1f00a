use vstd::prelude::*;

verus! {

/// The four binary operators.
#[derive(Clone, Copy, Debug, PartialEq, Eq, Structural)]
pub enum Operator {
    Add,
    Subtract,
    Multiply,
    Divide,
}

/// The two grouping markers.
#[derive(Clone, Copy, Debug, PartialEq, Eq, Structural)]
pub enum Parentheses {
    Open,
    Close,
}

/// One token of an expression. A number carries the characters of its literal,
/// exactly as they were written.
#[derive(Debug, PartialEq, Eq)]
pub enum Token {
    Number(Vec<char>),
    Operator(Operator),
    Parentheses(Parentheses),
}

/// The mathematical value of a `Token`.
pub enum Lexeme {
    Number(Seq<char>),
    Operator(Operator),
    Parentheses(Parentheses),
}

impl View for Token {
    type V = Lexeme;

    open spec fn view(&self) -> Lexeme {
        match *self {
            Token::Number(text) => Lexeme::Number(text@),
            Token::Operator(op) => Lexeme::Operator(op),
            Token::Parentheses(p) => Lexeme::Parentheses(p),
        }
    }
}

/// The values of a sequence of tokens, in order.
pub open spec fn lexemes(tokens: Seq<Token>) -> Seq<Lexeme> {
    tokens.map_values(|t: Token| t@)
}

/// The ten decimal digits.
pub open spec fn is_digit(c: char) -> bool {
    '0' <= c && c <= '9'
}

/// The characters that a number literal is made of.
pub open spec fn is_numeric(c: char) -> bool {
    is_digit(c) || c == '.'
}

/// How many decimal points `text` holds.
pub open spec fn points(text: Seq<char>) -> nat
    decreases text.len(),
{
    if text.len() == 0 {
        0
    } else if text.last() == '.' {
        points(text.drop_last()) + 1
    } else {
        points(text.drop_last())
    }
}

/// A decimal literal: digits with at most one decimal point among them, before
/// them or behind them, and at least one digit. These are the texts made of
/// digits and points that parse as a floating-point number.
pub open spec fn is_literal(text: Seq<char>) -> bool {
    &&& forall|i: int| 0 <= i < text.len() ==> is_numeric(#[trigger] text[i])
    &&& points(text) <= 1
    &&& points(text) < text.len()
}

/// Tells whether `text` is a decimal literal.
pub fn literal(text: &Vec<char>) -> (result: bool)
    ensures
        result == is_literal(text@),
{
    let mut seen: usize = 0;
    let mut index: usize = 0;
    while index < text.len()
        invariant
            index <= text.len(),
            seen <= 1,
            seen == points(text@.take(index as int)),
            forall|i: int| 0 <= i < index ==> is_numeric(#[trigger] text@[i]),
        decreases text.len() - index,
    {
        let c = text[index];
        proof {
            assert(text@.take(index + 1).drop_last() =~= text@.take(index as int));
        }
        if c == '.' {
            if seen == 1 {
                proof {
                    lemma_points_monotone(text@, index + 1);
                }
                return false;
            }
            seen = 1;
        } else if !('0' <= c && c <= '9') {
            return false;
        }
        index += 1;
    }
    proof {
        assert(text@.take(index as int) =~= text@);
        lemma_points_bound(text@);
    }
    seen < text.len()
}

/// A text holds at most as many points as characters.
pub proof fn lemma_points_bound(text: Seq<char>)
    ensures
        points(text) <= text.len(),
    decreases text.len(),
{
    if text.len() > 0 {
        lemma_points_bound(text.drop_last());
    }
}

/// A prefix holds at most as many points as the whole text.
pub proof fn lemma_points_monotone(text: Seq<char>, n: int)
    requires
        0 <= n <= text.len(),
    ensures
        points(text.take(n)) <= points(text),
    decreases text.len(),
{
    if n == text.len() {
        assert(text.take(n) =~= text);
    } else {
        assert(text.drop_last().take(n) =~= text.take(n));
        lemma_points_monotone(text.drop_last(), n);
    }
}

} // verus!
