use vstd::prelude::*;
use crate::token::{lexemes, Lexeme, Operator, Parentheses, Token};

verus! {

/// Why a token sequence denotes no expression.
#[derive(Clone, Copy, Debug, PartialEq, Eq, Structural)]
pub enum EvalError {
    /// An operator found fewer than two operands, a closing parenthesis found
    /// no opening one, or the operands left at the end were not exactly one.
    StackUnderflow,
}

/// An entry of the operator stack: an operator that waits for its right-hand
/// operand, or an opening parenthesis that waits for its partner.
#[derive(Clone, Copy, Debug, PartialEq, Eq, Structural)]
pub enum Pending {
    Operator(Operator),
    Open,
}

/// The expression that a token sequence denotes: what to compute, and in
/// which order.
#[derive(Debug, PartialEq, Eq)]
pub enum Expr {
    /// A number, by the characters of its literal.
    Number(Vec<char>),
    /// An operator applied to a left and a right operand.
    Binary(Operator, Box<Expr>, Box<Expr>),
}

/// The mathematical value of an `Expr`.
pub enum Term {
    Number(Seq<char>),
    Binary(Operator, Box<Term>, Box<Term>),
}

impl View for Expr {
    type V = Term;

    open spec fn view(&self) -> Term
        decreases self,
    {
        match self {
            Expr::Number(text) => Term::Number(text@),
            Expr::Binary(op, left, right) => Term::Binary(
                *op,
                Box::new((**left).view()),
                Box::new((**right).view()),
            ),
        }
    }
}

/// The values of a sequence of expressions, in order.
pub open spec fn terms(exprs: Seq<Expr>) -> Seq<Term> {
    exprs.map_values(|e: Expr| e@)
}

/// How tightly a stack entry binds: 2 for `*` and `/`, 1 for `+` and `-`, and
/// 0 for an opening parenthesis, which therefore yields to no operator.
pub open spec fn rank(entry: Pending) -> nat {
    match entry {
        Pending::Operator(Operator::Add) => 1,
        Pending::Operator(Operator::Subtract) => 1,
        Pending::Operator(Operator::Multiply) => 2,
        Pending::Operator(Operator::Divide) => 2,
        Pending::Open => 0,
    }
}

/// The two stacks of the parser, each with its top at the end.
pub struct Stacks {
    pub operands: Seq<Term>,
    pub pending: Seq<Pending>,
}

/// The mathematical value of the two stacks that `parser` works on.
pub open spec fn stacks(operands: Seq<Expr>, pending: Seq<Pending>) -> Stacks {
    Stacks { operands: terms(operands), pending }
}

/// One reduction: the top entry of the operator stack leaves it together with
/// the two top operands. An operator puts its application to them back; an
/// opening parenthesis puts nothing back. `None` where an operand or the entry
/// is missing.
pub open spec fn reduce(s: Stacks) -> Option<Stacks> {
    if s.operands.len() >= 2 && s.pending.len() >= 1 {
        let right = s.operands[s.operands.len() - 1];
        let left = s.operands[s.operands.len() - 2];
        let rest = s.operands.take(s.operands.len() - 2);
        Some(
            Stacks {
                operands: match s.pending.last() {
                    Pending::Operator(op) => rest.push(
                        Term::Binary(op, Box::new(left), Box::new(right)),
                    ),
                    Pending::Open => rest,
                },
                pending: s.pending.drop_last(),
            },
        )
    } else {
        None
    }
}

/// An operator arrives: every entry on top that binds at least as tightly is
/// reduced first, so equal operators group from the left; then it is pushed.
pub open spec fn shift(s: Stacks, op: Operator) -> Option<Stacks>
    decreases s.pending.len(),
{
    if s.pending.len() > 0 && rank(s.pending.last()) >= rank(Pending::Operator(op)) {
        match reduce(s) {
            Some(next) => shift(next, op),
            None => None,
        }
    } else {
        Some(Stacks { operands: s.operands, pending: s.pending.push(Pending::Operator(op)) })
    }
}

/// A closing parenthesis arrives: the entries above the nearest opening one
/// are reduced, and that one is dropped. `None` where there is none.
pub open spec fn close(s: Stacks) -> Option<Stacks>
    decreases s.pending.len(),
{
    if s.pending.len() == 0 {
        None
    } else if s.pending.last() == Pending::Open {
        Some(Stacks { operands: s.operands, pending: s.pending.drop_last() })
    } else {
        match reduce(s) {
            Some(next) => close(next),
            None => None,
        }
    }
}

/// The stacks after one more token.
pub open spec fn step(s: Stacks, token: Lexeme) -> Option<Stacks> {
    match token {
        Lexeme::Number(text) => Some(
            Stacks { operands: s.operands.push(Term::Number(text)), pending: s.pending },
        ),
        Lexeme::Parentheses(Parentheses::Open) => Some(
            Stacks { operands: s.operands, pending: s.pending.push(Pending::Open) },
        ),
        Lexeme::Parentheses(Parentheses::Close) => close(s),
        Lexeme::Operator(op) => shift(s, op),
    }
}

/// The stacks after all of `tokens`, read from left to right.
pub open spec fn run(tokens: Seq<Lexeme>) -> Option<Stacks>
    decreases tokens.len(),
{
    if tokens.len() == 0 {
        Some(Stacks { operands: Seq::empty(), pending: Seq::empty() })
    } else {
        match run(tokens.drop_last()) {
            Some(s) => step(s, tokens.last()),
            None => None,
        }
    }
}

/// Reduces until the operator stack is empty.
pub open spec fn drain(s: Stacks) -> Option<Stacks>
    decreases s.pending.len(),
{
    if s.pending.len() == 0 {
        Some(s)
    } else {
        match reduce(s) {
            Some(next) => drain(next),
            None => None,
        }
    }
}

/// What is left when every reduction has been made: the one operand, or an
/// error where a reduction failed or the operands are not exactly one.
pub open spec fn finish(s: Stacks) -> Result<Term, EvalError> {
    match drain(s) {
        Some(last) => if last.operands.len() == 1 {
            Ok(last.operands[0])
        } else {
            Err(EvalError::StackUnderflow)
        },
        None => Err(EvalError::StackUnderflow),
    }
}

/// The expression that `tokens` denote.
pub open spec fn parse(tokens: Seq<Lexeme>) -> Result<Term, EvalError> {
    match run(tokens) {
        Some(s) => finish(s),
        None => Err(EvalError::StackUnderflow),
    }
}

/// The precedence of a stack entry.
pub fn precedence(entry: &Pending) -> (result: u8)
    ensures
        result == rank(*entry),
{
    match entry {
        Pending::Operator(Operator::Add) => 1,
        Pending::Operator(Operator::Subtract) => 1,
        Pending::Operator(Operator::Multiply) => 2,
        Pending::Operator(Operator::Divide) => 2,
        Pending::Open => 0,
    }
}

/// Makes one reduction on the two stacks. Where the operator stack is empty or
/// fewer than two operands are there, both stacks stay as they are and the
/// result is `StackUnderflow`.
pub fn process(operator_stack: &mut Vec<Pending>, operand_stack: &mut Vec<Expr>) -> (result:
    Result<(), EvalError>)
    ensures
        match reduce(stacks(old(operand_stack)@, old(operator_stack)@)) {
            Some(next) => {
                &&& result is Ok
                &&& stacks(final(operand_stack)@, final(operator_stack)@) == next
            },
            None => {
                &&& result == Err::<(), EvalError>(EvalError::StackUnderflow)
                &&& final(operand_stack)@ == old(operand_stack)@
                &&& final(operator_stack)@ == old(operator_stack)@
            },
        },
{
    if operand_stack.len() < 2 || operator_stack.len() < 1 {
        return Err(EvalError::StackUnderflow);
    }
    let ghost before = operand_stack@;
    let right = operand_stack.pop().unwrap();
    let left = operand_stack.pop().unwrap();
    let entry = operator_stack.pop().unwrap();
    proof {
        assert(terms(operand_stack@) =~= terms(before).take(before.len() - 2));
    }
    match entry {
        Pending::Operator(op) => {
            let ghost rest = operand_stack@;
            operand_stack.push(Expr::Binary(op, Box::new(left), Box::new(right)));
            proof {
                assert(terms(operand_stack@) =~= terms(rest).push(operand_stack@.last()@));
            }
        },
        Pending::Open => {},
    }
    Ok(())
}

/// Reads an infix token sequence into the expression it denotes, with two
/// stacks and one pass from left to right.
///
/// `*` and `/` bind tighter than `+` and `-`, operators of equal precedence
/// group from the left, and parentheses group what stands between them. The
/// result is `StackUnderflow` where an operator lacks an operand, a closing
/// parenthesis lacks its opening one, or the tokens leave no single operand.
pub fn parser(infix_tokens: &[Token]) -> (result: Result<Expr, EvalError>)
    ensures
        match result {
            Ok(expr) => parse(lexemes(infix_tokens@)) == Ok::<Term, EvalError>(expr@),
            Err(e) => parse(lexemes(infix_tokens@)) == Err::<Term, EvalError>(e),
        },
{
    let ghost all = lexemes(infix_tokens@);
    let mut operand_stack: Vec<Expr> = Vec::new();
    let mut operator_stack: Vec<Pending> = Vec::new();
    let mut index: usize = 0;
    proof {
        assert(terms(operand_stack@) =~= Seq::empty());
    }
    while index < infix_tokens.len()
        invariant
            index <= infix_tokens.len(),
            all == lexemes(infix_tokens@),
            run(all.take(index as int)) == Some(stacks(operand_stack@, operator_stack@)),
        decreases infix_tokens.len() - index,
    {
        let ghost entry = stacks(operand_stack@, operator_stack@);
        proof {
            assert(all.take(index + 1).drop_last() =~= all.take(index as int));
            assert(all.take(index + 1).last() == infix_tokens@[index as int]@);
        }
        match &infix_tokens[index] {
            Token::Number(text) => {
                let ghost rest = operand_stack@;
                let copy = text.clone();
                operand_stack.push(Expr::Number(copy));
                proof {
                    assert(copy@ =~= text@);
                    assert(terms(operand_stack@) =~= terms(rest).push(operand_stack@.last()@));
                }
            },
            Token::Parentheses(Parentheses::Open) => {
                operator_stack.push(Pending::Open);
            },
            Token::Parentheses(Parentheses::Close) => {
                loop
                    invariant_except_break
                        close(stacks(operand_stack@, operator_stack@)) == close(entry),
                    invariant
                        all == lexemes(infix_tokens@),
                        run(all.take(index + 1)) == close(entry),
                        index < infix_tokens.len(),
                    ensures
                        run(all.take(index + 1)) == Some(stacks(operand_stack@, operator_stack@)),
                    decreases operator_stack.len(),
                {
                    if operator_stack.len() == 0 {
                        proof {
                            lemma_failure_stays(all, index + 1);
                        }
                        return Err(EvalError::StackUnderflow);
                    }
                    if let Pending::Open = operator_stack[operator_stack.len() - 1] {
                        operator_stack.pop();
                        break ;
                    }
                    if process(&mut operator_stack, &mut operand_stack).is_err() {
                        proof {
                            lemma_failure_stays(all, index + 1);
                        }
                        return Err(EvalError::StackUnderflow);
                    }
                }
            },
            Token::Operator(op) => {
                let incoming: u8 = precedence(&Pending::Operator(*op));
                while operator_stack.len() > 0 && precedence(
                    &operator_stack[operator_stack.len() - 1],
                ) >= incoming
                    invariant
                        incoming == rank(Pending::Operator(*op)),
                        shift(stacks(operand_stack@, operator_stack@), *op) == shift(entry, *op),
                        run(all.take(index + 1)) == shift(entry, *op),
                        all == lexemes(infix_tokens@),
                        index < infix_tokens.len(),
                    decreases operator_stack.len(),
                {
                    if process(&mut operator_stack, &mut operand_stack).is_err() {
                        proof {
                            lemma_failure_stays(all, index + 1);
                        }
                        return Err(EvalError::StackUnderflow);
                    }
                }
                operator_stack.push(Pending::Operator(*op));
            },
        }
        index += 1;
    }
    proof {
        assert(all.take(index as int) =~= all);
    }
    let ghost end = stacks(operand_stack@, operator_stack@);
    while operator_stack.len() > 0
        invariant
            all == lexemes(infix_tokens@),
            run(all) == Some(end),
            drain(stacks(operand_stack@, operator_stack@)) == drain(end),
        decreases operator_stack.len(),
    {
        if process(&mut operator_stack, &mut operand_stack).is_err() {
            return Err(EvalError::StackUnderflow);
        }
    }
    if operand_stack.len() == 1 {
        Ok(operand_stack.pop().unwrap())
    } else {
        Err(EvalError::StackUnderflow)
    }
}

/// Once a prefix of the tokens has failed, the whole sequence fails.
pub proof fn lemma_failure_stays(tokens: Seq<Lexeme>, n: int)
    requires
        0 <= n <= tokens.len(),
        run(tokens.take(n)) is None,
    ensures
        run(tokens) is None,
    decreases tokens.len() - n,
{
    if n == tokens.len() {
        assert(tokens.take(n) =~= tokens);
    } else {
        assert(tokens.take(n + 1).drop_last() =~= tokens.take(n));
        lemma_failure_stays(tokens, n + 1);
    }
}

} // verus!
