use vstd::prelude::*;
use crate::parser::{
    close, drain, parse, rank, reduce, run, shift, step, EvalError, Pending, Stacks, Term,
};
use crate::token::{Lexeme, Operator, Parentheses};

verus! {

/// A single number denotes itself.
pub proof fn lemma_parse_number(text: Seq<char>)
    ensures
        parse(seq![Lexeme::Number(text)]) == Ok::<Term, EvalError>(Term::Number(text)),
{
    let tokens = seq![Lexeme::Number(text)];
    assert(tokens.drop_last() =~= Seq::empty());
    assert(run(tokens.drop_last()) == Some(
        Stacks { operands: Seq::empty(), pending: Seq::empty() },
    ));
    let s = run(tokens)->Some_0;
    assert(s.operands =~= seq![Term::Number(text)]);
    assert(drain(s) == Some(s));
}

/// The numbers among `tokens`.
pub open spec fn numbers(tokens: Seq<Lexeme>) -> int
    decreases tokens.len(),
{
    if tokens.len() == 0 {
        0
    } else if tokens.last() is Number {
        numbers(tokens.drop_last()) + 1
    } else {
        numbers(tokens.drop_last())
    }
}

/// The operators among `tokens`.
pub open spec fn operators(tokens: Seq<Lexeme>) -> int
    decreases tokens.len(),
{
    if tokens.len() == 0 {
        0
    } else if tokens.last() is Operator {
        operators(tokens.drop_last()) + 1
    } else {
        operators(tokens.drop_last())
    }
}

/// The opening parentheses among `tokens` less the closing ones: how many
/// groups stand open behind them.
pub open spec fn depth(tokens: Seq<Lexeme>) -> int
    decreases tokens.len(),
{
    if tokens.len() == 0 {
        0
    } else {
        depth(tokens.drop_last()) + match tokens.last() {
            Lexeme::Parentheses(Parentheses::Open) => 1int,
            Lexeme::Parentheses(Parentheses::Close) => -1int,
            _ => 0int,
        }
    }
}

/// The opening parentheses on an operator stack.
pub open spec fn opens(pending: Seq<Pending>) -> nat
    decreases pending.len(),
{
    if pending.len() == 0 {
        0
    } else if pending.last() == Pending::Open {
        opens(pending.drop_last()) + 1
    } else {
        opens(pending.drop_last())
    }
}

/// The operands that would be left if every entry of the operator stack were
/// reduced: an operator takes one more than it gives, an opening parenthesis
/// two.
pub open spec fn surplus(s: Stacks) -> int {
    s.operands.len() - s.pending.len() - opens(s.pending)
}

/// A reduction keeps the surplus, and takes an opening parenthesis from the
/// stack only where one is on top.
pub proof fn lemma_reduce_keeps_surplus(s: Stacks)
    requires
        reduce(s) is Some,
    ensures
        surplus(reduce(s)->Some_0) == surplus(s),
        opens(reduce(s)->Some_0.pending) == opens(s.pending) - if s.pending.last()
            == Pending::Open {
            1int
        } else {
            0int
        },
{
}

/// An operator that arrives takes one from the surplus and leaves the
/// opening parentheses where they are.
proof fn lemma_shift_counts(s: Stacks, op: Operator)
    requires
        shift(s, op) is Some,
    ensures
        surplus(shift(s, op)->Some_0) == surplus(s) - 1,
        opens(shift(s, op)->Some_0.pending) == opens(s.pending),
    decreases s.pending.len(),
{
    if s.pending.len() > 0 && rank(s.pending.last()) >= rank(Pending::Operator(op)) {
        lemma_reduce_keeps_surplus(s);
        lemma_shift_counts(reduce(s)->Some_0, op);
    } else {
        assert(s.pending.push(Pending::Operator(op)).drop_last() =~= s.pending);
    }
}

/// A closing parenthesis takes one opening parenthesis from the stack and
/// gives its two back to the surplus.
proof fn lemma_close_counts(s: Stacks)
    requires
        close(s) is Some,
    ensures
        surplus(close(s)->Some_0) == surplus(s) + 2,
        opens(close(s)->Some_0.pending) == opens(s.pending) - 1,
    decreases s.pending.len(),
{
    if s.pending.last() != Pending::Open {
        lemma_reduce_keeps_surplus(s);
        lemma_close_counts(reduce(s)->Some_0);
    }
}

/// Once every entry is reduced, the operands left are the surplus.
proof fn lemma_drain_counts(s: Stacks)
    requires
        drain(s) is Some,
    ensures
        drain(s)->Some_0.operands.len() == surplus(s),
    decreases s.pending.len(),
{
    if s.pending.len() > 0 {
        lemma_reduce_keeps_surplus(s);
        lemma_drain_counts(reduce(s)->Some_0);
    }
}

/// While the tokens are read, the operator stack holds one opening parenthesis
/// for each group that stands open, and the surplus is the numbers less the
/// operators, less two for each such group.
pub proof fn lemma_run_counts(tokens: Seq<Lexeme>)
    requires
        run(tokens) is Some,
    ensures
        opens(run(tokens)->Some_0.pending) == depth(tokens),
        surplus(run(tokens)->Some_0) == numbers(tokens) - operators(tokens) - 2 * depth(tokens),
    decreases tokens.len(),
{
    if tokens.len() > 0 {
        lemma_run_counts(tokens.drop_last());
        let s = run(tokens.drop_last())->Some_0;
        match tokens.last() {
            Lexeme::Number(_) => {},
            Lexeme::Parentheses(Parentheses::Open) => {
                assert(s.pending.push(Pending::Open).drop_last() =~= s.pending);
            },
            Lexeme::Parentheses(Parentheses::Close) => {
                lemma_close_counts(s);
            },
            Lexeme::Operator(op) => {
                lemma_shift_counts(s, op);
            },
        }
    }
}

/// Tokens that denote an expression close no group that was not opened, and
/// hold one number more than operators, and two more for each group that they
/// leave open.
pub proof fn lemma_accepted_tokens_balance(tokens: Seq<Lexeme>)
    requires
        parse(tokens) is Ok,
    ensures
        depth(tokens) >= 0,
        numbers(tokens) == operators(tokens) + 1 + 2 * depth(tokens),
{
    lemma_run_counts(tokens);
    lemma_drain_counts(run(tokens)->Some_0);
}

/// A closing parenthesis without an opening one before it is rejected,
/// whatever follows it.
pub proof fn lemma_unmatched_close_rejected(tokens: Seq<Lexeme>, n: int)
    requires
        0 <= n <= tokens.len(),
        depth(tokens.take(n)) < 0,
    ensures
        parse(tokens) == Err::<Term, EvalError>(EvalError::StackUnderflow),
{
    if run(tokens.take(n)) is Some {
        lemma_run_counts(tokens.take(n));
    }
    crate::parser::lemma_failure_stays(tokens, n);
}

/// Tokens with one number more than operators, as every infix expression has,
/// are rejected where they leave a group open.
pub proof fn lemma_unmatched_open_rejected(tokens: Seq<Lexeme>)
    requires
        depth(tokens) > 0,
        numbers(tokens) == operators(tokens) + 1,
    ensures
        parse(tokens) == Err::<Term, EvalError>(EvalError::StackUnderflow),
{
    if parse(tokens) is Ok {
        lemma_accepted_tokens_balance(tokens);
    }
}

/// The stacks after `tokens`, read from left to right on top of `s`.
pub open spec fn resume(s: Stacks, tokens: Seq<Lexeme>) -> Option<Stacks>
    decreases tokens.len(),
{
    if tokens.len() == 0 {
        Some(s)
    } else {
        match resume(s, tokens.drop_last()) {
            Some(next) => step(next, tokens.last()),
            None => None,
        }
    }
}

/// An expression written out in tokens, with parentheses around every
/// application.
pub open spec fn written(term: Term) -> Seq<Lexeme>
    decreases term,
{
    match term {
        Term::Number(text) => seq![Lexeme::Number(text)],
        Term::Binary(op, left, right) => seq![Lexeme::Parentheses(Parentheses::Open)] + written(
            *left,
        ) + seq![Lexeme::Operator(op)] + written(*right) + seq![
            Lexeme::Parentheses(Parentheses::Close),
        ],
    }
}

/// `s` with one more operand on top.
pub open spec fn with_operand(s: Stacks, term: Term) -> Stacks {
    Stacks { operands: s.operands.push(term), pending: s.pending }
}

/// Reading starts on empty stacks.
pub proof fn lemma_run_resumes(tokens: Seq<Lexeme>)
    ensures
        run(tokens) == resume(
            Stacks { operands: Seq::empty(), pending: Seq::empty() },
            tokens,
        ),
    decreases tokens.len(),
{
    if tokens.len() > 0 {
        lemma_run_resumes(tokens.drop_last());
    }
}

/// Reading `a` and then `b` is reading `a + b`.
pub proof fn lemma_resume_append(s: Stacks, a: Seq<Lexeme>, b: Seq<Lexeme>)
    ensures
        resume(s, a + b) == match resume(s, a) {
            Some(next) => resume(next, b),
            None => None,
        },
    decreases b.len(),
{
    if b.len() == 0 {
        assert(a + b =~= a);
    } else {
        lemma_resume_append(s, a, b.drop_last());
        assert((a + b).drop_last() =~= a + b.drop_last());
        assert((a + b).last() == b.last());
    }
}

/// Reading one token is one step.
pub proof fn lemma_resume_one(s: Stacks, token: Lexeme)
    ensures
        resume(s, seq![token]) == step(s, token),
{
    assert(seq![token].drop_last() =~= Seq::<Lexeme>::empty());
    assert(resume(s, seq![token].drop_last()) == Some(s));
}

/// Read on top of any stacks, a written expression leaves them as they were,
/// with that expression as one more operand.
pub proof fn lemma_written_resumes(s: Stacks, term: Term)
    ensures
        resume(s, written(term)) == Some(with_operand(s, term)),
    decreases term,
{
    match term {
        Term::Number(text) => {
            lemma_resume_one(s, Lexeme::Number(text));
        },
        Term::Binary(op, left, right) => {
            let open = seq![Lexeme::Parentheses(Parentheses::Open)];
            let sign = seq![Lexeme::Operator(op)];
            let shut = seq![Lexeme::Parentheses(Parentheses::Close)];
            let s1 = Stacks { operands: s.operands, pending: s.pending.push(Pending::Open) };
            let s2 = with_operand(s1, *left);
            let s3 = Stacks {
                operands: s2.operands,
                pending: s2.pending.push(Pending::Operator(op)),
            };
            let s4 = with_operand(s3, *right);
            lemma_resume_one(s, Lexeme::Parentheses(Parentheses::Open));
            lemma_resume_append(s, open, written(*left));
            lemma_written_resumes(s1, *left);
            assert(resume(s, open + written(*left)) == Some(s2));
            lemma_resume_append(s, open + written(*left), sign);
            lemma_resume_one(s2, Lexeme::Operator(op));
            assert(shift(s2, op) == Some(s3));
            lemma_resume_append(s, open + written(*left) + sign, written(*right));
            lemma_written_resumes(s3, *right);
            assert(resume(s, open + written(*left) + sign + written(*right)) == Some(s4));
            lemma_resume_append(s, open + written(*left) + sign + written(*right), shut);
            lemma_resume_one(s4, Lexeme::Parentheses(Parentheses::Close));
            let s5 = Stacks { operands: s.operands.push(term), pending: s1.pending };
            assert(s4.operands.take(s4.operands.len() - 2) =~= s.operands);
            assert(s4.pending.drop_last() =~= s1.pending);
            assert(reduce(s4) == Some(s5));
            assert(s5.pending.drop_last() =~= s.pending);
            assert(close(s5) == Some(with_operand(s, term)));
            assert(close(s4) == close(s5));
        },
    }
}

/// Every expression is what its fully parenthesised writing denotes.
pub proof fn lemma_written_parses(term: Term)
    ensures
        parse(written(term)) == Ok::<Term, EvalError>(term),
{
    let start = Stacks { operands: Seq::empty(), pending: Seq::empty() };
    lemma_run_resumes(written(term));
    lemma_written_resumes(start, term);
    let end = with_operand(start, term);
    assert(drain(end) == Some(end));
}

/// The expression that `x o1 y o2 z` denotes, for operands that are numbers or
/// parenthesised: the tighter operator is applied first, and of two that bind
/// alike the left one.
pub open spec fn grouped(x: Term, o1: Operator, y: Term, o2: Operator, z: Term) -> Term {
    if rank(Pending::Operator(o1)) >= rank(Pending::Operator(o2)) {
        Term::Binary(o2, Box::new(Term::Binary(o1, Box::new(x), Box::new(y))), Box::new(z))
    } else {
        Term::Binary(o1, Box::new(x), Box::new(Term::Binary(o2, Box::new(y), Box::new(z))))
    }
}

/// Precedence and grouping from the left: `x o1 y o2 z` denotes `(x o1 y) o2 z`
/// unless `o2` binds tighter than `o1`, and then `x o1 (y o2 z)`.
pub proof fn lemma_precedence(x: Term, o1: Operator, y: Term, o2: Operator, z: Term)
    ensures
        parse(
            written(x) + seq![Lexeme::Operator(o1)] + written(y) + seq![Lexeme::Operator(o2)]
                + written(z),
        ) == Ok::<Term, EvalError>(grouped(x, o1, y, o2, z)),
{
    let start = Stacks { operands: Seq::empty(), pending: Seq::empty() };
    let first = seq![Lexeme::Operator(o1)];
    let second = seq![Lexeme::Operator(o2)];
    let read_x = written(x);
    let read_first = read_x + first;
    let read_y = read_first + written(y);
    let read_second = read_y + second;
    let read_z = read_second + written(z);
    let s1 = with_operand(start, x);
    let s2 = Stacks { operands: s1.operands, pending: seq![Pending::Operator(o1)] };
    let s3 = with_operand(s2, y);
    lemma_run_resumes(read_z);
    lemma_written_resumes(start, x);
    lemma_resume_append(start, read_x, first);
    lemma_resume_one(s1, Lexeme::Operator(o1));
    assert(s1.pending.push(Pending::Operator(o1)) =~= s2.pending);
    assert(shift(s1, o1) == Some(s2));
    lemma_resume_append(start, read_first, written(y));
    lemma_written_resumes(s2, y);
    assert(resume(start, read_y) == Some(s3));
    lemma_resume_append(start, read_y, second);
    lemma_resume_one(s3, Lexeme::Operator(o2));
    assert(s3.operands.take(s3.operands.len() - 2) =~= Seq::empty());
    assert(s3.pending.drop_last() =~= Seq::empty());
    lemma_resume_append(start, read_second, written(z));
    if rank(Pending::Operator(o1)) >= rank(Pending::Operator(o2)) {
        let inner = Term::Binary(o1, Box::new(x), Box::new(y));
        let r = Stacks { operands: seq![inner], pending: Seq::empty() };
        assert(Seq::<Term>::empty().push(inner) =~= seq![inner]);
        assert(reduce(s3) == Some(r));
        let s4 = Stacks { operands: r.operands, pending: seq![Pending::Operator(o2)] };
        assert(r.pending.push(Pending::Operator(o2)) =~= s4.pending);
        assert(shift(r, o2) == Some(s4));
        assert(shift(s3, o2) == Some(s4));
        lemma_written_resumes(s4, z);
        let s5 = with_operand(s4, z);
        assert(resume(start, read_z) == Some(s5));
        let whole = grouped(x, o1, y, o2, z);
        let end = Stacks { operands: seq![whole], pending: Seq::empty() };
        assert(s5.operands.take(s5.operands.len() - 2) =~= Seq::empty());
        assert(Seq::<Term>::empty().push(whole) =~= seq![whole]);
        assert(s5.pending.drop_last() =~= Seq::empty());
        assert(reduce(s5) == Some(end));
        assert(drain(end) == Some(end));
        assert(drain(s5) == Some(end));
    } else {
        let s4 = Stacks {
            operands: s3.operands,
            pending: seq![Pending::Operator(o1), Pending::Operator(o2)],
        };
        assert(s3.pending.push(Pending::Operator(o2)) =~= s4.pending);
        assert(shift(s3, o2) == Some(s4));
        lemma_written_resumes(s4, z);
        let s5 = with_operand(s4, z);
        assert(resume(start, read_z) == Some(s5));
        let inner = Term::Binary(o2, Box::new(y), Box::new(z));
        let r = Stacks { operands: seq![x, inner], pending: seq![Pending::Operator(o1)] };
        assert(s5.operands.take(s5.operands.len() - 2).push(inner) =~= r.operands);
        assert(s5.pending.drop_last() =~= r.pending);
        assert(reduce(s5) == Some(r));
        let whole = grouped(x, o1, y, o2, z);
        let end = Stacks { operands: seq![whole], pending: Seq::empty() };
        assert(r.operands.take(r.operands.len() - 2).push(whole) =~= end.operands);
        assert(r.pending.drop_last() =~= end.pending);
        assert(reduce(r) == Some(end));
        assert(drain(end) == Some(end));
        assert(drain(r) == Some(end));
        assert(drain(s5) == Some(end));
    }
}

} // verus!
