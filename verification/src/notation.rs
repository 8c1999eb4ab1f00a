use vstd::prelude::*;
use crate::parser::{
    close, drain, parse, rank, reduce, run, shift, EvalError, Pending, Stacks, Term,
};
use crate::parser_laws::{
    lemma_resume_append, lemma_resume_one, lemma_run_resumes, resume, with_operand,
};
use crate::lexer::{classify, feed, lex, numbers_are_literals, scan, LexError, Scan, Symbol};
use crate::token::{is_literal, is_numeric, Lexeme, Operator, Parentheses};

verus! {

/// How tightly an operator binds.
pub open spec fn binding(op: Operator) -> nat {
    rank(Pending::Operator(op))
}

/// An expression in ordinary infix notation, as the operand of an operator
/// that binds with `level`: an application stands in parentheses only where
/// its own operator binds less tightly than `level`. The left operand of an
/// operator is written at the operator's binding, the right one a level above,
/// so that operators that bind alike need no parentheses from the left.
pub open spec fn infix(term: Term, level: nat) -> Seq<Lexeme>
    decreases term,
{
    match term {
        Term::Number(text) => seq![Lexeme::Number(text)],
        Term::Binary(op, left, right) => {
            let body = infix(*left, binding(op)) + seq![Lexeme::Operator(op)] + infix(
                *right,
                (binding(op) + 1) as nat,
            );
            if binding(op) >= level {
                body
            } else {
                seq![Lexeme::Parentheses(Parentheses::Open)] + body + seq![
                    Lexeme::Parentheses(Parentheses::Close),
                ]
            }
        },
    }
}

/// Reduces until the operator stack is no higher than `height`.
pub open spec fn settle(s: Stacks, height: nat) -> Option<Stacks>
    decreases s.pending.len(),
{
    if s.pending.len() <= height {
        Some(s)
    } else {
        match reduce(s) {
            Some(next) => settle(next, height),
            None => None,
        }
    }
}

/// The entries of `pending` from `height` up are operators that bind with
/// `level` at least.
pub open spec fn binds_above(pending: Seq<Pending>, height: nat, level: nat) -> bool {
    forall|i: int|
        height <= i < pending.len() ==> (#[trigger] pending[i]) is Operator && rank(pending[i])
            >= level
}

/// The top of `pending` yields to an operand written at `level`.
pub open spec fn yields_to(pending: Seq<Pending>, level: nat) -> bool {
    pending.len() == 0 || rank(pending.last()) < level
}

/// To reduce every entry is to settle at height zero.
proof fn lemma_drain_settles(s: Stacks)
    ensures
        drain(s) == settle(s, 0),
    decreases s.pending.len(),
{
    if s.pending.len() > 0 && reduce(s) is Some {
        lemma_drain_settles(reduce(s)->Some_0);
    }
}

/// Settling at a height and then at a lower one is settling at the lower one.
proof fn lemma_settle_twice(s: Stacks, upper: nat, lower: nat)
    requires
        lower <= upper,
    ensures
        settle(s, lower) == match settle(s, upper) {
            Some(next) => settle(next, lower),
            None => None,
        },
    decreases s.pending.len(),
{
    if s.pending.len() > upper && reduce(s) is Some {
        lemma_settle_twice(reduce(s)->Some_0, upper, lower);
    }
}

/// An operator that arrives on entries that all bind at least as tightly,
/// above a top that yields to it, settles them and goes on top.
proof fn lemma_shift_settles(s: Stacks, op: Operator, height: nat)
    requires
        s.pending.len() >= height,
        binds_above(s.pending, height, binding(op)),
        yields_to(s.pending.take(height as int), binding(op)),
        settle(s, height) is Some,
    ensures
        shift(s, op) == Some(
            Stacks {
                operands: settle(s, height)->Some_0.operands,
                pending: settle(s, height)->Some_0.pending.push(Pending::Operator(op)),
            },
        ),
    decreases s.pending.len(),
{
    if s.pending.len() == height {
        assert(s.pending.take(height as int) =~= s.pending);
    } else {
        assert(rank(s.pending[s.pending.len() - 1]) >= binding(op));
        let next = reduce(s)->Some_0;
        assert(next.pending.take(height as int) =~= s.pending.take(height as int));
        assert forall|i: int| height <= i < next.pending.len() implies (
        #[trigger] next.pending[i]) is Operator && rank(next.pending[i]) >= binding(op) by {
            assert(next.pending[i] == s.pending[i]);
        }
        lemma_shift_settles(next, op, height);
    }
}

/// A closing parenthesis that arrives on operators above an opening
/// parenthesis settles them and takes the parenthesis away.
proof fn lemma_close_settles(s: Stacks, height: nat)
    requires
        s.pending.len() >= height >= 1,
        binds_above(s.pending, height, 0),
        s.pending[height - 1] == Pending::Open,
        settle(s, height) is Some,
    ensures
        close(s) == Some(
            Stacks {
                operands: settle(s, height)->Some_0.operands,
                pending: settle(s, height)->Some_0.pending.drop_last(),
            },
        ),
    decreases s.pending.len(),
{
    if s.pending.len() > height {
        assert(s.pending[s.pending.len() - 1] is Operator);
        let next = reduce(s)->Some_0;
        assert forall|i: int| height <= i < next.pending.len() implies (
        #[trigger] next.pending[i]) is Operator && rank(next.pending[i]) >= 0 by {
            assert(next.pending[i] == s.pending[i]);
        }
        lemma_close_settles(next, height);
    }
}

/// Read on top of stacks whose top yields to it, an expression in infix
/// notation leaves the stacks as they were below, puts only operators that
/// bind with `level` at least above, and once those are reduced the
/// expression is one more operand.
pub proof fn lemma_infix_resumes(s: Stacks, term: Term, level: nat)
    requires
        yields_to(s.pending, level),
    ensures
        resume(s, infix(term, level)) matches Some(after) && {
            &&& after.pending.len() >= s.pending.len()
            &&& after.pending.take(s.pending.len() as int) == s.pending
            &&& binds_above(after.pending, s.pending.len(), level)
            &&& settle(after, s.pending.len()) == Some(with_operand(s, term))
        },
    decreases term, level,
{
    let height = s.pending.len();
    match term {
        Term::Number(text) => {
            lemma_resume_one(s, Lexeme::Number(text));
            assert(s.pending.take(height as int) =~= s.pending);
        },
        Term::Binary(op, left, right) => {
            let sign = seq![Lexeme::Operator(op)];
            let body = infix(*left, binding(op)) + sign + infix(*right, (binding(op) + 1) as nat);
            if binding(op) >= level {
                lemma_infix_resumes(s, *left, binding(op));
                let s1 = resume(s, infix(*left, binding(op)))->Some_0;
                lemma_shift_settles(s1, op, height);
                let s2 = Stacks {
                    operands: s.operands.push(*left),
                    pending: s.pending.push(Pending::Operator(op)),
                };
                lemma_resume_append(s, infix(*left, binding(op)), sign);
                lemma_resume_one(s1, Lexeme::Operator(op));
                assert(resume(s, infix(*left, binding(op)) + sign) == Some(s2));
                lemma_infix_resumes(s2, *right, (binding(op) + 1) as nat);
                lemma_resume_append(
                    s,
                    infix(*left, binding(op)) + sign,
                    infix(*right, (binding(op) + 1) as nat),
                );
                let s3 = resume(s2, infix(*right, (binding(op) + 1) as nat))->Some_0;
                assert(resume(s, body) == Some(s3));
                assert(s3.pending.take(height as int) =~= s2.pending.take(height as int));
                assert(s2.pending.take(height as int) =~= s.pending);
                assert forall|i: int| height <= i < s3.pending.len() implies (
                #[trigger] s3.pending[i]) is Operator && rank(s3.pending[i]) >= level by {
                    if i == height {
                        assert(s3.pending[i] == s3.pending.take(height as int + 1)[i]);
                    }
                }
                let s4 = with_operand(s2, *right);
                lemma_settle_twice(s3, (height + 1) as nat, height);
                assert(s4.operands.take(s4.operands.len() - 2) =~= s.operands);
                assert(s4.pending.drop_last() =~= s.pending);
                assert(reduce(s4) == Some(with_operand(s, term)));
                assert(settle(with_operand(s, term), height) == Some(with_operand(s, term)));
                assert(settle(s4, height) == Some(with_operand(s, term)));
            } else {
                let open = seq![Lexeme::Parentheses(Parentheses::Open)];
                let shut = seq![Lexeme::Parentheses(Parentheses::Close)];
                let s0 = Stacks { operands: s.operands, pending: s.pending.push(Pending::Open) };
                lemma_resume_one(s, Lexeme::Parentheses(Parentheses::Open));
                lemma_infix_resumes(s0, term, binding(op));
                assert(infix(term, binding(op)) == body);
                let s3 = resume(s0, body)->Some_0;
                lemma_resume_append(s, open, body);
                lemma_resume_append(s, open + body, shut);
                lemma_resume_one(s3, Lexeme::Parentheses(Parentheses::Close));
                assert(s3.pending[height as int] == s3.pending.take(height as int + 1)[height as int]);
                lemma_close_settles(s3, (height + 1) as nat);
                let end = with_operand(s, term);
                assert(s0.pending.drop_last() =~= s.pending);
                assert(close(s3) == Some(end));
                assert(end.pending.take(height as int) =~= s.pending);
            }
        },
    }
}

/// Every expression is what its infix notation denotes: the parser applies the
/// tighter operator first, groups operators that bind alike from the left, and
/// follows the parentheses.
pub proof fn lemma_infix_parses(term: Term)
    ensures
        parse(infix(term, 0)) == Ok::<Term, EvalError>(term),
{
    let start = Stacks { operands: Seq::empty(), pending: Seq::empty() };
    lemma_run_resumes(infix(term, 0));
    lemma_infix_resumes(start, term, 0);
    let after = run(infix(term, 0))->Some_0;
    lemma_drain_settles(after);
}

/// The characters of one token.
pub open spec fn word(token: Lexeme) -> Seq<char> {
    match token {
        Lexeme::Number(text) => text,
        Lexeme::Operator(Operator::Add) => seq!['+'],
        Lexeme::Operator(Operator::Subtract) => seq!['-'],
        Lexeme::Operator(Operator::Multiply) => seq!['*'],
        Lexeme::Operator(Operator::Divide) => seq!['/'],
        Lexeme::Parentheses(Parentheses::Open) => seq!['('],
        Lexeme::Parentheses(Parentheses::Close) => seq![')'],
    }
}

/// A token sequence as text: the characters of each token, with a space
/// behind each.
pub open spec fn spelled(tokens: Seq<Lexeme>) -> Seq<char>
    decreases tokens.len(),
{
    if tokens.len() == 0 {
        Seq::empty()
    } else {
        spelled(tokens.drop_last()) + word(tokens.last()) + seq![' ']
    }
}

/// Every number in `term` carries a decimal literal.
pub open spec fn numbers_well_formed(term: Term) -> bool
    decreases term,
{
    match term {
        Term::Number(text) => is_literal(text),
        Term::Binary(_, left, right) => numbers_well_formed(*left) && numbers_well_formed(*right),
    }
}

/// The scan that has read `text` after it had come to `state`.
pub open spec fn scan_on(state: Scan, text: Seq<char>) -> Scan
    decreases text.len(),
{
    if text.len() == 0 {
        state
    } else {
        feed(scan_on(state, text.drop_last()), text.last())
    }
}

/// Scanning `a` and then `b` is scanning `a + b`.
proof fn lemma_scan_append(a: Seq<char>, b: Seq<char>)
    ensures
        scan(a + b) == scan_on(scan(a), b),
    decreases b.len(),
{
    if b.len() == 0 {
        assert(a + b =~= a);
    } else {
        lemma_scan_append(a, b.drop_last());
        assert((a + b).drop_last() =~= a + b.drop_last());
        assert((a + b).last() == b.last());
    }
}

/// Digits and points that arrive between two tokens are gathered.
proof fn lemma_scan_on_number(tokens: Seq<Lexeme>, text: Seq<char>)
    requires
        forall|i: int| 0 <= i < text.len() ==> is_numeric(#[trigger] text[i]),
    ensures
        scan_on(Scan::Reading { tokens, number: Seq::empty() }, text) == (Scan::Reading {
            tokens,
            number: text,
        }),
    decreases text.len(),
{
    if text.len() == 0 {
        assert(text =~= Seq::empty());
    } else {
        lemma_scan_on_number(tokens, text.drop_last());
        assert(text.drop_last().push(text.last()) =~= text);
    }
}

/// Between two tokens, the characters of a token and a space give that token.
proof fn lemma_scan_on_word(tokens: Seq<Lexeme>, token: Lexeme)
    requires
        token matches Lexeme::Number(text) ==> is_literal(text),
    ensures
        feed(scan_on(Scan::Reading { tokens, number: Seq::empty() }, word(token)), ' ') == (
        Scan::Reading { tokens: tokens.push(token), number: Seq::empty() }),
{
    let state = Scan::Reading { tokens, number: Seq::empty() };
    match token {
        Lexeme::Number(text) => {
            lemma_scan_on_number(tokens, text);
            crate::token::lemma_points_bound(text);
        },
        _ => {
            let c = word(token)[0];
            assert(word(token).drop_last() =~= Seq::<char>::empty());
            assert(scan_on(state, word(token).drop_last()) == state);
            assert(word(token).last() == c);
            assert(scan_on(state, word(token)) == feed(state, c));
            assert(classify(c) == Symbol::Token(token));
        },
    }
}

/// Read as text, well-formed tokens are read back, one by one.
proof fn lemma_spelled_scans(tokens: Seq<Lexeme>)
    requires
        numbers_are_literals(tokens),
    ensures
        scan(spelled(tokens)) == (Scan::Reading { tokens, number: Seq::empty() }),
    decreases tokens.len(),
{
    if tokens.len() == 0 {
        assert(tokens =~= Seq::empty());
    } else {
        let init = tokens.drop_last();
        let last = tokens.last();
        lemma_spelled_scans(init);
        let text = spelled(init) + word(last);
        assert((text + seq![' ']).drop_last() =~= text);
        assert((text + seq![' ']).last() == ' ');
        assert(scan(text + seq![' ']) == feed(scan(text), ' '));
        lemma_scan_append(spelled(init), word(last));
        lemma_scan_on_word(init, last);
        assert(init.push(last) =~= tokens);
    }
}

/// Tokens whose numbers are decimal literals, at least one, are the tokens of
/// their own spelling.
pub proof fn lemma_spelled_lexes(tokens: Seq<Lexeme>)
    requires
        tokens.len() > 0,
        numbers_are_literals(tokens),
    ensures
        lex(spelled(tokens)) == Ok::<Seq<Lexeme>, LexError>(tokens),
{
    lemma_spelled_scans(tokens);
}

/// The infix notation of an expression whose numbers are decimal literals
/// holds at least one token, and its numbers are those literals.
pub proof fn lemma_infix_well_formed(term: Term, level: nat)
    requires
        numbers_well_formed(term),
    ensures
        infix(term, level).len() > 0,
        numbers_are_literals(infix(term, level)),
    decreases term,
{
    match term {
        Term::Number(_) => {},
        Term::Binary(op, left, right) => {
            lemma_infix_well_formed(*left, binding(op));
            lemma_infix_well_formed(*right, (binding(op) + 1) as nat);
        },
    }
}

/// An expression whose numbers are decimal literals, written as text in infix
/// notation, is read back: the lexer gives the tokens of the notation, and
/// the parser gives the expression.
pub proof fn lemma_expression_reads_back(term: Term)
    requires
        numbers_well_formed(term),
    ensures
        lex(spelled(infix(term, 0))) == Ok::<Seq<Lexeme>, LexError>(infix(term, 0)),
        parse(infix(term, 0)) == Ok::<Term, EvalError>(term),
{
    lemma_infix_well_formed(term, 0);
    lemma_spelled_lexes(infix(term, 0));
    lemma_infix_parses(term);
}

} // verus!
