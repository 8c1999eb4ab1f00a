use vstd::prelude::*;
use crate::lexer::{
    conclude, feed, flush, lex, lexed, numbers_are_literals, scan, LexError, Scan,
};
use crate::parser::{parse, EvalError, Term};
use crate::token::{is_literal, is_numeric, lexemes, Lexeme, Token};

verus! {

/// The characters that separate tokens and give none.
pub open spec fn is_blank(c: char) -> bool {
    c == ' ' || c == '\n'
}

/// A line that is one decimal literal and nothing else gives one token, that
/// number, and the expression it denotes is that number.
pub proof fn lemma_single_number(text: Seq<char>)
    requires
        is_literal(text),
    ensures
        lex(text) == Ok::<Seq<Lexeme>, LexError>(seq![Lexeme::Number(text)]),
        parse(seq![Lexeme::Number(text)]) == Ok::<Term, EvalError>(Term::Number(text)),
{
    lemma_scan_number(text);
    assert(Seq::<Lexeme>::empty().push(Lexeme::Number(text)) =~= seq![Lexeme::Number(text)]);
    crate::parser_laws::lemma_parse_number(text);
}

/// While only digits and points have been read, no token has been given and
/// all of them wait in the number.
pub proof fn lemma_scan_number(text: Seq<char>)
    requires
        forall|i: int| 0 <= i < text.len() ==> is_numeric(#[trigger] text[i]),
    ensures
        scan(text) == (Scan::Reading { tokens: Seq::empty(), number: text }),
    decreases text.len(),
{
    if text.len() == 0 {
        assert(text =~= Seq::empty());
    } else {
        lemma_scan_number(text.drop_last());
        assert(text.drop_last().push(text.last()) =~= text);
    }
}

/// Lexing the same line twice gives the same tokens, or the same error.
pub proof fn lemma_lexing_repeats(
    input: Seq<char>,
    first: Result<Vec<Token>, LexError>,
    second: Result<Vec<Token>, LexError>,
)
    requires
        lexed(input, first),
        lexed(input, second),
    ensures
        first is Ok <==> second is Ok,
        first is Ok ==> lexemes(first->Ok_0@) == lexemes(second->Ok_0@),
        first is Err ==> first->Err_0 == second->Err_0,
{
}

/// Where lexing succeeds there is at least one token, and every number among
/// the tokens carries a decimal literal.
pub proof fn lemma_tokens_well_formed(text: Seq<char>)
    ensures
        lex(text) matches Ok(tokens) ==> tokens.len() > 0 && numbers_are_literals(tokens),
{
    lemma_scan_well_formed(text);
}

/// Every number read so far carries a decimal literal.
pub proof fn lemma_scan_well_formed(text: Seq<char>)
    ensures
        scan(text) matches Scan::Reading { tokens, number } ==> numbers_are_literals(tokens),
    decreases text.len(),
{
    if text.len() > 0 {
        lemma_scan_well_formed(text.drop_last());
    }
}

/// After a character that belongs to no number, and at the start of the text,
/// no number is being read.
pub proof fn lemma_no_number_after_delimiter(text: Seq<char>)
    requires
        text.len() == 0 || !is_numeric(text.last()),
    ensures
        scan(text) matches Scan::Reading { tokens, number } ==> number =~= Seq::empty(),
{
}

/// A blank leaves the scan as it is where no number is being read.
pub proof fn lemma_blank_between_tokens(state: Scan, blank: char)
    requires
        is_blank(blank),
        state matches Scan::Reading { tokens, number } ==> number =~= Seq::empty(),
    ensures
        feed(state, blank) == state,
{
}

/// A blank in front of a character that belongs to no number is not seen
/// behind that character.
pub proof fn lemma_blank_before_delimiter(state: Scan, blank: char, c: char)
    requires
        is_blank(blank),
        !is_numeric(c),
    ensures
        feed(feed(state, blank), c) == feed(state, c),
{
}

/// A blank at the very end is not seen in the outcome.
pub proof fn lemma_blank_at_end(state: Scan, blank: char)
    requires
        is_blank(blank),
    ensures
        conclude(feed(state, blank)) == conclude(state),
{
    match state {
        Scan::Failed(_) => {},
        Scan::Reading { tokens, number } => {
            match flush(tokens, number) {
                Err(_) => {},
                Ok(flushed) => {
                    assert(flush(flushed, Seq::empty()) == Ok::<Seq<Lexeme>, LexError>(flushed));
                },
            }
        },
    }
}

/// From the character behind the blank on, the scan of the text with the
/// blank is the scan of the text without it.
proof fn lemma_scan_with_blank(text: Seq<char>, at: int, blank: char, n: int)
    requires
        0 <= at < n <= text.len(),
        is_blank(blank),
        !(0 < at && is_numeric(text[at - 1]) && is_numeric(text[at])),
    ensures
        scan(text.insert(at, blank).take(n + 1)) == scan(text.take(n)),
    decreases n,
{
    let wide = text.insert(at, blank);
    assert(wide.take(n + 1).drop_last() =~= wide.take(n));
    assert(text.take(n).drop_last() =~= text.take(n - 1));
    assert(wide.take(n + 1).last() == text[n - 1]);
    assert(text.take(n).last() == text[n - 1]);
    assert(scan(wide.take(n + 1)) == feed(scan(wide.take(n)), text[n - 1]));
    assert(scan(text.take(n)) == feed(scan(text.take(n - 1)), text[n - 1]));
    if n == at + 1 {
        assert(wide.take(n).drop_last() =~= text.take(at));
        assert(wide.take(n).last() == blank);
        let state = scan(text.take(at));
        assert(scan(wide.take(n)) == feed(state, blank));
        if at > 0 && is_numeric(text[at - 1]) {
            lemma_blank_before_delimiter(state, blank, text[at]);
        } else {
            assert(at > 0 ==> text.take(at).last() == text[at - 1]);
            lemma_no_number_after_delimiter(text.take(at));
            lemma_blank_between_tokens(state, blank);
        }
    } else {
        lemma_scan_with_blank(text, at, blank, n - 1);
    }
}

/// A space or a newline put anywhere but between two characters of one number
/// changes neither the tokens nor the error, and so not the expression that
/// the line denotes.
pub proof fn lemma_blank_changes_nothing(text: Seq<char>, at: int, blank: char)
    requires
        0 <= at <= text.len(),
        is_blank(blank),
        !(0 < at < text.len() && is_numeric(text[at - 1]) && is_numeric(text[at])),
    ensures
        lex(text.insert(at, blank)) == lex(text),
        lex(text) matches Ok(tokens) ==> parse(lex(text.insert(at, blank))->Ok_0) == parse(tokens),
{
    let wide = text.insert(at, blank);
    if at == text.len() {
        assert(wide.drop_last() =~= text);
        assert(wide.last() == blank);
        assert(scan(wide) == feed(scan(text), blank));
        lemma_blank_at_end(scan(text), blank);
    } else {
        lemma_scan_with_blank(text, at, blank, text.len() as int);
        assert(wide.take(text.len() as int + 1) =~= wide);
        assert(text.take(text.len() as int) =~= text);
    }
}

} // verus!
