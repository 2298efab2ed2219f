//! Laws that relate the stages: scanning, parsing and evaluation.
use crate::ast::{ExprView, StmtView};
use crate::eval::{
    extends, lemma_more_answers, more_answers, run_program, AnswerView, HaltView, State,
};
use crate::lex::{
    digits_of, is_digit, is_keyword_text, is_letter, is_number_char, is_word_char, lemma_lex_blank,
    lemma_lex_delimiter, lemma_lex_equals, lemma_lex_number, lemma_lex_word, lex, scan_text,
    word_token,
};
use crate::parse::{parse_expr, parse_from, parse_program, parse_stmt, valid_number, ParseFault};
use crate::token::TokenView;
use vstd::prelude::*;

verus! {

/// The text `var <ident> = <literal>;`.
pub open spec fn declaration_source(ident: Seq<char>, literal: Seq<char>) -> Seq<char> {
    seq!['v', 'a', 'r', ' '] + ident + seq![' ', '=', ' '] + literal + seq![';']
}

/// Scanning and parsing `var <ident> = <literal>;`, for an identifier that
/// is no keyword and a well-formed number literal, gives exactly one
/// declaration of that name, whose value is the literal less its underscores.
pub proof fn lemma_declaration_source(ident: Seq<char>, literal: Seq<char>)
    requires
        ident.len() > 0,
        is_letter(ident[0]) || ident[0] == '_',
        forall|i: int| 0 <= i < ident.len() ==> is_word_char(#[trigger] ident[i]),
        !is_keyword_text(ident),
        literal.len() > 0,
        is_digit(literal[0]),
        forall|i: int| 0 <= i < literal.len() ==> is_number_char(#[trigger] literal[i]),
        valid_number(digits_of(literal)),
    ensures
        scan_text(declaration_source(ident, literal)).failure is None,
        parse_program(scan_text(declaration_source(ident, literal)).tokens) == (
            seq![StmtView::Declaration(ident, ExprView::Number(digits_of(literal)))],
            None::<ParseFault>,
        ),
{
    reveal_strlit("var");
    let kw: Seq<char> = seq!['v', 'a', 'r'];
    let s6 = literal + seq![';'];
    let s5 = seq![' '] + s6;
    let s4 = seq!['='] + s5;
    let s3 = seq![' '] + s4;
    let s2 = ident + s3;
    let s1 = seq![' '] + s2;
    let s0 = declaration_source(ident, literal);
    assert(s0 =~= kw + s1);
    assert(s6 =~= literal + seq![';'] + Seq::<char>::empty());
    lemma_lex_delimiter(';', Seq::<char>::empty(), 1);
    assert(seq![';'] + Seq::<char>::empty() =~= seq![';']);
    lemma_lex_number(literal, seq![';'], 1);
    lemma_lex_blank(s6, 1);
    lemma_lex_equals(s5, 1);
    lemma_lex_blank(s4, 1);
    lemma_lex_word(ident, s3, 1);
    lemma_lex_blank(s2, 1);
    assert(kw =~= "var"@);
    lemma_lex_word(kw, s1, 1);
    assert(word_token(kw) == TokenView::Keyword(kw));
    assert(word_token(ident) == TokenView::Identifier(ident));
    let ts = seq![
        TokenView::Keyword(kw),
        TokenView::Identifier(ident),
        TokenView::Equals,
        TokenView::Number(digits_of(literal)),
        TokenView::Delimiter(';'),
        TokenView::EndOfFile,
    ];
    assert(lex(s0, 1).tokens =~= ts);
    assert(lex(s0, 1).failure is None);
    let d = digits_of(literal);
    assert(parse_expr(ts, 3) == Ok::<(ExprView, int), ParseFault>((ExprView::Number(d), 4)));
    let decl = StmtView::Declaration(ident, ExprView::Number(d));
    assert(parse_stmt(ts, 0) == Ok::<(StmtView, int), ParseFault>((decl, 5)));
    assert(parse_from(ts, 5, seq![decl]) == (seq![decl], None::<ParseFault>));
    assert(parse_from(ts, 0, seq![]) == parse_from(ts, 5, seq![decl]));
}

/// Scanning, parsing and running the text `source` with the answers `ans`.
pub open spec fn run_source(source: Seq<char>, ans: Seq<AnswerView>) -> (State, Option<HaltView>) {
    run_program(stmts_of(source), ans)
}

/// The statements that parsing the tokens of `source` gives.
pub open spec fn stmts_of(source: Seq<char>) -> Seq<StmtView> {
    parse_program(scan_text(source).tokens).0
}

/// Running a source depends on its text and the answers alone: two copies
/// of one text, each scanned and parsed on its own and run with the same
/// answers, end alike, and a run given more answers than another first
/// prints all that the other printed.
pub proof fn lemma_source_runs_alike(
    first: Seq<char>,
    second: Seq<char>,
    a: Seq<AnswerView>,
    b: Seq<AnswerView>,
)
    requires
        first == second,
        more_answers(a, b),
    ensures
        run_source(first, a) == run_source(second, a),
        extends(run_source(second, b).0.out, run_source(first, a).0.out),
{
    lemma_more_answers(stmts_of(first), a, b);
}

} // verus!
