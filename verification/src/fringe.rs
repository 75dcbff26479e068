//! The tokens of a tree.
//!
//! A tree that the grammar assigns to a stretch of text, written back as
//! tokens, is the sequence of tokens that the lexer finds in that stretch:
//! parsing neither drops a token nor makes one up, and keeps their order.

use crate::grammar::{
    lemma_factor_advances, lemma_statement_advances, lemma_term_advances, spec_assigned, spec_closed, spec_expression, spec_expression_prime, spec_factor,
    spec_program, spec_statement, spec_statements, spec_term, spec_term_prime, ExpressionView, StatementView,
    TermView,
};
use crate::lexer::Keyword;
use crate::scan::{lemma_scan_advances, scan, source_of, Scan, Source, TokenView};
use vstd::prelude::*;

verus! {

/// The tokens that write `term`, in order.
pub open spec fn term_tokens(term: TermView) -> Seq<TokenView>
    decreases term,
{
    match term {
        TermView::Mult(left, right) => term_tokens(*left) + seq![TokenView::Mult] + term_tokens(
            *right,
        ),
        TermView::Div(left, right) => term_tokens(*left) + seq![TokenView::Div] + term_tokens(
            *right,
        ),
        TermView::Parenthesis(inner) => seq![TokenView::LPar] + expression_tokens(*inner)
            + seq![TokenView::RPar],
        TermView::Num(n) => seq![TokenView::Num(n)],
        TermView::Id(name) => seq![TokenView::Id(name)],
    }
}

/// The tokens that write `expression`, in order.
pub open spec fn expression_tokens(expression: ExpressionView) -> Seq<TokenView>
    decreases expression,
{
    match expression {
        ExpressionView::Add(left, right) => expression_tokens(*left) + seq![TokenView::Add]
            + expression_tokens(*right),
        ExpressionView::Sub(left, right) => expression_tokens(*left) + seq![TokenView::Sub]
            + expression_tokens(*right),
        ExpressionView::Term(term) => term_tokens(term),
    }
}

/// The tokens that write `statement`, in order.
pub open spec fn statement_tokens(statement: StatementView) -> Seq<TokenView> {
    match statement {
        StatementView::Let(name, value) => seq![
            TokenView::Keyword(Keyword::Let),
            TokenView::Id(name),
            TokenView::Assign,
        ] + expression_tokens(value) + seq![TokenView::Semicolon],
        StatementView::Assign(name, value) => seq![TokenView::Id(name), TokenView::Assign]
            + expression_tokens(value) + seq![TokenView::Semicolon],
        StatementView::Print(value) => seq![TokenView::Keyword(Keyword::Print)]
            + expression_tokens(value) + seq![TokenView::Semicolon],
    }
}

/// The tokens that write the statements `program`, in order.
pub open spec fn program_tokens(program: Seq<StatementView>) -> Seq<TokenView>
    decreases program.len(),
{
    if program.len() == 0 {
        Seq::empty()
    } else {
        statement_tokens(program[0]) + program_tokens(program.drop_first())
    }
}

/// The tokens that the lexer finds from `from` on and that end at or
/// before `to`.
pub open spec fn tokens_between(src: Source, from: nat, to: nat) -> Seq<TokenView>
    decreases to - from,
{
    proof {
        lemma_scan_advances(src, from);
    }
    match scan(src, from) {
        Scan::Token { token, end, .. } => if end <= to {
            seq![token] + tokens_between(src, end, to)
        } else {
            Seq::empty()
        },
        _ => Seq::empty(),
    }
}

/// Whether the tokens from `from` on end one of them exactly at `to`, or
/// `to` is `from` itself.
pub open spec fn aligned(src: Source, from: nat, to: nat) -> bool
    decreases to - from,
{
    proof {
        lemma_scan_advances(src, from);
    }
    from == to || match scan(src, from) {
        Scan::Token { end, .. } => end <= to && aligned(src, end, to),
        _ => false,
    }
}

/// The tokens of two stretches that meet at a token's end are the tokens
/// of the two together.
pub proof fn lemma_tokens_join(src: Source, from: nat, mid: nat, to: nat)
    requires
        aligned(src, from, mid),
        mid <= to,
    ensures
        tokens_between(src, from, to) == tokens_between(src, from, mid) + tokens_between(
            src,
            mid,
            to,
        ),
        aligned(src, mid, to) ==> aligned(src, from, to),
    decreases mid - from,
{
    lemma_scan_advances(src, from);
    if from == mid {
        assert(tokens_between(src, from, mid) =~= Seq::empty());
        assert(Seq::<TokenView>::empty() + tokens_between(src, mid, to) =~= tokens_between(
            src,
            mid,
            to,
        ));
    } else {
        match scan(src, from) {
            Scan::Token { token, end, .. } => {
                lemma_tokens_join(src, end, mid, to);
                assert(seq![token] + (tokens_between(src, end, mid) + tokens_between(
                    src,
                    mid,
                    to,
                )) =~= (seq![token] + tokens_between(src, end, mid)) + tokens_between(
                    src,
                    mid,
                    to,
                ));
            },
            _ => {},
        }
    }
}

/// One token followed by the tokens of a stretch that begins at its end.
proof fn lemma_tokens_first(src: Source, from: nat, to: nat)
    requires
        scan(src, from) matches Scan::Token { end, .. } && aligned(src, end, to),
    ensures
        aligned(src, from, to),
        scan(src, from) matches Scan::Token { token, end, .. } && tokens_between(src, from, to)
            == seq![token] + tokens_between(src, end, to),
{
    lemma_scan_advances(src, from);
    if let Scan::Token { end, .. } = scan(src, from) {
        lemma_aligned_order(src, end, to);
    }
}

/// A stretch that is aligned does not end before it begins.
proof fn lemma_aligned_order(src: Source, from: nat, to: nat)
    requires
        aligned(src, from, to),
    ensures
        from <= to,
    decreases to - from,
{
    lemma_scan_advances(src, from);
    if from != to {
        if let Scan::Token { end, .. } = scan(src, from) {
            lemma_aligned_order(src, end, to);
        }
    }
}

/// The tokens of a factor are the tokens of the text that it was parsed
/// from.
pub proof fn lemma_factor_tokens(src: Source, pos: nat)
    ensures
        spec_factor(src, pos) matches Ok((factor, next)) ==> aligned(src, pos, next)
            && tokens_between(src, pos, next) == term_tokens(factor),
    decreases src.text.len() - pos, 1int,
{
    lemma_scan_advances(src, pos);
    if let Ok((factor, next)) = spec_factor(src, pos) {
        match scan(src, pos) {
            Scan::Token { token: TokenView::LPar, end, .. } => {
                lemma_expression_tokens(src, end);
                if let Ok((inner, before_close)) = spec_expression(src, end) {
                    lemma_scan_advances(src, before_close);
                    lemma_aligned_order(src, end, before_close);
                    lemma_tokens_first(src, before_close, next);
                    lemma_scan_advances(src, next);
                    assert(tokens_between(src, next, next) =~= Seq::empty());
                    lemma_tokens_join(src, end, before_close, next);
                    lemma_tokens_first(src, pos, next);
                    assert(tokens_between(src, pos, next) =~= term_tokens(factor));
                }
            },
            Scan::Token { end, .. } => {
                lemma_scan_advances(src, end);
                assert(tokens_between(src, end, end) =~= Seq::empty());
                lemma_tokens_first(src, pos, next);
                assert(tokens_between(src, pos, next) =~= term_tokens(factor));
            },
            _ => {},
        }
    }
}

/// The tokens of a term are the tokens of the text that it was parsed from.
pub proof fn lemma_term_tokens(src: Source, pos: nat)
    ensures
        spec_term(src, pos) matches Ok((term, next)) ==> aligned(src, pos, next)
            && tokens_between(src, pos, next) == term_tokens(term),
    decreases src.text.len() - pos, 3int,
{
    lemma_factor_tokens(src, pos);
    lemma_factor_advances(src, pos);
    if let Ok((factor, mid)) = spec_factor(src, pos) {
        lemma_term_prime_tokens(src, mid, factor);
        if let Ok((_, next)) = spec_term_prime(src, mid, factor) {
            lemma_aligned_order(src, mid, next);
            lemma_tokens_join(src, pos, mid, next);
        }
    }
}

/// The tokens of a term that was continued are the tokens of its left
/// operand and then those of the text that continued it.
pub proof fn lemma_term_prime_tokens(src: Source, pos: nat, left: TermView)
    ensures
        spec_term_prime(src, pos, left) matches Ok((term, next)) ==> aligned(src, pos, next)
            && term_tokens(term) == term_tokens(left) + tokens_between(src, pos, next),
    decreases src.text.len() - pos, 2int,
{
    lemma_scan_advances(src, pos);
    if let Ok((term, next)) = spec_term_prime(src, pos, left) {
        match scan(src, pos) {
            Scan::Token { token: TokenView::Mult, end, .. } => {
                lemma_factor_tokens(src, end);
                lemma_factor_advances(src, end);
                if let Ok((factor, mid)) = spec_factor(src, end) {
                    let folded = TermView::Mult(Box::new(left), Box::new(factor));
                    lemma_term_prime_tokens(src, mid, folded);
                    lemma_aligned_order(src, mid, next);
                    lemma_tokens_join(src, end, mid, next);
                    lemma_tokens_first(src, pos, next);
                    assert(term_tokens(term) =~= term_tokens(left) + tokens_between(
                        src,
                        pos,
                        next,
                    ));
                }
            },
            Scan::Token { token: TokenView::Div, end, .. } => {
                lemma_factor_tokens(src, end);
                lemma_factor_advances(src, end);
                if let Ok((factor, mid)) = spec_factor(src, end) {
                    let folded = TermView::Div(Box::new(left), Box::new(factor));
                    lemma_term_prime_tokens(src, mid, folded);
                    lemma_aligned_order(src, mid, next);
                    lemma_tokens_join(src, end, mid, next);
                    lemma_tokens_first(src, pos, next);
                    assert(term_tokens(term) =~= term_tokens(left) + tokens_between(
                        src,
                        pos,
                        next,
                    ));
                }
            },
            _ => {
                assert(tokens_between(src, pos, pos) =~= Seq::empty());
                assert(term_tokens(left) + Seq::<TokenView>::empty() =~= term_tokens(left));
            },
        }
    }
}

/// The tokens of an expression are the tokens of the text that it was
/// parsed from.
pub proof fn lemma_expression_tokens(src: Source, pos: nat)
    ensures
        spec_expression(src, pos) matches Ok((expression, next)) ==> aligned(src, pos, next)
            && tokens_between(src, pos, next) == expression_tokens(expression),
    decreases src.text.len() - pos, 5int,
{
    lemma_term_tokens(src, pos);
    lemma_term_advances(src, pos);
    if let Ok((term, mid)) = spec_term(src, pos) {
        let first = ExpressionView::Term(term);
        lemma_expression_prime_tokens(src, mid, first);
        if let Ok((_, next)) = spec_expression_prime(src, mid, first) {
            lemma_aligned_order(src, mid, next);
            lemma_tokens_join(src, pos, mid, next);
        }
    }
}

/// The tokens of an expression that was continued are the tokens of its
/// left operand and then those of the text that continued it.
pub proof fn lemma_expression_prime_tokens(src: Source, pos: nat, left: ExpressionView)
    ensures
        spec_expression_prime(src, pos, left) matches Ok((expression, next)) ==> aligned(
            src,
            pos,
            next,
        ) && expression_tokens(expression) == expression_tokens(left) + tokens_between(
            src,
            pos,
            next,
        ),
    decreases src.text.len() - pos, 4int,
{
    lemma_scan_advances(src, pos);
    if let Ok((expression, next)) = spec_expression_prime(src, pos, left) {
        match scan(src, pos) {
            Scan::Token { token: TokenView::Add, end, .. } => {
                lemma_term_tokens(src, end);
                lemma_term_advances(src, end);
                if let Ok((term, mid)) = spec_term(src, end) {
                    let folded = ExpressionView::Add(
                        Box::new(left),
                        Box::new(ExpressionView::Term(term)),
                    );
                    assert(expression_tokens(ExpressionView::Term(term)) == term_tokens(term));
                    assert(expression_tokens(folded) == expression_tokens(left)
                        + seq![TokenView::Add] + term_tokens(term));
                    lemma_expression_prime_tokens(src, mid, folded);
                    lemma_aligned_order(src, mid, next);
                    lemma_tokens_join(src, end, mid, next);
                    lemma_tokens_first(src, pos, next);
                    assert(expression_tokens(expression) =~= expression_tokens(left)
                        + tokens_between(src, pos, next));
                }
            },
            Scan::Token { token: TokenView::Sub, end, .. } => {
                lemma_term_tokens(src, end);
                lemma_term_advances(src, end);
                if let Ok((term, mid)) = spec_term(src, end) {
                    let folded = ExpressionView::Sub(
                        Box::new(left),
                        Box::new(ExpressionView::Term(term)),
                    );
                    assert(expression_tokens(ExpressionView::Term(term)) == term_tokens(term));
                    assert(expression_tokens(folded) == expression_tokens(left)
                        + seq![TokenView::Sub] + term_tokens(term));
                    lemma_expression_prime_tokens(src, mid, folded);
                    lemma_aligned_order(src, mid, next);
                    lemma_tokens_join(src, end, mid, next);
                    lemma_tokens_first(src, pos, next);
                    assert(expression_tokens(expression) =~= expression_tokens(left)
                        + tokens_between(src, pos, next));
                }
            },
            _ => {
                assert(tokens_between(src, pos, pos) =~= Seq::empty());
                assert(expression_tokens(left) + Seq::<TokenView>::empty() =~= expression_tokens(
                    left,
                ));
            },
        }
    }
}

/// The tokens of `expression ";"`.
proof fn lemma_closed_tokens(src: Source, pos: nat)
    ensures
        spec_closed(src, pos) matches Ok((value, next)) ==> aligned(src, pos, next)
            && tokens_between(src, pos, next) == expression_tokens(value)
            + seq![TokenView::Semicolon],
{
    lemma_expression_tokens(src, pos);
    if let Ok((value, next)) = spec_closed(src, pos) {
        if let Ok((_, mid)) = spec_expression(src, pos) {
            lemma_scan_advances(src, mid);
            lemma_scan_advances(src, next);
            assert(tokens_between(src, next, next) =~= Seq::empty());
            lemma_tokens_first(src, mid, next);
            lemma_tokens_join(src, pos, mid, next);
            assert(tokens_between(src, mid, next) =~= seq![TokenView::Semicolon]);
        }
    }
}

/// The tokens of `"=" expression ";"`.
proof fn lemma_assigned_tokens(src: Source, pos: nat)
    ensures
        spec_assigned(src, pos) matches Ok((value, next)) ==> aligned(src, pos, next)
            && tokens_between(src, pos, next) == seq![TokenView::Assign] + expression_tokens(
            value,
        ) + seq![TokenView::Semicolon],
{
    if let Ok((value, next)) = spec_assigned(src, pos) {
        if let Scan::Token { end, .. } = scan(src, pos) {
            lemma_closed_tokens(src, end);
            lemma_tokens_first(src, pos, next);
            assert(tokens_between(src, pos, next) =~= seq![TokenView::Assign]
                + expression_tokens(value) + seq![TokenView::Semicolon]);
        }
    }
}

/// The tokens of a statement are the tokens of the text that it was
/// parsed from.
pub proof fn lemma_statement_tokens(src: Source, pos: nat)
    ensures
        spec_statement(src, pos) matches Ok((statement, next)) ==> aligned(src, pos, next)
            && tokens_between(src, pos, next) == statement_tokens(statement),
{
    if let Ok((statement, next)) = spec_statement(src, pos) {
        match scan(src, pos) {
            Scan::Token { token: TokenView::Keyword(Keyword::Let), end, .. } => {
                if let Scan::Token { end: after_name, .. } = scan(src, end) {
                    lemma_assigned_tokens(src, after_name);
                    lemma_tokens_first(src, end, next);
                    lemma_tokens_first(src, pos, next);
                    assert(tokens_between(src, pos, next) =~= statement_tokens(statement));
                }
            },
            Scan::Token { token: TokenView::Id(_), end, .. } => {
                lemma_assigned_tokens(src, end);
                lemma_tokens_first(src, pos, next);
                assert(tokens_between(src, pos, next) =~= statement_tokens(statement));
            },
            Scan::Token { token: TokenView::Keyword(Keyword::Print), end, .. } => {
                lemma_closed_tokens(src, end);
                lemma_tokens_first(src, pos, next);
                assert(tokens_between(src, pos, next) =~= statement_tokens(statement));
            },
            _ => {},
        }
    }
}

/// The tokens of the statements from `pos` on are the tokens of the text
/// from `pos` to its end.
pub proof fn lemma_statements_tokens(src: Source, pos: nat)
    ensures
        spec_statements(src, pos) matches Ok(program) ==> tokens_between(
            src,
            pos,
            src.text.len(),
        ) == program_tokens(program),
    decreases src.text.len() - pos,
{
    lemma_statement_advances(src, pos);
    if let Ok(program) = spec_statements(src, pos) {
        if scan(src, pos) !is End {
            if let Ok((statement, next)) = spec_statement(src, pos) {
                lemma_statement_tokens(src, pos);
                lemma_statements_tokens(src, next);
                lemma_tokens_join(src, pos, next, src.text.len());
                if let Ok(rest) = spec_statements(src, next) {
                    assert(program[0] == statement);
                    assert(program.drop_first() =~= rest);
                }
            }
        }
    }
}

/// A program, written back as tokens, is the sequence of the tokens of the
/// text that it was parsed from: parsing drops no token, makes none up, and
/// keeps their order.
pub proof fn lemma_program_tokens(input: Seq<char>)
    ensures
        spec_program(input) matches Ok(program) ==> tokens_between(
            source_of(input),
            0,
            source_of(input).text.len(),
        ) == program_tokens(program),
{
    lemma_statements_tokens(source_of(input), 0);
}

} // verus!
