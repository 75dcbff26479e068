//! What the parser computes, as mathematics.
//!
//! The grammar, with `'` marking the rules that continue a left operand:
//!
//! ```text
//! program     ::= statement*
//! statement   ::= "let" ID "=" expression ";"
//!               | ID "=" expression ";"
//!               | "print" expression ";"
//! expression  ::= term expression'
//! expression' ::= "+" term expression' | "-" term expression' | ε
//! term        ::= factor term'
//! term'       ::= "*" factor term' | "/" factor term' | ε
//! factor      ::= "(" expression ")" | ID | NUM
//! ```
//!
//! Operators group to the left: `a - b - c` is `(a - b) - c`. Each rule is a
//! function from a position in the source to the tree that starts there and
//! the position after it, or to the error that parsing stops with.

use crate::lexer::Keyword;
use crate::parser::{NonTerminal, TokenKind};
use crate::scan::{lemma_scan_advances, scan, source_of, Scan, Source, TokenView};
use vstd::prelude::*;

verus! {

/// The model of a term.
pub enum TermView {
    Mult(Box<TermView>, Box<TermView>),
    Div(Box<TermView>, Box<TermView>),
    Parenthesis(Box<ExpressionView>),
    Num(i32),
    Id(Seq<char>),
}

/// The model of an expression.
pub enum ExpressionView {
    Add(Box<ExpressionView>, Box<ExpressionView>),
    Sub(Box<ExpressionView>, Box<ExpressionView>),
    Term(TermView),
}

/// The model of a statement.
pub enum StatementView {
    Let(Seq<char>, ExpressionView),
    Assign(Seq<char>, ExpressionView),
    Print(ExpressionView),
}

/// The model of what a parse error expected.
pub enum ExpectedView {
    Tokens(Seq<TokenKind>),
    NonTerminal(NonTerminal),
}

/// The model of what a parse error found.
pub enum FoundView {
    Token(TokenView),
    EndOfInput,
    Unrecognized(Seq<char>),
}

/// The model of a parse error.
pub struct ParseErrorView {
    pub expected: ExpectedView,
    pub found: FoundView,
    pub position: nat,
}

/// A tree and the position after it, or the error.
pub type Parsed<T> = Result<(T, nat), ParseErrorView>;

/// The error for finding `found` where `expected` should stand.
pub open spec fn mismatch(src: Source, expected: ExpectedView, found: Scan) -> ParseErrorView {
    match found {
        Scan::Token { token, start, .. } => ParseErrorView {
            expected,
            found: FoundView::Token(token),
            position: start,
        },
        Scan::End => ParseErrorView {
            expected,
            found: FoundView::EndOfInput,
            position: src.text.len(),
        },
        Scan::Error(e) => ParseErrorView {
            expected,
            found: FoundView::Unrecognized(e.found),
            position: e.position,
        },
    }
}

/// The tokens that may follow a term: the operators that continue it or
/// the expression around it, and what closes an expression.
pub open spec fn after_term() -> ExpectedView {
    ExpectedView::Tokens(
        seq![
            TokenKind::Mult,
            TokenKind::Div,
            TokenKind::Add,
            TokenKind::Sub,
            TokenKind::Semicolon,
            TokenKind::RPar,
        ],
    )
}

/// The tokens that may follow an expression's first term.
pub open spec fn after_expression() -> ExpectedView {
    ExpectedView::Tokens(
        seq![TokenKind::Add, TokenKind::Sub, TokenKind::Semicolon, TokenKind::RPar],
    )
}

/// One kind of token and no other.
pub open spec fn just(kind: TokenKind) -> ExpectedView {
    ExpectedView::Tokens(seq![kind])
}

/// The position to go on from after a part that began at `from` was parsed
/// up to `to`. A part ends neither before it begins nor beyond the text, so
/// this is `to`.
pub open spec fn resume(src: Source, from: nat, to: nat) -> nat {
    if from <= to <= src.text.len() {
        to
    } else {
        from
    }
}

/// `expression ::= term expression'`
pub open spec fn spec_expression(src: Source, pos: nat) -> Parsed<ExpressionView>
    decreases src.text.len() - pos, 5int,
{
    match spec_term(src, pos) {
        Ok((term, next)) => spec_expression_prime(
            src,
            resume(src, pos, next),
            ExpressionView::Term(term),
        ),
        Err(e) => Err(e),
    }
}

/// `expression' ::= "+" term expression' | "-" term expression' | ε`, with
/// `left` the operand built so far. The empty alternative is taken before
/// `;` and `)` only: any other token, and the end of the text, is an error.
pub open spec fn spec_expression_prime(src: Source, pos: nat, left: ExpressionView) -> Parsed<
    ExpressionView,
>
    decreases src.text.len() - pos, 4int,
{
    proof {
        lemma_scan_advances(src, pos);
    }
    match scan(src, pos) {
        Scan::Token { token: TokenView::Add, end, .. } => match spec_term(src, end) {
            Ok((term, next)) => spec_expression_prime(
                src,
                resume(src, end, next),
                ExpressionView::Add(Box::new(left), Box::new(ExpressionView::Term(term))),
            ),
            Err(e) => Err(e),
        },
        Scan::Token { token: TokenView::Sub, end, .. } => match spec_term(src, end) {
            Ok((term, next)) => spec_expression_prime(
                src,
                resume(src, end, next),
                ExpressionView::Sub(Box::new(left), Box::new(ExpressionView::Term(term))),
            ),
            Err(e) => Err(e),
        },
        Scan::Token { token: TokenView::Semicolon, .. }
        | Scan::Token { token: TokenView::RPar, .. } => Ok((left, pos)),
        other => Err(mismatch(src, after_expression(), other)),
    }
}

/// `term ::= factor term'`
pub open spec fn spec_term(src: Source, pos: nat) -> Parsed<TermView>
    decreases src.text.len() - pos, 3int,
{
    match spec_factor(src, pos) {
        Ok((factor, next)) => spec_term_prime(src, resume(src, pos, next), factor),
        Err(e) => Err(e),
    }
}

/// `term' ::= "*" factor term' | "/" factor term' | ε`, with `left` the
/// operand built so far. The empty alternative is taken before `;`, `)`,
/// `+` and `-` only: any other token, and the end of the text, is an error.
pub open spec fn spec_term_prime(src: Source, pos: nat, left: TermView) -> Parsed<TermView>
    decreases src.text.len() - pos, 2int,
{
    proof {
        lemma_scan_advances(src, pos);
    }
    match scan(src, pos) {
        Scan::Token { token: TokenView::Mult, end, .. } => match spec_factor(src, end) {
            Ok((factor, next)) => spec_term_prime(
                src,
                resume(src, end, next),
                TermView::Mult(Box::new(left), Box::new(factor)),
            ),
            Err(e) => Err(e),
        },
        Scan::Token { token: TokenView::Div, end, .. } => match spec_factor(src, end) {
            Ok((factor, next)) => spec_term_prime(
                src,
                resume(src, end, next),
                TermView::Div(Box::new(left), Box::new(factor)),
            ),
            Err(e) => Err(e),
        },
        Scan::Token { token: TokenView::Semicolon, .. }
        | Scan::Token { token: TokenView::Add, .. }
        | Scan::Token { token: TokenView::Sub, .. }
        | Scan::Token { token: TokenView::RPar, .. } => Ok((left, pos)),
        other => Err(mismatch(src, after_term(), other)),
    }
}

/// `factor ::= "(" expression ")" | ID | NUM`
pub open spec fn spec_factor(src: Source, pos: nat) -> Parsed<TermView>
    decreases src.text.len() - pos, 1int,
{
    proof {
        lemma_scan_advances(src, pos);
    }
    match scan(src, pos) {
        Scan::Token { token: TokenView::LPar, end, .. } => match spec_expression(src, end) {
            Ok((inner, next)) => match scan(src, next) {
                Scan::Token { token: TokenView::RPar, end: close, .. } => Ok(
                    (TermView::Parenthesis(Box::new(inner)), close),
                ),
                other => Err(mismatch(src, just(TokenKind::RPar), other)),
            },
            Err(e) => Err(e),
        },
        Scan::Token { token: TokenView::Id(name), end, .. } => Ok((TermView::Id(name), end)),
        Scan::Token { token: TokenView::Num(n), end, .. } => Ok((TermView::Num(n), end)),
        other => Err(mismatch(src, ExpectedView::NonTerminal(NonTerminal::Factor), other)),
    }
}

/// An expression ends after it begins and inside the text.
pub proof fn lemma_expression_advances(src: Source, pos: nat)
    ensures
        spec_expression(src, pos) matches Ok((_, next)) ==> pos < next <= src.text.len(),
    decreases src.text.len() - pos, 5int,
{
    lemma_term_advances(src, pos);
    if let Ok((term, next)) = spec_term(src, pos) {
        lemma_expression_prime_advances(src, next, ExpressionView::Term(term));
    }
}

/// The rest of an expression ends at or after the position it is looked
/// for at, and inside the text if it is looked for there.
pub proof fn lemma_expression_prime_advances(src: Source, pos: nat, left: ExpressionView)
    ensures
        spec_expression_prime(src, pos, left) matches Ok((_, next)) ==> pos <= next && (pos
            <= src.text.len() ==> next <= src.text.len()),
    decreases src.text.len() - pos, 4int,
{
    lemma_scan_advances(src, pos);
    match scan(src, pos) {
        Scan::Token { token: TokenView::Add, end, .. } => {
            lemma_term_advances(src, end);
            if let Ok((term, next)) = spec_term(src, end) {
                lemma_expression_prime_advances(
                    src,
                    next,
                    ExpressionView::Add(Box::new(left), Box::new(ExpressionView::Term(term))),
                );
            }
        },
        Scan::Token { token: TokenView::Sub, end, .. } => {
            lemma_term_advances(src, end);
            if let Ok((term, next)) = spec_term(src, end) {
                lemma_expression_prime_advances(
                    src,
                    next,
                    ExpressionView::Sub(Box::new(left), Box::new(ExpressionView::Term(term))),
                );
            }
        },
        _ => {},
    }
}

/// A term ends after it begins and inside the text.
pub proof fn lemma_term_advances(src: Source, pos: nat)
    ensures
        spec_term(src, pos) matches Ok((_, next)) ==> pos < next <= src.text.len(),
    decreases src.text.len() - pos, 3int,
{
    lemma_factor_advances(src, pos);
    if let Ok((factor, next)) = spec_factor(src, pos) {
        lemma_term_prime_advances(src, next, factor);
    }
}

/// The rest of a term ends at or after the position it is looked for at,
/// and inside the text if it is looked for there.
pub proof fn lemma_term_prime_advances(src: Source, pos: nat, left: TermView)
    ensures
        spec_term_prime(src, pos, left) matches Ok((_, next)) ==> pos <= next && (pos
            <= src.text.len() ==> next <= src.text.len()),
    decreases src.text.len() - pos, 2int,
{
    lemma_scan_advances(src, pos);
    match scan(src, pos) {
        Scan::Token { token: TokenView::Mult, end, .. } => {
            lemma_factor_advances(src, end);
            if let Ok((factor, next)) = spec_factor(src, end) {
                lemma_term_prime_advances(
                    src,
                    next,
                    TermView::Mult(Box::new(left), Box::new(factor)),
                );
            }
        },
        Scan::Token { token: TokenView::Div, end, .. } => {
            lemma_factor_advances(src, end);
            if let Ok((factor, next)) = spec_factor(src, end) {
                lemma_term_prime_advances(
                    src,
                    next,
                    TermView::Div(Box::new(left), Box::new(factor)),
                );
            }
        },
        _ => {},
    }
}

/// A factor ends after it begins and inside the text.
pub proof fn lemma_factor_advances(src: Source, pos: nat)
    ensures
        spec_factor(src, pos) matches Ok((_, next)) ==> pos < next <= src.text.len(),
    decreases src.text.len() - pos, 1int,
{
    lemma_scan_advances(src, pos);
    match scan(src, pos) {
        Scan::Token { token: TokenView::LPar, end, .. } => {
            lemma_expression_advances(src, end);
            if let Ok((_, next)) = spec_expression(src, end) {
                lemma_scan_advances(src, next);
            }
        },
        _ => {},
    }
}

/// The end of the text follows neither a term nor an expression: where no
/// token is left, both continuation rules fail, and the error reports the
/// end of the input at the end of the text.
pub proof fn lemma_end_follows_nothing(
    src: Source,
    pos: nat,
    term: TermView,
    expression: ExpressionView,
)
    requires
        scan(src, pos) is End,
    ensures
        spec_term_prime(src, pos, term) == Err::<(TermView, nat), ParseErrorView>(
            ParseErrorView {
                expected: after_term(),
                found: FoundView::EndOfInput,
                position: src.text.len(),
            },
        ),
        spec_expression_prime(src, pos, expression) == Err::<(ExpressionView, nat), ParseErrorView>(
            ParseErrorView {
                expected: after_expression(),
                found: FoundView::EndOfInput,
                position: src.text.len(),
            },
        ),
{
}

/// Where the grammar goes on after a factor or a term, it goes on at the
/// end of that part: `resume` never changes a position that parsing reached.
pub proof fn lemma_resume(src: Source, pos: nat)
    ensures
        spec_factor(src, pos) matches Ok((_, next)) ==> resume(src, pos, next) == next,
        spec_term(src, pos) matches Ok((_, next)) ==> resume(src, pos, next) == next,
{
    lemma_factor_advances(src, pos);
    lemma_term_advances(src, pos);
}

/// The statement that starts at `pos`.
pub open spec fn spec_statement(src: Source, pos: nat) -> Parsed<StatementView> {
    match scan(src, pos) {
        Scan::Token { token: TokenView::Keyword(Keyword::Let), end, .. } => match scan(src, end) {
            Scan::Token { token: TokenView::Id(name), end: after_name, .. } => match spec_assigned(
                src,
                after_name,
            ) {
                Ok((value, next)) => Ok((StatementView::Let(name, value), next)),
                Err(e) => Err(e),
            },
            other => Err(mismatch(src, just(TokenKind::Id), other)),
        },
        Scan::Token { token: TokenView::Id(name), end, .. } => match spec_assigned(src, end) {
            Ok((value, next)) => Ok((StatementView::Assign(name, value), next)),
            Err(e) => Err(e),
        },
        Scan::Token { token: TokenView::Keyword(Keyword::Print), end, .. } => match spec_closed(
            src,
            end,
        ) {
            Ok((value, next)) => Ok((StatementView::Print(value), next)),
            Err(e) => Err(e),
        },
        other => Err(mismatch(src, ExpectedView::NonTerminal(NonTerminal::Statement), other)),
    }
}

/// The `= expression ;` that ends a declaration or an assignment.
pub open spec fn spec_assigned(src: Source, pos: nat) -> Parsed<ExpressionView> {
    match scan(src, pos) {
        Scan::Token { token: TokenView::Assign, end, .. } => spec_closed(src, end),
        other => Err(mismatch(src, just(TokenKind::Assign), other)),
    }
}

/// The `expression ;` that ends every statement.
pub open spec fn spec_closed(src: Source, pos: nat) -> Parsed<ExpressionView> {
    match spec_expression(src, pos) {
        Ok((value, next)) => match scan(src, next) {
            Scan::Token { token: TokenView::Semicolon, end, .. } => Ok((value, end)),
            other => Err(mismatch(src, just(TokenKind::Semicolon), other)),
        },
        Err(e) => Err(e),
    }
}

/// A statement ends after it begins and inside the text.
pub proof fn lemma_statement_advances(src: Source, pos: nat)
    ensures
        spec_statement(src, pos) matches Ok((_, next)) ==> pos < next <= src.text.len(),
{
    lemma_scan_advances(src, pos);
    match scan(src, pos) {
        Scan::Token { token: TokenView::Keyword(Keyword::Let), end, .. } => {
            lemma_scan_advances(src, end);
            if let Scan::Token { token: TokenView::Id(_), end: after_name, .. } = scan(src, end) {
                lemma_assigned_advances(src, after_name);
            }
        },
        Scan::Token { token: TokenView::Id(_), end, .. } => {
            lemma_assigned_advances(src, end);
        },
        Scan::Token { token: TokenView::Keyword(Keyword::Print), end, .. } => {
            lemma_closed_advances(src, end);
        },
        _ => {},
    }
}

proof fn lemma_assigned_advances(src: Source, pos: nat)
    ensures
        spec_assigned(src, pos) matches Ok((_, next)) ==> pos < next <= src.text.len(),
{
    lemma_scan_advances(src, pos);
    if let Scan::Token { token: TokenView::Assign, end, .. } = scan(src, pos) {
        lemma_closed_advances(src, end);
    }
}

proof fn lemma_closed_advances(src: Source, pos: nat)
    ensures
        spec_closed(src, pos) matches Ok((_, next)) ==> pos < next <= src.text.len(),
{
    lemma_expression_advances(src, pos);
    if let Ok((_, next)) = spec_expression(src, pos) {
        lemma_scan_advances(src, next);
    }
}

/// The statements from `pos` to the end of the text.
pub open spec fn spec_statements(src: Source, pos: nat) -> Result<
    Seq<StatementView>,
    ParseErrorView,
>
    decreases src.text.len() - pos,
{
    proof {
        lemma_statement_advances(src, pos);
    }
    match scan(src, pos) {
        Scan::End => Ok(Seq::empty()),
        _ => match spec_statement(src, pos) {
            Ok((statement, next)) => match spec_statements(src, next) {
                Ok(rest) => Ok(seq![statement] + rest),
                Err(e) => Err(e),
            },
            Err(e) => Err(e),
        },
    }
}

/// The program that the text `input` is, or the error that parsing it stops
/// with.
pub open spec fn spec_program(input: Seq<char>) -> Result<Seq<StatementView>, ParseErrorView> {
    spec_statements(source_of(input), 0)
}

} // verus!
