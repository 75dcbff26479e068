//! The parser: the syntax tree, parse errors, and recursive descent over
//! the lexer's tokens with one token of lookahead.

use crate::grammar::{
    after_expression, after_term, just, lemma_factor_advances,
    lemma_statement_advances, lemma_term_advances, mismatch, spec_assigned, spec_closed,
    spec_expression, spec_expression_prime, spec_factor, spec_program, spec_statement,
    spec_statements, spec_term, spec_term_prime, ExpectedView, ExpressionView, FoundView, Parsed,
    ParseErrorView, StatementView, TermView,
};
use crate::lexer::{Keyword, LexError, LexToken, Lexer};
use crate::scan::{lemma_scan_advances, lemma_scan_token, scan, source_of, Scan, Source};
use vstd::pervasive::unreached;
use vstd::prelude::*;

verus! {

/// The kinds of token that a parse error can name as expected.
#[derive(Debug, PartialEq, Eq, Clone, Copy)]
pub enum TokenKind {
    Id,
    Num,
    Assign,
    Add,
    Sub,
    Mult,
    Div,
    Semicolon,
    LPar,
    RPar,
    Let,
    Print,
}

/// The grammar rules that a parse error can name as expected.
#[derive(Debug, PartialEq, Eq, Clone, Copy)]
pub enum NonTerminal {
    Statement,
    Factor,
}

/// What the parser was looking for when it stopped: one of some kinds of
/// token, or the start of a grammar rule.
#[derive(Debug, PartialEq, Eq, Clone)]
pub enum Expected {
    Tokens(Vec<TokenKind>),
    NonTerminal(NonTerminal),
}

/// What the parser found instead: a token, the end of the text, or text
/// that is no token.
#[derive(Debug, PartialEq, Eq, Clone)]
pub enum Found {
    Token(LexToken),
    EndOfInput,
    Unrecognized(String),
}

/// The first place at which the text is not a program.
#[derive(Debug, PartialEq, Eq, Clone)]
pub struct ParseError {
    pub expected: Expected,
    pub found: Found,
    pub position: usize,
}

/// A program: its statements in source order.
#[derive(Debug, PartialEq, Eq)]
pub struct Program {
    pub statement_list: Vec<Statement>,
}

/// A statement: a declaration, an assignment to a name, or a print.
#[derive(Debug, PartialEq, Eq)]
pub enum Statement {
    Let(String, Box<Expression>),
    Assign(String, Expression),
    Print(Expression),
}

/// A sum or difference of terms. Each node owns its operands.
#[derive(Debug, PartialEq, Eq)]
pub enum Expression {
    Add(Box<Expression>, Box<Expression>),
    Sub(Box<Expression>, Box<Expression>),
    Term(Term),
}

/// A product or quotient of factors, or a single factor: a parenthesized
/// expression, a number or a name.
#[derive(Debug, PartialEq, Eq)]
pub enum Term {
    Mult(Box<Term>, Box<Term>),
    Div(Box<Term>, Box<Term>),
    Parenthesis(Box<Expression>),
    Num(i32),
    Id(String),
}

impl View for Expected {
    type V = ExpectedView;

    open spec fn view(&self) -> ExpectedView {
        match self {
            Expected::Tokens(kinds) => ExpectedView::Tokens(kinds@),
            Expected::NonTerminal(rule) => ExpectedView::NonTerminal(*rule),
        }
    }
}

impl View for Found {
    type V = FoundView;

    open spec fn view(&self) -> FoundView {
        match self {
            Found::Token(token) => FoundView::Token(token@),
            Found::EndOfInput => FoundView::EndOfInput,
            Found::Unrecognized(text) => FoundView::Unrecognized(text@),
        }
    }
}

impl View for ParseError {
    type V = ParseErrorView;

    open spec fn view(&self) -> ParseErrorView {
        ParseErrorView {
            expected: self.expected@,
            found: self.found@,
            position: self.position as nat,
        }
    }
}

/// The model of a term.
pub open spec fn term_view(term: Term) -> TermView
    decreases term,
{
    match term {
        Term::Mult(left, right) => TermView::Mult(
            Box::new(term_view(*left)),
            Box::new(term_view(*right)),
        ),
        Term::Div(left, right) => TermView::Div(
            Box::new(term_view(*left)),
            Box::new(term_view(*right)),
        ),
        Term::Parenthesis(inner) => TermView::Parenthesis(Box::new(expression_view(*inner))),
        Term::Num(n) => TermView::Num(n),
        Term::Id(name) => TermView::Id(name@),
    }
}

/// The model of an expression.
pub open spec fn expression_view(expression: Expression) -> ExpressionView
    decreases expression,
{
    match expression {
        Expression::Add(left, right) => ExpressionView::Add(
            Box::new(expression_view(*left)),
            Box::new(expression_view(*right)),
        ),
        Expression::Sub(left, right) => ExpressionView::Sub(
            Box::new(expression_view(*left)),
            Box::new(expression_view(*right)),
        ),
        Expression::Term(term) => ExpressionView::Term(term_view(term)),
    }
}

impl View for Term {
    type V = TermView;

    open spec fn view(&self) -> TermView {
        term_view(*self)
    }
}

impl View for Expression {
    type V = ExpressionView;

    open spec fn view(&self) -> ExpressionView {
        expression_view(*self)
    }
}

impl View for Statement {
    type V = StatementView;

    open spec fn view(&self) -> StatementView {
        match self {
            Statement::Let(name, value) => StatementView::Let(name@, expression_view(**value)),
            Statement::Assign(name, value) => StatementView::Assign(name@, value@),
            Statement::Print(value) => StatementView::Print(value@),
        }
    }
}

impl View for Program {
    type V = Seq<StatementView>;

    open spec fn view(&self) -> Seq<StatementView> {
        self.statement_list@.map_values(|s: Statement| s@)
    }
}

/// The error for text that is no token where `expected` should stand.
fn lexical(expected: Expected, error: LexError) -> (e: ParseError)
    ensures
        e@ == (ParseErrorView {
            expected: expected@,
            found: FoundView::Unrecognized(error@.found),
            position: error@.position,
        }),
{
    ParseError { expected, found: Found::Unrecognized(error.found), position: error.position }
}

/// The expectation of one kind of token.
fn expect_kind(kind: TokenKind) -> (e: Expected)
    ensures
        e@ == just(kind),
{
    let e = Expected::Tokens(vec![kind]);
    assert(e@->Tokens_0 =~= just(kind)->Tokens_0);
    e
}

/// The expectation of a token that may follow a term.
fn expect_after_term() -> (e: Expected)
    ensures
        e@ == after_term(),
{
    let e = Expected::Tokens(
        vec![
            TokenKind::Mult,
            TokenKind::Div,
            TokenKind::Add,
            TokenKind::Sub,
            TokenKind::Semicolon,
            TokenKind::RPar,
        ],
    );
    assert(e@->Tokens_0 =~= after_term()->Tokens_0);
    e
}

/// The expectation of a token that may follow an expression's first term.
fn expect_after_expression() -> (e: Expected)
    ensures
        e@ == after_expression(),
{
    let e = Expected::Tokens(
        vec![TokenKind::Add, TokenKind::Sub, TokenKind::Semicolon, TokenKind::RPar],
    );
    assert(e@->Tokens_0 =~= after_expression()->Tokens_0);
    e
}

/// A parser over a source text. It draws tokens from a lexer as it needs
/// them and holds at most one that it has looked at and not yet used.
pub struct Parser {
    lexer: Lexer,
    /// The token that was looked at and not yet used; `EOF` stands for the
    /// end of the text.
    lookahead: Option<LexToken>,
    /// Where the token in `lookahead` begins.
    lookahead_start: usize,
    /// Where the last token that was used ends.
    consumed: usize,
}

impl Parser {
    /// The text that this parser reads.
    pub closed spec fn source(&self) -> Source {
        self.lexer.source()
    }

    /// The position up to which the text has been parsed.
    pub closed spec fn position(&self) -> nat {
        self.consumed as nat
    }

    /// The representation invariant: the token held back, if any, is the
    /// one that follows the parsed part of the text.
    pub closed spec fn wf(&self) -> bool {
        &&& self.lexer.wf()
        &&& match self.lookahead {
            None => self.lexer.position() == self.consumed,
            Some(held) => match scan(self.source(), self.position()) {
                Scan::Token { token, start, end } => held@ == token && self.lookahead_start
                    == start && self.lexer.position() == end,
                Scan::End => held is EOF && self.lookahead_start == self.source().text.len(),
                Scan::Error(_) => false,
            },
        }
    }

    /// The outcome that `parse` has on this parser.
    pub open spec fn outcome(&self) -> Result<Seq<StatementView>, ParseErrorView> {
        spec_statements(self.source(), self.position())
    }

    /// What every parsing step promises: on success the tree is the one
    /// that the grammar gives and the parser stands after it; on failure
    /// the error is the one that the grammar gives.
    spec fn yields<T: View>(
        &self,
        before: Parser,
        result: Result<T, ParseError>,
        parsed: Parsed<T::V>,
    ) -> bool {
        match parsed {
            Ok((tree, next)) => {
                &&& result matches Ok(t) && t@ == tree
                &&& self.wf()
                &&& self.source() == before.source()
                &&& self.position() == next
            },
            Err(e) => result matches Err(x) && x@ == e,
        }
    }

    /// A parser at the start of `input`.
    pub fn new(input: String) -> (parser: Parser)
        ensures
            parser.wf(),
            parser.source() == source_of(input@),
            parser.position() == 0,
    {
        Parser { lexer: Lexer::new(input), lookahead: None, lookahead_start: 0, consumed: 0 }
    }

    /// Makes sure that the next token is held in `lookahead`.
    fn fill(&mut self) -> (r: Result<(), LexError>)
        requires
            old(self).wf(),
        ensures
            match scan(old(self).source(), old(self).position()) {
                Scan::Error(e) => r matches Err(x) && x@ == e,
                _ => {
                    &&& r is Ok
                    &&& final(self).wf()
                    &&& final(self).lookahead is Some
                    &&& final(self).source() == old(self).source()
                    &&& final(self).position() == old(self).position()
                },
            },
    {
        if self.lookahead.is_none() {
            match self.lexer.next() {
                Ok(Some(token)) => {
                    self.lookahead = Some(token);
                    self.lookahead_start = self.lexer.last_start();
                },
                Ok(None) => {
                    self.lookahead = Some(LexToken::EOF);
                    self.lookahead_start = self.lexer.last_start();
                },
                Err(e) => {
                    return Err(e);
                },
            }
        }
        Ok(())
    }

    /// Uses up the token in `lookahead`.
    fn advance(&mut self) -> (token: LexToken)
        requires
            old(self).wf(),
            old(self).lookahead is Some,
            scan(old(self).source(), old(self).position()) is Token,
        ensures
            final(self).wf(),
            final(self).source() == old(self).source(),
            final(self).lookahead is None,
            scan(old(self).source(), old(self).position()) matches Scan::Token { token: t, end, .. }
                && token@ == t && final(self).position() == end,
    {
        let token = self.lookahead.take().unwrap();
        self.consumed = self.lexer.cursor();
        token
    }

    /// The error for the token in `lookahead` standing where `expected`
    /// should.
    fn unexpected(&mut self, expected: Expected) -> (e: ParseError)
        requires
            old(self).wf(),
            old(self).lookahead is Some,
        ensures
            e@ == mismatch(
                old(self).source(),
                expected@,
                scan(old(self).source(), old(self).position()),
            ),
    {
        proof {
            lemma_scan_token(self.source(), self.position());
        }
        let found = match self.lookahead.take().unwrap() {
            LexToken::EOF => Found::EndOfInput,
            token => Found::Token(token),
        };
        ParseError { expected, found, position: self.lookahead_start }
    }

    /// `factor ::= "(" expression ")" | ID | NUM`
    fn parse_factor(&mut self) -> (r: Result<Term, ParseError>)
        requires
            old(self).wf(),
        ensures
            final(self).yields(
                *old(self),
                r,
                spec_factor(old(self).source(), old(self).position()),
            ),
        decreases old(self).source().text.len() - old(self).position(), 1int,
    {
        proof {
            lemma_scan_advances(self.source(), self.position());
            lemma_scan_token(self.source(), self.position());
        }
        if let Err(e) = self.fill() {
            return Err(lexical(Expected::NonTerminal(NonTerminal::Factor), e));
        }
        match &self.lookahead {
            Some(LexToken::LPar) => {
                self.advance();
                let inner = match self.parse_expression() {
                    Ok(inner) => inner,
                    Err(e) => {
                        return Err(e);
                    },
                };
                proof {
                    lemma_scan_token(self.source(), self.position());
                }
                if let Err(e) = self.fill() {
                    return Err(lexical(expect_kind(TokenKind::RPar), e));
                }
                match &self.lookahead {
                    Some(LexToken::RPar) => {
                        self.advance();
                        Ok(Term::Parenthesis(Box::new(inner)))
                    },
                    _ => Err(self.unexpected(expect_kind(TokenKind::RPar))),
                }
            },
            Some(LexToken::Id(_)) => {
                match self.advance() {
                    LexToken::Id(name) => Ok(Term::Id(name)),
                    _ => unreached(),
                }
            },
            Some(LexToken::Num(_)) => {
                match self.advance() {
                    LexToken::Num(n) => Ok(Term::Num(n)),
                    _ => unreached(),
                }
            },
            _ => Err(self.unexpected(Expected::NonTerminal(NonTerminal::Factor))),
        }
    }

    /// `term ::= factor term'`
    fn parse_term(&mut self) -> (r: Result<Term, ParseError>)
        requires
            old(self).wf(),
        ensures
            final(self).yields(
                *old(self),
                r,
                spec_term(old(self).source(), old(self).position()),
            ),
        decreases old(self).source().text.len() - old(self).position(), 3int,
    {
        proof {
            lemma_factor_advances(self.source(), self.position());
        }
        match self.parse_factor() {
            Ok(factor) => self.parse_term_prime(factor),
            Err(e) => Err(e),
        }
    }

    /// `term' ::= "*" factor term' | "/" factor term' | ε`
    ///
    /// Folds what follows into `left`. Where no operator follows, a token
    /// that may follow a term must: anything else, the end of the text
    /// too, is an error.
    fn parse_term_prime(&mut self, left: Term) -> (r: Result<Term, ParseError>)
        requires
            old(self).wf(),
        ensures
            final(self).yields(
                *old(self),
                r,
                spec_term_prime(old(self).source(), old(self).position(), left@),
            ),
        decreases old(self).source().text.len() - old(self).position(), 2int,
    {
        proof {
            lemma_scan_advances(self.source(), self.position());
            lemma_scan_token(self.source(), self.position());
        }
        if let Err(e) = self.fill() {
            return Err(lexical(expect_after_term(), e));
        }
        match &self.lookahead {
            Some(LexToken::Mult) => {
                self.advance();
                proof {
                    lemma_factor_advances(self.source(), self.position());
                }
                match self.parse_factor() {
                    Ok(factor) => self.parse_term_prime(
                        Term::Mult(Box::new(left), Box::new(factor)),
                    ),
                    Err(e) => Err(e),
                }
            },
            Some(LexToken::Div) => {
                self.advance();
                proof {
                    lemma_factor_advances(self.source(), self.position());
                }
                match self.parse_factor() {
                    Ok(factor) => self.parse_term_prime(
                        Term::Div(Box::new(left), Box::new(factor)),
                    ),
                    Err(e) => Err(e),
                }
            },
            Some(LexToken::Semicolon)
            | Some(LexToken::Add)
            | Some(LexToken::Sub)
            | Some(LexToken::RPar) => Ok(left),
            _ => Err(self.unexpected(expect_after_term())),
        }
    }

    /// `expression ::= term expression'`
    fn parse_expression(&mut self) -> (r: Result<Expression, ParseError>)
        requires
            old(self).wf(),
        ensures
            final(self).yields(
                *old(self),
                r,
                spec_expression(old(self).source(), old(self).position()),
            ),
        decreases old(self).source().text.len() - old(self).position(), 5int,
    {
        proof {
            lemma_term_advances(self.source(), self.position());
        }
        match self.parse_term() {
            Ok(term) => self.parse_expression_prime(Expression::Term(term)),
            Err(e) => Err(e),
        }
    }

    /// `expression' ::= "+" term expression' | "-" term expression' | ε`
    ///
    /// Folds what follows into `left`. Where no operator follows, a token
    /// that may close an expression must: anything else, the end of the
    /// text too, is an error.
    fn parse_expression_prime(&mut self, left: Expression) -> (r: Result<Expression, ParseError>)
        requires
            old(self).wf(),
        ensures
            final(self).yields(
                *old(self),
                r,
                spec_expression_prime(old(self).source(), old(self).position(), left@),
            ),
        decreases old(self).source().text.len() - old(self).position(), 4int,
    {
        proof {
            lemma_scan_advances(self.source(), self.position());
            lemma_scan_token(self.source(), self.position());
        }
        if let Err(e) = self.fill() {
            return Err(lexical(expect_after_expression(), e));
        }
        match &self.lookahead {
            Some(LexToken::Add) => {
                self.advance();
                proof {
                    lemma_term_advances(self.source(), self.position());
                }
                match self.parse_term() {
                    Ok(term) => {
                        let right = Expression::Term(term);
                        assert(right@ == ExpressionView::Term(term@));
                        self.parse_expression_prime(
                            Expression::Add(Box::new(left), Box::new(right)),
                        )
                    },
                    Err(e) => Err(e),
                }
            },
            Some(LexToken::Sub) => {
                self.advance();
                proof {
                    lemma_term_advances(self.source(), self.position());
                }
                match self.parse_term() {
                    Ok(term) => {
                        let right = Expression::Term(term);
                        assert(right@ == ExpressionView::Term(term@));
                        self.parse_expression_prime(
                            Expression::Sub(Box::new(left), Box::new(right)),
                        )
                    },
                    Err(e) => Err(e),
                }
            },
            Some(LexToken::Semicolon) | Some(LexToken::RPar) => Ok(left),
            _ => Err(self.unexpected(expect_after_expression())),
        }
    }

    /// The `expression ";"` that ends every statement.
    fn parse_closed(&mut self) -> (r: Result<Expression, ParseError>)
        requires
            old(self).wf(),
        ensures
            final(self).yields(
                *old(self),
                r,
                spec_closed(old(self).source(), old(self).position()),
            ),
    {
        let value = match self.parse_expression() {
            Ok(value) => value,
            Err(e) => {
                return Err(e);
            },
        };
        if let Err(e) = self.fill() {
            return Err(lexical(expect_kind(TokenKind::Semicolon), e));
        }
        match &self.lookahead {
            Some(LexToken::Semicolon) => {
                proof {
                    lemma_scan_token(self.source(), self.position());
                }
                self.advance();
                Ok(value)
            },
            _ => Err(self.unexpected(expect_kind(TokenKind::Semicolon))),
        }
    }

    /// The `"=" expression ";"` that ends a declaration or an assignment.
    fn parse_assigned(&mut self) -> (r: Result<Expression, ParseError>)
        requires
            old(self).wf(),
        ensures
            final(self).yields(
                *old(self),
                r,
                spec_assigned(old(self).source(), old(self).position()),
            ),
    {
        if let Err(e) = self.fill() {
            return Err(lexical(expect_kind(TokenKind::Assign), e));
        }
        match &self.lookahead {
            Some(LexToken::Assign) => {
                proof {
                    lemma_scan_token(self.source(), self.position());
                }
                self.advance();
                self.parse_closed()
            },
            _ => Err(self.unexpected(expect_kind(TokenKind::Assign))),
        }
    }

    /// `statement ::= "let" ID "=" expression ";" | ID "=" expression ";"
    /// | "print" expression ";"`, told apart by the first token.
    fn parse_statement(&mut self) -> (r: Result<Statement, ParseError>)
        requires
            old(self).wf(),
        ensures
            final(self).yields(
                *old(self),
                r,
                spec_statement(old(self).source(), old(self).position()),
            ),
    {
        proof {
            lemma_scan_token(self.source(), self.position());
        }
        if let Err(e) = self.fill() {
            return Err(lexical(Expected::NonTerminal(NonTerminal::Statement), e));
        }
        match &self.lookahead {
            Some(LexToken::Keyword(Keyword::Let)) => {
                self.advance();
                proof {
                    lemma_scan_token(self.source(), self.position());
                }
                if let Err(e) = self.fill() {
                    return Err(lexical(expect_kind(TokenKind::Id), e));
                }
                let name = match &self.lookahead {
                    Some(LexToken::Id(_)) => match self.advance() {
                        LexToken::Id(name) => name,
                        _ => unreached(),
                    },
                    _ => {
                        return Err(self.unexpected(expect_kind(TokenKind::Id)));
                    },
                };
                match self.parse_assigned() {
                    Ok(value) => Ok(Statement::Let(name, Box::new(value))),
                    Err(e) => Err(e),
                }
            },
            Some(LexToken::Id(_)) => {
                let name = match self.advance() {
                    LexToken::Id(name) => name,
                    _ => unreached(),
                };
                match self.parse_assigned() {
                    Ok(value) => Ok(Statement::Assign(name, value)),
                    Err(e) => Err(e),
                }
            },
            Some(LexToken::Keyword(Keyword::Print)) => {
                self.advance();
                match self.parse_closed() {
                    Ok(value) => Ok(Statement::Print(value)),
                    Err(e) => Err(e),
                }
            },
            _ => Err(self.unexpected(Expected::NonTerminal(NonTerminal::Statement))),
        }
    }

    /// Parses the text from where this parser stands to its end.
    ///
    /// The result is the program that the grammar assigns to the text, or
    /// the first error: nothing is returned of a text that is a program
    /// only in part.
    pub fn parse(self) -> (r: Result<Program, ParseError>)
        requires
            self.wf(),
        ensures
            match self.outcome() {
                Ok(statements) => r matches Ok(program) && program@ == statements,
                Err(e) => r matches Err(x) && x@ == e,
            },
    {
        let mut parser = self;
        let mut list: Vec<Statement> = Vec::new();
        assert(Seq::<StatementView>::empty() + Seq::<StatementView>::empty()
            =~= Seq::<StatementView>::empty());
        loop
            invariant
                parser.wf(),
                parser.source() == self.source(),
                self.outcome() == prepend(
                    list@.map_values(|s: Statement| s@),
                    spec_statements(parser.source(), parser.position()),
                ),
            decreases parser.source().text.len() - parser.position(),
        {
            proof {
                lemma_scan_token(parser.source(), parser.position());
                lemma_statement_advances(parser.source(), parser.position());
            }
            let ghost done = list@.map_values(|s: Statement| s@);
            if let Err(e) = parser.fill() {
                return Err(lexical(Expected::NonTerminal(NonTerminal::Statement), e));
            }
            if let Some(LexToken::EOF) = &parser.lookahead {
                assert(done + Seq::<StatementView>::empty() =~= done);
                return Ok(Program { statement_list: list });
            }
            match parser.parse_statement() {
                Ok(statement) => {
                    list.push(statement);
                    proof {
                        let now = list@.map_values(|s: Statement| s@);
                        assert(now =~= done.push(statement@));
                        match spec_statements(parser.source(), parser.position()) {
                            Ok(rest) => {
                                assert(now + rest =~= done + (seq![statement@] + rest));
                            },
                            Err(_) => {},
                        }
                    }
                },
                Err(e) => {
                    return Err(e);
                },
            }
        }
    }
}

/// Parsing is a function of the text alone: any two parsers that stand at
/// the start of the same text give the same program or the same error, the
/// one that the grammar assigns to that text.
pub proof fn lemma_parse_deterministic(first: Parser, second: Parser, text: Seq<char>)
    requires
        first.wf(),
        second.wf(),
        first.source() == source_of(text),
        second.source() == source_of(text),
        first.position() == 0,
        second.position() == 0,
    ensures
        first.outcome() == second.outcome(),
        first.outcome() == spec_program(text),
{
}

/// The statements `done` followed by what parsing the rest gives.
spec fn prepend(done: Seq<StatementView>, rest: Result<Seq<StatementView>, ParseErrorView>)
    -> Result<Seq<StatementView>, ParseErrorView> {
    match rest {
        Ok(more) => Ok(done + more),
        Err(e) => Err(e),
    }
}

} // verus!
