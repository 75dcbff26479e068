use plz_frontend::lexer::{Keyword, LexToken, Lexer};
use plz_frontend::parser::{
    Expected, Expression, Found, NonTerminal, ParseError, Parser, Program, Statement, Term,
    TokenKind,
};

fn parse(text: &str) -> Result<Program, ParseError> {
    Parser::new(text.to_string()).parse()
}

fn statements(text: &str) -> Vec<Statement> {
    parse(text).unwrap().statement_list
}

fn num(n: i32) -> Term {
    Term::Num(n)
}

fn var(name: &str) -> Term {
    Term::Id(name.to_string())
}

fn term(t: Term) -> Expression {
    Expression::Term(t)
}

fn add(left: Expression, right: Term) -> Expression {
    Expression::Add(Box::new(left), Box::new(term(right)))
}

fn sub(left: Expression, right: Term) -> Expression {
    Expression::Sub(Box::new(left), Box::new(term(right)))
}

fn mult(left: Term, right: Term) -> Term {
    Term::Mult(Box::new(left), Box::new(right))
}

fn div(left: Term, right: Term) -> Term {
    Term::Div(Box::new(left), Box::new(right))
}

fn paren(inner: Expression) -> Term {
    Term::Parenthesis(Box::new(inner))
}

fn error(expected: Expected, found: Found, position: usize) -> ParseError {
    ParseError { expected, found, position }
}

fn one_of(kinds: &[TokenKind]) -> Expected {
    Expected::Tokens(kinds.to_vec())
}

fn after_term() -> Expected {
    one_of(&[
        TokenKind::Mult,
        TokenKind::Div,
        TokenKind::Add,
        TokenKind::Sub,
        TokenKind::Semicolon,
        TokenKind::RPar,
    ])
}

#[test]
fn parses_a_declaration_with_a_sum() {
    assert_eq!(
        statements("let c = a + b;"),
        vec![Statement::Let("c".to_string(), Box::new(add(term(var("a")), var("b"))))]
    );
}

#[test]
fn parentheses_override_precedence() {
    assert_eq!(
        statements("print (1 + 2) * 3;"),
        vec![Statement::Print(term(mult(paren(add(term(num(1)), num(2))), num(3))))]
    );
}

#[test]
fn missing_factor_is_reported_with_the_token_found() {
    assert_eq!(
        parse("let a = ;"),
        Err(error(
            Expected::NonTerminal(NonTerminal::Factor),
            Found::Token(LexToken::Semicolon),
            8
        ))
    );
}

#[test]
fn missing_semicolon_is_reported_at_the_end_of_input() {
    let failure = parse("let a = 5").unwrap_err();
    assert_eq!(failure.found, Found::EndOfInput);
    assert_eq!(failure.position, 9);
    match &failure.expected {
        Expected::Tokens(kinds) => assert!(kinds.contains(&TokenKind::Semicolon)),
        Expected::NonTerminal(rule) => panic!("expected tokens, not {:?}", rule),
    }
    assert_eq!(failure, error(after_term(), Found::EndOfInput, 9));
}

#[test]
fn end_of_input_after_an_operand_is_an_error_of_the_operand() {
    assert_eq!(parse("print a"), Err(error(after_term(), Found::EndOfInput, 7)));
    assert_eq!(parse("x = a * b"), Err(error(after_term(), Found::EndOfInput, 9)));
    assert_eq!(parse("x = a + b"), Err(error(after_term(), Found::EndOfInput, 9)));
    assert_eq!(parse("x = (a)"), Err(error(after_term(), Found::EndOfInput, 7)));
}

#[test]
fn parsing_twice_gives_the_same_tree() {
    let text = "let a = 5;\nlet b = 2;\nlet c = a + b;\nprint (c);\n";
    let first = parse(text);
    let second = parse(text);
    assert!(first.is_ok());
    assert_eq!(first, second);
    assert_eq!(parse("let a = ;"), parse("let a = ;"));
}

#[test]
fn empty_text_is_the_empty_program() {
    assert_eq!(parse(""), Ok(Program { statement_list: vec![] }));
    assert_eq!(parse(" \n\t"), Ok(Program { statement_list: vec![] }));
}

#[test]
fn statements_keep_their_order() {
    assert_eq!(
        statements("let a = 5;\nlet b = 2;\na = b;\nprint a;"),
        vec![
            Statement::Let("a".to_string(), Box::new(term(num(5)))),
            Statement::Let("b".to_string(), Box::new(term(num(2)))),
            Statement::Assign("a".to_string(), term(var("b"))),
            Statement::Print(term(var("a"))),
        ]
    );
}

#[test]
fn subtraction_groups_to_the_left() {
    assert_eq!(
        statements("print 1 - 2 - 3;"),
        vec![Statement::Print(sub(sub(term(num(1)), num(2)), num(3)))]
    );
    assert_eq!(
        statements("print a - b + c;"),
        vec![Statement::Print(add(sub(term(var("a")), var("b")), var("c")))]
    );
}

#[test]
fn division_groups_to_the_left() {
    assert_eq!(
        statements("print 8 / 4 / 2;"),
        vec![Statement::Print(term(div(div(num(8), num(4)), num(2))))]
    );
    assert_eq!(
        statements("print a / b * c;"),
        vec![Statement::Print(term(mult(div(var("a"), var("b")), var("c"))))]
    );
}

#[test]
fn multiplication_binds_tighter_than_addition() {
    assert_eq!(
        statements("print 1 + 2 * 3;"),
        vec![Statement::Print(add(term(num(1)), mult(num(2), num(3))))]
    );
    assert_eq!(
        statements("print 1 * 2 + 3;"),
        vec![Statement::Print(add(term(mult(num(1), num(2))), num(3)))]
    );
    assert_eq!(
        statements("print 1 * 2 - 3 / 4;"),
        vec![Statement::Print(sub(term(mult(num(1), num(2))), div(num(3), num(4))))]
    );
}

#[test]
fn parentheses_nest() {
    assert_eq!(
        statements("x = ((a));"),
        vec![Statement::Assign("x".to_string(), term(paren(term(paren(term(var("a")))))))]
    );
    assert_eq!(
        statements("x = 2 * (3 - (4 + 5));"),
        vec![Statement::Assign(
            "x".to_string(),
            term(mult(num(2), paren(sub(term(num(3)), paren(add(term(num(4)), num(5)))))))
        )]
    );
}

#[test]
fn statement_must_start_with_let_identifier_or_print() {
    assert_eq!(
        parse("5;"),
        Err(error(Expected::NonTerminal(NonTerminal::Statement), Found::Token(LexToken::Num(5)), 0))
    );
    assert_eq!(
        parse("a = 1; ;"),
        Err(error(
            Expected::NonTerminal(NonTerminal::Statement),
            Found::Token(LexToken::Semicolon),
            7
        ))
    );
}

#[test]
fn let_needs_a_name() {
    assert_eq!(
        parse("let 5 = 1;"),
        Err(error(one_of(&[TokenKind::Id]), Found::Token(LexToken::Num(5)), 4))
    );
    assert_eq!(
        parse("let let = 1;"),
        Err(error(one_of(&[TokenKind::Id]), Found::Token(LexToken::Keyword(Keyword::Let)), 4))
    );
    assert_eq!(parse("let"), Err(error(one_of(&[TokenKind::Id]), Found::EndOfInput, 3)));
}

#[test]
fn name_needs_an_assignment_sign() {
    assert_eq!(
        parse("let a 5;"),
        Err(error(one_of(&[TokenKind::Assign]), Found::Token(LexToken::Num(5)), 6))
    );
    assert_eq!(
        parse("a + 1;"),
        Err(error(one_of(&[TokenKind::Assign]), Found::Token(LexToken::Add), 2))
    );
    assert_eq!(parse("a"), Err(error(one_of(&[TokenKind::Assign]), Found::EndOfInput, 1)));
}

#[test]
fn opened_parenthesis_must_be_closed() {
    assert_eq!(
        parse("print (1 + 2;"),
        Err(error(one_of(&[TokenKind::RPar]), Found::Token(LexToken::Semicolon), 12))
    );
    assert_eq!(parse("print (1"), Err(error(after_term(), Found::EndOfInput, 8)));
}

#[test]
fn closing_parenthesis_cannot_end_a_statement() {
    assert_eq!(
        parse("print 1);"),
        Err(error(one_of(&[TokenKind::Semicolon]), Found::Token(LexToken::RPar), 7))
    );
}

#[test]
fn two_operands_need_an_operator_between_them() {
    assert_eq!(parse("print 1 2;"), Err(error(after_term(), Found::Token(LexToken::Num(2)), 8)));
    assert_eq!(
        parse("print a = 2;"),
        Err(error(after_term(), Found::Token(LexToken::Assign), 8))
    );
    assert_eq!(
        parse("a = b (c);"),
        Err(error(after_term(), Found::Token(LexToken::LPar), 6))
    );
}

#[test]
fn operator_needs_a_right_operand() {
    assert_eq!(
        parse("a = 1 + ;"),
        Err(error(
            Expected::NonTerminal(NonTerminal::Factor),
            Found::Token(LexToken::Semicolon),
            8
        ))
    );
    assert_eq!(
        parse("a = 1 * * 2;"),
        Err(error(Expected::NonTerminal(NonTerminal::Factor), Found::Token(LexToken::Mult), 8))
    );
    assert_eq!(
        parse("a = 1 /"),
        Err(error(Expected::NonTerminal(NonTerminal::Factor), Found::EndOfInput, 7))
    );
    assert_eq!(
        parse("print -1;"),
        Err(error(Expected::NonTerminal(NonTerminal::Factor), Found::Token(LexToken::Sub), 6))
    );
}

#[test]
fn end_of_input_position_is_the_end_of_the_text() {
    assert_eq!(
        parse("let a = 5  \n"),
        Err(error(after_term(), Found::EndOfInput, 12))
    );
}

#[test]
fn text_that_is_no_token_stops_the_parse_where_it_is_met() {
    assert_eq!(
        parse("print $;"),
        Err(error(
            Expected::NonTerminal(NonTerminal::Factor),
            Found::Unrecognized("$".to_string()),
            6
        ))
    );
    assert_eq!(
        parse("print 1 $"),
        Err(error(after_term(), Found::Unrecognized("$".to_string()), 8))
    );
    assert_eq!(
        parse("a = 1; #"),
        Err(error(
            Expected::NonTerminal(NonTerminal::Statement),
            Found::Unrecognized("#".to_string()),
            7
        ))
    );
    assert_eq!(
        parse("let \u{e9} = 1;"),
        Err(error(one_of(&[TokenKind::Id]), Found::Unrecognized("\u{e9}".to_string()), 4))
    );
    assert_eq!(
        parse("a = 2147483648;"),
        Err(error(
            Expected::NonTerminal(NonTerminal::Factor),
            Found::Unrecognized("2147483648".to_string()),
            4
        ))
    );
}

#[test]
fn a_syntax_error_comes_before_a_later_lexical_one() {
    assert_eq!(
        parse("let = $"),
        Err(error(one_of(&[TokenKind::Id]), Found::Token(LexToken::Assign), 4))
    );
}

#[test]
fn nothing_is_returned_of_a_program_that_fails_late() {
    assert_eq!(
        parse("let a = 1; let b = 2; print a b;"),
        Err(error(after_term(), Found::Token(LexToken::Id("b".to_string())), 30))
    );
}

#[test]
fn keyword_cannot_be_an_operand() {
    assert_eq!(
        parse("a = print;"),
        Err(error(
            Expected::NonTerminal(NonTerminal::Factor),
            Found::Token(LexToken::Keyword(Keyword::Print)),
            4
        ))
    );
}

#[test]
fn print_takes_a_whole_expression() {
    assert_eq!(
        statements("print a + b * (c - 1);"),
        vec![Statement::Print(add(
            term(var("a")),
            mult(var("b"), paren(sub(term(var("c")), num(1))))
        ))]
    );
}

#[test]
fn long_sum_groups_to_the_left_throughout() {
    let mut text = String::from("print 0");
    let mut expected = term(num(0));
    for i in 1..500 {
        text.push_str(&format!(" + {}", i));
        expected = add(expected, num(i));
    }
    text.push(';');
    assert_eq!(statements(&text), vec![Statement::Print(expected)]);
}

fn term_tokens(term: &Term, out: &mut Vec<LexToken>) {
    match term {
        Term::Mult(left, right) => {
            term_tokens(left, out);
            out.push(LexToken::Mult);
            term_tokens(right, out);
        }
        Term::Div(left, right) => {
            term_tokens(left, out);
            out.push(LexToken::Div);
            term_tokens(right, out);
        }
        Term::Parenthesis(inner) => {
            out.push(LexToken::LPar);
            expression_tokens(inner, out);
            out.push(LexToken::RPar);
        }
        Term::Num(n) => out.push(LexToken::Num(*n)),
        Term::Id(name) => out.push(LexToken::Id(name.clone())),
    }
}

fn expression_tokens(expression: &Expression, out: &mut Vec<LexToken>) {
    match expression {
        Expression::Add(left, right) => {
            expression_tokens(left, out);
            out.push(LexToken::Add);
            expression_tokens(right, out);
        }
        Expression::Sub(left, right) => {
            expression_tokens(left, out);
            out.push(LexToken::Sub);
            expression_tokens(right, out);
        }
        Expression::Term(term) => term_tokens(term, out),
    }
}

fn program_tokens(program: &Program) -> Vec<LexToken> {
    let mut out = Vec::new();
    for statement in &program.statement_list {
        match statement {
            Statement::Let(name, value) => {
                out.push(LexToken::Keyword(Keyword::Let));
                out.push(LexToken::Id(name.clone()));
                out.push(LexToken::Assign);
                expression_tokens(value, &mut out);
            }
            Statement::Assign(name, value) => {
                out.push(LexToken::Id(name.clone()));
                out.push(LexToken::Assign);
                expression_tokens(value, &mut out);
            }
            Statement::Print(value) => {
                out.push(LexToken::Keyword(Keyword::Print));
                expression_tokens(value, &mut out);
            }
        }
        out.push(LexToken::Semicolon);
    }
    out
}

fn lexed(text: &str) -> Vec<LexToken> {
    let mut lexer = Lexer::new(text.to_string());
    let mut out = Vec::new();
    while let Some(token) = lexer.next().unwrap() {
        out.push(token);
    }
    out
}

#[test]
fn a_program_written_back_as_tokens_is_the_tokens_of_its_text() {
    let texts = [
        "",
        "print 1;",
        "let a = 5;\nlet b = 2;\nlet c = a + b;\nprint (c);\n",
        "x = 1 - 2 - 3 * 4 / (5 + x1) / 6 + (((7)));",
        "let abc12 = (a * (b - c)) / d;  a = a;\tprint a - 1 - 1;",
    ];
    for text in texts {
        let program = parse(text).unwrap();
        assert_eq!(program_tokens(&program), lexed(text));
    }
}
