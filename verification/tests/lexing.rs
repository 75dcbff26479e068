use plz_frontend::lexer::{Keyword, LexError, LexToken, Lexer};

fn tokens(text: &str) -> Result<Vec<LexToken>, LexError> {
    let mut lexer = Lexer::new(text.to_string());
    let mut out = Vec::new();
    loop {
        match lexer.next()? {
            Some(token) => out.push(token),
            None => return Ok(out),
        }
    }
}

fn id(name: &str) -> LexToken {
    LexToken::Id(name.to_string())
}

#[test]
fn tokenizes_a_declaration() {
    assert_eq!(
        tokens("let a = 5;"),
        Ok(vec![
            LexToken::Keyword(Keyword::Let),
            id("a"),
            LexToken::Assign,
            LexToken::Num(5),
            LexToken::Semicolon,
        ])
    );
}

#[test]
fn identifier_takes_its_trailing_digits() {
    assert_eq!(tokens("ab12"), Ok(vec![id("ab12")]));
}

#[test]
fn digits_before_letters_are_a_number_then_an_identifier() {
    assert_eq!(tokens("12ab"), Ok(vec![LexToken::Num(12), id("ab")]));
}

#[test]
fn letters_after_an_identifiers_digits_start_a_new_identifier() {
    assert_eq!(tokens("a1b"), Ok(vec![id("a1"), id("b")]));
}

#[test]
fn unknown_character_is_an_error_at_its_position() {
    assert_eq!(tokens("a$b"), Err(LexError { position: 1, found: "$".to_string() }));
}

#[test]
fn tokens_before_an_error_are_still_handed_out() {
    let mut lexer = Lexer::new("a$b".to_string());
    assert_eq!(lexer.next(), Ok(Some(id("a"))));
    assert_eq!(lexer.next(), Err(LexError { position: 1, found: "$".to_string() }));
}

#[test]
fn every_operator_and_punctuation() {
    assert_eq!(
        tokens("=+-*/;()"),
        Ok(vec![
            LexToken::Assign,
            LexToken::Add,
            LexToken::Sub,
            LexToken::Mult,
            LexToken::Div,
            LexToken::Semicolon,
            LexToken::LPar,
            LexToken::RPar,
        ])
    );
}

#[test]
fn reserved_words_become_keywords() {
    assert_eq!(
        tokens("let print"),
        Ok(vec![LexToken::Keyword(Keyword::Let), LexToken::Keyword(Keyword::Print)])
    );
}

#[test]
fn words_that_only_begin_like_keywords_are_identifiers() {
    assert_eq!(
        tokens("letx let1 prin printer"),
        Ok(vec![id("letx"), id("let1"), id("prin"), id("printer")])
    );
}

#[test]
fn whitespace_is_skipped() {
    assert_eq!(
        tokens(" \t\n a \n\n\t b  "),
        Ok(vec![id("a"), id("b")])
    );
}

#[test]
fn empty_text_has_no_tokens() {
    assert_eq!(tokens(""), Ok(vec![]));
    assert_eq!(tokens("  \n\t "), Ok(vec![]));
}

#[test]
fn carriage_return_is_not_whitespace() {
    assert_eq!(tokens("a\rb"), Err(LexError { position: 1, found: "\r".to_string() }));
}

#[test]
fn uppercase_is_not_an_identifier() {
    assert_eq!(tokens("aB"), Err(LexError { position: 1, found: "B".to_string() }));
}

#[test]
fn largest_number_fits() {
    assert_eq!(tokens("2147483647"), Ok(vec![LexToken::Num(2147483647)]));
    assert_eq!(tokens("007"), Ok(vec![LexToken::Num(7)]));
    assert_eq!(tokens("0"), Ok(vec![LexToken::Num(0)]));
}

#[test]
fn number_beyond_32_bits_is_an_error() {
    assert_eq!(
        tokens("x = 2147483648;"),
        Err(LexError { position: 4, found: "2147483648".to_string() })
    );
    assert_eq!(
        tokens("99999999999999999999999"),
        Err(LexError { position: 0, found: "99999999999999999999999".to_string() })
    );
}

#[test]
fn minus_is_its_own_token() {
    assert_eq!(tokens("-5"), Ok(vec![LexToken::Sub, LexToken::Num(5)]));
}

#[test]
fn non_ascii_character_is_an_error_where_it_stands() {
    assert_eq!(tokens("a é"), Err(LexError { position: 2, found: "é".to_string() }));
    assert_eq!(tokens("é"), Err(LexError { position: 0, found: "é".to_string() }));
    let mut lexer = Lexer::new("ab\u{a0}cd".to_string());
    assert_eq!(lexer.next(), Ok(Some(id("ab"))));
    assert_eq!(lexer.next(), Err(LexError { position: 2, found: "\u{a0}".to_string() }));
}

#[test]
fn text_after_a_non_ascii_character_is_never_read() {
    let mut lexer = Lexer::new("a\u{2003}$".to_string());
    assert_eq!(lexer.next(), Ok(Some(id("a"))));
    assert_eq!(lexer.next(), Err(LexError { position: 1, found: "\u{2003}".to_string() }));
    assert_eq!(lexer.next(), Err(LexError { position: 1, found: "\u{2003}".to_string() }));
}

#[test]
fn end_is_reported_again_and_again() {
    let mut lexer = Lexer::new("a".to_string());
    assert_eq!(lexer.next(), Ok(Some(id("a"))));
    assert_eq!(lexer.next(), Ok(None));
    assert_eq!(lexer.next(), Ok(None));
}

#[test]
fn cursor_and_token_start_follow_the_tokens() {
    let mut lexer = Lexer::new("  ab12 +".to_string());
    assert_eq!(lexer.cursor(), 0);
    assert_eq!(lexer.next(), Ok(Some(id("ab12"))));
    assert_eq!(lexer.last_start(), 2);
    assert_eq!(lexer.cursor(), 6);
    assert_eq!(lexer.next(), Ok(Some(LexToken::Add)));
    assert_eq!(lexer.last_start(), 7);
    assert_eq!(lexer.cursor(), 8);
    assert_eq!(lexer.next(), Ok(None));
    assert_eq!(lexer.last_start(), 8);
}

#[test]
fn lexing_twice_gives_the_same_tokens() {
    let text = "let c = (a + b1) * 42 / d;\nprint c - 1;";
    assert_eq!(tokens(text), tokens(text));
}

#[test]
fn from_bytes_reads_each_byte_as_a_character() {
    let mut lexer = Lexer::from_bytes(b"x=1;");
    assert_eq!(lexer.next(), Ok(Some(id("x"))));
    assert_eq!(lexer.next(), Ok(Some(LexToken::Assign)));
    assert_eq!(lexer.next(), Ok(Some(LexToken::Num(1))));
    assert_eq!(lexer.next(), Ok(Some(LexToken::Semicolon)));
    assert_eq!(lexer.next(), Ok(None));
}

#[test]
fn from_bytes_rejects_a_high_byte_where_it_stands() {
    let mut lexer = Lexer::from_bytes(&[b'a', 0xe9, b'b']);
    assert_eq!(lexer.next(), Ok(Some(id("a"))));
    assert_eq!(lexer.next(), Err(LexError { position: 1, found: "\u{e9}".to_string() }));
}

#[test]
fn accept_takes_a_match_at_the_cursor() {
    let mut lexer = Lexer::new("ab12+".to_string());
    let groups = vec![Some((0, 4)), Some((0, 4))];
    assert_eq!(lexer.accept(Some(groups)), Ok(id("ab12")));
    assert_eq!(lexer.cursor(), 4);
    assert_eq!(lexer.last_start(), 0);
    let groups = vec![Some((0, 1)), None, None, None, Some((0, 1))];
    assert_eq!(lexer.accept(Some(groups)), Ok(LexToken::Add));
    assert_eq!(lexer.cursor(), 5);
    assert_eq!(lexer.last_start(), 4);
}

#[test]
fn accept_goes_by_the_first_group_that_took_part() {
    let mut lexer = Lexer::new("7".to_string());
    let groups = vec![Some((0, 1)), None, Some((0, 1)), Some((0, 1))];
    assert_eq!(lexer.accept(Some(groups)), Ok(LexToken::Num(7)));
}

#[test]
fn accept_hands_whitespace_out_as_a_token() {
    let mut lexer = Lexer::new(" \n x".to_string());
    let mut groups = vec![None; 12];
    groups[0] = Some((0, 3));
    groups[8] = Some((0, 3));
    assert_eq!(lexer.accept(Some(groups)), Ok(LexToken::Whitespace));
    assert_eq!(lexer.cursor(), 3);
}

#[test]
fn accept_turns_down_no_match() {
    let mut lexer = Lexer::new("$x".to_string());
    assert_eq!(lexer.accept(None), Err(LexError { position: 0, found: "$".to_string() }));
    assert_eq!(lexer.cursor(), 0);
}

#[test]
fn accept_turns_down_a_match_without_a_pattern_group() {
    let mut lexer = Lexer::new("ab".to_string());
    assert_eq!(
        lexer.accept(Some(vec![Some((0, 2))])),
        Err(LexError { position: 0, found: "a".to_string() })
    );
    assert_eq!(
        lexer.accept(Some(vec![Some((0, 2)), None, None])),
        Err(LexError { position: 0, found: "a".to_string() })
    );
    assert_eq!(lexer.accept(Some(vec![])), Err(LexError { position: 0, found: "a".to_string() }));
}

#[test]
fn accept_turns_down_a_match_that_starts_later() {
    let mut lexer = Lexer::new("$(".to_string());
    let mut groups = vec![None; 12];
    groups[0] = Some((1, 2));
    groups[10] = Some((1, 2));
    assert_eq!(lexer.accept(Some(groups)), Err(LexError { position: 0, found: "$".to_string() }));
    assert_eq!(lexer.cursor(), 0);
}

#[test]
fn accept_turns_down_an_empty_match() {
    let mut lexer = Lexer::new("ab".to_string());
    let groups = vec![Some((0, 0)), Some((0, 0))];
    assert_eq!(lexer.accept(Some(groups)), Err(LexError { position: 0, found: "a".to_string() }));
}

#[test]
fn accept_turns_down_a_match_beyond_the_text() {
    let mut lexer = Lexer::new("ab".to_string());
    let groups = vec![Some((0, 3)), Some((0, 3))];
    assert_eq!(lexer.accept(Some(groups)), Err(LexError { position: 0, found: "a".to_string() }));
    let groups = vec![Some((0, usize::MAX)), Some((0, usize::MAX))];
    assert_eq!(lexer.accept(Some(groups)), Err(LexError { position: 0, found: "a".to_string() }));
}

#[test]
fn accept_turns_down_a_group_that_the_pattern_lacks() {
    let mut lexer = Lexer::new("ab".to_string());
    let mut groups = vec![None; 13];
    groups[0] = Some((0, 1));
    groups[12] = Some((0, 1));
    assert_eq!(lexer.accept(Some(groups)), Err(LexError { position: 0, found: "a".to_string() }));
}

#[test]
fn accept_checks_that_an_identifier_is_a_word() {
    let mut lexer = Lexer::new("5x".to_string());
    let groups = vec![Some((0, 2)), Some((0, 2))];
    assert_eq!(lexer.accept(Some(groups)), Err(LexError { position: 0, found: "5x".to_string() }));
    let mut lexer = Lexer::new("a1b".to_string());
    let groups = vec![Some((0, 3)), Some((0, 3))];
    assert_eq!(
        lexer.accept(Some(groups)),
        Err(LexError { position: 0, found: "a1b".to_string() })
    );
}

#[test]
fn accept_checks_that_a_number_is_digits() {
    let mut lexer = Lexer::new("1a".to_string());
    let groups = vec![Some((0, 2)), None, Some((0, 2))];
    assert_eq!(lexer.accept(Some(groups)), Err(LexError { position: 0, found: "1a".to_string() }));
}

#[test]
fn accept_at_the_end_of_the_text_turns_everything_down() {
    let mut lexer = Lexer::new("a".to_string());
    assert_eq!(lexer.next(), Ok(Some(id("a"))));
    let groups = vec![Some((0, 1)), Some((0, 1))];
    assert_eq!(lexer.accept(Some(groups)), Err(LexError { position: 1, found: String::new() }));
    assert_eq!(lexer.accept(None), Err(LexError { position: 1, found: String::new() }));
}

#[test]
fn accept_checks_that_an_operator_is_its_own_character() {
    let mut lexer = Lexer::new("-".to_string());
    let groups = vec![Some((0, 1)), None, None, None, Some((0, 1))];
    assert_eq!(lexer.accept(Some(groups)), Err(LexError { position: 0, found: "-".to_string() }));
    assert_eq!(lexer.cursor(), 0);
    let groups = vec![Some((0, 1)), None, None, None, None, Some((0, 1))];
    assert_eq!(lexer.accept(Some(groups)), Ok(LexToken::Sub));
    let mut lexer = Lexer::new("++".to_string());
    let groups = vec![Some((0, 2)), None, None, None, Some((0, 2))];
    assert_eq!(lexer.accept(Some(groups)), Err(LexError { position: 0, found: "++".to_string() }));
}

#[test]
fn accept_checks_that_whitespace_is_blank() {
    let mut lexer = Lexer::new(" a".to_string());
    let mut groups = vec![None; 12];
    groups[0] = Some((0, 2));
    groups[8] = Some((0, 2));
    assert_eq!(lexer.accept(Some(groups)), Err(LexError { position: 0, found: " a".to_string() }));
    assert_eq!(lexer.cursor(), 0);
}

#[test]
fn accept_knows_each_pattern_group() {
    let cases = [
        (1, "x9", id("x9")),
        (1, "let", LexToken::Keyword(Keyword::Let)),
        (1, "print", LexToken::Keyword(Keyword::Print)),
        (2, "42", LexToken::Num(42)),
        (3, "=", LexToken::Assign),
        (4, "+", LexToken::Add),
        (5, "-", LexToken::Sub),
        (6, "*", LexToken::Mult),
        (7, "/", LexToken::Div),
        (8, "\t", LexToken::Whitespace),
        (9, ";", LexToken::Semicolon),
        (10, "(", LexToken::LPar),
        (11, ")", LexToken::RPar),
    ];
    for (group, text, token) in cases {
        let mut lexer = Lexer::new(text.to_string());
        let mut groups = vec![None; 12];
        groups[0] = Some((0, text.len()));
        groups[group] = Some((0, text.len()));
        assert_eq!(lexer.accept(Some(groups)), Ok(token));
        assert_eq!(lexer.cursor(), text.len());
    }
}

#[test]
fn every_character_outside_the_alphabet_is_an_error_where_it_stands() {
    let alphabet = "abcdefghijklmnopqrstuvwxyz0123456789=+-*/;() \t\n";
    for code in 0u8..128 {
        let c = char::from(code);
        let text = format!("a {}", c);
        if alphabet.contains(c) {
            assert!(tokens(&text).is_ok());
        } else {
            assert_eq!(tokens(&text), Err(LexError { position: 2, found: c.to_string() }));
        }
    }
}
