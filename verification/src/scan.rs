//! What the lexer computes, as mathematics.
//!
//! A source text is a sequence of characters. The lexer reads its leading
//! run of ASCII characters; the first character beyond that run, if there is
//! one, can never start a token. Positions count characters from the start of
//! the text, which for the ASCII run are also byte offsets.

use crate::engine::regex_groups;
use crate::lexer::Keyword;
use vstd::prelude::*;

verus! {

/// The model of a token: identifiers hold their name as a character sequence.
pub enum TokenView {
    Id(Seq<char>),
    Num(i32),
    Assign,
    Add,
    Sub,
    Mult,
    Div,
    Whitespace,
    Semicolon,
    Keyword(Keyword),
    EOF,
    LPar,
    RPar,
}

/// The model of a lexical error: where it is and the text that is at fault.
pub struct LexErrorView {
    pub position: nat,
    pub found: Seq<char>,
}

/// A source text as the lexer sees it: the ASCII characters it can read, and
/// the first character after them when the text goes on.
pub struct Source {
    pub text: Seq<char>,
    pub stray: Option<char>,
}

/// Whether `c` is an ASCII character.
pub open spec fn is_ascii_char(c: char) -> bool {
    '\0' <= c <= '\u{7f}'
}

/// The length of the longest prefix of `s` that is ASCII.
pub open spec fn ascii_len(s: Seq<char>) -> nat
    decreases s.len(),
{
    if s.len() > 0 && is_ascii_char(s[0]) {
        1 + ascii_len(s.drop_first())
    } else {
        0
    }
}

/// The text whose characters have the codes `bytes`, one byte each.
pub open spec fn chars_of(bytes: Seq<u8>) -> Seq<char> {
    bytes.map_values(|b: u8| b as char)
}

/// How the lexer sees the text `s`.
pub open spec fn source_of(s: Seq<char>) -> Source {
    let n = ascii_len(s);
    Source { text: s.take(n as int), stray: if n < s.len() { Some(s[n as int]) } else { None } }
}

/// The token patterns, in order of priority. Each alternative is a capture
/// group, so that the index of the group that matched tells the kind of the
/// token. The whole is anchored at the start of the text it is tried on.
pub const TOKEN_PATTERN: &'static str =
    "^(?:(?P<ID>[a-z]+[0-9]*)|(?P<NUM>[0-9]+)|(?P<ASSIGN>=)|(?P<ADD>\\+)|(?P<SUB>-)|(?P<MULT>\\*)|(?P<DIV>/)|(?P<IGNORE>[ \\t\\n]+)|(?P<SEMICOLON>;)|(?P<LPAR>\\()|(?P<RPAR>\\)))";

/// The index of each alternative's capture group in `TOKEN_PATTERN`.
pub const GROUP_ID: usize = 1;
pub const GROUP_NUM: usize = 2;
pub const GROUP_ASSIGN: usize = 3;
pub const GROUP_ADD: usize = 4;
pub const GROUP_SUB: usize = 5;
pub const GROUP_MULT: usize = 6;
pub const GROUP_DIV: usize = 7;
pub const GROUP_IGNORE: usize = 8;
pub const GROUP_SEMICOLON: usize = 9;
pub const GROUP_LPAR: usize = 10;
pub const GROUP_RPAR: usize = 11;

/// Whether `c` is a lowercase letter.
pub open spec fn is_lower(c: char) -> bool {
    'a' <= c <= 'z'
}

/// Whether `c` is a decimal digit.
pub open spec fn is_digit(c: char) -> bool {
    '0' <= c <= '9'
}

/// The length of the leading run of lowercase letters of `s`.
pub open spec fn letters(s: Seq<char>) -> nat
    decreases s.len(),
{
    if s.len() > 0 && is_lower(s[0]) {
        1 + letters(s.drop_first())
    } else {
        0
    }
}

/// Whether `s` holds decimal digits only.
pub open spec fn all_digits(s: Seq<char>) -> bool {
    forall|i: int| 0 <= i < s.len() ==> is_digit(#[trigger] s[i])
}

/// An identifier-shaped word: one or more lowercase letters, then digits
/// only.
pub open spec fn is_word(s: Seq<char>) -> bool {
    letters(s) > 0 && all_digits(s.skip(letters(s) as int))
}

/// The number that the decimal digits `s` write.
pub open spec fn decimal(s: Seq<char>) -> nat
    decreases s.len(),
{
    if s.len() == 0 {
        0
    } else {
        decimal(s.drop_last()) * 10 + (s.last() as nat - '0' as nat) as nat
    }
}

/// The reserved word that `s` spells, if it spells one.
pub open spec fn keyword_of(s: Seq<char>) -> Option<Keyword> {
    if s == seq!['l', 'e', 't'] {
        Some(Keyword::Let)
    } else if s == seq!['p', 'r', 'i', 'n', 't'] {
        Some(Keyword::Print)
    } else {
        None
    }
}

/// Whether `c` is a space, a tab or a newline.
pub open spec fn is_blank(c: char) -> bool {
    c == ' ' || c == '\t' || c == '\n'
}

/// Whether `s` holds spaces, tabs and newlines only.
pub open spec fn all_blank(s: Seq<char>) -> bool {
    forall|i: int| 0 <= i < s.len() ==> is_blank(#[trigger] s[i])
}

/// The character and the token of a pattern group that matches one fixed
/// character.
pub open spec fn symbol(group: int) -> Option<(char, TokenView)> {
    if group == GROUP_ASSIGN {
        Some(('=', TokenView::Assign))
    } else if group == GROUP_ADD {
        Some(('+', TokenView::Add))
    } else if group == GROUP_SUB {
        Some(('-', TokenView::Sub))
    } else if group == GROUP_MULT {
        Some(('*', TokenView::Mult))
    } else if group == GROUP_DIV {
        Some(('/', TokenView::Div))
    } else if group == GROUP_SEMICOLON {
        Some((';', TokenView::Semicolon))
    } else if group == GROUP_LPAR {
        Some(('(', TokenView::LPar))
    } else if group == GROUP_RPAR {
        Some((')', TokenView::RPar))
    } else {
        None
    }
}

/// Whether the text `s` is a way to write `token`.
pub open spec fn spells(s: Seq<char>, token: TokenView) -> bool {
    match token {
        TokenView::Id(name) => s == name && is_word(s) && keyword_of(s) is None,
        TokenView::Keyword(k) => keyword_of(s) == Some(k),
        TokenView::Num(n) => s.len() > 0 && all_digits(s) && decimal(s) == n,
        TokenView::Assign => s == seq!['='],
        TokenView::Add => s == seq!['+'],
        TokenView::Sub => s == seq!['-'],
        TokenView::Mult => s == seq!['*'],
        TokenView::Div => s == seq!['/'],
        TokenView::Semicolon => s == seq![';'],
        TokenView::LPar => s == seq!['('],
        TokenView::RPar => s == seq![')'],
        TokenView::Whitespace => s.len() > 0 && all_blank(s),
        TokenView::EOF => false,
    }
}

/// The token that the text `s` stands for when pattern group `group` matched
/// it, or `None` when the text is no token of that kind: a word that is not
/// identifier-shaped, digits that do not fit 32 signed bits, a character
/// other than the group's own, or a group that the pattern does not have.
pub open spec fn token_of(group: int, s: Seq<char>) -> Option<TokenView> {
    if group == GROUP_ID {
        if !is_word(s) {
            None
        } else {
            match keyword_of(s) {
                Some(k) => Some(TokenView::Keyword(k)),
                None => Some(TokenView::Id(s)),
            }
        }
    } else if group == GROUP_NUM {
        if s.len() > 0 && all_digits(s) && decimal(s) <= i32::MAX {
            Some(TokenView::Num(decimal(s) as i32))
        } else {
            None
        }
    } else if group == GROUP_IGNORE {
        if s.len() > 0 && all_blank(s) {
            Some(TokenView::Whitespace)
        } else {
            None
        }
    } else {
        match symbol(group) {
            Some((c, token)) => if s == seq![c] {
                Some(token)
            } else {
                None
            },
            None => None,
        }
    }
}

/// A token made of a text is a token that the text spells.
pub proof fn lemma_token_of_spells(group: int, s: Seq<char>)
    ensures
        token_of(group, s) matches Some(token) ==> spells(s, token),
{
}

/// The first group at or after index `from` that took part in the match,
/// with its span.
pub open spec fn first_group(groups: Seq<Option<(usize, usize)>>, from: int) -> Option<
    (int, usize, usize),
>
    decreases groups.len() - from,
{
    if from < 0 || from >= groups.len() {
        None
    } else {
        match groups[from] {
            Some((start, end)) => Some((from, start, end)),
            None => first_group(groups, from + 1),
        }
    }
}

/// The error for text at `cursor` that no pattern accepts: it names the
/// character there.
pub open spec fn unrecognized(text: Seq<char>, cursor: nat) -> LexErrorView {
    LexErrorView {
        position: cursor,
        found: if cursor < text.len() {
            text.subrange(cursor as int, cursor + 1 as int)
        } else {
            Seq::empty()
        },
    }
}

/// What the lexer makes of the engine's answer `groups` for the text from
/// `cursor` on: the token and the position after it, or the error.
///
/// An answer counts only if its first participating pattern group starts at
/// the cursor, is not empty and ends inside the text.
pub open spec fn lexeme(
    text: Seq<char>,
    cursor: nat,
    groups: Option<Seq<Option<(usize, usize)>>>,
) -> Result<(TokenView, nat), LexErrorView> {
    match groups {
        Some(spans) => match first_group(spans, 1) {
            Some((group, start, end)) => {
                if start == 0 && 0 < end && cursor + end <= text.len() {
                    let s = text.subrange(cursor as int, cursor + end);
                    match token_of(group, s) {
                        Some(token) => Ok((token, cursor + end as nat)),
                        None => Err(LexErrorView { position: cursor, found: s }),
                    }
                } else {
                    Err(unrecognized(text, cursor))
                }
            },
            None => Err(unrecognized(text, cursor)),
        },
        None => Err(unrecognized(text, cursor)),
    }
}

/// The outcome of asking for the next token.
pub enum Scan {
    /// A token that spans the positions from `start` to `end`.
    Token { token: TokenView, start: nat, end: nat },
    /// The text is exhausted.
    End,
    /// No token starts here.
    Error(LexErrorView),
}

/// The next token of `src` at or after `cursor`, whitespace skipped.
pub open spec fn scan(src: Source, cursor: nat) -> Scan
    decreases src.text.len() - cursor,
{
    if cursor >= src.text.len() {
        match src.stray {
            Some(c) => Scan::Error(LexErrorView { position: src.text.len(), found: seq![c] }),
            None => Scan::End,
        }
    } else {
        match lexeme(src.text, cursor, regex_groups(TOKEN_PATTERN@, src.text.skip(cursor as int))) {
            Ok((TokenView::Whitespace, end)) => scan(src, end),
            Ok((token, end)) => Scan::Token { token, start: cursor, end },
            Err(e) => Scan::Error(e),
        }
    }
}

/// Whether `c` can stand in a token or between two tokens: a lowercase
/// letter, a digit, an operator, a punctuation mark or whitespace.
pub open spec fn in_alphabet(c: char) -> bool {
    is_lower(c) || is_digit(c) || is_blank(c) || c == '=' || c == '+' || c == '-' || c == '*'
        || c == '/' || c == ';' || c == '(' || c == ')'
}

/// A character outside the alphabet is a lexical error at its position,
/// whatever the pattern engine answers there.
pub proof fn lemma_foreign_character(src: Source, cursor: nat)
    requires
        cursor < src.text.len(),
        !in_alphabet(src.text[cursor as int]),
    ensures
        forall|groups: Option<Seq<Option<(usize, usize)>>>|
            (#[trigger] lexeme(src.text, cursor, groups)) matches Err(e) && e.position
                == cursor,
        scan(src, cursor) matches Scan::Error(e) && e.position == cursor,
{
    assert forall|groups: Option<Seq<Option<(usize, usize)>>>|
        (#[trigger] lexeme(src.text, cursor, groups)) matches Err(e) && e.position
            == cursor by {
        if let Some(spans) = groups {
            if let Some((group, start, end)) = first_group(spans, 1) {
                if start == 0 && 0 < end && cursor + end <= src.text.len() {
                    let s = src.text.subrange(cursor as int, cursor + end);
                    assert(s[0] == src.text[cursor as int]);
                    if group == GROUP_ID && is_word(s) {
                        assert(is_lower(s[0]));
                    }
                    if group == GROUP_NUM && all_digits(s) {
                        assert(is_digit(s[0]));
                    }
                    if group == GROUP_IGNORE && all_blank(s) {
                        assert(is_blank(s[0]));
                    }
                    if let Some((c, _)) = symbol(group) {
                        if s == seq![c] {
                            assert(s[0] == c);
                        }
                    }
                }
            }
        }
    }
}

/// A token lies at or after the cursor it was asked for at, is not empty,
/// and ends inside the text.
pub proof fn lemma_scan_advances(src: Source, cursor: nat)
    ensures
        scan(src, cursor) matches Scan::Token { start, end, .. } ==> cursor <= start < end
            <= src.text.len(),
    decreases src.text.len() - cursor,
{
    if cursor < src.text.len() {
        match lexeme(src.text, cursor, regex_groups(TOKEN_PATTERN@, src.text.skip(cursor as int))) {
            Ok((TokenView::Whitespace, end)) => {
                lemma_scan_advances(src, end);
            },
            _ => {},
        }
    }
}

/// Every token that the lexer hands out is spelled by the text that it
/// spans, and is neither whitespace nor an end marker. Nothing but
/// whitespace lies between the cursor and the token, or between the cursor
/// and the end of the text when the end is what the lexer reports.
pub proof fn lemma_scan_token(src: Source, cursor: nat)
    ensures
        match scan(src, cursor) {
            Scan::Token { token, start, end } => {
                &&& cursor <= start < end <= src.text.len()
                &&& all_blank(src.text.subrange(cursor as int, start as int))
                &&& spells(src.text.subrange(start as int, end as int), token)
                &&& token != TokenView::Whitespace
            },
            Scan::End => {
                &&& src.stray is None
                &&& cursor <= src.text.len() ==> all_blank(
                    src.text.subrange(cursor as int, src.text.len() as int),
                )
            },
            Scan::Error(e) => {
                &&& cursor <= src.text.len() ==> cursor <= e.position <= src.text.len()
                    && all_blank(src.text.subrange(cursor as int, e.position as int))
            },
        },
    decreases src.text.len() - cursor,
{
    if cursor < src.text.len() {
        match lexeme(src.text, cursor, regex_groups(TOKEN_PATTERN@, src.text.skip(cursor as int))) {
            Ok((TokenView::Whitespace, next)) => {
                lemma_scan_token(src, next);
                let skipped = src.text.subrange(cursor as int, next as int);
                let to = match scan(src, next) {
                    Scan::Token { start, .. } => start,
                    Scan::End => src.text.len(),
                    Scan::Error(e) => e.position,
                };
                let more = src.text.subrange(next as int, to as int);
                let all = src.text.subrange(cursor as int, to as int);
                assert(all =~= skipped + more);
                assert forall|i: int| 0 <= i < all.len() implies is_blank(#[trigger] all[i]) by {
                    if i < skipped.len() {
                        assert(all[i] == skipped[i]);
                    } else {
                        assert(all[i] == more[i - skipped.len()]);
                    }
                }
            },
            _ => {},
        }
    }
}

} // verus!
