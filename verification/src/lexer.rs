//! The lexer: tokens, lexical errors, and the cursor that produces them.

use crate::engine::{groups_view, match_groups, Groups};
use crate::scan::{
    all_blank, is_blank, symbol, all_digits, ascii_len, chars_of, decimal, first_group, is_ascii_char, is_digit, is_lower,
    keyword_of, letters, lexeme, scan, source_of, token_of, unrecognized, LexErrorView, Scan,
    Source, TokenView, GROUP_ADD, GROUP_ASSIGN, GROUP_DIV, GROUP_ID, GROUP_IGNORE, GROUP_LPAR,
    GROUP_MULT, GROUP_NUM, GROUP_RPAR, GROUP_SEMICOLON, GROUP_SUB, TOKEN_PATTERN,
};
use vstd::prelude::*;
use vstd::std_specs::iter::IteratorSpec;
use vstd::string::*;
use vstd::utf8::is_ascii_chars;

verus! {

/// The reserved words.
#[derive(Debug, PartialEq, Eq, Clone, Copy)]
pub enum Keyword {
    Let,
    Print,
}

/// A token. `Lexer::next` hands out neither `Whitespace` nor `EOF`: it
/// skips whitespace, and reports the end of the text as the absence of a
/// token. `Lexer::accept` does hand out `Whitespace`, for its caller to skip.
#[derive(Debug, PartialEq, Eq, Clone)]
pub enum LexToken {
    Id(String),
    Num(i32),
    Assign,
    Add,
    Sub,
    Mult,
    Div,
    Whitespace,
    Semicolon,
    Keyword(Keyword),
    EOF,
    LPar,
    RPar,
}

impl View for LexToken {
    type V = TokenView;

    open spec fn view(&self) -> TokenView {
        match self {
            LexToken::Id(name) => TokenView::Id(name@),
            LexToken::Num(n) => TokenView::Num(*n),
            LexToken::Assign => TokenView::Assign,
            LexToken::Add => TokenView::Add,
            LexToken::Sub => TokenView::Sub,
            LexToken::Mult => TokenView::Mult,
            LexToken::Div => TokenView::Div,
            LexToken::Whitespace => TokenView::Whitespace,
            LexToken::Semicolon => TokenView::Semicolon,
            LexToken::Keyword(k) => TokenView::Keyword(*k),
            LexToken::EOF => TokenView::EOF,
            LexToken::LPar => TokenView::LPar,
            LexToken::RPar => TokenView::RPar,
        }
    }
}

/// Text that is no token: its position and the characters at fault.
#[derive(Debug, PartialEq, Eq, Clone)]
pub struct LexError {
    pub position: usize,
    pub found: String,
}

impl View for LexError {
    type V = LexErrorView;

    open spec fn view(&self) -> LexErrorView {
        LexErrorView { position: self.position as nat, found: self.found@ }
    }
}

/// Finds the first pattern group from index `from` on that took part in
/// the match.
fn first_group_in(groups: &Groups, from: usize) -> (r: Option<(usize, usize, usize)>)
    ensures
        match r {
            Some((group, start, end)) => first_group(groups@, from as int) == Some(
                (group as int, start, end),
            ),
            None => first_group(groups@, from as int) is None,
        },
{
    let mut i: usize = from;
    while i < groups.len()
        invariant
            from <= i,
            first_group(groups@, from as int) == first_group(groups@, i as int),
        decreases groups.len() - i,
    {
        match groups[i] {
            Some((start, end)) => {
                return Some((i, start, end));
            },
            None => {},
        }
        i = i + 1;
    }
    None
}

/// The character at index `i` of an ASCII text.
fn char_at(s: &str, i: usize) -> (c: char)
    requires
        s.is_ascii(),
        i < s@.len(),
    ensures
        c == s@[i as int],
{
    let b = s.get_ascii(i);
    b as char
}

/// How the count of leading letters unfolds at index `i`.
proof fn lemma_letters_step(s: Seq<char>, i: int)
    requires
        0 <= i < s.len(),
    ensures
        letters(s.skip(i)) == if is_lower(s[i]) {
            1 + letters(s.skip(i + 1))
        } else {
            0
        },
{
    assert(s.skip(i).drop_first() =~= s.skip(i + 1));
}

/// Counts the lowercase letters that `s` begins with.
fn count_letters(s: &str, len: usize) -> (n: usize)
    requires
        s.is_ascii(),
        len == s@.len(),
    ensures
        n == letters(s@),
        n <= len,
{
    let mut i: usize = 0;
    assert(s@.skip(0) =~= s@);
    while i < len
        invariant
            s.is_ascii(),
            len == s@.len(),
            i <= len,
            letters(s@) == i + letters(s@.skip(i as int)),
        decreases len - i,
    {
        let c = char_at(s, i);
        proof {
            lemma_letters_step(s@, i as int);
        }
        if !('a' <= c && c <= 'z') {
            return i;
        }
        i = i + 1;
    }
    i
}

/// Tells whether `s` holds nothing but decimal digits from index `from` on.
fn digits_from(s: &str, from: usize, len: usize) -> (b: bool)
    requires
        s.is_ascii(),
        len == s@.len(),
        from <= len,
    ensures
        b == all_digits(s@.skip(from as int)),
{
    let mut i: usize = from;
    while i < len
        invariant
            s.is_ascii(),
            len == s@.len(),
            from <= i <= len,
            forall|j: int| from <= j < i ==> is_digit(#[trigger] s@[j]),
        decreases len - i,
    {
        let c = char_at(s, i);
        if !('0' <= c && c <= '9') {
            assert(s@.skip(from as int)[i - from] == s@[i as int]);
            return false;
        }
        i = i + 1;
    }
    assert forall|j: int| 0 <= j < s@.skip(from as int).len() implies is_digit(
        #[trigger] s@.skip(from as int)[j],
    ) by {
        assert(s@.skip(from as int)[j] == s@[from + j]);
    }
    true
}

/// The reserved word that `s` spells, if any.
fn keyword(s: &str, len: usize) -> (k: Option<Keyword>)
    requires
        s.is_ascii(),
        len == s@.len(),
    ensures
        k == keyword_of(s@),
{
    if len == 3 && char_at(s, 0) == 'l' && char_at(s, 1) == 'e' && char_at(s, 2) == 't' {
        assert(s@ =~= seq!['l', 'e', 't']);
        Some(Keyword::Let)
    } else if len == 5 && char_at(s, 0) == 'p' && char_at(s, 1) == 'r' && char_at(s, 2) == 'i'
        && char_at(s, 3) == 'n' && char_at(s, 4) == 't' {
        assert(s@ =~= seq!['p', 'r', 'i', 'n', 't']);
        Some(Keyword::Print)
    } else {
        assert(s@ != seq!['l', 'e', 't']) by {
            if s@ == seq!['l', 'e', 't'] {
                assert(s@.len() == 3);
                assert(s@[0] == 'l' && s@[1] == 'e' && s@[2] == 't');
            }
        }
        assert(s@ != seq!['p', 'r', 'i', 'n', 't']) by {
            if s@ == seq!['p', 'r', 'i', 'n', 't'] {
                assert(s@.len() == 5);
                assert(s@[0] == 'p' && s@[1] == 'r' && s@[2] == 'i' && s@[3] == 'n' && s@[4]
                    == 't');
            }
        }
        None
    }
}

/// The digits read so far never write more than all the digits do.
proof fn lemma_decimal_prefix(s: Seq<char>, k: int)
    requires
        0 <= k <= s.len(),
    ensures
        decimal(s.take(k)) <= decimal(s),
    decreases s.len() - k,
{
    if k < s.len() {
        lemma_decimal_prefix(s, k + 1);
        assert(s.take(k + 1).drop_last() =~= s.take(k));
    } else {
        assert(s.take(k) =~= s);
    }
}

/// Reads `s` as a decimal number that fits 32 signed bits.
fn parse_decimal(s: &str, len: usize) -> (r: Option<i32>)
    requires
        s.is_ascii(),
        len == s@.len(),
        all_digits(s@),
    ensures
        match r {
            Some(v) => decimal(s@) == v,
            None => decimal(s@) > i32::MAX,
        },
{
    let mut acc: i32 = 0;
    let mut i: usize = 0;
    assert(s@.take(0).len() == 0);
    while i < len
        invariant
            s.is_ascii(),
            len == s@.len(),
            all_digits(s@),
            i <= len,
            0 <= acc,
            acc == decimal(s@.take(i as int)),
        decreases len - i,
    {
        let c = char_at(s, i);
        assert(is_digit(s@[i as int]));
        let d: i32 = (c as u8 - 48u8) as i32;
        proof {
            assert(s@.take(i + 1).drop_last() =~= s@.take(i as int));
            assert(s@.take(i + 1).last() == c);
            assert(decimal(s@.take(i + 1)) == acc * 10 + d);
            lemma_decimal_prefix(s@, i + 1);
        }
        if acc > (i32::MAX - d) / 10 {
            return None;
        }
        acc = acc * 10 + d;
        i = i + 1;
    }
    assert(s@.take(len as int) =~= s@);
    Some(acc)
}

/// Tells whether `s` holds nothing but spaces, tabs and newlines.
fn blank(s: &str, len: usize) -> (b: bool)
    requires
        s.is_ascii(),
        len == s@.len(),
    ensures
        b == all_blank(s@),
{
    let mut i: usize = 0;
    while i < len
        invariant
            s.is_ascii(),
            len == s@.len(),
            i <= len,
            forall|j: int| 0 <= j < i ==> is_blank(#[trigger] s@[j]),
        decreases len - i,
    {
        let c = char_at(s, i);
        if !(c == ' ' || c == '\t' || c == '\n') {
            return false;
        }
        i = i + 1;
    }
    true
}

/// The character and the token of a pattern group that matches one fixed
/// character.
fn symbol_for(group: usize) -> (r: Option<(char, LexToken)>)
    ensures
        match symbol(group as int) {
            Some((c, token)) => r matches Some((x, t)) && x == c && t@ == token,
            None => r is None,
        },
{
    if group == GROUP_ASSIGN {
        Some(('=', LexToken::Assign))
    } else if group == GROUP_ADD {
        Some(('+', LexToken::Add))
    } else if group == GROUP_SUB {
        Some(('-', LexToken::Sub))
    } else if group == GROUP_MULT {
        Some(('*', LexToken::Mult))
    } else if group == GROUP_DIV {
        Some(('/', LexToken::Div))
    } else if group == GROUP_SEMICOLON {
        Some((';', LexToken::Semicolon))
    } else if group == GROUP_LPAR {
        Some(('(', LexToken::LPar))
    } else if group == GROUP_RPAR {
        Some((')', LexToken::RPar))
    } else {
        None
    }
}

/// Makes the token for the text `s` that pattern group `group` matched.
fn token_from(group: usize, s: &str, len: usize) -> (r: Option<LexToken>)
    requires
        s.is_ascii(),
        len == s@.len(),
    ensures
        match token_of(group as int, s@) {
            Some(token) => r matches Some(t) && t@ == token,
            None => r is None,
        },
{
    if group == GROUP_ID {
        let n = count_letters(s, len);
        if n == 0 || !digits_from(s, n, len) {
            return None;
        }
        match keyword(s, len) {
            Some(k) => Some(LexToken::Keyword(k)),
            None => Some(LexToken::Id(s.to_owned())),
        }
    } else if group == GROUP_NUM {
        assert(s@.skip(0) =~= s@);
        if len == 0 || !digits_from(s, 0, len) {
            return None;
        }
        match parse_decimal(s, len) {
            Some(v) => Some(LexToken::Num(v)),
            None => None,
        }
    } else if group == GROUP_IGNORE {
        if len == 0 || !blank(s, len) {
            return None;
        }
        Some(LexToken::Whitespace)
    } else {
        match symbol_for(group) {
            Some((c, token)) => {
                if len == 1 && char_at(s, 0) == c {
                    assert(s@ =~= seq![c]);
                    Some(token)
                } else {
                    assert(s@ != seq![c]) by {
                        if s@ == seq![c] {
                            assert(s@.len() == 1 && s@[0] == c);
                        }
                    }
                    None
                }
            },
            None => None,
        }
    }
}

/// If the first `n` characters of `s` are ASCII and the one after them is
/// not, the ASCII prefix of `s` has length `n`.
pub proof fn lemma_ascii_len(s: Seq<char>, n: nat)
    requires
        n <= s.len(),
        forall|i: int| 0 <= i < n ==> is_ascii_char(#[trigger] s[i]),
        n < s.len() ==> !is_ascii_char(s[n as int]),
    ensures
        ascii_len(s) == n,
    decreases n,
{
    if n > 0 {
        let rest = s.drop_first();
        assert forall|i: int| 0 <= i < n - 1 implies is_ascii_char(#[trigger] rest[i]) by {
            assert(rest[i] == s[i + 1]);
        }
        lemma_ascii_len(rest, (n - 1) as nat);
    }
}

/// Counts the ASCII characters that `s` begins with.
fn count_ascii(s: &str, total: usize) -> (n: usize)
    requires
        total == s@.len(),
    ensures
        n == ascii_len(s@),
        n <= total,
{
    broadcast use vstd::string::group_string_axioms;

    let mut n: usize = 0;
    let mut it = s.chars();
    loop
        invariant
            total == s@.len(),
            n <= total,
            it.remaining() == s@.skip(n as int),
            forall|i: int| 0 <= i < n ==> is_ascii_char(#[trigger] s@[i]),
        decreases total - n,
    {
        match it.next() {
            Some(c) => {
                if !('\0' <= c && c <= '\u{7f}') {
                    proof {
                        lemma_ascii_len(s@, n as nat);
                    }
                    return n;
                }
                n = n + 1;
            },
            None => {
                proof {
                    lemma_ascii_len(s@, n as nat);
                }
                return n;
            },
        }
    }
}

/// Appends `c` to `text` with `String::push`.
///
/// Trusted: the string afterwards is the string before with `c` at its
/// end, as the standard library documents.
#[verifier::external_body]
fn push_char(text: &mut String, c: char)
    ensures
        final(text)@ == old(text)@.push(c),
{
    text.push(c);
}

/// Reads each byte as the character with that code.
fn decode(bytes: &[u8]) -> (text: String)
    ensures
        text@ == chars_of(bytes@),
{
    let mut text = String::new();
    let mut i: usize = 0;
    while i < bytes.len()
        invariant
            i <= bytes.len(),
            text@ == chars_of(bytes@.take(i as int)),
        decreases bytes.len() - i,
    {
        push_char(&mut text, bytes[i] as char);
        assert(chars_of(bytes@.take(i + 1)) =~= chars_of(bytes@.take(i as int)).push(
            bytes[i as int] as char,
        ));
        i = i + 1;
    }
    assert(bytes@.take(i as int) =~= bytes@);
    text
}

/// A cursor over a source text that hands out its tokens one at a time.
pub struct Lexer {
    /// The ASCII characters that the text begins with.
    text: String,
    /// The number of characters of `text`.
    len: usize,
    /// The first character after `text`, or nothing if the text ends there.
    stray: String,
    /// Where the next token is looked for.
    cursor: usize,
    /// Where the token last handed out begins.
    token_start: usize,
}

impl Lexer {
    /// The text that this lexer reads.
    pub closed spec fn source(&self) -> Source {
        Source {
            text: self.text@,
            stray: if self.stray@.len() > 0 {
                Some(self.stray@[0])
            } else {
                None
            },
        }
    }

    /// The position at which the next token is looked for.
    pub closed spec fn position(&self) -> nat {
        self.cursor as nat
    }

    /// The position at which the token last handed out begins.
    pub closed spec fn token_start(&self) -> nat {
        self.token_start as nat
    }

    /// The representation invariant.
    pub closed spec fn wf(&self) -> bool {
        &&& is_ascii_chars(self.text@)
        &&& self.len == self.text@.len()
        &&& self.stray@.len() <= 1
        &&& self.token_start <= self.cursor <= self.len
    }

    /// A lexer at the start of `input`.
    pub fn new(input: String) -> (lexer: Lexer)
        ensures
            lexer.wf(),
            lexer.source() == source_of(input@),
            lexer.position() == 0,
    {
        let total = input.as_str().unicode_len();
        let n = count_ascii(input.as_str(), total);
        if n == total {
            assert(input@.take(n as int) =~= input@);
            assert(is_ascii_chars(input@)) by {
                lemma_ascii_prefix(input@);
            }
            Lexer { text: input, len: total, stray: String::new(), cursor: 0, token_start: 0 }
        } else {
            let text = input.as_str().substring_char(0, n).to_owned();
            let stray = input.as_str().substring_char(n, n + 1).to_owned();
            assert(stray@ =~= seq![input@[n as int]]);
            assert(text@ == input@.take(n as int));
            assert(is_ascii_chars(text@)) by {
                lemma_ascii_prefix(input@);
            }
            Lexer { text, len: n, stray, cursor: 0, token_start: 0 }
        }
    }

    /// A lexer at the start of the text whose characters have the codes
    /// `bytes`, one byte each.
    pub fn from_bytes(bytes: &[u8]) -> (lexer: Lexer)
        ensures
            lexer.wf(),
            lexer.source() == source_of(chars_of(bytes@)),
            lexer.position() == 0,
    {
        Lexer::new(decode(bytes))
    }

    /// The error for a cursor at which no pattern matches.
    fn reject(&self) -> (e: LexError)
        requires
            self.wf(),
        ensures
            e@ == unrecognized(self.source().text, self.position()),
    {
        if self.cursor < self.len {
            let found = self.text.as_str().substring_ascii(self.cursor, self.cursor + 1);
            LexError { position: self.cursor, found: found.to_owned() }
        } else {
            LexError { position: self.cursor, found: String::new() }
        }
    }

    /// Takes the pattern engine's answer for the text from the cursor on,
    /// and turns it into a token or an error.
    ///
    /// On a token the cursor moves past its text. An answer is turned down,
    /// and the cursor stays, unless its first participating pattern group
    /// starts at the cursor, is not empty, ends inside the text, and covers
    /// text that is a token of the group's kind.
    pub fn accept(&mut self, groups: Option<Groups>) -> (r: Result<LexToken, LexError>)
        requires
            old(self).wf(),
        ensures
            final(self).wf(),
            final(self).source() == old(self).source(),
            match lexeme(old(self).source().text, old(self).position(), groups_view(groups)) {
                Ok((token, end)) => r matches Ok(t) && t@ == token && final(self).position()
                    == end && final(self).token_start() == old(self).position(),
                Err(e) => r matches Err(x) && x@ == e
                    && final(self).position() == old(self).position()
                    && final(self).token_start() == old(self).token_start(),
            },
    {
        let spans = match groups {
            Some(spans) => spans,
            None => {
                return Err(self.reject());
            },
        };
        let (group, start, end) = match first_group_in(&spans, 1) {
            Some(first) => first,
            None => {
                return Err(self.reject());
            },
        };
        if start != 0 || end == 0 || end > self.len - self.cursor {
            return Err(self.reject());
        }
        let stop = self.cursor + end;
        let found = self.text.as_str().substring_ascii(self.cursor, stop);
        match token_from(group, found, end) {
            Some(token) => {
                self.token_start = self.cursor;
                self.cursor = stop;
                Ok(token)
            },
            None => Err(LexError { position: self.cursor, found: found.to_owned() }),
        }
    }

    /// The next token of the text, or `None` once the text is exhausted.
    ///
    /// Whitespace is skipped. Text that no pattern accepts ends the lexing:
    /// the error says where it is, and the cursor stays there.
    pub fn next(&mut self) -> (r: Result<Option<LexToken>, LexError>)
        requires
            old(self).wf(),
        ensures
            final(self).wf(),
            final(self).source() == old(self).source(),
            match scan(old(self).source(), old(self).position()) {
                Scan::Token { token, start, end } => r matches Ok(Some(t)) && t@ == token
                    && final(self).token_start() == start && final(self).position() == end,
                Scan::End => r matches Ok(None)
                    && final(self).token_start() == old(self).source().text.len()
                    && final(self).position() == old(self).source().text.len(),
                Scan::Error(e) => r matches Err(x) && x@ == e && final(self).position()
                    == e.position,
            },
    {
        loop
            invariant
                self.wf(),
                self.source() == old(self).source(),
                scan(self.source(), self.position()) == scan(
                    old(self).source(),
                    old(self).position(),
                ),
            decreases self.len - self.cursor,
        {
            if self.cursor >= self.len {
                if self.stray.as_str().unicode_len() > 0 {
                    assert(self.stray@ =~= seq![self.stray@[0]]);
                    return Err(LexError { position: self.len, found: self.stray.clone() });
                }
                self.token_start = self.cursor;
                return Ok(None);
            }
            let rest = self.text.as_str().substring_ascii(self.cursor, self.len);
            assert(rest@ == self.text@.skip(self.cursor as int));
            let groups = match_groups(TOKEN_PATTERN, rest);
            match self.accept(groups) {
                Ok(LexToken::Whitespace) => {},
                Ok(token) => {
                    return Ok(Some(token));
                },
                Err(e) => {
                    return Err(e);
                },
            }
        }
    }

    /// The position at which the next token is looked for.
    pub fn cursor(&self) -> (p: usize)
        requires
            self.wf(),
        ensures
            p == self.position(),
    {
        self.cursor
    }

    /// The position at which the token last handed out begins. After the
    /// end of the text was reported, that is the end of the text.
    pub fn last_start(&self) -> (p: usize)
        requires
            self.wf(),
        ensures
            p == self.token_start(),
    {
        self.token_start
    }
}

/// The characters counted by `ascii_len` are ASCII.
pub proof fn lemma_ascii_prefix(s: Seq<char>)
    ensures
        ascii_len(s) <= s.len(),
        is_ascii_chars(s.take(ascii_len(s) as int)),
    decreases s.len(),
{
    if s.len() > 0 && is_ascii_char(s[0]) {
        let rest = s.drop_first();
        lemma_ascii_prefix(rest);
        let n = ascii_len(s) as int;
        assert forall|j: int| 0 <= j < s.take(n).len() implies '\0' <= #[trigger] s.take(n)[j]
            <= '\u{7f}' by {
            if j > 0 {
                assert(s.take(n)[j] == rest.take(n - 1)[j - 1]);
                assert('\0' <= rest.take(n - 1)[j - 1] <= '\u{7f}');
            } else {
                assert(s.take(n)[j] == s[0]);
            }
        }
    }
}

} // verus!
