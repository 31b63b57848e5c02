//! The lexer: cuts a source text into tokens.
//!
//! A token is a punctuation mark `: , [ ] { }`, a name (`null`, `true` and
//! `false` among them), or a number. Tokens may be separated by tabs, line
//! feeds, carriage returns and spaces.

use crate::number::{decimal_value, Number};
use crate::token::{Token, TokenView};
use vstd::prelude::*;
use vstd::string::*;

verus! {

/// Why a text could not be cut into tokens.
#[derive(Debug, Clone, Copy, PartialEq, Eq, Structural)]
pub enum LexicalError {
    /// No token starts with this character.
    UnexpectedCharacter(char),
    /// The text ended inside a token.
    UnexpectedEndOfFile,
}

/// A class of characters.
#[derive(Debug, Clone, Copy, PartialEq, Eq, Structural)]
pub enum CharClass {
    /// Tab, line feed, carriage return, space.
    Space,
    /// `0` to `9`.
    Digit,
    /// A letter `a` to `z` or `A` to `Z`, a digit, or `_`.
    Word,
}

pub open spec fn is_space(c: char) -> bool {
    c == '\t' || c == '\n' || c == '\r' || c == ' '
}

pub open spec fn is_digit(c: char) -> bool {
    '0' <= c && c <= '9'
}

pub open spec fn is_word_start(c: char) -> bool {
    ('a' <= c && c <= 'z') || ('A' <= c && c <= 'Z') || c == '_'
}

impl CharClass {
    /// The class holds the character.
    pub open spec fn holds(self, c: char) -> bool {
        match self {
            CharClass::Space => is_space(c),
            CharClass::Digit => is_digit(c),
            CharClass::Word => is_word_start(c) || is_digit(c),
        }
    }

    /// Whether the class holds the character.
    pub fn has(self, c: char) -> (r: bool)
        ensures
            r == self.holds(c),
    {
        match self {
            CharClass::Space => c == '\t' || c == '\n' || c == '\r' || c == ' ',
            CharClass::Digit => '0' <= c && c <= '9',
            CharClass::Word => ('a' <= c && c <= 'z') || ('A' <= c && c <= 'Z') || c == '_' || (
            '0' <= c && c <= '9'),
        }
    }
}

/// The length of the longest run of characters of a class that starts at
/// `from`.
pub open spec fn run_len(text: Seq<char>, from: int, class: CharClass) -> nat
    decreases text.len() - from,
{
    if 0 <= from < text.len() && class.holds(text[from]) {
        1 + run_len(text, from + 1, class)
    } else {
        0
    }
}

/// The character at `at` is `c`.
pub open spec fn char_is(text: Seq<char>, at: int, c: char) -> bool {
    0 <= at < text.len() && text[at] == c
}

/// Where the integer part of a number that starts at `from` ends: the part
/// is `0`, or a digit `1` to `9` and the digits that follow it. `None`
/// where no integer part starts there.
pub open spec fn integer_end(text: Seq<char>, from: int) -> Option<int> {
    if char_is(text, from, '0') {
        Some(from + 1)
    } else if 0 <= from < text.len() && is_digit(text[from]) {
        Some(from + run_len(text, from, CharClass::Digit))
    } else {
        None
    }
}

/// Where the fraction that may start at `from` ends: a fraction is `.` and
/// one digit or more. Without a fraction the end is `from`.
pub open spec fn fraction_end(text: Seq<char>, from: int) -> int {
    if char_is(text, from, '.') && run_len(text, from + 1, CharClass::Digit) > 0 {
        from + 1 + run_len(text, from + 1, CharClass::Digit)
    } else {
        from
    }
}

/// Where the exponent that may start at `from` ends: an exponent is `e` or
/// `E`, then `-` or `+` or neither, then one digit or more. Without an
/// exponent the end is `from`.
pub open spec fn exponent_end(text: Seq<char>, from: int) -> int {
    if char_is(text, from, 'e') || char_is(text, from, 'E') {
        let digits = if char_is(text, from + 1, '-') || char_is(text, from + 1, '+') {
            from + 2
        } else {
            from + 1
        };
        if run_len(text, digits, CharClass::Digit) > 0 {
            digits + run_len(text, digits, CharClass::Digit)
        } else {
            from
        }
    } else {
        from
    }
}

/// Where the number that starts at `from` ends: a number is `-` or nothing,
/// an integer part, and then a fraction and an exponent where they follow.
/// `None` where no number starts there.
pub open spec fn number_end(text: Seq<char>, from: int) -> Option<int> {
    let start = if char_is(text, from, '-') {
        from + 1
    } else {
        from
    };
    match integer_end(text, start) {
        Some(end) => Some(exponent_end(text, fraction_end(text, end))),
        None => None,
    }
}

/// The token that a name stands for.
pub open spec fn word_token(word: Seq<char>) -> TokenView {
    if word == seq!['n', 'u', 'l', 'l'] {
        TokenView::Null
    } else if word == seq!['t', 'r', 'u', 'e'] {
        TokenView::True
    } else if word == seq!['f', 'a', 'l', 's', 'e'] {
        TokenView::False
    } else {
        TokenView::Identifier(word)
    }
}

/// The token of a punctuation mark, or `None` for any other character.
pub open spec fn mark_token(c: char) -> Option<TokenView> {
    if c == ':' {
        Some(TokenView::Colon)
    } else if c == ',' {
        Some(TokenView::Comma)
    } else if c == '[' {
        Some(TokenView::LBracket)
    } else if c == ']' {
        Some(TokenView::RBracket)
    } else if c == '{' {
        Some(TokenView::LBrace)
    } else if c == '}' {
        Some(TokenView::RBrace)
    } else {
        None
    }
}

/// What stands at a place of a text.
pub enum Lexeme {
    /// The text ends there.
    End,
    /// A token, which ends at the given place.
    Token(TokenView, int),
    /// No token.
    Error(LexicalError),
}

/// What stands at `from`: a punctuation mark; else a name, as long as it
/// can be; else a number, as long as it can be; else nothing that is a
/// token.
pub open spec fn lex_model(text: Seq<char>, from: int) -> Lexeme {
    if from >= text.len() || from < 0 {
        Lexeme::End
    } else if mark_token(text[from]).is_some() {
        Lexeme::Token(mark_token(text[from])->Some_0, from + 1)
    } else if is_word_start(text[from]) {
        let end = from + run_len(text, from, CharClass::Word);
        Lexeme::Token(word_token(text.subrange(from, end)), end)
    } else {
        match number_end(text, from) {
            Some(end) => match decimal_value(text.subrange(from, end)) {
                Some(bits) => Lexeme::Token(TokenView::Number(bits), end),
                None => Lexeme::Error(LexicalError::UnexpectedCharacter(text[from])),
            },
            None => Lexeme::Error(LexicalError::UnexpectedCharacter(text[from])),
        }
    }
}

/// What stands at `from` behind the white space that starts there.
pub open spec fn lex_strip_model(text: Seq<char>, from: int) -> Lexeme {
    lex_model(text, from + run_len(text, from, CharClass::Space))
}

/// The end of the run of characters of a class that starts at `from`.
pub fn run_end(text: &Vec<char>, from: usize, class: CharClass) -> (end: usize)
    requires
        from <= text@.len(),
    ensures
        end == from + run_len(text@, from as int, class),
        end <= text@.len(),
{
    let mut end = from;
    while end < text.len() && class.has(text[end])
        invariant
            from <= end <= text@.len(),
            from + run_len(text@, from as int, class) == end + run_len(text@, end as int, class),
        decreases text@.len() - end,
    {
        end = end + 1;
    }
    end
}

/// Whether the character at `at` is `c`.
fn at_char(text: &Vec<char>, at: usize, c: char) -> (r: bool)
    ensures
        r == char_is(text@, at as int, c),
{
    at < text.len() && text[at] == c
}

/// The end of the number that starts at `from`, if one does.
pub fn scan_number(text: &Vec<char>, from: usize) -> (r: Option<usize>)
    requires
        from < text@.len(),
    ensures
        match r {
            Some(end) => number_end(text@, from as int) == Some(end as int) && from < end
                <= text@.len(),
            None => number_end(text@, from as int).is_none(),
        },
{
    let len = text.len();
    assert(len == text@.len());
    let start = if at_char(text, from, '-') {
        from + 1
    } else {
        from
    };
    let integer = if at_char(text, start, '0') {
        start + 1
    } else if start < text.len() && CharClass::Digit.has(text[start]) {
        run_end(text, start, CharClass::Digit)
    } else {
        return None;
    };
    let fraction = if at_char(text, integer, '.') {
        let end = run_end(text, integer + 1, CharClass::Digit);
        if end > integer + 1 {
            end
        } else {
            integer
        }
    } else {
        integer
    };
    let exponent = if at_char(text, fraction, 'e') || at_char(text, fraction, 'E') {
        let digits = if at_char(text, fraction + 1, '-') || at_char(text, fraction + 1, '+') {
            fraction + 2
        } else {
            fraction + 1
        };
        let end = run_end(text, digits, CharClass::Digit);
        if end > digits {
            end
        } else {
            fraction
        }
    } else {
        fraction
    };
    Some(exponent)
}

/// The characters of a text.
pub fn chars_of(text: &str) -> (chars: Vec<char>)
    ensures
        chars@ == text@,
{
    let mut chars: Vec<char> = Vec::new();
    for c in it: text.chars()
        invariant
            chars@ == it.seq().take(it.index() as int),
            it.seq() == text@,
    {
        chars.push(c);
    }
    chars
}

/// The lexer of a text. It hands out the tokens one by one, each with the
/// places where it starts and ends.
pub struct Lexer<'input> {
    input: &'input str,
    chars: Vec<char>,
    consumed: usize,
}

/// What the lexer hands out: a token between two places, or an error.
pub open spec fn spanned_view(item: Option<Result<(usize, Token, usize), LexicalError>>) -> Option<
    Result<(int, TokenView, int), LexicalError>,
> {
    match item {
        None => None,
        Some(Err(error)) => Some(Err(error)),
        Some(Ok((start, token, end))) => Some(Ok((start as int, token@, end as int))),
    }
}

/// What a lexer hands out next, having consumed the text up to `consumed`:
/// the token behind the white space, from where the lexer stood to where
/// the token ends; an error where no token stands there; nothing at the
/// end of the text.
pub open spec fn next_model(text: Seq<char>, consumed: int) -> Option<
    Result<(int, TokenView, int), LexicalError>,
> {
    match lex_strip_model(text, consumed) {
        Lexeme::End => None,
        Lexeme::Error(error) => Some(Err(error)),
        Lexeme::Token(token, end) => Some(Ok((consumed, token, end))),
    }
}

impl<'input> Lexer<'input> {
    /// The text that the lexer cuts.
    pub closed spec fn text(&self) -> Seq<char> {
        self.input@
    }

    /// The place up to which the text has been cut.
    pub closed spec fn position(&self) -> int {
        self.consumed as int
    }

    /// The lexer is consistent.
    pub closed spec fn wf(&self) -> bool {
        self.chars@ == self.input@ && self.consumed <= self.chars@.len()
    }

    /// A lexer at the start of `input`.
    pub fn new(input: &'input str) -> (lexer: Self)
        ensures
            lexer.wf(),
            lexer.text() == input@,
            lexer.position() == 0,
    {
        Self { input, chars: chars_of(input), consumed: 0 }
    }

    /// Cuts the token at `from`.
    fn lex(&self, from: usize) -> (r: Result<Option<(Token, usize)>, LexicalError>)
        requires
            self.wf(),
            from <= self.text().len(),
        ensures
            match r {
                Ok(None) => lex_model(self.text(), from as int) == Lexeme::End,
                Ok(Some((token, end))) => lex_model(self.text(), from as int) == Lexeme::Token(
                    token@,
                    end as int,
                ) && from < end <= self.text().len(),
                Err(error) => lex_model(self.text(), from as int) == Lexeme::Error(error),
            },
    {
        if from >= self.chars.len() {
            return Ok(None);
        }
        let first = self.chars[from];
        if first == ':' {
            return Ok(Some((Token::Colon, from + 1)));
        } else if first == ',' {
            return Ok(Some((Token::Comma, from + 1)));
        } else if first == '[' {
            return Ok(Some((Token::LBracket, from + 1)));
        } else if first == ']' {
            return Ok(Some((Token::RBracket, from + 1)));
        } else if first == '{' {
            return Ok(Some((Token::LBrace, from + 1)));
        } else if first == '}' {
            return Ok(Some((Token::RBrace, from + 1)));
        }
        if ('a' <= first && first <= 'z') || ('A' <= first && first <= 'Z') || first == '_' {
            let end = run_end(&self.chars, from, CharClass::Word);
            let ghost word = self.text().subrange(from as int, end as int);
            let n = end - from;
            let token = if n == 4 && self.chars[from] == 'n' && self.chars[from + 1] == 'u'
                && self.chars[from + 2] == 'l' && self.chars[from + 3] == 'l' {
                assert(word =~= seq!['n', 'u', 'l', 'l']);
                Token::Null
            } else if n == 4 && self.chars[from] == 't' && self.chars[from + 1] == 'r'
                && self.chars[from + 2] == 'u' && self.chars[from + 3] == 'e' {
                assert(word =~= seq!['t', 'r', 'u', 'e']);
                Token::True
            } else if n == 5 && self.chars[from] == 'f' && self.chars[from + 1] == 'a'
                && self.chars[from + 2] == 'l' && self.chars[from + 3] == 's' && self.chars[from
                + 4] == 'e' {
                assert(word =~= seq!['f', 'a', 'l', 's', 'e']);
                Token::False
            } else {
                proof {
                    if word == seq!['n', 'u', 'l', 'l'] {
                        assert(word[0] == 'n' && word[1] == 'u' && word[2] == 'l' && word[3] == 'l');
                        assert(word.len() == 4);
                    }
                    if word == seq!['t', 'r', 'u', 'e'] {
                        assert(word[0] == 't' && word[1] == 'r' && word[2] == 'u' && word[3] == 'e');
                        assert(word.len() == 4);
                    }
                    if word == seq!['f', 'a', 'l', 's', 'e'] {
                        assert(word[0] == 'f' && word[1] == 'a' && word[2] == 'l' && word[3] == 's'
                            && word[4] == 'e');
                        assert(word.len() == 5);
                    }
                }
                Token::Identifier(String::from_str(self.input.substring_char(from, end)))
            };
            return Ok(Some((token, end)));
        }
        match scan_number(&self.chars, from) {
            Some(end) => match Number::parse(self.input.substring_char(from, end)) {
                Some(number) => Ok(Some((Token::Number(number), end))),
                None => Err(LexicalError::UnexpectedCharacter(first)),
            },
            None => Err(LexicalError::UnexpectedCharacter(first)),
        }
    }

    /// Cuts the token behind the white space at `from`.
    fn lex_strip(&self, from: usize) -> (r: Result<Option<(Token, usize)>, LexicalError>)
        requires
            self.wf(),
            from <= self.text().len(),
        ensures
            match r {
                Ok(None) => lex_strip_model(self.text(), from as int) == Lexeme::End,
                Ok(Some((token, end))) => lex_strip_model(self.text(), from as int)
                    == Lexeme::Token(token@, end as int) && from < end <= self.text().len(),
                Err(error) => lex_strip_model(self.text(), from as int) == Lexeme::Error(error),
            },
    {
        let start = run_end(&self.chars, from, CharClass::Space);
        self.lex(start)
    }

    /// The next token with the places where it starts and ends, an error
    /// where no token follows, or `None` at the end of the text. The place
    /// where a token starts is the place where the one before ended. After
    /// an error the lexer stays where it is.
    pub fn next(&mut self) -> (item: Option<Result<(usize, Token, usize), LexicalError>>)
        requires
            old(self).wf(),
        ensures
            final(self).wf(),
            final(self).text() == old(self).text(),
            spanned_view(item) == next_model(old(self).text(), old(self).position()),
            final(self).position() == match item {
                Some(Ok((_, _, end))) => end as int,
                _ => old(self).position(),
            },
            old(self).position() <= final(self).position() <= old(self).text().len(),
            item matches Some(Ok(_)) ==> old(self).position() < final(self).position(),
    {
        match self.lex_strip(self.consumed) {
            Ok(Some((token, end))) => {
                let start = self.consumed;
                self.consumed = end;
                Some(Ok((start, token, end)))
            },
            Err(error) => Some(Err(error)),
            Ok(None) => None,
        }
    }
}

/// The tokens of a text from `consumed` on, as far as they go: all of
/// them, or the error of the first place where no token stands.
pub open spec fn tokens_model(text: Seq<char>, consumed: int) -> Result<
    Seq<(int, TokenView, int)>,
    LexicalError,
>
    decreases text.len() - consumed,
{
    match next_model(text, consumed) {
        None => Ok(Seq::empty()),
        Some(Err(error)) => Err(error),
        Some(Ok((start, token, end))) => if consumed < end <= text.len() {
            match tokens_model(text, end) {
                Ok(rest) => Ok(seq![(start, token, end)] + rest),
                Err(error) => Err(error),
            }
        } else {
            Ok(Seq::empty())
        },
    }
}

/// The spans and tokens of a list, as mathematics.
pub open spec fn spans_view(list: Seq<(usize, Token, usize)>) -> Seq<(int, TokenView, int)> {
    list.map_values(|item: (usize, Token, usize)| (item.0 as int, item.1@, item.2 as int))
}

/// All tokens of a text, each with the places where it starts and ends, or
/// the error of the first place where no token stands.
pub fn tokenize(input: &str) -> (r: Result<Vec<(usize, Token, usize)>, LexicalError>)
    ensures
        match r {
            Ok(list) => tokens_model(input@, 0) == Ok::<Seq<(int, TokenView, int)>, LexicalError>(
                spans_view(list@),
            ),
            Err(error) => tokens_model(input@, 0) == Err::<Seq<(int, TokenView, int)>, LexicalError>(
                error,
            ),
        },
{
    let mut lexer = Lexer::new(input);
    let mut list: Vec<(usize, Token, usize)> = Vec::new();
    loop
        invariant
            lexer.wf(),
            lexer.text() == input@,
            0 <= lexer.position() <= input@.len(),
            tokens_model(input@, 0) == match tokens_model(input@, lexer.position()) {
                Ok(rest) => Ok::<Seq<(int, TokenView, int)>, LexicalError>(
                    spans_view(list@) + rest,
                ),
                Err(error) => Err::<Seq<(int, TokenView, int)>, LexicalError>(error),
            },
        decreases input@.len() - lexer.position(),
    {
        let ghost before = list@;
        let ghost place = lexer.position();
        match lexer.next() {
            None => {
                assert(spans_view(list@) + Seq::<(int, TokenView, int)>::empty() =~= spans_view(
                    list@,
                ));
                return Ok(list);
            },
            Some(Err(error)) => {
                return Err(error);
            },
            Some(Ok(item)) => {
                let ghost view = (item.0 as int, item.1@, item.2 as int);
                list.push(item);
                proof {
                    assert(spans_view(list@) =~= spans_view(before).push(view));
                    match tokens_model(input@, lexer.position()) {
                        Ok(rest) => {
                            assert(spans_view(before) + (seq![view] + rest) =~= spans_view(list@)
                                + rest);
                        },
                        Err(_) => {},
                    }
                }
            },
        }
    }
}

} // verus!
