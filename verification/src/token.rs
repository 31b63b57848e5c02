//! The tokens of the language.

use crate::number::Number;
use vstd::prelude::*;

verus! {

/// A token.
#[derive(Clone, Debug)]
pub enum Token {
    True,
    False,
    Null,
    Number(Number),
    String(String),
    Identifier(String),
    If,
    Then,
    Else,
    Local,
    Function,
    Dot,
    Colon,
    Semicolon,
    Comma,
    LParen,
    RParen,
    LBracket,
    RBracket,
    LBrace,
    RBrace,
    Plus,
    Minus,
    Asterisk,
    Slash,
    Percent,
    Eq,
    EqEq,
    Exclamation,
    NotEq,
    Ampersand,
    AndAnd,
    Pipe,
    OrOr,
}

/// A token, as mathematics: a number by its bit pattern, a text by its
/// characters.
pub enum TokenView {
    True,
    False,
    Null,
    Number(u64),
    String(Seq<char>),
    Identifier(Seq<char>),
    If,
    Then,
    Else,
    Local,
    Function,
    Dot,
    Colon,
    Semicolon,
    Comma,
    LParen,
    RParen,
    LBracket,
    RBracket,
    LBrace,
    RBrace,
    Plus,
    Minus,
    Asterisk,
    Slash,
    Percent,
    Eq,
    EqEq,
    Exclamation,
    NotEq,
    Ampersand,
    AndAnd,
    Pipe,
    OrOr,
}

impl View for Token {
    type V = TokenView;

    open spec fn view(&self) -> TokenView {
        match *self {
            Token::True => TokenView::True,
            Token::False => TokenView::False,
            Token::Null => TokenView::Null,
            Token::Number(n) => TokenView::Number(n.bits),
            Token::String(text) => TokenView::String(text@),
            Token::Identifier(name) => TokenView::Identifier(name@),
            Token::If => TokenView::If,
            Token::Then => TokenView::Then,
            Token::Else => TokenView::Else,
            Token::Local => TokenView::Local,
            Token::Function => TokenView::Function,
            Token::Dot => TokenView::Dot,
            Token::Colon => TokenView::Colon,
            Token::Semicolon => TokenView::Semicolon,
            Token::Comma => TokenView::Comma,
            Token::LParen => TokenView::LParen,
            Token::RParen => TokenView::RParen,
            Token::LBracket => TokenView::LBracket,
            Token::RBracket => TokenView::RBracket,
            Token::LBrace => TokenView::LBrace,
            Token::RBrace => TokenView::RBrace,
            Token::Plus => TokenView::Plus,
            Token::Minus => TokenView::Minus,
            Token::Asterisk => TokenView::Asterisk,
            Token::Slash => TokenView::Slash,
            Token::Percent => TokenView::Percent,
            Token::Eq => TokenView::Eq,
            Token::EqEq => TokenView::EqEq,
            Token::Exclamation => TokenView::Exclamation,
            Token::NotEq => TokenView::NotEq,
            Token::Ampersand => TokenView::Ampersand,
            Token::AndAnd => TokenView::AndAnd,
            Token::Pipe => TokenView::Pipe,
            Token::OrOr => TokenView::OrOr,
        }
    }
}

} // verus!
