//! Tokens of the small "let" language.
use crate::text::{decimal_text, push_decimal, push_str, string_of};
use vstd::prelude::*;

verus! {

/// A token of the language.
#[derive(Debug, PartialEq, Clone)]
pub enum Token {
    /// A character that starts no token.
    Illegal,
    /// The end of the input.
    Eof,
    Ident(String),
    Int(i64),
    Assign,
    Plus,
    Minus,
    Bang,
    Asterisk,
    Slash,
    Comma,
    Semicolon,
    LParen,
    RParen,
    LBrace,
    RBrace,
    Function,
    Let,
}

/// The abstract value of a [`Token`].
pub enum TokenView {
    Illegal,
    Eof,
    Ident(Seq<char>),
    Int(i64),
    Assign,
    Plus,
    Minus,
    Bang,
    Asterisk,
    Slash,
    Comma,
    Semicolon,
    LParen,
    RParen,
    LBrace,
    RBrace,
    Function,
    Let,
}

impl View for Token {
    type V = TokenView;

    open spec fn view(&self) -> TokenView {
        match self {
            Token::Illegal => TokenView::Illegal,
            Token::Eof => TokenView::Eof,
            Token::Ident(s) => TokenView::Ident(s@),
            Token::Int(v) => TokenView::Int(*v),
            Token::Assign => TokenView::Assign,
            Token::Plus => TokenView::Plus,
            Token::Minus => TokenView::Minus,
            Token::Bang => TokenView::Bang,
            Token::Asterisk => TokenView::Asterisk,
            Token::Slash => TokenView::Slash,
            Token::Comma => TokenView::Comma,
            Token::Semicolon => TokenView::Semicolon,
            Token::LParen => TokenView::LParen,
            Token::RParen => TokenView::RParen,
            Token::LBrace => TokenView::LBrace,
            Token::RBrace => TokenView::RBrace,
            Token::Function => TokenView::Function,
            Token::Let => TokenView::Let,
        }
    }
}

/// The literal text of a token: an identifier's name, `Int(n)` for a
/// number, and the variant's name for every other token.
pub open spec fn literal_of(t: TokenView) -> Seq<char> {
    match t {
        TokenView::Ident(s) => s,
        TokenView::Int(v) => "Int("@ + decimal_text(v as int) + ")"@,
        TokenView::Illegal => "Illegal"@,
        TokenView::Eof => "Eof"@,
        TokenView::Assign => "Assign"@,
        TokenView::Plus => "Plus"@,
        TokenView::Minus => "Minus"@,
        TokenView::Bang => "Bang"@,
        TokenView::Asterisk => "Asterisk"@,
        TokenView::Slash => "Slash"@,
        TokenView::Comma => "Comma"@,
        TokenView::Semicolon => "Semicolon"@,
        TokenView::LParen => "LParen"@,
        TokenView::RParen => "RParen"@,
        TokenView::LBrace => "LBrace"@,
        TokenView::RBrace => "RBrace"@,
        TokenView::Function => "Function"@,
        TokenView::Let => "Let"@,
    }
}

impl Token {
    /// The token's literal text.
    pub fn token_literal(&self) -> (r: String)
        ensures
            r@ == literal_of(self@),
    {
        proof {
            reveal_strlit("Int(");
            reveal_strlit(")");
        }
        match self {
            Token::Ident(s) => s.clone(),
            Token::Int(v) => {
                let mut cs: Vec<char> = Vec::new();
                push_str(&mut cs, "Int(");
                push_decimal(&mut cs, *v);
                push_str(&mut cs, ")");
                string_of(cs.as_slice())
            },
            Token::Illegal => "Illegal".to_owned(),
            Token::Eof => "Eof".to_owned(),
            Token::Assign => "Assign".to_owned(),
            Token::Plus => "Plus".to_owned(),
            Token::Minus => "Minus".to_owned(),
            Token::Bang => "Bang".to_owned(),
            Token::Asterisk => "Asterisk".to_owned(),
            Token::Slash => "Slash".to_owned(),
            Token::Comma => "Comma".to_owned(),
            Token::Semicolon => "Semicolon".to_owned(),
            Token::LParen => "LParen".to_owned(),
            Token::RParen => "RParen".to_owned(),
            Token::LBrace => "LBrace".to_owned(),
            Token::RBrace => "RBrace".to_owned(),
            Token::Function => "Function".to_owned(),
            Token::Let => "Let".to_owned(),
        }
    }

    /// A copy of the token.
    pub fn duplicate(&self) -> (r: Token)
        ensures
            r@ == self@,
    {
        match self {
            Token::Ident(s) => Token::Ident(s.clone()),
            Token::Int(v) => Token::Int(*v),
            Token::Illegal => Token::Illegal,
            Token::Eof => Token::Eof,
            Token::Assign => Token::Assign,
            Token::Plus => Token::Plus,
            Token::Minus => Token::Minus,
            Token::Bang => Token::Bang,
            Token::Asterisk => Token::Asterisk,
            Token::Slash => Token::Slash,
            Token::Comma => Token::Comma,
            Token::Semicolon => Token::Semicolon,
            Token::LParen => Token::LParen,
            Token::RParen => Token::RParen,
            Token::LBrace => Token::LBrace,
            Token::RBrace => Token::RBrace,
            Token::Function => Token::Function,
            Token::Let => Token::Let,
        }
    }
}

} // verus!
