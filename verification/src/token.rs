//! Tokens of the expression language, together with their ghost model.

use vstd::prelude::*;

verus! {

/// A lexical token. A `Number` carries the numeral text it was read from
/// (or, after resolution, the text a variable's value was read from); the
/// numeric interpretation of that text is left to the embedding program,
/// which owns the floating-point arithmetic.
#[derive(Debug, PartialEq)]
pub enum Token {
    Plus,
    Minus,
    Star,
    Slash,
    LeftParen,
    RightParen,
    Number(String),
    /// Never seen by the parser: the resolver replaces it first.
    Variable(char),
    Power,
    Ln,
    Log,
    Sin,
    Cos,
    Tan,
}

/// The ghost model of a token: the same tag, with the numeral text as a
/// sequence of characters.
#[verifier::ext_equal]
pub enum Lexeme {
    Plus,
    Minus,
    Star,
    Slash,
    LeftParen,
    RightParen,
    Number(Seq<char>),
    Variable(char),
    Power,
    Ln,
    Log,
    Sin,
    Cos,
    Tan,
}

impl View for Token {
    type V = Lexeme;

    open spec fn view(&self) -> Lexeme {
        match self {
            Token::Plus => Lexeme::Plus,
            Token::Minus => Lexeme::Minus,
            Token::Star => Lexeme::Star,
            Token::Slash => Lexeme::Slash,
            Token::LeftParen => Lexeme::LeftParen,
            Token::RightParen => Lexeme::RightParen,
            Token::Number(s) => Lexeme::Number(s@),
            Token::Variable(c) => Lexeme::Variable(*c),
            Token::Power => Lexeme::Power,
            Token::Ln => Lexeme::Ln,
            Token::Log => Lexeme::Log,
            Token::Sin => Lexeme::Sin,
            Token::Cos => Lexeme::Cos,
            Token::Tan => Lexeme::Tan,
        }
    }
}

/// The ghost model of a token sequence.
pub open spec fn lexemes(s: Seq<Token>) -> Seq<Lexeme> {
    s.map_values(|t: Token| t@)
}

impl Token {
    /// An explicit copy with the same model.
    pub fn dup(&self) -> (t: Token)
        ensures
            t@ == self@,
    {
        match self {
            Token::Plus => Token::Plus,
            Token::Minus => Token::Minus,
            Token::Star => Token::Star,
            Token::Slash => Token::Slash,
            Token::LeftParen => Token::LeftParen,
            Token::RightParen => Token::RightParen,
            Token::Number(s) => Token::Number(s.clone()),
            Token::Variable(c) => Token::Variable(*c),
            Token::Power => Token::Power,
            Token::Ln => Token::Ln,
            Token::Log => Token::Log,
            Token::Sin => Token::Sin,
            Token::Cos => Token::Cos,
            Token::Tan => Token::Tan,
        }
    }
}

} // verus!
