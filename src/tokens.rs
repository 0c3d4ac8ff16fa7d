use vstd::prelude::*;
use crate::text::{append, owned, same_text};

verus! {

/// What a token is: punctuation, a type keyword, or a literal or identifier
/// carrying its text.
#[derive(Debug, PartialEq, Eq, Clone)]
pub enum TokenKind {
    // type keywords
    Int,
    Float,
    String,
    Bool,
    Date,
    Uuid,
    // punctuation
    QuestionMark,
    Colon,
    Comma,
    LeftParen,
    RightParen,
    LeftBrace,
    RightBrace,
    LeftBracket,
    RightBracket,
    At,
    Rule,
    // literals and names
    StringLiteral(String),
    BoolLiteral(bool),
    Identifier(String),
    // end of input, where a token was wanted
    Eof,
}

/// The mathematical value of a [`TokenKind`]: texts are sequences of characters.
pub enum Tok {
    Int,
    Float,
    Str,
    Bool,
    Date,
    Uuid,
    QuestionMark,
    Colon,
    Comma,
    LeftParen,
    RightParen,
    LeftBrace,
    RightBrace,
    LeftBracket,
    RightBracket,
    At,
    Rule,
    StringLiteral(Seq<char>),
    BoolLiteral(bool),
    Identifier(Seq<char>),
    Eof,
}

impl View for TokenKind {
    type V = Tok;

    open spec fn view(&self) -> Tok {
        match self {
            TokenKind::Int => Tok::Int,
            TokenKind::Float => Tok::Float,
            TokenKind::String => Tok::Str,
            TokenKind::Bool => Tok::Bool,
            TokenKind::Date => Tok::Date,
            TokenKind::Uuid => Tok::Uuid,
            TokenKind::QuestionMark => Tok::QuestionMark,
            TokenKind::Colon => Tok::Colon,
            TokenKind::Comma => Tok::Comma,
            TokenKind::LeftParen => Tok::LeftParen,
            TokenKind::RightParen => Tok::RightParen,
            TokenKind::LeftBrace => Tok::LeftBrace,
            TokenKind::RightBrace => Tok::RightBrace,
            TokenKind::LeftBracket => Tok::LeftBracket,
            TokenKind::RightBracket => Tok::RightBracket,
            TokenKind::At => Tok::At,
            TokenKind::Rule => Tok::Rule,
            TokenKind::StringLiteral(s) => Tok::StringLiteral(s@),
            TokenKind::BoolLiteral(b) => Tok::BoolLiteral(*b),
            TokenKind::Identifier(s) => Tok::Identifier(s@),
            TokenKind::Eof => Tok::Eof,
        }
    }
}

/// How a token kind is named in messages: its variant, with its value in
/// parentheses where it carries one.
pub open spec fn describe(t: Tok) -> Seq<char> {
    match t {
        Tok::Int => "Int"@,
        Tok::Float => "Float"@,
        Tok::Str => "String"@,
        Tok::Bool => "Bool"@,
        Tok::Date => "Date"@,
        Tok::Uuid => "Uuid"@,
        Tok::QuestionMark => "QuestionMark"@,
        Tok::Colon => "Colon"@,
        Tok::Comma => "Comma"@,
        Tok::LeftParen => "LeftParen"@,
        Tok::RightParen => "RightParen"@,
        Tok::LeftBrace => "LeftBrace"@,
        Tok::RightBrace => "RightBrace"@,
        Tok::LeftBracket => "LeftBracket"@,
        Tok::RightBracket => "RightBracket"@,
        Tok::At => "At"@,
        Tok::Rule => "Rule"@,
        Tok::StringLiteral(s) => "StringLiteral(\""@ + s + "\")"@,
        Tok::BoolLiteral(b) => if b {
            "BoolLiteral(true)"@
        } else {
            "BoolLiteral(false)"@
        },
        Tok::Identifier(s) => "Identifier(\""@ + s + "\")"@,
        Tok::Eof => "Eof"@,
    }
}

impl TokenKind {
    /// The kind as messages name it.
    pub fn describe(&self) -> (r: String)
        ensures
            r@ == describe(self@),
    {
        match self {
            TokenKind::StringLiteral(s) => {
                let mut r = owned("StringLiteral(\"");
                append(&mut r, s.as_str());
                append(&mut r, "\")");
                r
            },
            TokenKind::Identifier(s) => {
                let mut r = owned("Identifier(\"");
                append(&mut r, s.as_str());
                append(&mut r, "\")");
                r
            },
            TokenKind::BoolLiteral(b) => if *b {
                owned("BoolLiteral(true)")
            } else {
                owned("BoolLiteral(false)")
            },
            TokenKind::Int => owned("Int"),
            TokenKind::Float => owned("Float"),
            TokenKind::String => owned("String"),
            TokenKind::Bool => owned("Bool"),
            TokenKind::Date => owned("Date"),
            TokenKind::Uuid => owned("Uuid"),
            TokenKind::QuestionMark => owned("QuestionMark"),
            TokenKind::Colon => owned("Colon"),
            TokenKind::Comma => owned("Comma"),
            TokenKind::LeftParen => owned("LeftParen"),
            TokenKind::RightParen => owned("RightParen"),
            TokenKind::LeftBrace => owned("LeftBrace"),
            TokenKind::RightBrace => owned("RightBrace"),
            TokenKind::LeftBracket => owned("LeftBracket"),
            TokenKind::RightBracket => owned("RightBracket"),
            TokenKind::At => owned("At"),
            TokenKind::Rule => owned("Rule"),
            TokenKind::Eof => owned("Eof"),
        }
    }

    /// A copy of this kind.
    pub fn duplicate(&self) -> (r: TokenKind)
        ensures
            r == *self,
    {
        match self {
            TokenKind::StringLiteral(s) => TokenKind::StringLiteral(s.clone()),
            TokenKind::Identifier(s) => TokenKind::Identifier(s.clone()),
            TokenKind::BoolLiteral(b) => TokenKind::BoolLiteral(*b),
            TokenKind::Int => TokenKind::Int,
            TokenKind::Float => TokenKind::Float,
            TokenKind::String => TokenKind::String,
            TokenKind::Bool => TokenKind::Bool,
            TokenKind::Date => TokenKind::Date,
            TokenKind::Uuid => TokenKind::Uuid,
            TokenKind::QuestionMark => TokenKind::QuestionMark,
            TokenKind::Colon => TokenKind::Colon,
            TokenKind::Comma => TokenKind::Comma,
            TokenKind::LeftParen => TokenKind::LeftParen,
            TokenKind::RightParen => TokenKind::RightParen,
            TokenKind::LeftBrace => TokenKind::LeftBrace,
            TokenKind::RightBrace => TokenKind::RightBrace,
            TokenKind::LeftBracket => TokenKind::LeftBracket,
            TokenKind::RightBracket => TokenKind::RightBracket,
            TokenKind::At => TokenKind::At,
            TokenKind::Rule => TokenKind::Rule,
            TokenKind::Eof => TokenKind::Eof,
        }
    }

    /// Whether the two kinds have the same value.
    pub fn same_as(&self, other: &TokenKind) -> (r: bool)
        ensures
            r == (self@ == other@),
    {
        match (self, other) {
            (TokenKind::StringLiteral(a), TokenKind::StringLiteral(b)) => same_text(a.as_str(), b.as_str()),
            (TokenKind::Identifier(a), TokenKind::Identifier(b)) => same_text(a.as_str(), b.as_str()),
            (TokenKind::BoolLiteral(a), TokenKind::BoolLiteral(b)) => *a == *b,
            (TokenKind::Int, TokenKind::Int) => true,
            (TokenKind::Float, TokenKind::Float) => true,
            (TokenKind::String, TokenKind::String) => true,
            (TokenKind::Bool, TokenKind::Bool) => true,
            (TokenKind::Date, TokenKind::Date) => true,
            (TokenKind::Uuid, TokenKind::Uuid) => true,
            (TokenKind::QuestionMark, TokenKind::QuestionMark) => true,
            (TokenKind::Colon, TokenKind::Colon) => true,
            (TokenKind::Comma, TokenKind::Comma) => true,
            (TokenKind::LeftParen, TokenKind::LeftParen) => true,
            (TokenKind::RightParen, TokenKind::RightParen) => true,
            (TokenKind::LeftBrace, TokenKind::LeftBrace) => true,
            (TokenKind::RightBrace, TokenKind::RightBrace) => true,
            (TokenKind::LeftBracket, TokenKind::LeftBracket) => true,
            (TokenKind::RightBracket, TokenKind::RightBracket) => true,
            (TokenKind::At, TokenKind::At) => true,
            (TokenKind::Rule, TokenKind::Rule) => true,
            (TokenKind::Eof, TokenKind::Eof) => true,
            _ => false,
        }
    }
}

/// A token and the byte offset at which it starts.
#[derive(Debug, PartialEq, Eq, Clone)]
pub struct Token {
    pub kind: TokenKind,
    pub index: usize,
}

impl Token {
    pub fn new(kind: TokenKind, index: usize) -> (r: Self)
        ensures
            r.kind == kind,
            r.index == index,
    {
        Self { kind, index }
    }

    /// A copy of this token.
    pub fn duplicate(&self) -> (r: Token)
        ensures
            r == *self,
    {
        Token { kind: self.kind.duplicate(), index: self.index }
    }
}

} // verus!
