use vstd::prelude::*;

verus! {

/// The lexical category of a token: single-character punctuation,
/// one- or two-character operators, literals, reserved keywords, and
/// the terminal end-of-file marker.
#[derive(Clone, Copy, Debug, PartialEq, Eq, Structural)]
pub enum TokenType {
    LeftParen,
    RightParen,
    LeftBrace,
    RightBrace,
    Comma,
    Dot,
    Minus,
    Plus,
    Semicolon,
    Slash,
    Star,
    Bang,
    BangEqual,
    Equal,
    EqualEqual,
    Greater,
    GreaterEqual,
    Less,
    LessEqual,
    String,
    Number,
    Identifier,
    And,
    Class,
    Else,
    False,
    For,
    Fun,
    If,
    Nil,
    Or,
    Print,
    Return,
    Super,
    This,
    True,
    Var,
    While,
    EOF,
}

/// The decoded payload carried by string, number and identifier tokens.
///
/// A string literal holds the characters between the quotes, with no
/// escape processing. A number literal holds the exact numeral text that
/// was matched (a digit run, optionally followed by `.` and a digit run);
/// consumers that need a machine floating-point value decode this text
/// themselves, so a numeral is never silently replaced by a default.
/// An identifier literal holds the identifier's text.
#[derive(Debug, PartialEq)]
pub enum Literal {
    String(String),
    Number(String),
    Identifier(String),
}

/// The mathematical value of a [`Literal`]: the same payload, as a
/// sequence of characters.
pub enum SpecLiteral {
    String(Seq<char>),
    Number(Seq<char>),
    Identifier(Seq<char>),
}

/// An immutable token produced by the scanner.
#[derive(Debug, PartialEq)]
pub struct Token {
    /// The token's lexical category.
    pub kind: TokenType,
    /// The exact substring of the source text that produced this token.
    pub lexeme: String,
    /// The decoded payload, present only for string, number and
    /// identifier tokens.
    pub literal: Option<Literal>,
    /// The 1-based line number of the token's first character.
    pub line: u32,
}

/// The mathematical value of a [`Token`].
pub struct SpecToken {
    pub kind: TokenType,
    pub lexeme: Seq<char>,
    pub literal: Option<SpecLiteral>,
    pub line: int,
}

impl View for Literal {
    type V = SpecLiteral;

    open spec fn view(&self) -> SpecLiteral {
        match self {
            Literal::String(s) => SpecLiteral::String(s@),
            Literal::Number(s) => SpecLiteral::Number(s@),
            Literal::Identifier(s) => SpecLiteral::Identifier(s@),
        }
    }
}

/// The view of an optional literal: the view of its content, if any.
pub open spec fn literal_view(literal: Option<Literal>) -> Option<SpecLiteral> {
    match literal {
        Some(l) => Some(l@),
        None => None,
    }
}

impl View for Token {
    type V = SpecToken;

    open spec fn view(&self) -> SpecToken {
        SpecToken {
            kind: self.kind,
            lexeme: self.lexeme@,
            literal: literal_view(self.literal),
            line: self.line as int,
        }
    }
}

impl Clone for Literal {
    /// A clone is equal to the original.
    fn clone(&self) -> (r: Literal)
        ensures
            r == *self,
    {
        match self {
            Literal::String(s) => Literal::String(s.clone()),
            Literal::Number(s) => Literal::Number(s.clone()),
            Literal::Identifier(s) => Literal::Identifier(s.clone()),
        }
    }
}

impl Clone for Token {
    /// A clone is equal to the original.
    fn clone(&self) -> (r: Token)
        ensures
            r == *self,
    {
        Token {
            kind: self.kind,
            lexeme: self.lexeme.clone(),
            literal: match &self.literal {
                Some(l) => Some(l.clone()),
                None => None,
            },
            line: self.line,
        }
    }
}

impl Token {
    pub fn new(kind: TokenType, lexeme: String, literal: Option<Literal>, line: u32) -> (r: Token)
        ensures
            r@ == (SpecToken {
                kind: kind,
                lexeme: lexeme@,
                literal: literal_view(literal),
                line: line as int,
            }),
    {
        Token { kind, lexeme, literal, line }
    }
}

} // verus!
