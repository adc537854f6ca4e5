use vstd::prelude::*;

verus! {

/// The kind of a token handed to the parser.
#[derive(Debug, Clone, Copy, PartialEq, Eq, Structural)]
pub enum TokenType {
    LeftBrace,
    RightBrace,
    LeftBracket,
    RightBracket,
    Colon,
    Comma,
    Identifier,
    String,
    Number,
    Null,
    True,
    False,
    Eof,
}

/// A scalar value: the payload of a token and the leaf of a tree.
///
/// A number is held as its decimal text, the form in which it is printed.
#[derive(Debug)]
pub enum Literal {
    String(String),
    Number(String),
    Bool(bool),
    Null,
}

/// The mathematical value of a [`Literal`].
pub enum LiteralView {
    Text(Seq<char>),
    Number(Seq<char>),
    Bool(bool),
    Null,
}

impl View for Literal {
    type V = LiteralView;

    open spec fn view(&self) -> LiteralView {
        match self {
            Literal::String(s) => LiteralView::Text(s@),
            Literal::Number(s) => LiteralView::Number(s@),
            Literal::Bool(b) => LiteralView::Bool(*b),
            Literal::Null => LiteralView::Null,
        }
    }
}

impl LiteralView {
    /// The canonical text of the value: a string as it is, a number as its
    /// decimal text, `true`, `false` or `null`.
    pub open spec fn text(self) -> Seq<char> {
        match self {
            LiteralView::Text(s) => s,
            LiteralView::Number(s) => s,
            LiteralView::Bool(b) => if b { "true"@ } else { "false"@ },
            LiteralView::Null => "null"@,
        }
    }

    /// The text with a string wrapped in double quotes.
    pub open spec fn quoted_text(self) -> Seq<char> {
        match self {
            LiteralView::Text(s) => quote(s),
            _ => self.text(),
        }
    }
}

/// `s` between two double quotes, with nothing escaped.
pub open spec fn quote(s: Seq<char>) -> Seq<char> {
    seq!['"'] + s + seq!['"']
}

impl Clone for Literal {
    fn clone(&self) -> (r: Literal)
        ensures
            r@ == self@,
    {
        match self {
            Literal::String(s) => Literal::String(s.clone()),
            Literal::Number(s) => Literal::Number(s.clone()),
            Literal::Bool(b) => Literal::Bool(*b),
            Literal::Null => Literal::Null,
        }
    }
}

impl Literal {
    /// The canonical text of the value.
    pub fn to_string(&self) -> (r: String)
        ensures
            r@ == self@.text(),
    {
        match self {
            Literal::String(s) => s.clone(),
            Literal::Number(s) => s.clone(),
            Literal::Bool(b) => {
                if *b {
                    String::from_str("true")
                } else {
                    String::from_str("false")
                }
            },
            Literal::Null => String::from_str("null"),
        }
    }
}

/// A classified lexical unit: its kind and its value.
#[derive(Debug)]
pub struct Token {
    pub token_type: TokenType,
    pub literal: Literal,
}

/// The mathematical value of a [`Token`].
pub struct TokenView {
    pub kind: TokenType,
    pub literal: LiteralView,
}

impl View for Token {
    type V = TokenView;

    open spec fn view(&self) -> TokenView {
        TokenView { kind: self.token_type, literal: self.literal@ }
    }
}

impl Clone for Token {
    fn clone(&self) -> (r: Token)
        ensures
            r@ == self@,
    {
        Token { token_type: self.token_type, literal: self.literal.clone() }
    }
}

impl Token {
    pub fn new(token_type: TokenType, literal: Literal) -> (r: Token)
        ensures
            r@ == (TokenView { kind: token_type, literal: literal@ }),
    {
        Token { token_type, literal }
    }
}

} // verus!
