//! The lexical units that the scanner produces and the parser consumes.
use vstd::prelude::*;

verus! {

/// One lexical unit of a reef program.
#[derive(Debug, Clone)]
pub enum Token {
    /// A `-- ...` comment; the scanner drops comments, so it never emits one.
    Comment(String),
    /// The text between two double quotes.
    String(String),
    Keyword(String),
    /// The digits and dots of a number literal, not yet converted.
    Number(String),
    Identifier(String),
    /// One of `. , ; : { } ( )`.
    Delimiter(char),
    /// One of `+ - * /`.
    BinaryOperator(char),
    /// One of `< >`.
    ComparisonOperator(char),
    Equals,
    EndOfFile,
}

/// The mathematical value of a [`Token`]: texts become character sequences.
pub enum TokenView {
    Comment(Seq<char>),
    Str(Seq<char>),
    Keyword(Seq<char>),
    Number(Seq<char>),
    Identifier(Seq<char>),
    Delimiter(char),
    BinaryOperator(char),
    ComparisonOperator(char),
    Equals,
    EndOfFile,
}

impl View for Token {
    type V = TokenView;

    open spec fn view(&self) -> TokenView {
        match self {
            Token::Comment(s) => TokenView::Comment(s@),
            Token::String(s) => TokenView::Str(s@),
            Token::Keyword(s) => TokenView::Keyword(s@),
            Token::Number(s) => TokenView::Number(s@),
            Token::Identifier(s) => TokenView::Identifier(s@),
            Token::Delimiter(c) => TokenView::Delimiter(*c),
            Token::BinaryOperator(c) => TokenView::BinaryOperator(*c),
            Token::ComparisonOperator(c) => TokenView::ComparisonOperator(*c),
            Token::Equals => TokenView::Equals,
            Token::EndOfFile => TokenView::EndOfFile,
        }
    }
}

/// Two tokens are equal when they are of one kind and hold the same text or
/// character.
impl PartialEq for Token {
    fn eq(&self, other: &Token) -> (r: bool) {
        match (self, other) {
            (Token::Comment(a), Token::Comment(b)) => *a == *b,
            (Token::String(a), Token::String(b)) => *a == *b,
            (Token::Keyword(a), Token::Keyword(b)) => *a == *b,
            (Token::Number(a), Token::Number(b)) => *a == *b,
            (Token::Identifier(a), Token::Identifier(b)) => *a == *b,
            (Token::Delimiter(a), Token::Delimiter(b)) => *a == *b,
            (Token::BinaryOperator(a), Token::BinaryOperator(b)) => *a == *b,
            (Token::ComparisonOperator(a), Token::ComparisonOperator(b)) => *a == *b,
            (Token::Equals, Token::Equals) => true,
            (Token::EndOfFile, Token::EndOfFile) => true,
            _ => false,
        }
    }
}

impl vstd::std_specs::cmp::PartialEqSpecImpl for Token {
    open spec fn obeys_eq_spec() -> bool {
        true
    }

    open spec fn eq_spec(&self, other: &Token) -> bool {
        self@ == other@
    }
}

/// The tag of a token, without its text.
#[derive(Debug, Clone, Copy, PartialEq, Eq, Structural)]
pub enum TokenType {
    Comment,
    String,
    Keyword,
    Number,
    Identifier,
    Delimiter,
    BinaryOperator,
    ComparisonOperator,
    Equals,
    EndOfFile,
}

/// Whether tokens of this kind carry a single character rather than a text.
pub open spec fn carries_char(kind: TokenType) -> bool {
    kind == TokenType::Delimiter || kind == TokenType::BinaryOperator || kind
        == TokenType::ComparisonOperator
}

/// The token of the given kind whose text is `value`; `None` where the kind
/// carries one character and `value` is not exactly one character long.
pub open spec fn token_of(kind: TokenType, value: Seq<char>) -> Option<TokenView> {
    if carries_char(kind) && value.len() != 1 {
        None
    } else {
        Some(
            match kind {
                TokenType::Comment => TokenView::Comment(value),
                TokenType::String => TokenView::Str(value),
                TokenType::Keyword => TokenView::Keyword(value),
                TokenType::Number => TokenView::Number(value),
                TokenType::Identifier => TokenView::Identifier(value),
                TokenType::Delimiter => TokenView::Delimiter(value[0]),
                TokenType::BinaryOperator => TokenView::BinaryOperator(value[0]),
                TokenType::ComparisonOperator => TokenView::ComparisonOperator(value[0]),
                TokenType::Equals => TokenView::Equals,
                TokenType::EndOfFile => TokenView::EndOfFile,
            },
        )
    }
}

/// The kind of a token value.
pub open spec fn kind_of(t: TokenView) -> TokenType {
    match t {
        TokenView::Comment(_) => TokenType::Comment,
        TokenView::Str(_) => TokenType::String,
        TokenView::Keyword(_) => TokenType::Keyword,
        TokenView::Number(_) => TokenType::Number,
        TokenView::Identifier(_) => TokenType::Identifier,
        TokenView::Delimiter(_) => TokenType::Delimiter,
        TokenView::BinaryOperator(_) => TokenType::BinaryOperator,
        TokenView::ComparisonOperator(_) => TokenType::ComparisonOperator,
        TokenView::Equals => TokenType::Equals,
        TokenView::EndOfFile => TokenType::EndOfFile,
    }
}

impl Token {
    /// Builds the token of kind `kind` from its text.
    pub fn new(kind: TokenType, value: String) -> (r: Option<Token>)
        ensures
            r matches Some(t) ==> Some(t@) == token_of(kind, value@),
            r is None <==> token_of(kind, value@) is None,
    {
        let single = value.as_str().unicode_len() == 1;
        match kind {
            TokenType::Comment => Some(Token::Comment(value)),
            TokenType::String => Some(Token::String(value)),
            TokenType::Keyword => Some(Token::Keyword(value)),
            TokenType::Number => Some(Token::Number(value)),
            TokenType::Identifier => Some(Token::Identifier(value)),
            TokenType::Equals => Some(Token::Equals),
            TokenType::EndOfFile => Some(Token::EndOfFile),
            TokenType::Delimiter => {
                if single {
                    Some(Token::Delimiter(value.as_str().get_char(0)))
                } else {
                    None
                }
            },
            TokenType::BinaryOperator => {
                if single {
                    Some(Token::BinaryOperator(value.as_str().get_char(0)))
                } else {
                    None
                }
            },
            TokenType::ComparisonOperator => {
                if single {
                    Some(Token::ComparisonOperator(value.as_str().get_char(0)))
                } else {
                    None
                }
            },
        }
    }

    /// The kind of this token.
    pub fn kind(&self) -> (r: TokenType)
        ensures
            r == kind_of(self@),
    {
        match self {
            Token::Comment(_) => TokenType::Comment,
            Token::String(_) => TokenType::String,
            Token::Keyword(_) => TokenType::Keyword,
            Token::Number(_) => TokenType::Number,
            Token::Identifier(_) => TokenType::Identifier,
            Token::Delimiter(_) => TokenType::Delimiter,
            Token::BinaryOperator(_) => TokenType::BinaryOperator,
            Token::ComparisonOperator(_) => TokenType::ComparisonOperator,
            Token::Equals => TokenType::Equals,
            Token::EndOfFile => TokenType::EndOfFile,
        }
    }
}

} // verus!
