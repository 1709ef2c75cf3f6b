//! Tokens of an ACF document and the errors of a conversion.

use vstd::prelude::*;

verus! {

/// One lexical unit of an ACF document.
#[derive(Clone, Debug, PartialEq, Eq)]
pub enum AcfToken {
    /// A quoted literal; the text between the quotes, taken verbatim.
    String(String),
    /// The character `{`.
    DictStart,
    /// The character `}`.
    DictEnd,
}

/// The mathematical model of a token: its text as a sequence of characters.
pub enum TokenView {
    Str(Seq<char>),
    DictStart,
    DictEnd,
}

impl View for AcfToken {
    type V = TokenView;

    open spec fn view(&self) -> TokenView {
        match self {
            AcfToken::String(s) => TokenView::Str(s@),
            AcfToken::DictStart => TokenView::DictStart,
            AcfToken::DictEnd => TokenView::DictEnd,
        }
    }
}

/// What can go wrong while reading tokens or writing JSON.
#[derive(Clone, Debug, PartialEq, Eq)]
pub enum ParseError {
    /// The input is not valid UTF-8, or ends inside a multi-byte character.
    InvalidEncoding,
    /// A character other than whitespace, `{`, `}` or `"` stands between tokens.
    UnexpectedCharacter(char),
    /// The input ends inside a quoted literal.
    UnterminatedString,
    /// A token stands where the grammar does not allow it.
    UnexpectedToken(AcfToken),
    /// The tokens end where a value is required.
    UnexpectedEof,
}

/// The mathematical model of an error.
pub enum ErrorView {
    InvalidEncoding,
    UnexpectedCharacter(char),
    UnterminatedString,
    UnexpectedToken(TokenView),
    UnexpectedEof,
}

impl View for ParseError {
    type V = ErrorView;

    open spec fn view(&self) -> ErrorView {
        match self {
            ParseError::InvalidEncoding => ErrorView::InvalidEncoding,
            ParseError::UnexpectedCharacter(c) => ErrorView::UnexpectedCharacter(*c),
            ParseError::UnterminatedString => ErrorView::UnterminatedString,
            ParseError::UnexpectedToken(t) => ErrorView::UnexpectedToken(t@),
            ParseError::UnexpectedEof => ErrorView::UnexpectedEof,
        }
    }
}

/// What a token source hands out at one step: a token or an error.
pub type ItemView = Result<TokenView, ErrorView>;

/// The model of one item pulled from a token source.
pub open spec fn item_view(r: Result<AcfToken, ParseError>) -> ItemView {
    match r {
        Ok(t) => Ok(t@),
        Err(e) => Err(e@),
    }
}

} // verus!
