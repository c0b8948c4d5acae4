//! The positional error model: each parse failure carries the offending
//! line together with enough context to point at the exact place where a
//! rule was violated.
//!
//! Offsets index the line's sequence of Unicode scalar values.  Building an
//! offset-based error with an offset outside the line is a programming
//! error, not bad input, so the constructors demand a valid offset in their
//! preconditions instead of failing at run time.

use vstd::prelude::*;

use crate::chars::valid_ident;

verus! {

/// The mathematical content of an [`ExpectedIdentifier`] error.
pub struct ExpectedIdentifierView {
    pub line: Seq<char>,
    pub index: int,
}

/// An identifier was expected at `index` but none was found.
#[derive(Debug)]
pub struct ExpectedIdentifier {
    line: String,
    index: usize,
}

impl View for ExpectedIdentifier {
    type V = ExpectedIdentifierView;

    closed spec fn view(&self) -> ExpectedIdentifierView {
        ExpectedIdentifierView { line: self.line@, index: self.index as int }
    }
}

impl ExpectedIdentifier {
    /// Creates a new `ExpectedIdentifier` error pointing at `index` in
    /// `line`, which must be a position inside the line or its end.
    pub fn new(line: String, index: usize) -> (r: ExpectedIdentifier)
        requires
            index <= line@.len(),
        ensures
            r@.line == line@,
            r@.index == index,
    {
        ExpectedIdentifier { line, index }
    }

    /// The line where the error occurred.
    pub fn line(&self) -> (r: &String)
        ensures
            r@ == self@.line,
    {
        &self.line
    }

    /// The offset where the identifier was expected.
    pub fn index(&self) -> (r: usize)
        ensures
            r == self@.index,
    {
        self.index
    }
}

/// The mathematical content of an [`ExpectedToken`] error.
pub struct ExpectedTokenView {
    pub line: Seq<char>,
    pub index: int,
    pub tokens: Seq<char>,
}

/// A specific token (described by `tokens`) was expected at `index` but was
/// not found.
#[derive(Debug)]
pub struct ExpectedToken {
    line: String,
    index: usize,
    tokens: String,
}

impl View for ExpectedToken {
    type V = ExpectedTokenView;

    closed spec fn view(&self) -> ExpectedTokenView {
        ExpectedTokenView { line: self.line@, index: self.index as int, tokens: self.tokens@ }
    }
}

impl ExpectedToken {
    /// Creates a new `ExpectedToken` error pointing at `index` in `line`,
    /// which must be a position inside the line or its end; `tokens`
    /// describes the expected token for the end user.
    pub fn new(line: String, index: usize, tokens: String) -> (r: ExpectedToken)
        requires
            index <= line@.len(),
        ensures
            r@.line == line@,
            r@.index == index,
            r@.tokens == tokens@,
    {
        ExpectedToken { line, index, tokens }
    }

    /// The line where the error occurred.
    pub fn line(&self) -> (r: &String)
        ensures
            r@ == self@.line,
    {
        &self.line
    }

    /// The offset where the token was expected.
    pub fn index(&self) -> (r: usize)
        ensures
            r == self@.index,
    {
        self.index
    }

    /// The description of the expected token.
    pub fn tokens(&self) -> (r: &String)
        ensures
            r@ == self@.tokens,
    {
        &self.tokens
    }
}

/// The mathematical content of an [`ExpectedEscape`] error.
pub struct ExpectedEscapeView {
    pub line: Seq<char>,
    pub index: int,
    pub token: char,
    pub replace: Seq<char>,
}

/// A character that must be escaped stood unescaped at `index`; `replace`
/// is the escape sequence that should be used in its place.
#[derive(Debug)]
pub struct ExpectedEscape {
    line: String,
    index: usize,
    token: char,
    replace: String,
}

impl View for ExpectedEscape {
    type V = ExpectedEscapeView;

    closed spec fn view(&self) -> ExpectedEscapeView {
        ExpectedEscapeView {
            line: self.line@,
            index: self.index as int,
            token: self.token@,
            replace: self.replace@,
        }
    }
}

impl ExpectedEscape {
    /// Creates a new `ExpectedEscape` error pointing at `index` in `line`,
    /// which must be a character position inside the line; the offending
    /// character is read from the line itself.
    pub fn new(line: String, index: usize, replace: String) -> (r: ExpectedEscape)
        requires
            index < line@.len(),
        ensures
            r@.line == line@,
            r@.index == index,
            r@.token == line@[index as int],
            r@.replace == replace@,
    {
        let token = line.as_str().get_char(index);
        ExpectedEscape { line, index, token, replace }
    }

    /// The line where the error occurred.
    pub fn line(&self) -> (r: &String)
        ensures
            r@ == self@.line,
    {
        &self.line
    }

    /// The offset of the offending character.
    pub fn index(&self) -> (r: usize)
        ensures
            r == self@.index,
    {
        self.index
    }

    /// The offending character.
    pub fn token(&self) -> (r: char)
        ensures
            r == self@.token,
    {
        self.token
    }

    /// The escape sequence that should stand in its place.
    pub fn replace(&self) -> (r: &String)
        ensures
            r@ == self@.replace,
    {
        &self.replace
    }
}

/// The mathematical content of an [`UnexpectedToken`] error.
pub struct UnexpectedTokenView {
    pub line: Seq<char>,
    pub index: int,
    pub token: char,
}

/// A character stood at `index` where nothing more was expected.
#[derive(Debug)]
pub struct UnexpectedToken {
    line: String,
    index: usize,
    token: char,
}

impl View for UnexpectedToken {
    type V = UnexpectedTokenView;

    closed spec fn view(&self) -> UnexpectedTokenView {
        UnexpectedTokenView { line: self.line@, index: self.index as int, token: self.token@ }
    }
}

impl UnexpectedToken {
    /// Creates a new `UnexpectedToken` error pointing at `index` in `line`,
    /// which must be a character position inside the line; the offending
    /// character is read from the line itself.
    pub fn new(line: String, index: usize) -> (r: UnexpectedToken)
        requires
            index < line@.len(),
        ensures
            r@.line == line@,
            r@.index == index,
            r@.token == line@[index as int],
    {
        let token = line.as_str().get_char(index);
        UnexpectedToken { line, index, token }
    }

    /// The line where the error occurred.
    pub fn line(&self) -> (r: &String)
        ensures
            r@ == self@.line,
    {
        &self.line
    }

    /// The offset of the unexpected character.
    pub fn index(&self) -> (r: usize)
        ensures
            r == self@.index,
    {
        self.index
    }

    /// The unexpected character.
    pub fn token(&self) -> (r: char)
        ensures
            r == self@.token,
    {
        self.token
    }
}

/// The mathematical content of an [`InvalidEscape`] error.
pub struct InvalidEscapeView {
    pub line: Seq<char>,
    pub escape: Seq<char>,
}

/// An escape sequence in `line` matches no known escape form; `escape` is
/// the offending sequence text.
#[derive(Debug)]
pub struct InvalidEscape {
    line: String,
    escape: String,
}

impl View for InvalidEscape {
    type V = InvalidEscapeView;

    closed spec fn view(&self) -> InvalidEscapeView {
        InvalidEscapeView { line: self.line@, escape: self.escape@ }
    }
}

impl InvalidEscape {
    /// Creates a new `InvalidEscape` error for the sequence `escape` found
    /// in `line`.
    pub fn new(line: String, escape: String) -> (r: InvalidEscape)
        ensures
            r@.line == line@,
            r@.escape == escape@,
    {
        InvalidEscape { line, escape }
    }

    /// The line where the error occurred.
    pub fn line(&self) -> (r: &String)
        ensures
            r@ == self@.line,
    {
        &self.line
    }

    /// The offending escape sequence.
    pub fn escape(&self) -> (r: &String)
        ensures
            r@ == self@.escape,
    {
        &self.escape
    }
}

/// The mathematical content of an [`InvalidIdentifier`] error.
pub struct InvalidIdentifierView {
    pub line: Seq<char>,
    pub ident: Seq<char>,
}

/// A candidate identifier in `line` breaks the identifier grammar; `ident`
/// is the offending text.
#[derive(Debug)]
pub struct InvalidIdentifier {
    line: String,
    ident: String,
}

impl View for InvalidIdentifier {
    type V = InvalidIdentifierView;

    closed spec fn view(&self) -> InvalidIdentifierView {
        InvalidIdentifierView { line: self.line@, ident: self.ident@ }
    }
}

impl InvalidIdentifier {
    /// Creates a new `InvalidIdentifier` error for the candidate
    /// `identifier` found in `line`; the candidate must indeed be invalid.
    pub fn new(line: String, identifier: String) -> (r: InvalidIdentifier)
        requires
            !valid_ident(identifier@),
        ensures
            r@.line == line@,
            r@.ident == identifier@,
    {
        InvalidIdentifier { line, ident: identifier }
    }

    /// The line where the error occurred.
    pub fn line(&self) -> (r: &String)
        ensures
            r@ == self@.line,
    {
        &self.line
    }

    /// The offending candidate identifier.
    pub fn ident(&self) -> (r: &String)
        ensures
            r@ == self@.ident,
    {
        &self.ident
    }
}

/// The mathematical content of an [`Error`].
pub enum ErrorView {
    ExpectedIdentifier(ExpectedIdentifierView),
    ExpectedToken(ExpectedTokenView),
    ExpectedEscape(ExpectedEscapeView),
    UnexpectedToken(UnexpectedTokenView),
    InvalidEscape(InvalidEscapeView),
    InvalidIdentifier(InvalidIdentifierView),
}

/// A positioned parse error: one of the six diagnostic kinds.
#[derive(Debug)]
pub enum Error {
    ExpectedIdentifier(ExpectedIdentifier),
    ExpectedToken(ExpectedToken),
    ExpectedEscape(ExpectedEscape),
    UnexpectedToken(UnexpectedToken),
    InvalidEscape(InvalidEscape),
    InvalidIdentifier(InvalidIdentifier),
}

impl View for Error {
    type V = ErrorView;

    open spec fn view(&self) -> ErrorView {
        match self {
            Error::ExpectedIdentifier(e) => ErrorView::ExpectedIdentifier(e@),
            Error::ExpectedToken(e) => ErrorView::ExpectedToken(e@),
            Error::ExpectedEscape(e) => ErrorView::ExpectedEscape(e@),
            Error::UnexpectedToken(e) => ErrorView::UnexpectedToken(e@),
            Error::InvalidEscape(e) => ErrorView::InvalidEscape(e@),
            Error::InvalidIdentifier(e) => ErrorView::InvalidIdentifier(e@),
        }
    }
}

} // verus!
