//! What can go wrong when the textual format is read.
use vstd::prelude::*;
use crate::arc;
use crate::errors::{NetError, NetErrorView};
use crate::tina::reader::Position;
use crate::tina::token;

verus! {

/// An error raised while a text is read into a net.
#[derive(Debug, PartialEq)]
pub enum ParserError {
    /// The bytes at this place are no character.
    Utf8Error(Position),
    /// A character that cannot stand at this place; the string says what was expected.
    InvalidChar(Position, String),
    /// A token that cannot stand at this place; the string says what was expected.
    UnexpectedToken(token::Token, String),
    /// A name that cannot stand at this place.
    UnexpectedIdentifier(Position, String),
    /// An arc mark that cannot stand at this place.
    UnexpectedArc(Position, token::Kind),
    /// An arc that the net does not take.
    UnsupportedArc(Position, arc::Kind),
    /// The net refused what the text asks for.
    Net(NetError),
}


/// What an error holds.
pub enum ParserErrorView {
    Utf8Error(Position),
    InvalidChar(Position, Seq<char>),
    UnexpectedToken(token::TokenView, Seq<char>),
    UnexpectedIdentifier(Position, Seq<char>),
    UnexpectedArc(Position, token::KindView),
    UnsupportedArc(Position, arc::Kind),
    Net(NetErrorView),
}

impl View for ParserError {
    type V = ParserErrorView;

    open spec fn view(&self) -> ParserErrorView {
        match *self {
            ParserError::Utf8Error(p) => ParserErrorView::Utf8Error(p),
            ParserError::InvalidChar(p, s) => ParserErrorView::InvalidChar(p, s@),
            ParserError::UnexpectedToken(t, s) => ParserErrorView::UnexpectedToken(t@, s@),
            ParserError::UnexpectedIdentifier(p, s) => ParserErrorView::UnexpectedIdentifier(p, s@),
            ParserError::UnexpectedArc(p, k) => ParserErrorView::UnexpectedArc(p, k@),
            ParserError::UnsupportedArc(p, a) => ParserErrorView::UnsupportedArc(p, a),
            ParserError::Net(e) => ParserErrorView::Net(e@),
        }
    }
}

} // verus!
