//! The tokens of the textual format.
use vstd::prelude::*;
use crate::timed::time_range::Bound;
use crate::tina::reader::Position;

verus! {

/// A token with the place where it begins.
#[derive(PartialEq, Debug, Clone)]
pub struct Token {
    /// What the token is.
    pub kind: Kind,
    /// Where the token begins.
    pub position: Position,
}

/// The tokens of the textual format.
#[derive(PartialEq, Debug, Clone)]
pub enum Kind {
    /// The end of a line.
    NewLine,
    /// The keyword `net`.
    Net,
    /// The keyword `tr`.
    Transition,
    /// The keyword `pl`.
    Place,
    /// The keyword `nt`.
    Note,
    /// The keyword `lb`.
    Label,
    /// The keyword `pr`.
    Priority,
    /// A time interval such as `[0,w[`.
    TimeInterval(Bound, Bound),
    /// The mark `*` of a weighted arc.
    NormalArc,
    /// The mark `?` of a test arc.
    TestArc,
    /// The mark `?-` of an inhibitor arc.
    InhibitorArc,
    /// The mark `!` of a stopwatch arc.
    StopWatchArc,
    /// The mark `!-` of a stopwatch inhibitor arc.
    StopWatchInhibitorArc,
    /// A name, plain or in braces.
    Identifier(String),
    /// The colon before a label.
    InlineLabel,
    /// The arrow `->`.
    Arrow,
    /// A number: a marking or a weight.
    Int(usize),
    /// A comment, from `#` to the end of the line.
    Comment(String),
    /// The sign `>`.
    GreaterThan,
    /// The sign `<`.
    LessThan,
    /// The end of the text.
    EndOfFile,
}

/// What a token kind holds.
pub enum KindView {
    NewLine,
    Net,
    Transition,
    Place,
    Note,
    Label,
    Priority,
    TimeInterval(Bound, Bound),
    NormalArc,
    TestArc,
    InhibitorArc,
    StopWatchArc,
    StopWatchInhibitorArc,
    Identifier(Seq<char>),
    InlineLabel,
    Arrow,
    Int(usize),
    Comment(Seq<char>),
    GreaterThan,
    LessThan,
    EndOfFile,
}

/// What a token holds.
pub struct TokenView {
    /// What the token is.
    pub kind: KindView,
    /// Where the token begins.
    pub position: Position,
}

impl View for Kind {
    type V = KindView;

    open spec fn view(&self) -> KindView {
        match *self {
            Kind::NewLine => KindView::NewLine,
            Kind::Net => KindView::Net,
            Kind::Transition => KindView::Transition,
            Kind::Place => KindView::Place,
            Kind::Note => KindView::Note,
            Kind::Label => KindView::Label,
            Kind::Priority => KindView::Priority,
            Kind::TimeInterval(a, b) => KindView::TimeInterval(a, b),
            Kind::NormalArc => KindView::NormalArc,
            Kind::TestArc => KindView::TestArc,
            Kind::InhibitorArc => KindView::InhibitorArc,
            Kind::StopWatchArc => KindView::StopWatchArc,
            Kind::StopWatchInhibitorArc => KindView::StopWatchInhibitorArc,
            Kind::Identifier(s) => KindView::Identifier(s@),
            Kind::InlineLabel => KindView::InlineLabel,
            Kind::Arrow => KindView::Arrow,
            Kind::Int(v) => KindView::Int(v),
            Kind::Comment(s) => KindView::Comment(s@),
            Kind::GreaterThan => KindView::GreaterThan,
            Kind::LessThan => KindView::LessThan,
            Kind::EndOfFile => KindView::EndOfFile,
        }
    }
}

impl View for Token {
    type V = TokenView;

    open spec fn view(&self) -> TokenView {
        TokenView { kind: self.kind@, position: self.position }
    }
}

impl Kind {
    /// A copy of the token kind.
    pub fn duplicate(&self) -> (k: Kind)
        ensures
            k@ == self@,
    {
        match self {
            Kind::NewLine => Kind::NewLine,
            Kind::Net => Kind::Net,
            Kind::Transition => Kind::Transition,
            Kind::Place => Kind::Place,
            Kind::Note => Kind::Note,
            Kind::Label => Kind::Label,
            Kind::Priority => Kind::Priority,
            Kind::TimeInterval(a, b) => Kind::TimeInterval(*a, *b),
            Kind::NormalArc => Kind::NormalArc,
            Kind::TestArc => Kind::TestArc,
            Kind::InhibitorArc => Kind::InhibitorArc,
            Kind::StopWatchArc => Kind::StopWatchArc,
            Kind::StopWatchInhibitorArc => Kind::StopWatchInhibitorArc,
            Kind::Identifier(s) => Kind::Identifier(s.clone()),
            Kind::InlineLabel => Kind::InlineLabel,
            Kind::Arrow => Kind::Arrow,
            Kind::Int(v) => Kind::Int(*v),
            Kind::Comment(s) => Kind::Comment(s.clone()),
            Kind::GreaterThan => Kind::GreaterThan,
            Kind::LessThan => Kind::LessThan,
            Kind::EndOfFile => Kind::EndOfFile,
        }
    }
}

impl Token {
    /// A copy of the token.
    pub fn duplicate(&self) -> (t: Token)
        ensures
            t@ == self@,
    {
        Token { kind: self.kind.duplicate(), position: self.position }
    }
}

} // verus!
