//! What errors, arcs, bounds and tokens say of themselves.
use vstd::prelude::*;
use crate::arc;
use crate::errors::{NetError, NetErrorView};
use crate::text::{decimal, push_decimal, push_str, string_from_chars};
use crate::timed::time_range::Bound;
use crate::tina::errors::{ParserError, ParserErrorView};
use crate::tina::reader::Position;
use crate::tina::token::{Kind, KindView};

verus! {

/// What an arc says of itself. An arc that consumes names the transition before the place.
pub open spec fn arc_text(a: arc::Kind) -> Seq<char> {
    match a {
        arc::Kind::Consume(pl, tr, w) => "consume "@ + decimal(w as nat) + " from "@ + decimal(
            tr.0 as nat,
        ) + " for transition "@ + decimal(pl.0 as nat),
        arc::Kind::Produce(pl, tr, w) => "produce "@ + decimal(w as nat) + " in "@ + decimal(
            pl.0 as nat,
        ) + " for transition "@ + decimal(tr.0 as nat),
        arc::Kind::Test(pl, tr, w) => "test "@ + decimal(w as nat) + " from "@ + decimal(
            pl.0 as nat,
        ) + " for transition "@ + decimal(tr.0 as nat),
        arc::Kind::Inhibitor(pl, tr, w) => "Inhibit transition "@ + decimal(tr.0 as nat)
            + " when "@ + decimal(pl.0 as nat) + " contains more than "@ + decimal(w as nat),
        arc::Kind::StopWatch(pl, tr, w) => "stopwatch on place "@ + decimal(pl.0 as nat)
            + " with value "@ + decimal(w as nat) + " for transition "@ + decimal(tr.0 as nat),
        arc::Kind::StopWatchInhibitor(pl, tr, w) => "stopwatch inhibitor on place "@ + decimal(
            pl.0 as nat,
        ) + " with value "@ + decimal(w as nat) + " for transition "@ + decimal(tr.0 as nat),
    }
}

/// What an error of a net says of itself.
pub open spec fn net_error_text(e: NetErrorView) -> Seq<char> {
    match e {
        NetErrorView::CyclicPriorities => "Cyclic priorities in Petri net"@,
        NetErrorView::InvalidTimeRange => "Invalid time range found"@,
        NetErrorView::UnsupportedArc(a) => "Unsupported arc "@ + arc_text(a),
        NetErrorView::InvalidTransition(tr) => "Invalid transition id "@ + decimal(tr.0 as nat),
        NetErrorView::InvalidPlace(pl) => "Invalid place id "@ + decimal(pl.0 as nat),
        NetErrorView::DuplicatedName(name) => "You try to create duplicated name in the net: "@
            + name,
        NetErrorView::UnknownIdentifier(name) => "Identifier "@ + name + " not found in the net."@,
        NetErrorView::InvalidArc => "Invalid arc in the net"@,
    }
}

/// What a bound says of itself.
pub open spec fn bound_text(b: Bound) -> Seq<char> {
    match b {
        Bound::Closed(v) => "Close("@ + decimal(v as nat) + ")"@,
        Bound::Open(v) => "Open("@ + decimal(v as nat) + ")"@,
        Bound::Infinity => "Infinity"@,
    }
}

/// What a token says of itself.
pub open spec fn token_text(k: KindView) -> Seq<char> {
    match k {
        KindView::NewLine => "NewLine"@,
        KindView::Net => "Net"@,
        KindView::Transition => "Transition"@,
        KindView::Place => "Place"@,
        KindView::Note => "Note"@,
        KindView::Label => "Label"@,
        KindView::Priority => "Priority"@,
        KindView::TimeInterval(a, b) => "TimeInterval("@ + bound_text(a) + ","@ + bound_text(b)
            + ")"@,
        KindView::NormalArc => "NormalArc"@,
        KindView::TestArc => "TestArc"@,
        KindView::InhibitorArc => "InhibitorArc"@,
        KindView::StopWatchArc => "StopWatchArc"@,
        KindView::StopWatchInhibitorArc => "StopWatchInhibitorArc"@,
        KindView::Identifier(s) => "Identifier("@ + s + ")"@,
        KindView::InlineLabel => "InlineLabel"@,
        KindView::Arrow => "Arrow"@,
        KindView::Int(v) => "Int("@ + decimal(v as nat) + ")"@,
        KindView::Comment(c) => "Comment("@ + c + ")"@,
        KindView::GreaterThan => "GreaterThan"@,
        KindView::LessThan => "LessThan"@,
        KindView::EndOfFile => "EndOfFile"@,
    }
}

/// The line and the column of a place in a text, as errors name them.
pub open spec fn at_text(p: Position) -> Seq<char> {
    "line "@ + decimal(p.line as nat) + " column "@ + decimal(p.column as nat)
}

/// What an error of the parser says of itself.
pub open spec fn parser_error_text(e: ParserErrorView) -> Seq<char> {
    match e {
        ParserErrorView::Utf8Error(p) => "Invalid UTF8 char at "@ + at_text(p),
        ParserErrorView::InvalidChar(p, msg) => "Invalid char found at "@ + at_text(p) + ": "@
            + msg,
        ParserErrorView::UnexpectedToken(t, msg) => "Invalid token "@ + token_text(t.kind)
            + " found at "@ + at_text(t.position) + ": "@ + msg,
        ParserErrorView::UnexpectedIdentifier(p, msg) => "Unexpected identifier "@ + msg + " at "@
            + at_text(p),
        ParserErrorView::UnexpectedArc(p, k) => "Unexpected arc "@ + token_text(k) + " at "@
            + at_text(p),
        ParserErrorView::UnsupportedArc(p, a) => "Unsupported arc "@ + arc_text(a) + " at "@
            + at_text(p),
        ParserErrorView::Net(n) => net_error_text(n),
    }
}

/// Puts what the arc says of itself behind `out`.
fn push_arc(out: &mut Vec<char>, a: &arc::Kind)
    ensures
        final(out)@ == old(out)@ + arc_text(*a),
{
    match *a {
        arc::Kind::Consume(pl, tr, w) => {
            push_str(out, "consume ");
            push_decimal(out, w);
            push_str(out, " from ");
            push_decimal(out, tr.0);
            push_str(out, " for transition ");
            push_decimal(out, pl.0);
        },
        arc::Kind::Produce(pl, tr, w) => {
            push_str(out, "produce ");
            push_decimal(out, w);
            push_str(out, " in ");
            push_decimal(out, pl.0);
            push_str(out, " for transition ");
            push_decimal(out, tr.0);
        },
        arc::Kind::Test(pl, tr, w) => {
            push_str(out, "test ");
            push_decimal(out, w);
            push_str(out, " from ");
            push_decimal(out, pl.0);
            push_str(out, " for transition ");
            push_decimal(out, tr.0);
        },
        arc::Kind::Inhibitor(pl, tr, w) => {
            push_str(out, "Inhibit transition ");
            push_decimal(out, tr.0);
            push_str(out, " when ");
            push_decimal(out, pl.0);
            push_str(out, " contains more than ");
            push_decimal(out, w);
        },
        arc::Kind::StopWatch(pl, tr, w) => {
            push_str(out, "stopwatch on place ");
            push_decimal(out, pl.0);
            push_str(out, " with value ");
            push_decimal(out, w);
            push_str(out, " for transition ");
            push_decimal(out, tr.0);
        },
        arc::Kind::StopWatchInhibitor(pl, tr, w) => {
            push_str(out, "stopwatch inhibitor on place ");
            push_decimal(out, pl.0);
            push_str(out, " with value ");
            push_decimal(out, w);
            push_str(out, " for transition ");
            push_decimal(out, tr.0);
        },
    }
    proof {
        assert(out@ =~= old(out)@ + arc_text(*a));
    }
}

/// Puts what the error says of itself behind `out`.
fn push_net_error(out: &mut Vec<char>, e: &NetError)
    ensures
        final(out)@ == old(out)@ + net_error_text(e@),
{
    match e {
        NetError::CyclicPriorities => push_str(out, "Cyclic priorities in Petri net"),
        NetError::InvalidTimeRange => push_str(out, "Invalid time range found"),
        NetError::UnsupportedArc(a) => {
            push_str(out, "Unsupported arc ");
            push_arc(out, a);
        },
        NetError::InvalidTransition(tr) => {
            push_str(out, "Invalid transition id ");
            push_decimal(out, tr.0);
        },
        NetError::InvalidPlace(pl) => {
            push_str(out, "Invalid place id ");
            push_decimal(out, pl.0);
        },
        NetError::DuplicatedName(name) => {
            push_str(out, "You try to create duplicated name in the net: ");
            push_str(out, name.as_str());
        },
        NetError::UnknownIdentifier(name) => {
            push_str(out, "Identifier ");
            push_str(out, name.as_str());
            push_str(out, " not found in the net.");
        },
        NetError::InvalidArc => push_str(out, "Invalid arc in the net"),
    }
    proof {
        assert(out@ =~= old(out)@ + net_error_text(e@));
    }
}

/// Puts what the bound says of itself behind `out`.
fn push_bound(out: &mut Vec<char>, b: Bound)
    ensures
        final(out)@ == old(out)@ + bound_text(b),
{
    match b {
        Bound::Closed(v) => {
            push_str(out, "Close(");
            push_decimal(out, v);
            push_str(out, ")");
        },
        Bound::Open(v) => {
            push_str(out, "Open(");
            push_decimal(out, v);
            push_str(out, ")");
        },
        Bound::Infinity => push_str(out, "Infinity"),
    }
    proof {
        assert(out@ =~= old(out)@ + bound_text(b));
    }
}

/// Puts what the token says of itself behind `out`.
fn push_token(out: &mut Vec<char>, k: &Kind)
    ensures
        final(out)@ == old(out)@ + token_text(k@),
{
    match k {
        Kind::NewLine => push_str(out, "NewLine"),
        Kind::Net => push_str(out, "Net"),
        Kind::Transition => push_str(out, "Transition"),
        Kind::Place => push_str(out, "Place"),
        Kind::Note => push_str(out, "Note"),
        Kind::Label => push_str(out, "Label"),
        Kind::Priority => push_str(out, "Priority"),
        Kind::TimeInterval(a, b) => {
            push_str(out, "TimeInterval(");
            push_bound(out, *a);
            push_str(out, ",");
            push_bound(out, *b);
            push_str(out, ")");
        },
        Kind::NormalArc => push_str(out, "NormalArc"),
        Kind::TestArc => push_str(out, "TestArc"),
        Kind::InhibitorArc => push_str(out, "InhibitorArc"),
        Kind::StopWatchArc => push_str(out, "StopWatchArc"),
        Kind::StopWatchInhibitorArc => push_str(out, "StopWatchInhibitorArc"),
        Kind::Identifier(s) => {
            push_str(out, "Identifier(");
            push_str(out, s.as_str());
            push_str(out, ")");
        },
        Kind::InlineLabel => push_str(out, "InlineLabel"),
        Kind::Arrow => push_str(out, "Arrow"),
        Kind::Int(v) => {
            push_str(out, "Int(");
            push_decimal(out, *v);
            push_str(out, ")");
        },
        Kind::Comment(c) => {
            push_str(out, "Comment(");
            push_str(out, c.as_str());
            push_str(out, ")");
        },
        Kind::GreaterThan => push_str(out, "GreaterThan"),
        Kind::LessThan => push_str(out, "LessThan"),
        Kind::EndOfFile => push_str(out, "EndOfFile"),
    }
    proof {
        assert(out@ =~= old(out)@ + token_text(k@));
    }
}

/// Puts the line and the column behind `out`.
fn push_at(out: &mut Vec<char>, p: Position)
    ensures
        final(out)@ == old(out)@ + at_text(p),
{
    push_str(out, "line ");
    push_decimal(out, p.line);
    push_str(out, " column ");
    push_decimal(out, p.column);
    proof {
        assert(out@ =~= old(out)@ + at_text(p));
    }
}

impl arc::Kind {
    /// What the arc says of itself.
    pub fn to_string(&self) -> (s: String)
        ensures
            s@ == arc_text(*self),
    {
        let mut out: Vec<char> = Vec::new();
        push_arc(&mut out, self);
        proof {
            assert(Seq::<char>::empty() + arc_text(*self) =~= arc_text(*self));
        }
        string_from_chars(&out)
    }
}

impl NetError {
    /// What the error says of itself.
    pub fn to_string(&self) -> (s: String)
        ensures
            s@ == net_error_text(self@),
    {
        let mut out: Vec<char> = Vec::new();
        push_net_error(&mut out, self);
        proof {
            assert(Seq::<char>::empty() + net_error_text(self@) =~= net_error_text(self@));
        }
        string_from_chars(&out)
    }
}

impl Bound {
    /// What the bound says of itself.
    pub fn to_string(&self) -> (s: String)
        ensures
            s@ == bound_text(*self),
    {
        let mut out: Vec<char> = Vec::new();
        push_bound(&mut out, *self);
        proof {
            assert(Seq::<char>::empty() + bound_text(*self) =~= bound_text(*self));
        }
        string_from_chars(&out)
    }
}

impl Kind {
    /// What the token says of itself.
    pub fn to_string(&self) -> (s: String)
        ensures
            s@ == token_text(self@),
    {
        let mut out: Vec<char> = Vec::new();
        push_token(&mut out, self);
        proof {
            assert(Seq::<char>::empty() + token_text(self@) =~= token_text(self@));
        }
        string_from_chars(&out)
    }
}

impl ParserError {
    /// What the error says of itself.
    pub fn to_string(&self) -> (s: String)
        ensures
            s@ == parser_error_text(self@),
    {
        let mut out: Vec<char> = Vec::new();
        match self {
            ParserError::Utf8Error(p) => {
                push_str(&mut out, "Invalid UTF8 char at ");
                push_at(&mut out, *p);
            },
            ParserError::InvalidChar(p, msg) => {
                push_str(&mut out, "Invalid char found at ");
                push_at(&mut out, *p);
                push_str(&mut out, ": ");
                push_str(&mut out, msg.as_str());
            },
            ParserError::UnexpectedToken(t, msg) => {
                push_str(&mut out, "Invalid token ");
                push_token(&mut out, &t.kind);
                push_str(&mut out, " found at ");
                push_at(&mut out, t.position);
                push_str(&mut out, ": ");
                push_str(&mut out, msg.as_str());
            },
            ParserError::UnexpectedIdentifier(p, msg) => {
                push_str(&mut out, "Unexpected identifier ");
                push_str(&mut out, msg.as_str());
                push_str(&mut out, " at ");
                push_at(&mut out, *p);
            },
            ParserError::UnexpectedArc(p, k) => {
                push_str(&mut out, "Unexpected arc ");
                push_token(&mut out, k);
                push_str(&mut out, " at ");
                push_at(&mut out, *p);
            },
            ParserError::UnsupportedArc(p, a) => {
                push_str(&mut out, "Unsupported arc ");
                push_arc(&mut out, a);
                push_str(&mut out, " at ");
                push_at(&mut out, *p);
            },
            ParserError::Net(e) => {
                push_net_error(&mut out, e);
            },
        }
        proof {
            assert(out@ =~= parser_error_text(self@));
        }
        string_from_chars(&out)
    }
}

} // verus!
