//! Reading a text into a timed net.
use vstd::prelude::*;
use crate::arc;
use crate::errors::{NetError, NetErrorView};
use crate::ids::{NodeId, PlaceId, TransitionId};
use crate::timed::net::{Net, NetView};
use crate::timed::place::PlaceView;
use crate::timed::time_range::TimeRange;
use crate::timed::transition::TransitionView;
use crate::tina::errors::{ParserError, ParserErrorView};
use crate::tina::lexer::{Lexer, LexerView};
use crate::tina::token::{Kind, KindView, Token, TokenView};

verus! {

/// Where a parser stands: the tokens that are left, and the net that was built.
pub struct ParserView {
    /// The lexer.
    pub lexer: LexerView,
    /// The net.
    pub net: NetView,
}

/// What a step of the parser gives on the net alone.
pub type Built<T> = Result<(T, NetView), ParserErrorView>;

/// What a step of the parser gives on the tokens alone.
pub type Cut<T> = Result<(T, LexerView), ParserErrorView>;

/// What a step of the parser gives.
pub type Parsed = Result<ParserView, ParserErrorView>;

/// What is said where a name is missing.
pub open spec fn identifier_expected() -> Seq<char> {
    "Expected TokenKind::Identifier(_)"@
}

/// What is said where a number is missing.
pub open spec fn int_expected() -> Seq<char> {
    "Expected TokenKind::Int(_)"@
}

/// What is said where the arrow is missing.
pub open spec fn arrow_expected() -> Seq<char> {
    "Expected TokenKind::Arrow"@
}

/// What is said where an arc is missing.
pub open spec fn arc_expected() -> Seq<char> {
    "Expected TokenKind::Arc*"@
}

/// What is said where the direction of a priority is missing.
pub open spec fn order_expected() -> Seq<char> {
    "Expected TokenKind::GreaterThan or TokenKind::LessThan"@
}

/// What is said of a token that begins no line.
pub open spec fn line_expected() -> Seq<char> {
    "This token can not start a line"@
}

/// The error of a net, as the parser hands it on.
pub open spec fn refused(e: NetErrorView) -> ParserErrorView {
    ParserErrorView::Net(e)
}

/// The transition that bears `name`; a new one if no node bears it.
pub open spec fn transition_named(net: NetView, name: Seq<char>) -> Built<TransitionId> {
    match net.names.index_of(name) {
        Some(NodeId::Transition(id)) => Ok((id, net)),
        Some(NodeId::Place(_)) => Err(refused(NetErrorView::DuplicatedName(name))),
        None => if net.transitions.len() >= usize::MAX {
            Err(refused(NetErrorView::InvalidTransition(TransitionId(usize::MAX))))
        } else {
            let tr = TransitionId(net.transitions.len() as usize);
            Ok((tr, net.create_transition().rename_node(NodeId::Transition(tr), name)))
        },
    }
}

/// The place that bears `name`; a new one if no node bears it.
pub open spec fn place_named(net: NetView, name: Seq<char>) -> Built<PlaceId> {
    match net.names.index_of(name) {
        Some(NodeId::Place(id)) => Ok((id, net)),
        Some(NodeId::Transition(_)) => Err(refused(NetErrorView::DuplicatedName(name))),
        None => if net.places.len() >= usize::MAX {
            Err(refused(NetErrorView::InvalidPlace(PlaceId(usize::MAX))))
        } else {
            let pl = PlaceId(net.places.len() as usize);
            Ok((pl, net.create_place().rename_node(NodeId::Place(pl), name)))
        },
    }
}

/// The net in which the node `id` has the label `label`.
pub open spec fn labelled(net: NetView, id: NodeId, label: Seq<char>) -> NetView {
    match id {
        NodeId::Place(pl) => NetView {
            places: net.places.update(
                pl.0 as int,
                PlaceView { label: Some(label), ..net.places[pl.0 as int] },
            ),
            ..net
        },
        NodeId::Transition(tr) => NetView {
            transitions: net.transitions.update(
                tr.0 as int,
                TransitionView { label: Some(label), ..net.transitions[tr.0 as int] },
            ),
            ..net
        },
    }
}

/// The net in which the time range of `tr` is narrowed to `range`.
pub open spec fn timed(net: NetView, tr: TransitionId, range: TimeRange) -> NetView {
    NetView {
        transitions: net.transitions.update(
            tr.0 as int,
            TransitionView {
                time: net.transitions[tr.0 as int].time.meet(range),
                ..net.transitions[tr.0 as int]
            },
        ),
        ..net
    }
}

/// The net in which the place `pl` starts with `more` tokens more.
pub open spec fn marked(net: NetView, pl: PlaceId, more: usize) -> NetView {
    NetView {
        places: net.places.update(
            pl.0 as int,
            PlaceView {
                initial: (net.places[pl.0 as int].initial + more) as usize,
                ..net.places[pl.0 as int]
            },
        ),
        ..net
    }
}

/// The net with the arc, if the net takes it.
#[verifier::opaque]
pub open spec fn with_arc(net: NetView, arc: arc::Kind) -> Result<NetView, ParserErrorView> {
    if !net.can_add(arc) {
        Err(refused(NetErrorView::InvalidArc))
    } else if arc is StopWatch || arc is StopWatchInhibitor {
        Err(refused(NetErrorView::UnsupportedArc(arc)))
    } else {
        Ok(net.add_arc(arc))
    }
}

/// Reads a token that must be a name.
pub open spec fn name(l: LexerView) -> Cut<Seq<char>> {
    match l.read() {
        Err(e) => Err(e),
        Ok((t, l2)) => match t.kind {
            KindView::Identifier(n) => Ok((n, l2)),
            _ => Err(ParserErrorView::UnexpectedToken(t, identifier_expected())),
        },
    }
}

/// Reads a token that must be a number.
pub open spec fn number(l: LexerView) -> Cut<usize> {
    match l.peek() {
        Err(e) => Err(e),
        Ok((t, l1)) => match t.kind {
            KindView::Int(v) => match l1.read() {
                Err(e) => Err(e),
                Ok((_, l2)) => Ok((v, l2)),
            },
            _ => Err(ParserErrorView::UnexpectedToken(l1.current, int_expected())),
        },
    }
}

/// Reads a token that must be the arrow.
pub open spec fn arrow(l: LexerView) -> Cut<()> {
    match l.read() {
        Err(e) => Err(e),
        Ok((t, l2)) => if t.kind is Arrow {
            Ok(((), l2))
        } else {
            Err(ParserErrorView::UnexpectedToken(t, arrow_expected()))
        },
    }
}

/// The weight that stands behind an arc mark.
pub open spec fn weight_behind_mark(l: LexerView) -> Cut<usize> {
    match l.read() {
        Err(e) => Err(e),
        Ok((_, l2)) => number(l2),
    }
}

/// A token behind which the arc of a name has the weight one and no mark.
pub open spec fn ends_plain_arc(k: KindView) -> bool {
    k is Arrow || k is EndOfFile || k is Identifier || k is NewLine
}

/// The arc from the place `pl` into the transition `tr` that the tokens behind the name
/// of one of them write: a mark and a weight, or nothing for the weight one.
#[verifier::opaque]
pub open spec fn input_arc(l: LexerView, pl: PlaceId, tr: TransitionId) -> Cut<arc::Kind> {
    match l.peek() {
        Err(e) => Err(e),
        Ok((t, l1)) => if t.kind is NormalArc || t.kind is InhibitorArc || t.kind is TestArc
            || t.kind is StopWatchArc || t.kind is StopWatchInhibitorArc {
            match weight_behind_mark(l1) {
                Err(e) => Err(e),
                Ok((w, l2)) => Ok(
                    (
                        match t.kind {
                            KindView::NormalArc => arc::Kind::Consume(pl, tr, w),
                            KindView::InhibitorArc => arc::Kind::Inhibitor(pl, tr, w),
                            KindView::TestArc => arc::Kind::Test(pl, tr, w),
                            KindView::StopWatchArc => arc::Kind::StopWatch(pl, tr, w),
                            _ => arc::Kind::StopWatchInhibitor(pl, tr, w),
                        },
                        l2,
                    ),
                ),
            }
        } else if ends_plain_arc(t.kind) {
            Ok((arc::Kind::Consume(pl, tr, 1), l1))
        } else {
            Err(ParserErrorView::UnexpectedToken(l1.current, arc_expected()))
        },
    }
}

/// The arc from the transition `tr` into the place `pl` that the tokens behind the name
/// of one of them write: `*` and a weight, or nothing for the weight one.
#[verifier::opaque]
pub open spec fn output_arc(l: LexerView, pl: PlaceId, tr: TransitionId) -> Cut<arc::Kind> {
    match l.peek() {
        Err(e) => Err(e),
        Ok((t, l1)) => if t.kind is NormalArc {
            match weight_behind_mark(l1) {
                Err(e) => Err(e),
                Ok((w, l2)) => Ok((arc::Kind::Produce(pl, tr, w), l2)),
            }
        } else if t.kind is InhibitorArc || t.kind is TestArc || t.kind is StopWatchArc
            || t.kind is StopWatchInhibitorArc {
            Err(ParserErrorView::UnexpectedArc(l1.current.position, t.kind))
        } else if ends_plain_arc(t.kind) {
            Ok((arc::Kind::Produce(pl, tr, 1), l1))
        } else {
            Err(ParserErrorView::UnexpectedToken(l1.current, arc_expected()))
        },
    }
}

/// The node that `name` stands for on a line of the node `fixed`: a place on the line of
/// a transition, a transition on the line of a place.
#[verifier::opaque]
pub open spec fn other_end(net: NetView, fixed: NodeId, name: Seq<char>) -> Built<NodeId> {
    match fixed {
        NodeId::Transition(_) => match place_named(net, name) {
            Err(e) => Err(e),
            Ok((pl, n)) => Ok((NodeId::Place(pl), n)),
        },
        NodeId::Place(_) => match transition_named(net, name) {
            Err(e) => Err(e),
            Ok((tr, n)) => Ok((NodeId::Transition(tr), n)),
        },
    }
}

/// The place among two nodes, one of which is a place.
pub open spec fn place_of(a: NodeId, b: NodeId) -> PlaceId {
    match a {
        NodeId::Place(pl) => pl,
        NodeId::Transition(_) => match b {
            NodeId::Place(pl) => pl,
            NodeId::Transition(_) => PlaceId(0),
        },
    }
}

/// The transition among two nodes, one of which is a transition.
pub open spec fn transition_of(a: NodeId, b: NodeId) -> TransitionId {
    match a {
        NodeId::Transition(tr) => tr,
        NodeId::Place(_) => match b {
            NodeId::Transition(tr) => tr,
            NodeId::Place(_) => TransitionId(0),
        },
    }
}

/// The arcs that stand on one side of the arrow on the line of the node `fixed`: as long
/// as a name comes, its node is found or created and the arc between the two is added.
/// `consuming` says whether the arcs lead from a place into a transition.
#[verifier::opaque]
pub open spec fn arcs(p: ParserView, fixed: NodeId, consuming: bool) -> Parsed
    decreases p.lexer.left(),
{
    match p.lexer.peek() {
        Err(e) => Err(e),
        Ok((t, l1)) => match t.kind {
            KindView::Identifier(n) => match other_end(p.net, fixed, n) {
                Err(e) => Err(e),
                Ok((other, n1)) => match l1.read() {
                    Err(e) => Err(e),
                    Ok((_, l2)) => match (if consuming {
                        input_arc(l2, place_of(fixed, other), transition_of(fixed, other))
                    } else {
                        output_arc(l2, place_of(fixed, other), transition_of(fixed, other))
                    }) {
                        Err(e) => Err(e),
                        Ok((a, l3)) => match with_arc(n1, a) {
                            Err(e) => Err(e),
                            Ok(n2) => if l3.left() < p.lexer.left() {
                                arcs(ParserView { lexer: l3, net: n2 }, fixed, consuming)
                            } else {
                                Ok(ParserView { lexer: l3, net: n2 })
                            },
                        },
                    },
                },
            },
            _ => Ok(ParserView { lexer: l1, net: p.net }),
        },
    }
}

/// The arcs of a line, if it has any: those before the arrow, the arrow, and those
/// behind it. `is_place` says whether the line is that of a place.
#[verifier::opaque]
pub open spec fn both_sides(p: ParserView, fixed: NodeId) -> Parsed {
    match p.lexer.peek() {
        Err(e) => Err(e),
        Ok((t, l1)) => if t.kind is Identifier || t.kind is Arrow {
            match arcs(ParserView { lexer: l1, net: p.net }, fixed, fixed is Transition) {
                Err(e) => Err(e),
                Ok(p1) => match arrow(p1.lexer) {
                    Err(e) => Err(e),
                    Ok((_, l2)) => arcs(ParserView { lexer: l2, net: p1.net }, fixed, fixed is Place),
                },
            }
        } else {
            Ok(ParserView { lexer: l1, net: p.net })
        },
    }
}

/// The label behind a colon, if there is a colon.
pub open spec fn inline_label(p: ParserView, id: NodeId) -> Parsed {
    match p.lexer.peek() {
        Err(e) => Err(e),
        Ok((t, l1)) => if t.kind is InlineLabel {
            match l1.read() {
                Err(e) => Err(e),
                Ok((_, l2)) => match name(l2) {
                    Err(e) => Err(e),
                    Ok((label, l3)) => Ok(ParserView { lexer: l3, net: labelled(p.net, id, label) }),
                },
            }
        } else {
            Ok(ParserView { lexer: l1, net: p.net })
        },
    }
}

/// A line `net <name>`.
pub open spec fn net_line(p: ParserView) -> Parsed {
    match p.lexer.read() {
        Err(e) => Err(e),
        Ok((_, l1)) => match name(l1) {
            Err(e) => Err(e),
            Ok((n, l2)) => Ok(ParserView { lexer: l2, net: NetView { name: n, ..p.net } }),
        },
    }
}

/// A line `lb <node> <label>`.
pub open spec fn label_line(p: ParserView) -> Parsed {
    match p.lexer.read() {
        Err(e) => Err(e),
        Ok((_, l1)) => match name(l1) {
            Err(e) => Err(e),
            Ok((n, l2)) => match p.net.names.index_of(n) {
                None => Err(refused(NetErrorView::UnknownIdentifier(n))),
                Some(id) => match name(l2) {
                    Err(e) => Err(e),
                    Ok((label, l3)) => Ok(ParserView { lexer: l3, net: labelled(p.net, id, label) }),
                },
            },
        },
    }
}

/// The time interval of a transition, if one is written.
pub open spec fn interval(p: ParserView, tr: TransitionId) -> Parsed {
    match p.lexer.peek() {
        Err(e) => Err(e),
        Ok((t, l1)) => match t.kind {
            KindView::TimeInterval(start, end) => match l1.read() {
                Err(e) => Err(e),
                Ok((_, l2)) => Ok(
                    ParserView { lexer: l2, net: timed(p.net, tr, TimeRange { start, end }) },
                ),
            },
            _ => Ok(ParserView { lexer: l1, net: p.net }),
        },
    }
}

/// A line `tr <name> [: <label>] [<interval>] [<arcs> -> <arcs>]`.
pub open spec fn transition_line(p: ParserView) -> Parsed {
    match p.lexer.read() {
        Err(e) => Err(e),
        Ok((_, l1)) => match name(l1) {
            Err(e) => Err(e),
            Ok((n, l2)) => match transition_named(p.net, n) {
                Err(e) => Err(e),
                Ok((tr, n1)) => match inline_label(
                    ParserView { lexer: l2, net: n1 },
                    NodeId::Transition(tr),
                ) {
                    Err(e) => Err(e),
                    Ok(p1) => match interval(p1, tr) {
                        Err(e) => Err(e),
                        Ok(p2) => both_sides(p2, NodeId::Transition(tr)),
                    },
                },
            },
        },
    }
}

/// The marking of a place, if one is written; it must fit into the machine's numbers
/// together with what the place has.
pub open spec fn marking(p: ParserView, pl: PlaceId) -> Parsed {
    match p.lexer.peek() {
        Err(e) => Err(e),
        Ok((t, l1)) => match t.kind {
            KindView::Int(v) => match l1.read() {
                Err(e) => Err(e),
                Ok((_, l2)) => if p.net.places[pl.0 as int].initial + v > usize::MAX {
                    Err(refused(NetErrorView::InvalidPlace(pl)))
                } else {
                    Ok(ParserView { lexer: l2, net: marked(p.net, pl, v) })
                },
            },
            _ => Ok(ParserView { lexer: l1, net: p.net }),
        },
    }
}

/// A line `pl <name> [: <label>] [(<int>)] [<arcs> -> <arcs>]`.
pub open spec fn place_line(p: ParserView) -> Parsed {
    match p.lexer.read() {
        Err(e) => Err(e),
        Ok((_, l1)) => match name(l1) {
            Err(e) => Err(e),
            Ok((n, l2)) => match place_named(p.net, n) {
                Err(e) => Err(e),
                Ok((pl, n1)) => match inline_label(
                    ParserView { lexer: l2, net: n1 },
                    NodeId::Place(pl),
                ) {
                    Err(e) => Err(e),
                    Ok(p1) => match marking(p1, pl) {
                        Err(e) => Err(e),
                        Ok(p2) => both_sides(p2, NodeId::Place(pl)),
                    },
                },
            },
        },
    }
}

/// A line `nt <name> <int> <identifier>`, which leaves the net as it is.
pub open spec fn note_line(p: ParserView) -> Parsed {
    match p.lexer.read() {
        Err(e) => Err(e),
        Ok((_, l1)) => match name(l1) {
            Err(e) => Err(e),
            Ok((_, l2)) => match number(l2) {
                Err(e) => Err(e),
                Ok((_, l3)) => match name(l3) {
                    Err(e) => Err(e),
                    Ok((_, l4)) => Ok(ParserView { lexer: l4, net: p.net }),
                },
            },
        },
    }
}

/// What a run of names of transitions gives: the transitions, put behind `found`.
pub type Named = Result<(Seq<TransitionId>, ParserView), ParserErrorView>;

/// The transitions that a run of names stands for, each found or created, put behind
/// `found`.
#[verifier::opaque]
pub open spec fn transitions_named(p: ParserView, found: Seq<TransitionId>) -> Named
    decreases p.lexer.left(),
{
    match p.lexer.peek() {
        Err(e) => Err(e),
        Ok((t, l1)) => match t.kind {
            KindView::Identifier(n) => match l1.read() {
                Err(e) => Err(e),
                Ok((_, l2)) => match transition_named(p.net, n) {
                    Err(e) => Err(e),
                    Ok((tr, n1)) => if l2.left() < p.lexer.left() {
                        transitions_named(ParserView { lexer: l2, net: n1 }, found.push(tr))
                    } else {
                        Ok((found.push(tr), ParserView { lexer: l2, net: n1 }))
                    },
                },
            },
            _ => Ok((found, ParserView { lexer: l1, net: p.net })),
        },
    }
}

/// The net in which `high` has priority over the first `n` of `low`.
pub open spec fn over_each(net: NetView, high: TransitionId, low: Seq<TransitionId>, n: nat) -> NetView
    decreases n,
{
    if n == 0 {
        net
    } else {
        over_each(net, high, low, (n - 1) as nat).add_priority(high, low[n - 1])
    }
}

/// The net in which each of the first `n` of `high` has priority over each of `low`.
pub open spec fn each_over_each(
    net: NetView,
    high: Seq<TransitionId>,
    low: Seq<TransitionId>,
    n: nat,
) -> NetView
    decreases n,
{
    if n == 0 {
        net
    } else {
        over_each(each_over_each(net, high, low, (n - 1) as nat), high[n - 1], low, low.len())
    }
}

/// A line `pr <tr>+ (>|<) <tr>+`.
pub open spec fn priority_line(p: ParserView) -> Parsed {
    match p.lexer.read() {
        Err(e) => Err(e),
        Ok((_, l1)) => match transitions_named(
            ParserView { lexer: l1, net: p.net },
            Seq::empty(),
        ) {
            Err(e) => Err(e),
            Ok((pre, p1)) => match p1.lexer.read() {
                Err(e) => Err(e),
                Ok((t, l2)) => if !(t.kind is GreaterThan || t.kind is LessThan) {
                    Err(ParserErrorView::UnexpectedToken(t, order_expected()))
                } else {
                    match transitions_named(ParserView { lexer: l2, net: p1.net }, Seq::empty()) {
                        Err(e) => Err(e),
                        Ok((post, p2)) => Ok(
                            ParserView {
                                lexer: p2.lexer,
                                net: if t.kind is LessThan {
                                    each_over_each(p2.net, post, pre, post.len())
                                } else {
                                    each_over_each(p2.net, pre, post, pre.len())
                                },
                            },
                        ),
                    }
                },
            },
        },
    }
}

/// The line that begins with the token `t`, which the lexer of `p` has looked at.
#[verifier::opaque]
pub open spec fn line(p: ParserView, t: TokenView) -> Parsed {
    if t.kind is NewLine || t.kind is Comment {
        match p.lexer.read() {
            Err(e) => Err(e),
            Ok((_, l2)) => Ok(ParserView { lexer: l2, net: p.net }),
        }
    } else if t.kind is Net {
        net_line(p)
    } else if t.kind is Transition {
        transition_line(p)
    } else if t.kind is Place {
        place_line(p)
    } else if t.kind is Note {
        note_line(p)
    } else if t.kind is Label {
        label_line(p)
    } else if t.kind is Priority {
        priority_line(p)
    } else {
        Err(ParserErrorView::UnexpectedToken(t, line_expected()))
    }
}

/// The lines of a text, up to its end.
pub open spec fn lines(p: ParserView) -> Parsed
    decreases p.lexer.left(),
{
    match p.lexer.peek() {
        Err(e) => Err(e),
        Ok((t, l1)) => {
            let p1 = ParserView { lexer: l1, net: p.net };
            if t.kind is EndOfFile {
                Ok(p1)
            } else {
                match line(p1, t) {
                    Err(e) => Err(e),
                    Ok(p2) => if p2.lexer.left() < p.lexer.left() {
                        lines(p2)
                    } else {
                        Ok(p2)
                    },
                }
            }
        },
    }
}

/// The net that the text `bytes` writes.
pub open spec fn parsed(bytes: Seq<u8>) -> Result<NetView, ParserErrorView> {
    match lines(ParserView { lexer: crate::tina::lexer::start(bytes), net: crate::timed::net::empty() }) {
        Err(e) => Err(e),
        Ok(p) => Ok(p.net),
    }
}


/// The second net has the nodes of the first, and maybe more.
pub open spec fn grown(before: NetView, after: NetView) -> bool {
    before.places.len() <= after.places.len() && before.transitions.len() <= after.transitions.len()
}

impl ParserView {
    /// The lexer and the net are well formed.
    pub open spec fn wf(self) -> bool {
        self.lexer.wf() && self.net.wf()
    }

    /// The parser has moved on from `before`: it is well formed, reads the same text, has
    /// not more of it left, and its net has the nodes it had.
    pub open spec fn after(self, before: ParserView) -> bool {
        &&& self.wf()
        &&& self.lexer.left() <= before.lexer.left()
        &&& self.lexer.reader.bytes == before.lexer.reader.bytes
        &&& grown(before.net, self.net)
    }
}

/// The lexer has fewer bytes left than `before`, unless `before` stood at the end of
/// the text.
pub open spec fn moved(before: LexerView, now: LexerView) -> bool {
    now.left() < before.left() || (before.read() matches Ok((t, _)) && t.kind is EndOfFile)
}

/// The lexer has moved on from `before`.
pub open spec fn lexer_after(now: LexerView, before: LexerView) -> bool {
    &&& now.wf()
    &&& now.left() <= before.left()
    &&& now.reader.bytes == before.reader.bytes
}

/// `got` is what the step `want` gives on the tokens: the value, with the lexer `now`
/// behind it, or the error.
pub open spec fn cut<T>(got: Result<T, ParserError>, now: LexerView, before: LexerView, want: Cut<T>) -> bool {
    match want {
        Ok((v, l)) => got is Ok && got->Ok_0 == v && now == l && lexer_after(now, before),
        Err(e) => got is Err && got->Err_0@ == e,
    }
}

/// `got` is what the step `want` gives: the parser `now`, or the error.
pub open spec fn step(got: Result<(), ParserError>, now: ParserView, before: ParserView, want: Parsed) -> bool {
    match want {
        Ok(p) => got is Ok && now == p && now.after(before),
        Err(e) => got is Err && got->Err_0@ == e,
    }
}

/// Reads a text into a timed net.
pub struct Parser<'a> {
    lexer: Lexer<'a>,
    net: Net,
}

impl<'a> View for Parser<'a> {
    type V = ParserView;

    closed spec fn view(&self) -> ParserView {
        ParserView { lexer: self.lexer@, net: self.net@ }
    }
}

impl<'a> Parser<'a> {
    /// A parser at the start of the text `bytes`, with an empty net.
    pub fn new(bytes: &'a [u8]) -> (p: Self)
        requires
            bytes@.len() < usize::MAX,
        ensures
            p@.wf(),
            p@ == (ParserView { lexer: crate::tina::lexer::start(bytes@), net: crate::timed::net::empty() }),
    {
        Self { lexer: Lexer::new(bytes), net: Net::new() }
    }

    /// Reads a token that must be a name.
    fn read_name(&mut self) -> (r: Result<String, ParserError>)
        requires
            old(self)@.wf(),
        ensures
            final(self)@.net == old(self)@.net,
            match name(old(self)@.lexer) {
                Ok((n, l)) => r is Ok && r->Ok_0@ == n && final(self)@.lexer == l && lexer_after(
                    l,
                    old(self)@.lexer,
                ) && l.left() < old(self)@.lexer.left(),
                Err(e) => r is Err && r->Err_0@ == e,
            },
    {
        proof {
            self@.lexer.lemma_read();
        }
        let token = self.lexer.read()?;
        match token.kind {
            Kind::Identifier(n) => Ok(n),
            other => Err(
                ParserError::UnexpectedToken(
                    Token { kind: other, position: token.position },
                    "Expected TokenKind::Identifier(_)".to_owned(),
                ),
            ),
        }
    }

    /// Reads a token that must be a number.
    fn parse_int(&mut self) -> (r: Result<usize, ParserError>)
        requires
            old(self)@.wf(),
        ensures
            final(self)@.net == old(self)@.net,
            cut(r, final(self)@.lexer, old(self)@.lexer, number(old(self)@.lexer)),
    {
        proof {
            self@.lexer.lemma_peek();
        }
        let token = self.lexer.peek()?;
        match token.kind {
            Kind::Int(value) => {
                proof {
                    self@.lexer.lemma_read();
                }
                let _ = self.lexer.read()?;
                Ok(value)
            },
            _ => Err(
                ParserError::UnexpectedToken(
                    self.lexer.current(),
                    "Expected TokenKind::Int(_)".to_owned(),
                ),
            ),
        }
    }

    /// Reads a token that must be the arrow.
    fn parse_arrow(&mut self) -> (r: Result<(), ParserError>)
        requires
            old(self)@.wf(),
        ensures
            final(self)@.net == old(self)@.net,
            cut(r, final(self)@.lexer, old(self)@.lexer, arrow(old(self)@.lexer)),
    {
        proof {
            self@.lexer.lemma_read();
        }
        let token = self.lexer.read()?;
        match token.kind {
            Kind::Arrow => Ok(()),
            other => Err(
                ParserError::UnexpectedToken(
                    Token { kind: other, position: token.position },
                    "Expected TokenKind::Arrow".to_owned(),
                ),
            ),
        }
    }

    /// Reads an arc mark and the weight behind it.
    fn parse_weight(&mut self) -> (r: Result<usize, ParserError>)
        requires
            old(self)@.wf(),
        ensures
            final(self)@.net == old(self)@.net,
            cut(r, final(self)@.lexer, old(self)@.lexer, weight_behind_mark(old(self)@.lexer)),
    {
        proof {
            self@.lexer.lemma_read();
        }
        let _ = self.lexer.read()?;
        self.parse_int()
    }

    /// Reads the mark and the weight of an arc from `place` into `transition`.
    fn parse_transition_input_arc(&mut self, place: PlaceId, transition: TransitionId) -> (r:
        Result<arc::Kind, ParserError>)
        requires
            old(self)@.wf(),
        ensures
            final(self)@.net == old(self)@.net,
            cut(
                r,
                final(self)@.lexer,
                old(self)@.lexer,
                input_arc(old(self)@.lexer, place, transition),
            ),
    {
        proof {
            reveal(input_arc);
        }
        proof {
            self@.lexer.lemma_peek();
        }
        let token = self.lexer.peek()?;
        match token.kind {
            Kind::NormalArc => Ok(arc::Kind::Consume(place, transition, self.parse_weight()?)),
            Kind::InhibitorArc => Ok(arc::Kind::Inhibitor(place, transition, self.parse_weight()?)),
            Kind::TestArc => Ok(arc::Kind::Test(place, transition, self.parse_weight()?)),
            Kind::StopWatchArc => Ok(arc::Kind::StopWatch(place, transition, self.parse_weight()?)),
            Kind::StopWatchInhibitorArc => Ok(
                arc::Kind::StopWatchInhibitor(place, transition, self.parse_weight()?),
            ),
            Kind::Arrow => Ok(arc::Kind::Consume(place, transition, 1)),
            Kind::EndOfFile => Ok(arc::Kind::Consume(place, transition, 1)),
            Kind::Identifier(_) => Ok(arc::Kind::Consume(place, transition, 1)),
            Kind::NewLine => Ok(arc::Kind::Consume(place, transition, 1)),
            _ => Err(
                ParserError::UnexpectedToken(
                    self.lexer.current(),
                    "Expected TokenKind::Arc*".to_owned(),
                ),
            ),
        }
    }

    /// Reads the mark and the weight of an arc from `transition` into `place`.
    fn parse_transition_output_arc(&mut self, place: PlaceId, transition: TransitionId) -> (r:
        Result<arc::Kind, ParserError>)
        requires
            old(self)@.wf(),
        ensures
            final(self)@.net == old(self)@.net,
            cut(
                r,
                final(self)@.lexer,
                old(self)@.lexer,
                output_arc(old(self)@.lexer, place, transition),
            ),
    {
        proof {
            reveal(output_arc);
        }
        proof {
            self@.lexer.lemma_peek();
        }
        let token = self.lexer.peek()?;
        match token.kind {
            Kind::NormalArc => Ok(arc::Kind::Produce(place, transition, self.parse_weight()?)),
            Kind::InhibitorArc => Err(
                ParserError::UnexpectedArc(self.lexer.current().position, Kind::InhibitorArc),
            ),
            Kind::TestArc => Err(
                ParserError::UnexpectedArc(self.lexer.current().position, Kind::TestArc),
            ),
            Kind::StopWatchArc => Err(
                ParserError::UnexpectedArc(self.lexer.current().position, Kind::StopWatchArc),
            ),
            Kind::StopWatchInhibitorArc => Err(
                ParserError::UnexpectedArc(
                    self.lexer.current().position,
                    Kind::StopWatchInhibitorArc,
                ),
            ),
            Kind::Arrow => Ok(arc::Kind::Produce(place, transition, 1)),
            Kind::EndOfFile => Ok(arc::Kind::Produce(place, transition, 1)),
            Kind::Identifier(_) => Ok(arc::Kind::Produce(place, transition, 1)),
            Kind::NewLine => Ok(arc::Kind::Produce(place, transition, 1)),
            _ => Err(
                ParserError::UnexpectedToken(
                    self.lexer.current(),
                    "Expected TokenKind::Arc*".to_owned(),
                ),
            ),
        }
    }

    /// The transition that bears `name`; a new one if no node bears it.
    fn get_or_create_transition(&mut self, name: &str) -> (r: Result<TransitionId, ParserError>)
        requires
            old(self)@.wf(),
        ensures
            final(self)@.lexer == old(self)@.lexer,
            match transition_named(old(self)@.net, name@) {
                Ok((tr, n)) => r is Ok && r->Ok_0 == tr && final(self)@.net == n && n.wf() && grown(
                    old(self)@.net,
                    n,
                ) && n.valid_transition(tr),
                Err(e) => r is Err && r->Err_0@ == e,
            },
    {
        match self.net.get_index_by_name(name) {
            Some(NodeId::Transition(id)) => Ok(id),
            Some(NodeId::Place(_)) => Err(
                ParserError::Net(NetError::DuplicatedName(name.to_owned())),
            ),
            None => {
                if self.net.transitions.len() == usize::MAX {
                    return Err(
                        ParserError::Net(NetError::InvalidTransition(TransitionId(usize::MAX))),
                    );
                }
                let ghost v = self.net@;
                proof {
                    v.lemma_create_transition();
                    v.lemma_unnamed(NodeId::Transition(TransitionId(v.transitions.len() as usize)));
                    crate::standard::net::lemma_register(
                        v.names,
                        NodeId::Transition(TransitionId(v.transitions.len() as usize)),
                    );
                }
                let tr = self.net.create_transition();
                match self.net.rename_node(NodeId::Transition(tr), name) {
                    Ok(()) => Ok(tr),
                    Err(e) => Err(ParserError::Net(e)),
                }
            },
        }
    }

    /// The place that bears `name`; a new one if no node bears it.
    fn get_or_create_place(&mut self, name: &str) -> (r: Result<PlaceId, ParserError>)
        requires
            old(self)@.wf(),
        ensures
            final(self)@.lexer == old(self)@.lexer,
            match place_named(old(self)@.net, name@) {
                Ok((pl, n)) => r is Ok && r->Ok_0 == pl && final(self)@.net == n && n.wf() && grown(
                    old(self)@.net,
                    n,
                ) && n.valid_place(pl),
                Err(e) => r is Err && r->Err_0@ == e,
            },
    {
        match self.net.get_index_by_name(name) {
            Some(NodeId::Place(id)) => Ok(id),
            Some(NodeId::Transition(_)) => Err(
                ParserError::Net(NetError::DuplicatedName(name.to_owned())),
            ),
            None => {
                if self.net.places.len() == usize::MAX {
                    return Err(ParserError::Net(NetError::InvalidPlace(PlaceId(usize::MAX))));
                }
                let ghost v = self.net@;
                proof {
                    v.lemma_create_place();
                    v.lemma_unnamed(NodeId::Place(PlaceId(v.places.len() as usize)));
                    crate::standard::net::lemma_register(
                        v.names,
                        NodeId::Place(PlaceId(v.places.len() as usize)),
                    );
                }
                let pl = self.net.create_place();
                match self.net.rename_node(NodeId::Place(pl), name) {
                    Ok(()) => Ok(pl),
                    Err(e) => Err(ParserError::Net(e)),
                }
            },
        }
    }
}


/// A label on a node of a well-formed net leaves it well formed.
pub proof fn lemma_labelled(net: NetView, id: NodeId, label: Seq<char>)
    requires
        net.wf(),
        net.valid_node(id),
    ensures
        labelled(net, id, label).wf(),
        grown(net, labelled(net, id, label)),
        labelled(net, id, label).places.len() == net.places.len(),
        labelled(net, id, label).transitions.len() == net.transitions.len(),
{
    net.lemma_same_arcs(labelled(net, id, label));
}

/// A narrower time range leaves a well-formed net well formed.
pub proof fn lemma_timed(net: NetView, tr: TransitionId, range: TimeRange)
    requires
        net.wf(),
        net.valid_transition(tr),
    ensures
        timed(net, tr, range).wf(),
        grown(net, timed(net, tr, range)),
{
    net.lemma_same_arcs(timed(net, tr, range));
}

/// More tokens leave a well-formed net well formed.
pub proof fn lemma_marked(net: NetView, pl: PlaceId, more: usize)
    requires
        net.wf(),
        net.valid_place(pl),
    ensures
        marked(net, pl, more).wf(),
        grown(net, marked(net, pl, more)),
{
    net.lemma_same_arcs(marked(net, pl, more));
}

/// Priorities of one transition over transitions of the net leave it well formed.
pub proof fn lemma_over_each(net: NetView, high: TransitionId, low: Seq<TransitionId>, n: nat)
    requires
        net.wf(),
        net.valid_transition(high),
        n <= low.len(),
        forall|i: int| 0 <= i < low.len() ==> net.valid_transition(#[trigger] low[i]),
    ensures
        over_each(net, high, low, n).wf(),
        over_each(net, high, low, n).transitions.len() == net.transitions.len(),
        over_each(net, high, low, n).places.len() == net.places.len(),
    decreases n,
{
    if n > 0 {
        lemma_over_each(net, high, low, (n - 1) as nat);
        let before = over_each(net, high, low, (n - 1) as nat);
        assert(net.valid_transition(low[n - 1]));
        before.lemma_add_priority(high, low[n - 1]);
    }
}

/// Priorities of transitions of the net over transitions of the net leave it well formed.
pub proof fn lemma_each_over_each(
    net: NetView,
    high: Seq<TransitionId>,
    low: Seq<TransitionId>,
    n: nat,
)
    requires
        net.wf(),
        n <= high.len(),
        forall|i: int| 0 <= i < high.len() ==> net.valid_transition(#[trigger] high[i]),
        forall|i: int| 0 <= i < low.len() ==> net.valid_transition(#[trigger] low[i]),
    ensures
        each_over_each(net, high, low, n).wf(),
        each_over_each(net, high, low, n).transitions.len() == net.transitions.len(),
        each_over_each(net, high, low, n).places.len() == net.places.len(),
    decreases n,
{
    if n > 0 {
        lemma_each_over_each(net, high, low, (n - 1) as nat);
        let before = each_over_each(net, high, low, (n - 1) as nat);
        assert(net.valid_transition(high[n - 1]));
        assert forall|i: int| 0 <= i < low.len() implies before.valid_transition(
            #[trigger] low[i],
        ) by {
            assert(net.valid_transition(low[i]));
        }
        lemma_over_each(before, high[n - 1], low, low.len());
    }
}

impl<'a> Parser<'a> {
    /// The node that `name` stands for on the line of the node `fixed`.
    fn get_or_create_other_end(&mut self, fixed: NodeId, name: &str) -> (r: Result<
        NodeId,
        ParserError,
    >)
        requires
            old(self)@.wf(),
        ensures
            final(self)@.lexer == old(self)@.lexer,
            match other_end(old(self)@.net, fixed, name@) {
                Ok((id, n)) => r is Ok && r->Ok_0 == id && final(self)@.net == n && n.wf() && grown(
                    old(self)@.net,
                    n,
                ),
                Err(e) => r is Err && r->Err_0@ == e,
            },
    {
        proof {
            reveal(other_end);
        }
        match fixed {
            NodeId::Transition(_) => Ok(NodeId::Place(self.get_or_create_place(name)?)),
            NodeId::Place(_) => Ok(NodeId::Transition(self.get_or_create_transition(name)?)),
        }
    }

    /// Adds the arc to the net, if the net takes it.
    fn add(&mut self, arc: arc::Kind) -> (r: Result<(), ParserError>)
        requires
            old(self)@.wf(),
        ensures
            final(self)@.lexer == old(self)@.lexer,
            match with_arc(old(self)@.net, arc) {
                Ok(n) => r is Ok && final(self)@.net == n && n.wf() && grown(old(self)@.net, n),
                Err(e) => r is Err && r->Err_0@ == e,
            },
    {
        proof {
            reveal(with_arc);
        }
        if !self.net.can_add_arc(&arc) {
            return Err(ParserError::Net(NetError::InvalidArc));
        }
        proof {
            self.net@.lemma_add_arc(arc);
        }
        match self.net.add_arc(arc) {
            Ok(()) => Ok(()),
            Err(e) => Err(ParserError::Net(e)),
        }
    }

    /// Reads the arcs that stand on one side of the arrow on the line of the node `fixed`.
    fn parse_arcs(&mut self, fixed: NodeId, consuming: bool) -> (r: Result<(), ParserError>)
        requires
            old(self)@.wf(),
        ensures
            step(r, final(self)@, old(self)@, arcs(old(self)@, fixed, consuming)),
    {
        loop
            invariant
                self@.wf(),
                self@.after(old(self)@),
                arcs(self@, fixed, consuming) == arcs(old(self)@, fixed, consuming),
            decreases self@.lexer.left(),
        {
            let ghost p = self@;
            proof {
                reveal(arcs);
                p.lexer.lemma_peek();
            }
            let token = self.lexer.peek()?;
            let n = match token.kind {
                Kind::Identifier(n) => n,
                _ => {
                    return Ok(());
                },
            };
            let ghost l1 = self@.lexer;
            let other = self.get_or_create_other_end(fixed, n.as_str())?;
            proof {
                l1.lemma_read();
            }
            let _ = self.lexer.read()?;
            let (place, transition) = match (fixed, other) {
                (NodeId::Place(pl), NodeId::Transition(tr)) => (pl, tr),
                (NodeId::Transition(tr), NodeId::Place(pl)) => (pl, tr),
                (NodeId::Place(pl), NodeId::Place(_)) => (pl, TransitionId(0)),
                (NodeId::Transition(tr), NodeId::Transition(_)) => (PlaceId(0), tr),
            };
            let new_arc = if consuming {
                self.parse_transition_input_arc(place, transition)?
            } else {
                self.parse_transition_output_arc(place, transition)?
            };
            self.add(new_arc)?;
        }
    }

    /// Reads the arcs of a line, if it has any.
    fn parse_both_sides(&mut self, fixed: NodeId) -> (r: Result<(), ParserError>)
        requires
            old(self)@.wf(),
        ensures
            step(r, final(self)@, old(self)@, both_sides(old(self)@, fixed)),
    {
        proof {
            reveal(both_sides);
        }
        proof {
            self@.lexer.lemma_peek();
        }
        let token = self.lexer.peek()?;
        let has_arcs = match token.kind {
            Kind::Identifier(_) => true,
            Kind::Arrow => true,
            _ => false,
        };
        if has_arcs {
            let (before, behind) = match fixed {
                NodeId::Transition(_) => (true, false),
                NodeId::Place(_) => (false, true),
            };
            self.parse_arcs(fixed, before)?;
            self.parse_arrow()?;
            self.parse_arcs(fixed, behind)?;
        }
        Ok(())
    }

    /// Gives the node `id` the label `label`.
    fn set_label(&mut self, id: NodeId, label: String)
        requires
            old(self)@.wf(),
            old(self)@.net.valid_node(id),
        ensures
            final(self)@.lexer == old(self)@.lexer,
            final(self)@.net == labelled(old(self)@.net, id, label@),
            final(self)@.wf(),
            grown(old(self)@.net, final(self)@.net),
    {
        proof {
            lemma_labelled(self@.net, id, label@);
        }
        let ghost want = labelled(self@.net, id, label@);
        match id {
            NodeId::Place(pl) => {
                self.net.places[pl.0].label = Some(label);
            },
            NodeId::Transition(tr) => {
                self.net.transitions[tr.0].label = Some(label);
            },
        }
        proof {
            assert(self@.net.places =~= want.places);
            assert(self@.net.transitions =~= want.transitions);
        }
    }

    /// Reads the label behind a colon, if there is a colon.
    fn parse_inline_label(&mut self, id: NodeId) -> (r: Result<(), ParserError>)
        requires
            old(self)@.wf(),
            old(self)@.net.valid_node(id),
        ensures
            step(r, final(self)@, old(self)@, inline_label(old(self)@, id)),
    {
        proof {
            self@.lexer.lemma_peek();
        }
        let token = self.lexer.peek()?;
        match token.kind {
            Kind::InlineLabel => {
                proof {
                    self@.lexer.lemma_read();
                }
                let _ = self.lexer.read()?;
                let label = self.read_name()?;
                self.set_label(id, label);
                Ok(())
            },
            _ => Ok(()),
        }
    }

    /// Reads a line `net <name>`.
    fn parse_net(&mut self) -> (r: Result<(), ParserError>)
        requires
            old(self)@.wf(),
        ensures
            step(r, final(self)@, old(self)@, net_line(old(self)@)),
            r is Ok ==> moved(old(self)@.lexer, final(self)@.lexer),
    {
        proof {
            self@.lexer.lemma_read();
        }
        let _ = self.lexer.read()?;
        let n = self.read_name()?;
        proof {
            self@.net.lemma_same_arcs(NetView { name: n@, ..self@.net });
        }
        self.net.name = n;
        Ok(())
    }

    /// Reads a line `lb <node> <label>`.
    fn parse_label(&mut self) -> (r: Result<(), ParserError>)
        requires
            old(self)@.wf(),
        ensures
            step(r, final(self)@, old(self)@, label_line(old(self)@)),
            r is Ok ==> moved(old(self)@.lexer, final(self)@.lexer),
    {
        proof {
            self@.lexer.lemma_read();
        }
        let _ = self.lexer.read()?;
        let n = self.read_name()?;
        let index = match self.net.get_index_by_name(n.as_str()) {
            None => {
                return Err(ParserError::Net(NetError::UnknownIdentifier(n)));
            },
            Some(index) => index,
        };
        let label = self.read_name()?;
        self.set_label(index, label);
        Ok(())
    }

    /// Reads the time interval of the transition `tr`, if one is written.
    fn parse_interval(&mut self, tr: TransitionId) -> (r: Result<(), ParserError>)
        requires
            old(self)@.wf(),
            old(self)@.net.valid_transition(tr),
        ensures
            step(r, final(self)@, old(self)@, interval(old(self)@, tr)),
    {
        proof {
            self@.lexer.lemma_peek();
        }
        let token = self.lexer.peek()?;
        match token.kind {
            Kind::TimeInterval(start, end) => {
                proof {
                    self@.lexer.lemma_read();
                }
                let _ = self.lexer.read()?;
                let ghost want = timed(self@.net, tr, TimeRange { start, end });
                proof {
                    lemma_timed(self@.net, tr, TimeRange { start, end });
                }
                let narrowed = self.net.transitions[tr.0].time.intersect(TimeRange { start, end });
                self.net.transitions[tr.0].time = narrowed;
                proof {
                    assert(self@.net.transitions =~= want.transitions);
                    assert(self@.net.places =~= want.places);
                }
                Ok(())
            },
            _ => Ok(()),
        }
    }

    /// Reads a line `tr <name> [: <label>] [<interval>] [<arcs> -> <arcs>]`.
    fn parse_transition(&mut self) -> (r: Result<(), ParserError>)
        requires
            old(self)@.wf(),
        ensures
            step(r, final(self)@, old(self)@, transition_line(old(self)@)),
            r is Ok ==> moved(old(self)@.lexer, final(self)@.lexer),
    {
        proof {
            self@.lexer.lemma_read();
        }
        let _ = self.lexer.read()?;
        let n = self.read_name()?;
        let tr = self.get_or_create_transition(n.as_str())?;
        self.parse_inline_label(NodeId::Transition(tr))?;
        self.parse_interval(tr)?;
        self.parse_both_sides(NodeId::Transition(tr))
    }

    /// Reads the marking of the place `pl`, if one is written.
    fn parse_marking(&mut self, pl: PlaceId) -> (r: Result<(), ParserError>)
        requires
            old(self)@.wf(),
            old(self)@.net.valid_place(pl),
        ensures
            step(r, final(self)@, old(self)@, marking(old(self)@, pl)),
    {
        proof {
            self@.lexer.lemma_peek();
        }
        let token = self.lexer.peek()?;
        match token.kind {
            Kind::Int(v) => {
                proof {
                    self@.lexer.lemma_read();
                }
                let _ = self.lexer.read()?;
                if self.net.places[pl.0].initial > usize::MAX - v {
                    return Err(ParserError::Net(NetError::InvalidPlace(pl)));
                }
                let ghost want = marked(self@.net, pl, v);
                proof {
                    lemma_marked(self@.net, pl, v);
                }
                let more = self.net.places[pl.0].initial + v;
                self.net.places[pl.0].initial = more;
                proof {
                    assert(self@.net.transitions =~= want.transitions);
                    assert(self@.net.places =~= want.places);
                }
                Ok(())
            },
            _ => Ok(()),
        }
    }

    /// Reads a line `pl <name> [: <label>] [(<int>)] [<arcs> -> <arcs>]`.
    fn parse_place(&mut self) -> (r: Result<(), ParserError>)
        requires
            old(self)@.wf(),
        ensures
            step(r, final(self)@, old(self)@, place_line(old(self)@)),
            r is Ok ==> moved(old(self)@.lexer, final(self)@.lexer),
    {
        proof {
            self@.lexer.lemma_read();
        }
        let _ = self.lexer.read()?;
        let n = self.read_name()?;
        let pl = self.get_or_create_place(n.as_str())?;
        self.parse_inline_label(NodeId::Place(pl))?;
        self.parse_marking(pl)?;
        self.parse_both_sides(NodeId::Place(pl))
    }

    /// Reads a line `nt <name> <int> <identifier>`.
    fn parse_note(&mut self) -> (r: Result<(), ParserError>)
        requires
            old(self)@.wf(),
        ensures
            step(r, final(self)@, old(self)@, note_line(old(self)@)),
            r is Ok ==> moved(old(self)@.lexer, final(self)@.lexer),
    {
        proof {
            self@.lexer.lemma_read();
        }
        let _ = self.lexer.read()?;
        let _ = self.read_name()?;
        let _ = self.parse_int()?;
        let _ = self.read_name()?;
        Ok(())
    }

    /// Reads a run of names of transitions, and finds or creates each.
    fn parse_names(&mut self) -> (r: Result<Vec<TransitionId>, ParserError>)
        requires
            old(self)@.wf(),
        ensures
            match transitions_named(old(self)@, Seq::empty()) {
                Ok((found, p)) => r is Ok && r->Ok_0@ == found && final(self)@ == p && p.after(
                    old(self)@,
                ) && forall|i: int| 0 <= i < found.len() ==> p.net.valid_transition(#[trigger] found[i]),
                Err(e) => r is Err && r->Err_0@ == e,
            },
    {
        let mut found: Vec<TransitionId> = Vec::new();
        loop
            invariant
                self@.wf(),
                self@.after(old(self)@),
                transitions_named(self@, found@) == transitions_named(old(self)@, Seq::empty()),
                forall|i: int| 0 <= i < found@.len() ==> self@.net.valid_transition(#[trigger] found@[i]),
            decreases self@.lexer.left(),
        {
            proof {
                reveal(transitions_named);
                self@.lexer.lemma_peek();
            }
            let token = self.lexer.peek()?;
            let n = match token.kind {
                Kind::Identifier(n) => n,
                _ => {
                    return Ok(found);
                },
            };
            proof {
                self@.lexer.lemma_read();
            }
            let _ = self.lexer.read()?;
            let tr = self.get_or_create_transition(n.as_str())?;
            found.push(tr);
        }
    }

    /// Gives each of `high` priority over each of `low`.
    fn add_priorities(&mut self, high: &Vec<TransitionId>, low: &Vec<TransitionId>)
        requires
            old(self)@.wf(),
            forall|i: int| 0 <= i < high@.len() ==> old(self)@.net.valid_transition(#[trigger] high@[i]),
            forall|i: int| 0 <= i < low@.len() ==> old(self)@.net.valid_transition(#[trigger] low@[i]),
        ensures
            final(self)@.lexer == old(self)@.lexer,
            final(self)@.net == each_over_each(old(self)@.net, high@, low@, high@.len()),
            final(self)@.wf(),
            grown(old(self)@.net, final(self)@.net),
    {
        let ghost v = self@.net;
        let mut i: usize = 0;
        while i < high.len()
            invariant
                i <= high@.len(),
                v == old(self)@.net,
                v.wf(),
                self@.lexer == old(self)@.lexer,
                self@.wf(),
                self@.net == each_over_each(v, high@, low@, i as nat),
                forall|k: int| 0 <= k < high@.len() ==> v.valid_transition(#[trigger] high@[k]),
                forall|k: int| 0 <= k < low@.len() ==> v.valid_transition(#[trigger] low@[k]),
            decreases high@.len() - i,
        {
            let ghost outer = self@.net;
            proof {
                lemma_each_over_each(v, high@, low@, i as nat);
                assert(v.valid_transition(high@[i as int]));
            }
            let mut j: usize = 0;
            while j < low.len()
                invariant
                    j <= low@.len(),
                    i < high@.len(),
                    outer.wf(),
                    outer.transitions.len() == v.transitions.len(),
                    outer.valid_transition(high@[i as int]),
                    self@.lexer == old(self)@.lexer,
                    self@.wf(),
                    self@.net == over_each(outer, high@[i as int], low@, j as nat),
                    forall|k: int| 0 <= k < low@.len() ==> outer.valid_transition(#[trigger] low@[k]),
                decreases low@.len() - j,
            {
                proof {
                    lemma_over_each(outer, high@[i as int], low@, j as nat);
                    assert(outer.valid_transition(low@[j as int]));
                    self@.net.lemma_add_priority(high@[i as int], low@[j as int]);
                }
                self.net.add_priority(high[i], low[j]);
                j += 1;
            }
            proof {
                lemma_over_each(outer, high@[i as int], low@, low@.len());
            }
            i += 1;
        }
        proof {
            lemma_each_over_each(v, high@, low@, high@.len());
        }
    }

    /// Reads a line `pr <tr>+ (>|<) <tr>+`.
    fn parse_priority(&mut self) -> (r: Result<(), ParserError>)
        requires
            old(self)@.wf(),
        ensures
            step(r, final(self)@, old(self)@, priority_line(old(self)@)),
            r is Ok ==> moved(old(self)@.lexer, final(self)@.lexer),
    {
        proof {
            self@.lexer.lemma_read();
        }
        let _ = self.lexer.read()?;
        let pre = self.parse_names()?;
        let ghost p1 = self@;
        proof {
            self@.lexer.lemma_read();
        }
        let token = self.lexer.read()?;
        let order = match token.kind {
            Kind::GreaterThan => false,
            Kind::LessThan => true,
            other => {
                return Err(
                    ParserError::UnexpectedToken(
                        Token { kind: other, position: token.position },
                        "Expected TokenKind::GreaterThan or TokenKind::LessThan".to_owned(),
                    ),
                );
            },
        };
        let post = self.parse_names()?;
        proof {
            assert forall|i: int| 0 <= i < pre@.len() implies self@.net.valid_transition(
                #[trigger] pre@[i],
            ) by {
                assert(p1.net.valid_transition(pre@[i]));
            }
        }
        if order {
            self.add_priorities(&post, &pre);
        } else {
            self.add_priorities(&pre, &post);
        }
        Ok(())
    }

    /// Reads the line that begins with the token `token`, which was looked at.
    fn parse_line(&mut self, token: Token) -> (r: Result<(), ParserError>)
        requires
            old(self)@.wf(),
            old(self)@.lexer.next == Some(token@),
            !(token@.kind is EndOfFile),
        ensures
            step(r, final(self)@, old(self)@, line(old(self)@, token@)),
            r is Ok ==> final(self)@.lexer.left() < old(self)@.lexer.left(),
    {
        proof {
            reveal(line);
            self@.lexer.lemma_read();
        }
        match token.kind {
            Kind::NewLine => {
                let _ = self.lexer.read()?;
                Ok(())
            },
            Kind::Comment(_) => {
                let _ = self.lexer.read()?;
                Ok(())
            },
            Kind::Net => self.parse_net(),
            Kind::Transition => self.parse_transition(),
            Kind::Place => self.parse_place(),
            Kind::Note => self.parse_note(),
            Kind::Label => self.parse_label(),
            Kind::Priority => self.parse_priority(),
            other => Err(
                ParserError::UnexpectedToken(
                    Token { kind: other, position: token.position },
                    "This token can not start a line".to_owned(),
                ),
            ),
        }
    }

    /// Reads the text into a net.
    ///
    /// The text is read line by line up to its end; the first line that cannot be read
    /// gives the error.
    pub fn parse(self) -> (r: Result<Net, ParserError>)
        requires
            self@.wf(),
        ensures
            match lines(self@) {
                Ok(p) => r is Ok && r->Ok_0@ == p.net && r->Ok_0.wf(),
                Err(e) => r is Err && r->Err_0@ == e,
            },
    {
        let mut parser = self;
        loop
            invariant
                parser@.wf(),
                lines(parser@) == lines(self@),
            decreases parser@.lexer.left(),
        {
            let ghost p = parser@;
            proof {
                p.lexer.lemma_peek();
            }
            let token = parser.lexer.peek()?;
            match token.kind {
                Kind::EndOfFile => {
                    return Ok(parser.net);
                },
                _ => {},
            }
            parser.parse_line(token)?;
        }
    }
}

} // verus!
