//! Reading back what was written: the tokens of a net, and the net that the parser
//! builds from them.
use vstd::prelude::*;
use crate::arc;
use crate::ids::{NodeId, PlaceId, TransitionId};
use crate::timed::net::NetView;
use crate::timed::time_range::{Bound, TimeRange};
use crate::tina::lexer::{next_token, LexerView};
use crate::tina::parser::{
    each_over_each, over_each, priority_line, transitions_named,
    arcs, arrow, line, lines, net_line, both_sides, ends_plain_arc, inline_label, input_arc,
    interval, labelled, marked, marking, name, number, other_end, output_arc, place_line,
    place_named, place_of, timed, transition_line, transition_named, transition_of, with_arc,
    ParserView,
};
use crate::tina::reader::ReaderView;
use crate::tina::token::{KindView, TokenView};

verus! {

/// A spot in a text: a reader, and the kind of the token that was read last before it.
pub struct Spot {
    /// The reader.
    pub r: ReaderView,
    /// The kind of the token that was read last.
    pub k: KindView,
}

/// A token comes next at the spot, and the reader behind it stands further on in the
/// same text.
#[verifier::opaque]
pub open spec fn has_next(s: Spot) -> bool {
    &&& next_token(s.r, s.k) is Ok
    &&& next_token(s.r, s.k)->Ok_0.1.offset > s.r.offset
    &&& next_token(s.r, s.k)->Ok_0.1.offset <= s.r.bytes.len()
    &&& next_token(s.r, s.k)->Ok_0.1.bytes == s.r.bytes
}

/// The kind of the token that comes next at the spot.
pub open spec fn next_kind(s: Spot) -> KindView {
    next_token(s.r, s.k)->Ok_0.0.kind
}

/// The spot behind the token that comes next.
pub open spec fn next_spot(s: Spot) -> Spot {
    Spot { r: next_token(s.r, s.k)->Ok_0.1, k: next_kind(s) }
}

/// The spot behind the next `n` tokens.
pub open spec fn skip(s: Spot, n: nat) -> Spot
    decreases n,
{
    if n == 0 {
        s
    } else {
        skip(next_spot(s), (n - 1) as nat)
    }
}

/// The tokens that come next at the spot are of the kinds `kinds`.
#[verifier::opaque]
pub open spec fn stream(s: Spot, kinds: Seq<KindView>) -> bool
    decreases kinds.len(),
{
    kinds.len() > 0 ==> has_next(s) && next_kind(s) == kinds[0] && stream(
        next_spot(s),
        kinds.drop_first(),
    )
}

/// Where tokens come next, the first of them is the token that comes next, and the
/// others come behind it.
pub proof fn lemma_stream_first(s: Spot, kinds: Seq<KindView>)
    requires
        stream(s, kinds),
        kinds.len() > 0,
    ensures
        has_next(s),
        next_kind(s) == kinds[0],
        stream(next_spot(s), kinds.drop_first()),
{
    reveal_with_fuel(stream, 2);
}

/// Behind some of the tokens that come next come the others.
pub proof fn lemma_stream_split(s: Spot, a: Seq<KindView>, b: Seq<KindView>)
    requires
        stream(s, a + b),
    ensures
        stream(s, a),
        stream(skip(s, a.len()), b),
        skip(s, a.len()).r.bytes == s.r.bytes,
        skip(s, a.len()).r.offset >= s.r.offset + a.len(),
        skip(s, a.len()).r.offset <= s.r.bytes.len() || a.len() == 0,
    decreases a.len(),
{
    reveal(has_next);
    reveal_with_fuel(stream, 2);
    if a.len() == 0 {
        assert(a + b =~= b);
    } else {
        assert((a + b)[0] == a[0]);
        assert((a + b).drop_first() =~= a.drop_first() + b);
        lemma_stream_split(next_spot(s), a.drop_first(), b);
    }
}

/// Tokens, and more tokens behind them, are the tokens of both.
pub proof fn lemma_stream_join(s: Spot, a: Seq<KindView>, b: Seq<KindView>)
    requires
        stream(s, a),
        stream(skip(s, a.len()), b),
    ensures
        stream(s, a + b),
    decreases a.len(),
{
    reveal_with_fuel(stream, 2);
    if a.len() == 0 {
        assert(a + b =~= b);
    } else {
        assert((a + b)[0] == a[0]);
        assert((a + b).drop_first() =~= a.drop_first() + b);
        lemma_stream_join(next_spot(s), a.drop_first(), b);
    }
}

/// Skipping some tokens and then more is skipping all of them.
pub proof fn lemma_skip_add(s: Spot, m: nat, n: nat)
    ensures
        skip(skip(s, m), n) == skip(s, m + n),
    decreases m,
{
    if m > 0 {
        lemma_skip_add(next_spot(s), (m - 1) as nat, n);
    }
}

/// The lexer stands at the spot: it has read up to there, and it may have looked at the
/// token that comes next.
#[verifier::opaque]
pub open spec fn stands(l: LexerView, s: Spot) -> bool {
    &&& l.current.kind == s.k
    &&& l.consumed == s.r.offset
    &&& l.reader.bytes == s.r.bytes
    &&& s.r.offset <= s.r.bytes.len()
    &&& match l.next {
        None => l.reader == s.r,
        Some(t) => next_token(s.r, s.k) is Ok && next_token(s.r, s.k)->Ok_0 == (t, l.reader),
    }
}

/// What looking at and reading the next token gives where the lexer stands at a spot:
/// the token that comes next there. After looking the lexer still stands at the spot,
/// after reading it stands behind the token.
pub proof fn lemma_step(l: LexerView, s: Spot)
    requires
        stands(l, s),
        has_next(s),
    ensures
        l.peek() is Ok,
        l.peek()->Ok_0.0.kind == next_kind(s),
        stands(l.peek()->Ok_0.1, s),
        l.peek()->Ok_0.1.left() == l.left(),
        l.read() is Ok,
        l.read()->Ok_0.0.kind == next_kind(s),
        l.read()->Ok_0.0 == l.peek()->Ok_0.0,
        stands(l.read()->Ok_0.1, next_spot(s)),
        l.peek()->Ok_0.1.read() == l.read(),
        l.left() == s.r.bytes.len() - s.r.offset,
        l.read()->Ok_0.1.left() < l.left(),
{
    reveal(has_next);
    reveal(stands);
}

/// The tokens of a label: the colon and the label, or nothing.
pub open spec fn label_kinds(label: Option<Seq<char>>) -> Seq<KindView> {
    match label {
        Some(l) => seq![KindView::InlineLabel, KindView::Identifier(l)],
        None => Seq::empty(),
    }
}

/// The tokens of the tokens of a place at the start: the number, or nothing for none.
pub open spec fn marking_kinds(initial: usize) -> Seq<KindView> {
    if initial == 0 {
        Seq::empty()
    } else {
        seq![KindView::Int(initial)]
    }
}

/// The net with the label, if there is one.
pub open spec fn with_label(net: NetView, id: NodeId, label: Option<Seq<char>>) -> NetView {
    match label {
        Some(l) => labelled(net, id, l),
        None => net,
    }
}

/// A name is read where a name comes next.
pub proof fn lemma_name(l: LexerView, s: Spot, n: Seq<char>, rest: Seq<KindView>)
    requires
        stands(l, s),
        stream(s, seq![KindView::Identifier(n)] + rest),
    ensures
        name(l) is Ok,
        name(l)->Ok_0.0 == n,
        stands(name(l)->Ok_0.1, skip(s, 1)),
        stream(skip(s, 1), rest),
        name(l)->Ok_0.1.left() < l.left(),
{
    let kinds = seq![KindView::Identifier(n)] + rest;
    assert(kinds[0] == KindView::Identifier(n));
    assert(kinds.drop_first() =~= rest);
    lemma_stream_first(s, kinds);
    lemma_step(l, s);
    assert(skip(s, 1) == skip(next_spot(s), 0));
}

/// The label of a node is read where the tokens of a label come next, and behind them a
/// token that is no colon.
pub proof fn lemma_inline_label(
    p: ParserView,
    s: Spot,
    id: NodeId,
    label: Option<Seq<char>>,
    rest: Seq<KindView>,
)
    requires
        stands(p.lexer, s),
        stream(s, label_kinds(label) + rest),
        rest.len() > 0,
        !(rest[0] is InlineLabel),
    ensures
        inline_label(p, id) is Ok,
        inline_label(p, id)->Ok_0.net == with_label(p.net, id, label),
        stands(inline_label(p, id)->Ok_0.lexer, skip(s, label_kinds(label).len())),
        stream(skip(s, label_kinds(label).len()), rest),
        inline_label(p, id)->Ok_0.lexer.left() <= p.lexer.left(),
{
    let kinds = label_kinds(label) + rest;
    match label {
        Some(text) => {
            assert(kinds[0] == KindView::InlineLabel);
            assert(kinds.drop_first() =~= seq![KindView::Identifier(text)] + rest);
            lemma_stream_first(s, kinds);
            lemma_step(p.lexer, s);
            let l1 = p.lexer.peek()->Ok_0.1;
            let l2 = l1.read()->Ok_0.1;
            lemma_name(l2, next_spot(s), text, rest);
            assert(skip(s, 2) == skip(next_spot(s), 1));
        },
        None => {
            assert(kinds =~= rest);
            lemma_stream_first(s, rest);
            lemma_step(p.lexer, s);
        },
    }
}

/// The tokens of a place are read where their number comes next, or a token that is no
/// number.
pub proof fn lemma_marking(p: ParserView, s: Spot, pl: PlaceId, initial: usize, rest: Seq<KindView>)
    requires
        stands(p.lexer, s),
        stream(s, marking_kinds(initial) + rest),
        rest.len() > 0,
        !(rest[0] is Int),
        p.net.places[pl.0 as int].initial == 0,
    ensures
        marking(p, pl) is Ok,
        marking(p, pl)->Ok_0.net == (if initial == 0 {
            p.net
        } else {
            marked(p.net, pl, initial)
        }),
        stands(marking(p, pl)->Ok_0.lexer, skip(s, marking_kinds(initial).len())),
        stream(skip(s, marking_kinds(initial).len()), rest),
        marking(p, pl)->Ok_0.lexer.left() <= p.lexer.left(),
{
    let kinds = marking_kinds(initial) + rest;
    if initial == 0 {
        assert(kinds =~= rest);
        lemma_stream_first(s, rest);
        lemma_step(p.lexer, s);
    } else {
        assert(kinds[0] == KindView::Int(initial));
        assert(kinds.drop_first() =~= rest);
        lemma_stream_first(s, kinds);
        lemma_step(p.lexer, s);
        assert(skip(s, 1) == skip(next_spot(s), 0));
    }
}

/// A line without arcs ends where the end of the line comes next.
pub proof fn lemma_no_arcs(p: ParserView, s: Spot, fixed: NodeId, rest: Seq<KindView>)
    requires
        stands(p.lexer, s),
        stream(s, rest),
        rest.len() > 0,
        rest[0] is NewLine,
    ensures
        both_sides(p, fixed) is Ok,
        both_sides(p, fixed)->Ok_0.net == p.net,
        stands(both_sides(p, fixed)->Ok_0.lexer, s),
        both_sides(p, fixed)->Ok_0.lexer.left() == p.lexer.left(),
{
    reveal(both_sides);
    lemma_stream_first(s, rest);
    lemma_step(p.lexer, s);
}

/// The tokens of the line of a place, without the end of the line.
pub open spec fn place_kinds(n: Seq<char>, label: Option<Seq<char>>, initial: usize) -> Seq<KindView> {
    seq![KindView::Place, KindView::Identifier(n)] + label_kinds(label) + marking_kinds(initial)
}

/// The net with one more place, as the line of the place makes it.
pub open spec fn place_added(
    net: NetView,
    n: Seq<char>,
    label: Option<Seq<char>>,
    initial: usize,
) -> NetView {
    let pl = place_named(net, n)->Ok_0.0;
    let named = place_named(net, n)->Ok_0.1;
    let with = with_label(named, NodeId::Place(pl), label);
    if initial == 0 {
        with
    } else {
        marked(with, pl, initial)
    }
}

/// The word that begins a line and the name behind it are read.
pub proof fn lemma_line_head(l: LexerView, s: Spot, word: KindView, n: Seq<char>, rest: Seq<KindView>)
    requires
        stands(l, s),
        stream(s, seq![word, KindView::Identifier(n)] + rest),
    ensures
        l.read() is Ok,
        name(l.read()->Ok_0.1) is Ok,
        name(l.read()->Ok_0.1)->Ok_0.0 == n,
        stands(name(l.read()->Ok_0.1)->Ok_0.1, skip(s, 2)),
        stream(skip(s, 2), rest),
        name(l.read()->Ok_0.1)->Ok_0.1.left() < l.left(),
{
    let kinds = seq![word, KindView::Identifier(n)] + rest;
    assert(kinds[0] == word);
    assert(kinds.drop_first() =~= seq![KindView::Identifier(n)] + rest);
    lemma_stream_first(s, kinds);
    lemma_step(l, s);
    lemma_name(l.read()->Ok_0.1, next_spot(s), n, rest);
    assert(skip(s, 2) == skip(next_spot(s), 1));
}

/// What stands behind the name on the line of a place is read: the label, if there is
/// one, and the tokens, if there are any.
pub proof fn lemma_place_tail(
    p: ParserView,
    s: Spot,
    pl: PlaceId,
    label: Option<Seq<char>>,
    initial: usize,
    rest: Seq<KindView>,
)
    requires
        stands(p.lexer, s),
        stream(s, label_kinds(label) + marking_kinds(initial) + rest),
        rest.len() > 0,
        rest[0] is NewLine,
        p.net.places[pl.0 as int].initial == 0,
        0 <= pl.0 < p.net.places.len(),
    ensures
        inline_label(p, NodeId::Place(pl)) is Ok,
        marking(inline_label(p, NodeId::Place(pl))->Ok_0, pl) is Ok,
        both_sides(marking(inline_label(p, NodeId::Place(pl))->Ok_0, pl)->Ok_0, NodeId::Place(pl)) is Ok,
        ({
            let end = both_sides(
                marking(inline_label(p, NodeId::Place(pl))->Ok_0, pl)->Ok_0,
                NodeId::Place(pl),
            )->Ok_0;
            let with = with_label(p.net, NodeId::Place(pl), label);
            &&& end.net == (if initial == 0 {
                with
            } else {
                marked(with, pl, initial)
            })
            &&& stands(end.lexer, skip(s, label_kinds(label).len() + marking_kinds(initial).len()))
            &&& stream(skip(s, label_kinds(label).len() + marking_kinds(initial).len()), rest)
            &&& end.lexer.left() <= p.lexer.left()
        }),
{
    let lab = label_kinds(label);
    let mark = marking_kinds(initial);
    assert(lab + mark + rest =~= lab + (mark + rest));
    assert((mark + rest).len() > 0);
    assert(!((mark + rest)[0] is InlineLabel));
    lemma_inline_label(p, s, NodeId::Place(pl), label, mark + rest);
    let p2 = inline_label(p, NodeId::Place(pl))->Ok_0;
    let s3 = skip(s, lab.len());
    assert(p2.net.places[pl.0 as int].initial == 0);
    lemma_marking(p2, s3, pl, initial, rest);
    let p3 = marking(p2, pl)->Ok_0;
    let s4 = skip(s3, mark.len());
    lemma_no_arcs(p3, s4, NodeId::Place(pl), rest);
    lemma_skip_add(s, lab.len(), mark.len());
}

/// The line of a place is read as it was written.
pub proof fn lemma_place_line(
    p: ParserView,
    s: Spot,
    n: Seq<char>,
    label: Option<Seq<char>>,
    initial: usize,
    rest: Seq<KindView>,
)
    requires
        stands(p.lexer, s),
        stream(s, place_kinds(n, label, initial) + rest),
        rest.len() > 0,
        rest[0] is NewLine,
        place_named(p.net, n) is Ok,
        place_named(p.net, n)->Ok_0.0.0 < place_named(p.net, n)->Ok_0.1.places.len(),
        place_named(p.net, n)->Ok_0.1.places[place_named(p.net, n)->Ok_0.0.0 as int].initial == 0,
    ensures
        place_line(p) is Ok,
        place_line(p)->Ok_0.net == place_added(p.net, n, label, initial),
        stands(place_line(p)->Ok_0.lexer, skip(s, place_kinds(n, label, initial).len())),
        stream(skip(s, place_kinds(n, label, initial).len()), rest),
        place_line(p)->Ok_0.lexer.left() < p.lexer.left(),
{
    let lab = label_kinds(label);
    let mark = marking_kinds(initial);
    let kinds = place_kinds(n, label, initial) + rest;
    assert(kinds =~= seq![KindView::Place, KindView::Identifier(n)] + (lab + mark + rest));
    lemma_line_head(p.lexer, s, KindView::Place, n, lab + mark + rest);
    let l2 = name(p.lexer.read()->Ok_0.1)->Ok_0.1;
    let pl = place_named(p.net, n)->Ok_0.0;
    let n1 = place_named(p.net, n)->Ok_0.1;
    let p1 = ParserView { lexer: l2, net: n1 };
    lemma_place_tail(p1, skip(s, 2), pl, label, initial, rest);
    lemma_skip_add(s, 2, lab.len() + mark.len());
    assert(place_kinds(n, label, initial).len() == 2 + lab.len() + mark.len());
}

/// How an arc is marked in the text.
pub enum Mark {
    /// By `*`, or by nothing for the weight one: the arc consumes or produces.
    Normal,
    /// By `?`: the arc tests.
    Test,
    /// By `?-`: the arc inhibits.
    Inhibitor,
}

/// An arc as it stands on a line: the name of the node at its other end, its mark and
/// its weight.
pub struct Written {
    /// The name of the node at the other end.
    pub name: Seq<char>,
    /// The mark.
    pub mark: Mark,
    /// The weight.
    pub weight: usize,
}

/// The tokens of one arc.
pub open spec fn arc_kinds(a: Written) -> Seq<KindView> {
    match a.mark {
        Mark::Normal => if a.weight == 1 {
            seq![KindView::Identifier(a.name)]
        } else {
            seq![KindView::Identifier(a.name), KindView::NormalArc, KindView::Int(a.weight)]
        },
        Mark::Test => seq![KindView::Identifier(a.name), KindView::TestArc, KindView::Int(a.weight)],
        Mark::Inhibitor => seq![
            KindView::Identifier(a.name),
            KindView::InhibitorArc,
            KindView::Int(a.weight),
        ],
    }
}

/// The tokens of arcs, one behind the other.
pub open spec fn arcs_kinds(all: Seq<Written>) -> Seq<KindView>
    decreases all.len(),
{
    if all.len() == 0 {
        Seq::empty()
    } else {
        arc_kinds(all[0]) + arcs_kinds(all.drop_first())
    }
}

/// The arc between a place and a transition that a written arc stands for, before the
/// arrow of a line of a transition (`consuming`) or behind it.
pub open spec fn arc_of(a: Written, pl: PlaceId, tr: TransitionId, consuming: bool) -> arc::Kind {
    if consuming {
        match a.mark {
            Mark::Normal => arc::Kind::Consume(pl, tr, a.weight),
            Mark::Test => arc::Kind::Test(pl, tr, a.weight),
            Mark::Inhibitor => arc::Kind::Inhibitor(pl, tr, a.weight),
        }
    } else {
        arc::Kind::Produce(pl, tr, a.weight)
    }
}

/// The net with one written arc added: the node at its other end is found or created,
/// and the arc is added.
pub open spec fn arc_added(net: NetView, fixed: NodeId, consuming: bool, a: Written) -> NetView {
    let other = other_end(net, fixed, a.name)->Ok_0.0;
    let named = other_end(net, fixed, a.name)->Ok_0.1;
    with_arc(named, arc_of(a, place_of(fixed, other), transition_of(fixed, other), consuming))->Ok_0
}

/// The written arc can be added to the net: the node at its other end is found or can
/// be created, and the net takes the arc.
pub open spec fn arc_fits(net: NetView, fixed: NodeId, consuming: bool, a: Written) -> bool {
    &&& other_end(net, fixed, a.name) is Ok
    &&& with_arc(
        other_end(net, fixed, a.name)->Ok_0.1,
        arc_of(
            a,
            place_of(fixed, other_end(net, fixed, a.name)->Ok_0.0),
            transition_of(fixed, other_end(net, fixed, a.name)->Ok_0.0),
            consuming,
        ),
    ) is Ok
    &&& !consuming ==> a.mark is Normal
}

/// The net with the written arcs added, one after the other.
pub open spec fn arcs_added(net: NetView, fixed: NodeId, consuming: bool, all: Seq<Written>) -> NetView
    decreases all.len(),
{
    if all.len() == 0 {
        net
    } else {
        arcs_added(arc_added(net, fixed, consuming, all[0]), fixed, consuming, all.drop_first())
    }
}

/// Each of the written arcs can be added to the net in its turn.
pub open spec fn arcs_fit(net: NetView, fixed: NodeId, consuming: bool, all: Seq<Written>) -> bool
    decreases all.len(),
{
    all.len() > 0 ==> arc_fits(net, fixed, consuming, all[0]) && arcs_fit(
        arc_added(net, fixed, consuming, all[0]),
        fixed,
        consuming,
        all.drop_first(),
    )
}

/// The mark and the weight of an arc are read where they come next, behind the name.
pub proof fn lemma_arc_mark(
    l: LexerView,
    s: Spot,
    a: Written,
    pl: PlaceId,
    tr: TransitionId,
    consuming: bool,
    rest: Seq<KindView>,
)
    requires
        stands(l, s),
        stream(s, arc_kinds(a).drop_first() + rest),
        rest.len() > 0,
        ends_plain_arc(rest[0]),
        !consuming ==> a.mark is Normal,
    ensures
        consuming ==> input_arc(l, pl, tr) is Ok && input_arc(l, pl, tr)->Ok_0.0 == arc_of(
            a,
            pl,
            tr,
            true,
        ) && stands(input_arc(l, pl, tr)->Ok_0.1, skip(s, (arc_kinds(a).len() - 1) as nat))
            && input_arc(l, pl, tr)->Ok_0.1.left() <= l.left(),
        !consuming ==> output_arc(l, pl, tr) is Ok && output_arc(l, pl, tr)->Ok_0.0 == arc_of(
            a,
            pl,
            tr,
            false,
        ) && stands(output_arc(l, pl, tr)->Ok_0.1, skip(s, (arc_kinds(a).len() - 1) as nat))
            && output_arc(l, pl, tr)->Ok_0.1.left() <= l.left(),
        stream(skip(s, (arc_kinds(a).len() - 1) as nat), rest),
{
    reveal(input_arc);
    reveal(output_arc);
    let kinds = arc_kinds(a).drop_first() + rest;
    if a.mark is Normal && a.weight == 1 {
        assert(arc_kinds(a).drop_first() =~= Seq::<KindView>::empty());
        assert(kinds =~= rest);
        lemma_stream_first(s, rest);
        lemma_step(l, s);
    } else {
        let mark = arc_kinds(a)[1];
        assert(arc_kinds(a).drop_first() =~= seq![mark, KindView::Int(a.weight)]);
        assert(kinds[0] == mark);
        assert(kinds.drop_first() =~= seq![KindView::Int(a.weight)] + rest);
        lemma_stream_first(s, kinds);
        lemma_step(l, s);
        let l1 = l.peek()->Ok_0.1;
        let l2 = l1.read()->Ok_0.1;
        let s1 = next_spot(s);
        let more = seq![KindView::Int(a.weight)] + rest;
        assert(more[0] == KindView::Int(a.weight));
        assert(more.drop_first() =~= rest);
        lemma_stream_first(s1, more);
        lemma_step(l2, s1);
        assert(skip(s, 2) == skip(next_spot(s), 1));
        assert(skip(s1, 1) == skip(next_spot(s1), 0));
    }
}

/// The tokens of arcs begin with a name, if there are any.
pub proof fn lemma_arcs_kinds_first(all: Seq<Written>)
    requires
        all.len() > 0,
    ensures
        arcs_kinds(all).len() > 0,
        arcs_kinds(all)[0] == KindView::Identifier(all[0].name),
        arcs_kinds(all).len() == arc_kinds(all[0]).len() + arcs_kinds(all.drop_first()).len(),
        arc_kinds(all[0]).len() >= 1,
        arc_kinds(all[0])[0] == KindView::Identifier(all[0].name),
{
}

/// The arcs on one side of the arrow are read as they were written.
pub proof fn lemma_arcs(
    p: ParserView,
    s: Spot,
    fixed: NodeId,
    consuming: bool,
    all: Seq<Written>,
    rest: Seq<KindView>,
)
    requires
        stands(p.lexer, s),
        stream(s, arcs_kinds(all) + rest),
        rest.len() > 0,
        rest[0] is Arrow || rest[0] is NewLine,
        arcs_fit(p.net, fixed, consuming, all),
    ensures
        arcs(p, fixed, consuming) is Ok,
        arcs(p, fixed, consuming)->Ok_0.net == arcs_added(p.net, fixed, consuming, all),
        stands(arcs(p, fixed, consuming)->Ok_0.lexer, skip(s, arcs_kinds(all).len())),
        stream(skip(s, arcs_kinds(all).len()), rest),
        arcs(p, fixed, consuming)->Ok_0.lexer.left() <= p.lexer.left(),
    decreases all.len(),
{
    reveal(arcs);
    if all.len() == 0 {
        assert(arcs_kinds(all) + rest =~= rest);
        lemma_stream_first(s, rest);
        lemma_step(p.lexer, s);
    } else {
        let a = all[0];
        let tail = all.drop_first();
        let behind = arcs_kinds(tail) + rest;
        let kinds = arcs_kinds(all) + rest;
        lemma_arcs_kinds_first(all);
        assert(kinds =~= arc_kinds(a) + behind);
        assert(kinds[0] == KindView::Identifier(a.name));
        assert(kinds.drop_first() =~= arc_kinds(a).drop_first() + behind);
        lemma_stream_first(s, kinds);
        lemma_step(p.lexer, s);
        let l2 = p.lexer.read()->Ok_0.1;
        let s1 = next_spot(s);
        let other = other_end(p.net, fixed, a.name)->Ok_0.0;
        let n1 = other_end(p.net, fixed, a.name)->Ok_0.1;
        let pl = place_of(fixed, other);
        let tr = transition_of(fixed, other);
        assert(ends_plain_arc(behind[0])) by {
            if tail.len() > 0 {
                lemma_arcs_kinds_first(tail);
            } else {
                assert(arcs_kinds(tail) =~= Seq::<KindView>::empty());
            }
        }
        lemma_arc_mark(l2, s1, a, pl, tr, consuming, behind);
        let l3 = if consuming {
            input_arc(l2, pl, tr)->Ok_0.1
        } else {
            output_arc(l2, pl, tr)->Ok_0.1
        };
        let n2 = arc_added(p.net, fixed, consuming, a);
        let s2 = skip(s1, (arc_kinds(a).len() - 1) as nat);
        assert(s2 == skip(s, arc_kinds(a).len())) by {
            assert(skip(s, arc_kinds(a).len()) == skip(next_spot(s), (arc_kinds(a).len() - 1) as nat));
        }
        lemma_arcs(ParserView { lexer: l3, net: n2 }, s2, fixed, consuming, tail, rest);
        lemma_skip_add(s, arc_kinds(a).len(), arcs_kinds(tail).len());
    }
}

/// The time range that new transitions have: from zero on, without end.
pub open spec fn always() -> TimeRange {
    TimeRange { start: Bound::Closed(0), end: Bound::Infinity }
}

/// The token of a time range, or nothing for the range that new transitions have.
pub open spec fn interval_kinds(time: TimeRange) -> Seq<KindView> {
    if time == always() {
        Seq::empty()
    } else {
        seq![KindView::TimeInterval(time.start, time.end)]
    }
}

/// The net with the time range of a transition narrowed, unless the range is the one
/// that new transitions have.
pub open spec fn with_interval(net: NetView, tr: TransitionId, time: TimeRange) -> NetView {
    if time == always() {
        net
    } else {
        timed(net, tr, time)
    }
}

/// The time range of a transition is read where it comes next, or a token that is no
/// time range.
pub proof fn lemma_interval(p: ParserView, s: Spot, tr: TransitionId, time: TimeRange, rest: Seq<KindView>)
    requires
        stands(p.lexer, s),
        stream(s, interval_kinds(time) + rest),
        rest.len() > 0,
        !(rest[0] is TimeInterval),
    ensures
        interval(p, tr) is Ok,
        interval(p, tr)->Ok_0.net == with_interval(p.net, tr, time),
        stands(interval(p, tr)->Ok_0.lexer, skip(s, interval_kinds(time).len())),
        stream(skip(s, interval_kinds(time).len()), rest),
        interval(p, tr)->Ok_0.lexer.left() <= p.lexer.left(),
{
    let kinds = interval_kinds(time) + rest;
    if time == always() {
        assert(kinds =~= rest);
        lemma_stream_first(s, rest);
        lemma_step(p.lexer, s);
    } else {
        assert(kinds[0] == KindView::TimeInterval(time.start, time.end));
        assert(kinds.drop_first() =~= rest);
        lemma_stream_first(s, kinds);
        lemma_step(p.lexer, s);
        assert(skip(s, 1) == skip(next_spot(s), 0));
    }
}

/// The tokens of the two sides of a line: the arcs before the arrow, the arrow, and the
/// arcs behind it.
pub open spec fn sides_kinds(before: Seq<Written>, behind: Seq<Written>) -> Seq<KindView> {
    arcs_kinds(before) + seq![KindView::Arrow] + arcs_kinds(behind)
}

/// The net with the arcs of the two sides of the line of a transition added.
pub open spec fn sides_added(
    net: NetView,
    fixed: NodeId,
    before: Seq<Written>,
    behind: Seq<Written>,
) -> NetView {
    arcs_added(arcs_added(net, fixed, fixed is Transition, before), fixed, fixed is Place, behind)
}

/// The arcs of the two sides of the line can be added, one after the other.
pub open spec fn sides_fit(
    net: NetView,
    fixed: NodeId,
    before: Seq<Written>,
    behind: Seq<Written>,
) -> bool {
    &&& arcs_fit(net, fixed, fixed is Transition, before)
    &&& arcs_fit(arcs_added(net, fixed, fixed is Transition, before), fixed, fixed is Place, behind)
}

/// The two sides of a line are read as they were written.
pub proof fn lemma_both_sides(
    p: ParserView,
    s: Spot,
    fixed: NodeId,
    before: Seq<Written>,
    behind: Seq<Written>,
    rest: Seq<KindView>,
)
    requires
        stands(p.lexer, s),
        stream(s, sides_kinds(before, behind) + rest),
        rest.len() > 0,
        rest[0] is NewLine,
        sides_fit(p.net, fixed, before, behind),
    ensures
        both_sides(p, fixed) is Ok,
        both_sides(p, fixed)->Ok_0.net == sides_added(p.net, fixed, before, behind),
        stands(both_sides(p, fixed)->Ok_0.lexer, skip(s, sides_kinds(before, behind).len())),
        stream(skip(s, sides_kinds(before, behind).len()), rest),
        both_sides(p, fixed)->Ok_0.lexer.left() < p.lexer.left(),
{
    reveal(both_sides);
    let first = arcs_kinds(before);
    let second = arcs_kinds(behind);
    let kinds = sides_kinds(before, behind) + rest;
    let tail = seq![KindView::Arrow] + (second + rest);
    assert(kinds =~= first + tail);
    assert(tail[0] == KindView::Arrow);
    assert(kinds[0] is Identifier || kinds[0] is Arrow) by {
        if before.len() > 0 {
            lemma_arcs_kinds_first(before);
            assert(kinds[0] == first[0]);
        } else {
            assert(first =~= Seq::<KindView>::empty());
            assert(kinds[0] == tail[0]);
        }
    }
    lemma_stream_first(s, kinds);
    lemma_step(p.lexer, s);
    let l1 = p.lexer.peek()->Ok_0.1;
    let p0 = ParserView { lexer: l1, net: p.net };
    lemma_arcs(p0, s, fixed, fixed is Transition, before, tail);
    let p1 = arcs(p0, fixed, fixed is Transition)->Ok_0;
    let s1 = skip(s, first.len());
    assert(tail.drop_first() =~= second + rest);
    lemma_stream_first(s1, tail);
    lemma_step(p1.lexer, s1);
    let l2 = arrow(p1.lexer)->Ok_0.1;
    let s2 = next_spot(s1);
    lemma_arcs(ParserView { lexer: l2, net: p1.net }, s2, fixed, fixed is Place, behind, rest);
    assert(s2 == skip(s, first.len() + 1)) by {
        lemma_skip_add(s, first.len(), 1);
        assert(skip(s1, 1) == skip(next_spot(s1), 0));
    }
    lemma_skip_add(s, first.len() + 1, second.len());
    assert(sides_kinds(before, behind).len() == first.len() + 1 + second.len());
}

/// The tokens of the line of a transition, without the end of the line.
pub open spec fn transition_kinds(
    n: Seq<char>,
    label: Option<Seq<char>>,
    time: TimeRange,
    before: Seq<Written>,
    behind: Seq<Written>,
) -> Seq<KindView> {
    seq![KindView::Transition, KindView::Identifier(n)] + label_kinds(label) + interval_kinds(time)
        + sides_kinds(before, behind)
}

/// The net with one more transition, as the line of the transition makes it.
pub open spec fn transition_added(
    net: NetView,
    n: Seq<char>,
    label: Option<Seq<char>>,
    time: TimeRange,
    before: Seq<Written>,
    behind: Seq<Written>,
) -> NetView {
    let tr = transition_named(net, n)->Ok_0.0;
    let named = transition_named(net, n)->Ok_0.1;
    transition_filled(named, tr, label, time, before, behind)
}

/// The net with what stands behind the name on the line of a transition.
pub open spec fn transition_filled(
    net: NetView,
    tr: TransitionId,
    label: Option<Seq<char>>,
    time: TimeRange,
    before: Seq<Written>,
    behind: Seq<Written>,
) -> NetView {
    sides_added(
        with_interval(with_label(net, NodeId::Transition(tr), label), tr, time),
        NodeId::Transition(tr),
        before,
        behind,
    )
}

/// What stands behind the name on the line of a transition is read: the label, the time
/// range and the arcs.
pub proof fn lemma_transition_tail(
    p: ParserView,
    s: Spot,
    tr: TransitionId,
    label: Option<Seq<char>>,
    time: TimeRange,
    before: Seq<Written>,
    behind: Seq<Written>,
    rest: Seq<KindView>,
)
    requires
        stands(p.lexer, s),
        stream(s, label_kinds(label) + interval_kinds(time) + sides_kinds(before, behind) + rest),
        rest.len() > 0,
        rest[0] is NewLine,
        sides_fit(
            with_interval(with_label(p.net, NodeId::Transition(tr), label), tr, time),
            NodeId::Transition(tr),
            before,
            behind,
        ),
    ensures
        inline_label(p, NodeId::Transition(tr)) is Ok,
        interval(inline_label(p, NodeId::Transition(tr))->Ok_0, tr) is Ok,
        both_sides(
            interval(inline_label(p, NodeId::Transition(tr))->Ok_0, tr)->Ok_0,
            NodeId::Transition(tr),
        ) is Ok,
        ({
            let end = both_sides(
                interval(inline_label(p, NodeId::Transition(tr))->Ok_0, tr)->Ok_0,
                NodeId::Transition(tr),
            )->Ok_0;
            let n = label_kinds(label).len() + interval_kinds(time).len() + sides_kinds(
                before,
                behind,
            ).len();
            &&& end.net == transition_filled(p.net, tr, label, time, before, behind)
            &&& stands(end.lexer, skip(s, n))
            &&& stream(skip(s, n), rest)
            &&& end.lexer.left() < p.lexer.left()
        }),
{
    let lab = label_kinds(label);
    let range = interval_kinds(time);
    let sides = sides_kinds(before, behind);
    assert(lab + range + sides + rest =~= lab + (range + (sides + rest)));
    assert(sides.len() > 0 && (sides[0] is Identifier || sides[0] is Arrow)) by {
        if before.len() > 0 {
            lemma_arcs_kinds_first(before);
            assert(sides[0] == arcs_kinds(before)[0]);
        } else {
            assert(arcs_kinds(before) =~= Seq::<KindView>::empty());
            assert(sides[0] == KindView::Arrow);
        }
    }
    assert((sides + rest)[0] == sides[0]);
    assert((range + (sides + rest)).len() > 0);
    assert(!((range + (sides + rest))[0] is InlineLabel)) by {
        if range.len() == 0 {
            assert(range + (sides + rest) =~= sides + rest);
        } else {
            assert((range + (sides + rest))[0] == range[0]);
        }
    }
    lemma_inline_label(p, s, NodeId::Transition(tr), label, range + (sides + rest));
    let p2 = inline_label(p, NodeId::Transition(tr))->Ok_0;
    let s2 = skip(s, lab.len());
    lemma_interval(p2, s2, tr, time, sides + rest);
    let p3 = interval(p2, tr)->Ok_0;
    let s3 = skip(s2, range.len());
    lemma_both_sides(p3, s3, NodeId::Transition(tr), before, behind, rest);
    lemma_skip_add(s, lab.len(), range.len());
    lemma_skip_add(s, lab.len() + range.len(), sides.len());
}

/// The line of a transition is read as it was written.
pub proof fn lemma_transition_line(
    p: ParserView,
    s: Spot,
    n: Seq<char>,
    label: Option<Seq<char>>,
    time: TimeRange,
    before: Seq<Written>,
    behind: Seq<Written>,
    rest: Seq<KindView>,
)
    requires
        stands(p.lexer, s),
        stream(s, transition_kinds(n, label, time, before, behind) + rest),
        rest.len() > 0,
        rest[0] is NewLine,
        transition_named(p.net, n) is Ok,
        sides_fit(
            with_interval(
                with_label(
                    transition_named(p.net, n)->Ok_0.1,
                    NodeId::Transition(transition_named(p.net, n)->Ok_0.0),
                    label,
                ),
                transition_named(p.net, n)->Ok_0.0,
                time,
            ),
            NodeId::Transition(transition_named(p.net, n)->Ok_0.0),
            before,
            behind,
        ),
    ensures
        transition_line(p) is Ok,
        transition_line(p)->Ok_0.net == transition_added(p.net, n, label, time, before, behind),
        stands(
            transition_line(p)->Ok_0.lexer,
            skip(s, transition_kinds(n, label, time, before, behind).len()),
        ),
        stream(skip(s, transition_kinds(n, label, time, before, behind).len()), rest),
        transition_line(p)->Ok_0.lexer.left() < p.lexer.left(),
{
    let lab = label_kinds(label);
    let range = interval_kinds(time);
    let sides = sides_kinds(before, behind);
    let kinds = transition_kinds(n, label, time, before, behind) + rest;
    assert(kinds =~= seq![KindView::Transition, KindView::Identifier(n)] + (lab + range + sides
        + rest));
    lemma_line_head(p.lexer, s, KindView::Transition, n, lab + range + sides + rest);
    let l2 = name(p.lexer.read()->Ok_0.1)->Ok_0.1;
    let tr = transition_named(p.net, n)->Ok_0.0;
    let n1 = transition_named(p.net, n)->Ok_0.1;
    let p1 = ParserView { lexer: l2, net: n1 };
    lemma_transition_tail(p1, skip(s, 2), tr, label, time, before, behind, rest);
    lemma_skip_add(s, 2, lab.len() + range.len() + sides.len());
    assert(transition_kinds(n, label, time, before, behind).len() == 2 + lab.len() + range.len()
        + sides.len());
}

/// The parser after it has looked at the next token.
pub open spec fn looked(p: ParserView) -> ParserView {
    ParserView { lexer: p.lexer.peek()->Ok_0.1, net: p.net }
}

/// The parser after it has read the end of the line.
pub open spec fn line_ended(p: ParserView) -> ParserView {
    ParserView { lexer: p.lexer.read()->Ok_0.1, net: p.net }
}

/// The line that begins with a token is the line of the kind of the token.
pub proof fn lemma_line_kind(p: ParserView, t: TokenView)
    ensures
        t.kind is Place ==> line(p, t) == place_line(p),
        t.kind is Transition ==> line(p, t) == transition_line(p),
        t.kind is Net ==> line(p, t) == net_line(p),
        t.kind is Priority ==> line(p, t) == priority_line(p),
        t.kind is NewLine && p.lexer.read() is Ok ==> line(p, t) is Ok && line(p, t)->Ok_0 == (
        ParserView { lexer: p.lexer.read()->Ok_0.1, net: p.net }),
{
    reveal(line);
}

/// Behind a line that was read comes the end of the line, and behind it the lines that
/// are left: reading the lines goes on behind the end of the line.
pub proof fn lemma_next_line(before: ParserView, p: ParserView, s: Spot, rest: Seq<KindView>)
    requires
        stands(p.lexer, s),
        stream(s, seq![KindView::NewLine] + rest),
        p.lexer.left() < before.lexer.left(),
    ensures
        lines(p) == lines(line_ended(looked(p))),
        line_ended(looked(p)).net == p.net,
        stands(line_ended(looked(p)).lexer, skip(s, 1)),
        stream(skip(s, 1), rest),
        line_ended(looked(p)).lexer.left() < before.lexer.left(),
{
    let kinds = seq![KindView::NewLine] + rest;
    assert(kinds[0] == KindView::NewLine);
    assert(kinds.drop_first() =~= rest);
    lemma_stream_first(s, kinds);
    lemma_step(p.lexer, s);
    lemma_step(looked(p).lexer, s);
    lemma_line_kind(looked(p), p.lexer.peek()->Ok_0.0);
    assert(skip(s, 1) == skip(next_spot(s), 0));
}

/// A line of a place and the end of the line are read, and reading the lines goes on
/// behind them with the net that has the place.
pub proof fn lemma_lines_place(
    p: ParserView,
    s: Spot,
    n: Seq<char>,
    label: Option<Seq<char>>,
    initial: usize,
    rest: Seq<KindView>,
) -> (next: ParserView)
    requires
        stands(p.lexer, s),
        stream(s, place_kinds(n, label, initial) + seq![KindView::NewLine] + rest),
        place_named(p.net, n) is Ok,
        place_named(p.net, n)->Ok_0.0.0 < place_named(p.net, n)->Ok_0.1.places.len(),
        place_named(p.net, n)->Ok_0.1.places[place_named(p.net, n)->Ok_0.0.0 as int].initial == 0,
    ensures
        lines(p) == lines(next),
        next.net == place_added(p.net, n, label, initial),
        stands(next.lexer, skip(s, place_kinds(n, label, initial).len() + 1)),
        stream(skip(s, place_kinds(n, label, initial).len() + 1), rest),
{
    let own = place_kinds(n, label, initial);
    let tail = seq![KindView::NewLine] + rest;
    assert(own + seq![KindView::NewLine] + rest =~= own + tail);
    assert((own + tail)[0] == KindView::Place);
    lemma_stream_first(s, own + tail);
    lemma_step(p.lexer, s);
    let p1 = looked(p);
    assert(tail[0] is NewLine);
    lemma_line_kind(p1, p.lexer.peek()->Ok_0.0);
    lemma_place_line(p1, s, n, label, initial, tail);
    let p2 = place_line(p1)->Ok_0;
    lemma_next_line(p, p2, skip(s, own.len()), rest);
    lemma_skip_add(s, own.len(), 1);
    line_ended(looked(p2))
}

/// A line of a transition and the end of the line are read, and reading the lines goes
/// on behind them with the net that has the transition.
pub proof fn lemma_lines_transition(
    p: ParserView,
    s: Spot,
    n: Seq<char>,
    label: Option<Seq<char>>,
    time: TimeRange,
    before: Seq<Written>,
    behind: Seq<Written>,
    rest: Seq<KindView>,
) -> (next: ParserView)
    requires
        stands(p.lexer, s),
        stream(
            s,
            transition_kinds(n, label, time, before, behind) + seq![KindView::NewLine] + rest,
        ),
        transition_named(p.net, n) is Ok,
        sides_fit(
            with_interval(
                with_label(
                    transition_named(p.net, n)->Ok_0.1,
                    NodeId::Transition(transition_named(p.net, n)->Ok_0.0),
                    label,
                ),
                transition_named(p.net, n)->Ok_0.0,
                time,
            ),
            NodeId::Transition(transition_named(p.net, n)->Ok_0.0),
            before,
            behind,
        ),
    ensures
        lines(p) == lines(next),
        next.net == transition_added(p.net, n, label, time, before, behind),
        stands(next.lexer, skip(s, transition_kinds(n, label, time, before, behind).len() + 1)),
        stream(skip(s, transition_kinds(n, label, time, before, behind).len() + 1), rest),
{
    let own = transition_kinds(n, label, time, before, behind);
    let tail = seq![KindView::NewLine] + rest;
    assert(own + seq![KindView::NewLine] + rest =~= own + tail);
    assert((own + tail)[0] == KindView::Transition);
    lemma_stream_first(s, own + tail);
    lemma_step(p.lexer, s);
    let p1 = looked(p);
    assert(tail[0] is NewLine);
    lemma_line_kind(p1, p.lexer.peek()->Ok_0.0);
    lemma_transition_line(p1, s, n, label, time, before, behind, tail);
    let p2 = transition_line(p1)->Ok_0;
    lemma_next_line(p, p2, skip(s, own.len()), rest);
    lemma_skip_add(s, own.len(), 1);
    line_ended(looked(p2))
}

/// The line of the name of the net and the end of the line are read, and reading the
/// lines goes on behind them with the net that has the name.
pub proof fn lemma_lines_net(p: ParserView, s: Spot, n: Seq<char>, rest: Seq<KindView>) -> (next:
    ParserView)
    requires
        stands(p.lexer, s),
        stream(s, seq![KindView::Net, KindView::Identifier(n), KindView::NewLine] + rest),
    ensures
        lines(p) == lines(next),
        next.net == (NetView { name: n, ..p.net }),
        stands(next.lexer, skip(s, 3)),
        stream(skip(s, 3), rest),
{
    let kinds = seq![KindView::Net, KindView::Identifier(n), KindView::NewLine] + rest;
    let tail = seq![KindView::NewLine] + rest;
    assert(kinds =~= seq![KindView::Net, KindView::Identifier(n)] + tail);
    assert(kinds[0] == KindView::Net);
    lemma_stream_first(s, kinds);
    lemma_step(p.lexer, s);
    let p1 = looked(p);
    lemma_line_kind(p1, p.lexer.peek()->Ok_0.0);
    lemma_line_head(p1.lexer, s, KindView::Net, n, tail);
    let p2 = net_line(p1)->Ok_0;
    lemma_next_line(p, p2, skip(s, 2), rest);
    lemma_skip_add(s, 2, 1);
    line_ended(looked(p2))
}

/// The tokens of names, one behind the other.
pub open spec fn names_kinds(names: Seq<Seq<char>>) -> Seq<KindView> {
    Seq::new(names.len(), |i: int| KindView::Identifier(names[i]))
}

/// The tokens of the line of the priorities of a transition, without the end of the
/// line: the word, the name of the transition, the sign, and the names of the
/// transitions that it has priority over.
pub open spec fn priority_kinds(n: Seq<char>, lows: Seq<Seq<char>>) -> Seq<KindView> {
    seq![KindView::Priority, KindView::Identifier(n), KindView::GreaterThan] + names_kinds(lows)
}

/// Names of transitions of the net are read as those transitions.
pub proof fn lemma_transitions_named(
    p: ParserView,
    s: Spot,
    found: Seq<TransitionId>,
    names: Seq<Seq<char>>,
    ids: Seq<TransitionId>,
    rest: Seq<KindView>,
)
    requires
        stands(p.lexer, s),
        stream(s, names_kinds(names) + rest),
        rest.len() > 0,
        !(rest[0] is Identifier),
        names.len() == ids.len(),
        forall|i: int|
            0 <= i < names.len() ==> transition_named(p.net, #[trigger] names[i]) is Ok
                && transition_named(p.net, names[i])->Ok_0 == (ids[i], p.net),
    ensures
        transitions_named(p, found) is Ok,
        (transitions_named(p, found)->Ok_0).0 == found + ids,
        (transitions_named(p, found)->Ok_0).1.net == p.net,
        stands((transitions_named(p, found)->Ok_0).1.lexer, skip(s, names.len())),
        stream(skip(s, names.len()), rest),
        (transitions_named(p, found)->Ok_0).1.lexer.left() <= p.lexer.left(),
    decreases names.len(),
{
    reveal(transitions_named);
    let kinds = names_kinds(names) + rest;
    if names.len() == 0 {
        assert(kinds =~= rest);
        assert(found + ids =~= found);
        lemma_stream_first(s, rest);
        lemma_step(p.lexer, s);
    } else {
        let n = names[0];
        let tail = names.drop_first();
        assert(kinds[0] == KindView::Identifier(n));
        assert(kinds.drop_first() =~= names_kinds(tail) + rest);
        lemma_stream_first(s, kinds);
        lemma_step(p.lexer, s);
        let l2 = p.lexer.read()->Ok_0.1;
        assert(transition_named(p.net, names[0])->Ok_0 == (ids[0], p.net));
        let next = ParserView { lexer: l2, net: p.net };
        assert forall|i: int| 0 <= i < tail.len() implies transition_named(
            next.net,
            #[trigger] tail[i],
        ) is Ok && transition_named(next.net, tail[i])->Ok_0 == (ids.drop_first()[i], next.net) by {
            assert(tail[i] == names[i + 1]);
        }
        lemma_transitions_named(next, next_spot(s), found.push(ids[0]), tail, ids.drop_first(), rest);
        assert(found.push(ids[0]) + ids.drop_first() =~= found + ids);
        assert(skip(s, names.len()) == skip(next_spot(s), tail.len()));
    }
}

/// The line of the priorities of a transition over transitions of the net is read as it
/// was written.
pub proof fn lemma_priority_line(
    p: ParserView,
    s: Spot,
    n: Seq<char>,
    tr: TransitionId,
    lows: Seq<Seq<char>>,
    ids: Seq<TransitionId>,
    rest: Seq<KindView>,
)
    requires
        stands(p.lexer, s),
        stream(s, priority_kinds(n, lows) + rest),
        rest.len() > 0,
        rest[0] is NewLine,
        lows.len() == ids.len(),
        transition_named(p.net, n) is Ok,
        transition_named(p.net, n)->Ok_0 == (tr, p.net),
        forall|i: int|
            0 <= i < lows.len() ==> transition_named(p.net, #[trigger] lows[i]) is Ok
                && transition_named(p.net, lows[i])->Ok_0 == (ids[i], p.net),
    ensures
        priority_line(p) is Ok,
        priority_line(p)->Ok_0.net == over_each(p.net, tr, ids, ids.len()),
        stands(priority_line(p)->Ok_0.lexer, skip(s, priority_kinds(n, lows).len())),
        stream(skip(s, priority_kinds(n, lows).len()), rest),
        priority_line(p)->Ok_0.lexer.left() < p.lexer.left(),
{
    let kinds = priority_kinds(n, lows) + rest;
    let behind = seq![KindView::GreaterThan] + (names_kinds(lows) + rest);
    assert(kinds =~= seq![KindView::Priority] + (seq![KindView::Identifier(n)] + behind));
    assert(kinds[0] == KindView::Priority);
    assert(kinds.drop_first() =~= seq![KindView::Identifier(n)] + behind);
    lemma_stream_first(s, kinds);
    lemma_step(p.lexer, s);
    let l1 = p.lexer.read()->Ok_0.1;
    let s1 = next_spot(s);
    let one = seq![n];
    let me = seq![tr];
    assert(names_kinds(one) =~= seq![KindView::Identifier(n)]);
    assert(behind[0] == KindView::GreaterThan);
    let p1 = ParserView { lexer: l1, net: p.net };
    lemma_transitions_named(p1, s1, Seq::empty(), one, me, behind);
    let got = transitions_named(p1, Seq::empty())->Ok_0;
    assert(got.0 =~= me);
    let s2 = skip(s1, 1);
    assert(behind.drop_first() =~= names_kinds(lows) + rest);
    lemma_stream_first(s2, behind);
    lemma_step(got.1.lexer, s2);
    let l3 = got.1.lexer.read()->Ok_0.1;
    let s3 = next_spot(s2);
    let p3 = ParserView { lexer: l3, net: p.net };
    lemma_transitions_named(p3, s3, Seq::empty(), lows, ids, rest);
    let last = transitions_named(p3, Seq::empty())->Ok_0;
    assert(last.0 =~= ids);
    assert(each_over_each(p.net, me, ids, 1) == over_each(p.net, tr, ids, ids.len())) by {
        reveal_with_fuel(each_over_each, 2);
    }
    assert(s3 == skip(s, 3)) by {
        assert(skip(s, 3) == skip(next_spot(s), 2));
        assert(skip(s1, 2) == skip(next_spot(s1), 1));
        assert(skip(s1, 1) == skip(next_spot(s1), 0));
        assert(skip(next_spot(s1), 1) == skip(next_spot(next_spot(s1)), 0));
    }
    lemma_skip_add(s, 3, lows.len());
    assert(priority_kinds(n, lows).len() == 3 + lows.len());
}

/// A line of the priorities of a transition and the end of the line are read, and
/// reading the lines goes on behind them with the net that has the priorities.
pub proof fn lemma_lines_priority(
    p: ParserView,
    s: Spot,
    n: Seq<char>,
    tr: TransitionId,
    lows: Seq<Seq<char>>,
    ids: Seq<TransitionId>,
    rest: Seq<KindView>,
) -> (next: ParserView)
    requires
        stands(p.lexer, s),
        stream(s, priority_kinds(n, lows) + seq![KindView::NewLine] + rest),
        lows.len() == ids.len(),
        transition_named(p.net, n) is Ok,
        transition_named(p.net, n)->Ok_0 == (tr, p.net),
        forall|i: int|
            0 <= i < lows.len() ==> transition_named(p.net, #[trigger] lows[i]) is Ok
                && transition_named(p.net, lows[i])->Ok_0 == (ids[i], p.net),
    ensures
        lines(p) == lines(next),
        next.net == over_each(p.net, tr, ids, ids.len()),
        stands(next.lexer, skip(s, priority_kinds(n, lows).len() + 1)),
        stream(skip(s, priority_kinds(n, lows).len() + 1), rest),
{
    let own = priority_kinds(n, lows);
    let tail = seq![KindView::NewLine] + rest;
    assert(own + seq![KindView::NewLine] + rest =~= own + tail);
    assert((own + tail)[0] == KindView::Priority);
    lemma_stream_first(s, own + tail);
    lemma_step(p.lexer, s);
    let p1 = looked(p);
    assert(tail[0] is NewLine);
    lemma_line_kind(p1, p.lexer.peek()->Ok_0.0);
    lemma_priority_line(p1, s, n, tr, lows, ids, tail);
    let p2 = priority_line(p1)->Ok_0;
    lemma_next_line(p, p2, skip(s, own.len()), rest);
    lemma_skip_add(s, own.len(), 1);
    line_ended(looked(p2))
}

/// The end of the text comes next at the spot.
pub open spec fn at_end(s: Spot) -> bool {
    next_token(s.r, s.k) is Ok && next_token(s.r, s.k)->Ok_0.0.kind is EndOfFile
}

/// At the end of the text the lines are read, and the net is the one that was built.
pub proof fn lemma_lines_end(p: ParserView, s: Spot)
    requires
        stands(p.lexer, s),
        at_end(s),
    ensures
        lines(p) is Ok,
        lines(p)->Ok_0.net == p.net,
{
    reveal(stands);
}

} // verus!
