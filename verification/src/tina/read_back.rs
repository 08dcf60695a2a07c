//! A written net is read back: the lines of the text of a net build the net.
use vstd::prelude::*;
use crate::ids::{NodeId, PlaceId, TransitionId};
use crate::marking::sorted;
use crate::timed::net::NetView;
use crate::timed::place::PlaceView;
use crate::tina::export::exported;
use crate::tina::laws::{
    behind, lemma_behind_add, lemma_blanks_are_skipped, lemma_end_is_read, lemma_text_is_read,
    reads,
};
use crate::tina::lexer::start;
use crate::tina::parser::{lines, parsed, ParserView};
use crate::tina::pieces::{landing, lemma_pieces, spaces, text_of};
use crate::tina::written::{lemma_exported, lemma_net_pieces, net_pieces};
use crate::tina::rebuild::{
    lemma_priorities_added, names_of,
    below, grown, inputs, lemma_below, lemma_place_added, lemma_transition_added, live, name_of,
    outputs, table_upto, upto,
};
use crate::tina::round_trip::{
    lemma_lines_priority, priority_kinds,
    at_end, lemma_lines_end, lemma_lines_net, lemma_lines_place, lemma_lines_transition,
    lemma_skip_add, place_kinds, skip, stands, stream, transition_kinds, Spot,
};
use crate::tina::token::KindView;

verus! {

/// The tokens of the line of the place `k`, with the end of the line.
pub open spec fn place_line_kinds(net: NetView, k: int) -> Seq<KindView> {
    place_kinds(
        name_of(net, NodeId::Place(PlaceId(k as usize))),
        net.places[k].label,
        net.places[k].initial,
    ) + seq![KindView::NewLine]
}

/// The tokens of the lines of the places from `k` on.
pub open spec fn places_from(net: NetView, k: int) -> Seq<KindView>
    decreases net.places.len() - k,
{
    if k >= net.places.len() {
        Seq::empty()
    } else {
        place_line_kinds(net, k) + places_from(net, k + 1)
    }
}

/// The tokens of the line of the priorities of the transition `j`, with the end of the
/// line; nothing if it has no priorities.
pub open spec fn priority_line_kinds(net: NetView, j: int) -> Seq<KindView> {
    if net.transitions[j].priorities.len() == 0 {
        Seq::empty()
    } else {
        priority_kinds(
            name_of(net, NodeId::Transition(TransitionId(j as usize))),
            names_of(net, net.transitions[j].priorities),
        ) + seq![KindView::NewLine]
    }
}

/// The tokens of the lines of the transition `j`: its own line and that of its
/// priorities, each with the end of the line.
pub open spec fn transition_line_kinds(net: NetView, j: int) -> Seq<KindView> {
    transition_kinds(
        name_of(net, NodeId::Transition(TransitionId(j as usize))),
        net.transitions[j].label,
        net.transitions[j].time,
        inputs(net, j),
        outputs(net, j),
    ) + seq![KindView::NewLine] + priority_line_kinds(net, j)
}

/// The net can be read back as it is numbered: the time range of each transition has a
/// start, and each transition has priority over transitions before it only.
pub open spec fn readable(net: NetView) -> bool {
    forall|t: int|
        0 <= t < net.transitions.len() ==> !((#[trigger] net.transitions[t]).time.start is Infinity)
            && forall|i: int|
            0 <= i < net.transitions[t].priorities.len() ==> (
            #[trigger] net.transitions[t].priorities[i]).0 < t
}

/// The tokens of the lines of the transitions from `j` on.
pub open spec fn transitions_from(net: NetView, j: int) -> Seq<KindView>
    decreases net.transitions.len() - j,
{
    if j >= net.transitions.len() {
        Seq::empty()
    } else {
        transition_line_kinds(net, j) + transitions_from(net, j + 1)
    }
}

/// The tokens of the line of the name of the net, if it has a name.
pub open spec fn head_kinds(net: NetView) -> Seq<KindView> {
    if net.name.len() == 0 {
        Seq::empty()
    } else {
        seq![KindView::Net, KindView::Identifier(net.name), KindView::NewLine]
    }
}

/// The tokens of a net: those of its name, of its places and of its transitions.
pub open spec fn net_kinds(net: NetView) -> Seq<KindView> {
    head_kinds(net) + places_from(net, 0) + transitions_from(net, 0)
}

/// The lines of the places from `k` on are read, and the net that is built has all the
/// places behind them.
pub proof fn lemma_lines_places(p: ParserView, s: Spot, net: NetView, k: int, rest: Seq<KindView>) -> (next:
    ParserView)
    requires
        net.wf(),
        0 <= k <= net.places.len(),
        stands(p.lexer, s),
        stream(s, places_from(net, k) + rest),
        p.net == grown(net, p.net.names, k, 0),
        p.net.names.wf(),
        p.net.names.table == table_upto(net, k, 0),
    ensures
        lines(p) == lines(next),
        next.net == grown(net, next.net.names, net.places.len() as int, 0),
        next.net.names.wf(),
        next.net.names.table == table_upto(net, net.places.len() as int, 0),
        stands(next.lexer, skip(s, places_from(net, k).len())),
        stream(skip(s, places_from(net, k).len()), rest),
    decreases net.places.len() - k,
{
    if k >= net.places.len() {
        assert(places_from(net, k) + rest =~= rest);
        p
    } else {
        let n = name_of(net, NodeId::Place(PlaceId(k as usize)));
        let own = place_kinds(n, net.places[k].label, net.places[k].initial);
        let tail = places_from(net, k + 1) + rest;
        assert(places_from(net, k) + rest =~= own + seq![KindView::NewLine] + tail);
        lemma_place_added(net, p.net, k);
        let mid = lemma_lines_place(p, s, n, net.places[k].label, net.places[k].initial, tail);
        let s1 = skip(s, own.len() + 1);
        let next = lemma_lines_places(mid, s1, net, k + 1, rest);
        lemma_skip_add(s, own.len() + 1, places_from(net, k + 1).len());
        assert(places_from(net, k).len() == own.len() + 1 + places_from(net, k + 1).len());
        next
    }
}

/// The lines of the transitions from `j` on are read, and the net that is built has all
/// the transitions behind them.
pub proof fn lemma_lines_transitions(
    p: ParserView,
    s: Spot,
    net: NetView,
    j: int,
    rest: Seq<KindView>,
) -> (next: ParserView)
    requires
        net.wf(),
        0 <= j <= net.transitions.len(),
        readable(net),
        stands(p.lexer, s),
        stream(s, transitions_from(net, j) + rest),
        p.net == grown(net, p.net.names, net.places.len() as int, j),
        p.net.names.wf(),
        p.net.names.table == table_upto(net, net.places.len() as int, j),
    ensures
        lines(p) == lines(next),
        next.net == grown(
            net,
            next.net.names,
            net.places.len() as int,
            net.transitions.len() as int,
        ),
        next.net.names.wf(),
        next.net.names.table == table_upto(
            net,
            net.places.len() as int,
            net.transitions.len() as int,
        ),
        stands(next.lexer, skip(s, transitions_from(net, j).len())),
        stream(skip(s, transitions_from(net, j).len()), rest),
    decreases net.transitions.len() - j,
{
    if j >= net.transitions.len() {
        assert(transitions_from(net, j) + rest =~= rest);
        p
    } else {
        let n = name_of(net, NodeId::Transition(TransitionId(j as usize)));
        let cur = net.transitions[j];
        let own = transition_kinds(n, cur.label, cur.time, inputs(net, j), outputs(net, j));
        let ranks = priority_line_kinds(net, j);
        let tail = transitions_from(net, j + 1) + rest;
        assert(net.transitions[j].time == cur.time);
        assert(transitions_from(net, j) + rest =~= own + seq![KindView::NewLine] + (ranks + tail));
        lemma_transition_added(net, p.net, j);
        let mid = lemma_lines_transition(
            p,
            s,
            n,
            cur.label,
            cur.time,
            inputs(net, j),
            outputs(net, j),
            ranks + tail,
        );
        let s1 = skip(s, own.len() + 1);
        lemma_priorities_added(net, mid.net, j);
        let ranked = if cur.priorities.len() == 0 {
            assert(ranks + tail =~= tail);
            mid
        } else {
            let lows = names_of(net, cur.priorities);
            assert(ranks + tail =~= priority_kinds(n, lows) + seq![KindView::NewLine] + tail);
            lemma_lines_priority(
                mid,
                s1,
                n,
                TransitionId(j as usize),
                lows,
                cur.priorities,
                tail,
            )
        };
        let s2 = skip(s1, ranks.len());
        let next = lemma_lines_transitions(ranked, s2, net, j + 1, rest);
        lemma_skip_add(s, own.len() + 1, ranks.len());
        lemma_skip_add(s, own.len() + 1 + ranks.len(), transitions_from(net, j + 1).len());
        assert(transitions_from(net, j).len() == own.len() + 1 + ranks.len() + transitions_from(
            net,
            j + 1,
        ).len());
        next
    }
}

/// The net with none of its nodes removed.
pub open spec fn revived(net: NetView) -> NetView {
    NetView {
        places: Seq::new(net.places.len(), |q: int| PlaceView { deleted: false, ..net.places[q] }),
        transitions: Seq::new(net.transitions.len(), |t: int| live(net.transitions[t])),
        ..net
    }
}

/// Two nets are alike: they have the same name, the same names for their nodes, and the
/// same nodes with the same labels, tokens, time ranges, arcs and priorities; only what
/// was removed from the first may be there in the second, without arcs.
pub open spec fn alike(net: NetView, back: NetView) -> bool {
    &&& back.name == net.name
    &&& back.names.table == net.names.table
    &&& back.places == revived(net).places
    &&& back.transitions == revived(net).transitions
}

/// Where the tokens of a net that can be read back as it is numbered come next, and
/// behind them the end of the text, the lines that are read build a net that is like the
/// net.
pub proof fn lemma_lines_net_kinds(p: ParserView, s: Spot, net: NetView)
    requires
        net.wf(),
        readable(net),
        stands(p.lexer, s),
        p.net == crate::timed::net::empty(),
        stream(s, net_kinds(net)),
        at_end(skip(s, net_kinds(net).len())),
    ensures
        lines(p) is Ok,
        alike(net, lines(p)->Ok_0.net),
{
    let head = head_kinds(net);
    let places = places_from(net, 0);
    let transitions = transitions_from(net, 0);
    let none = Seq::<KindView>::empty();
    assert(net_kinds(net) =~= head + (places + (transitions + none)));
    let start = if net.name.len() == 0 {
        assert(head + (places + (transitions + none)) =~= places + (transitions + none));
        p
    } else {
        lemma_lines_net(p, s, net.name, places + (transitions + none))
    };
    let s0 = skip(s, head.len());
    assert(start.net.name =~= net.name);
    assert(start.net.names.table =~= table_upto(net, 0, 0));
    assert(start.net.places =~= grown(net, start.net.names, 0, 0).places);
    assert(start.net.transitions =~= grown(net, start.net.names, 0, 0).transitions);
    assert(start.net.names.wf()) by {
        assert(start.net.names.table.dom() =~= Set::<Seq<char>>::empty());
    }
    let mid = lemma_lines_places(start, s0, net, 0, transitions + none);
    let s1 = skip(s0, places.len());
    let end = lemma_lines_transitions(mid, s1, net, 0, none);
    let s2 = skip(s1, transitions.len());
    lemma_skip_add(s, head.len(), places.len());
    lemma_skip_add(s, head.len() + places.len(), transitions.len());
    assert(net_kinds(net).len() == head.len() + places.len() + transitions.len());
    lemma_lines_end(end, s2);
    let back = end.net;
    assert(back.names.table =~= net.names.table) by {
        assert forall|n: Seq<char>| net.names.table.contains_key(n) implies #[trigger] back.names.table.contains_key(
            n,
        ) by {
            assert(net.valid_node(net.names.table[n]));
        }
    }
    assert forall|q: int| 0 <= q < net.places.len() implies back.places[q] == revived(net).places[q] by {
        assert(net.place_wf(q));
        let pl = net.places[q];
        let bound = net.transitions.len() as int;
        lemma_whole(pl.consumed_by, bound);
        lemma_whole(pl.produced_by, bound);
        lemma_whole(pl.condition_for, bound);
        lemma_whole(pl.inhibitor_for, bound);
    }
    assert(back.places =~= revived(net).places);
    assert(back.transitions =~= revived(net).transitions);
}

/// The entries of a sorted sequence that rank below a bound above all its ranks are all
/// its entries.
pub proof fn lemma_whole(s: Seq<(TransitionId, usize)>, bound: int)
    requires
        sorted(s),
        forall|i: int| 0 <= i < s.len() ==> (#[trigger] s[i]).0.0 < bound,
    ensures
        upto(s, bound, false) == s,
{
    lemma_below(s, bound);
    if below(s, bound) < s.len() {
        assert(s[below(s, bound)].0.0 < bound);
    }
    assert(upto(s, bound, false) =~= s);
}

/// A text that ends with blanks ends with the end of the text: where only blanks stand
/// between the reader and the end of the text, the next token is the end of the text.
proof fn lemma_blanks_then_end(s: Spot, nb: nat)
    requires
        reads(s.r, spaces(nb)),
        behind(s.r, nb).at_end(),
    ensures
        at_end(s),
{
    let end = behind(s.r, nb);
    lemma_end_is_read(end, s.k);
    assert(end.peeked() == Some('\0')) by {
        assert(crate::tina::reader::byte_at(end.bytes, end.offset as int) == 0);
        assert(crate::tina::reader::width(0u8) == 1);
        assert(crate::tina::reader::code_at(end.bytes, end.offset as int) == 0);
    }
    lemma_blanks_are_skipped(s.r, spaces(nb), '\0', s.k);
}

/// A written net is read back. What the writer writes of a well-formed net whose time
/// ranges have a start and whose transitions have priority over transitions before them
/// only, with all its places and all its transitions, is read as a net that is like the
/// net: it has the same name, the same names for its nodes, and the same nodes with the
/// same labels, tokens, time ranges, arcs and priorities; what was removed from the net
/// is there again, without arcs.
///
/// A transition that has priority over one behind it is written before that one is, and
/// the reader numbers the transitions as it meets their names: such a net is read back
/// with its transitions in another order.
pub proof fn lemma_round_trip(net: NetView)
    requires
        net.wf(),
        readable(net),
    ensures
        exported(net, true, false) is Ok,
        parsed(vstd::utf8::encode_utf8(exported(net, true, false)->Ok_0)) is Ok,
        alike(net, parsed(vstd::utf8::encode_utf8(exported(net, true, false)->Ok_0))->Ok_0),
{
    assert forall|t: int| 0 <= t < net.transitions.len() implies !((
    #[trigger] net.transitions[t]).time.start is Infinity) by {}
    lemma_exported(net);
    lemma_net_pieces(net);
    let pieces = net_pieces(net);
    let text = text_of(pieces);
    let bytes = vstd::utf8::encode_utf8(text);
    let l0 = start(bytes);
    let r0 = l0.reader;
    let k0 = l0.current.kind;
    let s0 = Spot { r: r0, k: k0 };
    let none = Seq::<u8>::empty();
    assert(r0.bytes.skip(0) =~= bytes + none);
    lemma_text_is_read(r0, text, none);
    assert(spaces(0) + text + Seq::<char>::empty() =~= text);
    lemma_pieces(r0, k0, 0, pieces, Seq::empty());
    let end = landing(r0, k0, 0, pieces);
    assert(spaces(end.1) + Seq::<char>::empty() =~= spaces(end.1));
    lemma_behind_add(r0, (text.len() - end.1) as nat, end.1);
    lemma_blanks_then_end(end.0, end.1);
    let p0 = ParserView { lexer: l0, net: crate::timed::net::empty() };
    assert(stands(l0, s0)) by {
        reveal(stands);
    }
    lemma_lines_net_kinds(p0, s0, net);
}

} // verus!
