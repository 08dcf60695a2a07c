//! The text of a net, piece by piece: what the writer writes is the text of the pieces of
//! the net, and the tokens of the pieces are the tokens of the net.
use vstd::prelude::*;
use crate::ids::{NodeId, PlaceId, TransitionId};
use crate::timed::net::NetView;
use crate::timed::time_range::TimeRange;
use crate::tina::export;
use crate::tina::export::{escape, ArcStyle};
use crate::tina::pieces::{
    chained, kinds_of, needs_stop, piece_kinds, piece_ok, piece_text, stops, text_of, Piece,
};
use crate::tina::read_back::{
    head_kinds, net_kinds, places_from, transition_line_kinds, transitions_from,
};
use crate::tina::rebuild::{
    inputs, lemma_name_of, name_of, names_of, outputs, written_from,
};
use crate::tina::round_trip::{
    always, arc_kinds, arcs_kinds, interval_kinds, label_kinds, marking_kinds, names_kinds,
    place_kinds, priority_kinds, transition_kinds, Mark, Written,
};
use crate::tina::token::KindView;

verus! {

/// The text of pieces and more pieces is the text of both.
pub proof fn lemma_text_of_add(a: Seq<Piece>, b: Seq<Piece>)
    ensures
        text_of(a + b) == text_of(a) + text_of(b),
    decreases a.len(),
{
    if a.len() == 0 {
        assert(a + b =~= b);
        assert(text_of(a) + text_of(b) =~= text_of(b));
    } else {
        assert((a + b)[0] == a[0]);
        assert((a + b).drop_first() =~= a.drop_first() + b);
        lemma_text_of_add(a.drop_first(), b);
        assert(text_of(a + b) =~= text_of(a) + text_of(b));
    }
}

/// The tokens of pieces and more pieces are the tokens of both.
pub proof fn lemma_kinds_of_add(a: Seq<Piece>, b: Seq<Piece>)
    ensures
        kinds_of(a + b) == kinds_of(a) + kinds_of(b),
    decreases a.len(),
{
    if a.len() == 0 {
        assert(a + b =~= b);
        assert(kinds_of(a) + kinds_of(b) =~= kinds_of(b));
    } else {
        assert((a + b)[0] == a[0]);
        assert((a + b).drop_first() =~= a.drop_first() + b);
        lemma_kinds_of_add(a.drop_first(), b);
        assert(kinds_of(a + b) =~= kinds_of(a) + kinds_of(b));
    }
}

/// The pieces end in a way that lets any piece follow: the last of them needs nothing
/// behind it.
pub open spec fn closed(a: Seq<Piece>) -> bool {
    a.len() > 0 ==> !needs_stop(a.last())
}

/// Pieces that can be written, and more behind them that can, can be written one behind
/// the other if the first end in a way that lets any piece follow.
pub proof fn lemma_chained_add(a: Seq<Piece>, b: Seq<Piece>)
    requires
        chained(a),
        chained(b),
        closed(a),
    ensures
        chained(a + b),
    decreases a.len(),
{
    if a.len() == 0 {
        assert(a + b =~= b);
    } else {
        let rest = a.drop_first();
        assert((a + b)[0] == a[0]);
        assert((a + b).drop_first() =~= rest + b);
        if rest.len() > 0 {
            assert(rest.last() == a.last());
            assert((a + b)[1] == a[1]);
        } else {
            assert(a.last() == a[0]);
        }
        lemma_chained_add(rest, b);
    }
}

/// The pieces of a label: the colon, a blank, the label and a blank, or nothing.
pub open spec fn label_pieces(label: Option<Seq<char>>) -> Seq<Piece> {
    match label {
        Some(l) => seq![Piece::Colon, Piece::Blank, Piece::Name(l), Piece::Blank],
        None => Seq::empty(),
    }
}

/// The pieces of the tokens of a place, or nothing for none.
pub open spec fn marking_pieces(initial: usize) -> Seq<Piece> {
    if initial == 0 {
        Seq::empty()
    } else {
        seq![Piece::Tokens(initial)]
    }
}

/// The pieces of a time range, or nothing for the range that is left out.
pub open spec fn range_pieces(time: TimeRange) -> Seq<Piece> {
    if time == always() {
        Seq::empty()
    } else {
        seq![Piece::Range(time)]
    }
}

/// The pieces of one arc, with the blanks behind it.
pub open spec fn arc_pieces(a: Written) -> Seq<Piece> {
    match a.mark {
        Mark::Normal => if a.weight == 1 {
            seq![Piece::Name(a.name), Piece::Blank]
        } else {
            seq![Piece::Name(a.name), Piece::Star(a.weight), Piece::Blank]
        },
        Mark::Test => seq![Piece::Name(a.name), Piece::Test(a.weight), Piece::Blank, Piece::Blank],
        Mark::Inhibitor => seq![Piece::Name(a.name), Piece::Inhibit(a.weight), Piece::Blank],
    }
}

/// The pieces of arcs, one behind the other.
pub open spec fn arcs_pieces(all: Seq<Written>) -> Seq<Piece>
    decreases all.len(),
{
    if all.len() == 0 {
        Seq::empty()
    } else {
        arc_pieces(all[0]) + arcs_pieces(all.drop_first())
    }
}

/// The pieces of the line of a place.
pub open spec fn place_pieces(n: Seq<char>, label: Option<Seq<char>>, initial: usize) -> Seq<Piece> {
    seq![Piece::Place, Piece::Blank, Piece::Name(n), Piece::Blank] + label_pieces(label)
        + marking_pieces(initial) + seq![Piece::Line]
}

/// The pieces of the line of a transition.
pub open spec fn transition_pieces(
    n: Seq<char>,
    label: Option<Seq<char>>,
    time: TimeRange,
    before: Seq<Written>,
    behind: Seq<Written>,
) -> Seq<Piece> {
    seq![Piece::Transition, Piece::Blank, Piece::Name(n), Piece::Blank] + label_pieces(label)
        + range_pieces(time) + arcs_pieces(before) + seq![Piece::Arrow, Piece::Blank] + arcs_pieces(
        behind,
    ) + seq![Piece::Line]
}

/// The pieces of arcs are read as the tokens of the arcs; they can be written, and end
/// in a way that lets any piece follow.
pub proof fn lemma_arcs_pieces(all: Seq<Written>)
    ensures
        kinds_of(arcs_pieces(all)) == arcs_kinds(all),
        chained(arcs_pieces(all)),
        closed(arcs_pieces(all)),
    decreases all.len(),
{
    if all.len() == 0 {
    } else {
        let a = all[0];
        let one = arc_pieces(a);
        let rest = arcs_pieces(all.drop_first());
        lemma_arcs_pieces(all.drop_first());
        lemma_kinds_of_add(one, rest);
        lemma_pieces_kinds(one);
        assert(kinds_of(one) =~= arc_kinds(a));
        lemma_pieces_chained(one);
        assert(one.last() == Piece::Blank);
        lemma_chained_add(one, rest);
        if rest.len() > 0 {
            assert((one + rest).last() == rest.last());
        } else {
            assert(one + rest =~= one);
        }
    }
}

/// The tokens of up to four pieces, piece by piece.
pub proof fn lemma_pieces_kinds(a: Seq<Piece>)
    requires
        a.len() <= 4,
    ensures
        a.len() == 0 ==> kinds_of(a) == Seq::<KindView>::empty(),
        a.len() == 1 ==> kinds_of(a) == piece_kinds(a[0]),
        a.len() == 2 ==> kinds_of(a) == piece_kinds(a[0]) + piece_kinds(a[1]),
        a.len() == 3 ==> kinds_of(a) == piece_kinds(a[0]) + piece_kinds(a[1]) + piece_kinds(a[2]),
        a.len() == 4 ==> kinds_of(a) == piece_kinds(a[0]) + piece_kinds(a[1]) + piece_kinds(a[2])
            + piece_kinds(a[3]),
    decreases a.len(),
{
    if a.len() > 0 {
        let rest = a.drop_first();
        lemma_pieces_kinds(rest);
        if rest.len() >= 1 {
            assert(rest[0] == a[1]);
        }
        if rest.len() >= 2 {
            assert(rest[1] == a[2]);
        }
        if rest.len() >= 3 {
            assert(rest[2] == a[3]);
        }
        assert(kinds_of(a) =~= piece_kinds(a[0]) + kinds_of(rest));
        if a.len() == 1 {
            assert(kinds_of(a) =~= piece_kinds(a[0]));
        } else if a.len() == 2 {
            assert(kinds_of(a) =~= piece_kinds(a[0]) + piece_kinds(a[1]));
        } else if a.len() == 3 {
            assert(kinds_of(a) =~= piece_kinds(a[0]) + piece_kinds(a[1]) + piece_kinds(a[2]));
        } else {
            assert(kinds_of(a) =~= piece_kinds(a[0]) + piece_kinds(a[1]) + piece_kinds(a[2])
                + piece_kinds(a[3]));
        }
    }
}

/// The text of up to four pieces, piece by piece.
pub proof fn lemma_pieces_text(a: Seq<Piece>)
    requires
        a.len() <= 4,
    ensures
        a.len() == 0 ==> text_of(a) == Seq::<char>::empty(),
        a.len() == 1 ==> text_of(a) == piece_text(a[0]),
        a.len() == 2 ==> text_of(a) == piece_text(a[0]) + piece_text(a[1]),
        a.len() == 3 ==> text_of(a) == piece_text(a[0]) + piece_text(a[1]) + piece_text(a[2]),
        a.len() == 4 ==> text_of(a) == piece_text(a[0]) + piece_text(a[1]) + piece_text(a[2])
            + piece_text(a[3]),
    decreases a.len(),
{
    if a.len() > 0 {
        let rest = a.drop_first();
        lemma_pieces_text(rest);
        if rest.len() >= 1 {
            assert(rest[0] == a[1]);
        }
        if rest.len() >= 2 {
            assert(rest[1] == a[2]);
        }
        if rest.len() >= 3 {
            assert(rest[2] == a[3]);
        }
        assert(text_of(a) =~= piece_text(a[0]) + text_of(rest));
        if a.len() == 1 {
            assert(text_of(a) =~= piece_text(a[0]));
        } else if a.len() == 2 {
            assert(text_of(a) =~= piece_text(a[0]) + piece_text(a[1]));
        } else if a.len() == 3 {
            assert(text_of(a) =~= piece_text(a[0]) + piece_text(a[1]) + piece_text(a[2]));
        } else {
            assert(text_of(a) =~= piece_text(a[0]) + piece_text(a[1]) + piece_text(a[2])
                + piece_text(a[3]));
        }
    }
}

/// Up to four pieces can be written one behind the other if each can be written and
/// behind each that needs it stands one that ends it.
pub proof fn lemma_pieces_chained(a: Seq<Piece>)
    requires
        a.len() <= 4,
        forall|i: int| 0 <= i < a.len() ==> piece_ok(#[trigger] a[i]),
        forall|i: int|
            0 <= i < a.len() && needs_stop(#[trigger] a[i]) ==> i + 1 < a.len() && stops(a[i + 1]),
    ensures
        chained(a),
    decreases a.len(),
{
    if a.len() > 0 {
        let rest = a.drop_first();
        assert forall|i: int| 0 <= i < rest.len() implies piece_ok(#[trigger] rest[i]) by {
            assert(rest[i] == a[i + 1]);
        }
        assert forall|i: int| 0 <= i < rest.len() && needs_stop(#[trigger] rest[i]) implies i + 1
            < rest.len() && stops(rest[i + 1]) by {
            assert(rest[i] == a[i + 1]);
            assert(needs_stop(a[i + 1]));
            assert(rest[i + 1] == a[i + 1 + 1]);
        }
        lemma_pieces_chained(rest);
        if needs_stop(a[0]) {
            assert(rest[0] == a[1]);
        }
    }
}

/// The pieces of the line of a place are read as the tokens of the line; they can be
/// written, and end in a way that lets any piece follow.
pub proof fn lemma_place_pieces(n: Seq<char>, label: Option<Seq<char>>, initial: usize)
    ensures
        kinds_of(place_pieces(n, label, initial)) == place_kinds(n, label, initial) + seq![
            KindView::NewLine,
        ],
        chained(place_pieces(n, label, initial)),
        closed(place_pieces(n, label, initial)),
{
    let head = seq![Piece::Place, Piece::Blank, Piece::Name(n), Piece::Blank];
    let lab = label_pieces(label);
    let mark = marking_pieces(initial);
    let end = seq![Piece::Line];
    let all = place_pieces(n, label, initial);
    assert(all =~= head + (lab + (mark + end)));
    lemma_kinds_of_add(head, lab + (mark + end));
    lemma_kinds_of_add(lab, mark + end);
    lemma_kinds_of_add(mark, end);
    lemma_pieces_kinds(head);
    lemma_pieces_kinds(lab);
    lemma_pieces_kinds(mark);
    lemma_pieces_kinds(end);
    assert(kinds_of(head) =~= seq![KindView::Place, KindView::Identifier(n)]);
    assert(kinds_of(lab) =~= label_kinds(label));
    assert(kinds_of(mark) =~= marking_kinds(initial));
    assert(kinds_of(end) =~= seq![KindView::NewLine]);
    assert(kinds_of(all) =~= place_kinds(n, label, initial) + seq![KindView::NewLine]);
    lemma_pieces_chained(head);
    lemma_pieces_chained(lab);
    lemma_pieces_chained(mark);
    lemma_pieces_chained(end);
    lemma_chained_add(mark, end);
    assert(closed(lab)) by {
        if lab.len() > 0 {
            assert(lab.last() == Piece::Blank);
        }
    }
    lemma_chained_add(lab, mark + end);
    assert(head.last() == Piece::Blank);
    lemma_chained_add(head, lab + (mark + end));
    assert(all.last() == Piece::Line);
}

/// Pieces one behind the other can be put together in any grouping.
proof fn lemma_seven<T>(a: Seq<T>, b: Seq<T>, c: Seq<T>, d: Seq<T>, e: Seq<T>, f: Seq<T>, g: Seq<T>)
    ensures
        a + b + c + d + e + f + g == a + (b + (c + (d + (e + (f + g))))),
{
    assert(a + b + c + d + e + f + g =~= a + (b + (c + (d + (e + (f + g))))));
}

/// The pieces of the line of a transition are read as the tokens of the line.
proof fn lemma_transition_pieces_kinds(
    n: Seq<char>,
    label: Option<Seq<char>>,
    time: TimeRange,
    before: Seq<Written>,
    behind: Seq<Written>,
)
    ensures
        kinds_of(transition_pieces(n, label, time, before, behind)) == transition_kinds(
            n,
            label,
            time,
            before,
            behind,
        ) + seq![KindView::NewLine],
{
    let head = seq![Piece::Transition, Piece::Blank, Piece::Name(n), Piece::Blank];
    let lab = label_pieces(label);
    let range = range_pieces(time);
    let first = arcs_pieces(before);
    let arrow = seq![Piece::Arrow, Piece::Blank];
    let second = arcs_pieces(behind);
    let end = seq![Piece::Line];
    lemma_seven(head, lab, range, first, arrow, second, end);
    lemma_kinds_of_add(head, lab + (range + (first + (arrow + (second + end)))));
    lemma_kinds_of_add(lab, range + (first + (arrow + (second + end))));
    lemma_kinds_of_add(range, first + (arrow + (second + end)));
    lemma_kinds_of_add(first, arrow + (second + end));
    lemma_kinds_of_add(arrow, second + end);
    lemma_kinds_of_add(second, end);
    lemma_pieces_kinds(head);
    lemma_pieces_kinds(lab);
    lemma_pieces_kinds(range);
    lemma_pieces_kinds(arrow);
    lemma_pieces_kinds(end);
    lemma_arcs_pieces(before);
    lemma_arcs_pieces(behind);
    let kh = seq![KindView::Transition, KindView::Identifier(n)];
    let ka = seq![KindView::Arrow];
    let ke = seq![KindView::NewLine];
    assert(kinds_of(head) =~= kh);
    assert(kinds_of(lab) =~= label_kinds(label));
    assert(kinds_of(range) =~= interval_kinds(time));
    assert(kinds_of(arrow) =~= ka);
    assert(kinds_of(end) =~= ke);
    lemma_seven(kh, label_kinds(label), interval_kinds(time), arcs_kinds(before), ka, arcs_kinds(behind), ke);
    assert(transition_kinds(n, label, time, before, behind) + ke =~= kh + label_kinds(label)
        + interval_kinds(time) + arcs_kinds(before) + ka + arcs_kinds(behind) + ke);
}

/// The pieces of the line of a transition can be written, and end in a way that lets any
/// piece follow.
proof fn lemma_transition_pieces_chained(
    n: Seq<char>,
    label: Option<Seq<char>>,
    time: TimeRange,
    before: Seq<Written>,
    behind: Seq<Written>,
)
    requires
        !(time.start is Infinity),
    ensures
        chained(transition_pieces(n, label, time, before, behind)),
        closed(transition_pieces(n, label, time, before, behind)),
{
    let head = seq![Piece::Transition, Piece::Blank, Piece::Name(n), Piece::Blank];
    let lab = label_pieces(label);
    let range = range_pieces(time);
    let first = arcs_pieces(before);
    let arrow = seq![Piece::Arrow, Piece::Blank];
    let second = arcs_pieces(behind);
    let end = seq![Piece::Line];
    let all = transition_pieces(n, label, time, before, behind);
    lemma_seven(head, lab, range, first, arrow, second, end);
    lemma_arcs_pieces(before);
    lemma_arcs_pieces(behind);
    lemma_pieces_chained(head);
    lemma_pieces_chained(lab);
    lemma_pieces_chained(range);
    lemma_pieces_chained(arrow);
    lemma_pieces_chained(end);
    lemma_chained_add(second, end);
    assert(arrow.last() == Piece::Blank);
    lemma_chained_add(arrow, second + end);
    lemma_chained_add(first, arrow + (second + end));
    assert(closed(range)) by {
        if range.len() > 0 {
            assert(range.last() == Piece::Range(time));
        }
    }
    lemma_chained_add(range, first + (arrow + (second + end)));
    assert(closed(lab)) by {
        if lab.len() > 0 {
            assert(lab.last() == Piece::Blank);
        }
    }
    lemma_chained_add(lab, range + (first + (arrow + (second + end))));
    assert(head.last() == Piece::Blank);
    lemma_chained_add(head, lab + (range + (first + (arrow + (second + end)))));
    assert(all.last() == Piece::Line);
}

/// The pieces of the line of a transition are read as the tokens of the line; they can
/// be written, and end in a way that lets any piece follow.
pub proof fn lemma_transition_pieces(
    n: Seq<char>,
    label: Option<Seq<char>>,
    time: TimeRange,
    before: Seq<Written>,
    behind: Seq<Written>,
)
    requires
        !(time.start is Infinity),
    ensures
        kinds_of(transition_pieces(n, label, time, before, behind)) == transition_kinds(
            n,
            label,
            time,
            before,
            behind,
        ) + seq![KindView::NewLine],
        chained(transition_pieces(n, label, time, before, behind)),
        closed(transition_pieces(n, label, time, before, behind)),
{
    lemma_transition_pieces_kinds(n, label, time, before, behind);
    lemma_transition_pieces_chained(n, label, time, before, behind);
}

/// The pieces of the lines of the places from `k` on.
pub open spec fn place_lines(net: NetView, k: int) -> Seq<Piece>
    decreases net.places.len() - k,
{
    if k >= net.places.len() {
        Seq::empty()
    } else {
        place_pieces(
            name_of(net, NodeId::Place(PlaceId(k as usize))),
            net.places[k].label,
            net.places[k].initial,
        ) + place_lines(net, k + 1)
    }
}

/// The pieces of the lines of the transitions from `j` on.
pub open spec fn transition_lines(net: NetView, j: int) -> Seq<Piece>
    decreases net.transitions.len() - j,
{
    if j >= net.transitions.len() {
        Seq::empty()
    } else {
        transition_line(net, j) + transition_lines(net, j + 1)
    }
}

/// The pieces of the line of the name of the net, if it has a name.
pub open spec fn head_pieces(net: NetView) -> Seq<Piece> {
    if net.name.len() == 0 {
        Seq::empty()
    } else {
        seq![Piece::Net, Piece::Blank, Piece::Name(net.name), Piece::Line]
    }
}

/// The pieces of a net: those of its name, of its places and of its transitions.
pub open spec fn net_pieces(net: NetView) -> Seq<Piece> {
    head_pieces(net) + place_lines(net, 0) + transition_lines(net, 0)
}

/// The pieces of the lines of the places are read as the tokens of those lines.
pub proof fn lemma_place_lines(net: NetView, k: int)
    requires
        0 <= k,
    ensures
        kinds_of(place_lines(net, k)) == places_from(net, k),
        chained(place_lines(net, k)),
        closed(place_lines(net, k)),
    decreases net.places.len() - k,
{
    if k < net.places.len() {
        let n = name_of(net, NodeId::Place(PlaceId(k as usize)));
        let one = place_pieces(n, net.places[k].label, net.places[k].initial);
        let rest = place_lines(net, k + 1);
        lemma_place_lines(net, k + 1);
        lemma_place_pieces(n, net.places[k].label, net.places[k].initial);
        lemma_kinds_of_add(one, rest);
        lemma_chained_add(one, rest);
        if rest.len() > 0 {
            assert((one + rest).last() == rest.last());
        } else {
            assert(one + rest =~= one);
        }
    }
}

/// The pieces of the lines of the transitions are read as the tokens of those lines.
pub proof fn lemma_transition_lines(net: NetView, j: int)
    requires
        0 <= j,
        forall|t: int|
            0 <= t < net.transitions.len() ==> !((#[trigger] net.transitions[t]).time.start
                is Infinity),
    ensures
        kinds_of(transition_lines(net, j)) == transitions_from(net, j),
        chained(transition_lines(net, j)),
        closed(transition_lines(net, j)),
    decreases net.transitions.len() - j,
{
    if j < net.transitions.len() {
        let n = name_of(net, NodeId::Transition(TransitionId(j as usize)));
        let cur = net.transitions[j];
        let own = transition_pieces(n, cur.label, cur.time, inputs(net, j), outputs(net, j));
        let ranks = priority_pieces(n, names_of(net, cur.priorities));
        let one = transition_line(net, j);
        let rest = transition_lines(net, j + 1);
        lemma_transition_lines(net, j + 1);
        lemma_transition_pieces(n, cur.label, cur.time, inputs(net, j), outputs(net, j));
        lemma_priority_pieces(n, names_of(net, cur.priorities));
        lemma_kinds_of_add(own, ranks);
        lemma_chained_add(own, ranks);
        assert(closed(one)) by {
            if ranks.len() > 0 {
                assert(one.last() == ranks.last());
            } else {
                assert(one =~= own);
            }
        }
        assert(kinds_of(one) =~= transition_line_kinds(net, j)) by {
            assert(names_of(net, cur.priorities).len() == cur.priorities.len());
        }
        lemma_kinds_of_add(one, rest);
        lemma_chained_add(one, rest);
        if rest.len() > 0 {
            assert((one + rest).last() == rest.last());
        } else {
            assert(one + rest =~= one);
        }
    }
}

/// The pieces of a net are read as the tokens of the net, and can be written one behind
/// the other.
pub proof fn lemma_net_pieces(net: NetView)
    requires
        forall|t: int|
            0 <= t < net.transitions.len() ==> !((#[trigger] net.transitions[t]).time.start
                is Infinity),
    ensures
        kinds_of(net_pieces(net)) == net_kinds(net),
        chained(net_pieces(net)),
{
    let head = head_pieces(net);
    let places = place_lines(net, 0);
    let transitions = transition_lines(net, 0);
    lemma_place_lines(net, 0);
    lemma_transition_lines(net, 0);
    lemma_pieces_kinds(head);
    lemma_pieces_chained(head);
    assert(kinds_of(head) =~= head_kinds(net));
    assert(net_pieces(net) =~= head + (places + transitions));
    lemma_kinds_of_add(places, transitions);
    lemma_kinds_of_add(head, places + transitions);
    lemma_chained_add(places, transitions);
    assert(closed(head)) by {
        if head.len() > 0 {
            assert(head.last() == Piece::Line);
        }
    }
    lemma_chained_add(head, places + transitions);
    assert(net_kinds(net) =~= head_kinds(net) + (places_from(net, 0) + transitions_from(net, 0)));
}

/// The name of a node of a well-formed net is written behind what was written.
pub proof fn lemma_with_name(net: NetView, id: NodeId, out: Seq<char>)
    requires
        net.wf(),
        net.valid_node(id),
    ensures
        export::with_name(net, id, out) is Ok,
        export::with_name(net, id, out)->Ok_0 == out + escape(name_of(net, id)),
{
    lemma_name_of(net, id);
    assert(net.names.has_name(id));
}

/// A label is written as its pieces.
pub proof fn lemma_with_label(label: Option<Seq<char>>, out: Seq<char>)
    ensures
        export::with_label(label, out) == out + text_of(label_pieces(label)),
{
    reveal_strlit(": ");
    reveal_strlit(" ");
    lemma_pieces_text(label_pieces(label));
    match label {
        Some(l) => {
            assert(export::with_label(label, out) =~= out + text_of(label_pieces(label)));
        },
        None => {
            assert(out + text_of(label_pieces(label)) =~= out);
        },
    }
}

/// A time range with a start is written as its pieces.
pub proof fn lemma_with_interval(time: TimeRange, out: Seq<char>)
    requires
        !(time.start is Infinity),
    ensures
        export::with_interval(time, out) is Ok,
        export::with_interval(time, out)->Ok_0 == out + text_of(range_pieces(time)),
{
    reveal_strlit("[");
    reveal_strlit("]");
    reveal_strlit(",");
    reveal_strlit("] ");
    reveal_strlit("[ ");
    reveal_strlit("w[ ");
    lemma_pieces_text(range_pieces(time));
    if time == always() {
        assert(out + text_of(range_pieces(time)) =~= out);
    } else {
        let own = export::with_interval(time, Seq::empty())->Ok_0;
        assert(export::with_interval(time, out)->Ok_0 =~= out + own);
    }
}

/// How the arcs with a mark are written.
pub open spec fn style_of(mark: Mark) -> ArcStyle {
    match mark {
        Mark::Normal => export::normal_style(),
        Mark::Test => export::test_style(),
        Mark::Inhibitor => export::inhibitor_style(),
    }
}

/// An arc of a well-formed net is written as its pieces.
pub proof fn lemma_with_arc(net: NetView, arc: (PlaceId, usize), mark: Mark, out: Seq<char>)
    requires
        net.wf(),
        net.valid_place(arc.0),
    ensures
        export::with_arc(net, arc, style_of(mark), out) is Ok,
        export::with_arc(net, arc, style_of(mark), out)->Ok_0 == out + text_of(
            arc_pieces(
                Written { name: name_of(net, NodeId::Place(arc.0)), mark, weight: arc.1 },
            ),
        ),
{
    reveal_strlit("*");
    reveal_strlit("?");
    reveal_strlit("?-");
    reveal_strlit(" ");
    reveal_strlit("");
    let a = Written { name: name_of(net, NodeId::Place(arc.0)), mark, weight: arc.1 };
    lemma_with_name(net, NodeId::Place(arc.0), out);
    lemma_pieces_text(arc_pieces(a));
    assert(export::with_arc(net, arc, style_of(mark), out)->Ok_0 =~= out + text_of(arc_pieces(a)));
}

/// The pieces of arcs and one more are the pieces of the arcs and those of the one.
pub proof fn lemma_arcs_pieces_add(a: Seq<Written>, b: Seq<Written>)
    ensures
        arcs_pieces(a + b) == arcs_pieces(a) + arcs_pieces(b),
        arcs_kinds(a + b) == arcs_kinds(a) + arcs_kinds(b),
    decreases a.len(),
{
    if a.len() == 0 {
        assert(a + b =~= b);
        assert(arcs_pieces(a) + arcs_pieces(b) =~= arcs_pieces(b));
        assert(arcs_kinds(a) + arcs_kinds(b) =~= arcs_kinds(b));
    } else {
        assert((a + b)[0] == a[0]);
        assert((a + b).drop_first() =~= a.drop_first() + b);
        lemma_arcs_pieces_add(a.drop_first(), b);
        assert(arcs_pieces(a + b) =~= arcs_pieces(a) + arcs_pieces(b));
        assert(arcs_kinds(a + b) =~= arcs_kinds(a) + arcs_kinds(b));
    }
}

/// The first `n` arcs of a transition of a well-formed net are written as their pieces.
pub proof fn lemma_with_arcs(
    net: NetView,
    arcs: Seq<(PlaceId, usize)>,
    n: nat,
    mark: Mark,
    out: Seq<char>,
)
    requires
        net.wf(),
        n <= arcs.len(),
        forall|i: int| 0 <= i < arcs.len() ==> net.valid_place((#[trigger] arcs[i]).0),
    ensures
        export::with_arcs(net, arcs, n, style_of(mark), out) is Ok,
        export::with_arcs(net, arcs, n, style_of(mark), out)->Ok_0 == out + text_of(
            arcs_pieces(written_from(net, arcs, mark, 0).take(n as int)),
        ),
    decreases n,
{
    let all = written_from(net, arcs, mark, 0);
    if n == 0 {
        assert(all.take(0) =~= Seq::<Written>::empty());
        assert(out + text_of(arcs_pieces(all.take(0))) =~= out);
    } else {
        lemma_with_arcs(net, arcs, (n - 1) as nat, mark, out);
        let before = export::with_arcs(net, arcs, (n - 1) as nat, style_of(mark), out)->Ok_0;
        assert(net.valid_place(arcs[n - 1].0));
        lemma_with_arc(net, arcs[n - 1], mark, before);
        let one = seq![all[n - 1]];
        assert(all.take(n as int) =~= all.take(n - 1) + one);
        lemma_arcs_pieces_add(all.take(n - 1), one);
        assert(arcs_pieces(one) =~= arc_pieces(all[n - 1])) by {
            assert(one.drop_first() =~= Seq::<Written>::empty());
            assert(arcs_pieces(one) =~= arc_pieces(one[0]) + arcs_pieces(one.drop_first()));
        }
        lemma_text_of_add(arcs_pieces(all.take(n - 1)), arc_pieces(all[n - 1]));
        assert(all[n - 1] == Written {
            name: name_of(net, NodeId::Place(arcs[n - 1].0)),
            mark,
            weight: arcs[n - 1].1,
        });
        assert(export::with_arcs(net, arcs, n, style_of(mark), out)->Ok_0 =~= out + text_of(
            arcs_pieces(all.take(n as int)),
        ));
    }
}

/// The arcs of a transition of a well-formed net lead to places of the net.
proof fn lemma_arcs_valid(net: NetView, t: int)
    requires
        net.wf(),
        0 <= t < net.transitions.len(),
    ensures
        forall|x: int|
            0 <= x < net.transitions[t].inhibitors.len() ==> net.valid_place(
                (#[trigger] net.transitions[t].inhibitors[x]).0,
            ),
        forall|x: int|
            0 <= x < net.transitions[t].consume.len() ==> net.valid_place(
                (#[trigger] net.transitions[t].consume[x]).0,
            ),
        forall|x: int|
            0 <= x < net.transitions[t].conditions.len() ==> net.valid_place(
                (#[trigger] net.transitions[t].conditions[x]).0,
            ),
        forall|x: int|
            0 <= x < net.transitions[t].produce.len() ==> net.valid_place(
                (#[trigger] net.transitions[t].produce[x]).0,
            ),
{
    let tr = net.transitions[t];
    assert(net.transition_wf(t));
    assert forall|x: int| 0 <= x < tr.inhibitors.len() implies net.valid_place(
        (#[trigger] tr.inhibitors[x]).0,
    ) by {
        assert(tr.inhibitors[x].0.0 < net.places.len());
    }
    assert forall|x: int| 0 <= x < tr.consume.len() implies net.valid_place(
        (#[trigger] tr.consume[x]).0,
    ) by {
        assert(tr.consume[x].0.0 < net.places.len());
    }
    assert forall|x: int| 0 <= x < tr.conditions.len() implies net.valid_place(
        (#[trigger] tr.conditions[x]).0,
    ) by {
        assert(tr.conditions[x].0.0 < net.places.len());
    }
    assert forall|x: int| 0 <= x < tr.produce.len() implies net.valid_place(
        (#[trigger] tr.produce[x]).0,
    ) by {
        assert(tr.produce[x].0.0 < net.places.len());
    }
}

/// All the arcs of one kind of a transition of a well-formed net are written as their
/// pieces.
proof fn lemma_with_arcs_all(net: NetView, arcs: Seq<(PlaceId, usize)>, mark: Mark, out: Seq<char>)
    requires
        net.wf(),
        forall|i: int| 0 <= i < arcs.len() ==> net.valid_place((#[trigger] arcs[i]).0),
    ensures
        export::with_arcs(net, arcs, arcs.len(), style_of(mark), out) is Ok,
        export::with_arcs(net, arcs, arcs.len(), style_of(mark), out)->Ok_0 == out + text_of(
            arcs_pieces(written_from(net, arcs, mark, 0)),
        ),
{
    let all = written_from(net, arcs, mark, 0);
    lemma_with_arcs(net, arcs, arcs.len(), mark, out);
    assert(all.take(arcs.len() as int) =~= all);
}

/// What the arcs of a transition are written as: the texts of those that inhibit, those
/// that consume and those that test, the arrow, and the text of those that produce.
proof fn lemma_with_all_arcs_parts(net: NetView, t: int, out: Seq<char>)
    requires
        net.wf(),
        0 <= t < net.transitions.len(),
    ensures
        export::with_all_arcs(net, t, out) is Ok,
        export::with_all_arcs(net, t, out)->Ok_0 == out + text_of(
            arcs_pieces(written_from(net, net.transitions[t].inhibitors, Mark::Inhibitor, 0)),
        ) + text_of(arcs_pieces(written_from(net, net.transitions[t].consume, Mark::Normal, 0)))
            + text_of(arcs_pieces(written_from(net, net.transitions[t].conditions, Mark::Test, 0)))
            + "-> "@ + text_of(
            arcs_pieces(written_from(net, net.transitions[t].produce, Mark::Normal, 0)),
        ),
{
    let tr = net.transitions[t];
    lemma_arcs_valid(net, t);
    lemma_with_arcs_all(net, tr.inhibitors, Mark::Inhibitor, out);
    let a = export::with_arcs(net, tr.inhibitors, tr.inhibitors.len(), export::inhibitor_style(), out)->Ok_0;
    lemma_with_arcs_all(net, tr.consume, Mark::Normal, a);
    let b = export::with_arcs(net, tr.consume, tr.consume.len(), export::normal_style(), a)->Ok_0;
    lemma_with_arcs_all(net, tr.conditions, Mark::Test, b);
    let e = export::with_arcs(net, tr.conditions, tr.conditions.len(), export::test_style(), b)->Ok_0;
    lemma_with_arcs_all(net, tr.produce, Mark::Normal, e + "-> "@);
}

/// The text of the pieces of the arcs of a transition: the texts of those that inhibit,
/// those that consume and those that test, the arrow, and the text of those that produce.
proof fn lemma_sides_text(i: Seq<Written>, c: Seq<Written>, d: Seq<Written>, p: Seq<Written>)
    ensures
        text_of(arcs_pieces(i + c + d) + seq![Piece::Arrow, Piece::Blank] + arcs_pieces(p))
            == text_of(arcs_pieces(i)) + text_of(arcs_pieces(c)) + text_of(arcs_pieces(d)) + "-> "@
            + text_of(arcs_pieces(p)),
{
    reveal_strlit("-> ");
    let arrow = seq![Piece::Arrow, Piece::Blank];
    lemma_pieces_text(arrow);
    assert(text_of(arrow) =~= "-> "@);
    lemma_arcs_pieces_add(i, c);
    lemma_arcs_pieces_add(i + c, d);
    lemma_text_of_add(arcs_pieces(i), arcs_pieces(c));
    lemma_text_of_add(arcs_pieces(i) + arcs_pieces(c), arcs_pieces(d));
    lemma_text_of_add(arcs_pieces(i + c + d), arrow);
    lemma_text_of_add(arcs_pieces(i + c + d) + arrow, arcs_pieces(p));
}

/// The arcs of a transition of a well-formed net are written as their pieces: those
/// before the arrow, the arrow, and those behind it.
pub proof fn lemma_with_all_arcs(net: NetView, t: int, out: Seq<char>)
    requires
        net.wf(),
        0 <= t < net.transitions.len(),
    ensures
        export::with_all_arcs(net, t, out) is Ok,
        export::with_all_arcs(net, t, out)->Ok_0 == out + text_of(
            arcs_pieces(inputs(net, t)) + seq![Piece::Arrow, Piece::Blank] + arcs_pieces(
                outputs(net, t),
            ),
        ),
{
    let tr = net.transitions[t];
    let i = written_from(net, tr.inhibitors, Mark::Inhibitor, 0);
    let c = written_from(net, tr.consume, Mark::Normal, 0);
    let d = written_from(net, tr.conditions, Mark::Test, 0);
    let p = written_from(net, tr.produce, Mark::Normal, 0);
    lemma_with_all_arcs_parts(net, t, out);
    lemma_sides_text(i, c, d, p);
    lemma_five(
        out,
        text_of(arcs_pieces(i)),
        text_of(arcs_pieces(c)),
        text_of(arcs_pieces(d)),
        "-> "@,
        text_of(arcs_pieces(p)),
    );
}

/// The line of a place of a well-formed net is written as its pieces.
pub proof fn lemma_with_place(net: NetView, k: int, out: Seq<char>)
    requires
        net.wf(),
        0 <= k < net.places.len(),
    ensures
        export::with_place(net, k, true, out) is Ok,
        export::with_place(net, k, true, out)->Ok_0 == out + text_of(
            place_pieces(
                name_of(net, NodeId::Place(PlaceId(k as usize))),
                net.places[k].label,
                net.places[k].initial,
            ),
        ),
{
    reveal_strlit("pl ");
    reveal_strlit(" ");
    reveal_strlit("(");
    reveal_strlit(")");
    reveal_strlit("\n");
    let id = NodeId::Place(PlaceId(k as usize));
    let n = name_of(net, id);
    let place = net.places[k];
    let head = seq![Piece::Place, Piece::Blank, Piece::Name(n), Piece::Blank];
    let lab = label_pieces(place.label);
    let mark = marking_pieces(place.initial);
    let end = seq![Piece::Line];
    lemma_with_name(net, id, out + "pl "@);
    let named = export::with_name(net, id, out + "pl "@)->Ok_0;
    lemma_with_label(place.label, named + " "@);
    lemma_pieces_text(head);
    lemma_pieces_text(mark);
    lemma_pieces_text(end);
    lemma_text_of_add(head, lab);
    lemma_text_of_add(head + lab, mark);
    lemma_text_of_add(head + lab + mark, end);
    assert(out + text_of(head) =~= named + " "@);
    assert(export::with_place(net, k, true, out)->Ok_0 =~= out + text_of(head + lab + mark + end));
}

/// Texts one behind the other can be put together in any grouping.
proof fn lemma_five(out: Seq<char>, a: Seq<char>, b: Seq<char>, c: Seq<char>, d: Seq<char>, e: Seq<char>)
    ensures
        out + a + b + c + d + e == out + (a + b + c + d + e),
{
    assert(out + a + b + c + d + e =~= out + (a + b + c + d + e));
}

/// The names of the first `n` of the transitions `ids` of a well-formed net are written
/// as their pieces.
pub proof fn lemma_with_names(net: NetView, ids: Seq<TransitionId>, n: nat, out: Seq<char>)
    requires
        net.wf(),
        n <= ids.len(),
        forall|i: int| 0 <= i < ids.len() ==> net.valid_transition(#[trigger] ids[i]),
    ensures
        export::with_names(net, ids, n, out) is Ok,
        export::with_names(net, ids, n, out)->Ok_0 == out + text_of(
            names_pieces(names_of(net, ids).take(n as int)),
        ),
    decreases n,
{
    reveal_strlit(" ");
    let all = names_of(net, ids);
    if n == 0 {
        assert(all.take(0) =~= Seq::<Seq<char>>::empty());
        assert(out + text_of(names_pieces(all.take(0))) =~= out);
    } else {
        lemma_with_names(net, ids, (n - 1) as nat, out);
        let before = export::with_names(net, ids, (n - 1) as nat, out)->Ok_0;
        assert(net.valid_transition(ids[n - 1]));
        lemma_with_name(net, NodeId::Transition(ids[n - 1]), before);
        let one = seq![all[n - 1]];
        let pieces = seq![Piece::Name(all[n - 1]), Piece::Blank];
        assert(all.take(n as int) =~= all.take(n - 1) + one);
        lemma_names_pieces_add(all.take(n - 1), one);
        assert(names_pieces(one) =~= pieces) by {
            assert(one.drop_first() =~= Seq::<Seq<char>>::empty());
            assert(names_pieces(one) =~= pieces + names_pieces(one.drop_first()));
        }
        lemma_pieces_text(pieces);
        lemma_text_of_add(names_pieces(all.take(n - 1)), pieces);
        assert(export::with_names(net, ids, n, out)->Ok_0 =~= out + text_of(
            names_pieces(all.take(n as int)),
        ));
    }
}

/// The line of the priorities of a transition of a well-formed net is written as its
/// pieces.
pub proof fn lemma_with_priorities(net: NetView, t: int, out: Seq<char>)
    requires
        net.wf(),
        0 <= t < net.transitions.len(),
    ensures
        export::with_priorities(net, t, out) is Ok,
        export::with_priorities(net, t, out)->Ok_0 == out + text_of(
            priority_pieces(
                name_of(net, NodeId::Transition(TransitionId(t as usize))),
                names_of(net, net.transitions[t].priorities),
            ),
        ),
{
    reveal_strlit("pr ");
    reveal_strlit(" > ");
    reveal_strlit("\n");
    let id = NodeId::Transition(TransitionId(t as usize));
    let n = name_of(net, id);
    let ids = net.transitions[t].priorities;
    let lows = names_of(net, ids);
    assert(net.transition_wf(t));
    if ids.len() == 0 {
        assert(out + text_of(priority_pieces(n, lows)) =~= out);
    } else {
        let head = seq![Piece::Priority, Piece::Blank, Piece::Name(n), Piece::Blank];
        let sign = seq![Piece::Greater, Piece::Blank];
        let names = names_pieces(lows);
        let end = seq![Piece::Line];
        lemma_with_name(net, id, out + "pr "@);
        let named = export::with_name(net, id, out + "pr "@)->Ok_0;
        lemma_with_names(net, ids, ids.len(), named + " > "@);
        assert(lows.take(ids.len() as int) =~= lows);
        lemma_pieces_text(head);
        lemma_pieces_text(sign);
        lemma_pieces_text(end);
        lemma_text_of_add(head, sign);
        lemma_text_of_add(head + sign, names);
        lemma_text_of_add(head + sign + names, end);
        assert(named + " > "@ =~= out + text_of(head) + text_of(sign));
        assert(export::with_priorities(net, t, out)->Ok_0 =~= out + text_of(
            head + sign + names + end,
        ));
    }
}

/// What the line of a transition is made of: the word, the name, the label, the time
/// range, the arcs and the end of the line, each behind the other, and the line of the
/// priorities behind them.
proof fn lemma_with_transition_parts(net: NetView, t: int, out: Seq<char>)
    requires
        net.wf(),
        0 <= t < net.transitions.len(),
        !(net.transitions[t].time.start is Infinity),
    ensures
        export::with_transition(net, t, false, out) is Ok,
        export::with_transition(net, t, false, out)->Ok_0 == out + "tr "@ + escape(
            name_of(net, NodeId::Transition(TransitionId(t as usize))),
        ) + " "@ + text_of(label_pieces(net.transitions[t].label)) + text_of(
            range_pieces(net.transitions[t].time),
        ) + text_of(
            arcs_pieces(inputs(net, t)) + seq![Piece::Arrow, Piece::Blank] + arcs_pieces(
                outputs(net, t),
            ),
        ) + "\n"@ + text_of(
            priority_pieces(
                name_of(net, NodeId::Transition(TransitionId(t as usize))),
                names_of(net, net.transitions[t].priorities),
            ),
        ),
{
    let id = NodeId::Transition(TransitionId(t as usize));
    let tr = net.transitions[t];
    lemma_with_name(net, id, out + "tr "@);
    let named = export::with_name(net, id, out + "tr "@)->Ok_0;
    lemma_with_label(tr.label, named + " "@);
    let labelled = export::with_label(tr.label, named + " "@);
    lemma_with_interval(tr.time, labelled);
    let timed = export::with_interval(tr.time, labelled)->Ok_0;
    lemma_with_all_arcs(net, t, timed);
    let arcs = export::with_all_arcs(net, t, timed)->Ok_0;
    lemma_with_priorities(net, t, arcs + "\n"@);
}

/// The lines of a transition of a well-formed net are written as their pieces, if the
/// time range of the transition has a start.
pub proof fn lemma_with_transition(net: NetView, t: int, out: Seq<char>)
    requires
        net.wf(),
        0 <= t < net.transitions.len(),
        !(net.transitions[t].time.start is Infinity),
    ensures
        export::with_transition(net, t, false, out) is Ok,
        export::with_transition(net, t, false, out)->Ok_0 == out + text_of(transition_line(net, t)),
{
    let id = NodeId::Transition(TransitionId(t as usize));
    let n = name_of(net, id);
    let tr = net.transitions[t];
    let head = seq![Piece::Transition, Piece::Blank, Piece::Name(n), Piece::Blank];
    let lab = label_pieces(tr.label);
    let range = range_pieces(tr.time);
    let sides = arcs_pieces(inputs(net, t)) + seq![Piece::Arrow, Piece::Blank] + arcs_pieces(
        outputs(net, t),
    );
    let end = seq![Piece::Line];
    let ranks = priority_pieces(n, names_of(net, tr.priorities));
    lemma_with_transition_parts(net, t, out);
    lemma_pieces_text(head);
    lemma_pieces_text(end);
    lemma_text_of_add(head, lab);
    lemma_text_of_add(head + lab, range);
    lemma_text_of_add(head + lab + range, sides);
    lemma_text_of_add(head + lab + range + sides, end);
    lemma_text_of_add(head + lab + range + sides + end, ranks);
    assert(transition_pieces(n, tr.label, tr.time, inputs(net, t), outputs(net, t)) =~= head + lab
        + range + sides + end);
    assert(text_of(head) =~= "tr "@ + escape(n) + " "@) by {
        reveal_strlit("tr ");
        reveal_strlit(" ");
    }
    assert(text_of(end) =~= "\n"@) by {
        reveal_strlit("\n");
    }
    lemma_five(out, text_of(head), text_of(lab), text_of(range), text_of(sides), text_of(end));
    assert(out + "tr "@ + escape(n) + " "@ =~= out + text_of(head));
    let line = text_of(head) + text_of(lab) + text_of(range) + text_of(sides) + text_of(end);
    assert(out + line + text_of(ranks) =~= out + (line + text_of(ranks)));
}

/// The pieces of the line of the place `k`.
pub open spec fn place_line(net: NetView, k: int) -> Seq<Piece> {
    place_pieces(
        name_of(net, NodeId::Place(PlaceId(k as usize))),
        net.places[k].label,
        net.places[k].initial,
    )
}

/// The pieces of the lines of the transition `j`: its own line, and that of its
/// priorities.
pub open spec fn transition_line(net: NetView, j: int) -> Seq<Piece> {
    transition_pieces(
        name_of(net, NodeId::Transition(TransitionId(j as usize))),
        net.transitions[j].label,
        net.transitions[j].time,
        inputs(net, j),
        outputs(net, j),
    ) + priority_pieces(
        name_of(net, NodeId::Transition(TransitionId(j as usize))),
        names_of(net, net.transitions[j].priorities),
    )
}

/// The pieces of names, each with a blank behind it.
pub open spec fn names_pieces(names: Seq<Seq<char>>) -> Seq<Piece>
    decreases names.len(),
{
    if names.len() == 0 {
        Seq::empty()
    } else {
        seq![Piece::Name(names[0]), Piece::Blank] + names_pieces(names.drop_first())
    }
}

/// The pieces of the line of the priorities of a transition; nothing if it has none.
pub open spec fn priority_pieces(n: Seq<char>, lows: Seq<Seq<char>>) -> Seq<Piece> {
    if lows.len() == 0 {
        Seq::empty()
    } else {
        seq![Piece::Priority, Piece::Blank, Piece::Name(n), Piece::Blank] + seq![
            Piece::Greater,
            Piece::Blank,
        ] + names_pieces(lows) + seq![Piece::Line]
    }
}

/// The pieces of names are read as the names; they can be written, and end in a way
/// that lets any piece follow.
pub proof fn lemma_names_pieces(names: Seq<Seq<char>>)
    ensures
        kinds_of(names_pieces(names)) == names_kinds(names),
        chained(names_pieces(names)),
        closed(names_pieces(names)),
    decreases names.len(),
{
    if names.len() == 0 {
        assert(names_kinds(names) =~= Seq::<KindView>::empty());
    } else {
        let one = seq![Piece::Name(names[0]), Piece::Blank];
        let rest = names_pieces(names.drop_first());
        lemma_names_pieces(names.drop_first());
        lemma_kinds_of_add(one, rest);
        lemma_pieces_kinds(one);
        lemma_pieces_chained(one);
        assert(one.last() == Piece::Blank);
        lemma_chained_add(one, rest);
        assert(kinds_of(one) =~= seq![KindView::Identifier(names[0])]);
        assert(names_kinds(names) =~= seq![KindView::Identifier(names[0])] + names_kinds(
            names.drop_first(),
        ));
        if rest.len() > 0 {
            assert((one + rest).last() == rest.last());
        } else {
            assert(one + rest =~= one);
        }
    }
}

/// The pieces of names and more names are the pieces of both.
pub proof fn lemma_names_pieces_add(a: Seq<Seq<char>>, b: Seq<Seq<char>>)
    ensures
        names_pieces(a + b) == names_pieces(a) + names_pieces(b),
    decreases a.len(),
{
    if a.len() == 0 {
        assert(a + b =~= b);
        assert(names_pieces(a) + names_pieces(b) =~= names_pieces(b));
    } else {
        assert((a + b)[0] == a[0]);
        assert((a + b).drop_first() =~= a.drop_first() + b);
        lemma_names_pieces_add(a.drop_first(), b);
        assert(names_pieces(a + b) =~= names_pieces(a) + names_pieces(b));
    }
}

/// The pieces of the line of the priorities of a transition are read as the tokens of
/// the line; they can be written, and end in a way that lets any piece follow.
pub proof fn lemma_priority_pieces(n: Seq<char>, lows: Seq<Seq<char>>)
    ensures
        kinds_of(priority_pieces(n, lows)) == (if lows.len() == 0 {
            Seq::<KindView>::empty()
        } else {
            priority_kinds(n, lows) + seq![KindView::NewLine]
        }),
        chained(priority_pieces(n, lows)),
        closed(priority_pieces(n, lows)),
{
    if lows.len() > 0 {
        let head = seq![Piece::Priority, Piece::Blank, Piece::Name(n), Piece::Blank];
        let sign = seq![Piece::Greater, Piece::Blank];
        let names = names_pieces(lows);
        let end = seq![Piece::Line];
        let all = priority_pieces(n, lows);
        assert(all =~= head + (sign + (names + end)));
        lemma_names_pieces(lows);
        lemma_kinds_of_add(head, sign + (names + end));
        lemma_kinds_of_add(sign, names + end);
        lemma_kinds_of_add(names, end);
        lemma_pieces_kinds(head);
        lemma_pieces_kinds(sign);
        lemma_pieces_kinds(end);
        assert(kinds_of(head) =~= seq![KindView::Priority, KindView::Identifier(n)]);
        assert(kinds_of(sign) =~= seq![KindView::GreaterThan]);
        assert(kinds_of(end) =~= seq![KindView::NewLine]);
        assert(kinds_of(all) =~= priority_kinds(n, lows) + seq![KindView::NewLine]);
        lemma_pieces_chained(head);
        lemma_pieces_chained(sign);
        lemma_pieces_chained(end);
        lemma_chained_add(names, end);
        assert(sign.last() == Piece::Blank);
        lemma_chained_add(sign, names + end);
        assert(head.last() == Piece::Blank);
        lemma_chained_add(head, sign + (names + end));
        assert(all.last() == Piece::Line);
    }
}

/// The pieces of the lines of the first `n` places.
pub open spec fn place_lines_to(net: NetView, n: nat) -> Seq<Piece>
    decreases n,
{
    if n == 0 {
        Seq::empty()
    } else {
        place_lines_to(net, (n - 1) as nat) + place_line(net, n - 1)
    }
}

/// The lines of the first `n` places and those of the others are the lines of all.
pub proof fn lemma_place_lines_to(net: NetView, n: nat)
    requires
        n <= net.places.len(),
    ensures
        place_lines_to(net, n) + place_lines(net, n as int) == place_lines(net, 0),
    decreases n,
{
    if n == 0 {
        assert(place_lines_to(net, 0) + place_lines(net, 0) =~= place_lines(net, 0));
    } else {
        lemma_place_lines_to(net, (n - 1) as nat);
        let before = place_lines_to(net, (n - 1) as nat);
        let one = place_line(net, n - 1);
        let rest = place_lines(net, n as int);
        assert(place_lines(net, n - 1) == one + rest);
        assert(before + one + rest =~= before + (one + rest));
    }
}

/// The pieces of the lines of the first `n` transitions.
pub open spec fn transition_lines_to(net: NetView, n: nat) -> Seq<Piece>
    decreases n,
{
    if n == 0 {
        Seq::empty()
    } else {
        transition_lines_to(net, (n - 1) as nat) + transition_line(net, n - 1)
    }
}

/// The lines of the first `n` transitions and those of the others are the lines of all.
pub proof fn lemma_transition_lines_to(net: NetView, n: nat)
    requires
        n <= net.transitions.len(),
    ensures
        transition_lines_to(net, n) + transition_lines(net, n as int) == transition_lines(net, 0),
    decreases n,
{
    if n == 0 {
        assert(transition_lines_to(net, 0) + transition_lines(net, 0) =~= transition_lines(net, 0));
    } else {
        lemma_transition_lines_to(net, (n - 1) as nat);
        let before = transition_lines_to(net, (n - 1) as nat);
        let one = transition_line(net, n - 1);
        let rest = transition_lines(net, n as int);
        assert(transition_lines(net, n - 1) == one + rest);
        assert(before + one + rest =~= before + (one + rest));
    }
}

/// The lines of the first `n` places of a well-formed net are written as their pieces.
pub proof fn lemma_with_places(net: NetView, n: nat, out: Seq<char>)
    requires
        net.wf(),
        n <= net.places.len(),
    ensures
        export::with_places(net, n, true, out) is Ok,
        export::with_places(net, n, true, out)->Ok_0 == out + text_of(place_lines_to(net, n)),
    decreases n,
{
    if n == 0 {
        assert(out + text_of(place_lines_to(net, 0)) =~= out);
    } else {
        lemma_with_places(net, (n - 1) as nat, out);
        let before = export::with_places(net, (n - 1) as nat, true, out)->Ok_0;
        lemma_with_place(net, n - 1, before);
        lemma_text_of_add(place_lines_to(net, (n - 1) as nat), place_line(net, n - 1));
        assert(export::with_places(net, n, true, out)->Ok_0 =~= out + text_of(
            place_lines_to(net, n),
        ));
    }
}

/// The lines of the first `n` transitions of a well-formed net are written as their
/// pieces, if each time range has a start.
pub proof fn lemma_with_transitions(net: NetView, n: nat, out: Seq<char>)
    requires
        net.wf(),
        n <= net.transitions.len(),
        forall|t: int|
            0 <= t < net.transitions.len() ==> !((#[trigger] net.transitions[t]).time.start
                is Infinity),
    ensures
        export::with_transitions(net, n, false, out) is Ok,
        export::with_transitions(net, n, false, out)->Ok_0 == out + text_of(
            transition_lines_to(net, n),
        ),
    decreases n,
{
    if n == 0 {
        assert(out + text_of(transition_lines_to(net, 0)) =~= out);
    } else {
        lemma_with_transitions(net, (n - 1) as nat, out);
        let before = export::with_transitions(net, (n - 1) as nat, false, out)->Ok_0;
        lemma_with_transition(net, n - 1, before);
        lemma_text_of_add(transition_lines_to(net, (n - 1) as nat), transition_line(net, n - 1));
        assert(export::with_transitions(net, n, false, out)->Ok_0 =~= out + text_of(
            transition_lines_to(net, n),
        ));
    }
}

/// What the writer writes of a well-formed net whose time ranges have a start, with all
/// its places and all its transitions, is the text of the pieces of the net.
pub proof fn lemma_exported(net: NetView)
    requires
        net.wf(),
        forall|t: int|
            0 <= t < net.transitions.len() ==> !((#[trigger] net.transitions[t]).time.start
                is Infinity),
    ensures
        export::exported(net, true, false) is Ok,
        export::exported(net, true, false)->Ok_0 == text_of(net_pieces(net)),
{
    reveal_strlit("net ");
    reveal_strlit("\n");
    let head = head_pieces(net);
    lemma_pieces_text(head);
    let start = if net.name.len() == 0 {
        Seq::<char>::empty()
    } else {
        "net "@ + escape(net.name) + "\n"@
    };
    assert(start =~= text_of(head));
    lemma_with_places(net, net.places.len(), start);
    let places = export::with_places(net, net.places.len(), true, start)->Ok_0;
    lemma_with_transitions(net, net.transitions.len(), places);
    lemma_place_lines_to(net, net.places.len());
    lemma_transition_lines_to(net, net.transitions.len());
    assert(place_lines_to(net, net.places.len()) =~= place_lines(net, 0)) by {
        assert(place_lines(net, net.places.len() as int) =~= Seq::<Piece>::empty());
    }
    assert(transition_lines_to(net, net.transitions.len()) =~= transition_lines(net, 0)) by {
        assert(transition_lines(net, net.transitions.len() as int) =~= Seq::<Piece>::empty());
    }
    lemma_text_of_add(head, place_lines(net, 0));
    lemma_text_of_add(head + place_lines(net, 0), transition_lines(net, 0));
}

} // verus!
