//! The net that the lines of a written net build: line after line it grows into the net
//! that was written.
use vstd::prelude::*;
use crate::arc;
use crate::ids::{NodeId, PlaceId, TransitionId};
use crate::marking::{has_key, lemma_entry, lower_bound, put, sorted, weight, Key};
use crate::names::{drop_right, lemma_avoid, lemma_register_wf, lemma_set, NamesView};
use crate::timed::net::NetView;
use crate::tina::parser::{labelled, place_named, timed, transition_named};
use crate::tina::parser::{other_end, over_each, with_arc};
use crate::tina::round_trip::{
    always, arc_added, arc_fits, arc_of, arcs_added, arcs_fit, place_added, sides_added,
    sides_fit, transition_added, with_interval, with_label, Mark, Written,
};
use crate::timed::place::PlaceView;
use crate::timed::time_range::TimeRange;
use crate::timed::transition::TransitionView;

verus! {

/// How many entries of a sorted `s` rank below `j`.
pub open spec fn below<T: Key>(s: Seq<(T, usize)>, j: int) -> int
    decreases s.len(),
{
    if s.len() == 0 {
        0
    } else if s.last().0.rank() < j {
        s.len() as int
    } else {
        below(s.drop_last(), j)
    }
}

/// In a sorted sequence `below` parts the ranks below `j` from the others.
pub proof fn lemma_below<T: Key>(s: Seq<(T, usize)>, j: int)
    requires
        sorted(s),
    ensures
        0 <= below(s, j) <= s.len(),
        forall|i: int| 0 <= i < below(s, j) ==> (#[trigger] s[i]).0.rank() < j,
        forall|i: int| below(s, j) <= i < s.len() ==> (#[trigger] s[i]).0.rank() >= j,
    decreases s.len(),
{
    if s.len() == 0 {
    } else if s.last().0.rank() < j {
        assert forall|i: int| 0 <= i < s.len() implies (#[trigger] s[i]).0.rank() < j by {
            if i < s.len() - 1 {
                assert(s[i].0.rank() < s[s.len() - 1].0.rank());
            }
        }
    } else {
        let t = s.drop_last();
        assert forall|i: int, k: int| 0 <= i < k < t.len() implies (#[trigger] t[i]).0.rank() < (
        #[trigger] t[k]).0.rank() by {
            assert(t[i] == s[i] && t[k] == s[k]);
        }
        lemma_below(t, j);
        assert forall|i: int| 0 <= i < below(s, j) implies (#[trigger] s[i]).0.rank() < j by {
            assert(t[i] == s[i]);
        }
        assert forall|i: int| below(s, j) <= i < s.len() implies (#[trigger] s[i]).0.rank() >= j by {
            if i < s.len() - 1 {
                assert(t[i] == s[i]);
            }
        }
    }
}

/// Where the entries that rank below `j` end is determined by what parts them from the
/// others.
pub proof fn lemma_below_is<T: Key>(s: Seq<(T, usize)>, j: int, b: int)
    requires
        sorted(s),
        0 <= b <= s.len(),
        forall|i: int| 0 <= i < b ==> (#[trigger] s[i]).0.rank() < j,
        forall|i: int| b <= i < s.len() ==> (#[trigger] s[i]).0.rank() >= j,
    ensures
        below(s, j) == b,
{
    lemma_below(s, j);
    let a = below(s, j);
    if a < b {
        assert(s[a].0.rank() < j);
    } else if a > b {
        assert(s[b].0.rank() >= j);
    }
}

/// The entries of `s` that rank below `j`, and the one behind them if `plus`.
pub open spec fn upto<T: Key>(s: Seq<(T, usize)>, j: int, plus: bool) -> Seq<(T, usize)> {
    s.take(
        below(s, j) + if plus {
            1int
        } else {
            0int
        },
    )
}

/// Putting an entry of a sorted sequence behind those before it gives those up to it,
/// which did not hold its key.
pub proof fn lemma_put_next<T: Key>(s: Seq<(T, usize)>, i: int)
    requires
        sorted(s),
        0 <= i < s.len(),
    ensures
        put(s.take(i), s[i].0, s[i].1) == s.take(i + 1),
        !has_key(s.take(i), s[i].0),
        weight(s.take(i), s[i].0) == 0,
{
    let front = s.take(i);
    if has_key(front, s[i].0) {
        let x = choose|x: int| 0 <= x < front.len() && (#[trigger] front[x]).0 == s[i].0;
        assert(front[x] == s[x]);
        assert(s[x].0.rank() < s[i].0.rank());
    }
    if i > 0 {
        assert(front.last() == s[i - 1]);
        assert(s[i - 1].0.rank() < s[i].0.rank());
    }
    assert(lower_bound(front, s[i].0) == i);
    assert(put(front, s[i].0, s[i].1) =~= s.take(i + 1));
}

/// The key of rank `j` has an entry in a sorted sequence exactly if the entry behind
/// those that rank below `j` has that rank, and then its count stands there; the entries
/// that rank below `j + 1` are those below `j` and that one.
pub proof fn lemma_below_next<T: Key>(s: Seq<(T, usize)>, k: T)
    requires
        sorted(s),
    ensures
        has_key(s, k) <==> below(s, k.rank()) < s.len() && s[below(s, k.rank())].0 == k,
        has_key(s, k) ==> s[below(s, k.rank())].1 == weight(s, k),
        upto(s, k.rank() + 1, false) == upto(s, k.rank(), has_key(s, k)),
{
    let j = k.rank();
    let b = below(s, j);
    lemma_below(s, j);
    if has_key(s, k) {
        let x = choose|x: int| 0 <= x < s.len() && (#[trigger] s[x]).0 == k;
        lemma_entry(s, x);
        if x < b {
            assert(s[x].0.rank() < j);
        }
        if x > b {
            assert(s[b].0.rank() >= j);
            assert(s[b].0.rank() < s[x].0.rank());
        }
        assert(x == b);
    }
    if b < s.len() && s[b].0 == k {
        assert(has_key(s, k));
    }
    if has_key(s, k) {
        assert forall|i: int| b + 1 <= i < s.len() implies (#[trigger] s[i]).0.rank() >= j + 1 by {
            assert(s[b].0.rank() < s[i].0.rank());
        }
        assert forall|i: int| 0 <= i < b + 1 implies (#[trigger] s[i]).0.rank() < j + 1 by {
            if i < b {
                assert(s[i].0.rank() < j);
            }
        }
        lemma_below_is(s, j + 1, b + 1);
    } else {
        assert forall|i: int| b <= i < s.len() implies (#[trigger] s[i]).0.rank() >= j + 1 by {
            assert(s[i].0.rank() >= j);
            if s[i].0.rank() == j {
                s[i].0.rank_injective(k);
                if i > b {
                    assert(s[b].0.rank() < s[i].0.rank());
                }
            }
        }
        assert forall|i: int| 0 <= i < b implies (#[trigger] s[i]).0.rank() < j + 1 by {
            assert(s[i].0.rank() < j);
        }
        lemma_below_is(s, j + 1, b);
    }
}

/// The name of a node of the net.
pub open spec fn name_of(net: NetView, id: NodeId) -> Seq<char> {
    net.names.name_of(id)->0
}

/// The names of the first `k` places and the first `j` transitions of the net.
pub open spec fn table_upto(net: NetView, k: int, j: int) -> Map<Seq<char>, NodeId> {
    Map::new(
        |n: Seq<char>|
            net.names.table.contains_key(n) && match net.names.table[n] {
                NodeId::Place(p) => p.0 < k,
                NodeId::Transition(t) => t.0 < j,
            },
        |n: Seq<char>| net.names.table[n],
    )
}

/// A place with the arcs to the transitions below `j` only, and with the arc of each
/// kind to the transition `j` where the flag of the kind says so; it is not removed.
pub open spec fn place_at(pl: PlaceView, j: int, c: bool, p: bool, t: bool, i: bool) -> PlaceView {
    PlaceView {
        consumed_by: upto(pl.consumed_by, j, c),
        produced_by: upto(pl.produced_by, j, p),
        condition_for: upto(pl.condition_for, j, t),
        inhibitor_for: upto(pl.inhibitor_for, j, i),
        deleted: false,
        ..pl
    }
}

/// A transition that is not removed.
pub open spec fn live(tr: TransitionView) -> TransitionView {
    TransitionView { deleted: false, ..tr }
}

/// The net as far as it is built when the lines of its first `k` places and of its first
/// `j` transitions were read: those nodes, none of them removed, and the arcs between
/// them.
pub open spec fn grown(net: NetView, names: NamesView, k: int, j: int) -> NetView {
    NetView {
        name: net.name,
        names,
        transitions: Seq::new(j as nat, |t: int| live(net.transitions[t])),
        places: Seq::new(
            k as nat,
            |q: int| place_at(net.places[q], j, false, false, false, false),
        ),
    }
}

/// A node of a well-formed net bears its name, and no other node does.
pub proof fn lemma_name_of(net: NetView, id: NodeId)
    requires
        net.wf(),
        net.valid_node(id),
    ensures
        net.names.table.contains_key(name_of(net, id)),
        net.names.table[name_of(net, id)] == id,
{
    assert(net.names.has_name(id));
}

/// The table of names after a new node got its name: the names it held, and the new
/// name for the new node.
pub proof fn lemma_named(names: NamesView, id: NodeId, n: Seq<char>)
    requires
        names.wf(),
        !names.table.contains_key(n),
        forall|m: Seq<char>| names.table.contains_key(m) ==> #[trigger] names.table[m] != id,
    ensures
        ({
            let first = names.register(id);
            let then = if first.index_of(n) is Some {
                first.avoid(n)
            } else {
                first.avoid(n).set(id, n)
            };
            then.table == names.table.insert(n, id) && then.wf()
        }),
{
    let first = names.register(id);
    let auto = names.auto_name(names.table.len());
    assert(!names.has_name(id));
    lemma_register_wf(names, id);
    lemma_avoid(first, n);
    assert(drop_right(names.table, id) =~= names.table);
    if first.index_of(n) is Some {
        assert(n == auto);
        assert(first.avoid(n).table =~= names.table.insert(n, id));
    } else {
        let last = first.avoid(n).set(id, n);
        lemma_set(first.avoid(n), id, n);
        assert(drop_right(first.table, id) =~= names.table);
        assert(last.table =~= names.table.insert(n, id));
    }
}

/// The line of the place `k` names a new place: the next one.
pub proof fn lemma_place_named(net: NetView, built: NetView, k: int)
    requires
        net.wf(),
        0 <= k < net.places.len(),
        built.places.len() == k,
        built.names.wf(),
        built.names.table == table_upto(net, k, 0),
    ensures
        place_named(built, name_of(net, NodeId::Place(PlaceId(k as usize)))) is Ok,
        ({
            let r = place_named(built, name_of(net, NodeId::Place(PlaceId(k as usize))))->Ok_0;
            &&& r.0 == PlaceId(k as usize)
            &&& r.1.names.wf()
            &&& r.1.names.table == table_upto(net, k + 1, 0)
            &&& r.1.name == built.name
            &&& r.1.transitions == built.transitions
            &&& r.1.places == built.places.push(PlaceView::fresh(PlaceId(k as usize)))
        }),
{
    let id = NodeId::Place(PlaceId(k as usize));
    let n = name_of(net, id);
    lemma_name_of(net, id);
    assert(!built.names.table.contains_key(n));
    assert forall|m: Seq<char>| built.names.table.contains_key(m) implies #[trigger] built.names.table[m]
        != id by {}
    lemma_named(built.names, id, n);
    let r = place_named(built, n)->Ok_0;
    assert(built.create_place().valid_node(id));
    assert(r.1.names.table =~= table_upto(net, k + 1, 0)) by {
        assert forall|m: Seq<char>| #[trigger]
            table_upto(net, k + 1, 0).contains_key(m) <==> built.names.table.insert(
                n,
                id,
            ).contains_key(m) by {
            if net.names.table.contains_key(m) && net.names.table[m] == id {
                assert(m == n);
            }
        }
    }
}

/// The line of the transition `j` names a new transition: the next one.
pub proof fn lemma_transition_named(net: NetView, built: NetView, j: int)
    requires
        net.wf(),
        0 <= j < net.transitions.len(),
        built.transitions.len() == j,
        built.names.wf(),
        built.names.table == table_upto(net, net.places.len() as int, j),
    ensures
        transition_named(built, name_of(net, NodeId::Transition(TransitionId(j as usize)))) is Ok,
        ({
            let r = transition_named(
                built,
                name_of(net, NodeId::Transition(TransitionId(j as usize))),
            )->Ok_0;
            &&& r.0 == TransitionId(j as usize)
            &&& r.1.names.wf()
            &&& r.1.names.table == table_upto(net, net.places.len() as int, j + 1)
            &&& r.1.name == built.name
            &&& r.1.places == built.places
            &&& r.1.transitions == built.transitions.push(
                TransitionView::fresh(TransitionId(j as usize)),
            )
        }),
{
    let id = NodeId::Transition(TransitionId(j as usize));
    let n = name_of(net, id);
    lemma_name_of(net, id);
    assert(!built.names.table.contains_key(n));
    assert forall|m: Seq<char>| built.names.table.contains_key(m) implies #[trigger] built.names.table[m]
        != id by {}
    lemma_named(built.names, id, n);
    let r = transition_named(built, n)->Ok_0;
    assert(built.create_transition().valid_node(id));
    assert(r.1.names.table =~= table_upto(net, net.places.len() as int, j + 1)) by {
        assert forall|m: Seq<char>| #[trigger]
            table_upto(net, net.places.len() as int, j + 1).contains_key(m)
                <==> built.names.table.insert(n, id).contains_key(m) by {
            if net.names.table.contains_key(m) && net.names.table[m] == id {
                assert(m == n);
            }
            if net.names.table.contains_key(m) {
                assert(net.valid_node(net.names.table[m]));
            }
        }
    }
}

/// No entry ranks below zero.
pub proof fn lemma_below_zero(s: Seq<(TransitionId, usize)>)
    requires
        sorted(s),
    ensures
        upto(s, 0, false) == Seq::<(TransitionId, usize)>::empty(),
{
    lemma_below(s, 0);
    if below(s, 0) > 0 {
        assert(s[0].0.rank() < 0);
    }
    assert(upto(s, 0, false) =~= Seq::<(TransitionId, usize)>::empty());
}

/// The line of the place `k` makes the net that is built grow by that place.
pub proof fn lemma_place_added(net: NetView, built: NetView, k: int)
    requires
        net.wf(),
        0 <= k < net.places.len(),
        built == grown(net, built.names, k, 0),
        built.names.wf(),
        built.names.table == table_upto(net, k, 0),
    ensures
        ({
            let n = name_of(net, NodeId::Place(PlaceId(k as usize)));
            let next = place_added(built, n, net.places[k].label, net.places[k].initial);
            &&& place_named(built, n) is Ok
            &&& place_named(built, n)->Ok_0.0.0 < place_named(built, n)->Ok_0.1.places.len()
            &&& place_named(built, n)->Ok_0.1.places[place_named(built, n)->Ok_0.0.0 as int].initial
                == 0
            &&& next == grown(net, next.names, k + 1, 0)
            &&& next.names.wf()
            &&& next.names.table == table_upto(net, k + 1, 0)
        }),
{
    let pl = PlaceId(k as usize);
    let n = name_of(net, NodeId::Place(pl));
    lemma_place_named(net, built, k);
    let named = place_named(built, n)->Ok_0.1;
    let next = place_added(built, n, net.places[k].label, net.places[k].initial);
    let want = grown(net, next.names, k + 1, 0);
    assert(net.place_wf(k));
    lemma_below_zero(net.places[k].consumed_by);
    lemma_below_zero(net.places[k].produced_by);
    lemma_below_zero(net.places[k].condition_for);
    lemma_below_zero(net.places[k].inhibitor_for);
    assert(next.names == named.names);
    assert(next.places[k] == want.places[k]);
    assert forall|q: int| 0 <= q < k implies next.places[q] == want.places[q] by {
        assert(built.places[q] == place_at(net.places[q], 0, false, false, false, false));
        assert(named.places[q] == built.places[q]);
    }
    assert(next.places =~= want.places);
    assert(next.transitions =~= want.transitions);
}

/// The transition `j` of the net as far as it is built: with a label and a time range,
/// and with the first arcs of each kind.
pub open spec fn transition_at(
    tr: TransitionView,
    j: int,
    label: Option<Seq<char>>,
    time: TimeRange,
    c: int,
    p: int,
    t: int,
    i: int,
) -> TransitionView {
    TransitionView {
        id: TransitionId(j as usize),
        label,
        time,
        consume: tr.consume.take(c),
        produce: tr.produce.take(p),
        conditions: tr.conditions.take(t),
        inhibitors: tr.inhibitors.take(i),
        priorities: Seq::empty(),
        deleted: false,
    }
}

/// The net as far as it is built while the line of the transition `j` is read: the
/// places, the transitions before `j`, and the transition `j` with the first arcs of each
/// kind, which the places have too.
pub open spec fn building(
    net: NetView,
    names: NamesView,
    j: int,
    label: Option<Seq<char>>,
    time: TimeRange,
    c: int,
    p: int,
    t: int,
    i: int,
) -> NetView {
    let cur = net.transitions[j];
    NetView {
        name: net.name,
        names,
        transitions: Seq::new(
            (j + 1) as nat,
            |x: int|
                if x < j {
                    live(net.transitions[x])
                } else {
                    transition_at(cur, j, label, time, c, p, t, i)
                },
        ),
        places: Seq::new(
            net.places.len(),
            |q: int|
                place_at(
                    net.places[q],
                    j,
                    has_key(cur.consume.take(c), PlaceId(q as usize)),
                    has_key(cur.produce.take(p), PlaceId(q as usize)),
                    has_key(cur.conditions.take(t), PlaceId(q as usize)),
                    has_key(cur.inhibitors.take(i), PlaceId(q as usize)),
                ),
        ),
    }
}

/// The arc at `x` among `arcs`, as it is written with the mark `mark`.
pub open spec fn written_arc(net: NetView, arcs: Seq<(PlaceId, usize)>, mark: Mark, x: int) -> Written {
    Written { name: name_of(net, NodeId::Place(arcs[x].0)), mark, weight: arcs[x].1 }
}

/// The arcs `arcs` from `x` on, as they are written with the mark `mark`.
pub open spec fn written_from(net: NetView, arcs: Seq<(PlaceId, usize)>, mark: Mark, x: int) -> Seq<
    Written,
> {
    Seq::new((arcs.len() - x) as nat, |y: int| written_arc(net, arcs, mark, x + y))
}

/// A key has an entry among the first `x + 1` entries of a sorted sequence exactly if it
/// has one among the first `x` or is the key of the entry at `x`.
pub proof fn lemma_has_key_take(s: Seq<(PlaceId, usize)>, x: int, k: PlaceId)
    requires
        0 <= x < s.len(),
    ensures
        has_key(s.take(x + 1), k) == (has_key(s.take(x), k) || s[x].0 == k),
{
    let a = s.take(x);
    let b = s.take(x + 1);
    if has_key(a, k) {
        let y = choose|y: int| 0 <= y < a.len() && (#[trigger] a[y]).0 == k;
        assert(b[y].0 == k);
    }
    if s[x].0 == k {
        assert(b[x].0 == k);
    }
    if has_key(b, k) {
        let y = choose|y: int| 0 <= y < b.len() && (#[trigger] b[y]).0 == k;
        if y < x {
            assert(a[y].0 == k);
        }
    }
}

/// One more arc that consumes is read while the line of the transition `j` is read.
pub proof fn lemma_arc_consume(
    net: NetView,
    names: NamesView,
    j: int,
    label: Option<Seq<char>>,
    time: TimeRange,
    c: int,
    p: int,
    t: int,
    i: int,
)
    requires
        net.wf(),
        0 <= j < net.transitions.len(),
        names.table == table_upto(net, net.places.len() as int, j + 1),
        0 <= c < net.transitions[j].consume.len(),
    ensures
        ({
            let before = building(net, names, j, label, time, c, p, t, i);
            let a = written_arc(net, net.transitions[j].consume, Mark::Normal, c);
            let fixed = NodeId::Transition(TransitionId(j as usize));
            let direct = arc::Kind::Consume(
                net.transitions[j].consume[c].0,
                TransitionId(j as usize),
                net.transitions[j].consume[c].1,
            );
            &&& arc_fits(before, fixed, true, a)
            &&& arc_added(before, fixed, true, a) == building(net, names, j, label, time, c + 1, p, t, i)
            &&& before.can_add(direct)
            &&& before.add_arc(direct) == building(net, names, j, label, time, c + 1, p, t, i)
        }),
{
    reveal(other_end);
    reveal(with_arc);
    let cur = net.transitions[j];
    let arcs = cur.consume;
    let pl = arcs[c].0;
    let w = arcs[c].1;
    let tr = TransitionId(j as usize);
    let fixed = NodeId::Transition(tr);
    let before = building(net, names, j, label, time, c, p, t, i);
    let want = building(net, names, j, label, time, c + 1, p, t, i);
    let a = written_arc(net, arcs, Mark::Normal, c);
    assert(net.transition_wf(j));
    assert(net.valid_place(pl)) by {
        assert(arcs[c].0.rank() < net.places.len());
    }
    lemma_name_of(net, NodeId::Place(pl));
    assert(names.table.contains_key(a.name) && names.table[a.name] == NodeId::Place(pl));
    assert(other_end(before, fixed, a.name) is Ok && other_end(before, fixed, a.name)->Ok_0 == (
        NodeId::Place(pl),
        before,
    ));
    let the_arc = arc::Kind::Consume(pl, tr, w);
    assert(arc_of(a, pl, tr, true) == the_arc);
    lemma_put_next(arcs, c);
    assert(net.place_wf(pl.0 as int));
    assert(net.symmetric(pl.0 as int, j));
    let back = net.places[pl.0 as int].consumed_by;
    lemma_entry(arcs, c);
    lemma_below_next(back, tr);
    lemma_below(back, j);
    let b = below(back, j);
    lemma_put_next(back, b);
    assert(back[b] == (tr, w));
    assert(!has_key(arcs.take(c), pl));
    assert(before.places[pl.0 as int].consumed_by == back.take(b));
    assert(before.transitions[j].consume == arcs.take(c));
    assert(before.can_add(the_arc));
    let after = before.add_arc(the_arc);
    assert(with_arc(before, the_arc) is Ok && with_arc(before, the_arc)->Ok_0 == after);
    assert(after.transitions[j] == want.transitions[j]);
    assert forall|x: int| 0 <= x < j implies after.transitions[x] == want.transitions[x] by {}
    assert(after.transitions =~= want.transitions);
    assert forall|q: int| 0 <= q < net.places.len() implies after.places[q] == want.places[q] by {
        lemma_has_key_take(arcs, c, PlaceId(q as usize));
        if q == pl.0 {
            assert(PlaceId(q as usize) == pl);
            assert(upto(back, j, true) == back.take(b + 1));
        } else {
            assert(PlaceId(q as usize) != pl);
        }
    }
    assert(after.places =~= want.places);
}

/// One more arc that produces is read while the line of the transition `j` is read.
pub proof fn lemma_arc_produce(
    net: NetView,
    names: NamesView,
    j: int,
    label: Option<Seq<char>>,
    time: TimeRange,
    c: int,
    p: int,
    t: int,
    i: int,
)
    requires
        net.wf(),
        0 <= j < net.transitions.len(),
        names.table == table_upto(net, net.places.len() as int, j + 1),
        0 <= p < net.transitions[j].produce.len(),
    ensures
        ({
            let before = building(net, names, j, label, time, c, p, t, i);
            let a = written_arc(net, net.transitions[j].produce, Mark::Normal, p);
            let fixed = NodeId::Transition(TransitionId(j as usize));
            let direct = arc::Kind::Produce(
                net.transitions[j].produce[p].0,
                TransitionId(j as usize),
                net.transitions[j].produce[p].1,
            );
            &&& arc_fits(before, fixed, false, a)
            &&& arc_added(before, fixed, false, a) == building(net, names, j, label, time, c, p + 1, t, i)
            &&& before.can_add(direct)
            &&& before.add_arc(direct) == building(net, names, j, label, time, c, p + 1, t, i)
        }),
{
    reveal(other_end);
    reveal(with_arc);
    let cur = net.transitions[j];
    let arcs = cur.produce;
    let pl = arcs[p].0;
    let w = arcs[p].1;
    let tr = TransitionId(j as usize);
    let fixed = NodeId::Transition(tr);
    let before = building(net, names, j, label, time, c, p, t, i);
    let want = building(net, names, j, label, time, c, p + 1, t, i);
    let a = written_arc(net, arcs, Mark::Normal, p);
    assert(net.transition_wf(j));
    assert(net.valid_place(pl)) by {
        assert(arcs[p].0.rank() < net.places.len());
    }
    lemma_name_of(net, NodeId::Place(pl));
    assert(names.table.contains_key(a.name) && names.table[a.name] == NodeId::Place(pl));
    assert(other_end(before, fixed, a.name) is Ok && other_end(before, fixed, a.name)->Ok_0 == (
        NodeId::Place(pl),
        before,
    ));
    let the_arc = arc::Kind::Produce(pl, tr, w);
    assert(arc_of(a, pl, tr, false) == the_arc);
    lemma_put_next(arcs, p);
    assert(net.place_wf(pl.0 as int));
    assert(net.symmetric(pl.0 as int, j));
    let back = net.places[pl.0 as int].produced_by;
    lemma_entry(arcs, p);
    lemma_below_next(back, tr);
    lemma_below(back, j);
    let b = below(back, j);
    lemma_put_next(back, b);
    assert(back[b] == (tr, w));
    assert(!has_key(arcs.take(p), pl));
    assert(before.places[pl.0 as int].produced_by == back.take(b));
    assert(before.transitions[j].produce == arcs.take(p));
    assert(before.can_add(the_arc));
    let after = before.add_arc(the_arc);
    assert(with_arc(before, the_arc) is Ok && with_arc(before, the_arc)->Ok_0 == after);
    assert(after.transitions[j] == want.transitions[j]);
    assert forall|x: int| 0 <= x < j implies after.transitions[x] == want.transitions[x] by {}
    assert(after.transitions =~= want.transitions);
    assert forall|q: int| 0 <= q < net.places.len() implies after.places[q] == want.places[q] by {
        lemma_has_key_take(arcs, p, PlaceId(q as usize));
        if q == pl.0 {
            assert(PlaceId(q as usize) == pl);
            assert(upto(back, j, true) == back.take(b + 1));
        } else {
            assert(PlaceId(q as usize) != pl);
        }
    }
    assert(after.places =~= want.places);
}

/// One more arc that tests is read while the line of the transition `j` is read.
pub proof fn lemma_arc_conditions(
    net: NetView,
    names: NamesView,
    j: int,
    label: Option<Seq<char>>,
    time: TimeRange,
    c: int,
    p: int,
    t: int,
    i: int,
)
    requires
        net.wf(),
        0 <= j < net.transitions.len(),
        names.table == table_upto(net, net.places.len() as int, j + 1),
        0 <= t < net.transitions[j].conditions.len(),
    ensures
        ({
            let before = building(net, names, j, label, time, c, p, t, i);
            let a = written_arc(net, net.transitions[j].conditions, Mark::Test, t);
            let fixed = NodeId::Transition(TransitionId(j as usize));
            let direct = arc::Kind::Test(
                net.transitions[j].conditions[t].0,
                TransitionId(j as usize),
                net.transitions[j].conditions[t].1,
            );
            &&& arc_fits(before, fixed, true, a)
            &&& arc_added(before, fixed, true, a) == building(net, names, j, label, time, c, p, t + 1, i)
            &&& before.can_add(direct)
            &&& before.add_arc(direct) == building(net, names, j, label, time, c, p, t + 1, i)
        }),
{
    reveal(other_end);
    reveal(with_arc);
    let cur = net.transitions[j];
    let arcs = cur.conditions;
    let pl = arcs[t].0;
    let w = arcs[t].1;
    let tr = TransitionId(j as usize);
    let fixed = NodeId::Transition(tr);
    let before = building(net, names, j, label, time, c, p, t, i);
    let want = building(net, names, j, label, time, c, p, t + 1, i);
    let a = written_arc(net, arcs, Mark::Test, t);
    assert(net.transition_wf(j));
    assert(net.valid_place(pl)) by {
        assert(arcs[t].0.rank() < net.places.len());
    }
    lemma_name_of(net, NodeId::Place(pl));
    assert(names.table.contains_key(a.name) && names.table[a.name] == NodeId::Place(pl));
    assert(other_end(before, fixed, a.name) is Ok && other_end(before, fixed, a.name)->Ok_0 == (
        NodeId::Place(pl),
        before,
    ));
    let the_arc = arc::Kind::Test(pl, tr, w);
    assert(arc_of(a, pl, tr, true) == the_arc);
    lemma_put_next(arcs, t);
    assert(net.place_wf(pl.0 as int));
    assert(net.symmetric(pl.0 as int, j));
    let back = net.places[pl.0 as int].condition_for;
    lemma_entry(arcs, t);
    lemma_below_next(back, tr);
    lemma_below(back, j);
    let b = below(back, j);
    lemma_put_next(back, b);
    assert(back[b] == (tr, w));
    assert(!has_key(arcs.take(t), pl));
    assert(before.places[pl.0 as int].condition_for == back.take(b));
    assert(before.transitions[j].conditions == arcs.take(t));
    assert(before.can_add(the_arc));
    let after = before.add_arc(the_arc);
    assert(with_arc(before, the_arc) is Ok && with_arc(before, the_arc)->Ok_0 == after);
    assert(after.transitions[j] == want.transitions[j]);
    assert forall|x: int| 0 <= x < j implies after.transitions[x] == want.transitions[x] by {}
    assert(after.transitions =~= want.transitions);
    assert forall|q: int| 0 <= q < net.places.len() implies after.places[q] == want.places[q] by {
        lemma_has_key_take(arcs, t, PlaceId(q as usize));
        if q == pl.0 {
            assert(PlaceId(q as usize) == pl);
            assert(upto(back, j, true) == back.take(b + 1));
        } else {
            assert(PlaceId(q as usize) != pl);
        }
    }
    assert(after.places =~= want.places);
}

/// One more arc that inhibits is read while the line of the transition `j` is read.
pub proof fn lemma_arc_inhibitors(
    net: NetView,
    names: NamesView,
    j: int,
    label: Option<Seq<char>>,
    time: TimeRange,
    c: int,
    p: int,
    t: int,
    i: int,
)
    requires
        net.wf(),
        0 <= j < net.transitions.len(),
        names.table == table_upto(net, net.places.len() as int, j + 1),
        0 <= i < net.transitions[j].inhibitors.len(),
    ensures
        ({
            let before = building(net, names, j, label, time, c, p, t, i);
            let a = written_arc(net, net.transitions[j].inhibitors, Mark::Inhibitor, i);
            let fixed = NodeId::Transition(TransitionId(j as usize));
            let direct = arc::Kind::Inhibitor(
                net.transitions[j].inhibitors[i].0,
                TransitionId(j as usize),
                net.transitions[j].inhibitors[i].1,
            );
            &&& arc_fits(before, fixed, true, a)
            &&& arc_added(before, fixed, true, a) == building(net, names, j, label, time, c, p, t, i + 1)
            &&& before.can_add(direct)
            &&& before.add_arc(direct) == building(net, names, j, label, time, c, p, t, i + 1)
        }),
{
    reveal(other_end);
    reveal(with_arc);
    let cur = net.transitions[j];
    let arcs = cur.inhibitors;
    let pl = arcs[i].0;
    let w = arcs[i].1;
    let tr = TransitionId(j as usize);
    let fixed = NodeId::Transition(tr);
    let before = building(net, names, j, label, time, c, p, t, i);
    let want = building(net, names, j, label, time, c, p, t, i + 1);
    let a = written_arc(net, arcs, Mark::Inhibitor, i);
    assert(net.transition_wf(j));
    assert(net.valid_place(pl)) by {
        assert(arcs[i].0.rank() < net.places.len());
    }
    lemma_name_of(net, NodeId::Place(pl));
    assert(names.table.contains_key(a.name) && names.table[a.name] == NodeId::Place(pl));
    assert(other_end(before, fixed, a.name) is Ok && other_end(before, fixed, a.name)->Ok_0 == (
        NodeId::Place(pl),
        before,
    ));
    let the_arc = arc::Kind::Inhibitor(pl, tr, w);
    assert(arc_of(a, pl, tr, true) == the_arc);
    lemma_put_next(arcs, i);
    assert(net.place_wf(pl.0 as int));
    assert(net.symmetric(pl.0 as int, j));
    let back = net.places[pl.0 as int].inhibitor_for;
    lemma_entry(arcs, i);
    lemma_below_next(back, tr);
    lemma_below(back, j);
    let b = below(back, j);
    lemma_put_next(back, b);
    assert(back[b] == (tr, w));
    assert(!has_key(arcs.take(i), pl));
    assert(before.places[pl.0 as int].inhibitor_for == back.take(b));
    assert(before.transitions[j].inhibitors == arcs.take(i));
    assert(before.can_add(the_arc));
    let after = before.add_arc(the_arc);
    assert(with_arc(before, the_arc) is Ok && with_arc(before, the_arc)->Ok_0 == after);
    assert(after.transitions[j] == want.transitions[j]);
    assert forall|x: int| 0 <= x < j implies after.transitions[x] == want.transitions[x] by {}
    assert(after.transitions =~= want.transitions);
    assert forall|q: int| 0 <= q < net.places.len() implies after.places[q] == want.places[q] by {
        lemma_has_key_take(arcs, i, PlaceId(q as usize));
        if q == pl.0 {
            assert(PlaceId(q as usize) == pl);
            assert(upto(back, j, true) == back.take(b + 1));
        } else {
            assert(PlaceId(q as usize) != pl);
        }
    }
    assert(after.places =~= want.places);
}

/// The arcs that consume, from the one at `c` on, are read while the line of the
/// transition `j` is read.
pub proof fn lemma_arcs_consume(
    net: NetView,
    names: NamesView,
    j: int,
    label: Option<Seq<char>>,
    time: TimeRange,
    c: int,
    p: int,
    t: int,
    i: int,
)
    requires
        net.wf(),
        0 <= j < net.transitions.len(),
        names.table == table_upto(net, net.places.len() as int, j + 1),
        0 <= c <= net.transitions[j].consume.len(),
    ensures
        ({
            let before = building(net, names, j, label, time, c, p, t, i);
            let all = written_from(net, net.transitions[j].consume, Mark::Normal, c);
            let fixed = NodeId::Transition(TransitionId(j as usize));
            let c = net.transitions[j].consume.len() as int;
            &&& arcs_fit(before, fixed, true, all)
            &&& arcs_added(before, fixed, true, all) == building(net, names, j, label, time, c, p, t, i)
        }),
    decreases net.transitions[j].consume.len() - c,
{
    let arcs = net.transitions[j].consume;
    let all = written_from(net, arcs, Mark::Normal, c);
    if c < arcs.len() {
        lemma_arc_consume(net, names, j, label, time, c, p, t, i);
        lemma_arcs_consume(net, names, j, label, time, c + 1, p, t, i);
        assert(all[0] == written_arc(net, arcs, Mark::Normal, c));
        assert(all.drop_first() =~= written_from(net, arcs, Mark::Normal, c + 1));
    }
}

/// The arcs that produce, from the one at `p` on, are read while the line of the
/// transition `j` is read.
pub proof fn lemma_arcs_produce(
    net: NetView,
    names: NamesView,
    j: int,
    label: Option<Seq<char>>,
    time: TimeRange,
    c: int,
    p: int,
    t: int,
    i: int,
)
    requires
        net.wf(),
        0 <= j < net.transitions.len(),
        names.table == table_upto(net, net.places.len() as int, j + 1),
        0 <= p <= net.transitions[j].produce.len(),
    ensures
        ({
            let before = building(net, names, j, label, time, c, p, t, i);
            let all = written_from(net, net.transitions[j].produce, Mark::Normal, p);
            let fixed = NodeId::Transition(TransitionId(j as usize));
            let p = net.transitions[j].produce.len() as int;
            &&& arcs_fit(before, fixed, false, all)
            &&& arcs_added(before, fixed, false, all) == building(net, names, j, label, time, c, p, t, i)
        }),
    decreases net.transitions[j].produce.len() - p,
{
    let arcs = net.transitions[j].produce;
    let all = written_from(net, arcs, Mark::Normal, p);
    if p < arcs.len() {
        lemma_arc_produce(net, names, j, label, time, c, p, t, i);
        lemma_arcs_produce(net, names, j, label, time, c, p + 1, t, i);
        assert(all[0] == written_arc(net, arcs, Mark::Normal, p));
        assert(all.drop_first() =~= written_from(net, arcs, Mark::Normal, p + 1));
    }
}

/// The arcs that test, from the one at `t` on, are read while the line of the
/// transition `j` is read.
pub proof fn lemma_arcs_conditions(
    net: NetView,
    names: NamesView,
    j: int,
    label: Option<Seq<char>>,
    time: TimeRange,
    c: int,
    p: int,
    t: int,
    i: int,
)
    requires
        net.wf(),
        0 <= j < net.transitions.len(),
        names.table == table_upto(net, net.places.len() as int, j + 1),
        0 <= t <= net.transitions[j].conditions.len(),
    ensures
        ({
            let before = building(net, names, j, label, time, c, p, t, i);
            let all = written_from(net, net.transitions[j].conditions, Mark::Test, t);
            let fixed = NodeId::Transition(TransitionId(j as usize));
            let t = net.transitions[j].conditions.len() as int;
            &&& arcs_fit(before, fixed, true, all)
            &&& arcs_added(before, fixed, true, all) == building(net, names, j, label, time, c, p, t, i)
        }),
    decreases net.transitions[j].conditions.len() - t,
{
    let arcs = net.transitions[j].conditions;
    let all = written_from(net, arcs, Mark::Test, t);
    if t < arcs.len() {
        lemma_arc_conditions(net, names, j, label, time, c, p, t, i);
        lemma_arcs_conditions(net, names, j, label, time, c, p, t + 1, i);
        assert(all[0] == written_arc(net, arcs, Mark::Test, t));
        assert(all.drop_first() =~= written_from(net, arcs, Mark::Test, t + 1));
    }
}

/// The arcs that inhibit, from the one at `i` on, are read while the line of the
/// transition `j` is read.
pub proof fn lemma_arcs_inhibitors(
    net: NetView,
    names: NamesView,
    j: int,
    label: Option<Seq<char>>,
    time: TimeRange,
    c: int,
    p: int,
    t: int,
    i: int,
)
    requires
        net.wf(),
        0 <= j < net.transitions.len(),
        names.table == table_upto(net, net.places.len() as int, j + 1),
        0 <= i <= net.transitions[j].inhibitors.len(),
    ensures
        ({
            let before = building(net, names, j, label, time, c, p, t, i);
            let all = written_from(net, net.transitions[j].inhibitors, Mark::Inhibitor, i);
            let fixed = NodeId::Transition(TransitionId(j as usize));
            let i = net.transitions[j].inhibitors.len() as int;
            &&& arcs_fit(before, fixed, true, all)
            &&& arcs_added(before, fixed, true, all) == building(net, names, j, label, time, c, p, t, i)
        }),
    decreases net.transitions[j].inhibitors.len() - i,
{
    let arcs = net.transitions[j].inhibitors;
    let all = written_from(net, arcs, Mark::Inhibitor, i);
    if i < arcs.len() {
        lemma_arc_inhibitors(net, names, j, label, time, c, p, t, i);
        lemma_arcs_inhibitors(net, names, j, label, time, c, p, t, i + 1);
        assert(all[0] == written_arc(net, arcs, Mark::Inhibitor, i));
        assert(all.drop_first() =~= written_from(net, arcs, Mark::Inhibitor, i + 1));
    }
}

/// Arcs and then more arcs are added as the arcs of both.
pub proof fn lemma_arcs_added_both(
    net: NetView,
    fixed: NodeId,
    consuming: bool,
    a: Seq<Written>,
    b: Seq<Written>,
)
    requires
        arcs_fit(net, fixed, consuming, a),
        arcs_fit(arcs_added(net, fixed, consuming, a), fixed, consuming, b),
    ensures
        arcs_fit(net, fixed, consuming, a + b),
        arcs_added(net, fixed, consuming, a + b) == arcs_added(
            arcs_added(net, fixed, consuming, a),
            fixed,
            consuming,
            b,
        ),
    decreases a.len(),
{
    if a.len() == 0 {
        assert(a + b =~= b);
    } else {
        assert((a + b)[0] == a[0]);
        assert((a + b).drop_first() =~= a.drop_first() + b);
        lemma_arcs_added_both(arc_added(net, fixed, consuming, a[0]), fixed, consuming, a.drop_first(), b);
    }
}

/// The arcs before the arrow on the line of the transition `j`, as they are written:
/// those that inhibit, those that consume, and those that test.
pub open spec fn inputs(net: NetView, j: int) -> Seq<Written> {
    written_from(net, net.transitions[j].inhibitors, Mark::Inhibitor, 0) + written_from(
        net,
        net.transitions[j].consume,
        Mark::Normal,
        0,
    ) + written_from(net, net.transitions[j].conditions, Mark::Test, 0)
}

/// The arcs behind the arrow on the line of the transition `j`, as they are written.
pub open spec fn outputs(net: NetView, j: int) -> Seq<Written> {
    written_from(net, net.transitions[j].produce, Mark::Normal, 0)
}

/// The arcs of the line of the transition `j` are read into the net that is built.
pub proof fn lemma_sides_added(
    net: NetView,
    names: NamesView,
    j: int,
    label: Option<Seq<char>>,
    time: TimeRange,
)
    requires
        net.wf(),
        0 <= j < net.transitions.len(),
        names.table == table_upto(net, net.places.len() as int, j + 1),
    ensures
        ({
            let cur = net.transitions[j];
            let before = building(net, names, j, label, time, 0, 0, 0, 0);
            let fixed = NodeId::Transition(TransitionId(j as usize));
            &&& sides_fit(before, fixed, inputs(net, j), outputs(net, j))
            &&& sides_added(before, fixed, inputs(net, j), outputs(net, j)) == building(
                net,
                names,
                j,
                label,
                time,
                cur.consume.len() as int,
                cur.produce.len() as int,
                cur.conditions.len() as int,
                cur.inhibitors.len() as int,
            )
        }),
{
    let cur = net.transitions[j];
    let fixed = NodeId::Transition(TransitionId(j as usize));
    let nc = cur.consume.len() as int;
    let np = cur.produce.len() as int;
    let nt = cur.conditions.len() as int;
    let ni = cur.inhibitors.len() as int;
    let s0 = building(net, names, j, label, time, 0, 0, 0, 0);
    let s1 = building(net, names, j, label, time, 0, 0, 0, ni);
    let s2 = building(net, names, j, label, time, nc, 0, 0, ni);
    let s3 = building(net, names, j, label, time, nc, 0, nt, ni);
    let a = written_from(net, cur.inhibitors, Mark::Inhibitor, 0);
    let b = written_from(net, cur.consume, Mark::Normal, 0);
    let c = written_from(net, cur.conditions, Mark::Test, 0);
    lemma_arcs_inhibitors(net, names, j, label, time, 0, 0, 0, 0);
    lemma_arcs_consume(net, names, j, label, time, 0, 0, 0, ni);
    lemma_arcs_conditions(net, names, j, label, time, nc, 0, 0, ni);
    lemma_arcs_produce(net, names, j, label, time, nc, 0, nt, ni);
    lemma_arcs_added_both(s0, fixed, true, a, b);
    lemma_arcs_added_both(s0, fixed, true, a + b, c);
}

/// The range that new transitions have, narrowed to a range with a start, is that range.
pub proof fn lemma_always_meet(time: TimeRange)
    requires
        !(time.start is Infinity),
    ensures
        always().meet(time) == time,
{
}

/// The net as far as it is built behind the line of the transition `j` and before the
/// line of its priorities: the transition has all its arcs and no priorities yet.
pub open spec fn unranked(net: NetView, names: NamesView, j: int) -> NetView {
    let all = grown(net, names, net.places.len() as int, j + 1);
    NetView {
        transitions: all.transitions.update(
            j,
            TransitionView { priorities: Seq::empty(), ..live(net.transitions[j]) },
        ),
        ..all
    }
}

/// The transition `j` with all its arcs, and the places with their arcs to it, are the
/// net as far as it is built behind the line of `j`.
pub proof fn lemma_building_done(net: NetView, names: NamesView, j: int)
    requires
        net.wf(),
        0 <= j < net.transitions.len(),
    ensures
        building(
            net,
            names,
            j,
            net.transitions[j].label,
            net.transitions[j].time,
            net.transitions[j].consume.len() as int,
            net.transitions[j].produce.len() as int,
            net.transitions[j].conditions.len() as int,
            net.transitions[j].inhibitors.len() as int,
        ) == unranked(net, names, j),
{
    let cur = net.transitions[j];
    let have = building(
        net,
        names,
        j,
        cur.label,
        cur.time,
        cur.consume.len() as int,
        cur.produce.len() as int,
        cur.conditions.len() as int,
        cur.inhibitors.len() as int,
    );
    let want = unranked(net, names, j);
    let tr = TransitionId(j as usize);
    assert(net.transition_wf(j));
    assert(cur.consume.take(cur.consume.len() as int) =~= cur.consume);
    assert(cur.produce.take(cur.produce.len() as int) =~= cur.produce);
    assert(cur.conditions.take(cur.conditions.len() as int) =~= cur.conditions);
    assert(cur.inhibitors.take(cur.inhibitors.len() as int) =~= cur.inhibitors);
    assert(have.transitions[j] == want.transitions[j]);
    assert(have.transitions =~= want.transitions);
    assert forall|q: int| 0 <= q < net.places.len() implies have.places[q] == want.places[q] by {
        assert(net.place_wf(q));
        assert(net.symmetric(q, j));
        lemma_below_next(net.places[q].consumed_by, tr);
        lemma_below_next(net.places[q].produced_by, tr);
        lemma_below_next(net.places[q].condition_for, tr);
        lemma_below_next(net.places[q].inhibitor_for, tr);
    }
    assert(have.places =~= want.places);
}

/// The names of the transitions `ids`.
pub open spec fn names_of(net: NetView, ids: Seq<TransitionId>) -> Seq<Seq<char>> {
    Seq::new(ids.len(), |i: int| name_of(net, NodeId::Transition(ids[i])))
}

/// The priorities of the transition `j` over transitions before it are read into the net
/// that is built: the names on the line of the priorities stand for those transitions,
/// and the transition gets priority over them.
pub proof fn lemma_priorities_added(net: NetView, built: NetView, j: int)
    requires
        net.wf(),
        0 <= j < net.transitions.len(),
        forall|i: int|
            0 <= i < net.transitions[j].priorities.len() ==> (
            #[trigger] net.transitions[j].priorities[i]).0 < j,
        built == unranked(net, built.names, j),
        built.names.table == table_upto(net, net.places.len() as int, j + 1),
    ensures
        ({
            let tr = TransitionId(j as usize);
            let ids = net.transitions[j].priorities;
            let n = name_of(net, NodeId::Transition(tr));
            let lows = names_of(net, ids);
            &&& transition_named(built, n) is Ok
            &&& transition_named(built, n)->Ok_0 == (tr, built)
            &&& forall|i: int|
                0 <= i < lows.len() ==> transition_named(built, #[trigger] lows[i]) is Ok
                    && transition_named(built, lows[i])->Ok_0 == (ids[i], built)
            &&& over_each(built, tr, ids, ids.len()) == grown(
                net,
                built.names,
                net.places.len() as int,
                j + 1,
            )
        }),
{
    let tr = TransitionId(j as usize);
    let ids = net.transitions[j].priorities;
    let lows = names_of(net, ids);
    lemma_name_of(net, NodeId::Transition(tr));
    assert forall|i: int| 0 <= i < lows.len() implies transition_named(built, #[trigger] lows[i])
        is Ok && transition_named(built, lows[i])->Ok_0 == (ids[i], built) by {
        assert(ids[i].0 < j);
        lemma_name_of(net, NodeId::Transition(ids[i]));
    }
    lemma_over_each(net, built, j, ids.len());
    assert(ids.take(ids.len() as int) =~= ids);
    let done = over_each(built, tr, ids, ids.len());
    let want = grown(net, built.names, net.places.len() as int, j + 1);
    assert(done.transitions[j] == want.transitions[j]);
    assert(done.transitions =~= want.transitions);
}

/// The transition `j` of the net that is built, after it got priority over the first `n`
/// of the transitions that it has priority over in the net, has priority over those; the
/// rest of the net is as it was.
pub proof fn lemma_over_each(net: NetView, built: NetView, j: int, n: nat)
    requires
        net.wf(),
        0 <= j < net.transitions.len(),
        n <= net.transitions[j].priorities.len(),
        built == unranked(net, built.names, j),
    ensures
        ({
            let tr = TransitionId(j as usize);
            let ids = net.transitions[j].priorities;
            let r = over_each(built, tr, ids, n);
            &&& r.name == built.name
            &&& r.names == built.names
            &&& r.places == built.places
            &&& r.transitions.len() == built.transitions.len()
            &&& forall|x: int| 0 <= x < j ==> #[trigger] r.transitions[x] == built.transitions[x]
            &&& r.transitions[j] == (TransitionView {
                priorities: ids.take(n as int),
                ..built.transitions[j]
            })
        }),
    decreases n,
{
    let tr = TransitionId(j as usize);
    let ids = net.transitions[j].priorities;
    if n == 0 {
        assert(ids.take(0) =~= Seq::<TransitionId>::empty());
    } else {
        lemma_over_each(net, built, j, (n - 1) as nat);
        let before = over_each(built, tr, ids, (n - 1) as nat);
        let had = ids.take(n - 1);
        let x = ids[n - 1];
        assert(net.transition_wf(j));
        assert(!had.contains(x)) by {
            if had.contains(x) {
                let y = choose|y: int| 0 <= y < had.len() && had[y] == x;
                assert(had[y] == ids[y]);
                assert(ids[y].0 < ids[n - 1].0);
            }
        }
        assert(crate::timed::net::below(had, x) == had.len()) by {
            if had.len() > 0 {
                assert(had.last() == ids[n - 2]);
                assert(ids[n - 2].0 < ids[n - 1].0);
            }
        }
        assert(crate::timed::net::with_id(had, x) =~= ids.take(n as int));
        let r = over_each(built, tr, ids, n);
        assert(r == before.add_priority(tr, x));
    }
}

/// The line of the transition `j` makes the net that is built grow by that transition
/// and its arcs.
pub proof fn lemma_transition_added(net: NetView, built: NetView, j: int)
    requires
        net.wf(),
        0 <= j < net.transitions.len(),
        !(net.transitions[j].time.start is Infinity),
        built == grown(net, built.names, net.places.len() as int, j),
        built.names.wf(),
        built.names.table == table_upto(net, net.places.len() as int, j),
    ensures
        ({
            let n = name_of(net, NodeId::Transition(TransitionId(j as usize)));
            let cur = net.transitions[j];
            let next = transition_added(built, n, cur.label, cur.time, inputs(net, j), outputs(net, j));
            &&& transition_named(built, n) is Ok
            &&& sides_fit(
                with_interval(
                    with_label(
                        transition_named(built, n)->Ok_0.1,
                        NodeId::Transition(transition_named(built, n)->Ok_0.0),
                        cur.label,
                    ),
                    transition_named(built, n)->Ok_0.0,
                    cur.time,
                ),
                NodeId::Transition(transition_named(built, n)->Ok_0.0),
                inputs(net, j),
                outputs(net, j),
            )
            &&& next == unranked(net, next.names, j)
            &&& next.names.wf()
            &&& next.names.table == table_upto(net, net.places.len() as int, j + 1)
        }),
{
    let tr = TransitionId(j as usize);
    let n = name_of(net, NodeId::Transition(tr));
    let cur = net.transitions[j];
    lemma_transition_named(net, built, j);
    let named = transition_named(built, n)->Ok_0.1;
    let names = named.names;
    let s0 = building(net, names, j, None, always(), 0, 0, 0, 0);
    assert(cur.consume.take(0) =~= Seq::<(PlaceId, usize)>::empty());
    assert(cur.produce.take(0) =~= Seq::<(PlaceId, usize)>::empty());
    assert(cur.conditions.take(0) =~= Seq::<(PlaceId, usize)>::empty());
    assert(cur.inhibitors.take(0) =~= Seq::<(PlaceId, usize)>::empty());
    assert(named.transitions[j] == TransitionView::fresh(tr));
    assert(s0.transitions[j] == TransitionView::fresh(tr));
    assert forall|x: int| 0 <= x < j implies named.transitions[x] == s0.transitions[x] by {
        assert(built.transitions[x] == live(net.transitions[x]));
    }
    assert(named.transitions =~= s0.transitions);
    assert forall|q: int| 0 <= q < net.places.len() implies named.places[q] == s0.places[q] by {
        assert(cur.consume.take(0) =~= Seq::<(PlaceId, usize)>::empty());
        assert(cur.produce.take(0) =~= Seq::<(PlaceId, usize)>::empty());
        assert(cur.conditions.take(0) =~= Seq::<(PlaceId, usize)>::empty());
        assert(cur.inhibitors.take(0) =~= Seq::<(PlaceId, usize)>::empty());
    }
    assert(named.places =~= s0.places);
    assert(named == s0);
    let s1 = building(net, names, j, cur.label, always(), 0, 0, 0, 0);
    let labelled = with_label(named, NodeId::Transition(tr), cur.label);
    assert(labelled.transitions =~= s1.transitions);
    assert(labelled == s1);
    let s2 = building(net, names, j, cur.label, cur.time, 0, 0, 0, 0);
    let ranged = with_interval(labelled, tr, cur.time);
    lemma_always_meet(cur.time);
    assert(ranged.transitions =~= s2.transitions);
    assert(ranged == s2);
    lemma_sides_added(net, names, j, cur.label, cur.time);
    lemma_building_done(net, names, j);
}

} // verus!
