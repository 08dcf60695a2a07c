//! A basic net as a timed net: turning a well-formed basic net into a timed net never
//! fails, and gives the net with the same nodes, names, labels, tokens and arcs, without
//! test arcs, inhibitor arcs and priorities, and with the time range of new transitions.
use vstd::prelude::*;
use crate::ids::{NodeId, PlaceId, TransitionId};
use crate::names::NamesView;
use crate::standard::net::NetView as SourceView;
use crate::timed::from_standard::{
    arcs_added, arcs_of, converted, named_alike, place_copied, places_copied,
    transitions_copied, with_place, with_transition,
};
use crate::timed::net::NetView;
use crate::timed::place::PlaceView;
use crate::timed::transition::TransitionView;
use crate::tina::rebuild::{
    building, grown, lemma_arc_consume, lemma_arc_produce, lemma_below_zero, lemma_building_done,
    lemma_name_of, lemma_named, name_of, place_at, table_upto, unranked,
};
use crate::tina::round_trip::always;

verus! {

/// The basic net as a timed net, node by node: what a node of the basic net holds, and
/// nothing of what only timed nets have.
pub open spec fn image(source: SourceView) -> NetView {
    NetView {
        name: source.name,
        names: source.names,
        places: Seq::new(
            source.places.len(),
            |q: int|
                PlaceView {
                    id: source.places[q].id,
                    label: source.places[q].label,
                    initial: source.places[q].initial,
                    produced_by: source.places[q].produced_by,
                    consumed_by: source.places[q].consumed_by,
                    condition_for: Seq::empty(),
                    inhibitor_for: Seq::empty(),
                    deleted: source.places[q].deleted,
                },
        ),
        transitions: Seq::new(
            source.transitions.len(),
            |t: int|
                TransitionView {
                    id: source.transitions[t].id,
                    label: source.transitions[t].label,
                    time: always(),
                    conditions: Seq::empty(),
                    inhibitors: Seq::empty(),
                    consume: source.transitions[t].consume,
                    produce: source.transitions[t].produce,
                    priorities: Seq::empty(),
                    deleted: source.transitions[t].deleted,
                },
        ),
    }
}

/// The image of a well-formed basic net is a well-formed timed net.
pub proof fn lemma_image(source: SourceView)
    requires
        source.wf(),
    ensures
        image(source).wf(),
{
    let e = image(source);
    assert forall|n: Seq<char>| #[trigger] e.names.table.contains_key(n) implies e.valid_node(
        e.names.table[n],
    ) by {
        assert(source.valid_node(source.names.table[n]));
    }
    assert forall|id: NodeId| #[trigger] e.valid_node(id) implies e.names.has_name(id) by {
        assert(source.valid_node(id));
    }
    assert forall|p: int| 0 <= p < e.places.len() implies #[trigger] e.place_wf(p) by {
        assert(source.place_wf(p));
    }
    assert forall|t: int| 0 <= t < e.transitions.len() implies #[trigger] e.transition_wf(t) by {
        assert(source.transition_wf(t));
    }
    assert forall|p: int, t: int|
        0 <= p < e.places.len() && 0 <= t < e.transitions.len() implies #[trigger] e.symmetric(
        p,
        t,
    ) by {
        assert(source.symmetric(p, t));
    }
}

/// The first `n` places of a well-formed basic net are copied, and the net that is built
/// has those places.
proof fn lemma_places_copied(source: SourceView, n: nat)
    requires
        source.wf(),
        n <= source.places.len(),
    ensures
        places_copied(
            source,
            NetView { name: source.name, ..crate::timed::net::empty() },
            n,
        ) is Ok,
        ({
            let b = places_copied(
                source,
                NetView { name: source.name, ..crate::timed::net::empty() },
                n,
            )->Ok_0;
            &&& b == grown(image(source), b.names, n as int, 0)
            &&& b.names.wf()
            &&& b.names.table == table_upto(image(source), n as int, 0)
        }),
    decreases n,
{
    let e = image(source);
    let start = NetView { name: source.name, ..crate::timed::net::empty() };
    lemma_image(source);
    if n == 0 {
        assert(start.names.table =~= table_upto(e, 0, 0));
        assert(start.places =~= grown(e, start.names, 0, 0).places);
        assert(start.transitions =~= grown(e, start.names, 0, 0).transitions);
        assert(start.names.wf()) by {
            assert(start.names.table.dom() =~= Set::<Seq<char>>::empty());
        }
    } else {
        lemma_places_copied(source, (n - 1) as nat);
        let k = n - 1;
        let b = places_copied(source, start, (n - 1) as nat)->Ok_0;
        let pl = PlaceId(k as usize);
        let id = NodeId::Place(pl);
        let name = name_of(e, id);
        lemma_name_of(e, id);
        assert(source.names.name_of(id) == Some(name)) by {
            assert(source.names.has_name(id));
        }
        assert(!b.names.table.contains_key(name));
        assert forall|m: Seq<char>| b.names.table.contains_key(m) implies #[trigger] b.names.table[m]
            != id by {}
        lemma_named(b.names, id, name);
        let made = with_place(b.create_place(), pl, source.places[k].initial, source.places[k].label);
        assert(made.valid_node(id));
        let next = place_copied(source, b, k)->Ok_0;
        let want = grown(e, next.names, n as int, 0);
        assert(source.place_wf(k));
        assert(e.place_wf(k));
        lemma_below_zero(e.places[k].consumed_by);
        lemma_below_zero(e.places[k].produced_by);
        lemma_below_zero(e.places[k].condition_for);
        lemma_below_zero(e.places[k].inhibitor_for);
        assert(next.places[k] == want.places[k]);
        assert forall|q: int| 0 <= q < k implies next.places[q] == want.places[q] by {
            assert(b.places[q] == place_at(e.places[q], 0, false, false, false, false));
        }
        assert(next.places =~= want.places);
        assert(next.transitions =~= want.transitions);
        assert(next.names.table =~= table_upto(e, n as int, 0)) by {
            assert forall|m: Seq<char>| #[trigger]
                table_upto(e, n as int, 0).contains_key(m) <==> b.names.table.insert(
                    name,
                    id,
                ).contains_key(m) by {
                if e.names.table.contains_key(m) && e.names.table[m] == id {
                    assert(m == name);
                }
            }
        }
    }
}

/// The arcs of the copy of the transition `j`, up to the one at `n`, are added: first
/// those that consume, then those that produce.
proof fn lemma_arcs_added(source: SourceView, names: NamesView, j: int, n: nat)
    requires
        source.wf(),
        0 <= j < source.transitions.len(),
        names.table == table_upto(image(source), source.places.len() as int, j + 1),
        n <= source.transitions[j].consume.len() + source.transitions[j].produce.len(),
    ensures
        ({
            let e = image(source);
            let tr = TransitionId(j as usize);
            let consumed = source.transitions[j].consume.len() as int;
            let before = building(e, names, j, source.transitions[j].label, always(), 0, 0, 0, 0);
            let arcs = arcs_of(source.transitions[j], tr);
            &&& arcs_added(before, arcs, n) is Ok
            &&& arcs_added(before, arcs, n)->Ok_0 == building(
                e,
                names,
                j,
                source.transitions[j].label,
                always(),
                if n <= consumed {
                    n as int
                } else {
                    consumed
                },
                if n <= consumed {
                    0
                } else {
                    n - consumed
                },
                0,
                0,
            )
        }),
    decreases n,
{
    let e = image(source);
    lemma_image(source);
    if n > 0 {
        lemma_arcs_added(source, names, j, (n - 1) as nat);
        let consumed = source.transitions[j].consume.len() as int;
        let label = source.transitions[j].label;
        if n - 1 < consumed {
            lemma_arc_consume(e, names, j, label, always(), n - 1, 0, 0, 0);
        } else {
            lemma_arc_produce(e, names, j, label, always(), consumed, n - 1 - consumed, 0, 0);
        }
    }
}

/// The first `n` transitions of a well-formed basic net are copied, and the net that is
/// built has those transitions and their arcs.
proof fn lemma_transitions_copied(source: SourceView, places: NetView, n: nat)
    requires
        source.wf(),
        n <= source.transitions.len(),
        places == grown(image(source), places.names, source.places.len() as int, 0),
        places.names.wf(),
        places.names.table == table_upto(image(source), source.places.len() as int, 0),
    ensures
        transitions_copied(source, places, n) is Ok,
        ({
            let b = transitions_copied(source, places, n)->Ok_0;
            &&& b == grown(image(source), b.names, source.places.len() as int, n as int)
            &&& b.names.wf()
            &&& b.names.table == table_upto(image(source), source.places.len() as int, n as int)
        }),
    decreases n,
{
    let e = image(source);
    lemma_image(source);
    if n > 0 {
        lemma_transitions_copied(source, places, (n - 1) as nat);
        let j = n - 1;
        let b = transitions_copied(source, places, (n - 1) as nat)->Ok_0;
        let tr = TransitionId(j as usize);
        let id = NodeId::Transition(tr);
        let name = name_of(e, id);
        let cur = source.transitions[j];
        lemma_name_of(e, id);
        assert(source.names.name_of(id) == Some(name)) by {
            assert(source.names.has_name(id));
        }
        assert(!b.names.table.contains_key(name));
        assert forall|m: Seq<char>| b.names.table.contains_key(m) implies #[trigger] b.names.table[m]
            != id by {}
        lemma_named(b.names, id, name);
        let made = with_transition(b.create_transition(), tr, cur.label);
        assert(made.valid_node(id));
        let named = named_alike(source, id, made, id)->Ok_0;
        let names = named.names;
        assert(names.table =~= table_upto(e, source.places.len() as int, n as int)) by {
            assert forall|m: Seq<char>| #[trigger]
                table_upto(e, source.places.len() as int, n as int).contains_key(m)
                    <==> b.names.table.insert(name, id).contains_key(m) by {
                if e.names.table.contains_key(m) && e.names.table[m] == id {
                    assert(m == name);
                }
                if e.names.table.contains_key(m) {
                    assert(e.valid_node(e.names.table[m]));
                }
            }
        }
        let s0 = building(e, names, j, cur.label, always(), 0, 0, 0, 0);
        assert(e.transitions[j].consume.take(0) =~= Seq::<(PlaceId, usize)>::empty());
        assert(e.transitions[j].produce.take(0) =~= Seq::<(PlaceId, usize)>::empty());
        assert(e.transitions[j].conditions.take(0) =~= Seq::<(PlaceId, usize)>::empty());
        assert(e.transitions[j].inhibitors.take(0) =~= Seq::<(PlaceId, usize)>::empty());
        assert(named.transitions[j] == s0.transitions[j]);
        assert forall|x: int| 0 <= x < j implies named.transitions[x] == s0.transitions[x] by {
            assert(b.transitions[x] == crate::tina::rebuild::live(e.transitions[x]));
        }
        assert(named.transitions =~= s0.transitions);
        assert(named.places =~= s0.places);
        assert(named == s0);
        let arcs = arcs_of(cur, tr);
        lemma_arcs_added(source, names, j, arcs.len());
        lemma_building_done(e, names, j);
        assert(source.transition_wf(j));
        assert(e.transitions[j].time == always());
        assert(e.transitions[j].label == cur.label);
        let done = unranked(e, names, j);
        let want = grown(e, names, source.places.len() as int, n as int);
        assert(done.transitions[j] == want.transitions[j]);
        assert(done.transitions =~= want.transitions);
    }
}

/// Turning a basic net into a timed net is a total embedding: it never fails on a
/// well-formed net, and the timed net has the name of the net, the names of its nodes,
/// and its nodes with their labels, tokens and arcs; what was removed from the basic
/// net is there in the timed net, without arcs.
pub proof fn lemma_embedding(source: SourceView)
    requires
        source.wf(),
    ensures
        converted(source) is Ok,
        converted(source)->Ok_0.name == source.name,
        converted(source)->Ok_0.names.table == source.names.table,
        crate::tina::read_back::alike(image(source), converted(source)->Ok_0),
{
    let e = image(source);
    lemma_image(source);
    lemma_places_copied(source, source.places.len());
    let start = NetView { name: source.name, ..crate::timed::net::empty() };
    let places = places_copied(source, start, source.places.len())->Ok_0;
    lemma_transitions_copied(source, places, source.transitions.len());
    let back = converted(source)->Ok_0;
    assert(back.names.table =~= e.names.table) by {
        assert forall|n: Seq<char>| e.names.table.contains_key(n) implies #[trigger] back.names.table.contains_key(
            n,
        ) by {
            assert(e.valid_node(e.names.table[n]));
        }
    }
    assert forall|q: int| 0 <= q < e.places.len() implies back.places[q]
        == crate::tina::read_back::revived(e).places[q] by {
        assert(e.place_wf(q));
        let pl = e.places[q];
        let bound = e.transitions.len() as int;
        crate::tina::read_back::lemma_whole(pl.consumed_by, bound);
        crate::tina::read_back::lemma_whole(pl.produced_by, bound);
        crate::tina::read_back::lemma_whole(pl.condition_for, bound);
        crate::tina::read_back::lemma_whole(pl.inhibitor_for, bound);
    }
    assert(back.places =~= crate::tina::read_back::revived(e).places);
    assert(back.transitions =~= crate::tina::read_back::revived(e).transitions);
}

} // verus!
