//! The token game of a basic net, and the records of the simplest rules held against it:
//! what such a record states is true of every marking that the net can reach.
use vstd::prelude::*;
use crate::ids::{PlaceId, TransitionId};
use crate::marking::{lemma_without, weight};
use crate::modifications::{linear, ModificationView};
use crate::reducers::reduce::PlaceReduce;
use crate::reducers::standard::identity_place_reducer::IdentityPlaceReducer;
use crate::reducers::standard::identity_transitions_reducer::IdentityTransitionReducer;
use crate::reducers::standard::parallel_place_reducer::parallel;

use crate::reducers::standard::source_sink_reducer::{
    is_source_sink, source_sink_outcome, source_sink_record,
};
use crate::standard::net::NetView;

verus! {

/// A marking: the number of tokens in each place of a net.
pub type Tokens = Map<PlaceId, int>;

/// The marking in which the net starts.
pub open spec fn initial_tokens(net: NetView) -> Tokens {
    Map::new(|pl: PlaceId| net.valid_place(pl), |pl: PlaceId| net.places[pl.0 as int].initial as int)
}

/// The transition `tr` can fire in the marking `m`: every place holds what the
/// transition consumes from it.
pub open spec fn enabled(net: NetView, m: Tokens, tr: TransitionId) -> bool {
    &&& net.valid_transition(tr)
    &&& forall|pl: PlaceId| #[trigger]
        m.contains_key(pl) ==> weight(net.transitions[tr.0 as int].consume, pl) <= m[pl]
}

/// The marking after `tr` has fired in the marking `m`: each place has lost what the
/// transition consumes from it and gained what the transition produces into it.
pub open spec fn fired(net: NetView, m: Tokens, tr: TransitionId) -> Tokens {
    Map::new(
        |pl: PlaceId| m.contains_key(pl),
        |pl: PlaceId|
            m[pl] - weight(net.transitions[tr.0 as int].consume, pl) + weight(
                net.transitions[tr.0 as int].produce,
                pl,
            ),
    )
}

/// The marking that the net reaches from its start when the transitions of `firing` fire
/// one after the other, if each of them can fire in its turn.
pub open spec fn reached(net: NetView, firing: Seq<TransitionId>) -> Option<Tokens>
    decreases firing.len(),
{
    if firing.len() == 0 {
        Some(initial_tokens(net))
    } else {
        match reached(net, firing.drop_last()) {
            None => None,
            Some(m) => if enabled(net, m, firing.last()) {
                Some(fired(net, m, firing.last()))
            } else {
                None
            },
        }
    }
}

/// The firing without the firings of `tr`.
pub open spec fn without_firings(firing: Seq<TransitionId>, tr: TransitionId) -> Seq<TransitionId>
    decreases firing.len(),
{
    if firing.len() == 0 {
        firing
    } else if firing.last() == tr {
        without_firings(firing.drop_last(), tr)
    } else {
        without_firings(firing.drop_last(), tr).push(firing.last())
    }
}

/// The firing in which `other` fires wherever `tr` did.
pub open spec fn with_firings_of(
    firing: Seq<TransitionId>,
    tr: TransitionId,
    other: TransitionId,
) -> Seq<TransitionId> {
    Seq::new(
        firing.len(),
        |i: int|
            if firing[i] == tr {
                other
            } else {
                firing[i]
            },
    )
}

/// Every marking that is reached gives the tokens of the places of the net, and of no
/// others.
pub proof fn lemma_reached_places(net: NetView, firing: Seq<TransitionId>)
    requires
        reached(net, firing) is Some,
    ensures
        forall|pl: PlaceId| #[trigger]
            reached(net, firing)->0.contains_key(pl) <==> net.valid_place(pl),
    decreases firing.len(),
{
    if firing.len() > 0 {
        lemma_reached_places(net, firing.drop_last());
    }
}

/// The value of one place with the coefficient one is the number of its tokens.
proof fn lemma_linear_one(pl: PlaceId, m: Tokens)
    requires
        m.contains_key(pl),
    ensures
        linear(seq![(pl, 1isize)], m) == m[pl],
        linear(Seq::empty(), m) == 0,
{
    reveal_with_fuel(linear, 2);
    assert(seq![(pl, 1isize)].drop_last() =~= Seq::<(PlaceId, isize)>::empty());
}

/// An identity place keeps its tokens: in every marking that the net reaches, the record
/// of its removal holds.
pub proof fn lemma_identity_place_holds(net: NetView, pl: PlaceId, firing: Seq<TransitionId>)
    requires
        net.wf(),
        IdentityPlaceReducer::applies(net, pl),
        reached(net, firing) is Some,
    ensures
        reached(net, firing)->0[pl] == net.places[pl.0 as int].initial,
        IdentityPlaceReducer::record(pl, net.places[pl.0 as int].initial).holds(
            reached(net, firing)->0,
        ),
    decreases firing.len(),
{
    lemma_reached_places(net, firing);
    if firing.len() > 0 {
        let before = firing.drop_last();
        let tr = firing.last();
        lemma_identity_place_holds(net, pl, before);
        assert(net.symmetric(pl.0 as int, tr.0 as int));
    }
    lemma_linear_one(pl, reached(net, firing)->0);
}

/// A source–sink place never holds more tokens than at the start: in every marking that
/// the net reaches, the record of its removal holds.
pub proof fn lemma_source_sink_holds(net: NetView, pl: PlaceId, firing: Seq<TransitionId>)
    requires
        net.wf(),
        is_source_sink(net, pl),
        reached(net, firing) is Some,
    ensures
        reached(net, firing)->0[pl] <= net.places[pl.0 as int].initial,
        source_sink_record(pl, net.places[pl.0 as int].initial).holds(reached(net, firing)->0),
    decreases firing.len(),
{
    lemma_reached_places(net, firing);
    if firing.len() > 0 {
        let before = firing.drop_last();
        let tr = firing.last();
        lemma_source_sink_holds(net, pl, before);
        assert(net.symmetric(pl.0 as int, tr.0 as int));
        assert(weight(net.places[pl.0 as int].produced_by, tr) == 0);
    }
    lemma_linear_one(pl, reached(net, firing)->0);
}

/// Two parallel places gain and lose the same tokens: in every marking that the net
/// reaches they differ by what they differed by at the start. So the record of the
/// removal of one of them, which states that they hold the same, holds where they started
/// with the same.
pub proof fn lemma_parallel_places_hold(
    net: NetView,
    a: PlaceId,
    b: PlaceId,
    firing: Seq<TransitionId>,
)
    requires
        net.wf(),
        net.valid_place(a),
        net.valid_place(b),
        parallel(net, a, b),
        reached(net, firing) is Some,
    ensures
        reached(net, firing)->0[b] - reached(net, firing)->0[a] == net.places[b.0 as int].initial
            - net.places[a.0 as int].initial,
        net.places[a.0 as int].initial == net.places[b.0 as int].initial ==> (
        ModificationView::Reduction {
            equals_to: seq![(a, 1isize)],
            constant: 0,
            deleted_places: seq![(b, 1isize)],
        }).holds(reached(net, firing)->0),
    decreases firing.len(),
{
    lemma_reached_places(net, firing);
    if firing.len() > 0 {
        let before = firing.drop_last();
        let tr = firing.last();
        lemma_parallel_places_hold(net, a, b, before);
        assert(net.symmetric(a.0 as int, tr.0 as int));
        assert(net.symmetric(b.0 as int, tr.0 as int));
    }
    lemma_linear_one(a, reached(net, firing)->0);
    lemma_linear_one(b, reached(net, firing)->0);
}

/// An identity transition changes nothing: the marking after it has fired is the marking
/// before.
pub proof fn lemma_identity_transition_keeps(net: NetView, tr: TransitionId, m: Tokens)
    requires
        IdentityTransitionReducer::applies(net, tr),
    ensures
        fired(net, m, tr) == m,
{
    assert(fired(net, m, tr) =~= m);
}

/// Two parallel transitions do the same: where one can fire so can the other, and the
/// marking after one has fired is the marking after the other has.
pub proof fn lemma_parallel_transitions_alike(
    net: NetView,
    a: TransitionId,
    b: TransitionId,
    m: Tokens,
)
    requires
        net.valid_transition(a),
        net.valid_transition(b),
        crate::reducers::standard::parallel_transition_reducer::parallel(net, a, b),
    ensures
        enabled(net, m, a) == enabled(net, m, b),
        fired(net, m, a) == fired(net, m, b),
{
    assert(fired(net, m, a) =~= fired(net, m, b));
}

/// Removing a place takes nothing from what the net can do: transitions that fire one
/// after the other in the net do so in the net without the place, and lead to the same
/// tokens in every other place, while the place that was removed keeps what it had at the
/// start.
pub proof fn lemma_delete_place_keeps_firings(
    net: NetView,
    pl: PlaceId,
    firing: Seq<TransitionId>,
)
    requires
        net.wf(),
        net.valid_place(pl),
        reached(net, firing) is Some,
    ensures
        reached(net.delete_place(pl), firing) is Some,
        forall|q: PlaceId|
            q != pl && net.valid_place(q) ==> #[trigger] reached(net.delete_place(pl), firing)->0[q]
                == reached(net, firing)->0[q],
        reached(net.delete_place(pl), firing)->0[pl] == net.places[pl.0 as int].initial,
    decreases firing.len(),
{
    let small = net.delete_place(pl);
    lemma_reached_places(net, firing);
    if firing.len() == 0 {
        assert(initial_tokens(small) =~= initial_tokens(net));
    } else {
        let before = firing.drop_last();
        let tr = firing.last();
        lemma_delete_place_keeps_firings(net, pl, before);
        lemma_reached_places(net, before);
        lemma_reached_places(small, before);
        let m = reached(net, before)->0;
        let n = reached(small, before)->0;
        assert(net.transition_wf(tr.0 as int));
        lemma_without(net.transitions[tr.0 as int].consume, pl);
        lemma_without(net.transitions[tr.0 as int].produce, pl);
        assert forall|q: PlaceId| #[trigger] n.contains_key(q) implies weight(
            small.transitions[tr.0 as int].consume,
            q,
        ) <= n[q] by {
            assert(m.contains_key(q));
        }
    }
}

/// Removing a transition adds nothing to what the net can do: transitions other than the
/// one that was removed that fire one after the other in the net without it do so in the
/// net, and lead to the same marking.
pub proof fn lemma_delete_transition_adds_no_firing(
    net: NetView,
    tr: TransitionId,
    firing: Seq<TransitionId>,
)
    requires
        net.wf(),
        net.valid_transition(tr),
        !firing.contains(tr),
        reached(net.delete_transition(tr), firing) is Some,
    ensures
        reached(net, firing) == reached(net.delete_transition(tr), firing),
    decreases firing.len(),
{
    let small = net.delete_transition(tr);
    if firing.len() == 0 {
        assert(initial_tokens(small) =~= initial_tokens(net));
    } else {
        let before = firing.drop_last();
        let t = firing.last();
        assert(firing[firing.len() - 1] == t);
        assert forall|i: int| 0 <= i < before.len() implies before[i] != tr by {
            assert(firing[i] == before[i]);
        }
        lemma_delete_transition_adds_no_firing(net, tr, before);
        let m = reached(net, before)->0;
        assert(small.transitions[t.0 as int] == net.transitions[t.0 as int]);
        assert(fired(small, m, t) =~= fired(net, m, t));
    }
}

/// What the removal of an identity place hands on: whatever firing leads the net to a
/// marking leads the net that the rule leaves to a marking with the same tokens in every
/// other place, and every record of the rule holds in the marking of the net.
pub proof fn lemma_identity_place_sound(
    rule: IdentityPlaceReducer,
    net: NetView,
    pl: PlaceId,
    firing: Seq<TransitionId>,
)
    requires
        net.wf(),
        reached(net, firing) is Some,
    ensures
        reached(rule.place_outcome(net, pl).0, firing) is Some,
        forall|q: PlaceId|
            q != pl && net.valid_place(q) ==> #[trigger] reached(
                rule.place_outcome(net, pl).0,
                firing,
            )->0[q] == reached(net, firing)->0[q],
        forall|i: int|
            0 <= i < rule.place_outcome(net, pl).1.len() ==> (#[trigger] rule.place_outcome(
                net,
                pl,
            ).1[i]).holds(reached(net, firing)->0),
{
    if IdentityPlaceReducer::applies(net, pl) {
        lemma_delete_place_keeps_firings(net, pl, firing);
        lemma_identity_place_holds(net, pl, firing);
    }
}

/// What the removal of a source–sink place hands on: whatever firing leads the net to a
/// marking leads the net that the rule leaves to a marking with the same tokens in every
/// other place, and every record of the rule holds in the marking of the net.
pub proof fn lemma_source_sink_sound(net: NetView, pl: PlaceId, firing: Seq<TransitionId>)
    requires
        net.wf(),
        reached(net, firing) is Some,
    ensures
        reached(source_sink_outcome(net, pl).0, firing) is Some,
        forall|q: PlaceId|
            q != pl && net.valid_place(q) ==> #[trigger] reached(
                source_sink_outcome(net, pl).0,
                firing,
            )->0[q] == reached(net, firing)->0[q],
        forall|i: int|
            0 <= i < source_sink_outcome(net, pl).1.len() ==> (#[trigger] source_sink_outcome(
                net,
                pl,
            ).1[i]).holds(reached(net, firing)->0),
{
    if is_source_sink(net, pl) {
        lemma_delete_place_keeps_firings(net, pl, firing);
        lemma_source_sink_holds(net, pl, firing);
    }
}

/// The removal of an identity transition is sound: whatever firing leads the net to a
/// marking, the same firing without that transition leads the net without it to the same
/// marking.
pub proof fn lemma_identity_transition_sound(
    net: NetView,
    tr: TransitionId,
    firing: Seq<TransitionId>,
)
    requires
        net.wf(),
        IdentityTransitionReducer::applies(net, tr),
        reached(net, firing) is Some,
    ensures
        reached(net.delete_transition(tr), without_firings(firing, tr)) == reached(net, firing),
    decreases firing.len(),
{
    let small = net.delete_transition(tr);
    if firing.len() == 0 {
        assert(initial_tokens(small) =~= initial_tokens(net));
    } else {
        let before = firing.drop_last();
        let u = firing.last();
        lemma_identity_transition_sound(net, tr, before);
        let m = reached(net, before)->0;
        if u == tr {
            lemma_identity_transition_keeps(net, tr, m);
        } else {
            assert(without_firings(firing, tr).drop_last() =~= without_firings(before, tr));
            assert(without_firings(firing, tr).last() == u);
            assert(small.transitions[u.0 as int] == net.transitions[u.0 as int]);
            assert(fired(small, m, u) =~= fired(net, m, u));
        }
    }
}

/// The removal of a parallel transition is sound: whatever firing leads the net to a
/// marking, the firing in which the transition that stays fires wherever the one that is
/// removed did leads the net without that one to the same marking.
pub proof fn lemma_parallel_transition_sound(
    net: NetView,
    kept: TransitionId,
    removed: TransitionId,
    firing: Seq<TransitionId>,
)
    requires
        net.wf(),
        net.valid_transition(kept),
        net.valid_transition(removed),
        crate::reducers::standard::parallel_transition_reducer::parallel(net, kept, removed),
        reached(net, firing) is Some,
    ensures
        reached(net.delete_transition(removed), with_firings_of(firing, removed, kept)) == reached(
            net,
            firing,
        ),
    decreases firing.len(),
{
    let small = net.delete_transition(removed);
    let other = with_firings_of(firing, removed, kept);
    if firing.len() == 0 {
        assert(initial_tokens(small) =~= initial_tokens(net));
    } else {
        let before = firing.drop_last();
        let u = firing.last();
        lemma_parallel_transition_sound(net, kept, removed, before);
        let m = reached(net, before)->0;
        assert(other.drop_last() =~= with_firings_of(before, removed, kept));
        let v = other.last();
        assert(v == (if u == removed {
            kept
        } else {
            u
        }));
        assert(small.transitions[v.0 as int] == net.transitions[v.0 as int]);
        assert(fired(small, m, v) =~= fired(net, m, v));
        if u == removed {
            lemma_parallel_transitions_alike(net, kept, removed, m);
        }
    }
}

} // verus!
