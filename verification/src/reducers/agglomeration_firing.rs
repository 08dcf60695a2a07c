//! The agglomerations of places held against the token game. What fires in a net fires in the net
//! that the rule leaves (for a simple chain, without the transition of the chain), and
//! the tokens of the new place are tied to those of the places that it stands for as the
//! record of the step says.
use vstd::prelude::*;
use crate::arc;
use crate::ids::{PlaceId, TransitionId};
use crate::marking::{
    add_into, fits, has_key, lemma_add_into, lemma_entry, lemma_put, lemma_without, put, sorted,
    weight, Key,
};
use crate::modifications::linear;
use crate::reducers::firing::{
    enabled, fired, initial_tokens, lemma_reached_places, reached, without_firings,
};
use crate::marking::unit_entries;
use crate::reducers::firing::Tokens;
use crate::reducers::standard::parallel_place_reducer::{
    lemma_without_all, lemma_without_all_frame, without_all,
};
use crate::reducers::standard::simple_chain_agglomeration::SimpleChainReducer;
use crate::reducers::standard::simple_loop_agglomeration::{
    adds_up, each_once, lemma_merged_live, mergeable, merged, merged_consumed, merged_produced,
    record, tokens,
};
use crate::reducers::standard::weight_simplification::WeightSimplification;
use crate::standard::net::NetView;

verus! {

/// The count of a key in a sorted sequence is the count in the sequence without its last
/// entry, but for the key of that entry, which has the count of the entry.
pub proof fn lemma_weight_last<T: Key>(s: Seq<(T, usize)>, k: T)
    requires
        sorted(s),
        s.len() > 0,
    ensures
        sorted(s.drop_last()),
        weight(s, k) == (if k == s.last().0 {
            s.last().1 as nat
        } else {
            weight(s.drop_last(), k)
        }),
        !has_key(s.drop_last(), s.last().0),
{
    let init = s.drop_last();
    let n = s.len() - 1;
    assert forall|i: int, j: int| 0 <= i < j < init.len() implies (#[trigger] init[i]).0.rank() < (
    #[trigger] init[j]).0.rank() by {
        assert(init[i] == s[i] && init[j] == s[j]);
    }
    if has_key(init, s.last().0) {
        let i = choose|i: int| 0 <= i < init.len() && (#[trigger] init[i]).0 == s.last().0;
        assert(init[i] == s[i]);
        assert(s[i].0.rank() < s[n].0.rank());
    }
    lemma_entry(s, n);
    if k != s.last().0 {
        if has_key(s, k) {
            let i = choose|i: int| 0 <= i < s.len() && (#[trigger] s[i]).0 == k;
            assert(i < n);
            assert(init[i] == s[i]);
            lemma_entry(s, i);
            lemma_entry(init, i);
        } else if has_key(init, k) {
            let i = choose|i: int| 0 <= i < init.len() && (#[trigger] init[i]).0 == k;
            assert(init[i] == s[i]);
            assert(has_key(s, k));
        }
    }
}

/// Where the counts of one sorted sequence are added to another and all of them fit,
/// each key has the sum of its two counts.
pub proof fn lemma_add_into_weight<T: Key>(acc: Seq<(T, usize)>, pairs: Seq<(T, usize)>, k: T)
    requires
        sorted(acc),
        sorted(pairs),
        fits(acc, pairs),
    ensures
        weight(add_into(acc, pairs), k) == weight(acc, k) + weight(pairs, k),
    decreases pairs.len(),
{
    if pairs.len() > 0 {
        let init = pairs.drop_last();
        let e = pairs.last();
        lemma_weight_last(pairs, k);
        lemma_add_into(acc, init);
        lemma_add_into_weight(acc, init, k);
        lemma_add_into_weight(acc, init, e.0);
        let m = add_into(acc, init);
        lemma_put(m, e.0, (weight(m, e.0) + e.1) as usize);
    }
}

/// What the place `pl` and the other places have after the first `i` of the consuming
/// arcs `arcs` were added at `pl`: the place has for each transition what it had and what
/// the arcs give it, and the other places are what they were.
pub proof fn lemma_add_consumers_weights(
    net: NetView,
    pl: PlaceId,
    arcs: Seq<(TransitionId, usize)>,
    i: int,
)
    requires
        net.wf(),
        net.valid_place(pl),
        !net.places[pl.0 as int].deleted,
        sorted(arcs),
        0 <= i <= arcs.len(),
        forall|j: int|
            0 <= j < arcs.len() ==> net.valid_transition((#[trigger] arcs[j]).0)
                && !net.transitions[arcs[j].0.0 as int].deleted && !has_key(
                net.places[pl.0 as int].consumed_by,
                arcs[j].0,
            ),
    ensures
        sorted(arcs.take(i)),
        forall|t: TransitionId|
            weight(net.add_consumers(pl, arcs.take(i)).places[pl.0 as int].consumed_by, t)
                == weight(net.places[pl.0 as int].consumed_by, t) + weight(arcs.take(i), t),
        forall|q: int|
            0 <= q < net.places.len() && q != pl.0 ==> #[trigger] net.add_consumers(
                pl,
                arcs.take(i),
            ).places[q] == net.places[q],
        net.add_consumers(pl, arcs.take(i)).places[pl.0 as int].produced_by
            == net.places[pl.0 as int].produced_by,
        net.add_consumers(pl, arcs.take(i)).places[pl.0 as int].initial
            == net.places[pl.0 as int].initial,
    decreases i,
{
    let cur = net.add_consumers(pl, arcs.take(i));
    assert forall|a: int, b: int| 0 <= a < b < arcs.take(i).len() implies (
    #[trigger] arcs.take(i)[a]).0.rank() < (#[trigger] arcs.take(i)[b]).0.rank() by {
        assert(arcs.take(i)[a] == arcs[a] && arcs.take(i)[b] == arcs[b]);
    }
    if i == 0 {
        assert(arcs.take(0).len() == 0);
        assert(cur == net);
    } else {
        lemma_add_consumers_weights(net, pl, arcs, i - 1);
        net.lemma_add_consumers(pl, arcs, i - 1);
        let prev = net.add_consumers(pl, arcs.take(i - 1));
        let e = arcs[i - 1];
        let a = arc::Kind::Consume(pl, e.0, e.1);
        assert(cur == prev.add_arc(a));
        assert(prev.place_wf(pl.0 as int));
        assert(prev.symmetric(pl.0 as int, e.0.0 as int));
        let had = prev.places[pl.0 as int].consumed_by;
        lemma_put(had, e.0, (weight(had, e.0) + e.1) as usize);
        assert(arcs.take(i).drop_last() =~= arcs.take(i - 1));
        assert(arcs.take(i).last() == e);
        assert forall|t: TransitionId|
            weight(cur.places[pl.0 as int].consumed_by, t) == weight(
                net.places[pl.0 as int].consumed_by,
                t,
            ) + weight(arcs.take(i), t) by {
            lemma_weight_last(arcs.take(i), t);
            lemma_weight_last(arcs.take(i), e.0);
            assert(weight(arcs.take(i - 1), e.0) == 0);
            assert(weight(had, e.0) + e.1 <= usize::MAX);
            assert(cur.places[pl.0 as int].consumed_by == put(
                had,
                e.0,
                (weight(had, e.0) + e.1) as usize,
            ));
            assert(weight(had, t) == weight(net.places[pl.0 as int].consumed_by, t) + weight(
                arcs.take(i - 1),
                t,
            ));
            if t == e.0 {
                assert(weight(arcs.take(i), t) == e.1);
                assert(weight(cur.places[pl.0 as int].consumed_by, t) == weight(had, e.0) + e.1);
            } else {
                assert(weight(arcs.take(i), t) == weight(arcs.take(i - 1), t));
                assert(weight(cur.places[pl.0 as int].consumed_by, t) == weight(had, t));
            }
        }
    }
}

/// What the place `pl` and the other places have after the first `i` of the producing
/// arcs `arcs` were added at `pl`: the place has for each transition what it had and what
/// the arcs give it, and the other places are what they were.
pub proof fn lemma_add_producers_weights(
    net: NetView,
    pl: PlaceId,
    arcs: Seq<(TransitionId, usize)>,
    i: int,
)
    requires
        net.wf(),
        net.valid_place(pl),
        !net.places[pl.0 as int].deleted,
        sorted(arcs),
        0 <= i <= arcs.len(),
        forall|j: int|
            0 <= j < arcs.len() ==> net.valid_transition((#[trigger] arcs[j]).0)
                && !net.transitions[arcs[j].0.0 as int].deleted && !has_key(
                net.places[pl.0 as int].produced_by,
                arcs[j].0,
            ),
    ensures
        sorted(arcs.take(i)),
        forall|t: TransitionId|
            weight(net.add_producers(pl, arcs.take(i)).places[pl.0 as int].produced_by, t)
                == weight(net.places[pl.0 as int].produced_by, t) + weight(arcs.take(i), t),
        forall|q: int|
            0 <= q < net.places.len() && q != pl.0 ==> #[trigger] net.add_producers(
                pl,
                arcs.take(i),
            ).places[q] == net.places[q],
        net.add_producers(pl, arcs.take(i)).places[pl.0 as int].consumed_by
            == net.places[pl.0 as int].consumed_by,
        net.add_producers(pl, arcs.take(i)).places[pl.0 as int].initial
            == net.places[pl.0 as int].initial,
    decreases i,
{
    let cur = net.add_producers(pl, arcs.take(i));
    assert forall|a: int, b: int| 0 <= a < b < arcs.take(i).len() implies (
    #[trigger] arcs.take(i)[a]).0.rank() < (#[trigger] arcs.take(i)[b]).0.rank() by {
        assert(arcs.take(i)[a] == arcs[a] && arcs.take(i)[b] == arcs[b]);
    }
    if i == 0 {
        assert(arcs.take(0).len() == 0);
        assert(cur == net);
    } else {
        lemma_add_producers_weights(net, pl, arcs, i - 1);
        net.lemma_add_producers(pl, arcs, i - 1);
        let prev = net.add_producers(pl, arcs.take(i - 1));
        let e = arcs[i - 1];
        let a = arc::Kind::Produce(pl, e.0, e.1);
        assert(cur == prev.add_arc(a));
        assert(prev.place_wf(pl.0 as int));
        assert(prev.symmetric(pl.0 as int, e.0.0 as int));
        let had = prev.places[pl.0 as int].produced_by;
        lemma_put(had, e.0, (weight(had, e.0) + e.1) as usize);
        assert(arcs.take(i).drop_last() =~= arcs.take(i - 1));
        assert(arcs.take(i).last() == e);
        assert forall|t: TransitionId|
            weight(cur.places[pl.0 as int].produced_by, t) == weight(
                net.places[pl.0 as int].produced_by,
                t,
            ) + weight(arcs.take(i), t) by {
            lemma_weight_last(arcs.take(i), t);
            lemma_weight_last(arcs.take(i), e.0);
            assert(weight(arcs.take(i - 1), e.0) == 0);
            assert(weight(had, e.0) + e.1 <= usize::MAX);
            assert(cur.places[pl.0 as int].produced_by == put(
                had,
                e.0,
                (weight(had, e.0) + e.1) as usize,
            ));
            assert(weight(had, t) == weight(net.places[pl.0 as int].produced_by, t) + weight(
                arcs.take(i - 1),
                t,
            ));
            if t == e.0 {
                assert(weight(arcs.take(i), t) == e.1);
                assert(weight(cur.places[pl.0 as int].produced_by, t) == weight(had, e.0) + e.1);
            } else {
                assert(weight(arcs.take(i), t) == weight(arcs.take(i - 1), t));
                assert(weight(cur.places[pl.0 as int].produced_by, t) == weight(had, t));
            }
        }
    }
}

/// What the transitions consume and produce after arcs were added at a place that had
/// none: at that place what the arcs say, at every other place what they did before.
pub proof fn lemma_connect_weights(
    net: NetView,
    pl: PlaceId,
    consumed: Seq<(TransitionId, usize)>,
    produced: Seq<(TransitionId, usize)>,
)
    requires
        net.wf(),
        net.can_connect(pl, consumed, produced),
    ensures
        net.connect(pl, consumed, produced).wf(),
        net.connect(pl, consumed, produced).same_nodes(net),
        forall|tr: TransitionId, q: PlaceId|
            net.valid_transition(tr) && net.valid_place(q) ==> #[trigger] weight(
                net.connect(pl, consumed, produced).transitions[tr.0 as int].consume,
                q,
            ) == (if q == pl {
                weight(consumed, tr)
            } else {
                weight(net.transitions[tr.0 as int].consume, q)
            }),
        forall|tr: TransitionId, q: PlaceId|
            net.valid_transition(tr) && net.valid_place(q) ==> #[trigger] weight(
                net.connect(pl, consumed, produced).transitions[tr.0 as int].produce,
                q,
            ) == (if q == pl {
                weight(produced, tr)
            } else {
                weight(net.transitions[tr.0 as int].produce, q)
            }),
{
    let r = net.connect(pl, consumed, produced);
    let mid = net.add_consumers(pl, consumed);
    net.lemma_connect(pl, consumed, produced);
    assert(consumed.take(consumed.len() as int) =~= consumed);
    assert(produced.take(produced.len() as int) =~= produced);
    assert forall|j: int| 0 <= j < consumed.len() implies !has_key(
        net.places[pl.0 as int].consumed_by,
        (#[trigger] consumed[j]).0,
    ) by {}
    net.lemma_add_consumers(pl, consumed, consumed.len() as int);
    lemma_add_consumers_weights(net, pl, consumed, consumed.len() as int);
    assert forall|j: int| 0 <= j < produced.len() implies !has_key(
        mid.places[pl.0 as int].produced_by,
        (#[trigger] produced[j]).0,
    ) by {}
    lemma_add_producers_weights(mid, pl, produced, produced.len() as int);
    assert forall|tr: TransitionId, q: PlaceId|
        net.valid_transition(tr) && net.valid_place(q) implies #[trigger] weight(
        r.transitions[tr.0 as int].consume,
        q,
    ) == (if q == pl {
        weight(consumed, tr)
    } else {
        weight(net.transitions[tr.0 as int].consume, q)
    }) by {
        assert(r.symmetric(q.0 as int, tr.0 as int));
        assert(net.symmetric(q.0 as int, tr.0 as int));
        if q == pl {
            assert(weight(mid.places[pl.0 as int].consumed_by, tr) == weight(
                net.places[pl.0 as int].consumed_by,
                tr,
            ) + weight(consumed, tr));
            assert(!has_key(net.places[pl.0 as int].consumed_by, tr));
        } else {
            assert(r.places[q.0 as int] == mid.places[q.0 as int]);
            assert(mid.places[q.0 as int] == net.places[q.0 as int]);
        }
    }
    assert forall|tr: TransitionId, q: PlaceId|
        net.valid_transition(tr) && net.valid_place(q) implies #[trigger] weight(
        r.transitions[tr.0 as int].produce,
        q,
    ) == (if q == pl {
        weight(produced, tr)
    } else {
        weight(net.transitions[tr.0 as int].produce, q)
    }) by {
        assert(r.symmetric(q.0 as int, tr.0 as int));
        assert(net.symmetric(q.0 as int, tr.0 as int));
        if q == pl {
            assert(weight(r.places[pl.0 as int].produced_by, tr) == weight(
                mid.places[pl.0 as int].produced_by,
                tr,
            ) + weight(produced, tr));
            assert(!has_key(net.places[pl.0 as int].produced_by, tr));
        } else {
            assert(r.places[q.0 as int] == mid.places[q.0 as int]);
            assert(mid.places[q.0 as int] == net.places[q.0 as int]);
        }
    }
}

/// What a transition consumes from the place `q` of the net that the rule leaves, seen
/// from the net before: from the new place what it consumed from the two places of the
/// chain, from those two nothing, from any other place what it did.
pub open spec fn consumed_after(net: NetView, tr: TransitionId, u: TransitionId, q: PlaceId) -> nat {
    let src = SimpleChainReducer::source(net, tr);
    let dst = SimpleChainReducer::destination(net, tr);
    let had = net.transitions[u.0 as int].consume;
    if q.0 == net.places.len() {
        weight(had, src) + weight(had, dst)
    } else if q == src || q == dst {
        0
    } else {
        weight(had, q)
    }
}

/// What a transition produces into the place `q` of the net that the rule leaves, seen
/// from the net before.
pub open spec fn produced_after(net: NetView, tr: TransitionId, u: TransitionId, q: PlaceId) -> nat {
    let src = SimpleChainReducer::source(net, tr);
    let dst = SimpleChainReducer::destination(net, tr);
    let had = net.transitions[u.0 as int].produce;
    if q.0 == net.places.len() {
        weight(had, src) + weight(had, dst)
    } else if q == src || q == dst {
        0
    } else {
        weight(had, q)
    }
}

/// The net that the rule leaves: it has one place more, which starts with the tokens of
/// the source, the other places start as they did, and the transitions other than that
/// of the chain consume and produce as `consumed_after` and `produced_after` say.
pub proof fn lemma_rewritten(net: NetView, tr: TransitionId)
    requires
        net.wf(),
        SimpleChainReducer::applies(net, tr),
    ensures
        ({
            let r = SimpleChainReducer::rewritten(net, tr);
            let src = SimpleChainReducer::source(net, tr);
            let dst = SimpleChainReducer::destination(net, tr);
            &&& net.valid_place(src)
            &&& net.valid_place(dst)
            &&& weight(net.transitions[tr.0 as int].consume, src) == 1
            &&& weight(net.transitions[tr.0 as int].produce, dst) == 1
            &&& forall|q: PlaceId|
                q != src ==> weight(net.transitions[tr.0 as int].consume, q) == 0
            &&& forall|q: PlaceId|
                q != dst ==> weight(net.transitions[tr.0 as int].produce, q) == 0
            &&& r.places.len() == net.places.len() + 1
            &&& r.transitions.len() == net.transitions.len()
            &&& r.places[net.places.len() as int].initial == net.places[src.0 as int].initial
            &&& forall|q: int|
                0 <= q < net.places.len() ==> (#[trigger] r.places[q]).initial
                    == net.places[q].initial
            &&& forall|u: TransitionId, q: PlaceId|
                net.valid_transition(u) && u != tr && r.valid_place(q) ==> #[trigger] weight(
                    r.transitions[u.0 as int].consume,
                    q,
                ) == consumed_after(net, tr, u, q)
            &&& forall|u: TransitionId, q: PlaceId|
                net.valid_transition(u) && u != tr && r.valid_place(q) ==> #[trigger] weight(
                    r.transitions[u.0 as int].produce,
                    q,
                ) == produced_after(net, tr, u, q)
        }),
{
    let src = SimpleChainReducer::source(net, tr);
    let dst = SimpleChainReducer::destination(net, tr);
    let t = net.transitions[tr.0 as int];
    let new_pl = PlaceId(net.places.len() as usize);
    let consumed = add_into(net.places[src.0 as int].consumed_by, net.places[dst.0 as int].consumed_by);
    let produced = add_into(net.places[src.0 as int].produced_by, net.places[dst.0 as int].produced_by);
    net.lemma_transition_arcs_live(tr.0 as int);
    assert(net.valid_place(t.consume[0].0));
    assert(net.valid_place(t.produce[0].0));
    lemma_entry(t.consume, 0);
    lemma_entry(t.produce, 0);
    assert forall|q: PlaceId| q != src implies weight(t.consume, q) == 0 by {
        if has_key(t.consume, q) {
            let i = choose|i: int| 0 <= i < t.consume.len() && (#[trigger] t.consume[i]).0 == q;
            assert(i == 0);
        }
    }
    assert forall|q: PlaceId| q != dst implies weight(t.produce, q) == 0 by {
        if has_key(t.produce, q) {
            let i = choose|i: int| 0 <= i < t.produce.len() && (#[trigger] t.produce[i]).0 == q;
            assert(i == 0);
        }
    }
    net.lemma_merged_arcs_live(src.0 as int, dst.0 as int);
    net.lemma_create_place();
    let n0 = net.create_place();
    assert(n0.can_connect(new_pl, consumed, produced));
    lemma_connect_weights(n0, new_pl, consumed, produced);
    let n1 = n0.connect(new_pl, consumed, produced);
    n1.lemma_set_initial(new_pl, net.places[src.0 as int].initial);
    let n2 = n1.set_initial(new_pl, net.places[src.0 as int].initial);
    n2.lemma_delete_place(dst);
    let n3 = n2.delete_place(dst);
    n3.lemma_delete_place(src);
    let n4 = n3.delete_place(src);
    let r = n4.delete_transition(tr);
    assert(r == SimpleChainReducer::rewritten(net, tr));
    assert forall|q: int| 0 <= q < net.places.len() implies (#[trigger] r.places[q]).initial
        == net.places[q].initial by {
        assert(n0.places[q] == net.places[q]);
        assert(n1.places[q].initial == n0.places[q].initial);
    }
    assert(net.place_wf(src.0 as int));
    assert(net.place_wf(dst.0 as int));
    assert forall|u: TransitionId, q: PlaceId|
        net.valid_transition(u) && u != tr && r.valid_place(q) implies #[trigger] weight(
        r.transitions[u.0 as int].consume,
        q,
    ) == consumed_after(net, tr, u, q) by {
        let had = n2.transitions[u.0 as int].consume;
        assert(n2.transition_wf(u.0 as int));
        assert(n3.transition_wf(u.0 as int));
        lemma_without(had, dst);
        lemma_without(n3.transitions[u.0 as int].consume, src);
        assert(r.transitions[u.0 as int] == n4.transitions[u.0 as int]);
        assert(n2.transitions[u.0 as int] == n1.transitions[u.0 as int]);
        if q == new_pl {
            lemma_add_into_weight(
                net.places[src.0 as int].consumed_by,
                net.places[dst.0 as int].consumed_by,
                u,
            );
            assert(net.symmetric(src.0 as int, u.0 as int));
            assert(net.symmetric(dst.0 as int, u.0 as int));
            assert(weight(n1.transitions[u.0 as int].consume, q) == weight(consumed, u));
        } else if q != src && q != dst {
            assert(weight(n1.transitions[u.0 as int].consume, q) == weight(
                n0.transitions[u.0 as int].consume,
                q,
            ));
        }
    }
    assert forall|u: TransitionId, q: PlaceId|
        net.valid_transition(u) && u != tr && r.valid_place(q) implies #[trigger] weight(
        r.transitions[u.0 as int].produce,
        q,
    ) == produced_after(net, tr, u, q) by {
        let had = n2.transitions[u.0 as int].produce;
        assert(n2.transition_wf(u.0 as int));
        assert(n3.transition_wf(u.0 as int));
        lemma_without(had, dst);
        lemma_without(n3.transitions[u.0 as int].produce, src);
        assert(r.transitions[u.0 as int] == n4.transitions[u.0 as int]);
        assert(n2.transitions[u.0 as int] == n1.transitions[u.0 as int]);
        if q == new_pl {
            lemma_add_into_weight(
                net.places[src.0 as int].produced_by,
                net.places[dst.0 as int].produced_by,
                u,
            );
            assert(net.symmetric(src.0 as int, u.0 as int));
            assert(net.symmetric(dst.0 as int, u.0 as int));
            assert(weight(n1.transitions[u.0 as int].produce, q) == weight(produced, u));
        } else if q != src && q != dst {
            assert(weight(n1.transitions[u.0 as int].produce, q) == weight(
                n0.transitions[u.0 as int].produce,
                q,
            ));
        }
    }
}

/// The step of a simple chain is sound: whatever firing leads the net to a marking, the
/// same firing without the transition of the chain leads the net that the rule leaves to
/// a marking in which the new place holds the tokens of the two places of the chain
/// together and every other place holds what it holds in the net. So the record of the
/// step holds of the two markings.
pub proof fn lemma_simple_chain_sound(net: NetView, tr: TransitionId, firing: Seq<TransitionId>)
    requires
        net.wf(),
        SimpleChainReducer::applies(net, tr),
        reached(net, firing) is Some,
    ensures
        ({
            let r = SimpleChainReducer::rewritten(net, tr);
            let src = SimpleChainReducer::source(net, tr);
            let dst = SimpleChainReducer::destination(net, tr);
            let new_pl = PlaceId(net.places.len() as usize);
            let m = reached(net, firing)->0;
            let n = reached(r, without_firings(firing, tr));
            &&& n is Some
            &&& n->0[new_pl] == m[src] + m[dst]
            &&& n->0[src] == net.places[src.0 as int].initial
            &&& n->0[dst] == net.places[dst.0 as int].initial
            &&& forall|q: PlaceId|
                net.valid_place(q) && q != src && q != dst ==> #[trigger] n->0[q] == m[q]
            &&& SimpleChainReducer::record(src, dst, new_pl).holds(m.insert(new_pl, n->0[new_pl]))
        }),
    decreases firing.len(),
{
    let r = SimpleChainReducer::rewritten(net, tr);
    let src = SimpleChainReducer::source(net, tr);
    let dst = SimpleChainReducer::destination(net, tr);
    let new_pl = PlaceId(net.places.len() as usize);
    lemma_rewritten(net, tr);
    lemma_reached_places(net, firing);
    if firing.len() == 0 {
        assert(initial_tokens(r)[new_pl] == net.places[src.0 as int].initial);
        assert(r.places[src.0 as int].initial == net.places[src.0 as int].initial);
        assert(r.places[dst.0 as int].initial == net.places[dst.0 as int].initial);
        assert forall|q: PlaceId| net.valid_place(q) implies #[trigger] initial_tokens(r)[q]
            == initial_tokens(net)[q] by {
            assert(r.places[q.0 as int].initial == net.places[q.0 as int].initial);
        }
    } else {
        let before = firing.drop_last();
        let u = firing.last();
        lemma_simple_chain_sound(net, tr, before);
        lemma_reached_places(net, before);
        let m0 = reached(net, before)->0;
        let n0 = reached(r, without_firings(before, tr))->0;
        lemma_reached_places(r, without_firings(before, tr));
        assert(m0.contains_key(src) && m0.contains_key(dst));
        if u != tr {
            assert(without_firings(firing, tr).drop_last() =~= without_firings(before, tr));
            assert(without_firings(firing, tr).last() == u);
            assert forall|q: PlaceId| #[trigger] n0.contains_key(q) implies weight(
                r.transitions[u.0 as int].consume,
                q,
            ) <= n0[q] by {
                assert(weight(r.transitions[u.0 as int].consume, q) == consumed_after(net, tr, u, q));
                if q != new_pl {
                    assert(m0.contains_key(q));
                }
            }
            assert(enabled(r, n0, u));
            let n1 = fired(r, n0, u);
            let m1 = fired(net, m0, u);
            assert(weight(r.transitions[u.0 as int].consume, new_pl) == consumed_after(net, tr, u, new_pl));
            assert(weight(r.transitions[u.0 as int].produce, new_pl) == produced_after(net, tr, u, new_pl));
            assert(weight(r.transitions[u.0 as int].consume, src) == consumed_after(net, tr, u, src));
            assert(weight(r.transitions[u.0 as int].produce, src) == produced_after(net, tr, u, src));
            assert(weight(r.transitions[u.0 as int].consume, dst) == consumed_after(net, tr, u, dst));
            assert(weight(r.transitions[u.0 as int].produce, dst) == produced_after(net, tr, u, dst));
            assert forall|q: PlaceId| net.valid_place(q) && q != src && q != dst implies #[trigger] n1[q]
                == m1[q] by {
                assert(weight(r.transitions[u.0 as int].consume, q) == consumed_after(net, tr, u, q));
                assert(weight(r.transitions[u.0 as int].produce, q) == produced_after(net, tr, u, q));
                assert(n0[q] == m0[q]);
            }
        }
    }
    let m = reached(net, firing)->0;
    let n = reached(r, without_firings(firing, tr))->0;
    let both = m.insert(new_pl, n[new_pl]);
    assert(linear(seq![(src, 1isize), (dst, 1isize)], both) == m[src] + m[dst]) by {
        reveal_with_fuel(linear, 3);
        let terms = seq![(src, 1isize), (dst, 1isize)];
        assert(terms.drop_last() =~= seq![(src, 1isize)]);
        assert(terms.drop_last().drop_last() =~= Seq::<(PlaceId, isize)>::empty());
        assert(both.contains_key(src) && both[src] == m[src]);
        assert(both.contains_key(dst) && both[dst] == m[dst]);
    }
}

/// The entries of a sorted sequence with the count one are sorted, and each key of the
/// sequence has the count one in them.
pub proof fn lemma_unit_entries<T: Key>(s: Seq<(T, usize)>, k: T)
    requires
        sorted(s),
    ensures
        sorted(unit_entries(s)),
        has_key(unit_entries(s), k) == has_key(s, k),
        weight(unit_entries(s), k) == (if has_key(s, k) {
            1nat
        } else {
            0nat
        }),
{
    let u = unit_entries(s);
    assert forall|i: int, j: int| 0 <= i < j < u.len() implies (#[trigger] u[i]).0.rank() < (
    #[trigger] u[j]).0.rank() by {
        assert(u[i].0 == s[i].0 && u[j].0 == s[j].0);
    }
    if has_key(s, k) {
        let i = choose|i: int| 0 <= i < s.len() && (#[trigger] s[i]).0 == k;
        assert(u[i].0 == k);
        lemma_entry(u, i);
    } else if has_key(u, k) {
        let i = choose|i: int| 0 <= i < u.len() && (#[trigger] u[i]).0 == k;
        assert(s[i].0 == k);
    }
}

/// What a transition has at the place `q` of the net that the simplification of weights
/// leaves, where it had the arcs `had`: at the new place one if it had an arc at the old
/// place, at the old place nothing, at any other place what it had.
pub open spec fn simplified(net: NetView, pl: PlaceId, had: Seq<(PlaceId, usize)>, q: PlaceId) -> nat {
    if q.0 == net.places.len() {
        if has_key(had, pl) {
            1
        } else {
            0
        }
    } else if q == pl {
        0
    } else {
        weight(had, q)
    }
}

/// The net that the simplification of weights leaves: it has one place more, which
/// starts with one token, the other places start as they did, and the transitions
/// consume and produce as `simplified` says; in the net before, every arc at the place
/// has the weight that the place starts with.
pub proof fn lemma_simplified(net: NetView, pl: PlaceId)
    requires
        net.wf(),
        WeightSimplification::applies(net, pl),
    ensures
        ({
            let r = WeightSimplification::rewritten(net, pl);
            let k = net.places[pl.0 as int].initial as nat;
            &&& r.places.len() == net.places.len() + 1
            &&& r.transitions.len() == net.transitions.len()
            &&& r.places[net.places.len() as int].initial == 1
            &&& forall|q: int|
                0 <= q < net.places.len() ==> (#[trigger] r.places[q]).initial
                    == net.places[q].initial
            &&& forall|u: TransitionId|
                net.valid_transition(u) ==> #[trigger] weight(net.transitions[u.0 as int].consume, pl)
                    == (if has_key(net.transitions[u.0 as int].consume, pl) {
                    k
                } else {
                    0
                })
            &&& forall|u: TransitionId|
                net.valid_transition(u) ==> #[trigger] weight(net.transitions[u.0 as int].produce, pl)
                    == (if has_key(net.transitions[u.0 as int].produce, pl) {
                    k
                } else {
                    0
                })
            &&& forall|u: TransitionId, q: PlaceId|
                net.valid_transition(u) && r.valid_place(q) ==> #[trigger] weight(
                    r.transitions[u.0 as int].consume,
                    q,
                ) == simplified(net, pl, net.transitions[u.0 as int].consume, q)
            &&& forall|u: TransitionId, q: PlaceId|
                net.valid_transition(u) && r.valid_place(q) ==> #[trigger] weight(
                    r.transitions[u.0 as int].produce,
                    q,
                ) == simplified(net, pl, net.transitions[u.0 as int].produce, q)
        }),
{
    let place = net.places[pl.0 as int];
    let k = place.initial as nat;
    let new_pl = PlaceId(net.places.len() as usize);
    let consumed = unit_entries(place.consumed_by);
    let produced = unit_entries(place.produced_by);
    net.lemma_place_arcs_live(pl.0 as int);
    net.lemma_create_place();
    let n0 = net.create_place();
    n0.lemma_set_initial(new_pl, 1);
    let n1 = n0.set_initial(new_pl, 1);
    assert(place.consumed_by.len() == consumed.len());
    assert forall|j: int| 0 <= j < consumed.len() implies n1.valid_transition(
        (#[trigger] consumed[j]).0,
    ) && !n1.transitions[consumed[j].0.0 as int].deleted by {
        assert(consumed[j].0 == place.consumed_by[j].0);
    }
    assert forall|j: int| 0 <= j < produced.len() implies n1.valid_transition(
        (#[trigger] produced[j]).0,
    ) && !n1.transitions[produced[j].0.0 as int].deleted by {
        assert(produced[j].0 == place.produced_by[j].0);
    }
    lemma_unit_entries(place.consumed_by, TransitionId(0));
    lemma_unit_entries(place.produced_by, TransitionId(0));
    assert(n1.can_connect(new_pl, consumed, produced));
    lemma_connect_weights(n1, new_pl, consumed, produced);
    let n2 = n1.connect(new_pl, consumed, produced);
    n2.lemma_delete_place(pl);
    let r = n2.delete_place(pl);
    assert(r == WeightSimplification::rewritten(net, pl));
    assert forall|q: int| 0 <= q < net.places.len() implies (#[trigger] r.places[q]).initial
        == net.places[q].initial by {
        assert(n0.places[q] == net.places[q]);
        assert(n1.places[q].initial == n0.places[q].initial);
        assert(n2.places[q].initial == n1.places[q].initial);
    }
    assert forall|u: TransitionId| net.valid_transition(u) implies #[trigger] weight(
        net.transitions[u.0 as int].consume,
        pl,
    ) == (if has_key(net.transitions[u.0 as int].consume, pl) {
        k
    } else {
        0
    }) by {
        assert(net.symmetric(pl.0 as int, u.0 as int));
        if has_key(place.consumed_by, u) {
            let i = choose|i: int| 0 <= i < place.consumed_by.len() && (#[trigger] place.consumed_by[i]).0 == u;
            lemma_entry(place.consumed_by, i);
        }
    }
    assert forall|u: TransitionId| net.valid_transition(u) implies #[trigger] weight(
        net.transitions[u.0 as int].produce,
        pl,
    ) == (if has_key(net.transitions[u.0 as int].produce, pl) {
        k
    } else {
        0
    }) by {
        assert(net.symmetric(pl.0 as int, u.0 as int));
        if has_key(place.produced_by, u) {
            let i = choose|i: int| 0 <= i < place.produced_by.len() && (#[trigger] place.produced_by[i]).0 == u;
            lemma_entry(place.produced_by, i);
        }
    }
    assert forall|u: TransitionId, q: PlaceId|
        net.valid_transition(u) && r.valid_place(q) implies #[trigger] weight(
        r.transitions[u.0 as int].consume,
        q,
    ) == simplified(net, pl, net.transitions[u.0 as int].consume, q) by {
        assert(n2.transition_wf(u.0 as int));
        lemma_without(n2.transitions[u.0 as int].consume, pl);
        assert(net.symmetric(pl.0 as int, u.0 as int));
        lemma_unit_entries(place.consumed_by, u);
        assert(weight(n2.transitions[u.0 as int].consume, q) == (if q == new_pl {
            weight(consumed, u)
        } else {
            weight(n1.transitions[u.0 as int].consume, q)
        }));
    }
    assert forall|u: TransitionId, q: PlaceId|
        net.valid_transition(u) && r.valid_place(q) implies #[trigger] weight(
        r.transitions[u.0 as int].produce,
        q,
    ) == simplified(net, pl, net.transitions[u.0 as int].produce, q) by {
        assert(n2.transition_wf(u.0 as int));
        lemma_without(n2.transitions[u.0 as int].produce, pl);
        assert(net.symmetric(pl.0 as int, u.0 as int));
        lemma_unit_entries(place.produced_by, u);
        assert(weight(n2.transitions[u.0 as int].produce, q) == (if q == new_pl {
            weight(produced, u)
        } else {
            weight(n1.transitions[u.0 as int].produce, q)
        }));
    }
}

/// The simplification of weights is sound: whatever firing leads the net to a marking
/// leads the net that the rule leaves to a marking in which every other place holds what
/// it holds in the net, and the old place holds as many times the tokens of the new
/// place as it had tokens at the start. So the record of the step holds of the two
/// markings.
pub proof fn lemma_weight_simplification_sound(
    net: NetView,
    pl: PlaceId,
    firing: Seq<TransitionId>,
)
    requires
        net.wf(),
        WeightSimplification::applies(net, pl),
        reached(net, firing) is Some,
    ensures
        ({
            let r = WeightSimplification::rewritten(net, pl);
            let new_pl = PlaceId(net.places.len() as usize);
            let k = net.places[pl.0 as int].initial;
            let m = reached(net, firing)->0;
            let n = reached(r, firing);
            &&& n is Some
            &&& m[pl] == k * n->0[new_pl]
            &&& n->0[pl] == k
            &&& forall|q: PlaceId| net.valid_place(q) && q != pl ==> #[trigger] n->0[q] == m[q]
            &&& WeightSimplification::record(pl, new_pl, k).holds(m.insert(new_pl, n->0[new_pl]))
        }),
    decreases firing.len(),
{
    let r = WeightSimplification::rewritten(net, pl);
    let new_pl = PlaceId(net.places.len() as usize);
    let k = net.places[pl.0 as int].initial;
    lemma_simplified(net, pl);
    lemma_reached_places(net, firing);
    if firing.len() == 0 {
        assert(initial_tokens(r)[new_pl] == 1);
        assert(r.places[pl.0 as int].initial == k);
        assert forall|q: PlaceId| net.valid_place(q) implies #[trigger] initial_tokens(r)[q]
            == initial_tokens(net)[q] by {
            assert(r.places[q.0 as int].initial == net.places[q.0 as int].initial);
        }
    } else {
        let before = firing.drop_last();
        let u = firing.last();
        lemma_weight_simplification_sound(net, pl, before);
        lemma_reached_places(net, before);
        lemma_reached_places(r, before);
        let m0 = reached(net, before)->0;
        let n0 = reached(r, before)->0;
        let took = net.transitions[u.0 as int].consume;
        let gave = net.transitions[u.0 as int].produce;
        assert(m0.contains_key(pl));
        assert(weight(r.transitions[u.0 as int].consume, new_pl) == simplified(net, pl, took, new_pl));
        assert(weight(r.transitions[u.0 as int].produce, new_pl) == simplified(net, pl, gave, new_pl));
        assert(weight(r.transitions[u.0 as int].consume, pl) == simplified(net, pl, took, pl));
        assert(weight(r.transitions[u.0 as int].produce, pl) == simplified(net, pl, gave, pl));
        assert(weight(took, pl) <= m0[pl]);
        assert(has_key(took, pl) ==> n0[new_pl] >= 1) by (nonlinear_arith)
            requires
                has_key(took, pl) ==> k <= m0[pl],
                m0[pl] == k * n0[new_pl],
                k > 1,
        ;
        assert forall|q: PlaceId| #[trigger] n0.contains_key(q) implies weight(
            r.transitions[u.0 as int].consume,
            q,
        ) <= n0[q] by {
            assert(weight(r.transitions[u.0 as int].consume, q) == simplified(net, pl, took, q));
            if q != new_pl {
                assert(m0.contains_key(q));
            }
        }
        assert(enabled(r, n0, u));
        let n1 = fired(r, n0, u);
        let m1 = fired(net, m0, u);
        let c: int = if has_key(took, pl) {
            1
        } else {
            0
        };
        let p: int = if has_key(gave, pl) {
            1
        } else {
            0
        };
        assert(n1[new_pl] == n0[new_pl] - c + p);
        assert(m1[pl] == m0[pl] - k * c + k * p) by (nonlinear_arith)
            requires
                m1[pl] == m0[pl] - weight(took, pl) + weight(gave, pl),
                weight(took, pl) == (if has_key(took, pl) {
                    k as nat
                } else {
                    0
                }),
                weight(gave, pl) == (if has_key(gave, pl) {
                    k as nat
                } else {
                    0
                }),
                c == (if has_key(took, pl) {
                    1int
                } else {
                    0
                }),
                p == (if has_key(gave, pl) {
                    1int
                } else {
                    0
                }),
        ;
        assert(m1[pl] == k * n1[new_pl]) by (nonlinear_arith)
            requires
                m1[pl] == m0[pl] - k * c + k * p,
                m0[pl] == k * n0[new_pl],
                n1[new_pl] == n0[new_pl] - c + p,
        ;
        assert forall|q: PlaceId| net.valid_place(q) && q != pl implies #[trigger] n1[q] == m1[q] by {
            assert(weight(r.transitions[u.0 as int].consume, q) == simplified(net, pl, took, q));
            assert(weight(r.transitions[u.0 as int].produce, q) == simplified(net, pl, gave, q));
            assert(n0[q] == m0[q]);
        }
    }
    let m = reached(net, firing)->0;
    let n = reached(r, firing)->0;
    let both = m.insert(new_pl, n[new_pl]);
    assert(linear(seq![(pl, 1isize)], both) == m[pl]) by {
        reveal_with_fuel(linear, 2);
        assert(seq![(pl, 1isize)].drop_last() =~= Seq::<(PlaceId, isize)>::empty());
        assert(both.contains_key(pl) && both[pl] == m[pl]);
    }
}

/// The counts that `had` has at the first `n` of `places`, added up.
pub open spec fn total(had: Seq<(PlaceId, usize)>, places: Seq<PlaceId>, n: nat) -> nat
    decreases n,
{
    if n == 0 {
        0
    } else {
        total(had, places, (n - 1) as nat) + weight(had, places[n - 1])
    }
}

/// The tokens that the first `n` of `places` hold in the marking `m`, added up.
pub open spec fn held(m: Tokens, places: Seq<PlaceId>, n: nat) -> int
    decreases n,
{
    if n == 0 {
        0
    } else {
        held(m, places, (n - 1) as nat) + m[places[n - 1]]
    }
}

/// The merged arcs of places give each transition what the places give it together.
proof fn lemma_merged_weight(net: NetView, places: Seq<PlaceId>, n: nat, u: TransitionId)
    requires
        net.wf(),
        n <= places.len(),
        forall|i: int| 0 <= i < places.len() ==> net.valid_place(#[trigger] places[i]),
        adds_up(net, places, n),
        net.valid_transition(u),
    ensures
        weight(merged_consumed(net, places, n), u) == total(
            net.transitions[u.0 as int].consume,
            places,
            n,
        ),
        weight(merged_produced(net, places, n), u) == total(
            net.transitions[u.0 as int].produce,
            places,
            n,
        ),
    decreases n,
{
    if n > 0 {
        let p = places[n - 1];
        assert(net.valid_place(p));
        lemma_merged_weight(net, places, (n - 1) as nat, u);
        lemma_merged_live(net, places, (n - 1) as nat);
        assert(net.place_wf(p.0 as int));
        assert(net.symmetric(p.0 as int, u.0 as int));
        lemma_add_into_weight(
            merged_consumed(net, places, (n - 1) as nat),
            net.places[p.0 as int].consumed_by,
            u,
        );
        lemma_add_into_weight(
            merged_produced(net, places, (n - 1) as nat),
            net.places[p.0 as int].produced_by,
            u,
        );
    }
}

/// After places were removed, a transition has nothing at them and at every other place
/// what it had.
proof fn lemma_without_all_weights(net: NetView, all: Seq<PlaceId>, u: TransitionId, q: PlaceId)
    requires
        net.wf(),
        forall|i: int| 0 <= i < all.len() ==> net.valid_place(#[trigger] all[i]),
        net.valid_transition(u),
    ensures
        weight(without_all(net, all).transitions[u.0 as int].consume, q) == (if all.contains(q) {
            0
        } else {
            weight(net.transitions[u.0 as int].consume, q)
        }),
        weight(without_all(net, all).transitions[u.0 as int].produce, q) == (if all.contains(q) {
            0
        } else {
            weight(net.transitions[u.0 as int].produce, q)
        }),
    decreases all.len(),
{
    if all.len() > 0 {
        let init = all.drop_last();
        let last = all.last();
        assert(all[all.len() - 1] == last);
        assert forall|i: int| 0 <= i < init.len() implies net.valid_place(#[trigger] init[i]) by {
            assert(init[i] == all[i]);
        }
        lemma_without_all_weights(net, init, u, q);
        lemma_without_all(net, init);
        let before = without_all(net, init);
        assert(before.transition_wf(u.0 as int));
        lemma_without(before.transitions[u.0 as int].consume, last);
        lemma_without(before.transitions[u.0 as int].produce, last);
        if init.contains(q) {
            let i = choose|i: int| 0 <= i < init.len() && init[i] == q;
            assert(all[i] == q);
        }
        if all.contains(q) && q != last {
            let i = choose|i: int| 0 <= i < all.len() && all[i] == q;
            assert(init[i] == q);
        }
    }
}

/// What a transition has at the place `q` of the net that the merge leaves, where it had
/// the arcs `had`: at the new place what it had at the merged places together, at those
/// places nothing, at any other place what it had.
pub open spec fn merged_at(
    net: NetView,
    places: Seq<PlaceId>,
    had: Seq<(PlaceId, usize)>,
    q: PlaceId,
) -> nat {
    if q.0 == net.places.len() {
        total(had, places, places.len())
    } else if places.contains(q) {
        0
    } else {
        weight(had, q)
    }
}

/// The net that the merge leaves: it has one place more, which starts with the tokens of
/// the merged places together, the other places start as they did, and the transitions
/// consume and produce as `merged_at` says.
pub proof fn lemma_merged_net(net: NetView, places: Seq<PlaceId>)
    requires
        net.wf(),
        mergeable(net, places),
    ensures
        ({
            let r = merged(net, places).0;
            &&& r.places.len() == net.places.len() + 1
            &&& r.transitions.len() == net.transitions.len()
            &&& r.places[net.places.len() as int].initial == tokens(net, places, places.len())
            &&& forall|q: int|
                0 <= q < net.places.len() ==> (#[trigger] r.places[q]).initial
                    == net.places[q].initial
            &&& forall|u: TransitionId, q: PlaceId|
                net.valid_transition(u) && r.valid_place(q) ==> #[trigger] weight(
                    r.transitions[u.0 as int].consume,
                    q,
                ) == merged_at(net, places, net.transitions[u.0 as int].consume, q)
            &&& forall|u: TransitionId, q: PlaceId|
                net.valid_transition(u) && r.valid_place(q) ==> #[trigger] weight(
                    r.transitions[u.0 as int].produce,
                    q,
                ) == merged_at(net, places, net.transitions[u.0 as int].produce, q)
        }),
{
    let new_pl = PlaceId(net.places.len() as usize);
    let consumed = merged_consumed(net, places, places.len());
    let produced = merged_produced(net, places, places.len());
    lemma_merged_live(net, places, places.len());
    net.lemma_create_place();
    let n0 = net.create_place();
    assert(n0.can_connect(new_pl, consumed, produced));
    lemma_connect_weights(n0, new_pl, consumed, produced);
    let n1 = n0.connect(new_pl, consumed, produced);
    n1.lemma_set_initial(new_pl, tokens(net, places, places.len()) as usize);
    let n2 = n1.set_initial(new_pl, tokens(net, places, places.len()) as usize);
    assert forall|i: int| 0 <= i < places.len() implies n2.valid_place(#[trigger] places[i]) by {
        assert(net.valid_place(places[i]));
    }
    lemma_without_all(n2, places);
    lemma_without_all_frame(n2, places);
    let r = without_all(n2, places);
    assert(r == merged(net, places).0);
    assert(tokens(net, places, places.len()) <= usize::MAX) by {
        if places.len() > 0 {
        }
    }
    assert forall|q: int| 0 <= q < net.places.len() implies (#[trigger] r.places[q]).initial
        == net.places[q].initial by {
        assert(n0.places[q] == net.places[q]);
        assert(n1.places[q].initial == n0.places[q].initial);
        assert(r.places[q].initial == n2.places[q].initial);
    }
    assert(r.places[net.places.len() as int].initial == n2.places[net.places.len() as int].initial);
    assert(!places.contains(new_pl)) by {
        if places.contains(new_pl) {
            let i = choose|i: int| 0 <= i < places.len() && places[i] == new_pl;
            assert(net.valid_place(places[i]));
        }
    }
    assert forall|u: TransitionId, q: PlaceId|
        net.valid_transition(u) && r.valid_place(q) implies #[trigger] weight(
        r.transitions[u.0 as int].consume,
        q,
    ) == merged_at(net, places, net.transitions[u.0 as int].consume, q) by {
        lemma_without_all_weights(n2, places, u, q);
        lemma_merged_weight(net, places, places.len(), u);
        assert(n2.transitions[u.0 as int] == n1.transitions[u.0 as int]);
        assert(weight(n1.transitions[u.0 as int].consume, q) == (if q == new_pl {
            weight(consumed, u)
        } else {
            weight(n0.transitions[u.0 as int].consume, q)
        }));
    }
    assert forall|u: TransitionId, q: PlaceId|
        net.valid_transition(u) && r.valid_place(q) implies #[trigger] weight(
        r.transitions[u.0 as int].produce,
        q,
    ) == merged_at(net, places, net.transitions[u.0 as int].produce, q) by {
        lemma_without_all_weights(n2, places, u, q);
        lemma_merged_weight(net, places, places.len(), u);
        assert(n2.transitions[u.0 as int] == n1.transitions[u.0 as int]);
        assert(weight(n1.transitions[u.0 as int].produce, q) == (if q == new_pl {
            weight(produced, u)
        } else {
            weight(n0.transitions[u.0 as int].produce, q)
        }));
    }
}

/// Where each of the places holds what a transition consumes from it, they hold together
/// what it consumes from them together.
proof fn lemma_total_held(had: Seq<(PlaceId, usize)>, m: Tokens, places: Seq<PlaceId>, n: nat)
    requires
        n <= places.len(),
        forall|i: int| 0 <= i < places.len() ==> weight(had, #[trigger] places[i]) <= m[places[i]],
    ensures
        total(had, places, n) <= held(m, places, n),
    decreases n,
{
    if n > 0 {
        lemma_total_held(had, m, places, (n - 1) as nat);
        assert(weight(had, places[n - 1]) <= m[places[n - 1]]);
    }
}

/// What places hold together after a transition has fired is what they held, less what
/// it consumes from them together, and what it produces into them together.
proof fn lemma_held_fired(net: NetView, m: Tokens, u: TransitionId, places: Seq<PlaceId>, n: nat)
    requires
        n <= places.len(),
        forall|i: int| 0 <= i < places.len() ==> m.contains_key(#[trigger] places[i]),
    ensures
        held(fired(net, m, u), places, n) == held(m, places, n) - total(
            net.transitions[u.0 as int].consume,
            places,
            n,
        ) + total(net.transitions[u.0 as int].produce, places, n),
    decreases n,
{
    if n > 0 {
        lemma_held_fired(net, m, u, places, (n - 1) as nat);
        assert(m.contains_key(places[n - 1]));
    }
}

/// What places hold together at the start is what the merge gives the new place.
proof fn lemma_held_initial(net: NetView, places: Seq<PlaceId>, n: nat)
    requires
        n <= places.len(),
        forall|i: int| 0 <= i < places.len() ==> net.valid_place(#[trigger] places[i]),
    ensures
        held(initial_tokens(net), places, n) == tokens(net, places, n),
    decreases n,
{
    if n > 0 {
        lemma_held_initial(net, places, (n - 1) as nat);
        assert(net.valid_place(places[n - 1]));
    }
}

/// The sum of the places, each with the coefficient one, is what they hold together.
proof fn lemma_linear_held(places: Seq<PlaceId>, m: Tokens, n: nat)
    requires
        n <= places.len(),
        forall|i: int| 0 <= i < places.len() ==> m.contains_key(#[trigger] places[i]),
    ensures
        linear(each_once(places.take(n as int)), m) == held(m, places, n),
    decreases n,
{
    let terms = each_once(places.take(n as int));
    if n > 0 {
        lemma_linear_held(places, m, (n - 1) as nat);
        assert(terms.drop_last() =~= each_once(places.take(n - 1)));
        assert(terms.last() == (places[n - 1], 1isize));
        assert(m.contains_key(places[n - 1]));
    }
}

/// The merge of places is sound: whatever firing leads the net to a marking leads the
/// net that the merge leaves to a marking in which the new place holds what the merged
/// places hold together in the net, and every other place holds what it holds in the
/// net. So the record of the merge holds of the two markings.
pub proof fn lemma_merge_sound(net: NetView, places: Seq<PlaceId>, firing: Seq<TransitionId>)
    requires
        net.wf(),
        mergeable(net, places),
        reached(net, firing) is Some,
    ensures
        ({
            let r = merged(net, places).0;
            let new_pl = PlaceId(net.places.len() as usize);
            let m = reached(net, firing)->0;
            let n = reached(r, firing);
            &&& n is Some
            &&& n->0[new_pl] == held(m, places, places.len())
            &&& forall|q: PlaceId|
                net.valid_place(q) && places.contains(q) ==> #[trigger] n->0[q]
                    == net.places[q.0 as int].initial
            &&& forall|q: PlaceId|
                net.valid_place(q) && !places.contains(q) ==> #[trigger] n->0[q] == m[q]
            &&& record(places, new_pl).holds(m.insert(new_pl, n->0[new_pl]))
        }),
    decreases firing.len(),
{
    let r = merged(net, places).0;
    let new_pl = PlaceId(net.places.len() as usize);
    lemma_merged_net(net, places);
    lemma_reached_places(net, firing);
    if firing.len() == 0 {
        lemma_held_initial(net, places, places.len());
        assert forall|q: PlaceId| net.valid_place(q) implies #[trigger] initial_tokens(r)[q]
            == initial_tokens(net)[q] by {
            assert(r.places[q.0 as int].initial == net.places[q.0 as int].initial);
        }
    } else {
        let before = firing.drop_last();
        let u = firing.last();
        lemma_merge_sound(net, places, before);
        lemma_reached_places(net, before);
        lemma_reached_places(r, before);
        let m0 = reached(net, before)->0;
        let n0 = reached(r, before)->0;
        let took = net.transitions[u.0 as int].consume;
        let gave = net.transitions[u.0 as int].produce;
        assert forall|i: int| 0 <= i < places.len() implies m0.contains_key(#[trigger] places[i])
            && weight(took, places[i]) <= m0[places[i]] by {
            assert(net.valid_place(places[i]));
        }
        lemma_total_held(took, m0, places, places.len());
        lemma_held_fired(net, m0, u, places, places.len());
        assert forall|q: PlaceId| #[trigger] n0.contains_key(q) implies weight(
            r.transitions[u.0 as int].consume,
            q,
        ) <= n0[q] by {
            assert(weight(r.transitions[u.0 as int].consume, q) == merged_at(net, places, took, q));
            if q != new_pl {
                assert(m0.contains_key(q));
            }
        }
        assert(enabled(r, n0, u));
        let n1 = fired(r, n0, u);
        let m1 = fired(net, m0, u);
        assert(weight(r.transitions[u.0 as int].consume, new_pl) == merged_at(net, places, took, new_pl));
        assert(weight(r.transitions[u.0 as int].produce, new_pl) == merged_at(net, places, gave, new_pl));
        assert forall|q: PlaceId| net.valid_place(q) implies (if places.contains(q) {
            #[trigger] n1[q] == net.places[q.0 as int].initial
        } else {
            n1[q] == m1[q]
        }) by {
            assert(weight(r.transitions[u.0 as int].consume, q) == merged_at(net, places, took, q));
            assert(weight(r.transitions[u.0 as int].produce, q) == merged_at(net, places, gave, q));
            if !places.contains(q) {
                assert(n0[q] == m0[q]);
            }
        }
    }
    let m = reached(net, firing)->0;
    let n = reached(r, firing)->0;
    let both = m.insert(new_pl, n[new_pl]);
    assert forall|i: int| 0 <= i < places.len() implies both.contains_key(#[trigger] places[i])
        && m.contains_key(places[i]) && both[places[i]] == m[places[i]] by {
        assert(net.valid_place(places[i]));
    }
    lemma_linear_held(places, both, places.len());
    assert(places.take(places.len() as int) =~= places);
    lemma_same_held(m, both, places, places.len());
}

/// Two markings that give the places the same tokens give them the same together.
proof fn lemma_same_held(a: Tokens, b: Tokens, places: Seq<PlaceId>, n: nat)
    requires
        n <= places.len(),
        forall|i: int| 0 <= i < places.len() ==> a[#[trigger] places[i]] == b[places[i]],
    ensures
        held(a, places, n) == held(b, places, n),
    decreases n,
{
    if n > 0 {
        lemma_same_held(a, b, places, (n - 1) as nat);
        assert(a[places[n - 1]] == b[places[n - 1]]);
    }
}

} // verus!
