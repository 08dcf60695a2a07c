//! Transitions that have the same arcs as another transition.
use vstd::prelude::*;
use crate::ids::{TransitionId, PlaceId};
use crate::marking::weight;
use crate::modifications::{log_view, Modification, ModificationView, TransitionElimination};
use crate::reducers::reduce::{
    grows, reduce_all_transitions, sweep_transitions, ConservativeReduce, TransitionReduce,
    Reduce,
};
use crate::standard::net::{Net, NetView};

verus! {

/// Removes the transitions that have the same arcs, with the same weights, as another
/// transition.
pub struct ParallelTransitionReducer;

/// The record of the removal of the transition `removed`.
pub open spec fn record(kept: TransitionId, removed: TransitionId) -> ModificationView {
    ModificationView::TransitionElimination { deleted_transitions: seq![removed] }
}

/// Builds the record of the removal of the transition `removed`.
fn make_record(kept: TransitionId, removed: TransitionId) -> (m: Modification)
    ensures
        m@ == record(kept, removed),
{
    let m = Modification::TransitionElimination(
        TransitionElimination { deleted_transitions: vec![removed] },
    );
    proof {
        assert(m@->TransitionElimination_deleted_transitions =~= seq![removed]);
    }
    m
}

/// The keys of the first `n` entries of `s`.
pub open spec fn keys(s: Seq<(TransitionId, usize)>, n: nat) -> Seq<TransitionId>
    decreases n,
{
    if n == 0 {
        Seq::empty()
    } else {
        keys(s, (n - 1) as nat).push(s[n - 1].0)
    }
}

/// The transitions that produce into the first `n` places that `tr` produces into, place
/// after place.
pub open spec fn produced_alongside(net: NetView, tr: TransitionId, n: nat) -> Seq<TransitionId>
    decreases n,
{
    if n == 0 {
        Seq::empty()
    } else {
        let pl = net.transitions[tr.0 as int].produce[n - 1].0;
        produced_alongside(net, tr, (n - 1) as nat) + keys(
            net.places[pl.0 as int].produced_by,
            net.places[pl.0 as int].produced_by.len(),
        )
    }
}

/// The transitions that consume from the first `n` places that `tr` consumes from, place
/// after place.
pub open spec fn consumed_alongside(net: NetView, tr: TransitionId, n: nat) -> Seq<TransitionId>
    decreases n,
{
    if n == 0 {
        Seq::empty()
    } else {
        let pl = net.transitions[tr.0 as int].consume[n - 1].0;
        consumed_alongside(net, tr, (n - 1) as nat) + keys(
            net.places[pl.0 as int].consumed_by,
            net.places[pl.0 as int].consumed_by.len(),
        )
    }
}

/// The transitions that share a place with `tr` on the same side: the producers of the
/// places it produces into, then the consumers of the places it consumes from.
pub open spec fn neighbours(net: NetView, tr: TransitionId) -> Seq<TransitionId> {
    produced_alongside(net, tr, net.transitions[tr.0 as int].produce.len()) + consumed_alongside(
        net,
        tr,
        net.transitions[tr.0 as int].consume.len(),
    )
}

/// `a` and `b` are two transitions with the same arcs: as many places on either side,
/// and for every place the same weights.
pub open spec fn parallel(net: NetView, a: TransitionId, b: TransitionId) -> bool {
    let x = net.transitions[a.0 as int];
    let y = net.transitions[b.0 as int];
    &&& a != b
    &&& x.consume.len() == y.consume.len()
    &&& x.produce.len() == y.produce.len()
    &&& forall|t: PlaceId| weight(x.produce, t) == weight(y.produce, t)
    &&& forall|t: PlaceId| weight(x.consume, t) == weight(y.consume, t)
}

/// Those of `candidates` that are parallel to `tr`, each once, in the order in which
/// they come first.
pub open spec fn chosen(net: NetView, tr: TransitionId, candidates: Seq<TransitionId>) -> Seq<TransitionId>
    decreases candidates.len(),
{
    if candidates.len() == 0 {
        Seq::empty()
    } else {
        let before = chosen(net, tr, candidates.drop_last());
        let c = candidates.last();
        if parallel(net, tr, c) && !before.contains(c) {
            before.push(c)
        } else {
            before
        }
    }
}

/// The net without the transitions `all`, removed one after the other.
pub open spec fn without_all(net: NetView, all: Seq<TransitionId>) -> NetView
    decreases all.len(),
{
    if all.len() == 0 {
        net
    } else {
        without_all(net, all.drop_last()).delete_transition(all.last())
    }
}

/// The records of the removal of the transitions `all`.
pub open spec fn records(kept: TransitionId, all: Seq<TransitionId>) -> Seq<ModificationView> {
    Seq::new(all.len(), |i: int| record(kept, all[i]))
}

/// Whether `x` is among `v`.
fn contains(v: &Vec<TransitionId>, x: TransitionId) -> (b: bool)
    ensures
        b == v@.contains(x),
{
    let mut i: usize = 0;
    while i < v.len()
        invariant
            i <= v@.len(),
            forall|j: int| 0 <= j < i ==> v@[j] != x,
        decreases v@.len() - i,
    {
        if v[i] == x {
            return true;
        }
        i += 1;
    }
    false
}

/// Whether `a` and `b` are parallel.
fn is_parallel(net: &Net, a: TransitionId, b: TransitionId) -> (r: bool)
    requires
        net.wf(),
        net@.valid_transition(a),
        net@.valid_transition(b),
    ensures
        r == parallel(net@, a, b),
{
    proof {
        assert(net@.transition_wf(a.0 as int));
        assert(net@.transition_wf(b.0 as int));
    }
    let x = &net.transitions[a.0];
    let y = &net.transitions[b.0];
    a != b && x.consume.len() == y.consume.len() && x.produce.len()
        == y.produce.len() && x.produce.same_weights(&y.produce)
        && x.consume.same_weights(&y.consume)
}

/// The transitions that share a place with `tr` on the same side.
fn collect_neighbours(net: &Net, tr: TransitionId) -> (found: Vec<TransitionId>)
    requires
        net.wf(),
        net@.valid_transition(tr),
    ensures
        found@ == neighbours(net@, tr),
        forall|i: int| 0 <= i < found@.len() ==> net@.valid_transition(#[trigger] found@[i]),
{
    let ghost v = net@;
    proof {
        v.lemma_transition_arcs_live(tr.0 as int);
    }
    let mut found: Vec<TransitionId> = Vec::new();
    let transition = &net.transitions[tr.0];
    let n = transition.produce.len();
    let mut i: usize = 0;
    while i < n
        invariant
            i <= n,
            v == net@,
            v.wf(),
            v.valid_transition(tr),
            n == v.transitions[tr.0 as int].produce.len(),
            transition@ == v.transitions[tr.0 as int],
            found@ == produced_alongside(v, tr, i as nat),
            forall|j: int| 0 <= j < found@.len() ==> v.valid_transition(#[trigger] found@[j]),
            forall|j: int|
                0 <= j < v.transitions[tr.0 as int].produce.len() ==> v.valid_place(
                    (#[trigger] v.transitions[tr.0 as int].produce[j]).0,
                ),
        decreases n - i,
    {
        let pl = transition.produce.entry(i).0;
        assert(v.valid_place(v.transitions[tr.0 as int].produce[i as int].0));
        let other = &net.places[pl.0];
        let m = other.produced_by.len();
        let ghost start = found@;
        proof {
            v.lemma_place_arcs_live(pl.0 as int);
        }
        let mut k: usize = 0;
        while k < m
            invariant
                k <= m,
                v.wf(),
                m == v.places[pl.0 as int].produced_by.len(),
                other@ == v.places[pl.0 as int],
                found@ == start + keys(v.places[pl.0 as int].produced_by, k as nat),
                forall|j: int| 0 <= j < found@.len() ==> v.valid_transition(#[trigger] found@[j]),
                forall|j: int|
                    0 <= j < v.places[pl.0 as int].produced_by.len() ==> v.valid_transition(
                        (#[trigger] v.places[pl.0 as int].produced_by[j]).0,
                    ),
            decreases m - k,
        {
            let e = other.produced_by.entry(k);
            assert(v.valid_transition(v.places[pl.0 as int].produced_by[k as int].0));
            found.push(e.0);
            proof {
                assert(found@ =~= start + keys(v.places[pl.0 as int].produced_by, (k + 1) as nat));
            }
            k += 1;
        }
        i += 1;
    }
    let ghost first = found@;
    let n2 = transition.consume.len();
    let mut i2: usize = 0;
    proof {
        assert(first + consumed_alongside(v, tr, 0) =~= first);
    }
    while i2 < n2
        invariant
            i2 <= n2,
            v == net@,
            v.wf(),
            v.valid_transition(tr),
            n2 == v.transitions[tr.0 as int].consume.len(),
            transition@ == v.transitions[tr.0 as int],
            found@ == first + consumed_alongside(v, tr, i2 as nat),
            forall|j: int| 0 <= j < found@.len() ==> v.valid_transition(#[trigger] found@[j]),
            forall|j: int|
                0 <= j < v.transitions[tr.0 as int].consume.len() ==> v.valid_place(
                    (#[trigger] v.transitions[tr.0 as int].consume[j]).0,
                ),
        decreases n2 - i2,
    {
        let pl = transition.consume.entry(i2).0;
        assert(v.valid_place(v.transitions[tr.0 as int].consume[i2 as int].0));
        let other = &net.places[pl.0];
        let m = other.consumed_by.len();
        let ghost start = found@;
        proof {
            v.lemma_place_arcs_live(pl.0 as int);
        }
        let mut k: usize = 0;
        while k < m
            invariant
                k <= m,
                v.wf(),
                m == v.places[pl.0 as int].consumed_by.len(),
                other@ == v.places[pl.0 as int],
                found@ == start + keys(v.places[pl.0 as int].consumed_by, k as nat),
                forall|j: int| 0 <= j < found@.len() ==> v.valid_transition(#[trigger] found@[j]),
                forall|j: int|
                    0 <= j < v.places[pl.0 as int].consumed_by.len() ==> v.valid_transition(
                        (#[trigger] v.places[pl.0 as int].consumed_by[j]).0,
                    ),
            decreases m - k,
        {
            let e = other.consumed_by.entry(k);
            assert(v.valid_transition(v.places[pl.0 as int].consumed_by[k as int].0));
            found.push(e.0);
            proof {
                assert(found@ =~= start + keys(v.places[pl.0 as int].consumed_by, (k + 1) as nat));
            }
            k += 1;
        }
        proof {
            let step = keys(
                v.places[pl.0 as int].consumed_by,
                v.places[pl.0 as int].consumed_by.len(),
            );
            assert(first + consumed_alongside(v, tr, i2 as nat) + step =~= first + (
            consumed_alongside(v, tr, i2 as nat) + step));
        }
        i2 += 1;
    }
    found
}

/// What the rule makes of the net at `tr`.
pub open spec fn parallel_outcome(net: NetView, tr: TransitionId) -> (NetView, Seq<ModificationView>) {
    if net.valid_transition(tr) && !net.transitions[tr.0 as int].deleted {
        let all = chosen(net, tr, neighbours(net, tr));
        (without_all(net, all), records(tr, all))
    } else {
        (net, Seq::empty())
    }
}

/// Removing nodes of the net one after the other leaves it well formed, with as many nodes.
pub proof fn lemma_without_all(net: NetView, all: Seq<TransitionId>)
    requires
        net.wf(),
        forall|i: int| 0 <= i < all.len() ==> net.valid_transition(#[trigger] all[i]),
    ensures
        without_all(net, all).wf(),
        without_all(net, all).transitions.len() == net.transitions.len(),
        without_all(net, all).places.len() == net.places.len(),
    decreases all.len(),
{
    if all.len() > 0 {
        lemma_without_all(net, all.drop_last());
        without_all(net, all.drop_last()).lemma_delete_transition(all.last());
    }
}

/// Records of removals hold no agglomeration.
pub proof fn lemma_records(kept: TransitionId, all: Seq<TransitionId>)
    ensures
        crate::modifications::agglomerations(records(kept, all)) == 0,
    decreases all.len(),
{
    if all.len() > 0 {
        lemma_records(kept, all.drop_last());
        assert(records(kept, all).drop_last() =~= records(kept, all.drop_last()));
    }
}

/// Removes the transitions that are parallel to `tr` and share a place with it.
pub fn remove_parallel(net: &mut Net, tr: TransitionId, modifications: &mut Vec<Modification>)
    requires
        old(net).wf(),
    ensures
        final(net).wf(),
        final(net)@ == parallel_outcome(old(net)@, tr).0,
        log_view(final(modifications)@) == log_view(old(modifications)@) + parallel_outcome(
            old(net)@,
            tr,
        ).1,
        grows(old(net)@, final(net)@, parallel_outcome(old(net)@, tr).1),
{
    let ghost log = log_view(modifications@);
    let ghost v = net@;
    proof {
        assert(log + Seq::<ModificationView>::empty() =~= log);
    }
    if tr.0 >= net.transitions.len() {
        return ;
    }
    if net.transitions[tr.0].deleted {
        return ;
    }
    let candidates = collect_neighbours(net, tr);
    let mut to_delete: Vec<TransitionId> = Vec::new();
    let mut i: usize = 0;
    proof {
        assert(candidates@.take(0) =~= Seq::<TransitionId>::empty());
        assert(log + records(tr, Seq::<TransitionId>::empty()) =~= log);
    }
    while i < candidates.len()
        invariant
            i <= candidates@.len(),
            net@ == v,
            v.wf(),
            v.valid_transition(tr),
            forall|j: int| 0 <= j < candidates@.len() ==> v.valid_transition(#[trigger] candidates@[j]),
            to_delete@ == chosen(v, tr, candidates@.take(i as int)),
            forall|j: int| 0 <= j < to_delete@.len() ==> v.valid_transition(#[trigger] to_delete@[j]),
            log_view(modifications@) == log + records(tr, to_delete@),
        decreases candidates@.len() - i,
    {
        let c = candidates[i];
        proof {
            assert(candidates@.take(i + 1).drop_last() =~= candidates@.take(i as int));
            assert(candidates@.take(i + 1).last() == c);
            assert(v.valid_transition(candidates@[i as int]));
        }
        if is_parallel(net, tr, c) && !contains(&to_delete, c) {
            let ghost before = to_delete@;
            let ghost logged = log_view(modifications@);
            modifications.push(make_record(tr, c));
            to_delete.push(c);
            proof {
                assert(records(tr, to_delete@) =~= records(tr, before).push(record(tr, c)));
                assert(log_view(modifications@) =~= logged.push(record(tr, c)));
                assert(log_view(modifications@) =~= log + records(tr, to_delete@));
            }
        }
        i += 1;
    }
    proof {
        assert(candidates@.take(candidates@.len() as int) =~= candidates@);
        lemma_records(tr, to_delete@);
        lemma_without_all(v, to_delete@);
        assert(to_delete@.take(0) =~= Seq::<TransitionId>::empty());
    }
    let mut k: usize = 0;
    while k < to_delete.len()
        invariant
            k <= to_delete@.len(),
            v.wf(),
            net.wf(),
            forall|j: int| 0 <= j < to_delete@.len() ==> v.valid_transition(#[trigger] to_delete@[j]),
            net@ == without_all(v, to_delete@.take(k as int)),
            net@.transitions.len() == v.transitions.len(),
        decreases to_delete@.len() - k,
    {
        proof {
            assert(to_delete@.take(k + 1).drop_last() =~= to_delete@.take(k as int));
            assert(to_delete@.take(k + 1).last() == to_delete@[k as int]);
            assert(v.valid_transition(to_delete@[k as int]));
        }
        net.delete_transition(to_delete[k]);
        k += 1;
    }
    proof {
        assert(to_delete@.take(to_delete@.len() as int) =~= to_delete@);
    }
}

impl ParallelTransitionReducer {
    /// The reduction of parallel transitions.
    pub fn new() -> Self {
        Self {  }
    }
}

impl ConservativeReduce for ParallelTransitionReducer {

}

impl Reduce for ParallelTransitionReducer {
    open spec fn outcome(&self, net: NetView) -> (NetView, Seq<ModificationView>) {
        sweep_transitions(self, net, net.transitions.len())
    }

    fn reduce(&self, net: &mut Net, modifications: &mut Vec<Modification>) {
        reduce_all_transitions(self, net, modifications);
    }
}

impl TransitionReduce for ParallelTransitionReducer {
    open spec fn transition_outcome(&self, net: NetView, tr: TransitionId) -> (
        NetView,
        Seq<ModificationView>,
    ) {
        parallel_outcome(net, tr)
    }

    fn transition_reduce(&self, net: &mut Net, tr: TransitionId, modifications: &mut Vec<Modification>) {
        remove_parallel(net, tr, modifications);
    }
}

} // verus!
