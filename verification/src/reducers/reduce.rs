//! What a reduction is.
//!
//! A reduction rewrites a net and appends to a log the records of what it did. What it
//! makes of a net is a function of the net alone: its outcome, the rewritten net and the
//! records that it appends.
use vstd::prelude::*;
use crate::ids::{PlaceId, TransitionId};
use crate::modifications::{agglomerations, log_view, Modification, ModificationView};
use crate::standard::net::{Net, NetView};

verus! {

/// The rewritten net does not have fewer places than the net before, and the records
/// hold at most one agglomeration for each place that was created.
pub open spec fn grows(before: NetView, after: NetView, emitted: Seq<ModificationView>) -> bool {
    &&& before.places.len() <= after.places.len()
    &&& agglomerations(emitted) <= after.places.len() - before.places.len()
}

/// A reduction that is applied to the whole net.
pub trait Reduce {
    /// What the reduction makes of `net`: the rewritten net, and the records it appends.
    spec fn outcome(&self, net: NetView) -> (NetView, Seq<ModificationView>);

    /// Applies the reduction to the net and appends what it did to the log.
    fn reduce(&self, net: &mut Net, modifications: &mut Vec<Modification>)
        requires
            old(net).wf(),
        ensures
            final(net).wf(),
            final(net)@ == self.outcome(old(net)@).0,
            log_view(final(modifications)@) == log_view(old(modifications)@) + self.outcome(
                old(net)@,
            ).1,
            grows(old(net)@, final(net)@, self.outcome(old(net)@).1),
    ;
}

/// Marks a reduction as one that keeps the number of markings: the equations that it
/// records are meant to have as many solutions as the net before has markings. Nothing
/// here states that of an implementation; the mark is a promise of its author.
pub trait ConservativeReduce: Reduce {

}

/// A reduction that can be tried at one place.
pub trait PlaceReduce {
    /// What the reduction makes of `net` when it is tried at `pl`.
    spec fn place_outcome(&self, net: NetView, pl: PlaceId) -> (NetView, Seq<ModificationView>);

    /// Tries the reduction at the place `pl`; a place that is not in the net is left alone.
    fn place_reduce(&self, net: &mut Net, pl: PlaceId, modifications: &mut Vec<Modification>)
        requires
            old(net).wf(),
        ensures
            final(net).wf(),
            final(net)@ == self.place_outcome(old(net)@, pl).0,
            log_view(final(modifications)@) == log_view(old(modifications)@) + self.place_outcome(
                old(net)@,
                pl,
            ).1,
            grows(old(net)@, final(net)@, self.place_outcome(old(net)@, pl).1),
    ;
}

/// A reduction that can be tried at one transition.
pub trait TransitionReduce {
    /// What the reduction makes of `net` when it is tried at `tr`.
    spec fn transition_outcome(&self, net: NetView, tr: TransitionId) -> (
        NetView,
        Seq<ModificationView>,
    );

    /// Tries the reduction at the transition `tr`; a transition that is not in the net is
    /// left alone.
    fn transition_reduce(
        &self,
        net: &mut Net,
        tr: TransitionId,
        modifications: &mut Vec<Modification>,
    )
        requires
            old(net).wf(),
        ensures
            final(net).wf(),
            final(net)@ == self.transition_outcome(old(net)@, tr).0,
            log_view(final(modifications)@) == log_view(old(modifications)@)
                + self.transition_outcome(old(net)@, tr).1,
            grows(old(net)@, final(net)@, self.transition_outcome(old(net)@, tr).1),
    ;
}

/// What a reduction makes of a net when it is tried at the first `n` places, one after
/// the other in increasing order.
pub open spec fn sweep_places<R: PlaceReduce>(r: &R, net: NetView, n: nat) -> (
    NetView,
    Seq<ModificationView>,
)
    decreases n,
{
    if n == 0 {
        (net, Seq::empty())
    } else {
        let before = sweep_places(r, net, (n - 1) as nat);
        let step = r.place_outcome(before.0, PlaceId((n - 1) as usize));
        (step.0, before.1 + step.1)
    }
}

/// What a reduction makes of a net when it is tried at the first `n` transitions, one
/// after the other in increasing order.
pub open spec fn sweep_transitions<R: TransitionReduce>(r: &R, net: NetView, n: nat) -> (
    NetView,
    Seq<ModificationView>,
)
    decreases n,
{
    if n == 0 {
        (net, Seq::empty())
    } else {
        let before = sweep_transitions(r, net, (n - 1) as nat);
        let step = r.transition_outcome(before.0, TransitionId((n - 1) as usize));
        (step.0, before.1 + step.1)
    }
}

/// Tries a reduction at every place that the net has when the sweep starts.
pub fn reduce_all_places<R: PlaceReduce>(
    r: &R,
    net: &mut Net,
    modifications: &mut Vec<Modification>,
)
    requires
        old(net).wf(),
    ensures
        final(net).wf(),
        final(net)@ == sweep_places(r, old(net)@, old(net)@.places.len()).0,
        log_view(final(modifications)@) == log_view(old(modifications)@) + sweep_places(
            r,
            old(net)@,
            old(net)@.places.len(),
        ).1,
        grows(old(net)@, final(net)@, sweep_places(r, old(net)@, old(net)@.places.len()).1),
{
    let n = net.places.len();
    let ghost v = net@;
    let ghost log = log_view(modifications@);
    let mut i: usize = 0;
    proof {
        assert(log + Seq::<ModificationView>::empty() =~= log);
    }
    while i < n
        invariant
            i <= n,
            n == v.places.len(),
            net.wf(),
            net@ == sweep_places(r, v, i as nat).0,
            log_view(modifications@) == log + sweep_places(r, v, i as nat).1,
            grows(v, net@, sweep_places(r, v, i as nat).1),
        decreases n - i,
    {
        let ghost before = net@;
        let ghost emitted = sweep_places(r, v, i as nat).1;
        r.place_reduce(net, PlaceId(i), modifications);
        proof {
            let step = r.place_outcome(before, PlaceId(i));
            assert(log + emitted + step.1 =~= log + (emitted + step.1));
            crate::modifications::lemma_agglomerations_add(emitted, step.1);
        }
        i += 1;
    }
}

/// Tries a reduction at every transition that the net has when the sweep starts.
pub fn reduce_all_transitions<R: TransitionReduce>(
    r: &R,
    net: &mut Net,
    modifications: &mut Vec<Modification>,
)
    requires
        old(net).wf(),
    ensures
        final(net).wf(),
        final(net)@ == sweep_transitions(r, old(net)@, old(net)@.transitions.len()).0,
        log_view(final(modifications)@) == log_view(old(modifications)@) + sweep_transitions(
            r,
            old(net)@,
            old(net)@.transitions.len(),
        ).1,
        grows(
            old(net)@,
            final(net)@,
            sweep_transitions(r, old(net)@, old(net)@.transitions.len()).1,
        ),
{
    let n = net.transitions.len();
    let ghost v = net@;
    let ghost log = log_view(modifications@);
    let mut i: usize = 0;
    proof {
        assert(log + Seq::<ModificationView>::empty() =~= log);
    }
    while i < n
        invariant
            i <= n,
            n == v.transitions.len(),
            net.wf(),
            net@ == sweep_transitions(r, v, i as nat).0,
            log_view(modifications@) == log + sweep_transitions(r, v, i as nat).1,
            grows(v, net@, sweep_transitions(r, v, i as nat).1),
        decreases n - i,
    {
        let ghost before = net@;
        let ghost emitted = sweep_transitions(r, v, i as nat).1;
        r.transition_reduce(net, TransitionId(i), modifications);
        proof {
            let step = r.transition_outcome(before, TransitionId(i));
            assert(log + emitted + step.1 =~= log + (emitted + step.1));
            crate::modifications::lemma_agglomerations_add(emitted, step.1);
        }
        i += 1;
    }
}

} // verus!
