//! Transitions whose firing changes nothing.
use vstd::prelude::*;
use crate::ids::{PlaceId, TransitionId};
use crate::marking::weight;
use crate::modifications::{
    lemma_agglomerations_one, log_view, Modification, ModificationView, TransitionElimination,
};
use crate::reducers::reduce::{
    reduce_all_transitions, sweep_transitions, ConservativeReduce, Reduce, TransitionReduce,
};
use crate::standard::net::{Net, NetView};

verus! {

/// Removes the transitions that give back to every place what they take from it.
pub struct IdentityTransitionReducer;

impl IdentityTransitionReducer {
    /// The reduction of identity transitions.
    pub fn new() -> Self {
        Self {  }
    }

    /// The rule applies at `tr`: the transition is in the net, has an arc, and produces
    /// into every place as much as it consumes from it.
    pub open spec fn applies(net: NetView, tr: TransitionId) -> bool {
        &&& net.valid_transition(tr)
        &&& !net.transitions[tr.0 as int].is_disconnected()
        &&& forall|p: PlaceId|
            weight(net.transitions[tr.0 as int].produce, p) == weight(
                net.transitions[tr.0 as int].consume,
                p,
            )
    }

    /// The record of the removal of the transition `tr`.
    pub open spec fn record(tr: TransitionId) -> ModificationView {
        ModificationView::TransitionElimination { deleted_transitions: seq![tr] }
    }
}

impl ConservativeReduce for IdentityTransitionReducer {

}

impl Reduce for IdentityTransitionReducer {
    open spec fn outcome(&self, net: NetView) -> (NetView, Seq<ModificationView>) {
        sweep_transitions(self, net, net.transitions.len())
    }

    fn reduce(&self, net: &mut Net, modifications: &mut Vec<Modification>) {
        reduce_all_transitions(self, net, modifications);
    }
}

impl TransitionReduce for IdentityTransitionReducer {
    open spec fn transition_outcome(&self, net: NetView, tr: TransitionId) -> (
        NetView,
        Seq<ModificationView>,
    ) {
        if Self::applies(net, tr) {
            (net.delete_transition(tr), seq![Self::record(tr)])
        } else {
            (net, Seq::empty())
        }
    }

    fn transition_reduce(
        &self,
        net: &mut Net,
        tr: TransitionId,
        modifications: &mut Vec<Modification>,
    ) {
        let ghost log = log_view(modifications@);
        proof {
            assert(log + Seq::<ModificationView>::empty() =~= log);
        }
        if tr.0 >= net.transitions.len() {
            return ;
        }
        proof {
            assert(net@.transition_wf(tr.0 as int));
        }
        let transition = &net.transitions[tr.0];
        if !transition.is_disconnected() && transition.produce.same_weights(&transition.consume) {
            let record = Modification::TransitionElimination(
                TransitionElimination { deleted_transitions: vec![tr] },
            );
            proof {
                assert(record@->TransitionElimination_deleted_transitions =~= seq![tr]);
            }
            modifications.push(record);
            net.delete_transition(tr);
            proof {
                assert(log_view(modifications@) =~= log + seq![Self::record(tr)]);
                lemma_agglomerations_one(Self::record(tr));
            }
        }
    }
}

} // verus!
