//! Places whose marking never changes.
use vstd::prelude::*;
use crate::ids::PlaceId;
use crate::marking::weight;
use crate::modifications::{log_view, Modification, ModificationView, Reduction};
use crate::reducers::reduce::{
    reduce_all_places, sweep_places, ConservativeReduce, PlaceReduce, Reduce,
};
use crate::standard::net::{Net, NetView};

verus! {

/// Removes the places to which every transition gives back what it takes: their marking
/// stays what it was at the start.
pub struct IdentityPlaceReducer;

impl IdentityPlaceReducer {
    /// The reduction of identity places.
    pub fn new() -> Self {
        Self {  }
    }

    /// The rule applies at `pl`: the place is in the net and was not removed, every
    /// transition produces into it as much as it consumes from it, and its tokens can be
    /// written into a record.
    pub open spec fn applies(net: NetView, pl: PlaceId) -> bool {
        &&& net.valid_place(pl)
        &&& !net.places[pl.0 as int].deleted
        &&& forall|t: crate::ids::TransitionId|
            weight(net.places[pl.0 as int].produced_by, t) == weight(
                net.places[pl.0 as int].consumed_by,
                t,
            )
        &&& net.places[pl.0 as int].initial <= isize::MAX
    }

    /// The record of the removal of `pl`: the place equals the constant `initial`.
    pub open spec fn record(pl: PlaceId, initial: usize) -> ModificationView {
        ModificationView::Reduction {
            equals_to: Seq::empty(),
            constant: initial as isize,
            deleted_places: seq![(pl, 1isize)],
        }
    }
}

impl ConservativeReduce for IdentityPlaceReducer {

}

impl Reduce for IdentityPlaceReducer {
    open spec fn outcome(&self, net: NetView) -> (NetView, Seq<ModificationView>) {
        sweep_places(self, net, net.places.len())
    }

    fn reduce(&self, net: &mut Net, modifications: &mut Vec<Modification>) {
        reduce_all_places(self, net, modifications);
    }
}

impl PlaceReduce for IdentityPlaceReducer {
    open spec fn place_outcome(&self, net: NetView, pl: PlaceId) -> (
        NetView,
        Seq<ModificationView>,
    ) {
        if Self::applies(net, pl) {
            (net.delete_place(pl), seq![Self::record(pl, net.places[pl.0 as int].initial)])
        } else {
            (net, Seq::empty())
        }
    }

    fn place_reduce(&self, net: &mut Net, pl: PlaceId, modifications: &mut Vec<Modification>) {
        let ghost log = log_view(modifications@);
        proof {
            assert(log + Seq::<ModificationView>::empty() =~= log);
        }
        if pl.0 >= net.places.len() {
            return ;
        }
        proof {
            assert(net@.place_wf(pl.0 as int));
        }
        let place = &net.places[pl.0];
        if !place.deleted && place.initial <= isize::MAX as usize && place.produced_by.same_weights(
            &place.consumed_by,
        ) {
            let initial = place.initial;
            let record = Modification::Reduction(
                Reduction {
                    deleted_places: vec![(pl, 1)],
                    equals_to: Vec::new(),
                    constant: initial as isize,
                },
            );
            proof {
                assert(record@ == Self::record(pl, initial)) by {
                    assert(record@->Reduction_deleted_places =~= seq![(pl, 1isize)]);
                    assert(record@->Reduction_equals_to =~= Seq::empty());
                }
            }
            modifications.push(record);
            net.delete_place(pl);
            proof {
                let emitted = seq![Self::record(pl, initial)];
                assert(log_view(modifications@) =~= log + emitted);
                crate::modifications::lemma_agglomerations_one(Self::record(pl, initial));
            }
        }
    }
}

} // verus!
