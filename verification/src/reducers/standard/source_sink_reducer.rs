//! Places that only feed one transition which produces nothing.
use vstd::prelude::*;
use crate::ids::PlaceId;
use crate::modifications::{
    lemma_agglomerations_one, log_view, InequalityReduction, Modification, ModificationView,
};
use crate::reducers::reduce::{
    reduce_all_places, sweep_places, ConservativeReduce, PlaceReduce, Reduce,
};
use crate::standard::net::{Net, NetView};

verus! {

/// Removes the places that no transition produces into and that one transition alone
/// consumes from, where that transition produces nothing.
pub struct SourceSinkReducer;

/// A source–sink place: it is in the net and was not removed, nothing produces into it,
/// one transition consumes from it, that transition produces nothing, and the tokens of
/// the place can be written into a record.
pub open spec fn is_source_sink(net: NetView, pl: PlaceId) -> bool {
    &&& net.valid_place(pl)
    &&& !net.places[pl.0 as int].deleted
    &&& net.places[pl.0 as int].produced_by.len() == 0
    &&& net.places[pl.0 as int].consumed_by.len() == 1
    &&& net.valid_transition(net.places[pl.0 as int].consumed_by[0].0)
    &&& net.transitions[net.places[pl.0 as int].consumed_by[0].0.0 as int].produce.len() == 0
    &&& net.places[pl.0 as int].initial <= isize::MAX
}

/// The record of the removal of a source–sink place: it holds at most `initial` tokens.
pub open spec fn source_sink_record(pl: PlaceId, initial: usize) -> ModificationView {
    ModificationView::InequalityReduction {
        kept_places: Seq::empty(),
        constant: initial as isize,
        deleted_places: seq![(pl, 1isize)],
    }
}

/// What the removal of the source–sink place `pl` makes of the net.
pub open spec fn source_sink_outcome(net: NetView, pl: PlaceId) -> (
    NetView,
    Seq<ModificationView>,
) {
    if is_source_sink(net, pl) {
        (net.delete_place(pl), seq![source_sink_record(pl, net.places[pl.0 as int].initial)])
    } else {
        (net, Seq::empty())
    }
}

/// Removes the place `pl` if it is a source–sink place, and records it.
pub fn remove_source_sink(net: &mut Net, pl: PlaceId, modifications: &mut Vec<Modification>)
    requires
        old(net).wf(),
    ensures
        final(net).wf(),
        final(net)@ == source_sink_outcome(old(net)@, pl).0,
        log_view(final(modifications)@) == log_view(old(modifications)@) + source_sink_outcome(
            old(net)@,
            pl,
        ).1,
        crate::reducers::reduce::grows(old(net)@, final(net)@, source_sink_outcome(old(net)@, pl).1),
{
    let ghost log = log_view(modifications@);
    proof {
        assert(log + Seq::<ModificationView>::empty() =~= log);
    }
    if pl.0 >= net.places.len() {
        return ;
    }
    proof {
        assert(net@.place_wf(pl.0 as int));
    }
    let place = &net.places[pl.0];
    if !place.deleted && place.produced_by.is_empty() && place.consumed_by.len() == 1
        && place.initial <= isize::MAX as usize {
        let tr = place.consumed_by.entry(0).0;
        let initial = place.initial;
        if net.transitions[tr.0].produce.is_empty() {
            net.delete_place(pl);
            let record = Modification::InequalityReduction(
                InequalityReduction {
                    deleted_places: vec![(pl, 1)],
                    kept_places: Vec::new(),
                    constant: initial as isize,
                },
            );
            proof {
                assert(record@->InequalityReduction_deleted_places =~= seq![(pl, 1isize)]);
                assert(record@->InequalityReduction_kept_places =~= Seq::empty());
            }
            modifications.push(record);
            proof {
                assert(log_view(modifications@) =~= log + seq![source_sink_record(pl, initial)]);
                lemma_agglomerations_one(source_sink_record(pl, initial));
            }
        }
    }
}

impl SourceSinkReducer {
    /// The reduction of source–sink places.
    pub fn new() -> Self {
        Self {  }
    }
}

impl ConservativeReduce for SourceSinkReducer {

}

impl Reduce for SourceSinkReducer {
    open spec fn outcome(&self, net: NetView) -> (NetView, Seq<ModificationView>) {
        sweep_places(self, net, net.places.len())
    }

    fn reduce(&self, net: &mut Net, modifications: &mut Vec<Modification>) {
        reduce_all_places(self, net, modifications);
    }
}

impl PlaceReduce for SourceSinkReducer {
    open spec fn place_outcome(&self, net: NetView, pl: PlaceId) -> (
        NetView,
        Seq<ModificationView>,
    ) {
        source_sink_outcome(net, pl)
    }

    fn place_reduce(&self, net: &mut Net, pl: PlaceId, modifications: &mut Vec<Modification>) {
        remove_source_sink(net, pl, modifications);
    }
}

} // verus!
