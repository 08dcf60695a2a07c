//! The source–sink rule under its other name.
use vstd::prelude::*;
use crate::ids::PlaceId;
use crate::modifications::{Modification, ModificationView};
use crate::reducers::reduce::{
    reduce_all_places, sweep_places, ConservativeReduce, PlaceReduce, Reduce,
};
use crate::reducers::standard::source_sink_reducer::{remove_source_sink, source_sink_outcome};
use crate::standard::net::{Net, NetView};

verus! {

/// Removes the places that no transition produces into and that one transition alone
/// consumes from, where that transition produces nothing.
pub struct R7Reducer;

impl R7Reducer {
    /// The reduction.
    pub fn new() -> Self {
        Self {  }
    }
}

impl ConservativeReduce for R7Reducer {

}

impl Reduce for R7Reducer {
    open spec fn outcome(&self, net: NetView) -> (NetView, Seq<ModificationView>) {
        sweep_places(self, net, net.places.len())
    }

    fn reduce(&self, net: &mut Net, modifications: &mut Vec<Modification>) {
        reduce_all_places(self, net, modifications);
    }
}

impl PlaceReduce for R7Reducer {
    open spec fn place_outcome(&self, net: NetView, pl: PlaceId) -> (
        NetView,
        Seq<ModificationView>,
    ) {
        source_sink_outcome(net, pl)
    }

    fn place_reduce(&self, net: &mut Net, pl: PlaceId, modifications: &mut Vec<Modification>) {
        remove_source_sink(net, pl, modifications);
    }
}

} // verus!
