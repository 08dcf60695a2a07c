//! The reduction that does nothing.
use vstd::prelude::*;
use crate::ids::{PlaceId, TransitionId};
use crate::modifications::{Modification, ModificationView};
use crate::reducers::reduce::{ConservativeReduce, PlaceReduce, Reduce, TransitionReduce};
use crate::standard::net::{Net, NetView};

verus! {

/// The reduction that leaves the net as it is; it stands where a reduction is asked for
/// and none is wanted.
pub struct IdentityReducer {}

impl IdentityReducer {
    /// The reduction that does nothing.
    pub fn new() -> Self {
        Self {  }
    }
}

impl Reduce for IdentityReducer {
    open spec fn outcome(&self, net: NetView) -> (NetView, Seq<ModificationView>) {
        (net, Seq::empty())
    }

    fn reduce(&self, net: &mut Net, modifications: &mut Vec<Modification>) {
        assert(crate::modifications::log_view(modifications@) + Seq::<ModificationView>::empty()
            =~= crate::modifications::log_view(modifications@));
    }
}

impl ConservativeReduce for IdentityReducer {

}

impl PlaceReduce for IdentityReducer {
    open spec fn place_outcome(&self, net: NetView, pl: PlaceId) -> (
        NetView,
        Seq<ModificationView>,
    ) {
        (net, Seq::empty())
    }

    fn place_reduce(&self, net: &mut Net, pl: PlaceId, modifications: &mut Vec<Modification>) {
        assert(crate::modifications::log_view(modifications@) + Seq::<ModificationView>::empty()
            =~= crate::modifications::log_view(modifications@));
    }
}

impl TransitionReduce for IdentityReducer {
    open spec fn transition_outcome(&self, net: NetView, tr: TransitionId) -> (
        NetView,
        Seq<ModificationView>,
    ) {
        (net, Seq::empty())
    }

    fn transition_reduce(
        &self,
        net: &mut Net,
        tr: TransitionId,
        modifications: &mut Vec<Modification>,
    ) {
        assert(crate::modifications::log_view(modifications@) + Seq::<ModificationView>::empty()
            =~= crate::modifications::log_view(modifications@));
    }
}

} // verus!
