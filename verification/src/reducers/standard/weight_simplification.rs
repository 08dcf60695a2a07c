//! Places whose tokens only move in blocks of the size of the initial marking.
use vstd::prelude::*;
use crate::ids::PlaceId;
use crate::marking::unit_entries;
use crate::modifications::{
    lemma_agglomerations_one, log_view, Agglomeration, Modification, ModificationView,
};
use crate::reducers::reduce::{
    reduce_all_places, sweep_places, ConservativeReduce, PlaceReduce, Reduce,
};
use crate::standard::net::{Net, NetView};

verus! {

/// Replaces a place that starts with `k > 1` tokens and whose arcs all have the weight `k`
/// by a place that starts with one token and whose arcs have the weight one.
pub struct WeightSimplification;

impl WeightSimplification {
    /// The reduction of weights.
    pub fn new() -> Self {
        Self {  }
    }

    /// The rule applies at `pl`: the place is in the net and was not removed, it starts
    /// with more than one token, every arc at it has that many as its weight, and there
    /// is room for one more place and for the number in a record.
    pub open spec fn applies(net: NetView, pl: PlaceId) -> bool {
        let place = net.places[pl.0 as int];
        &&& net.valid_place(pl)
        &&& !place.deleted
        &&& place.initial > 1
        &&& forall|i: int|
            0 <= i < place.produced_by.len() ==> (#[trigger] place.produced_by[i]).1
                == place.initial
        &&& forall|i: int|
            0 <= i < place.consumed_by.len() ==> (#[trigger] place.consumed_by[i]).1
                == place.initial
        &&& place.initial <= isize::MAX
        &&& net.places.len() < usize::MAX
    }

    /// The record of the step: `initial` times the new place is the old place.
    pub open spec fn record(pl: PlaceId, new_pl: PlaceId, initial: usize) -> ModificationView {
        ModificationView::Agglomeration {
            new_place: new_pl,
            factor: initial as isize,
            deleted_places: seq![(pl, 1isize)],
            constant: 0,
        }
    }

    /// The net after the step: a new place with one token takes the arcs of `pl` with
    /// the weight one, and `pl` is removed.
    pub open spec fn rewritten(net: NetView, pl: PlaceId) -> NetView {
        let place = net.places[pl.0 as int];
        let new_pl = PlaceId(net.places.len() as usize);
        net.create_place().set_initial(new_pl, 1).connect(
            new_pl,
            unit_entries(place.consumed_by),
            unit_entries(place.produced_by),
        ).delete_place(pl)
    }
}

impl ConservativeReduce for WeightSimplification {

}

impl Reduce for WeightSimplification {
    open spec fn outcome(&self, net: NetView) -> (NetView, Seq<ModificationView>) {
        sweep_places(self, net, net.places.len())
    }

    fn reduce(&self, net: &mut Net, modifications: &mut Vec<Modification>) {
        reduce_all_places(self, net, modifications);
    }
}

impl PlaceReduce for WeightSimplification {
    open spec fn place_outcome(&self, net: NetView, pl: PlaceId) -> (
        NetView,
        Seq<ModificationView>,
    ) {
        if Self::applies(net, pl) {
            (
                Self::rewritten(net, pl),
                seq![
                    Self::record(
                        pl,
                        PlaceId(net.places.len() as usize),
                        net.places[pl.0 as int].initial,
                    ),
                ],
            )
        } else {
            (net, Seq::empty())
        }
    }

    fn place_reduce(&self, net: &mut Net, pl: PlaceId, modifications: &mut Vec<Modification>) {
        let ghost log = log_view(modifications@);
        let ghost v = net@;
        proof {
            assert(log + Seq::<ModificationView>::empty() =~= log);
        }
        if pl.0 >= net.places.len() || net.places.len() == usize::MAX {
            return ;
        }
        proof {
            assert(v.place_wf(pl.0 as int));
        }
        let place = &net.places[pl.0];
        let initial = place.initial;
        if !place.deleted && initial > 1 && initial <= isize::MAX as usize
            && place.produced_by.all_weights_are(initial) && place.consumed_by.all_weights_are(
            initial,
        ) {
            let consumed = place.consumed_by.unit_entries();
            let produced = place.produced_by.unit_entries();
            let new_pl = net.create_place();
            net.set_initial(new_pl, 1);
            proof {
                v.lemma_place_arcs_live(pl.0 as int);
                v.lemma_create_place();
                let c = net@;
                assert(c.can_connect(new_pl, consumed@, produced@)) by {
                    assert forall|i: int, j: int| 0 <= i < j < consumed@.len() implies (
                    #[trigger] consumed@[i]).0.0 < (#[trigger] consumed@[j]).0.0 by {
                        assert(v.places[pl.0 as int].consumed_by[i].0.0
                            < v.places[pl.0 as int].consumed_by[j].0.0);
                    }
                    assert forall|i: int, j: int| 0 <= i < j < produced@.len() implies (
                    #[trigger] produced@[i]).0.0 < (#[trigger] produced@[j]).0.0 by {
                        assert(v.places[pl.0 as int].produced_by[i].0.0
                            < v.places[pl.0 as int].produced_by[j].0.0);
                    }
                    assert forall|j: int| 0 <= j < consumed@.len() implies c.valid_transition(
                        (#[trigger] consumed@[j]).0,
                    ) && !c.transitions[consumed@[j].0.0 as int].deleted by {
                        assert(consumed@[j].0 == v.places[pl.0 as int].consumed_by[j].0);
                    }
                    assert forall|j: int| 0 <= j < produced@.len() implies c.valid_transition(
                        (#[trigger] produced@[j]).0,
                    ) && !c.transitions[produced@[j].0.0 as int].deleted by {
                        assert(produced@[j].0 == v.places[pl.0 as int].produced_by[j].0);
                    }
                }
            }
            net.connect(new_pl, &consumed, &produced);
            net.delete_place(pl);
            let record = Modification::Agglomeration(
                Agglomeration {
                    deleted_places: vec![(pl, 1)],
                    new_place: new_pl,
                    constant: 0,
                    factor: initial as isize,
                },
            );
            proof {
                assert(record@->Agglomeration_deleted_places =~= seq![(pl, 1isize)]);
            }
            modifications.push(record);
            proof {
                assert(log_view(modifications@) =~= log + seq![Self::record(pl, new_pl, initial)]);
                lemma_agglomerations_one(Self::record(pl, new_pl, initial));
            }
        }
    }
}

} // verus!
