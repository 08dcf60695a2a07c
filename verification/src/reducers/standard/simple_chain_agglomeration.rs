//! Chains of two places with one transition between them.
use vstd::prelude::*;
use crate::ids::{PlaceId, TransitionId};
use crate::marking::{add_into, fits};
use crate::modifications::{
    lemma_agglomerations_one, log_view, Agglomeration, Modification, ModificationView,
};
use crate::reducers::reduce::{
    reduce_all_transitions, sweep_transitions, ConservativeReduce, Reduce, TransitionReduce,
};
use crate::standard::net::{Net, NetView};

verus! {

/// Merges the two places of a simple chain `source -> transition -> destination` into
/// one new place.
pub struct SimpleChainReducer;

impl SimpleChainReducer {
    /// The reduction of simple chains.
    pub fn new() -> Self {
        Self {  }
    }

    /// The place the transition of the chain consumes from.
    pub open spec fn source(net: NetView, tr: TransitionId) -> PlaceId {
        net.transitions[tr.0 as int].consume[0].0
    }

    /// The place the transition of the chain produces into.
    pub open spec fn destination(net: NetView, tr: TransitionId) -> PlaceId {
        net.transitions[tr.0 as int].produce[0].0
    }

    /// The rule applies at `tr`: the transition was not removed, it consumes one token
    /// from one place and produces one token into one place, nothing else produces into
    /// that place, which starts empty and was not removed, the weights of the arcs of the
    /// two places can be added up, and there is room for one more place.
    pub open spec fn applies(net: NetView, tr: TransitionId) -> bool {
        let t = net.transitions[tr.0 as int];
        let src = net.places[Self::source(net, tr).0 as int];
        let dst = net.places[Self::destination(net, tr).0 as int];
        &&& net.valid_transition(tr)
        &&& !t.deleted
        &&& t.produce.len() == 1
        &&& t.consume.len() == 1
        &&& t.produce[0].1 == 1
        &&& t.consume[0].1 == 1
        &&& !dst.deleted
        &&& dst.produced_by.len() == 1
        &&& dst.initial == 0
        &&& fits(src.consumed_by, dst.consumed_by)
        &&& fits(src.produced_by, dst.produced_by)
        &&& net.places.len() < usize::MAX
    }

    /// The record of the step: the new place holds the tokens of both places.
    pub open spec fn record(source: PlaceId, destination: PlaceId, new_pl: PlaceId) -> ModificationView {
        ModificationView::Agglomeration {
            new_place: new_pl,
            factor: 1,
            deleted_places: seq![(source, 1isize), (destination, 1isize)],
            constant: 0,
        }
    }

    /// The net after the step: a new place has the arcs of both places and the tokens
    /// of the source, and the two places and the transition are removed.
    pub open spec fn rewritten(net: NetView, tr: TransitionId) -> NetView {
        let source = Self::source(net, tr);
        let destination = Self::destination(net, tr);
        let src = net.places[source.0 as int];
        let dst = net.places[destination.0 as int];
        let new_pl = PlaceId(net.places.len() as usize);
        net.create_place().connect(
            new_pl,
            add_into(src.consumed_by, dst.consumed_by),
            add_into(src.produced_by, dst.produced_by),
        ).set_initial(new_pl, src.initial).delete_place(destination).delete_place(
            source,
        ).delete_transition(tr)
    }
}

impl ConservativeReduce for SimpleChainReducer {

}

impl Reduce for SimpleChainReducer {
    open spec fn outcome(&self, net: NetView) -> (NetView, Seq<ModificationView>) {
        sweep_transitions(self, net, net.transitions.len())
    }

    fn reduce(&self, net: &mut Net, modifications: &mut Vec<Modification>) {
        reduce_all_transitions(self, net, modifications);
    }
}

impl TransitionReduce for SimpleChainReducer {
    open spec fn transition_outcome(&self, net: NetView, tr: TransitionId) -> (
        NetView,
        Seq<ModificationView>,
    ) {
        if Self::applies(net, tr) {
            (
                Self::rewritten(net, tr),
                seq![
                    Self::record(
                        Self::source(net, tr),
                        Self::destination(net, tr),
                        PlaceId(net.places.len() as usize),
                    ),
                ],
            )
        } else {
            (net, Seq::empty())
        }
    }

    fn transition_reduce(
        &self,
        net: &mut Net,
        tr: TransitionId,
        modifications: &mut Vec<Modification>,
    ) {
        let ghost log = log_view(modifications@);
        let ghost v = net@;
        proof {
            assert(log + Seq::<ModificationView>::empty() =~= log);
        }
        if tr.0 >= net.transitions.len() || net.places.len() == usize::MAX {
            return ;
        }
        proof {
            assert(v.transition_wf(tr.0 as int));
        }
        let t = &net.transitions[tr.0];
        if t.deleted || t.produce.len() != 1 || t.consume.len() != 1 {
            return ;
        }
        let (pl_dest, w_out) = t.produce.entry(0);
        let (pl_source, w_in) = t.consume.entry(0);
        proof {
            v.lemma_transition_arcs_live(tr.0 as int);
            assert(v.valid_place(v.transitions[tr.0 as int].produce[0].0));
            assert(v.valid_place(v.transitions[tr.0 as int].consume[0].0));
            assert(v.place_wf(pl_dest.0 as int));
            assert(v.place_wf(pl_source.0 as int));
        }
        let dest = &net.places[pl_dest.0];
        let source = &net.places[pl_source.0];
        if w_out != 1 || w_in != 1 || dest.deleted || dest.produced_by.len() != 1 || dest.initial
            != 0 {
            return ;
        }
        let consumed = match source.consumed_by.sum(&dest.consumed_by) {
            Some(m) => m.to_vec(),
            None => {
                return ;
            },
        };
        let produced = match source.produced_by.sum(&dest.produced_by) {
            Some(m) => m.to_vec(),
            None => {
                return ;
            },
        };
        let initial = source.initial;
        proof {
            v.lemma_merged_arcs_live(pl_source.0 as int, pl_dest.0 as int);
            v.lemma_create_place();
        }
        let new_pl = net.create_place();
        net.connect(new_pl, &consumed, &produced);
        net.set_initial(new_pl, initial);
        net.delete_place(pl_dest);
        net.delete_place(pl_source);
        net.delete_transition(tr);
        let record = Modification::Agglomeration(
            Agglomeration {
                deleted_places: vec![(pl_source, 1), (pl_dest, 1)],
                new_place: new_pl,
                constant: 0,
                factor: 1,
            },
        );
        proof {
            assert(record@->Agglomeration_deleted_places =~= seq![
                (pl_source, 1isize),
                (pl_dest, 1isize),
            ]);
        }
        modifications.push(record);
        proof {
            assert(log_view(modifications@) =~= log + seq![
                Self::record(pl_source, pl_dest, new_pl),
            ]);
            lemma_agglomerations_one(Self::record(pl_source, pl_dest, new_pl));
        }
    }
}

} // verus!
