//! One reduction after another.
use vstd::prelude::*;
use crate::ids::{PlaceId, TransitionId};
use crate::modifications::{lemma_agglomerations_add, log_view, Modification, ModificationView};
use crate::reducers::reduce::{ConservativeReduce, PlaceReduce, Reduce, TransitionReduce};
use crate::standard::net::{Net, NetView};

verus! {

/// Applies a first reduction and then a second one.
pub struct ChainReducer<First, Second> {
    first: First,
    second: Second,
}

/// The outcome of two steps, one after the other: the net of the second step, and the
/// records of both.
pub open spec fn then(
    first: (NetView, Seq<ModificationView>),
    second: (NetView, Seq<ModificationView>),
) -> (NetView, Seq<ModificationView>) {
    (second.0, first.1 + second.1)
}

impl<First, Second> ChainReducer<First, Second> {
    /// The first reduction of the chain.
    pub closed spec fn first(&self) -> &First {
        &self.first
    }

    /// The second reduction of the chain.
    pub closed spec fn second(&self) -> &Second {
        &self.second
    }

    /// The chain of two reductions.
    pub fn new2(first: First, second: Second) -> (chain: ChainReducer<First, Second>)
        ensures
            *chain.first() == first,
            *chain.second() == second,
    {
        ChainReducer { first, second }
    }
}

impl<First, Second, Third> ChainReducer<First, ChainReducer<Second, Third>> {
    /// The chain of three reductions.
    pub fn new3(first: First, second: Second, third: Third) -> (chain: Self)
        ensures
            *chain.first() == first,
            *chain.second().first() == second,
            *chain.second().second() == third,
    {
        ChainReducer::new2(first, ChainReducer::new2(second, third))
    }
}

impl<First, Second, Third, Fourth> ChainReducer<
    First,
    ChainReducer<Second, ChainReducer<Third, Fourth>>,
> {
    /// The chain of four reductions.
    pub fn new4(first: First, second: Second, third: Third, fourth: Fourth) -> (chain: Self)
        ensures
            *chain.first() == first,
            *chain.second().first() == second,
            *chain.second().second().first() == third,
            *chain.second().second().second() == fourth,
    {
        ChainReducer::new2(first, ChainReducer::new3(second, third, fourth))
    }
}

impl<First, Second, Third, Fourth, Fifth> ChainReducer<
    First,
    ChainReducer<Second, ChainReducer<Third, ChainReducer<Fourth, Fifth>>>,
> {
    /// The chain of five reductions.
    pub fn new5(first: First, second: Second, third: Third, fourth: Fourth, fifth: Fifth) -> (chain:
        Self)
        ensures
            *chain.first() == first,
            *chain.second().first() == second,
            *chain.second().second().first() == third,
            *chain.second().second().second().first() == fourth,
            *chain.second().second().second().second() == fifth,
    {
        ChainReducer::new2(first, ChainReducer::new4(second, third, fourth, fifth))
    }
}

impl<First, Second, Third, Fourth, Fifth, Sixth> ChainReducer<
    First,
    ChainReducer<Second, ChainReducer<Third, ChainReducer<Fourth, ChainReducer<Fifth, Sixth>>>>,
> {
    /// The chain of six reductions.
    pub fn new6(
        first: First,
        second: Second,
        third: Third,
        fourth: Fourth,
        fifth: Fifth,
        sixth: Sixth,
    ) -> (chain: Self)
        ensures
            *chain.first() == first,
            *chain.second().first() == second,
            *chain.second().second().first() == third,
            *chain.second().second().second().first() == fourth,
            *chain.second().second().second().second().first() == fifth,
            *chain.second().second().second().second().second() == sixth,
    {
        ChainReducer::new2(first, ChainReducer::new5(second, third, fourth, fifth, sixth))
    }
}

impl<First: Reduce, Second: Reduce> Reduce for ChainReducer<First, Second> {
    open spec fn outcome(&self, net: NetView) -> (NetView, Seq<ModificationView>) {
        let a = self.first().outcome(net);
        then(a, self.second().outcome(a.0))
    }

    fn reduce(&self, net: &mut Net, modifications: &mut Vec<Modification>) {
        let ghost log = log_view(modifications@);
        let ghost a = self.first.outcome(net@);
        self.first.reduce(net, modifications);
        let ghost b = self.second.outcome(net@);
        self.second.reduce(net, modifications);
        proof {
            assert(log + a.1 + b.1 =~= log + (a.1 + b.1));
            lemma_agglomerations_add(a.1, b.1);
        }
    }
}

impl<First: ConservativeReduce, Second: ConservativeReduce> ConservativeReduce for ChainReducer<
    First,
    Second,
> {

}

impl<First: PlaceReduce, Second: PlaceReduce> PlaceReduce for ChainReducer<First, Second> {
    open spec fn place_outcome(&self, net: NetView, pl: PlaceId) -> (
        NetView,
        Seq<ModificationView>,
    ) {
        let a = self.first().place_outcome(net, pl);
        then(a, self.second().place_outcome(a.0, pl))
    }

    fn place_reduce(&self, net: &mut Net, pl: PlaceId, modifications: &mut Vec<Modification>) {
        let ghost log = log_view(modifications@);
        let ghost a = self.first.place_outcome(net@, pl);
        self.first.place_reduce(net, pl, modifications);
        let ghost b = self.second.place_outcome(net@, pl);
        self.second.place_reduce(net, pl, modifications);
        proof {
            assert(log + a.1 + b.1 =~= log + (a.1 + b.1));
            lemma_agglomerations_add(a.1, b.1);
        }
    }
}

impl<First: TransitionReduce, Second: TransitionReduce> TransitionReduce for ChainReducer<
    First,
    Second,
> {
    open spec fn transition_outcome(&self, net: NetView, tr: TransitionId) -> (
        NetView,
        Seq<ModificationView>,
    ) {
        let a = self.first().transition_outcome(net, tr);
        then(a, self.second().transition_outcome(a.0, tr))
    }

    fn transition_reduce(
        &self,
        net: &mut Net,
        tr: TransitionId,
        modifications: &mut Vec<Modification>,
    ) {
        let ghost log = log_view(modifications@);
        let ghost a = self.first.transition_outcome(net@, tr);
        self.first.transition_reduce(net, tr, modifications);
        let ghost b = self.second.transition_outcome(net@, tr);
        self.second.transition_reduce(net, tr, modifications);
        proof {
            assert(log + a.1 + b.1 =~= log + (a.1 + b.1));
            lemma_agglomerations_add(a.1, b.1);
        }
    }
}

} // verus!
