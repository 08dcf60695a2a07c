//! A reduction applied again and again.
use vstd::prelude::*;
use crate::modifications::{lemma_agglomerations_add, log_view, Modification, ModificationView};
use crate::reducers::reduce::{grows, ConservativeReduce, Reduce};
use crate::standard::net::{Net, NetView};

verus! {

/// Applies a reduction as long as it appends to the log, up to a number of rounds.
pub struct LoopReducer<Red> {
    reducer: Red,
    max_iter: u64,
}

/// What `rounds` rounds of `r` make of a net: round after round, until one appends
/// nothing or the rounds are used up.
pub open spec fn rounds_of<R: Reduce>(r: &R, net: NetView, rounds: nat) -> (
    NetView,
    Seq<ModificationView>,
)
    decreases rounds,
{
    if rounds == 0 {
        (net, Seq::empty())
    } else {
        let step = r.outcome(net);
        if step.1.len() == 0 {
            step
        } else {
            let rest = rounds_of(r, step.0, (rounds - 1) as nat);
            (rest.0, step.1 + rest.1)
        }
    }
}

/// Within `rounds` rounds of `r` there is one that appends nothing.
pub open spec fn settles<R: Reduce>(r: &R, net: NetView, rounds: nat) -> bool
    decreases rounds,
{
    rounds > 0 && (r.outcome(net).1.len() == 0 || settles(r, r.outcome(net).0, (rounds - 1) as nat))
}

/// Once a round has appended nothing the loop is over: more rounds than it took to get
/// there change neither the net nor the log.
pub proof fn lemma_rounds_settled<R: Reduce>(r: &R, net: NetView, rounds: nat, more: nat)
    requires
        settles(r, net, rounds),
        rounds <= more,
    ensures
        rounds_of(r, net, more) == rounds_of(r, net, rounds),
    decreases rounds,
{
    let step = r.outcome(net);
    if step.1.len() != 0 {
        lemma_rounds_settled(r, step.0, (rounds - 1) as nat, (more - 1) as nat);
    }
}

/// What settles within some rounds settles within more.
pub proof fn lemma_settles_within_more<R: Reduce>(r: &R, net: NetView, rounds: nat, more: nat)
    requires
        settles(r, net, rounds),
        rounds <= more,
    ensures
        settles(r, net, more),
    decreases rounds,
{
    if r.outcome(net).1.len() != 0 {
        lemma_settles_within_more(r, r.outcome(net).0, (rounds - 1) as nat, (more - 1) as nat);
    }
}

/// The loop comes to an end by itself where the reduction cannot go on for ever: if some
/// measure of the net, such as the number of its nodes that were not removed, gets
/// smaller with every round that appends to the log, on the nets that the rounds can
/// lead to, then a round that appends nothing comes within as many rounds as the measure
/// of the net, and one more.
pub proof fn lemma_loop_settles<R: Reduce>(
    r: &R,
    net: NetView,
    kept: spec_fn(NetView) -> bool,
    measure: spec_fn(NetView) -> nat,
)
    requires
        kept(net),
        forall|n: NetView| #[trigger] kept(n) ==> kept(r.outcome(n).0),
        forall|n: NetView| #[trigger]
            kept(n) && r.outcome(n).1.len() != 0 ==> measure(r.outcome(n).0) < measure(n),
    ensures
        settles(r, net, measure(net) + 1),
    decreases measure(net),
{
    if r.outcome(net).1.len() != 0 {
        let next = r.outcome(net).0;
        assert(kept(next));
        lemma_loop_settles(r, next, kept, measure);
        lemma_settles_within_more(r, next, measure(next) + 1, measure(net));
    }
}

impl<Red> LoopReducer<Red> {
    /// The reduction that is repeated.
    pub closed spec fn reducer(&self) -> &Red {
        &self.reducer
    }

    /// The most rounds that are made.
    pub closed spec fn max_iter(&self) -> u64 {
        self.max_iter
    }

    /// Repeats `reducer` until a round appends nothing to the log, for `max_iter` rounds
    /// at most.
    pub fn new(reducer: Red, max_iter: u64) -> (r: Self)
        ensures
            *r.reducer() == reducer,
            r.max_iter() == max_iter,
    {
        Self { reducer, max_iter }
    }
}

impl<Red: ConservativeReduce> ConservativeReduce for LoopReducer<Red> {

}

impl<Red: Reduce> Reduce for LoopReducer<Red> {
    open spec fn outcome(&self, net: NetView) -> (NetView, Seq<ModificationView>) {
        rounds_of(self.reducer(), net, self.max_iter() as nat)
    }

    fn reduce(&self, net: &mut Net, modifications: &mut Vec<Modification>) {
        let ghost v = net@;
        let ghost log = log_view(modifications@);
        let ghost mut emitted = Seq::<ModificationView>::empty();
        let mut iter = self.max_iter;
        proof {
            assert(log + emitted =~= log);
        }
        while iter > 0
            invariant
                net.wf(),
                log_view(modifications@) == log + emitted,
                grows(v, net@, emitted),
                rounds_of(&self.reducer, v, self.max_iter as nat) == (
                    rounds_of(&self.reducer, net@, iter as nat).0,
                    emitted + rounds_of(&self.reducer, net@, iter as nat).1,
                ),
            decreases iter,
        {
            iter -= 1;
            let count_before = modifications.len();
            let ghost before = net@;
            let ghost step = self.reducer.outcome(before);
            self.reducer.reduce(net, modifications);
            proof {
                assert(log + emitted + step.1 =~= log + (emitted + step.1));
                lemma_agglomerations_add(emitted, step.1);
                assert(log_view(modifications@).len() == modifications@.len());
                assert((log + emitted).len() == count_before);
                if step.1.len() != 0 {
                    let rest = rounds_of(&self.reducer, step.0, iter as nat);
                    assert(emitted + (step.1 + rest.1) =~= emitted + step.1 + rest.1);
                }
                emitted = emitted + step.1;
            }
            if modifications.len() == count_before {
                proof {
                    assert(step.1.len() == 0);
                    assert(rounds_of(&self.reducer, net@, 0).1 =~= Seq::<ModificationView>::empty());
                    assert(emitted + Seq::<ModificationView>::empty() =~= emitted);
                }
                iter = 0;
            }
        }
        proof {
            assert(emitted + Seq::<ModificationView>::empty() =~= emitted);
        }
    }
}

} // verus!
