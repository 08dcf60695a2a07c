//! A reduction followed up where it created a place.
use vstd::prelude::*;
use std::collections::VecDeque;
use crate::modifications::{
    agglomerations, lemma_agglomerations_add, lemma_agglomerations_one, log_view, Modification,
    ModificationView,
};
use crate::reducers::reduce::{ConservativeReduce, PlaceReduce, Reduce, TransitionReduce};
use crate::reducers::standard::{ParallelPlaceReducer, ParallelTransitionReducer};
use crate::standard::net::{Net, NetView};

verus! {

/// Applies a reduction and then, for every agglomeration that comes out of it, tries a
/// follow-up reduction at the place that the agglomeration created; what the follow-up
/// records is followed up in turn.
pub struct SmartReducer<Red, PostPlace, PostTransition> {
    reducer: Red,
    post_place: PostPlace,
    _post_transition: PostTransition,
}

/// Where the follow-up stands: the net, the records that wait, and those that are done.
pub struct Progress {
    /// The net as it is.
    pub net: NetView,
    /// The records that wait to be followed up, the next one first.
    pub queue: Seq<ModificationView>,
    /// The records that went into the log.
    pub done: Seq<ModificationView>,
}

/// One step of the follow-up: the first record that waits goes into the log; if it is an
/// agglomeration, the follow-up reduction is tried at its new place, and what it records
/// waits behind the others.
pub open spec fn step<P: PlaceReduce>(post: &P, s: Progress) -> Progress {
    if s.queue.len() == 0 {
        s
    } else {
        let m = s.queue[0];
        let rest = s.queue.drop_first();
        match m {
            ModificationView::Agglomeration { new_place, .. } => {
                let o = post.place_outcome(s.net, new_place);
                Progress { net: o.0, queue: rest + o.1, done: s.done.push(m) }
            },
            _ => Progress { net: s.net, queue: rest, done: s.done.push(m) },
        }
    }
}

/// `k` steps of the follow-up.
pub open spec fn run<P: PlaceReduce>(post: &P, s: Progress, k: nat) -> Progress
    decreases k,
{
    if k == 0 {
        s
    } else {
        step(post, run(post, s, (k - 1) as nat))
    }
}

/// Once no record waits, further steps change nothing.
pub proof fn lemma_run_stable<P: PlaceReduce>(post: &P, s: Progress, a: nat, b: nat)
    requires
        a <= b,
        run(post, s, a).queue.len() == 0,
    ensures
        run(post, s, b) == run(post, s, a),
    decreases b,
{
    if a < b {
        lemma_run_stable(post, s, a, (b - 1) as nat);
    }
}

/// What the follow-up makes of the outcome `first` of a reduction: the state in which no
/// record waits any more.
pub open spec fn followed_up<P: PlaceReduce>(post: &P, first: (NetView, Seq<ModificationView>)) -> (
    NetView,
    Seq<ModificationView>,
) {
    let start = Progress { net: first.0, queue: first.1, done: Seq::empty() };
    let k = choose|k: nat| run(post, start, k).queue.len() == 0;
    (run(post, start, k).net, run(post, start, k).done)
}

/// Moves the records into a queue, in their order.
fn into_queue(records: Vec<Modification>) -> (queue: VecDeque<Modification>)
    ensures
        queue@ == records@,
{
    let mut records = records;
    let mut queue: VecDeque<Modification> = VecDeque::new();
    let ghost all = records@;
    while records.len() > 0
        invariant
            records@ + queue@ == all,
        decreases records@.len(),
    {
        let ghost before = records@;
        let ghost q = queue@;
        let m = records.pop().unwrap();
        queue.push_front(m);
        proof {
            assert(records@ + queue@ =~= before + q);
        }
    }
    proof {
        assert(records@ + queue@ =~= queue@);
    }
    queue
}

impl<Red, PostPlace, PostTransition> SmartReducer<Red, PostPlace, PostTransition> {
    /// The reduction that is applied first.
    pub closed spec fn reducer(&self) -> &Red {
        &self.reducer
    }

    /// The reduction that follows up at new places.
    pub closed spec fn post_place(&self) -> &PostPlace {
        &self.post_place
    }

    /// A reduction `reducer` that is followed up by `post_place` at every place that an
    /// agglomeration created.
    pub fn new(reducer: Red, post_place: PostPlace, post_transition: PostTransition) -> (r: Self)
        ensures
            *r.reducer() == reducer,
            *r.post_place() == post_place,
    {
        Self { reducer, post_place, _post_transition: post_transition }
    }
}

impl<Red> SmartReducer<Red, ParallelPlaceReducer, ParallelTransitionReducer> {
    /// A reduction `reducer` that is followed up by the removal of parallel places.
    pub fn new_parallel_smart_reducer(reducer: Red) -> (r: Self)
        ensures
            *r.reducer() == reducer,
    {
        Self::new(reducer, ParallelPlaceReducer::new(), ParallelTransitionReducer::new())
    }
}

impl<
    Red: ConservativeReduce,
    PostPlace: PlaceReduce + ConservativeReduce,
    PostTransition: TransitionReduce + ConservativeReduce,
> ConservativeReduce for SmartReducer<Red, PostPlace, PostTransition> {

}

impl<Red: Reduce, PostPlace: PlaceReduce, PostTransition: TransitionReduce> Reduce for SmartReducer<
    Red,
    PostPlace,
    PostTransition,
> {
    open spec fn outcome(&self, net: NetView) -> (NetView, Seq<ModificationView>) {
        followed_up(self.post_place(), self.reducer().outcome(net))
    }

    fn reduce(&self, net: &mut Net, modifications: &mut Vec<Modification>) {
        let ghost v = net@;
        let ghost log = log_view(modifications@);
        let ghost first = self.reducer.outcome(v);
        let mut emitted_first: Vec<Modification> = Vec::new();
        self.reducer.reduce(net, &mut emitted_first);
        let mut modifications_queue = into_queue(emitted_first);
        let ghost start = Progress { net: first.0, queue: first.1, done: Seq::empty() };
        let ghost mut k: nat = 0;
        let ghost mut done = Seq::<ModificationView>::empty();
        proof {
            assert(log_view(Seq::<Modification>::empty()) + first.1 =~= first.1);
            assert(log + done =~= log);
        }
        loop
            invariant
                net.wf(),
                run(&self.post_place, start, k) == (Progress {
                    net: net@,
                    queue: log_view(modifications_queue@),
                    done,
                }),
                log_view(modifications@) == log + done,
                v.places.len() <= net@.places.len(),
                agglomerations(done) + agglomerations(log_view(modifications_queue@))
                    <= net@.places.len() - v.places.len(),
                start == (Progress { net: first.0, queue: first.1, done: Seq::empty() }),
                first == self.reducer.outcome(v),
                v == old(net)@,
                log == log_view(old(modifications)@),
            decreases
                    usize::MAX - net@.places.len() + agglomerations(
                        log_view(modifications_queue@),
                    ),
                    modifications_queue@.len(),
        {
            let ghost queue = log_view(modifications_queue@);
            let ghost state = Progress { net: net@, queue, done };
            let ghost logged = log_view(modifications@);
            match modifications_queue.pop_front() {
                None => {
                    proof {
                        assert(queue.len() == 0);
                        assert(run(&self.post_place, start, k).queue.len() == 0);
                        let k2 = choose|k2: nat| run(&self.post_place, start, k2).queue.len() == 0;
                        if k2 <= k {
                            lemma_run_stable(&self.post_place, start, k2, k);
                        } else {
                            lemma_run_stable(&self.post_place, start, k, k2);
                        }
                    }
                    return ;
                },
                Some(modification) => {
                    let ghost m = modification@;
                    let ghost rest = log_view(modifications_queue@);
                    proof {
                        assert(queue.len() > 0);
                        assert(queue[0] == m);
                        assert(rest =~= queue.drop_first());
                        assert(queue =~= seq![m] + rest);
                        lemma_agglomerations_add(seq![m], rest);
                        lemma_agglomerations_one(m);
                        lemma_agglomerations_add(done, seq![m]);
                        assert(done + seq![m] =~= done.push(m));
                    }
                    match modification {
                        Modification::Agglomeration(agg) => {
                            let ghost before = net@;
                            let ghost o = self.post_place.place_outcome(before, agg.new_place);
                            let mut new_modifications: Vec<Modification> = Vec::new();
                            self.post_place.place_reduce(net, agg.new_place, &mut new_modifications);
                            modifications.push(Modification::Agglomeration(agg));
                            let mut more = into_queue(new_modifications);
                            modifications_queue.append(&mut more);
                            proof {
                                assert(log_view(Seq::<Modification>::empty()) + o.1 =~= o.1);
                                assert(log_view(modifications_queue@) =~= rest + o.1);
                                lemma_agglomerations_add(rest, o.1);
                                assert(log_view(modifications@) =~= logged.push(m));
                                done = done.push(m);
                                assert(log_view(modifications@) =~= log + done);
                                k = k + 1;
                            }
                        },
                        other => {
                            modifications.push(other);
                            proof {
                                assert(log_view(modifications@) =~= logged.push(m));
                                done = done.push(m);
                                assert(log_view(modifications@) =~= log + done);
                                k = k + 1;
                            }
                        },
                    }
                },
            }
        }
    }
}

} // verus!
