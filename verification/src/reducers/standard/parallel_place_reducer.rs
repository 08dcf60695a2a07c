//! Places that have the same arcs as another place.
use vstd::prelude::*;
use crate::ids::{PlaceId, TransitionId};
use crate::marking::weight;
use crate::modifications::{log_view, Modification, ModificationView, Reduction};
use crate::reducers::reduce::{
    grows, reduce_all_places, sweep_places, ConservativeReduce, PlaceReduce, Reduce,
};
use crate::standard::net::{Net, NetView};

verus! {

/// Removes the places that have the same arcs, with the same weights, as another place.
pub struct ParallelPlaceReducer;

/// The record of the removal of `removed`, which stays equal to `kept`.
pub open spec fn record(kept: PlaceId, removed: PlaceId) -> ModificationView {
    ModificationView::Reduction {
        equals_to: seq![(kept, 1isize)],
        constant: 0,
        deleted_places: seq![(removed, 1isize)],
    }
}

/// Builds the record of the removal of `removed`, which stays equal to `kept`.
fn make_record(kept: PlaceId, removed: PlaceId) -> (m: Modification)
    ensures
        m@ == record(kept, removed),
{
    let m = Modification::Reduction(
        Reduction { deleted_places: vec![(removed, 1)], equals_to: vec![(kept, 1)], constant: 0 },
    );
    proof {
        assert(m@->Reduction_deleted_places =~= seq![(removed, 1isize)]);
        assert(m@->Reduction_equals_to =~= seq![(kept, 1isize)]);
    }
    m
}

/// The keys of the first `n` entries of `s`.
pub open spec fn keys(s: Seq<(PlaceId, usize)>, n: nat) -> Seq<PlaceId>
    decreases n,
{
    if n == 0 {
        Seq::empty()
    } else {
        keys(s, (n - 1) as nat).push(s[n - 1].0)
    }
}

/// The places that the first `n` producers of `pl` produce into, producer after producer.
pub open spec fn produced_alongside(net: NetView, pl: PlaceId, n: nat) -> Seq<PlaceId>
    decreases n,
{
    if n == 0 {
        Seq::empty()
    } else {
        let tr = net.places[pl.0 as int].produced_by[n - 1].0;
        produced_alongside(net, pl, (n - 1) as nat) + keys(
            net.transitions[tr.0 as int].produce,
            net.transitions[tr.0 as int].produce.len(),
        )
    }
}

/// The places that the first `n` consumers of `pl` consume from, consumer after consumer.
pub open spec fn consumed_alongside(net: NetView, pl: PlaceId, n: nat) -> Seq<PlaceId>
    decreases n,
{
    if n == 0 {
        Seq::empty()
    } else {
        let tr = net.places[pl.0 as int].consumed_by[n - 1].0;
        consumed_alongside(net, pl, (n - 1) as nat) + keys(
            net.transitions[tr.0 as int].consume,
            net.transitions[tr.0 as int].consume.len(),
        )
    }
}

/// The places that share a producer or a consumer with `pl`: those its producers produce
/// into, then those its consumers consume from.
pub open spec fn neighbours(net: NetView, pl: PlaceId) -> Seq<PlaceId> {
    produced_alongside(net, pl, net.places[pl.0 as int].produced_by.len()) + consumed_alongside(
        net,
        pl,
        net.places[pl.0 as int].consumed_by.len(),
    )
}

/// `a` and `b` are two places with the same arcs: as many producers and consumers, and
/// for every transition the same weights.
pub open spec fn parallel(net: NetView, a: PlaceId, b: PlaceId) -> bool {
    let x = net.places[a.0 as int];
    let y = net.places[b.0 as int];
    &&& a != b
    &&& x.consumed_by.len() == y.consumed_by.len()
    &&& x.produced_by.len() == y.produced_by.len()
    &&& forall|t: TransitionId| weight(x.produced_by, t) == weight(y.produced_by, t)
    &&& forall|t: TransitionId| weight(x.consumed_by, t) == weight(y.consumed_by, t)
}

/// Those of `candidates` that are parallel to `pl`, each once, in the order in which
/// they come first.
pub open spec fn chosen(net: NetView, pl: PlaceId, candidates: Seq<PlaceId>) -> Seq<PlaceId>
    decreases candidates.len(),
{
    if candidates.len() == 0 {
        Seq::empty()
    } else {
        let before = chosen(net, pl, candidates.drop_last());
        let c = candidates.last();
        if parallel(net, pl, c) && !before.contains(c) {
            before.push(c)
        } else {
            before
        }
    }
}

/// The net without the places `all`, removed one after the other.
pub open spec fn without_all(net: NetView, all: Seq<PlaceId>) -> NetView
    decreases all.len(),
{
    if all.len() == 0 {
        net
    } else {
        without_all(net, all.drop_last()).delete_place(all.last())
    }
}

/// The records of the removal of the places `all`, which stay equal to `kept`.
pub open spec fn records(kept: PlaceId, all: Seq<PlaceId>) -> Seq<ModificationView> {
    Seq::new(all.len(), |i: int| record(kept, all[i]))
}

/// Whether `x` is among `v`.
fn contains(v: &Vec<PlaceId>, x: PlaceId) -> (b: bool)
    ensures
        b == v@.contains(x),
{
    let mut i: usize = 0;
    while i < v.len()
        invariant
            i <= v@.len(),
            forall|j: int| 0 <= j < i ==> v@[j] != x,
        decreases v@.len() - i,
    {
        if v[i] == x {
            return true;
        }
        i += 1;
    }
    false
}

/// Whether `a` and `b` are parallel.
fn is_parallel(net: &Net, a: PlaceId, b: PlaceId) -> (r: bool)
    requires
        net.wf(),
        net@.valid_place(a),
        net@.valid_place(b),
    ensures
        r == parallel(net@, a, b),
{
    proof {
        assert(net@.place_wf(a.0 as int));
        assert(net@.place_wf(b.0 as int));
    }
    let x = &net.places[a.0];
    let y = &net.places[b.0];
    a != b && x.consumed_by.len() == y.consumed_by.len() && x.produced_by.len()
        == y.produced_by.len() && x.produced_by.same_weights(&y.produced_by)
        && x.consumed_by.same_weights(&y.consumed_by)
}

/// The places that share a producer or a consumer with `pl`.
fn collect_neighbours(net: &Net, pl: PlaceId) -> (found: Vec<PlaceId>)
    requires
        net.wf(),
        net@.valid_place(pl),
    ensures
        found@ == neighbours(net@, pl),
        forall|i: int| 0 <= i < found@.len() ==> net@.valid_place(#[trigger] found@[i]),
{
    let ghost v = net@;
    proof {
        v.lemma_place_arcs_live(pl.0 as int);
    }
    let mut found: Vec<PlaceId> = Vec::new();
    let place = &net.places[pl.0];
    let n = place.produced_by.len();
    let mut i: usize = 0;
    while i < n
        invariant
            i <= n,
            v == net@,
            v.wf(),
            v.valid_place(pl),
            n == v.places[pl.0 as int].produced_by.len(),
            place@ == v.places[pl.0 as int],
            found@ == produced_alongside(v, pl, i as nat),
            forall|j: int| 0 <= j < found@.len() ==> v.valid_place(#[trigger] found@[j]),
            forall|j: int|
                0 <= j < v.places[pl.0 as int].produced_by.len() ==> v.valid_transition(
                    (#[trigger] v.places[pl.0 as int].produced_by[j]).0,
                ),
        decreases n - i,
    {
        let tr = place.produced_by.entry(i).0;
        assert(v.valid_transition(v.places[pl.0 as int].produced_by[i as int].0));
        let other = &net.transitions[tr.0];
        let m = other.produce.len();
        let ghost start = found@;
        proof {
            v.lemma_transition_arcs_live(tr.0 as int);
        }
        let mut k: usize = 0;
        while k < m
            invariant
                k <= m,
                v.wf(),
                m == v.transitions[tr.0 as int].produce.len(),
                other@ == v.transitions[tr.0 as int],
                found@ == start + keys(v.transitions[tr.0 as int].produce, k as nat),
                forall|j: int| 0 <= j < found@.len() ==> v.valid_place(#[trigger] found@[j]),
                forall|j: int|
                    0 <= j < v.transitions[tr.0 as int].produce.len() ==> v.valid_place(
                        (#[trigger] v.transitions[tr.0 as int].produce[j]).0,
                    ),
            decreases m - k,
        {
            let e = other.produce.entry(k);
            assert(v.valid_place(v.transitions[tr.0 as int].produce[k as int].0));
            found.push(e.0);
            proof {
                assert(found@ =~= start + keys(v.transitions[tr.0 as int].produce, (k + 1) as nat));
            }
            k += 1;
        }
        i += 1;
    }
    let ghost first = found@;
    let n2 = place.consumed_by.len();
    let mut i2: usize = 0;
    proof {
        assert(first + consumed_alongside(v, pl, 0) =~= first);
    }
    while i2 < n2
        invariant
            i2 <= n2,
            v == net@,
            v.wf(),
            v.valid_place(pl),
            n2 == v.places[pl.0 as int].consumed_by.len(),
            place@ == v.places[pl.0 as int],
            found@ == first + consumed_alongside(v, pl, i2 as nat),
            forall|j: int| 0 <= j < found@.len() ==> v.valid_place(#[trigger] found@[j]),
            forall|j: int|
                0 <= j < v.places[pl.0 as int].consumed_by.len() ==> v.valid_transition(
                    (#[trigger] v.places[pl.0 as int].consumed_by[j]).0,
                ),
        decreases n2 - i2,
    {
        let tr = place.consumed_by.entry(i2).0;
        assert(v.valid_transition(v.places[pl.0 as int].consumed_by[i2 as int].0));
        let other = &net.transitions[tr.0];
        let m = other.consume.len();
        let ghost start = found@;
        proof {
            v.lemma_transition_arcs_live(tr.0 as int);
        }
        let mut k: usize = 0;
        while k < m
            invariant
                k <= m,
                v.wf(),
                m == v.transitions[tr.0 as int].consume.len(),
                other@ == v.transitions[tr.0 as int],
                found@ == start + keys(v.transitions[tr.0 as int].consume, k as nat),
                forall|j: int| 0 <= j < found@.len() ==> v.valid_place(#[trigger] found@[j]),
                forall|j: int|
                    0 <= j < v.transitions[tr.0 as int].consume.len() ==> v.valid_place(
                        (#[trigger] v.transitions[tr.0 as int].consume[j]).0,
                    ),
            decreases m - k,
        {
            let e = other.consume.entry(k);
            assert(v.valid_place(v.transitions[tr.0 as int].consume[k as int].0));
            found.push(e.0);
            proof {
                assert(found@ =~= start + keys(v.transitions[tr.0 as int].consume, (k + 1) as nat));
            }
            k += 1;
        }
        proof {
            let step = keys(
                v.transitions[tr.0 as int].consume,
                v.transitions[tr.0 as int].consume.len(),
            );
            assert(first + consumed_alongside(v, pl, i2 as nat) + step =~= first + (
            consumed_alongside(v, pl, i2 as nat) + step));
        }
        i2 += 1;
    }
    found
}

/// What the rule makes of the net at `pl`.
pub open spec fn parallel_outcome(net: NetView, pl: PlaceId) -> (NetView, Seq<ModificationView>) {
    if net.valid_place(pl) && !net.places[pl.0 as int].deleted {
        let all = chosen(net, pl, neighbours(net, pl));
        (without_all(net, all), records(pl, all))
    } else {
        (net, Seq::empty())
    }
}

/// Removing nodes of the net one after the other leaves it well formed, with as many nodes.
pub proof fn lemma_without_all(net: NetView, all: Seq<PlaceId>)
    requires
        net.wf(),
        forall|i: int| 0 <= i < all.len() ==> net.valid_place(#[trigger] all[i]),
    ensures
        without_all(net, all).wf(),
        without_all(net, all).places.len() == net.places.len(),
        without_all(net, all).transitions.len() == net.transitions.len(),
    decreases all.len(),
{
    if all.len() > 0 {
        lemma_without_all(net, all.drop_last());
        without_all(net, all.drop_last()).lemma_delete_place(all.last());
    }
}

/// Removing places leaves the other places, the tokens of every place, and the marks
/// of the transitions as they were.
pub proof fn lemma_without_all_frame(net: NetView, all: Seq<PlaceId>)
    requires
        forall|i: int| 0 <= i < all.len() ==> net.valid_place(#[trigger] all[i]),
    ensures
        without_all(net, all).places.len() == net.places.len(),
        without_all(net, all).transitions.len() == net.transitions.len(),
        without_all(net, all).names == net.names,
        forall|p: int|
            0 <= p < net.places.len() ==> (#[trigger] without_all(net, all).places[p]).initial
                == net.places[p].initial && without_all(net, all).places[p].id == net.places[p].id,
        forall|p: int|
            0 <= p < net.places.len() && !all.contains(PlaceId(p as usize)) ==> (
            #[trigger] without_all(net, all).places[p]) == net.places[p],
        forall|t: int|
            0 <= t < net.transitions.len() ==> (#[trigger] without_all(net, all).transitions[t]).deleted
                == net.transitions[t].deleted,
    decreases all.len(),
{
    if all.len() > 0 {
        lemma_without_all_frame(net, all.drop_last());
        let before = without_all(net, all.drop_last());
        let r = without_all(net, all);
        assert(net.valid_place(all.last()));
        assert forall|p: int|
            0 <= p < net.places.len() && !all.contains(PlaceId(p as usize)) implies (
        #[trigger] r.places[p]) == net.places[p] by {
            assert(all[all.len() - 1] == all.last());
            assert(PlaceId(p as usize) != all.last());
            if all.drop_last().contains(PlaceId(p as usize)) {
                let i = choose|i: int|
                    0 <= i < all.drop_last().len() && all.drop_last()[i] == PlaceId(p as usize);
                assert(all[i] == PlaceId(p as usize));
            }
            assert(before.places[p] == net.places[p]);
        }
    }
}

/// Records of removals hold no agglomeration.
pub proof fn lemma_records(kept: PlaceId, all: Seq<PlaceId>)
    ensures
        crate::modifications::agglomerations(records(kept, all)) == 0,
    decreases all.len(),
{
    if all.len() > 0 {
        lemma_records(kept, all.drop_last());
        assert(records(kept, all).drop_last() =~= records(kept, all.drop_last()));
    }
}

/// Removes the places that are parallel to `pl` and share a producer or a consumer with it.
pub fn remove_parallel(net: &mut Net, pl: PlaceId, modifications: &mut Vec<Modification>)
    requires
        old(net).wf(),
    ensures
        final(net).wf(),
        final(net)@ == parallel_outcome(old(net)@, pl).0,
        log_view(final(modifications)@) == log_view(old(modifications)@) + parallel_outcome(
            old(net)@,
            pl,
        ).1,
        grows(old(net)@, final(net)@, parallel_outcome(old(net)@, pl).1),
{
    let ghost log = log_view(modifications@);
    let ghost v = net@;
    proof {
        assert(log + Seq::<ModificationView>::empty() =~= log);
    }
    if pl.0 >= net.places.len() {
        return ;
    }
    if net.places[pl.0].deleted {
        return ;
    }
    let candidates = collect_neighbours(net, pl);
    let mut to_delete: Vec<PlaceId> = Vec::new();
    let mut i: usize = 0;
    proof {
        assert(candidates@.take(0) =~= Seq::<PlaceId>::empty());
        assert(log + records(pl, Seq::<PlaceId>::empty()) =~= log);
    }
    while i < candidates.len()
        invariant
            i <= candidates@.len(),
            net@ == v,
            v.wf(),
            v.valid_place(pl),
            forall|j: int| 0 <= j < candidates@.len() ==> v.valid_place(#[trigger] candidates@[j]),
            to_delete@ == chosen(v, pl, candidates@.take(i as int)),
            forall|j: int| 0 <= j < to_delete@.len() ==> v.valid_place(#[trigger] to_delete@[j]),
            log_view(modifications@) == log + records(pl, to_delete@),
        decreases candidates@.len() - i,
    {
        let c = candidates[i];
        proof {
            assert(candidates@.take(i + 1).drop_last() =~= candidates@.take(i as int));
            assert(candidates@.take(i + 1).last() == c);
            assert(v.valid_place(candidates@[i as int]));
        }
        if is_parallel(net, pl, c) && !contains(&to_delete, c) {
            let ghost before = to_delete@;
            let ghost logged = log_view(modifications@);
            modifications.push(make_record(pl, c));
            to_delete.push(c);
            proof {
                assert(records(pl, to_delete@) =~= records(pl, before).push(record(pl, c)));
                assert(log_view(modifications@) =~= logged.push(record(pl, c)));
                assert(log_view(modifications@) =~= log + records(pl, to_delete@));
            }
        }
        i += 1;
    }
    proof {
        assert(candidates@.take(candidates@.len() as int) =~= candidates@);
        lemma_records(pl, to_delete@);
        lemma_without_all(v, to_delete@);
        assert(to_delete@.take(0) =~= Seq::<PlaceId>::empty());
    }
    let mut k: usize = 0;
    while k < to_delete.len()
        invariant
            k <= to_delete@.len(),
            v.wf(),
            net.wf(),
            forall|j: int| 0 <= j < to_delete@.len() ==> v.valid_place(#[trigger] to_delete@[j]),
            net@ == without_all(v, to_delete@.take(k as int)),
            net@.places.len() == v.places.len(),
        decreases to_delete@.len() - k,
    {
        proof {
            assert(to_delete@.take(k + 1).drop_last() =~= to_delete@.take(k as int));
            assert(to_delete@.take(k + 1).last() == to_delete@[k as int]);
            assert(v.valid_place(to_delete@[k as int]));
        }
        net.delete_place(to_delete[k]);
        k += 1;
    }
    proof {
        assert(to_delete@.take(to_delete@.len() as int) =~= to_delete@);
    }
}

impl ParallelPlaceReducer {
    /// The reduction of parallel places.
    pub fn new() -> Self {
        Self {  }
    }
}

impl ConservativeReduce for ParallelPlaceReducer {

}

impl Reduce for ParallelPlaceReducer {
    open spec fn outcome(&self, net: NetView) -> (NetView, Seq<ModificationView>) {
        sweep_places(self, net, net.places.len())
    }

    fn reduce(&self, net: &mut Net, modifications: &mut Vec<Modification>) {
        reduce_all_places(self, net, modifications);
    }
}

impl PlaceReduce for ParallelPlaceReducer {
    open spec fn place_outcome(&self, net: NetView, pl: PlaceId) -> (
        NetView,
        Seq<ModificationView>,
    ) {
        parallel_outcome(net, pl)
    }

    fn place_reduce(&self, net: &mut Net, pl: PlaceId, modifications: &mut Vec<Modification>) {
        remove_parallel(net, pl, modifications);
    }
}

} // verus!
