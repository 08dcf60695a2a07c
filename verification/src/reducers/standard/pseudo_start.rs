//! A start place whose consumers each fill one place that nothing empties.
use vstd::prelude::*;
use crate::ids::PlaceId;
use crate::modifications::{
    agglomerations, lemma_agglomerations_add, lemma_agglomerations_one, log_view, Agglomeration,
    Modification, ModificationView, Reduction,
};
use crate::reducers::reduce::{grows, reduce_all_places, sweep_places, PlaceReduce, Reduce};
use crate::standard::net::{Net, NetView};

verus! {

/// Unfolds a start place that holds one token: each of its consumers takes that token and
/// fills one place of its own.
pub struct PseudoStart;

/// The place that the `i`-th consumer of `pl` produces into, with the weight of that arc.
pub open spec fn output(net: NetView, pl: PlaceId, i: int) -> (PlaceId, usize) {
    net.transitions[net.places[pl.0 as int].consumed_by[i].0.0 as int].produce[0]
}

/// The `i`-th consumer of `pl` takes one token from `pl` and from no other place, and
/// produces into one place, from which nothing consumes, by a weight that can be
/// written into a record.
pub open spec fn consumer_fits(net: NetView, pl: PlaceId, i: int) -> bool {
    let e = net.places[pl.0 as int].consumed_by[i];
    let t = net.transitions[e.0.0 as int];
    &&& e.1 == 1
    &&& t.consume.len() == 1
    &&& t.produce.len() == 1
    &&& net.places[t.produce[0].0.0 as int].consumed_by.len() == 0
    &&& t.produce[0].1 <= isize::MAX
}

/// The rule applies at `pl`: the place is in the net and was not removed, it starts with
/// one token, nothing produces into it, each of its consumers fits, and there is room
/// for two more places for each consumer.
pub open spec fn applies(net: NetView, pl: PlaceId) -> bool {
    let place = net.places[pl.0 as int];
    &&& net.valid_place(pl)
    &&& !place.deleted
    &&& place.initial == 1
    &&& place.produced_by.len() == 0
    &&& forall|i: int| 0 <= i < place.consumed_by.len() ==> consumer_fits(net, pl, i)
    &&& net.places.len() + 2 * place.consumed_by.len() <= usize::MAX
}

/// The outputs of the consumers of `pl`, in the order of the consumers.
pub open spec fn outputs(net: NetView, pl: PlaceId) -> Seq<(PlaceId, usize)> {
    Seq::new(net.places[pl.0 as int].consumed_by.len(), |i: int| output(net, pl, i))
}

/// The net after one output was unfolded: a copy of the output place and an auxiliary
/// place are created, and the auxiliary place and the output place are removed.
pub open spec fn unfold_one(net: NetView, out: PlaceId) -> NetView {
    let tmp = PlaceId((net.places.len() + 1) as usize);
    net.clone_place(out).create_place().delete_place(tmp).delete_place(out)
}

/// The weight `w` with a minus sign.
pub open spec fn negated(w: usize) -> isize {
    (0 - w) as isize
}

/// The record of one unfolded output: the copy holds the tokens of the output place less
/// `w` times those of the auxiliary place.
pub open spec fn unfold_record(net: NetView, out: (PlaceId, usize)) -> ModificationView {
    ModificationView::Agglomeration {
        new_place: PlaceId(net.places.len() as usize),
        factor: 1,
        deleted_places: seq![
            (out.0, 1isize),
            (PlaceId((net.places.len() + 1) as usize), negated(out.1)),
        ],
        constant: 0,
    }
}

/// The net after the first `n` of `outs` were unfolded.
pub open spec fn unfolded(net: NetView, outs: Seq<(PlaceId, usize)>, n: nat) -> NetView
    decreases n,
{
    if n == 0 {
        net
    } else {
        unfold_one(unfolded(net, outs, (n - 1) as nat), outs[n - 1].0)
    }
}

/// The records of the first `n` unfolded outputs.
pub open spec fn unfold_records(net: NetView, outs: Seq<(PlaceId, usize)>, n: nat) -> Seq<
    ModificationView,
>
    decreases n,
{
    if n == 0 {
        Seq::empty()
    } else {
        unfold_records(net, outs, (n - 1) as nat).push(
            unfold_record(unfolded(net, outs, (n - 1) as nat), outs[n - 1]),
        )
    }
}

/// The auxiliary places of `n` unfolded outputs of a net that had `size` places, each
/// with the coefficient one.
pub open spec fn auxiliaries(size: nat, n: nat) -> Seq<(PlaceId, isize)> {
    Seq::new(n, |i: int| (PlaceId((size + 2 * i + 1) as usize), 1isize))
}

/// The last record: the auxiliary places and the start place add up to the token of the
/// start place.
pub open spec fn closing_record(size: nat, n: nat, pl: PlaceId, initial: usize) -> ModificationView {
    ModificationView::Reduction {
        equals_to: Seq::empty(),
        constant: initial as isize,
        deleted_places: auxiliaries(size, n).push((pl, 1isize)),
    }
}

/// The net after the first consumer of `pl` was removed, `n` times over.
pub open spec fn without_consumers(net: NetView, pl: PlaceId, n: nat) -> NetView
    decreases n,
{
    if n == 0 {
        net
    } else {
        let before = without_consumers(net, pl, (n - 1) as nat);
        before.delete_transition(before.places[pl.0 as int].consumed_by[0].0)
    }
}

/// What the rule makes of the net at `pl`.
pub open spec fn pseudo_start_outcome(net: NetView, pl: PlaceId) -> (NetView, Seq<ModificationView>) {
    if applies(net, pl) {
        let outs = outputs(net, pl);
        let n = outs.len();
        (
            without_consumers(unfolded(net, outs, n), pl, n).delete_place(pl),
            unfold_records(net, outs, n).push(
                closing_record(net.places.len(), n, pl, net.places[pl.0 as int].initial),
            ),
        )
    } else {
        (net, Seq::empty())
    }
}

/// Unfolding an output keeps the net well formed, adds two places, and leaves the arcs
/// of every place but the output place and the two new ones as they were.
pub proof fn lemma_unfold_one(net: NetView, out: PlaceId)
    requires
        net.wf(),
        net.valid_place(out),
        net.places.len() + 2 <= usize::MAX,
    ensures
        unfold_one(net, out).wf(),
        unfold_one(net, out).places.len() == net.places.len() + 2,
        unfold_one(net, out).transitions.len() == net.transitions.len(),
        forall|p: int|
            0 <= p < net.places.len() && p != out.0 ==> (#[trigger] unfold_one(net, out).places[p])
                == net.places[p],
{
    let a = net.clone_place(out);
    net.lemma_clone_place(out);
    a.lemma_create_place();
    let b = a.create_place();
    let tmp = PlaceId((net.places.len() + 1) as usize);
    b.lemma_delete_place(tmp);
    let c = b.delete_place(tmp);
    c.lemma_delete_place(out);
}

/// The net after some outputs were unfolded is well formed and has two more places for
/// each of them; the start place and the other places that were there keep their arcs.
pub proof fn lemma_unfolded(net: NetView, pl: PlaceId, outs: Seq<(PlaceId, usize)>, n: nat)
    requires
        net.wf(),
        n <= outs.len(),
        net.places.len() + 2 * n <= usize::MAX,
        forall|i: int| 0 <= i < outs.len() ==> net.valid_place((#[trigger] outs[i]).0) && outs[i].0
            != pl,
        net.valid_place(pl),
    ensures
        unfolded(net, outs, n).wf(),
        unfolded(net, outs, n).places.len() == net.places.len() + 2 * n,
        unfolded(net, outs, n).transitions.len() == net.transitions.len(),
        unfolded(net, outs, n).places[pl.0 as int] == net.places[pl.0 as int],
    decreases n,
{
    if n > 0 {
        lemma_unfolded(net, pl, outs, (n - 1) as nat);
        let before = unfolded(net, outs, (n - 1) as nat);
        assert(net.valid_place(outs[n - 1].0));
        lemma_unfold_one(before, outs[n - 1].0);
    }
}

/// Removing the consumers of a place one after the other keeps the net well formed and
/// leaves the place with as many consumers fewer.
pub proof fn lemma_without_consumers(net: NetView, pl: PlaceId, n: nat)
    requires
        net.wf(),
        net.valid_place(pl),
        n <= net.places[pl.0 as int].consumed_by.len(),
    ensures
        without_consumers(net, pl, n).wf(),
        without_consumers(net, pl, n).places.len() == net.places.len(),
        without_consumers(net, pl, n).transitions.len() == net.transitions.len(),
        without_consumers(net, pl, n).places[pl.0 as int].consumed_by.len()
            == net.places[pl.0 as int].consumed_by.len() - n,
    decreases n,
{
    if n > 0 {
        lemma_without_consumers(net, pl, (n - 1) as nat);
        let before = without_consumers(net, pl, (n - 1) as nat);
        before.lemma_place_arcs_live(pl.0 as int);
        let tr = before.places[pl.0 as int].consumed_by[0].0;
        assert(before.valid_transition(tr));
        before.lemma_delete_transition(tr);
        crate::marking::lemma_entry(before.places[pl.0 as int].consumed_by, 0);
        crate::marking::lemma_without(before.places[pl.0 as int].consumed_by, tr);
    }
}

/// The records of unfolded outputs are agglomerations, one for each.
pub proof fn lemma_unfold_records(net: NetView, outs: Seq<(PlaceId, usize)>, n: nat)
    ensures
        unfold_records(net, outs, n).len() == n,
        agglomerations(unfold_records(net, outs, n)) == n,
    decreases n,
{
    if n > 0 {
        lemma_unfold_records(net, outs, (n - 1) as nat);
        let before = unfold_records(net, outs, (n - 1) as nat);
        let r = unfold_record(unfolded(net, outs, (n - 1) as nat), outs[n - 1]);
        assert(unfold_records(net, outs, n).drop_last() =~= before);
    }
}

/// Removes the start place `pl` if the rule applies, and unfolds its consumers.
pub fn unfold_start(net: &mut Net, pl: PlaceId, modifications: &mut Vec<Modification>)
    requires
        old(net).wf(),
    ensures
        final(net).wf(),
        final(net)@ == pseudo_start_outcome(old(net)@, pl).0,
        log_view(final(modifications)@) == log_view(old(modifications)@) + pseudo_start_outcome(
            old(net)@,
            pl,
        ).1,
        grows(old(net)@, final(net)@, pseudo_start_outcome(old(net)@, pl).1),
{
    let ghost log = log_view(modifications@);
    let ghost v = net@;
    proof {
        assert(log + Seq::<ModificationView>::empty() =~= log);
    }
    if pl.0 >= net.places.len() {
        return ;
    }
    proof {
        assert(v.place_wf(pl.0 as int));
        v.lemma_place_arcs_live(pl.0 as int);
    }
    let place = &net.places[pl.0];
    if place.deleted || place.initial != 1 || !place.produced_by.is_empty() {
        return ;
    }
    let n = place.consumed_by.len();
    if n > (usize::MAX - net.places.len()) / 2 {
        return ;
    }
    // the outputs of the consumers, if each of them fits
    let mut outs: Vec<(PlaceId, usize)> = Vec::new();
    let mut i: usize = 0;
    while i < n
        invariant
            i <= n,
            net@ == v,
            v.wf(),
            v.valid_place(pl),
            place@ == v.places[pl.0 as int],
            n == v.places[pl.0 as int].consumed_by.len(),
            outs@.len() == i,
            forall|j: int| 0 <= j < i ==> consumer_fits(v, pl, j) && outs@[j] == output(v, pl, j),
            forall|j: int| 0 <= j < i ==> v.valid_place((#[trigger] outs@[j]).0) && outs@[j].0 != pl,
            forall|j: int|
                0 <= j < v.places[pl.0 as int].consumed_by.len() ==> v.valid_transition(
                    (#[trigger] v.places[pl.0 as int].consumed_by[j]).0,
                ),
        decreases n - i,
    {
        let e = place.consumed_by.entry(i);
        assert(v.valid_transition(v.places[pl.0 as int].consumed_by[i as int].0));
        let t = &net.transitions[e.0.0];
        proof {
            v.lemma_transition_arcs_live(e.0.0 as int);
        }
        if e.1 != 1 || t.consume.len() != 1 || t.produce.len() != 1 {
            assert(!consumer_fits(v, pl, i as int));
            return ;
        }
        let o = t.produce.entry(0);
        assert(v.valid_place(v.transitions[e.0.0 as int].produce[0].0));
        if !net.places[o.0.0].consumed_by.is_empty() || o.1 > isize::MAX as usize {
            assert(!consumer_fits(v, pl, i as int));
            return ;
        }
        proof {
            // the start place has a consumer, the output place has none
            assert(o.0 != pl);
        }
        outs.push(o);
        i += 1;
    }
    proof {
        assert(outs@ =~= outputs(v, pl));
        assert(applies(v, pl));
    }
    let initial = place.initial;
    let mut tmp_places: Vec<(PlaceId, isize)> = Vec::new();
    let mut k: usize = 0;
    let ghost size = v.places.len();
    while k < n
        invariant
            k <= n,
            n == outs@.len(),
            v.wf(),
            v.valid_place(pl),
            size == v.places.len(),
            size + 2 * n <= usize::MAX,
            forall|j: int| 0 <= j < outs@.len() ==> v.valid_place((#[trigger] outs@[j]).0)
                && outs@[j].0 != pl,
            forall|j: int| 0 <= j < outs@.len() ==> (#[trigger] outs@[j]).1 <= isize::MAX,
            net.wf(),
            net@ == unfolded(v, outs@, k as nat),
            log_view(modifications@) == log + unfold_records(v, outs@, k as nat),
            tmp_places@ == auxiliaries(size, k as nat),
        decreases n - k,
    {
        let (out, w) = outs[k];
        proof {
            lemma_unfolded(v, pl, outs@, k as nat);
            assert(v.valid_place(outs@[k as int].0));
            lemma_unfold_one(net@, out);
        }
        let ghost before = net@;
        let ghost logged = log_view(modifications@);
        proof {
            before.lemma_clone_place(out);
        }
        let new_pl = net.clone_place(out);
        let tmp = net.create_place();
        net.delete_place(tmp);
        net.delete_place(out);
        let ghost aux = tmp_places@;
        tmp_places.push((tmp, 1));
        let minus_w: isize = -(w as isize);
        let record = Modification::Agglomeration(
            Agglomeration {
                deleted_places: vec![(out, 1), (tmp, minus_w)],
                constant: 0,
                new_place: new_pl,
                factor: 1,
            },
        );
        proof {
            assert(record@->Agglomeration_deleted_places =~= seq![(out, 1isize), (tmp, negated(w))]);
            assert(record@ == unfold_record(before, outs@[k as int]));
        }
        modifications.push(record);
        proof {
            assert(log_view(modifications@) =~= logged.push(
                unfold_record(before, outs@[k as int]),
            ));
            assert(log_view(modifications@) =~= log + unfold_records(v, outs@, (k + 1) as nat));
            assert(tmp_places@ =~= auxiliaries(size, (k + 1) as nat));
        }
        k += 1;
    }
    proof {
        lemma_unfolded(v, pl, outs@, n as nat);
    }
    tmp_places.push((pl, 1));
    let closing = Modification::Reduction(
        Reduction { deleted_places: tmp_places, equals_to: Vec::new(), constant: initial as isize },
    );
    let ghost logged = log_view(modifications@);
    proof {
        assert(closing@->Reduction_equals_to =~= Seq::empty());
        assert(closing@ == closing_record(size, n as nat, pl, initial));
    }
    modifications.push(closing);
    let ghost mid = net@;
    let mut d: usize = 0;
    while d < n
        invariant
            d <= n,
            mid.wf(),
            mid.valid_place(pl),
            n == mid.places[pl.0 as int].consumed_by.len(),
            net.wf(),
            net@ == without_consumers(mid, pl, d as nat),
        decreases n - d,
    {
        proof {
            lemma_without_consumers(mid, pl, d as nat);
            net@.lemma_place_arcs_live(pl.0 as int);
        }
        let tr = net.places[pl.0].consumed_by.entry(0).0;
        assert(net@.valid_transition(net@.places[pl.0 as int].consumed_by[0].0));
        net.delete_transition(tr);
        d += 1;
    }
    proof {
        lemma_without_consumers(mid, pl, n as nat);
    }
    net.delete_place(pl);
    proof {
        let recs = unfold_records(v, outs@, n as nat);
        let last = closing_record(size, n as nat, pl, initial);
        assert(log_view(modifications@) =~= logged.push(last));
        assert(log_view(modifications@) =~= log + recs.push(last));
        lemma_unfold_records(v, outs@, n as nat);
        lemma_agglomerations_add(recs, seq![last]);
        lemma_agglomerations_one(last);
        assert(recs + seq![last] =~= recs.push(last));
    }
}

impl PseudoStart {
    /// The reduction of pseudo-start places.
    pub fn new() -> Self {
        Self {  }
    }
}

impl Reduce for PseudoStart {
    open spec fn outcome(&self, net: NetView) -> (NetView, Seq<ModificationView>) {
        sweep_places(self, net, net.places.len())
    }

    fn reduce(&self, net: &mut Net, modifications: &mut Vec<Modification>) {
        reduce_all_places(self, net, modifications);
    }
}

impl PlaceReduce for PseudoStart {
    open spec fn place_outcome(&self, net: NetView, pl: PlaceId) -> (
        NetView,
        Seq<ModificationView>,
    ) {
        pseudo_start_outcome(net, pl)
    }

    fn place_reduce(&self, net: &mut Net, pl: PlaceId, modifications: &mut Vec<Modification>) {
        unfold_start(net, pl, modifications);
    }
}

} // verus!
