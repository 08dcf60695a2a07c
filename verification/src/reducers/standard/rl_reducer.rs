//! Leaves of constraint places, as they occur in models of epidemics.
use vstd::prelude::*;
use crate::arc;
use crate::ids::{PlaceId, TransitionId};
use crate::modifications::{
    agglomerations, lemma_agglomerations_add, lemma_agglomerations_one, log_view, Agglomeration,
    InequalityReduction, Modification, ModificationView,
};
use crate::reducers::reduce::{grows, Reduce};
use crate::reducers::standard::parallel_place_reducer::{
    lemma_without_all, lemma_without_all_frame, without_all,
};
use crate::standard::net::{Net, NetView};

verus! {

/// Fuses the leaves of a fan of transitions: each leaf takes one token of a production
/// place and one of a constraint place and produces nothing, and all production places
/// are filled by one source transition.
pub struct RLReducer;

/// What a fan is made of.
pub struct Fan {
    /// The constraint places, in the order in which they were found; a place may be
    /// named more than once.
    pub constraints: Seq<PlaceId>,
    /// The production places, each once, in the order in which they were found.
    pub outputs: Seq<PlaceId>,
    /// The transition that fills the production places.
    pub source: TransitionId,
}

/// The transition at `t` has the shape of a leaf: it takes one token from each of two
/// places and puts one token into a third.
pub open spec fn leaf_shape(net: NetView, t: int) -> bool {
    let tr = net.transitions[t];
    &&& 0 <= t < net.transitions.len()
    &&& tr.consume.len() == 2
    &&& tr.produce.len() == 1
    &&& tr.consume[0].1 == 1
    &&& tr.consume[1].1 == 1
    &&& tr.produce[0].1 == 1
}

/// The first of the two places that the leaf at `t` consumes from which has one producer.
pub open spec fn production_place(net: NetView, t: int) -> Option<PlaceId> {
    let tr = net.transitions[t];
    if net.places[tr.consume[0].0.0 as int].produced_by.len() == 1 {
        Some(tr.consume[0].0)
    } else if net.places[tr.consume[1].0.0 as int].produced_by.len() == 1 {
        Some(tr.consume[1].0)
    } else {
        None
    }
}

/// The first arc of `arcs` that does not lead to `not`.
pub open spec fn first_other(arcs: Seq<(PlaceId, usize)>, not: PlaceId) -> Option<(PlaceId, usize)>
    decreases arcs.len(),
{
    if arcs.len() == 0 {
        None
    } else if arcs[0].0 != not {
        Some(arcs[0])
    } else {
        first_other(arcs.drop_first(), not)
    }
}

/// The constraint places of the first `n` consumers of the production place `prod`: for
/// each consumer the first other place it consumes from. A place that comes again must
/// come with the weight one.
pub open spec fn constraints(net: NetView, prod: PlaceId, n: nat) -> Option<Seq<PlaceId>>
    decreases n,
{
    if n == 0 {
        Some(Seq::empty())
    } else {
        match constraints(net, prod, (n - 1) as nat) {
            None => None,
            Some(found) => {
                let c = net.places[prod.0 as int].consumed_by[n - 1].0;
                match first_other(net.transitions[c.0 as int].consume, prod) {
                    None => None,
                    Some((pl, w)) => if found.contains(pl) && w != 1 {
                        None
                    } else {
                        Some(found.push(pl))
                    },
                }
            },
        }
    }
}

/// The production place of the `j`-th consumer of the constraint place `pl`: the
/// consumer takes one token from `pl` and one from the production place and produces
/// nothing, and one transition produces into the production place.
pub open spec fn output_of(net: NetView, pl: PlaceId, j: int) -> Option<PlaceId> {
    let e = net.places[pl.0 as int].consumed_by[j];
    let c = net.transitions[e.0.0 as int];
    if e.1 != 1 || c.consume.len() != 2 || c.produce.len() != 0 {
        None
    } else {
        match first_other(c.consume, pl) {
            None => None,
            Some((out, w)) => if w != 1 || net.places[out.0 as int].produced_by.len() != 1 {
                None
            } else {
                Some(out)
            },
        }
    }
}

/// `keys` with the production places of the first `n` consumers of the constraint place
/// `pl` put behind it, each once.
pub open spec fn outputs_at(net: NetView, pl: PlaceId, keys: Seq<PlaceId>, n: nat) -> Option<
    Seq<PlaceId>,
>
    decreases n,
{
    if n == 0 {
        Some(keys)
    } else {
        match outputs_at(net, pl, keys, (n - 1) as nat) {
            None => None,
            Some(found) => match output_of(net, pl, n - 1) {
                None => None,
                Some(out) => Some(
                    if found.contains(out) {
                        found
                    } else {
                        found.push(out)
                    },
                ),
            },
        }
    }
}

/// The production places of the consumers of the first `n` of the places `all`; each
/// constraint place must have as many consumers as there are production places by then.
pub open spec fn outputs(net: NetView, all: Seq<PlaceId>, n: nat) -> Option<Seq<PlaceId>>
    decreases n,
{
    if n == 0 {
        Some(Seq::empty())
    } else {
        match outputs(net, all, (n - 1) as nat) {
            None => None,
            Some(keys) => {
                let consumers = net.places[all[n - 1].0 as int].consumed_by;
                match outputs_at(net, all[n - 1], keys, consumers.len()) {
                    None => None,
                    Some(found) => if consumers.len() != found.len() {
                        None
                    } else {
                        Some(found)
                    },
                }
            },
        }
    }
}

/// The transition `source` alone produces into each of the first `n` of `keys`, and one
/// token.
pub open spec fn filled_by(net: NetView, keys: Seq<PlaceId>, source: TransitionId, n: nat) -> bool {
    forall|i: int|
        0 <= i < n ==> (#[trigger] net.places[keys[i].0 as int]).produced_by[0] == (source, 1usize)
}

/// The tokens of the first `n` of `all`, added up.
pub open spec fn tokens(net: NetView, all: Seq<PlaceId>, n: nat) -> nat
    decreases n,
{
    if n == 0 {
        0
    } else {
        tokens(net, all, (n - 1) as nat) + net.places[all[n - 1].0 as int].initial as nat
    }
}

/// The fan that the leaf at `t` belongs to, if there is one that can be fused.
pub open spec fn fan(net: NetView, t: int) -> Option<Fan> {
    if !leaf_shape(net, t) {
        None
    } else {
        match production_place(net, t) {
            None => None,
            Some(prod) => match constraints(
                net,
                prod,
                net.places[prod.0 as int].consumed_by.len(),
            ) {
                None => None,
                Some(found) => if found.len() == 0 {
                    None
                } else {
                    match outputs(net, found, found.len()) {
                        None => None,
                        Some(keys) => if keys.len() == 0 {
                            None
                        } else {
                            let source = net.places[keys[0].0 as int].produced_by[0].0;
                            if filled_by(net, keys, source, keys.len()) && fusable(
                                net,
                                found,
                                keys,
                                source,
                            ) {
                                Some(Fan { constraints: found, outputs: keys, source })
                            } else {
                                None
                            }
                        },
                    }
                },
            },
        }
    }
}

/// The machine's numbers can write the records of the fan, and there is room for one
/// more place.
pub open spec fn fusable(
    net: NetView,
    found: Seq<PlaceId>,
    keys: Seq<PlaceId>,
    source: TransitionId,
) -> bool {
    &&& net.places.len() < usize::MAX
    &&& tokens(net, found, found.len()) <= isize::MAX
    &&& keys.len() <= isize::MAX
    &&& !net.transitions[source.0 as int].deleted
}

/// The record of the removal of the constraint place `pl`: it holds at most `initial`
/// tokens.
pub open spec fn constraint_record(pl: PlaceId, initial: usize) -> ModificationView {
    ModificationView::InequalityReduction {
        kept_places: Seq::empty(),
        constant: initial as isize,
        deleted_places: seq![(pl, 1isize)],
    }
}

/// The records of the removal of the first `n` of the constraint places `all`.
pub open spec fn constraint_records(net: NetView, all: Seq<PlaceId>, n: nat) -> Seq<
    ModificationView,
> {
    Seq::new(n, |i: int| constraint_record(all[i], net.places[all[i].0 as int].initial))
}

/// The places `all`, each with the coefficient `w`.
pub open spec fn each_with(all: Seq<PlaceId>, w: isize) -> Seq<(PlaceId, isize)> {
    Seq::new(all.len(), |i: int| (all[i], w))
}

/// The record of the removal of the production place `pl`, which the new place bounds;
/// with the parent place if that was merged into the new place.
pub open spec fn output_record(pl: PlaceId, parent: Option<PlaceId>, new_pl: PlaceId) -> ModificationView {
    ModificationView::InequalityReduction {
        kept_places: seq![(new_pl, 1isize)],
        constant: 0,
        deleted_places: match parent {
            Some(p) => seq![(pl, 1isize), (p, 1isize)],
            None => seq![(pl, 1isize)],
        },
    }
}

/// The records of the removal of the first `n` of the production places `all`.
pub open spec fn output_records(all: Seq<PlaceId>, parent: Option<PlaceId>, new_pl: PlaceId, n: nat) -> Seq<
    ModificationView,
> {
    Seq::new(n, |i: int| output_record(all[i], parent, new_pl))
}

/// The record of the fusion: as many times the new place as there are production places
/// is what the production places hold, with the parent place if it was merged, less
/// what the constraint places hold, plus the tokens the constraint places started with.
pub open spec fn fusion_record(f: Fan, parent: Option<PlaceId>, new_pl: PlaceId, sum: nat) -> ModificationView {
    ModificationView::Agglomeration {
        new_place: new_pl,
        factor: f.outputs.len() as isize,
        deleted_places: match parent {
            Some(p) => each_with(f.constraints, -1isize) + each_with(f.outputs, 1) + seq![
                (p, f.outputs.len() as isize),
            ],
            None => each_with(f.constraints, -1isize) + each_with(f.outputs, 1),
        },
        constant: sum as isize,
    }
}

/// The net without the constraint places of the fan, with one more place.
pub open spec fn without_constraints(net: NetView, f: Fan) -> NetView {
    without_all(net.create_place(), f.constraints)
}

/// The source transition has one place that it consumes from, and produces into the
/// production places alone: that parent place is merged into the new place.
pub open spec fn direct(cut: NetView, f: Fan) -> bool {
    cut.transitions[f.source.0 as int].consume.len() == 1
        && cut.transitions[f.source.0 as int].produce.len() == f.outputs.len()
}

/// The parent place of the source transition.
pub open spec fn parent(cut: NetView, f: Fan) -> PlaceId {
    cut.transitions[f.source.0 as int].consume[0].0
}

/// What fusing the fan makes of the net.
pub open spec fn fused(net: NetView, f: Fan) -> (NetView, Seq<ModificationView>) {
    let new_pl = PlaceId(net.places.len() as usize);
    let cut = without_constraints(net, f);
    let sum = tokens(net, f.constraints, f.constraints.len());
    let first = constraint_records(net, f.constraints, f.constraints.len());
    if direct(cut, f) {
        let p = parent(cut, f);
        let joined = cut.connect(
            new_pl,
            cut.places[p.0 as int].consumed_by,
            cut.places[p.0 as int].produced_by,
        ).set_initial(new_pl, cut.places[p.0 as int].initial).delete_place(p).delete_transition(
            f.source,
        );
        (
            without_all(joined, f.outputs),
            first.push(fusion_record(f, Some(p), new_pl, sum)) + output_records(
                f.outputs,
                Some(p),
                new_pl,
                f.outputs.len(),
            ),
        )
    } else {
        let joined = cut.add_arc(arc::Kind::Produce(new_pl, f.source, 1));
        (
            without_all(joined, f.outputs),
            first.push(fusion_record(f, None, new_pl, sum)) + output_records(
                f.outputs,
                None,
                new_pl,
                f.outputs.len(),
            ),
        )
    }
}

/// What the rule makes of the net at the transition `tr`.
pub open spec fn leaf_outcome(net: NetView, tr: TransitionId) -> (NetView, Seq<ModificationView>) {
    match fan(net, tr.0 as int) {
        Some(f) => fused(net, f),
        None => (net, Seq::empty()),
    }
}

/// What the rule makes of the net when it is tried at the first `n` transitions.
pub open spec fn leaves_outcome(net: NetView, n: nat) -> (NetView, Seq<ModificationView>)
    decreases n,
{
    if n == 0 {
        (net, Seq::empty())
    } else {
        let before = leaves_outcome(net, (n - 1) as nat);
        let step = leaf_outcome(before.0, TransitionId((n - 1) as usize));
        (step.0, before.1 + step.1)
    }
}

/// The nodes of a fan are nodes of the net.
pub open spec fn fan_valid(net: NetView, f: Fan) -> bool {
    &&& forall|i: int| 0 <= i < f.constraints.len() ==> net.valid_place(#[trigger] f.constraints[i])
    &&& forall|i: int| 0 <= i < f.outputs.len() ==> net.valid_place(#[trigger] f.outputs[i])
    &&& net.valid_transition(f.source)
}


/// Whether `x` is among `v`.
fn contains(v: &Vec<PlaceId>, x: PlaceId) -> (b: bool)
    ensures
        b == v@.contains(x),
{
    let mut i: usize = 0;
    while i < v.len()
        invariant
            i <= v@.len(),
            forall|j: int| 0 <= j < i ==> v@[j] != x,
        decreases v@.len() - i,
    {
        if v[i] == x {
            return true;
        }
        i += 1;
    }
    false
}

/// The first arc of `arcs` that does not lead to `not`.
fn find_first_other(arcs: &crate::marking::Marking<PlaceId>, not: PlaceId) -> (r: Option<
    (PlaceId, usize),
>)
    ensures
        r == first_other(arcs@, not),
        r matches Some(e) ==> exists|i: int| 0 <= i < arcs@.len() && #[trigger] arcs@[i] == e,
{
    let n = arcs.len();
    let mut i: usize = 0;
    proof {
        assert(arcs@.skip(0) =~= arcs@);
    }
    while i < n
        invariant
            i <= n,
            n == arcs@.len(),
            first_other(arcs@.skip(i as int), not) == first_other(arcs@, not),
        decreases n - i,
    {
        let e = arcs.entry(i);
        proof {
            assert(arcs@.skip(i as int)[0] == arcs@[i as int]);
            assert(arcs@.skip(i as int).drop_first() =~= arcs@.skip(i + 1));
        }
        if e.0 != not {
            return Some(e);
        }
        i += 1;
    }
    proof {
        assert(arcs@.skip(n as int).len() == 0);
    }
    None
}

/// The constraint places of the consumers of the production place `prod`.
fn find_constraints(net: &Net, prod: PlaceId) -> (r: Option<Vec<PlaceId>>)
    requires
        net.wf(),
        net@.valid_place(prod),
    ensures
        match constraints(net@, prod, net@.places[prod.0 as int].consumed_by.len()) {
            Some(found) => r is Some && r->0@ == found && forall|i: int|
                0 <= i < found.len() ==> net@.valid_place(#[trigger] found[i]),
            None => r is None,
        },
{
    let ghost v = net@;
    proof {
        v.lemma_place_arcs_live(prod.0 as int);
    }
    let mut found: Vec<PlaceId> = Vec::new();
    let n = net.places[prod.0].consumed_by.len();
    let mut i: usize = 0;
    while i < n
        invariant
            i <= n,
            v == net@,
            v.wf(),
            v.valid_place(prod),
            n == v.places[prod.0 as int].consumed_by.len(),
            constraints(v, prod, i as nat) == Some(found@),
            forall|j: int| 0 <= j < found@.len() ==> v.valid_place(#[trigger] found@[j]),
            forall|j: int|
                0 <= j < v.places[prod.0 as int].consumed_by.len() ==> v.valid_transition(
                    (#[trigger] v.places[prod.0 as int].consumed_by[j]).0,
                ),
        decreases n - i,
    {
        let c = net.places[prod.0].consumed_by.entry(i).0;
        assert(v.valid_transition(v.places[prod.0 as int].consumed_by[i as int].0));
        proof {
            v.lemma_transition_arcs_live(c.0 as int);
        }
        match find_first_other(&net.transitions[c.0].consume, prod) {
            None => {
                proof {
                    lemma_constraints_fail(v, prod, (i + 1) as nat, n as nat);
                }
                return None;
            },
            Some((pl, w)) => {
                if contains(&found, pl) && w != 1 {
                    proof {
                        lemma_constraints_fail(v, prod, (i + 1) as nat, n as nat);
                    }
                    return None;
                }
                proof {
                    let arcs = v.transitions[c.0 as int].consume;
                    let k = choose|k: int| 0 <= k < arcs.len() && #[trigger] arcs[k] == (pl, w);
                    assert(v.valid_place(arcs[k].0));
                }
                found.push(pl);
            },
        }
        i += 1;
    }
    Some(found)
}

/// Once a consumer has no constraint place, the consumers behind it change nothing.
proof fn lemma_constraints_fail(net: NetView, prod: PlaceId, k: nat, n: nat)
    requires
        k <= n,
        constraints(net, prod, k) is None,
    ensures
        constraints(net, prod, n) is None,
    decreases n,
{
    if k < n {
        lemma_constraints_fail(net, prod, k, (n - 1) as nat);
    }
}

/// Once a consumer has no production place, the consumers behind it change nothing.
proof fn lemma_outputs_at_fail(net: NetView, pl: PlaceId, keys: Seq<PlaceId>, k: nat, n: nat)
    requires
        k <= n,
        outputs_at(net, pl, keys, k) is None,
    ensures
        outputs_at(net, pl, keys, n) is None,
    decreases n,
{
    if k < n {
        lemma_outputs_at_fail(net, pl, keys, k, (n - 1) as nat);
    }
}

/// Once a constraint place does not fit, the places behind it change nothing.
proof fn lemma_outputs_fail(net: NetView, all: Seq<PlaceId>, k: nat, n: nat)
    requires
        k <= n,
        outputs(net, all, k) is None,
    ensures
        outputs(net, all, n) is None,
    decreases n,
{
    if k < n {
        lemma_outputs_fail(net, all, k, (n - 1) as nat);
    }
}

/// The production place of the `j`-th consumer of the constraint place `pl`.
fn find_output(net: &Net, pl: PlaceId, j: usize) -> (r: Option<PlaceId>)
    requires
        net.wf(),
        net@.valid_place(pl),
        j < net@.places[pl.0 as int].consumed_by.len(),
    ensures
        r == output_of(net@, pl, j as int),
        r matches Some(out) ==> net@.valid_place(out),
{
    let ghost v = net@;
    proof {
        v.lemma_place_arcs_live(pl.0 as int);
    }
    let e = net.places[pl.0].consumed_by.entry(j);
    assert(v.valid_transition(v.places[pl.0 as int].consumed_by[j as int].0));
    proof {
        v.lemma_transition_arcs_live(e.0.0 as int);
    }
    let c = &net.transitions[e.0.0];
    if e.1 != 1 || c.consume.len() != 2 || c.produce.len() != 0 {
        return None;
    }
    match find_first_other(&c.consume, pl) {
        None => None,
        Some((out, w)) => {
            proof {
                let arcs = v.transitions[e.0.0 as int].consume;
                let k = choose|k: int| 0 <= k < arcs.len() && #[trigger] arcs[k] == (out, w);
                assert(v.valid_place(arcs[k].0));
            }
            if w != 1 || net.places[out.0].produced_by.len() != 1 {
                None
            } else {
                Some(out)
            }
        },
    }
}

/// The production places of the consumers of the constraint places `all`.
fn find_outputs(net: &Net, all: &Vec<PlaceId>) -> (r: Option<Vec<PlaceId>>)
    requires
        net.wf(),
        forall|i: int| 0 <= i < all@.len() ==> net@.valid_place(#[trigger] all@[i]),
    ensures
        match outputs(net@, all@, all@.len()) {
            Some(keys) => r is Some && r->0@ == keys && forall|i: int|
                0 <= i < keys.len() ==> net@.valid_place(#[trigger] keys[i]),
            None => r is None,
        },
{
    let ghost v = net@;
    let mut keys: Vec<PlaceId> = Vec::new();
    let mut i: usize = 0;
    while i < all.len()
        invariant
            i <= all@.len(),
            v == net@,
            v.wf(),
            forall|j: int| 0 <= j < all@.len() ==> v.valid_place(#[trigger] all@[j]),
            outputs(v, all@, i as nat) == Some(keys@),
            forall|j: int| 0 <= j < keys@.len() ==> v.valid_place(#[trigger] keys@[j]),
        decreases all@.len() - i,
    {
        let pl = all[i];
        assert(v.valid_place(all@[i as int]));
        let ghost start = keys@;
        let count = net.places[pl.0].consumed_by.len();
        let mut j: usize = 0;
        while j < count
            invariant
                j <= count,
                v == net@,
                v.wf(),
                v.valid_place(pl),
                pl == all@[i as int],
                i < all@.len(),
                count == v.places[pl.0 as int].consumed_by.len(),
                outputs(v, all@, i as nat) == Some(start),
                outputs_at(v, pl, start, j as nat) == Some(keys@),
                forall|x: int| 0 <= x < keys@.len() ==> v.valid_place(#[trigger] keys@[x]),
            decreases count - j,
        {
            match find_output(net, pl, j) {
                None => {
                    proof {
                        lemma_outputs_at_fail(v, pl, start, (j + 1) as nat, count as nat);
                        lemma_outputs_fail(v, all@, (i + 1) as nat, all@.len());
                    }
                    return None;
                },
                Some(out) => {
                    if !contains(&keys, out) {
                        keys.push(out);
                    }
                },
            }
            j += 1;
        }
        if count != keys.len() {
            proof {
                lemma_outputs_fail(v, all@, (i + 1) as nat, all@.len());
            }
            return None;
        }
        i += 1;
    }
    Some(keys)
}

/// What a fan was found to be.
pub struct FoundFan {
    /// The constraint places.
    pub constraints: Vec<PlaceId>,
    /// The production places.
    pub outputs: Vec<PlaceId>,
    /// The transition that fills the production places.
    pub source: TransitionId,
    /// The tokens that the constraint places start with, added up.
    pub sum: usize,
}

impl View for FoundFan {
    type V = Fan;

    open spec fn view(&self) -> Fan {
        Fan { constraints: self.constraints@, outputs: self.outputs@, source: self.source }
    }
}

/// The tokens of the places `all`, added up, if the sum can be written into a record.
fn sum_tokens(net: &Net, all: &Vec<PlaceId>) -> (r: Option<usize>)
    requires
        forall|i: int| 0 <= i < all@.len() ==> net@.valid_place(#[trigger] all@[i]),
    ensures
        match r {
            Some(s) => s == tokens(net@, all@, all@.len()) && s <= isize::MAX,
            None => tokens(net@, all@, all@.len()) > isize::MAX,
        },
{
    let mut sum: usize = 0;
    let mut i: usize = 0;
    while i < all.len()
        invariant
            i <= all@.len(),
            forall|j: int| 0 <= j < all@.len() ==> net@.valid_place(#[trigger] all@[j]),
            sum == tokens(net@, all@, i as nat),
            sum <= isize::MAX,
        decreases all@.len() - i,
    {
        assert(net@.valid_place(all@[i as int]));
        let more = net.places[all[i].0].initial;
        if more > isize::MAX as usize - sum {
            proof {
                lemma_tokens_grow(net@, all@, (i + 1) as nat, all@.len());
            }
            return None;
        }
        sum = sum + more;
        i += 1;
    }
    Some(sum)
}

/// The tokens of more places are not fewer.
proof fn lemma_tokens_grow(net: NetView, all: Seq<PlaceId>, k: nat, n: nat)
    requires
        k <= n,
    ensures
        tokens(net, all, k) <= tokens(net, all, n),
    decreases n,
{
    if k < n {
        lemma_tokens_grow(net, all, k, (n - 1) as nat);
    }
}

/// The fan that the leaf at `t` belongs to, if there is one that can be fused.
#[verifier::loop_isolation(false)]
pub fn find_fan(net: &Net, t: usize) -> (r: Option<FoundFan>)
    requires
        net.wf(),
    ensures
        match fan(net@, t as int) {
            Some(f) => r is Some && r->0@ == f && fan_valid(net@, f) && r->0.sum == tokens(
                net@,
                f.constraints,
                f.constraints.len(),
            ),
            None => r is None,
        },
{
    let ghost v = net@;
    if t >= net.transitions.len() {
        return None;
    }
    proof {
        v.lemma_transition_arcs_live(t as int);
    }
    let tr = &net.transitions[t];
    if tr.consume.len() != 2 || tr.produce.len() != 1 {
        return None;
    }
    let a = tr.consume.entry(0);
    let b = tr.consume.entry(1);
    if a.1 != 1 || b.1 != 1 || tr.produce.entry(0).1 != 1 {
        return None;
    }
    assert(v.valid_place(v.transitions[t as int].consume[0].0));
    assert(v.valid_place(v.transitions[t as int].consume[1].0));
    let prod = if net.places[a.0.0].produced_by.len() == 1 {
        a.0
    } else if net.places[b.0.0].produced_by.len() == 1 {
        b.0
    } else {
        return None;
    };
    let found = match find_constraints(net, prod) {
        None => {
            return None;
        },
        Some(c) => c,
    };
    if found.len() == 0 {
        return None;
    }
    let outs = match find_outputs(net, &found) {
        None => {
            return None;
        },
        Some(o) => o,
    };
    if outs.len() == 0 {
        return None;
    }
    assert(v.valid_place(outs@[0]));
    proof {
        v.lemma_place_arcs_live(outs@[0].0 as int);
    }
    if net.places[outs[0].0].produced_by.len() == 0 {
        // a production place has one producer
        proof {
            assert(outputs(v, found@, found@.len()) == Some(outs@));
            lemma_outputs_have_producer(v, found@, found@.len(), 0);
        }
        return None;
    }
    let source = net.places[outs[0].0].produced_by.entry(0).0;
    assert(v.valid_transition(v.places[outs@[0].0 as int].produced_by[0].0));
    let mut k: usize = 0;
    while k < outs.len()
        invariant
            k <= outs@.len(),
            v == net@,
            v.wf(),
            forall|j: int| 0 <= j < outs@.len() ==> v.valid_place(#[trigger] outs@[j]),
            outputs(v, found@, found@.len()) == Some(outs@),
            filled_by(v, outs@, source, k as nat),
        decreases outs@.len() - k,
    {
        assert(v.valid_place(outs@[k as int]));
        proof {
            lemma_outputs_have_producer(v, found@, found@.len(), k as int);
        }
        let e = net.places[outs[k].0].produced_by.entry(0);
        if e.1 != 1 || e.0 != source {
            assert(!filled_by(v, outs@, source, outs@.len())) by {
                assert(v.places[outs@[k as int].0 as int].produced_by[0] != (source, 1usize));
            }
            return None;
        }
        k += 1;
    }
    if net.places.len() == usize::MAX || outs.len() > isize::MAX as usize
        || net.transitions[source.0].deleted {
        return None;
    }
    let sum = match sum_tokens(net, &found) {
        None => {
            return None;
        },
        Some(s) => s,
    };
    Some(FoundFan { constraints: found, outputs: outs, source, sum })
}

/// Every production place that was found has a producer.
proof fn lemma_outputs_have_producer(net: NetView, all: Seq<PlaceId>, n: nat, i: int)
    requires
        outputs(net, all, n) is Some,
        0 <= i < outputs(net, all, n)->0.len(),
    ensures
        net.places[outputs(net, all, n)->0[i].0 as int].produced_by.len() == 1,
    decreases n,
{
    if n > 0 {
        let keys = outputs(net, all, (n - 1) as nat)->0;
        let consumers = net.places[all[n - 1].0 as int].consumed_by;
        lemma_outputs_at_have_producer(net, all, n, consumers.len(), i);
    }
}

/// Every production place that was found has a producer.
proof fn lemma_outputs_at_have_producer(net: NetView, all: Seq<PlaceId>, n: nat, m: nat, i: int)
    requires
        n > 0,
        outputs(net, all, (n - 1) as nat) is Some,
        outputs_at(net, all[n - 1], outputs(net, all, (n - 1) as nat)->0, m) is Some,
        0 <= i < outputs_at(net, all[n - 1], outputs(net, all, (n - 1) as nat)->0, m)->0.len(),
    ensures
        net.places[outputs_at(
            net,
            all[n - 1],
            outputs(net, all, (n - 1) as nat)->0,
            m,
        )->0[i].0 as int].produced_by.len() == 1,
    decreases n, m,
{
    let keys = outputs(net, all, (n - 1) as nat)->0;
    if m == 0 {
        lemma_outputs_have_producer(net, all, (n - 1) as nat, i);
    } else {
        let found = outputs_at(net, all[n - 1], keys, (m - 1) as nat)->0;
        if i < found.len() {
            lemma_outputs_at_have_producer(net, all, n, (m - 1) as nat, i);
        }
    }
}


/// Puts the places `all`, each with the coefficient `w`, behind `v`.
fn push_each(v: &mut Vec<(PlaceId, isize)>, all: &Vec<PlaceId>, w: isize)
    ensures
        final(v)@ == old(v)@ + each_with(all@, w),
{
    let mut i: usize = 0;
    proof {
        assert(v@ =~= old(v)@ + each_with(all@.take(0), w));
    }
    while i < all.len()
        invariant
            i <= all@.len(),
            v@ == old(v)@ + each_with(all@.take(i as int), w),
        decreases all@.len() - i,
    {
        v.push((all[i], w));
        proof {
            assert(v@ =~= old(v)@ + each_with(all@.take(i + 1), w));
        }
        i += 1;
    }
    proof {
        assert(all@.take(all@.len() as int) =~= all@);
    }
}

/// The tokens of each place are not more than the tokens of all.
proof fn lemma_tokens_bound(net: NetView, all: Seq<PlaceId>, n: nat, i: int)
    requires
        0 <= i < n,
    ensures
        net.places[all[i].0 as int].initial <= tokens(net, all, n),
    decreases n,
{
    if i < n - 1 {
        lemma_tokens_bound(net, all, (n - 1) as nat, i);
    }
}

/// Removes the places `all` one after the other, and records each with the record that
/// `parent` makes of it.
fn remove_outputs(
    net: &mut Net,
    all: &Vec<PlaceId>,
    parent: Option<PlaceId>,
    new_pl: PlaceId,
    modifications: &mut Vec<Modification>,
)
    requires
        old(net).wf(),
        forall|i: int| 0 <= i < all@.len() ==> old(net)@.valid_place(#[trigger] all@[i]),
    ensures
        final(net).wf(),
        final(net)@ == without_all(old(net)@, all@),
        log_view(final(modifications)@) == log_view(old(modifications)@) + output_records(
            all@,
            parent,
            new_pl,
            all@.len(),
        ),
{
    let ghost v = net@;
    let ghost log = log_view(modifications@);
    proof {
        assert(all@.take(0) =~= Seq::<PlaceId>::empty());
        assert(log + output_records(all@, parent, new_pl, 0) =~= log);
    }
    let mut i: usize = 0;
    while i < all.len()
        invariant
            i <= all@.len(),
            v.wf(),
            net.wf(),
            forall|j: int| 0 <= j < all@.len() ==> v.valid_place(#[trigger] all@[j]),
            net@ == without_all(v, all@.take(i as int)),
            net@.places.len() == v.places.len(),
            log_view(modifications@) == log + output_records(all@, parent, new_pl, i as nat),
        decreases all@.len() - i,
    {
        let pl = all[i];
        let deleted = match parent {
            Some(p) => vec![(pl, 1), (p, 1)],
            None => vec![(pl, 1)],
        };
        let made = Modification::InequalityReduction(
            InequalityReduction { deleted_places: deleted, constant: 0, kept_places: vec![(new_pl, 1)] },
        );
        proof {
            assert(made@->InequalityReduction_kept_places =~= seq![(new_pl, 1isize)]);
            match parent {
                Some(p) => {
                    assert(made@->InequalityReduction_deleted_places =~= seq![
                        (pl, 1isize),
                        (p, 1isize),
                    ]);
                },
                None => {
                    assert(made@->InequalityReduction_deleted_places =~= seq![(pl, 1isize)]);
                },
            }
            assert(made@ == output_record(pl, parent, new_pl));
        }
        let ghost logged = log_view(modifications@);
        modifications.push(made);
        proof {
            assert(log_view(modifications@) =~= logged.push(output_record(pl, parent, new_pl)));
            assert(output_records(all@, parent, new_pl, (i + 1) as nat) =~= output_records(
                all@,
                parent,
                new_pl,
                i as nat,
            ).push(output_record(pl, parent, new_pl)));
            assert(log_view(modifications@) =~= log + output_records(
                all@,
                parent,
                new_pl,
                (i + 1) as nat,
            ));
            assert(all@.take(i + 1).drop_last() =~= all@.take(i as int));
            assert(all@.take(i + 1).last() == all@[i as int]);
            assert(v.valid_place(all@[i as int]));
        }
        net.delete_place(pl);
        i += 1;
    }
    proof {
        assert(all@.take(all@.len() as int) =~= all@);
    }
}

/// Records of removed places hold no agglomeration.
proof fn lemma_no_agglomeration(records: Seq<ModificationView>)
    requires
        forall|i: int| 0 <= i < records.len() ==> !(#[trigger] records[i] is Agglomeration),
    ensures
        agglomerations(records) == 0,
    decreases records.len(),
{
    if records.len() > 0 {
        assert(!(records[records.len() - 1] is Agglomeration));
        assert forall|i: int| 0 <= i < records.drop_last().len() implies !(
        #[trigger] records.drop_last()[i] is Agglomeration) by {
            assert(records.drop_last()[i] == records[i]);
        }
        lemma_no_agglomeration(records.drop_last());
    }
}

/// Fuses the fan `f` of the net.
pub fn fuse(net: &mut Net, f: &FoundFan, modifications: &mut Vec<Modification>)
    requires
        old(net).wf(),
        fan_valid(old(net)@, f@),
        fusable(old(net)@, f@.constraints, f@.outputs, f@.source),
        f.sum == tokens(old(net)@, f@.constraints, f@.constraints.len()),
    ensures
        final(net).wf(),
        final(net)@ == fused(old(net)@, f@).0,
        log_view(final(modifications)@) == log_view(old(modifications)@) + fused(old(net)@, f@).1,
        grows(old(net)@, final(net)@, fused(old(net)@, f@).1),
{
    let ghost v = net@;
    let ghost log = log_view(modifications@);
    let ghost fv = f@;
    proof {
        v.lemma_create_place();
    }
    let new_pl = net.create_place();
    let ghost created = net@;
    proof {
        lemma_without_all(created, fv.constraints);
        lemma_without_all_frame(created, fv.constraints);
        assert(fv.constraints.take(0) =~= Seq::<PlaceId>::empty());
        assert(log + constraint_records(v, fv.constraints, 0) =~= log);
    }
    let mut i: usize = 0;
    while i < f.constraints.len()
        invariant
            i <= f.constraints@.len(),
            fv == f@,
            v.wf(),
            created == v.create_place(),
            created.wf(),
            net.wf(),
            new_pl.0 == v.places.len(),
            fan_valid(v, fv),
            f.sum == tokens(v, fv.constraints, fv.constraints.len()),
            f.sum <= isize::MAX,
            net@ == without_all(created, fv.constraints.take(i as int)),
            net@.places.len() == created.places.len(),
            log_view(modifications@) == log + constraint_records(v, fv.constraints, i as nat),
        decreases f.constraints@.len() - i,
    {
        let pl = f.constraints[i];
        proof {
            assert(v.valid_place(fv.constraints[i as int]));
            lemma_tokens_bound(v, fv.constraints, fv.constraints.len(), i as int);
            assert forall|j: int| 0 <= j < fv.constraints.take(i as int).len() implies created.valid_place(
                #[trigger] fv.constraints.take(i as int)[j],
            ) by {
                assert(v.valid_place(fv.constraints[j]));
            }
            lemma_without_all_frame(created, fv.constraints.take(i as int));
            assert(net@.places[pl.0 as int].initial == created.places[pl.0 as int].initial);
            assert(created.places[pl.0 as int] == v.places[pl.0 as int]);
        }
        let initial = net.places[pl.0].initial;
        let made = Modification::InequalityReduction(
            InequalityReduction {
                deleted_places: vec![(pl, 1)],
                kept_places: Vec::new(),
                constant: initial as isize,
            },
        );
        proof {
            assert(made@->InequalityReduction_deleted_places =~= seq![(pl, 1isize)]);
            assert(made@->InequalityReduction_kept_places =~= Seq::empty());
            assert(made@ == constraint_record(pl, v.places[pl.0 as int].initial));
        }
        let ghost logged = log_view(modifications@);
        modifications.push(made);
        proof {
            assert(log_view(modifications@) =~= logged.push(
                constraint_record(pl, v.places[pl.0 as int].initial),
            ));
            assert(constraint_records(v, fv.constraints, (i + 1) as nat) =~= constraint_records(
                v,
                fv.constraints,
                i as nat,
            ).push(constraint_record(pl, v.places[pl.0 as int].initial)));
            assert(log_view(modifications@) =~= log + constraint_records(
                v,
                fv.constraints,
                (i + 1) as nat,
            ));
            assert(fv.constraints.take(i + 1).drop_last() =~= fv.constraints.take(i as int));
            assert(fv.constraints.take(i + 1).last() == pl);
        }
        net.delete_place(pl);
        i += 1;
    }
    let ghost cut = net@;
    let ghost first = constraint_records(v, fv.constraints, fv.constraints.len());
    proof {
        assert(fv.constraints.take(fv.constraints.len() as int) =~= fv.constraints);
        assert(cut == without_constraints(v, fv));
        assert forall|j: int| 0 <= j < fv.constraints.len() implies created.valid_place(
            #[trigger] fv.constraints[j],
        ) by {
            assert(v.valid_place(fv.constraints[j]));
        }
        lemma_without_all_frame(created, fv.constraints);
        // the new place was not touched
        assert(!fv.constraints.contains(new_pl)) by {
            if fv.constraints.contains(new_pl) {
                let j = choose|j: int| 0 <= j < fv.constraints.len() && fv.constraints[j] == new_pl;
                assert(v.valid_place(fv.constraints[j]));
            }
        }
        assert(cut.places[new_pl.0 as int] == created.places[new_pl.0 as int]);
        assert(cut.transition_wf(f.source.0 as int));
        assert(cut.place_wf(new_pl.0 as int));
    }
    let n = f.outputs.len() as isize;
    let mut deleted: Vec<(PlaceId, isize)> = Vec::new();
    push_each(&mut deleted, &f.constraints, -1);
    push_each(&mut deleted, &f.outputs, 1);
    proof {
        assert(deleted@ =~= each_with(fv.constraints, -1isize) + each_with(fv.outputs, 1));
    }
    let source = &net.transitions[f.source.0];
    if source.consume.len() == 1 && source.produce.len() == f.outputs.len() {
        let parent_pl = source.consume.entry(0).0;
        proof {
            cut.lemma_transition_arcs_live(f.source.0 as int);
            assert(cut.valid_place(cut.transitions[f.source.0 as int].consume[0].0));
            cut.lemma_place_arcs_live(parent_pl.0 as int);
        }
        let consumed = net.places[parent_pl.0].consumed_by.to_vec();
        let produced = net.places[parent_pl.0].produced_by.to_vec();
        let initial = net.places[parent_pl.0].initial;
        net.connect(new_pl, &consumed, &produced);
        net.set_initial(new_pl, initial);
        net.delete_place(parent_pl);
        net.delete_transition(f.source);
        deleted.push((parent_pl, n));
        let made = Modification::Agglomeration(
            Agglomeration {
                deleted_places: deleted,
                constant: f.sum as isize,
                new_place: new_pl,
                factor: n,
            },
        );
        proof {
            assert(made@->Agglomeration_deleted_places =~= each_with(fv.constraints, -1isize)
                + each_with(fv.outputs, 1) + seq![(parent_pl, fv.outputs.len() as isize)]);
            assert(made@ == fusion_record(fv, Some(parent_pl), new_pl, f.sum as nat));
        }
        let ghost logged = log_view(modifications@);
        modifications.push(made);
        proof {
            assert(log_view(modifications@) =~= logged.push(
                fusion_record(fv, Some(parent_pl), new_pl, f.sum as nat),
            ));
            assert forall|j: int| 0 <= j < fv.outputs.len() implies net@.valid_place(
                #[trigger] fv.outputs[j],
            ) by {
                assert(v.valid_place(fv.outputs[j]));
            }
        }
        let ghost joined = net@;
        remove_outputs(net, &f.outputs, Some(parent_pl), new_pl, modifications);
        proof {
            let last = output_records(fv.outputs, Some(parent_pl), new_pl, fv.outputs.len());
            let agg = fusion_record(fv, Some(parent_pl), new_pl, f.sum as nat);
            assert(log + first.push(agg) + last =~= log + (first.push(agg) + last));
            lemma_without_all_frame(joined, fv.outputs);
            lemma_no_agglomeration(first);
            lemma_no_agglomeration(last);
            lemma_agglomerations_one(agg);
            lemma_agglomerations_add(first, seq![agg]);
            assert(first.push(agg) =~= first + seq![agg]);
            lemma_agglomerations_add(first.push(agg), last);
        }
    } else {
        proof {
            assert(cut.symmetric(new_pl.0 as int, f.source.0 as int));
            assert(!crate::marking::has_key(cut.places[new_pl.0 as int].produced_by, f.source));
        }
        let _ = net.add_arc(arc::Kind::Produce(new_pl, f.source, 1));
        let made = Modification::Agglomeration(
            Agglomeration {
                deleted_places: deleted,
                constant: f.sum as isize,
                new_place: new_pl,
                factor: n,
            },
        );
        proof {
            assert(made@ == fusion_record(fv, None, new_pl, f.sum as nat));
        }
        let ghost logged = log_view(modifications@);
        modifications.push(made);
        proof {
            assert(log_view(modifications@) =~= logged.push(
                fusion_record(fv, None, new_pl, f.sum as nat),
            ));
            assert forall|j: int| 0 <= j < fv.outputs.len() implies net@.valid_place(
                #[trigger] fv.outputs[j],
            ) by {
                assert(v.valid_place(fv.outputs[j]));
            }
        }
        let ghost joined = net@;
        remove_outputs(net, &f.outputs, None, new_pl, modifications);
        proof {
            let last = output_records(fv.outputs, None, new_pl, fv.outputs.len());
            let agg = fusion_record(fv, None, new_pl, f.sum as nat);
            assert(log + first.push(agg) + last =~= log + (first.push(agg) + last));
            lemma_without_all_frame(joined, fv.outputs);
            lemma_no_agglomeration(first);
            lemma_no_agglomeration(last);
            lemma_agglomerations_one(agg);
            lemma_agglomerations_add(first, seq![agg]);
            assert(first.push(agg) =~= first + seq![agg]);
            lemma_agglomerations_add(first.push(agg), last);
        }
    }
}

impl RLReducer {
    /// The reduction of leaves.
    pub fn new() -> Self {
        Self {  }
    }
}

impl Reduce for RLReducer {
    open spec fn outcome(&self, net: NetView) -> (NetView, Seq<ModificationView>) {
        leaves_outcome(net, net.transitions.len())
    }

    fn reduce(&self, net: &mut Net, modifications: &mut Vec<Modification>) {
        let n = net.transitions.len();
        let ghost v = net@;
        let ghost log = log_view(modifications@);
        let mut i: usize = 0;
        proof {
            assert(log + Seq::<ModificationView>::empty() =~= log);
        }
        while i < n
            invariant
                i <= n,
                n == v.transitions.len(),
                net.wf(),
                net@ == leaves_outcome(v, i as nat).0,
                log_view(modifications@) == log + leaves_outcome(v, i as nat).1,
                grows(v, net@, leaves_outcome(v, i as nat).1),
            decreases n - i,
        {
            let ghost before = net@;
            let ghost emitted = leaves_outcome(v, i as nat).1;
            match find_fan(net, i) {
                Some(f) => {
                    fuse(net, &f, modifications);
                },
                None => {
                    proof {
                        assert(log + emitted + Seq::<ModificationView>::empty() =~= log + emitted);
                    }
                },
            }
            proof {
                let step = leaf_outcome(before, TransitionId(i));
                assert(log + emitted + step.1 =~= log + (emitted + step.1));
                lemma_agglomerations_add(emitted, step.1);
            }
            i += 1;
        }
    }
}

} // verus!
