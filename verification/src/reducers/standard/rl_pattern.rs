//! The pattern of the leaf rule held against well-formed nets: a leaf produces into a
//! place, while every transition that consumes from a constraint place must produce
//! nothing, and the leaf is one of them. So no leaf of a well-formed net belongs to a fan.
use vstd::prelude::*;
use crate::ids::{PlaceId, TransitionId};
use crate::marking::{has_key, lemma_entry};
use crate::modifications::ModificationView;
use crate::reducers::standard::rl_reducer::{
    constraints, fan, first_other, leaf_outcome, leaf_shape, leaves_outcome, output_of, outputs,
    outputs_at, production_place,
};
use crate::standard::net::NetView;

verus! {

/// The constraint places that were found are those of the consumers of the production
/// place, one for each.
proof fn lemma_constraints(net: NetView, prod: PlaceId, n: nat, i: int)
    requires
        constraints(net, prod, n) is Some,
        0 <= i < n,
    ensures
        constraints(net, prod, n)->0.len() == n,
        first_other(
            net.transitions[net.places[prod.0 as int].consumed_by[i].0.0 as int].consume,
            prod,
        ) is Some,
        (first_other(
            net.transitions[net.places[prod.0 as int].consumed_by[i].0.0 as int].consume,
            prod,
        )->0).0 == constraints(net, prod, n)->0[i],
    decreases n,
{
    lemma_constraints_len(net, prod, n);
    if i < n - 1 {
        lemma_constraints(net, prod, (n - 1) as nat, i);
    } else {
        lemma_constraints_len(net, prod, (n - 1) as nat);
    }
}

/// As many constraint places are found as there are consumers.
proof fn lemma_constraints_len(net: NetView, prod: PlaceId, n: nat)
    requires
        constraints(net, prod, n) is Some,
    ensures
        constraints(net, prod, n)->0.len() == n,
    decreases n,
{
    if n > 0 {
        lemma_constraints_len(net, prod, (n - 1) as nat);
    }
}

/// Once a consumer of a constraint place does not fit, no production places are found.
proof fn lemma_outputs_at_none(net: NetView, pl: PlaceId, keys: Seq<PlaceId>, j: int, n: nat)
    requires
        0 <= j < n,
        output_of(net, pl, j) is None,
    ensures
        outputs_at(net, pl, keys, n) is None,
    decreases n,
{
    if j < n - 1 {
        lemma_outputs_at_none(net, pl, keys, j, (n - 1) as nat);
    }
}

/// Once no production places are found at a constraint place, none are found at all.
proof fn lemma_outputs_none(net: NetView, all: Seq<PlaceId>, i: int, n: nat)
    requires
        0 <= i < n,
        forall|keys: Seq<PlaceId>|
            outputs_at(
                net,
                all[i],
                keys,
                net.places[all[i].0 as int].consumed_by.len(),
            ) is None,
    ensures
        outputs(net, all, n) is None,
    decreases n,
{
    if i < n - 1 {
        lemma_outputs_none(net, all, i, (n - 1) as nat);
    }
}

/// The first arc that does not lead to one of the two places of a leaf leads to the
/// other.
proof fn lemma_first_other(arcs: Seq<(PlaceId, usize)>, not: PlaceId)
    requires
        arcs.len() == 2,
        arcs[0].0 != arcs[1].0,
        arcs[0].0 == not || arcs[1].0 == not,
    ensures
        first_other(arcs, not) == Some(
            if arcs[0].0 == not {
                arcs[1]
            } else {
                arcs[0]
            },
        ),
{
    reveal_with_fuel(first_other, 3);
    assert(arcs.drop_first()[0] == arcs[1]);
}

/// No leaf of a well-formed net belongs to a fan: the leaf consumes from its constraint
/// place and produces, and a fan wants every consumer of a constraint place to produce
/// nothing.
pub proof fn lemma_no_fan(net: NetView, t: int)
    requires
        net.wf(),
    ensures
        fan(net, t) is None,
{
    if leaf_shape(net, t) && production_place(net, t) is Some {
        let tr = net.transitions[t];
        let me = TransitionId(t as usize);
        let prod = production_place(net, t)->0;
        assert(net.transition_wf(t));
        assert(tr.consume[0].0.0 < tr.consume[1].0.0);
        let other = if tr.consume[0].0 == prod {
            tr.consume[1]
        } else {
            tr.consume[0]
        };
        lemma_first_other(tr.consume, prod);
        lemma_entry(tr.consume, 0);
        lemma_entry(tr.consume, 1);
        assert(net.valid_place(prod));
        assert(net.valid_place(other.0));
        assert(net.symmetric(prod.0 as int, t));
        assert(net.symmetric(other.0.0 as int, t));
        let users = net.places[prod.0 as int].consumed_by;
        assert(has_key(users, me));
        let i = choose|i: int| 0 <= i < users.len() && (#[trigger] users[i]).0 == me;
        if constraints(net, prod, users.len()) is Some {
            let found = constraints(net, prod, users.len())->0;
            lemma_constraints(net, prod, users.len(), i);
            assert(found[i] == other.0);
            let takers = net.places[other.0.0 as int].consumed_by;
            assert(has_key(takers, me));
            let j = choose|j: int| 0 <= j < takers.len() && (#[trigger] takers[j]).0 == me;
            assert(output_of(net, other.0, j) is None);
            assert forall|keys: Seq<PlaceId>|
                outputs_at(net, found[i], keys, takers.len()) is None by {
                lemma_outputs_at_none(net, other.0, keys, j, takers.len());
            }
            lemma_outputs_none(net, found, i, found.len());
        }
    }
}

/// The leaf rule leaves every well-formed net as it is, and records nothing.
pub proof fn lemma_leaves_outcome(net: NetView, n: nat)
    requires
        net.wf(),
    ensures
        leaves_outcome(net, n) == (net, Seq::<ModificationView>::empty()),
    decreases n,
{
    if n > 0 {
        lemma_leaves_outcome(net, (n - 1) as nat);
        lemma_no_fan(net, n - 1);
        assert(Seq::<ModificationView>::empty() + Seq::<ModificationView>::empty()
            =~= Seq::<ModificationView>::empty());
        assert(leaf_outcome(net, TransitionId((n - 1) as usize)) == (
            net,
            Seq::<ModificationView>::empty(),
        )) by {
            if n - 1 > usize::MAX {
                lemma_no_fan(net, TransitionId((n - 1) as usize).0 as int);
            }
        }
    }
}

} // verus!
