//! What holds of a basic net after any sequence of operations.
use vstd::prelude::*;
use crate::arc;
use crate::ids::{NodeId, PlaceId, TransitionId};
use crate::marking::{has_key, lemma_lookup, lemma_without, sorted, weight, without, Key};
use crate::standard::net::{empty, NetView};

verus! {

/// An operation on a net.
pub enum Operation {
    /// A place is created.
    CreatePlace,
    /// A transition is created.
    CreateTransition,
    /// A node gets a name.
    RenameNode(NodeId, Seq<char>),
    /// An arc is added.
    AddArc(arc::Kind),
    /// A place is removed.
    DeletePlace(PlaceId),
    /// A transition is removed.
    DeleteTransition(TransitionId),
}

/// The net after the operation. An operation that the net cannot take leaves it as it is.
pub open spec fn after(net: NetView, op: Operation) -> NetView {
    match op {
        Operation::CreatePlace => if net.places.len() < usize::MAX {
            net.create_place()
        } else {
            net
        },
        Operation::CreateTransition => if net.transitions.len() < usize::MAX {
            net.create_transition()
        } else {
            net
        },
        Operation::RenameNode(id, name) => net.rename_node(id, name),
        Operation::AddArc(a) => if net.can_add(a) {
            net.add_arc(a)
        } else {
            net
        },
        Operation::DeletePlace(pl) => if net.valid_place(pl) {
            net.delete_place(pl)
        } else {
            net
        },
        Operation::DeleteTransition(tr) => if net.valid_transition(tr) {
            net.delete_transition(tr)
        } else {
            net
        },
    }
}

/// The net after the first `n` of the operations, applied to the empty net.
pub open spec fn after_all(ops: Seq<Operation>, n: nat) -> NetView
    decreases n,
{
    if n == 0 {
        empty()
    } else {
        after(after_all(ops, (n - 1) as nat), ops[n - 1])
    }
}

/// The empty net is well formed.
pub proof fn lemma_empty()
    ensures
        empty().wf(),
{
    let e = empty();
    assert(e.names.table.dom().finite());
    assert forall|id: NodeId| #[trigger] e.valid_node(id) implies e.names.has_name(id) by {}
}

/// An operation keeps a well-formed net well formed.
pub proof fn lemma_after(net: NetView, op: Operation)
    requires
        net.wf(),
    ensures
        after(net, op).wf(),
{
    match op {
        Operation::CreatePlace => {
            if net.places.len() < usize::MAX {
                net.lemma_create_place();
            }
        },
        Operation::CreateTransition => {
            if net.transitions.len() < usize::MAX {
                net.lemma_create_transition();
            }
        },
        Operation::RenameNode(id, name) => {
            net.lemma_rename_node(id, name);
        },
        Operation::AddArc(a) => {
            if net.can_add(a) {
                net.lemma_add_arc(a);
            }
        },
        Operation::DeletePlace(pl) => {
            if net.valid_place(pl) {
                net.lemma_delete_place(pl);
            }
        },
        Operation::DeleteTransition(tr) => {
            if net.valid_transition(tr) {
                net.lemma_delete_transition(tr);
            }
        },
    }
}

/// After any sequence of operations the net is well formed.
pub proof fn lemma_after_all(ops: Seq<Operation>, n: nat)
    requires
        n <= ops.len(),
    ensures
        after_all(ops, n).wf(),
    decreases n,
{
    if n == 0 {
        lemma_empty();
    } else {
        lemma_after_all(ops, (n - 1) as nat);
        lemma_after(after_all(ops, (n - 1) as nat), ops[n - 1]);
    }
}

/// Incidence symmetry: after any sequence of operations, every place and every
/// transition of the net record the same arcs between them, with the same weights.
pub proof fn lemma_incidence_symmetry(ops: Seq<Operation>, pl: PlaceId, tr: TransitionId)
    requires
        after_all(ops, ops.len()).valid_place(pl),
        after_all(ops, ops.len()).valid_transition(tr),
    ensures
        ({
            let net = after_all(ops, ops.len());
            let p = net.places[pl.0 as int];
            let t = net.transitions[tr.0 as int];
            &&& has_key(t.consume, pl) == has_key(p.consumed_by, tr)
            &&& weight(t.consume, pl) == weight(p.consumed_by, tr)
            &&& has_key(t.produce, pl) == has_key(p.produced_by, tr)
            &&& weight(t.produce, pl) == weight(p.produced_by, tr)
        }),
{
    lemma_after_all(ops, ops.len());
    let net = after_all(ops, ops.len());
    assert(net.symmetric(pl.0 as int, tr.0 as int));
}

/// A node that was removed has no arc, after any sequence of operations.
pub proof fn lemma_tombstones(ops: Seq<Operation>, pl: PlaceId, tr: TransitionId)
    requires
        after_all(ops, ops.len()).valid_place(pl),
        after_all(ops, ops.len()).valid_transition(tr),
    ensures
        ({
            let net = after_all(ops, ops.len());
            &&& net.places[pl.0 as int].deleted ==> net.places[pl.0 as int].is_disconnected()
            &&& net.transitions[tr.0 as int].deleted ==> net.transitions[tr.0 as int].is_disconnected()
        }),
{
    lemma_after_all(ops, ops.len());
    let net = after_all(ops, ops.len());
    assert(net.place_wf(pl.0 as int));
    assert(net.transition_wf(tr.0 as int));
}

/// Name bijection: after any sequence of operations, the name of the node of a known
/// name is that name, the node of the name of a node is that node, every node has a
/// name, and a name that is not known has no node.
pub proof fn lemma_name_bijection(ops: Seq<Operation>, name: Seq<char>, id: NodeId)
    ensures
        ({
            let names = after_all(ops, ops.len()).names;
            &&& names.table.contains_key(name) ==> names.index_of(name) is Some && names.name_of(
                names.index_of(name)->0,
            ) == Some(name)
            &&& !names.table.contains_key(name) ==> names.index_of(name) is None
            &&& after_all(ops, ops.len()).valid_node(id) ==> names.name_of(id) is Some
                && names.index_of(names.name_of(id)->0) == Some(id)
            &&& names.index_of(name) matches Some(node) ==> after_all(ops, ops.len()).valid_node(
                node,
            )
        }),
{
    lemma_after_all(ops, ops.len());
    let net = after_all(ops, ops.len());
    net.names.lemma_bijection(name, id);
    if net.valid_node(id) {
        assert(net.names.has_name(id));
    }
    if net.names.table.contains_key(name) {
        assert(net.valid_node(net.names.table[name]));
    }
}

/// Taking an entry out of a sorted sequence twice is taking it out once.
pub proof fn lemma_without_twice<T: Key>(s: Seq<(T, usize)>, k: T)
    requires
        sorted(s),
    ensures
        without(without(s, k), k) == without(s, k),
{
    lemma_without(s, k);
    lemma_lookup(without(s, k), k);
}

/// Removing a node is idempotent: removing it again changes nothing.
pub proof fn lemma_delete_twice(net: NetView, pl: PlaceId, tr: TransitionId)
    requires
        net.wf(),
        net.valid_place(pl),
        net.valid_transition(tr),
    ensures
        net.delete_place(pl).delete_place(pl) == net.delete_place(pl),
        net.delete_transition(tr).delete_transition(tr) == net.delete_transition(tr),
{
    let once = net.delete_place(pl);
    let twice = once.delete_place(pl);
    assert(twice.transitions =~= once.transitions) by {
        assert forall|t: int| 0 <= t < net.transitions.len() implies twice.transitions[t]
            == once.transitions[t] by {
            assert(net.transition_wf(t));
            lemma_without_twice(net.transitions[t].consume, pl);
            lemma_without_twice(net.transitions[t].produce, pl);
        }
    }
    assert(twice.places =~= once.places);
    let gone = net.delete_transition(tr);
    let again = gone.delete_transition(tr);
    assert(again.places =~= gone.places) by {
        assert forall|p: int| 0 <= p < net.places.len() implies again.places[p] == gone.places[p] by {
            assert(net.place_wf(p));
            lemma_without_twice(net.places[p].consumed_by, tr);
            lemma_without_twice(net.places[p].produced_by, tr);
        }
    }
    assert(again.transitions =~= gone.transitions);
}

} // verus!
