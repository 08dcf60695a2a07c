//! Basic nets and the operations that change them.
use vstd::prelude::*;
use crate::arc;
use crate::errors::NetError;
use crate::ids::{NodeId, PlaceId, TransitionId};
use crate::marking::{
    Key, has_key, lemma_entry, lemma_lookup, lemma_lower_bound, lemma_put, lemma_without,
    lower_bound, put, sorted, weight, without,
};
use crate::names::{Names, NamesView};
use crate::standard::place::{Place, PlaceView};
use crate::standard::transition::{Transition, TransitionView};

verus! {

/// A net with arcs that consume and produce only.
#[derive(Debug)]
pub struct Net {
    /// The name of the net.
    pub name: String,
    /// The names of the nodes.
    pub names: Names,
    /// The transitions, each at the position its identifier gives.
    pub transitions: Vec<Transition>,
    /// The places, each at the position its identifier gives.
    pub places: Vec<Place>,
}

/// What a basic net holds.
pub struct NetView {
    /// The name of the net.
    pub name: Seq<char>,
    /// The names of the nodes.
    pub names: NamesView,
    /// The transitions.
    pub transitions: Seq<TransitionView>,
    /// The places.
    pub places: Seq<PlaceView>,
}

/// The net without nodes and without a name, whose new nodes are named by a dash and
/// their number.
pub open spec fn empty() -> NetView {
    NetView {
        name: Seq::empty(),
        names: NamesView { table: Map::empty(), prefix: Seq::empty(), dashed: true },
        transitions: Seq::empty(),
        places: Seq::empty(),
    }
}

impl NetView {
    /// `pl` is a place of the net.
    pub open spec fn valid_place(self, pl: PlaceId) -> bool {
        pl.0 < self.places.len()
    }

    /// `tr` is a transition of the net.
    pub open spec fn valid_transition(self, tr: TransitionId) -> bool {
        tr.0 < self.transitions.len()
    }

    /// `id` is a node of the net.
    pub open spec fn valid_node(self, id: NodeId) -> bool {
        match id {
            NodeId::Place(pl) => self.valid_place(pl),
            NodeId::Transition(tr) => self.valid_transition(tr),
        }
    }

    /// The place at position `p` bears its position as identifier, its arcs are sorted and
    /// lead to transitions of the net, and it has none if it was removed.
    pub open spec fn place_wf(self, p: int) -> bool {
        let place = self.places[p];
        &&& place.id == PlaceId(p as usize)
        &&& sorted(place.consumed_by)
        &&& sorted(place.produced_by)
        &&& forall|i: int|
            0 <= i < place.consumed_by.len() ==> (#[trigger] place.consumed_by[i]).0.0
                < self.transitions.len()
        &&& forall|i: int|
            0 <= i < place.produced_by.len() ==> (#[trigger] place.produced_by[i]).0.0
                < self.transitions.len()
        &&& place.deleted ==> place.is_disconnected()
    }

    /// The transition at position `t` bears its position as identifier, its arcs are sorted
    /// and lead to places of the net, and it has none if it was removed.
    pub open spec fn transition_wf(self, t: int) -> bool {
        let transition = self.transitions[t];
        &&& transition.id == TransitionId(t as usize)
        &&& sorted(transition.consume)
        &&& sorted(transition.produce)
        &&& forall|i: int|
            0 <= i < transition.consume.len() ==> (#[trigger] transition.consume[i]).0.0
                < self.places.len()
        &&& forall|i: int|
            0 <= i < transition.produce.len() ==> (#[trigger] transition.produce[i]).0.0
                < self.places.len()
        &&& transition.deleted ==> transition.is_disconnected()
    }

    /// The place at `p` and the transition at `t` agree on the arcs between them.
    pub open spec fn symmetric(self, p: int, t: int) -> bool {
        let pl = PlaceId(p as usize);
        let tr = TransitionId(t as usize);
        &&& has_key(self.places[p].consumed_by, tr) == has_key(self.transitions[t].consume, pl)
        &&& weight(self.places[p].consumed_by, tr) == weight(self.transitions[t].consume, pl)
        &&& has_key(self.places[p].produced_by, tr) == has_key(self.transitions[t].produce, pl)
        &&& weight(self.places[p].produced_by, tr) == weight(self.transitions[t].produce, pl)
    }

    /// The table of names is well formed, every name stands for a node of the net, and
    /// every node of the net has a name.
    pub open spec fn names_wf(self) -> bool {
        &&& self.names.wf()
        &&& forall|n: Seq<char>| #[trigger]
            self.names.table.contains_key(n) ==> self.valid_node(self.names.table[n])
        &&& forall|id: NodeId| #[trigger] self.valid_node(id) ==> self.names.has_name(id)
    }

    /// The invariant of a net: names and nodes correspond one to one, every node is well
    /// formed, and each arc is recorded alike at both of its ends.
    pub open spec fn wf(self) -> bool {
        &&& self.names_wf()
        &&& self.places.len() <= usize::MAX
        &&& self.transitions.len() <= usize::MAX
        &&& forall|p: int| 0 <= p < self.places.len() ==> #[trigger] self.place_wf(p)
        &&& forall|t: int| 0 <= t < self.transitions.len() ==> #[trigger] self.transition_wf(t)
        &&& forall|p: int, t: int|
            0 <= p < self.places.len() && 0 <= t < self.transitions.len()
                ==> #[trigger] self.symmetric(p, t)
    }

    /// The net with one more place, which has the next free identifier and name.
    pub open spec fn create_place(self) -> NetView {
        let id = PlaceId(self.places.len() as usize);
        NetView {
            places: self.places.push(PlaceView::fresh(id)),
            names: self.names.register(NodeId::Place(id)),
            ..self
        }
    }

    /// The net with one more transition, which has the next free identifier and name.
    pub open spec fn create_transition(self) -> NetView {
        let id = TransitionId(self.transitions.len() as usize);
        NetView {
            transitions: self.transitions.push(TransitionView::fresh(id)),
            names: self.names.register(NodeId::Transition(id)),
            ..self
        }
    }

    /// Whether `rename_node` gives `id` the name: the node is in the net, and no other
    /// node bears the name.
    pub open spec fn can_rename(self, id: NodeId, name: Seq<char>) -> bool {
        &&& self.valid_node(id)
        &&& self.names.index_of(name) is Some ==> self.names.index_of(name) == Some(id)
    }

    /// The net after `rename_node`: the prefix of new names has grown away from `name`,
    /// and `id` bears `name` if it could get it.
    pub open spec fn rename_node(self, id: NodeId, name: Seq<char>) -> NetView {
        if !self.valid_node(id) {
            self
        } else if self.names.index_of(name) is Some {
            NetView { names: self.names.avoid(name), ..self }
        } else {
            NetView { names: self.names.avoid(name).set(id, name), ..self }
        }
    }

    /// The arc joins two nodes of the net that were not removed, is of a kind that a
    /// basic net takes, and its weight can be added to what is there.
    pub open spec fn can_add(self, arc: arc::Kind) -> bool {
        match arc {
            arc::Kind::Consume(pl, tr, w) => {
                &&& self.valid_place(pl)
                &&& self.valid_transition(tr)
                &&& !self.places[pl.0 as int].deleted
                &&& !self.transitions[tr.0 as int].deleted
                &&& weight(self.transitions[tr.0 as int].consume, pl) + w <= usize::MAX
            },
            arc::Kind::Produce(pl, tr, w) => {
                &&& self.valid_place(pl)
                &&& self.valid_transition(tr)
                &&& !self.places[pl.0 as int].deleted
                &&& !self.transitions[tr.0 as int].deleted
                &&& weight(self.transitions[tr.0 as int].produce, pl) + w <= usize::MAX
            },
            _ => true,
        }
    }

    /// The net with the weight of `arc` added at both of its ends; an arc of another
    /// kind leaves the net as it is.
    pub open spec fn add_arc(self, arc: arc::Kind) -> NetView {
        match arc {
            arc::Kind::Consume(pl, tr, w) => {
                let t = self.transitions[tr.0 as int];
                let p = self.places[pl.0 as int];
                NetView {
                    transitions: self.transitions.update(
                        tr.0 as int,
                        TransitionView {
                            consume: put(t.consume, pl, (weight(t.consume, pl) + w) as usize),
                            ..t
                        },
                    ),
                    places: self.places.update(
                        pl.0 as int,
                        PlaceView {
                            consumed_by: put(
                                p.consumed_by,
                                tr,
                                (weight(p.consumed_by, tr) + w) as usize,
                            ),
                            ..p
                        },
                    ),
                    ..self
                }
            },
            arc::Kind::Produce(pl, tr, w) => {
                let t = self.transitions[tr.0 as int];
                let p = self.places[pl.0 as int];
                NetView {
                    transitions: self.transitions.update(
                        tr.0 as int,
                        TransitionView {
                            produce: put(t.produce, pl, (weight(t.produce, pl) + w) as usize),
                            ..t
                        },
                    ),
                    places: self.places.update(
                        pl.0 as int,
                        PlaceView {
                            produced_by: put(
                                p.produced_by,
                                tr,
                                (weight(p.produced_by, tr) + w) as usize,
                            ),
                            ..p
                        },
                    ),
                    ..self
                }
            },
            _ => self,
        }
    }

    /// The net without the arcs of the place `pl`, which is marked as removed.
    pub open spec fn delete_place(self, pl: PlaceId) -> NetView {
        NetView {
            transitions: Seq::new(
                self.transitions.len(),
                |t: int|
                    TransitionView {
                        consume: without(self.transitions[t].consume, pl),
                        produce: without(self.transitions[t].produce, pl),
                        ..self.transitions[t]
                    },
            ),
            places: self.places.update(
                pl.0 as int,
                PlaceView {
                    consumed_by: Seq::empty(),
                    produced_by: Seq::empty(),
                    deleted: true,
                    ..self.places[pl.0 as int]
                },
            ),
            ..self
        }
    }

    /// The net without the arcs of the transition `tr`, which is marked as removed.
    pub open spec fn delete_transition(self, tr: TransitionId) -> NetView {
        NetView {
            places: Seq::new(
                self.places.len(),
                |p: int|
                    PlaceView {
                        consumed_by: without(self.places[p].consumed_by, tr),
                        produced_by: without(self.places[p].produced_by, tr),
                        ..self.places[p]
                    },
            ),
            transitions: self.transitions.update(
                tr.0 as int,
                TransitionView {
                    consume: Seq::empty(),
                    produce: Seq::empty(),
                    deleted: true,
                    ..self.transitions[tr.0 as int]
                },
            ),
            ..self
        }
    }

    /// A net that differs from a well-formed net only in labels and tokens is well
    /// formed.
    pub proof fn lemma_same_arcs(self, r: NetView)
        requires
            self.wf(),
            r.names == self.names,
            r.places.len() == self.places.len(),
            r.transitions.len() == self.transitions.len(),
            forall|p: int|
                0 <= p < self.places.len() ==> {
                    let a = #[trigger] r.places[p];
                    let b = self.places[p];
                    &&& a.id == b.id
                    &&& a.produced_by == b.produced_by
                    &&& a.consumed_by == b.consumed_by
                    &&& a.deleted == b.deleted
                },
            forall|t: int|
                0 <= t < self.transitions.len() ==> {
                    let a = #[trigger] r.transitions[t];
                    let b = self.transitions[t];
                    &&& a.id == b.id
                    &&& a.produce == b.produce
                    &&& a.consume == b.consume
                    &&& a.deleted == b.deleted
                },
        ensures
            r.wf(),
    {
        self.lemma_add_arc_frame(r);
        assert forall|p: int| 0 <= p < r.places.len() implies #[trigger] r.place_wf(p) by {
            assert(self.place_wf(p));
        }
        assert forall|t: int| 0 <= t < r.transitions.len() implies #[trigger] r.transition_wf(
            t,
        ) by {
            assert(self.transition_wf(t));
        }
        assert forall|p: int, t: int|
            0 <= p < r.places.len() && 0 <= t < r.transitions.len() implies #[trigger] r.symmetric(
            p,
            t,
        ) by {
            assert(self.symmetric(p, t));
        }
    }

    /// A new node keeps a well-formed net well formed.
    pub proof fn lemma_create_place(self)
        requires
            self.wf(),
            self.places.len() < usize::MAX,
        ensures
            self.create_place().wf(),
    {
        let r = self.create_place();
        let id = NodeId::Place(PlaceId(self.places.len() as usize));
        self.lemma_unnamed(id);
        lemma_register(self.names, id);
        assert forall|n: Seq<char>| #[trigger] r.names.table.contains_key(n) implies r.valid_node(
            r.names.table[n],
        ) by {
            if self.names.table.contains_key(n) {
                assert(self.valid_node(self.names.table[n]));
            }
        }
        assert forall|i: NodeId| #[trigger] r.valid_node(i) implies r.names.has_name(i) by {
            if i == id {
                assert(r.names.table[self.names.auto_name(self.names.table.len())] == id);
            } else {
                assert(self.valid_node(i));
                let n = choose|n: Seq<char>|
                    self.names.table.contains_key(n) && #[trigger] self.names.table[n] == i;
                assert(r.names.table[n] == i);
            }
        }
        assert forall|p: int| 0 <= p < r.places.len() implies #[trigger] r.place_wf(p) by {
            if p < self.places.len() {
                assert(self.place_wf(p));
            }
        }
        assert forall|t: int| 0 <= t < r.transitions.len() implies #[trigger] r.transition_wf(
            t,
        ) by {
            assert(self.transition_wf(t));
        }
        assert forall|p: int, t: int|
            0 <= p < r.places.len() && 0 <= t < r.transitions.len() implies #[trigger] r.symmetric(
            p,
            t,
        ) by {
            if p < self.places.len() {
                assert(self.symmetric(p, t));
            } else {
                assert(self.transition_wf(t));
                let pl = PlaceId(p as usize);
                lemma_no_key_out_of_range(self.transitions[t].consume, pl, self.places.len());
                lemma_no_key_out_of_range(self.transitions[t].produce, pl, self.places.len());
            }
        }
    }

    /// A new node keeps a well-formed net well formed.
    pub proof fn lemma_create_transition(self)
        requires
            self.wf(),
            self.transitions.len() < usize::MAX,
        ensures
            self.create_transition().wf(),
    {
        let r = self.create_transition();
        let id = NodeId::Transition(TransitionId(self.transitions.len() as usize));
        self.lemma_unnamed(id);
        lemma_register(self.names, id);
        assert forall|n: Seq<char>| #[trigger] r.names.table.contains_key(n) implies r.valid_node(
            r.names.table[n],
        ) by {
            if self.names.table.contains_key(n) {
                assert(self.valid_node(self.names.table[n]));
            }
        }
        assert forall|i: NodeId| #[trigger] r.valid_node(i) implies r.names.has_name(i) by {
            if i == id {
                assert(r.names.table[self.names.auto_name(self.names.table.len())] == id);
            } else {
                assert(self.valid_node(i));
                let n = choose|n: Seq<char>|
                    self.names.table.contains_key(n) && #[trigger] self.names.table[n] == i;
                assert(r.names.table[n] == i);
            }
        }
        assert forall|p: int| 0 <= p < r.places.len() implies #[trigger] r.place_wf(p) by {
            assert(self.place_wf(p));
        }
        assert forall|t: int| 0 <= t < r.transitions.len() implies #[trigger] r.transition_wf(
            t,
        ) by {
            if t < self.transitions.len() {
                assert(self.transition_wf(t));
            }
        }
        assert forall|p: int, t: int|
            0 <= p < r.places.len() && 0 <= t < r.transitions.len() implies #[trigger] r.symmetric(
            p,
            t,
        ) by {
            if t < self.transitions.len() {
                assert(self.symmetric(p, t));
            } else {
                assert(self.place_wf(p));
                let tr = TransitionId(t as usize);
                lemma_no_key_out_of_range(
                    self.places[p].consumed_by,
                    tr,
                    self.transitions.len(),
                );
                lemma_no_key_out_of_range(
                    self.places[p].produced_by,
                    tr,
                    self.transitions.len(),
                );
            }
        }
    }

    /// A node that is not in the net has no name.
    pub proof fn lemma_unnamed(self, id: NodeId)
        requires
            self.names_wf(),
            !self.valid_node(id),
        ensures
            !self.names.has_name(id),
    {
        if self.names.has_name(id) {
            let n = choose|n: Seq<char>|
                self.names.table.contains_key(n) && #[trigger] self.names.table[n] == id;
            assert(self.valid_node(self.names.table[n]));
        }
    }

    /// Renaming keeps a well-formed net well formed.
    pub proof fn lemma_rename_node(self, id: NodeId, name: Seq<char>)
        requires
            self.wf(),
        ensures
            self.rename_node(id, name).wf(),
    {
        let r = self.rename_node(id, name);
        assert forall|p: int| 0 <= p < r.places.len() implies #[trigger] r.place_wf(p) by {
            assert(self.place_wf(p));
        }
        assert forall|t: int| 0 <= t < r.transitions.len() implies #[trigger] r.transition_wf(
            t,
        ) by {
            assert(self.transition_wf(t));
        }
        assert forall|p: int, t: int|
            0 <= p < r.places.len() && 0 <= t < r.transitions.len() implies #[trigger] r.symmetric(
            p,
            t,
        ) by {
            assert(self.symmetric(p, t));
        }
        if self.valid_node(id) {
            crate::names::lemma_avoid(self.names, name);
            let a = self.names.avoid(name);
            if self.names.index_of(name) is Some {
                assert forall|i: NodeId| #[trigger] r.valid_node(i) implies r.names.has_name(
                    i,
                ) by {
                    assert(self.valid_node(i));
                    let n = choose|n: Seq<char>|
                        self.names.table.contains_key(n) && #[trigger] self.names.table[n] == i;
                    assert(r.names.table[n] == i);
                }
            } else {
                crate::names::lemma_set(a, id, name);
                assert forall|n: Seq<char>| #[trigger]
                    r.names.table.contains_key(n) implies r.valid_node(r.names.table[n]) by {
                    if n != name {
                        assert(self.names.table.contains_key(n));
                        assert(self.valid_node(self.names.table[n]));
                    }
                }
                assert forall|i: NodeId| #[trigger] r.valid_node(i) implies r.names.has_name(
                    i,
                ) by {
                    if i == id {
                        assert(r.names.table[name] == id);
                    } else {
                        assert(self.valid_node(i));
                        let n = choose|n: Seq<char>|
                            self.names.table.contains_key(n) && #[trigger] self.names.table[n]
                                == i;
                        assert(r.names.table[n] == i);
                    }
                }
            }
        }
    }
}

impl NetView {
    /// Adding an arc keeps a well-formed net well formed.
    pub proof fn lemma_add_arc(self, arc: arc::Kind)
        requires
            self.wf(),
            self.can_add(arc),
        ensures
            self.add_arc(arc).wf(),
            self.add_arc(arc).places.len() == self.places.len(),
            self.add_arc(arc).transitions.len() == self.transitions.len(),
    {
        let r = self.add_arc(arc);
        match arc {
            arc::Kind::Consume(pl, tr, w) => {
                let t0 = self.transitions[tr.0 as int];
                let p0 = self.places[pl.0 as int];
                assert(self.place_wf(pl.0 as int));
                assert(self.transition_wf(tr.0 as int));
                assert(self.symmetric(pl.0 as int, tr.0 as int));
                let v = (weight(t0.consume, pl) + w) as usize;
                lemma_put(t0.consume, pl, v);
                lemma_put(p0.consumed_by, tr, v);
                self.lemma_add_arc_frame(r);
                assert(r.place_wf(pl.0 as int)) by {
                    lemma_put_range(p0.consumed_by, tr, v, self.transitions.len());
                }
                assert(r.transition_wf(tr.0 as int)) by {
                    lemma_put_range(t0.consume, pl, v, self.places.len());
                }
                assert forall|p: int, t: int|
                    0 <= p < r.places.len() && 0 <= t < r.transitions.len()
                        && (p == pl.0 || t == tr.0) implies #[trigger] r.symmetric(p, t) by {
                    assert(self.symmetric(p, t));
                    if p != pl.0 {
                        assert(PlaceId(p as usize) != pl);
                    }
                    if t != tr.0 {
                        assert(TransitionId(t as usize) != tr);
                    }
                }
            },
            arc::Kind::Produce(pl, tr, w) => {
                let t0 = self.transitions[tr.0 as int];
                let p0 = self.places[pl.0 as int];
                assert(self.place_wf(pl.0 as int));
                assert(self.transition_wf(tr.0 as int));
                assert(self.symmetric(pl.0 as int, tr.0 as int));
                let v = (weight(t0.produce, pl) + w) as usize;
                lemma_put(t0.produce, pl, v);
                lemma_put(p0.produced_by, tr, v);
                self.lemma_add_arc_frame(r);
                assert(r.place_wf(pl.0 as int)) by {
                    lemma_put_range(p0.produced_by, tr, v, self.transitions.len());
                }
                assert(r.transition_wf(tr.0 as int)) by {
                    lemma_put_range(t0.produce, pl, v, self.places.len());
                }
                assert forall|p: int, t: int|
                    0 <= p < r.places.len() && 0 <= t < r.transitions.len()
                        && (p == pl.0 || t == tr.0) implies #[trigger] r.symmetric(p, t) by {
                    assert(self.symmetric(p, t));
                    if p != pl.0 {
                        assert(PlaceId(p as usize) != pl);
                    }
                    if t != tr.0 {
                        assert(TransitionId(t as usize) != tr);
                    }
                }
            },
            _ => {},
        }
    }

    /// What is true of every net `r` that has the names and the sizes of `self`: the
    /// names are well formed, and every node and every pair of nodes that is the same in
    /// both is well formed in `r`.
    pub proof fn lemma_add_arc_frame(self, r: NetView)
        requires
            self.wf(),
            r.names == self.names,
            r.places.len() == self.places.len(),
            r.transitions.len() == self.transitions.len(),
        ensures
            r.names_wf(),
            forall|p: int|
                0 <= p < r.places.len() && r.places[p] == self.places[p] ==> #[trigger] r.place_wf(
                    p,
                ),
            forall|t: int|
                0 <= t < r.transitions.len() && r.transitions[t] == self.transitions[t]
                    ==> #[trigger] r.transition_wf(t),
            forall|p: int, t: int|
                0 <= p < r.places.len() && 0 <= t < r.transitions.len() && r.places[p]
                    == self.places[p] && r.transitions[t] == self.transitions[t]
                    ==> #[trigger] r.symmetric(p, t),
    {
        assert forall|n: Seq<char>| #[trigger] r.names.table.contains_key(n) implies r.valid_node(
            r.names.table[n],
        ) by {
            assert(self.valid_node(self.names.table[n]));
        }
        assert forall|i: NodeId| #[trigger] r.valid_node(i) implies r.names.has_name(i) by {
            assert(self.valid_node(i));
        }
        assert forall|p: int|
            0 <= p < r.places.len() && r.places[p] == self.places[p] implies #[trigger] r.place_wf(
            p,
        ) by {
            assert(self.place_wf(p));
        }
        assert forall|t: int|
            0 <= t < r.transitions.len() && r.transitions[t]
                == self.transitions[t] implies #[trigger] r.transition_wf(t) by {
            assert(self.transition_wf(t));
        }
        assert forall|p: int, t: int|
            0 <= p < r.places.len() && 0 <= t < r.transitions.len() && r.places[p]
                == self.places[p] && r.transitions[t]
                == self.transitions[t] implies #[trigger] r.symmetric(p, t) by {
            assert(self.symmetric(p, t));
        }
    }

    /// Removing a place keeps a well-formed net well formed.
    pub proof fn lemma_delete_place(self, pl: PlaceId)
        requires
            self.wf(),
            self.valid_place(pl),
        ensures
            self.delete_place(pl).wf(),
    {
        let r = self.delete_place(pl);
        assert forall|n: Seq<char>| #[trigger] r.names.table.contains_key(n) implies r.valid_node(
            r.names.table[n],
        ) by {
            assert(self.valid_node(self.names.table[n]));
        }
        assert forall|i: NodeId| #[trigger] r.valid_node(i) implies r.names.has_name(i) by {
            assert(self.valid_node(i));
        }
        assert forall|p: int| 0 <= p < r.places.len() implies #[trigger] r.place_wf(p) by {
            assert(self.place_wf(p));
        }
        assert forall|t: int| 0 <= t < r.transitions.len() implies #[trigger] r.transition_wf(
            t,
        ) by {
            assert(self.transition_wf(t));
            let t0 = self.transitions[t];
            lemma_without(t0.consume, pl);
            lemma_without(t0.produce, pl);
            lemma_without_range(t0.consume, pl, self.places.len());
            lemma_without_range(t0.produce, pl, self.places.len());
            if t0.deleted {
                assert(without(t0.consume, pl) =~= t0.consume);
                assert(without(t0.produce, pl) =~= t0.produce);
            }
        }
        assert forall|p: int, t: int|
            0 <= p < r.places.len() && 0 <= t < r.transitions.len() implies #[trigger] r.symmetric(
            p,
            t,
        ) by {
            assert(self.symmetric(p, t));
            assert(self.transition_wf(t));
            let t0 = self.transitions[t];
            lemma_without(t0.consume, pl);
            lemma_without(t0.produce, pl);
            if p != pl.0 {
                assert(PlaceId(p as usize) != pl);
            }
        }
    }

    /// Removing a transition keeps a well-formed net well formed.
    pub proof fn lemma_delete_transition(self, tr: TransitionId)
        requires
            self.wf(),
            self.valid_transition(tr),
        ensures
            self.delete_transition(tr).wf(),
    {
        let r = self.delete_transition(tr);
        assert forall|n: Seq<char>| #[trigger] r.names.table.contains_key(n) implies r.valid_node(
            r.names.table[n],
        ) by {
            assert(self.valid_node(self.names.table[n]));
        }
        assert forall|i: NodeId| #[trigger] r.valid_node(i) implies r.names.has_name(i) by {
            assert(self.valid_node(i));
        }
        assert forall|t: int| 0 <= t < r.transitions.len() implies #[trigger] r.transition_wf(
            t,
        ) by {
            assert(self.transition_wf(t));
        }
        assert forall|p: int| 0 <= p < r.places.len() implies #[trigger] r.place_wf(p) by {
            assert(self.place_wf(p));
            let p0 = self.places[p];
            lemma_without(p0.consumed_by, tr);
            lemma_without(p0.produced_by, tr);
            lemma_without_range(p0.consumed_by, tr, self.transitions.len());
            lemma_without_range(p0.produced_by, tr, self.transitions.len());
            if p0.deleted {
                assert(without(p0.consumed_by, tr) =~= p0.consumed_by);
                assert(without(p0.produced_by, tr) =~= p0.produced_by);
            }
        }
        assert forall|p: int, t: int|
            0 <= p < r.places.len() && 0 <= t < r.transitions.len() implies #[trigger] r.symmetric(
            p,
            t,
        ) by {
            assert(self.symmetric(p, t));
            assert(self.place_wf(p));
            let p0 = self.places[p];
            lemma_without(p0.consumed_by, tr);
            lemma_without(p0.produced_by, tr);
            if t != tr.0 {
                assert(TransitionId(t as usize) != tr);
            }
        }
    }
}

/// Putting a key below `bound` into a sequence of keys below `bound` leaves all keys below it.
pub proof fn lemma_put_range<T: Key>(
    s: Seq<(T, usize)>,
    k: T,
    v: usize,
    bound: nat,
)
    requires
        sorted(s),
        forall|i: int| 0 <= i < s.len() ==> (#[trigger] s[i]).0.rank() < bound,
        k.rank() < bound,
    ensures
        forall|i: int| 0 <= i < put(s, k, v).len() ==> (#[trigger] put(s, k, v)[i]).0.rank() < bound,
{
    lemma_lower_bound(s, k);
    let p = lower_bound(s, k);
    let r = put(s, k, v);
    assert forall|i: int| 0 <= i < r.len() implies (#[trigger] r[i]).0.rank() < bound by {
        if p < s.len() && s[p].0.rank() == k.rank() {
            if i != p {
                assert(r[i] == s[i]);
            }
        } else {
            if i < p {
                assert(r[i] == s[i]);
            } else if i > p {
                assert(r[i] == s[i - 1]);
            }
        }
    }
}

/// Taking a key out of a sequence of keys below `bound` leaves all keys below it.
pub proof fn lemma_without_range<T: Key>(s: Seq<(T, usize)>, k: T, bound: nat)
    requires
        sorted(s),
        forall|i: int| 0 <= i < s.len() ==> (#[trigger] s[i]).0.rank() < bound,
    ensures
        forall|i: int|
            0 <= i < without(s, k).len() ==> (#[trigger] without(s, k)[i]).0.rank() < bound,
{
    lemma_lower_bound(s, k);
    let p = lower_bound(s, k);
    let r = without(s, k);
    assert forall|i: int| 0 <= i < r.len() implies (#[trigger] r[i]).0.rank() < bound by {
        if p < s.len() && s[p].0.rank() == k.rank() {
            if i < p {
                assert(r[i] == s[i]);
            } else {
                assert(r[i] == s[i + 1]);
            }
        }
    }
}

/// A sorted sequence whose keys all lie below `bound` holds no key at or above it.
pub proof fn lemma_no_key_out_of_range<T: Key>(
    s: Seq<(T, usize)>,
    k: T,
    bound: nat,
)
    requires
        forall|i: int| 0 <= i < s.len() ==> (#[trigger] s[i]).0.rank() < bound,
        k.rank() >= bound,
    ensures
        !has_key(s, k),
        weight(s, k) == 0,
{
    if has_key(s, k) {
        let i = crate::marking::position(s, k);
        assert(s[i].0.rank() < bound);
    }
}

/// Giving a name to a node that has none keeps the table well formed.
pub proof fn lemma_register(v: NamesView, id: NodeId)
    requires
        v.wf(),
        !v.has_name(id),
    ensures
        v.register(id).wf(),
        !v.table.contains_key(v.auto_name(v.table.len())),
        v.register(id).table == v.table.insert(v.auto_name(v.table.len()), id),
{
    crate::names::lemma_register_wf(v, id);
}


impl View for Net {
    type V = NetView;

    open spec fn view(&self) -> NetView {
        NetView {
            name: self.name@,
            names: self.names@,
            transitions: self.transitions@.map_values(|t: Transition| t@),
            places: self.places@.map_values(|p: Place| p@),
        }
    }
}

impl Default for Net {
    /// A net without nodes.
    fn default() -> (net: Net)
        ensures
            net.wf(),
            net@ == empty(),
    {
        Net::new()
    }
}

impl std::ops::Index<PlaceId> for Net {
    type Output = Place;

    fn index(&self, index: PlaceId) -> (r: &Place)
        ensures
            r@ == self@.places[index.0 as int],
    {
        &self.places[index.0]
    }
}

impl vstd::std_specs::core::IndexSpecImpl<PlaceId> for Net {
    open spec fn index_req(&self, index: &PlaceId) -> bool {
        self@.valid_place(*index)
    }
}

impl std::ops::Index<TransitionId> for Net {
    type Output = Transition;

    fn index(&self, index: TransitionId) -> (r: &Transition)
        ensures
            r@ == self@.transitions[index.0 as int],
    {
        &self.transitions[index.0]
    }
}

impl vstd::std_specs::core::IndexSpecImpl<TransitionId> for Net {
    open spec fn index_req(&self, index: &TransitionId) -> bool {
        self@.valid_transition(*index)
    }
}

impl Net {
    /// The invariant of the net holds.
    pub open spec fn wf(&self) -> bool {
        self@.wf()
    }

    /// A net without nodes.
    pub fn new() -> (net: Net)
        ensures
            net.wf(),
            net@ == empty(),
    {
        let net = Net {
            name: String::new(),
            names: Names::new(true),
            transitions: Vec::new(),
            places: Vec::new(),
        };
        proof {
            assert(net@.names.table =~= Map::<Seq<char>, NodeId>::empty());
            assert(net@.places =~= Seq::empty());
            assert(net@.transitions =~= Seq::empty());
            assert forall|id: NodeId| #[trigger] net@.valid_node(id) implies net@.names.has_name(
                id,
            ) by {}
        }
        net
    }

    /// Creates a place without arcs and gives it the next free name.
    pub fn create_place(&mut self) -> (pl: PlaceId)
        requires
            old(self).wf(),
            old(self)@.places.len() < usize::MAX,
        ensures
            final(self).wf(),
            final(self)@ == old(self)@.create_place(),
            pl.0 == old(self)@.places.len(),
    {
        let pl = PlaceId(self.places.len());
        proof {
            self@.lemma_unnamed(NodeId::Place(pl));
            self@.lemma_create_place();
        }
        self.places.push(Place::new(pl));
        self.names.register(NodeId::Place(pl));
        proof {
            assert(self@.places =~= old(self)@.create_place().places);
            assert(self@.transitions =~= old(self)@.transitions);
        }
        pl
    }

    /// Creates a transition without arcs and gives it the next free name.
    pub fn create_transition(&mut self) -> (tr: TransitionId)
        requires
            old(self).wf(),
            old(self)@.transitions.len() < usize::MAX,
        ensures
            final(self).wf(),
            final(self)@ == old(self)@.create_transition(),
            tr.0 == old(self)@.transitions.len(),
    {
        let tr = TransitionId(self.transitions.len());
        proof {
            self@.lemma_unnamed(NodeId::Transition(tr));
            self@.lemma_create_transition();
        }
        self.transitions.push(Transition::new(tr));
        self.names.register(NodeId::Transition(tr));
        proof {
            assert(self@.transitions =~= old(self)@.create_transition().transitions);
            assert(self@.places =~= old(self)@.places);
        }
        tr
    }

    /// The name of a node.
    pub fn get_name_by_index(&self, index: &NodeId) -> (r: Option<String>)
        requires
            self.wf(),
        ensures
            match r {
                Some(s) => self@.names.name_of(*index) == Some(s@),
                None => self@.names.name_of(*index) is None,
            },
            self@.valid_node(*index) ==> r is Some,
    {
        self.names.get_name_by_index(index)
    }

    /// The node that bears a name.
    pub fn get_index_by_name(&self, name: &str) -> (r: Option<NodeId>)
        requires
            self.wf(),
        ensures
            r == self@.names.index_of(name@),
            r is Some ==> self@.valid_node(r->0),
    {
        self.names.get_index_by_name(name)
    }

    /// Whether `id` is a node of the net.
    pub fn contains_node(&self, id: NodeId) -> (b: bool)
        ensures
            b == self@.valid_node(id),
    {
        match id {
            NodeId::Place(pl) => pl.0 < self.places.len(),
            NodeId::Transition(tr) => tr.0 < self.transitions.len(),
        }
    }

    /// Gives the node `id` the name `name`.
    ///
    /// The prefix of the names of new nodes grows until `name` does not begin with it.
    /// A name that another node bears is refused with `DuplicatedName`, a node that is
    /// not in the net with `InvalidPlace` or `InvalidTransition`.
    pub fn rename_node(&mut self, id: NodeId, name: &str) -> (r: Result<(), NetError>)
        requires
            old(self).wf(),
        ensures
            final(self).wf(),
            final(self)@ == old(self)@.rename_node(id, name@),
            r is Ok <==> old(self)@.can_rename(id, name@),
            match r {
                Ok(_) => true,
                Err(NetError::InvalidPlace(pl)) => id == NodeId::Place(pl) && !old(
                    self,
                )@.valid_node(id),
                Err(NetError::InvalidTransition(tr)) => id == NodeId::Transition(tr) && !old(
                    self,
                )@.valid_node(id),
                Err(NetError::DuplicatedName(n)) => n@ == name@ && old(self)@.valid_node(id),
                Err(_) => false,
            },
    {
        proof {
            self@.lemma_rename_node(id, name@);
        }
        if !self.contains_node(id) {
            return match id {
                NodeId::Place(pl) => Err(NetError::InvalidPlace(pl)),
                NodeId::Transition(tr) => Err(NetError::InvalidTransition(tr)),
            };
        }
        self.names.avoid(name);
        match self.names.get_index_by_name(name) {
            None => {
                self.names.set(id, name);
                Ok(())
            },
            Some(holder) => {
                if holder == id {
                    Ok(())
                } else {
                    Err(NetError::DuplicatedName(name.to_owned()))
                }
            },
        }
    }

    /// Whether `add_arc` can take `arc`: its ends are nodes of the net that were not
    /// removed, and its weight can be added to what is there.
    pub fn can_add_arc(&self, arc: &arc::Kind) -> (b: bool)
        requires
            self.wf(),
        ensures
            b == self@.can_add(*arc),
    {
        match *arc {
            arc::Kind::Consume(pl, tr, w) => {
                if pl.0 < self.places.len() && tr.0 < self.transitions.len() {
                    assert(self@.transition_wf(tr.0 as int));
                    !self.places[pl.0].deleted && !self.transitions[tr.0].deleted
                        && self.transitions[tr.0].consume.get(pl) <= usize::MAX - w
                } else {
                    false
                }
            },
            arc::Kind::Produce(pl, tr, w) => {
                if pl.0 < self.places.len() && tr.0 < self.transitions.len() {
                    assert(self@.transition_wf(tr.0 as int));
                    !self.places[pl.0].deleted && !self.transitions[tr.0].deleted
                        && self.transitions[tr.0].produce.get(pl) <= usize::MAX - w
                } else {
                    false
                }
            },
            _ => true,
        }
    }

    /// Adds an arc: its weight is added at the place and at the transition.
    ///
    /// A basic net takes arcs that consume or produce; any other kind is refused with
    /// `UnsupportedArc` and the net stays as it is.
    pub fn add_arc(&mut self, arc: arc::Kind) -> (r: Result<(), NetError>)
        requires
            old(self).wf(),
            old(self)@.can_add(arc),
        ensures
            final(self).wf(),
            final(self)@ == old(self)@.add_arc(arc),
            r is Ok <==> (arc is Consume || arc is Produce),
            r is Err ==> r == Err::<(), NetError>(NetError::UnsupportedArc(arc)),
    {
        proof {
            self@.lemma_add_arc(arc);
        }
        match arc {
            arc::Kind::Consume(pl, tr, w) => {
                proof {
                    assert(self@.transition_wf(tr.0 as int));
                    assert(self@.place_wf(pl.0 as int));
                    assert(self@.symmetric(pl.0 as int, tr.0 as int));
                }
                self.transitions[tr.0].consume.insert_or_add(pl, w);
                self.places[pl.0].consumed_by.insert_or_add(tr, w);
                proof {
                    assert(self@.transitions =~= old(self)@.add_arc(arc).transitions);
                    assert(self@.places =~= old(self)@.add_arc(arc).places);
                }
                Ok(())
            },
            arc::Kind::Produce(pl, tr, w) => {
                proof {
                    assert(self@.transition_wf(tr.0 as int));
                    assert(self@.place_wf(pl.0 as int));
                    assert(self@.symmetric(pl.0 as int, tr.0 as int));
                }
                self.transitions[tr.0].produce.insert_or_add(pl, w);
                self.places[pl.0].produced_by.insert_or_add(tr, w);
                proof {
                    assert(self@.transitions =~= old(self)@.add_arc(arc).transitions);
                    assert(self@.places =~= old(self)@.add_arc(arc).places);
                }
                Ok(())
            },
            a => Err(NetError::UnsupportedArc(a)),
        }
    }

    /// Removes the place from the net: its arcs are taken out at both ends and it is
    /// marked as removed. Its identifier and its name stay.
    pub fn delete_place(&mut self, place: PlaceId)
        requires
            old(self).wf(),
            old(self)@.valid_place(place),
        ensures
            final(self).wf(),
            final(self)@ == old(self)@.delete_place(place),
    {
        let ghost v = self@;
        proof {
            v.lemma_delete_place(place);
            assert(v.place_wf(place.0 as int));
        }
        let n = self.places[place.0].consumed_by.len();
        let mut i: usize = 0;
        while i < n
            invariant
                i <= n,
                v.wf(),
                v.valid_place(place),
                v == old(self)@,
                n == v.places[place.0 as int].consumed_by.len(),
                self@.places == v.places,
                self@.names == v.names,
                self@.name == v.name,
                self@.transitions.len() == v.transitions.len(),
                forall|t: int|
                    0 <= t < v.transitions.len() ==> {
                        let cur = #[trigger] self@.transitions[t];
                        let old_t = v.transitions[t];
                        &&& cur.id == old_t.id
                        &&& cur.label == old_t.label
                        &&& cur.deleted == old_t.deleted
                        &&& cur.produce == old_t.produce
                        &&& cur.consume == (if exists|j: int|
                            0 <= j < i && (#[trigger] v.places[place.0 as int].consumed_by[j]).0.0
                                == t {
                            without(old_t.consume, place)
                        } else {
                            old_t.consume
                        })
                    },
            decreases n - i,
        {
            let e = self.places[place.0].consumed_by.entry(i);
            let tr = e.0;
            let ghost before = self@;
            proof {
                assert(v.place_wf(place.0 as int));
                assert(v.places[place.0 as int].consumed_by[i as int].0.0 < v.transitions.len());
                assert(v.transition_wf(tr.0 as int));
                let cb = v.places[place.0 as int].consumed_by;
                if exists|j: int| 0 <= j < i && (#[trigger] cb[j]).0.0 == tr.0 {
                    let j = choose|j: int| 0 <= j < i && (#[trigger] cb[j]).0.0 == tr.0;
                    assert(cb[j].0.rank() < cb[i as int].0.rank());
                }
                assert(before.transitions[tr.0 as int].consume == v.transitions[tr.0 as int].consume);
            }
            self.transitions[tr.0].consume.delete(place);
            proof {
                let cb = v.places[place.0 as int].consumed_by;
                assert(self@.places =~= v.places);
                assert forall|t: int| 0 <= t < v.transitions.len() implies {
                    let cur = #[trigger] self@.transitions[t];
                    let old_t = v.transitions[t];
                    &&& cur.id == old_t.id
                    &&& cur.label == old_t.label
                    &&& cur.deleted == old_t.deleted
                    &&& cur.produce == old_t.produce
                    &&& cur.consume == (if exists|j: int|
                        0 <= j < i + 1 && (#[trigger] cb[j]).0.0 == t {
                        without(old_t.consume, place)
                    } else {
                        old_t.consume
                    })
                } by {
                    if t == tr.0 {
                        assert(cb[i as int].0.0 == t);
                    } else {
                        assert(self@.transitions[t] == before.transitions[t]);
                        if exists|j: int| 0 <= j < i + 1 && (#[trigger] cb[j]).0.0 == t {
                            let j = choose|j: int| 0 <= j < i + 1 && (#[trigger] cb[j]).0.0 == t;
                            assert(j < i);
                        }
                    }
                }
            }
            i += 1;
        }
        let ghost mid = self@;
        let m = self.places[place.0].produced_by.len();
        let mut k: usize = 0;
        while k < m
            invariant
                k <= m,
                v.wf(),
                v.valid_place(place),
                v == old(self)@,
                m == v.places[place.0 as int].produced_by.len(),
                self@.places == v.places,
                self@.names == v.names,
                self@.name == v.name,
                self@.transitions.len() == v.transitions.len(),
                mid.transitions.len() == v.transitions.len(),
                forall|t: int|
                    0 <= t < v.transitions.len() ==> {
                        let cur = #[trigger] self@.transitions[t];
                        let old_t = v.transitions[t];
                        &&& cur.id == old_t.id
                        &&& cur.label == old_t.label
                        &&& cur.deleted == old_t.deleted
                        &&& cur.consume == mid.transitions[t].consume
                        &&& cur.produce == (if exists|j: int|
                            0 <= j < k && (#[trigger] v.places[place.0 as int].produced_by[j]).0.0
                                == t {
                            without(old_t.produce, place)
                        } else {
                            old_t.produce
                        })
                    },
            decreases m - k,
        {
            let e = self.places[place.0].produced_by.entry(k);
            let tr = e.0;
            let ghost before = self@;
            proof {
                assert(v.place_wf(place.0 as int));
                assert(v.places[place.0 as int].produced_by[k as int].0.0 < v.transitions.len());
                assert(v.transition_wf(tr.0 as int));
                let pb = v.places[place.0 as int].produced_by;
                if exists|j: int| 0 <= j < k && (#[trigger] pb[j]).0.0 == tr.0 {
                    let j = choose|j: int| 0 <= j < k && (#[trigger] pb[j]).0.0 == tr.0;
                    assert(pb[j].0.rank() < pb[k as int].0.rank());
                }
                assert(before.transitions[tr.0 as int].produce == v.transitions[tr.0 as int].produce);
            }
            self.transitions[tr.0].produce.delete(place);
            proof {
                let pb = v.places[place.0 as int].produced_by;
                assert(self@.places =~= v.places);
                assert forall|t: int| 0 <= t < v.transitions.len() implies {
                    let cur = #[trigger] self@.transitions[t];
                    let old_t = v.transitions[t];
                    &&& cur.id == old_t.id
                    &&& cur.label == old_t.label
                    &&& cur.deleted == old_t.deleted
                    &&& cur.consume == mid.transitions[t].consume
                    &&& cur.produce == (if exists|j: int|
                        0 <= j < k + 1 && (#[trigger] pb[j]).0.0 == t {
                        without(old_t.produce, place)
                    } else {
                        old_t.produce
                    })
                } by {
                    if t == tr.0 {
                        assert(pb[k as int].0.0 == t);
                    } else {
                        assert(self@.transitions[t] == before.transitions[t]);
                        if exists|j: int| 0 <= j < k + 1 && (#[trigger] pb[j]).0.0 == t {
                            let j = choose|j: int| 0 <= j < k + 1 && (#[trigger] pb[j]).0.0 == t;
                            assert(j < k);
                        }
                    }
                }
            }
            k += 1;
        }
        self.places[place.0].consumed_by.clear();
        self.places[place.0].produced_by.clear();
        self.places[place.0].deleted = true;
        proof {
            let r = v.delete_place(place);
            assert(self@.places =~= r.places);
            assert forall|t: int| 0 <= t < v.transitions.len() implies self@.transitions[t]
                == r.transitions[t] by {
                v.lemma_untouched_transition(place, t);
                let cb = v.places[place.0 as int].consumed_by;
                let pb = v.places[place.0 as int].produced_by;
                let cur = self@.transitions[t];
                assert(cur.consume == mid.transitions[t].consume);
                if exists|j: int| 0 <= j < n && (#[trigger] cb[j]).0.0 == t {
                } else {
                    assert(!has_key(cb, TransitionId(t as usize))) by {
                        if has_key(cb, TransitionId(t as usize)) {
                            let j = crate::marking::position(cb, TransitionId(t as usize));
                            assert(cb[j].0.0 == t);
                        }
                    }
                }
                if exists|j: int| 0 <= j < m && (#[trigger] pb[j]).0.0 == t {
                } else {
                    assert(!has_key(pb, TransitionId(t as usize))) by {
                        if has_key(pb, TransitionId(t as usize)) {
                            let j = crate::marking::position(pb, TransitionId(t as usize));
                            assert(pb[j].0.0 == t);
                        }
                    }
                }
            }
            assert(self@.transitions =~= r.transitions);
        }
    }

    /// Removes the transition from the net: its arcs are taken out at both ends and it is
    /// marked as removed. Its identifier and its name stay.
    pub fn delete_transition(&mut self, transition: TransitionId)
        requires
            old(self).wf(),
            old(self)@.valid_transition(transition),
        ensures
            final(self).wf(),
            final(self)@ == old(self)@.delete_transition(transition),
    {
        let ghost v = self@;
        proof {
            v.lemma_delete_transition(transition);
            assert(v.transition_wf(transition.0 as int));
        }
        let n = self.transitions[transition.0].consume.len();
        let mut i: usize = 0;
        while i < n
            invariant
                i <= n,
                v.wf(),
                v.valid_transition(transition),
                v == old(self)@,
                n == v.transitions[transition.0 as int].consume.len(),
                self@.transitions == v.transitions,
                self@.names == v.names,
                self@.name == v.name,
                self@.places.len() == v.places.len(),
                forall|t: int|
                    0 <= t < v.places.len() ==> {
                        let cur = #[trigger] self@.places[t];
                        let old_p = v.places[t];
                        &&& cur.id == old_p.id
                        &&& cur.label == old_p.label
                        &&& cur.initial == old_p.initial
                        &&& cur.deleted == old_p.deleted
                        &&& cur.produced_by == old_p.produced_by
                        &&& cur.consumed_by == (if exists|j: int|
                            0 <= j < i && (#[trigger] v.transitions[transition.0 as int].consume[j]).0.0
                                == t {
                            without(old_p.consumed_by, transition)
                        } else {
                            old_p.consumed_by
                        })
                    },
            decreases n - i,
        {
            let e = self.transitions[transition.0].consume.entry(i);
            let pl = e.0;
            let ghost before = self@;
            proof {
                assert(v.transition_wf(transition.0 as int));
                assert(v.transitions[transition.0 as int].consume[i as int].0.0 < v.places.len());
                assert(v.place_wf(pl.0 as int));
                let cb = v.transitions[transition.0 as int].consume;
                if exists|j: int| 0 <= j < i && (#[trigger] cb[j]).0.0 == pl.0 {
                    let j = choose|j: int| 0 <= j < i && (#[trigger] cb[j]).0.0 == pl.0;
                    assert(cb[j].0.rank() < cb[i as int].0.rank());
                }
                assert(before.places[pl.0 as int].consumed_by == v.places[pl.0 as int].consumed_by);
            }
            self.places[pl.0].consumed_by.delete(transition);
            proof {
                let cb = v.transitions[transition.0 as int].consume;
                assert(self@.transitions =~= v.transitions);
                assert forall|t: int| 0 <= t < v.places.len() implies {
                    let cur = #[trigger] self@.places[t];
                    let old_p = v.places[t];
                    &&& cur.id == old_p.id
                    &&& cur.label == old_p.label
                    &&& cur.initial == old_p.initial
                    &&& cur.deleted == old_p.deleted
                    &&& cur.produced_by == old_p.produced_by
                    &&& cur.consumed_by == (if exists|j: int|
                        0 <= j < i + 1 && (#[trigger] cb[j]).0.0 == t {
                        without(old_p.consumed_by, transition)
                    } else {
                        old_p.consumed_by
                    })
                } by {
                    if t == pl.0 {
                        assert(cb[i as int].0.0 == t);
                    } else {
                        assert(self@.places[t] == before.places[t]);
                        if exists|j: int| 0 <= j < i + 1 && (#[trigger] cb[j]).0.0 == t {
                            let j = choose|j: int| 0 <= j < i + 1 && (#[trigger] cb[j]).0.0 == t;
                            assert(j < i);
                        }
                    }
                }
            }
            i += 1;
        }
        let ghost mid = self@;
        let m = self.transitions[transition.0].produce.len();
        let mut k: usize = 0;
        while k < m
            invariant
                k <= m,
                v.wf(),
                v.valid_transition(transition),
                v == old(self)@,
                m == v.transitions[transition.0 as int].produce.len(),
                self@.transitions == v.transitions,
                self@.names == v.names,
                self@.name == v.name,
                self@.places.len() == v.places.len(),
                mid.places.len() == v.places.len(),
                forall|t: int|
                    0 <= t < v.places.len() ==> {
                        let cur = #[trigger] self@.places[t];
                        let old_p = v.places[t];
                        &&& cur.id == old_p.id
                        &&& cur.label == old_p.label
                        &&& cur.initial == old_p.initial
                        &&& cur.deleted == old_p.deleted
                        &&& cur.consumed_by == mid.places[t].consumed_by
                        &&& cur.produced_by == (if exists|j: int|
                            0 <= j < k && (#[trigger] v.transitions[transition.0 as int].produce[j]).0.0
                                == t {
                            without(old_p.produced_by, transition)
                        } else {
                            old_p.produced_by
                        })
                    },
            decreases m - k,
        {
            let e = self.transitions[transition.0].produce.entry(k);
            let pl = e.0;
            let ghost before = self@;
            proof {
                assert(v.transition_wf(transition.0 as int));
                assert(v.transitions[transition.0 as int].produce[k as int].0.0 < v.places.len());
                assert(v.place_wf(pl.0 as int));
                let pb = v.transitions[transition.0 as int].produce;
                if exists|j: int| 0 <= j < k && (#[trigger] pb[j]).0.0 == pl.0 {
                    let j = choose|j: int| 0 <= j < k && (#[trigger] pb[j]).0.0 == pl.0;
                    assert(pb[j].0.rank() < pb[k as int].0.rank());
                }
                assert(before.places[pl.0 as int].produced_by == v.places[pl.0 as int].produced_by);
            }
            self.places[pl.0].produced_by.delete(transition);
            proof {
                let pb = v.transitions[transition.0 as int].produce;
                assert(self@.transitions =~= v.transitions);
                assert forall|t: int| 0 <= t < v.places.len() implies {
                    let cur = #[trigger] self@.places[t];
                    let old_p = v.places[t];
                    &&& cur.id == old_p.id
                    &&& cur.label == old_p.label
                    &&& cur.initial == old_p.initial
                    &&& cur.deleted == old_p.deleted
                    &&& cur.consumed_by == mid.places[t].consumed_by
                    &&& cur.produced_by == (if exists|j: int|
                        0 <= j < k + 1 && (#[trigger] pb[j]).0.0 == t {
                        without(old_p.produced_by, transition)
                    } else {
                        old_p.produced_by
                    })
                } by {
                    if t == pl.0 {
                        assert(pb[k as int].0.0 == t);
                    } else {
                        assert(self@.places[t] == before.places[t]);
                        if exists|j: int| 0 <= j < k + 1 && (#[trigger] pb[j]).0.0 == t {
                            let j = choose|j: int| 0 <= j < k + 1 && (#[trigger] pb[j]).0.0 == t;
                            assert(j < k);
                        }
                    }
                }
            }
            k += 1;
        }
        self.transitions[transition.0].consume.clear();
        self.transitions[transition.0].produce.clear();
        self.transitions[transition.0].deleted = true;
        proof {
            let r = v.delete_transition(transition);
            assert(self@.transitions =~= r.transitions);
            assert forall|t: int| 0 <= t < v.places.len() implies self@.places[t]
                == r.places[t] by {
                v.lemma_untouched_place(transition, t);
                let cb = v.transitions[transition.0 as int].consume;
                let pb = v.transitions[transition.0 as int].produce;
                let cur = self@.places[t];
                assert(cur.consumed_by == mid.places[t].consumed_by);
                if exists|j: int| 0 <= j < n && (#[trigger] cb[j]).0.0 == t {
                } else {
                    assert(!has_key(cb, PlaceId(t as usize))) by {
                        if has_key(cb, PlaceId(t as usize)) {
                            let j = crate::marking::position(cb, PlaceId(t as usize));
                            assert(cb[j].0.0 == t);
                        }
                    }
                }
                if exists|j: int| 0 <= j < m && (#[trigger] pb[j]).0.0 == t {
                } else {
                    assert(!has_key(pb, PlaceId(t as usize))) by {
                        if has_key(pb, PlaceId(t as usize)) {
                            let j = crate::marking::position(pb, PlaceId(t as usize));
                            assert(pb[j].0.0 == t);
                        }
                    }
                }
            }
            assert(self@.places =~= r.places);
        }
    }
}

impl NetView {
    /// A transition that has no arc to a place is not changed when that place is removed.
    pub proof fn lemma_untouched_transition(self, pl: PlaceId, t: int)
        requires
            self.wf(),
            self.valid_place(pl),
            0 <= t < self.transitions.len(),
        ensures
            !has_key(self.places[pl.0 as int].consumed_by, TransitionId(t as usize)) ==> without(
                self.transitions[t].consume,
                pl,
            ) == self.transitions[t].consume,
            !has_key(self.places[pl.0 as int].produced_by, TransitionId(t as usize)) ==> without(
                self.transitions[t].produce,
                pl,
            ) == self.transitions[t].produce,
    {
        assert(self.symmetric(pl.0 as int, t));
        assert(self.transition_wf(t));
        lemma_lookup(self.transitions[t].consume, pl);
        lemma_lookup(self.transitions[t].produce, pl);
    }

    /// A place that has no arc to a transition is not changed when that transition is
    /// removed.
    pub proof fn lemma_untouched_place(self, tr: TransitionId, p: int)
        requires
            self.wf(),
            self.valid_transition(tr),
            0 <= p < self.places.len(),
        ensures
            !has_key(self.transitions[tr.0 as int].consume, PlaceId(p as usize)) ==> without(
                self.places[p].consumed_by,
                tr,
            ) == self.places[p].consumed_by,
            !has_key(self.transitions[tr.0 as int].produce, PlaceId(p as usize)) ==> without(
                self.places[p].produced_by,
                tr,
            ) == self.places[p].produced_by,
    {
        assert(self.symmetric(p, tr.0 as int));
        assert(self.place_wf(p));
        lemma_lookup(self.places[p].consumed_by, tr);
        lemma_lookup(self.places[p].produced_by, tr);
    }
}


impl NetView {
    /// The net with a consuming arc from the place `pl` to each transition of `arcs`.
    pub open spec fn add_consumers(self, pl: PlaceId, arcs: Seq<(TransitionId, usize)>) -> NetView
        decreases arcs.len(),
    {
        if arcs.len() == 0 {
            self
        } else {
            self.add_consumers(pl, arcs.drop_last()).add_arc(
                arc::Kind::Consume(pl, arcs.last().0, arcs.last().1),
            )
        }
    }

    /// What holds after the first `i` of the consuming arcs `arcs` were added at the place
    /// `pl`, which had no arc to any of their transitions: the net is well formed, its
    /// nodes are the same and as alive as before, the place has arcs to the first `i`
    /// transitions and to those it had, and the next arc can be added.
    pub proof fn lemma_add_consumers(self, pl: PlaceId, arcs: Seq<(TransitionId, usize)>, i: int)
        requires
            self.wf(),
            self.valid_place(pl),
            !self.places[pl.0 as int].deleted,
            sorted(arcs),
            0 <= i <= arcs.len(),
            forall|j: int|
                0 <= j < arcs.len() ==> self.valid_transition((#[trigger] arcs[j]).0)
                    && !self.transitions[arcs[j].0.0 as int].deleted && !has_key(
                    self.places[pl.0 as int].consumed_by,
                    arcs[j].0,
                ),
        ensures
            self.add_consumers(pl, arcs.take(i)).wf(),
            self.add_consumers(pl, arcs.take(i)).same_nodes(self),
            forall|t: TransitionId|
                has_key(self.add_consumers(pl, arcs.take(i)).places[pl.0 as int].consumed_by, t)
                    ==> has_key(self.places[pl.0 as int].consumed_by, t) || exists|j: int|
                    0 <= j < i && (#[trigger] arcs[j]).0 == t,
            self.add_consumers(pl, arcs.take(i)).places[pl.0 as int].produced_by
                == self.places[pl.0 as int].produced_by,
            i < arcs.len() ==> self.add_consumers(pl, arcs.take(i)).can_add(
                arc::Kind::Consume(pl, arcs[i].0, arcs[i].1),
            ) && self.add_consumers(pl, arcs.take(i + 1)) == self.add_consumers(
                pl,
                arcs.take(i),
            ).add_arc(arc::Kind::Consume(pl, arcs[i].0, arcs[i].1)),
        decreases i,
    {
        let cur = self.add_consumers(pl, arcs.take(i));
        if i == 0 {
            assert(arcs.take(0).len() == 0);
            assert(cur == self);
        } else {
            self.lemma_add_consumers(pl, arcs, i - 1);
            let prev = self.add_consumers(pl, arcs.take(i - 1));
            let a = arc::Kind::Consume(pl, arcs[i - 1].0, arcs[i - 1].1);
            assert(cur == prev.add_arc(a));
            prev.lemma_add_arc(a);
            assert(prev.place_wf(pl.0 as int));
            assert(prev.transition_wf(arcs[i - 1].0.0 as int));
            lemma_put(
                prev.places[pl.0 as int].consumed_by,
                arcs[i - 1].0,
                (weight(prev.places[pl.0 as int].consumed_by, arcs[i - 1].0) + arcs[i - 1].1) as usize,
            );
            assert forall|t: TransitionId|
                has_key(cur.places[pl.0 as int].consumed_by, t) implies has_key(
                self.places[pl.0 as int].consumed_by,
                t,
            ) || exists|j: int| 0 <= j < i && (#[trigger] arcs[j]).0 == t by {
                if t == arcs[i - 1].0 {
                } else {
                    assert(has_key(prev.places[pl.0 as int].consumed_by, t));
                    if !has_key(self.places[pl.0 as int].consumed_by, t) {
                        let j = choose|j: int| 0 <= j < i - 1 && (#[trigger] arcs[j]).0 == t;
                        assert(arcs[j].0 == t);
                    }
                }
            }
        }
        if i < arcs.len() {
            assert(arcs.take(i + 1).drop_last() =~= arcs.take(i));
            assert(arcs.take(i + 1).last() == arcs[i]);
            let t = arcs[i].0;
            assert(cur.symmetric(pl.0 as int, t.0 as int));
            if has_key(cur.places[pl.0 as int].consumed_by, t) {
                let j = choose|j: int| 0 <= j < i && (#[trigger] arcs[j]).0 == t;
                assert(arcs[j].0.rank() < arcs[i].0.rank());
            }
        }
    }

    /// The net with a producing arc to the place `pl` from each transition of `arcs`.
    pub open spec fn add_producers(self, pl: PlaceId, arcs: Seq<(TransitionId, usize)>) -> NetView
        decreases arcs.len(),
    {
        if arcs.len() == 0 {
            self
        } else {
            self.add_producers(pl, arcs.drop_last()).add_arc(
                arc::Kind::Produce(pl, arcs.last().0, arcs.last().1),
            )
        }
    }

    /// What holds after the first `i` of the producing arcs `arcs` were added at the place
    /// `pl`, which had no arc to any of their transitions: the net is well formed, its
    /// nodes are the same and as alive as before, the place has arcs to the first `i`
    /// transitions and to those it had, and the next arc can be added.
    pub proof fn lemma_add_producers(self, pl: PlaceId, arcs: Seq<(TransitionId, usize)>, i: int)
        requires
            self.wf(),
            self.valid_place(pl),
            !self.places[pl.0 as int].deleted,
            sorted(arcs),
            0 <= i <= arcs.len(),
            forall|j: int|
                0 <= j < arcs.len() ==> self.valid_transition((#[trigger] arcs[j]).0)
                    && !self.transitions[arcs[j].0.0 as int].deleted && !has_key(
                    self.places[pl.0 as int].produced_by,
                    arcs[j].0,
                ),
        ensures
            self.add_producers(pl, arcs.take(i)).wf(),
            self.add_producers(pl, arcs.take(i)).same_nodes(self),
            forall|t: TransitionId|
                has_key(self.add_producers(pl, arcs.take(i)).places[pl.0 as int].produced_by, t)
                    ==> has_key(self.places[pl.0 as int].produced_by, t) || exists|j: int|
                    0 <= j < i && (#[trigger] arcs[j]).0 == t,
            self.add_producers(pl, arcs.take(i)).places[pl.0 as int].consumed_by
                == self.places[pl.0 as int].consumed_by,
            i < arcs.len() ==> self.add_producers(pl, arcs.take(i)).can_add(
                arc::Kind::Produce(pl, arcs[i].0, arcs[i].1),
            ) && self.add_producers(pl, arcs.take(i + 1)) == self.add_producers(
                pl,
                arcs.take(i),
            ).add_arc(arc::Kind::Produce(pl, arcs[i].0, arcs[i].1)),
        decreases i,
    {
        let cur = self.add_producers(pl, arcs.take(i));
        if i == 0 {
            assert(arcs.take(0).len() == 0);
            assert(cur == self);
        } else {
            self.lemma_add_producers(pl, arcs, i - 1);
            let prev = self.add_producers(pl, arcs.take(i - 1));
            let a = arc::Kind::Produce(pl, arcs[i - 1].0, arcs[i - 1].1);
            assert(cur == prev.add_arc(a));
            prev.lemma_add_arc(a);
            assert(prev.place_wf(pl.0 as int));
            assert(prev.transition_wf(arcs[i - 1].0.0 as int));
            lemma_put(
                prev.places[pl.0 as int].produced_by,
                arcs[i - 1].0,
                (weight(prev.places[pl.0 as int].produced_by, arcs[i - 1].0) + arcs[i - 1].1) as usize,
            );
            assert forall|t: TransitionId|
                has_key(cur.places[pl.0 as int].produced_by, t) implies has_key(
                self.places[pl.0 as int].produced_by,
                t,
            ) || exists|j: int| 0 <= j < i && (#[trigger] arcs[j]).0 == t by {
                if t == arcs[i - 1].0 {
                } else {
                    assert(has_key(prev.places[pl.0 as int].produced_by, t));
                    if !has_key(self.places[pl.0 as int].produced_by, t) {
                        let j = choose|j: int| 0 <= j < i - 1 && (#[trigger] arcs[j]).0 == t;
                        assert(arcs[j].0 == t);
                    }
                }
            }
        }
        if i < arcs.len() {
            assert(arcs.take(i + 1).drop_last() =~= arcs.take(i));
            assert(arcs.take(i + 1).last() == arcs[i]);
            let t = arcs[i].0;
            assert(cur.symmetric(pl.0 as int, t.0 as int));
            if has_key(cur.places[pl.0 as int].produced_by, t) {
                let j = choose|j: int| 0 <= j < i && (#[trigger] arcs[j]).0 == t;
                assert(arcs[j].0.rank() < arcs[i].0.rank());
            }
        }
    }

    /// The net with the arcs `consumed` and `produced` added at the place `pl`.
    pub open spec fn connect(
        self,
        pl: PlaceId,
        consumed: Seq<(TransitionId, usize)>,
        produced: Seq<(TransitionId, usize)>,
    ) -> NetView {
        self.add_consumers(pl, consumed).add_producers(pl, produced)
    }

    /// The arcs can be added at the place `pl` one after the other: the place is in the
    /// net, was not removed and has no arc, and the arcs are sorted and lead to transitions
    /// of the net that were not removed.
    pub open spec fn can_connect(
        self,
        pl: PlaceId,
        consumed: Seq<(TransitionId, usize)>,
        produced: Seq<(TransitionId, usize)>,
    ) -> bool {
        &&& self.valid_place(pl)
        &&& !self.places[pl.0 as int].deleted
        &&& self.places[pl.0 as int].is_disconnected()
        &&& sorted(consumed)
        &&& sorted(produced)
        &&& forall|j: int|
            0 <= j < consumed.len() ==> self.valid_transition((#[trigger] consumed[j]).0)
                && !self.transitions[consumed[j].0.0 as int].deleted
        &&& forall|j: int|
            0 <= j < produced.len() ==> self.valid_transition((#[trigger] produced[j]).0)
                && !self.transitions[produced[j].0.0 as int].deleted
    }

    /// The two nets have the same names and as many nodes, and each node is removed in
    /// one exactly if it is in the other, with the same label and the same tokens.
    pub open spec fn same_nodes(self, other: NetView) -> bool {
        &&& self.name == other.name
        &&& self.names == other.names
        &&& self.places.len() == other.places.len()
        &&& self.transitions.len() == other.transitions.len()
        &&& forall|p: int|
            0 <= p < self.places.len() ==> (#[trigger] self.places[p]).deleted
                == other.places[p].deleted && self.places[p].initial == other.places[p].initial
                && self.places[p].label == other.places[p].label
        &&& forall|t: int|
            0 <= t < self.transitions.len() ==> (#[trigger] self.transitions[t]).deleted
                == other.transitions[t].deleted && self.transitions[t].label
                == other.transitions[t].label
    }

    /// Connecting a place that had no arcs keeps a well-formed net well formed.
    pub proof fn lemma_connect(
        self,
        pl: PlaceId,
        consumed: Seq<(TransitionId, usize)>,
        produced: Seq<(TransitionId, usize)>,
    )
        requires
            self.wf(),
            self.can_connect(pl, consumed, produced),
        ensures
            self.connect(pl, consumed, produced).wf(),
            self.connect(pl, consumed, produced).same_nodes(self),
    {
        assert forall|j: int| 0 <= j < consumed.len() implies !has_key(
            self.places[pl.0 as int].consumed_by,
            (#[trigger] consumed[j]).0,
        ) by {}
        self.lemma_add_consumers(pl, consumed, consumed.len() as int);
        assert(consumed.take(consumed.len() as int) =~= consumed);
        let mid = self.add_consumers(pl, consumed);
        assert forall|j: int| 0 <= j < produced.len() implies !has_key(
            mid.places[pl.0 as int].produced_by,
            (#[trigger] produced[j]).0,
        ) by {}
        mid.lemma_add_producers(pl, produced, produced.len() as int);
        assert(produced.take(produced.len() as int) =~= produced);
    }
}

impl Net {
    /// Adds the arcs `consumed` and `produced` at the place `pl`, which has none yet.
    pub fn connect(
        &mut self,
        pl: PlaceId,
        consumed: &Vec<(TransitionId, usize)>,
        produced: &Vec<(TransitionId, usize)>,
    )
        requires
            old(self).wf(),
            old(self)@.can_connect(pl, consumed@, produced@),
        ensures
            final(self).wf(),
            final(self)@ == old(self)@.connect(pl, consumed@, produced@),
            final(self)@.same_nodes(old(self)@),
    {
        let ghost v = self@;
        proof {
            assert forall|j: int| 0 <= j < consumed@.len() implies !has_key(
                v.places[pl.0 as int].consumed_by,
                (#[trigger] consumed@[j]).0,
            ) by {}
            v.lemma_add_consumers(pl, consumed@, 0);
            assert(consumed@.take(0).len() == 0);
        }
        let mut i: usize = 0;
        while i < consumed.len()
            invariant
                i <= consumed@.len(),
                v.wf(),
                v.can_connect(pl, consumed@, produced@),
                forall|j: int|
                    0 <= j < consumed@.len() ==> !has_key(
                        v.places[pl.0 as int].consumed_by,
                        (#[trigger] consumed@[j]).0,
                    ),
                self@ == v.add_consumers(pl, consumed@.take(i as int)),
            decreases consumed@.len() - i,
        {
            proof {
                v.lemma_add_consumers(pl, consumed@, i as int);
            }
            let e = consumed[i];
            let r = self.add_arc(arc::Kind::Consume(pl, e.0, e.1));
            i += 1;
        }
        let ghost mid = self@;
        proof {
            assert(consumed@.take(consumed@.len() as int) =~= consumed@);
            v.lemma_add_consumers(pl, consumed@, consumed@.len() as int);
            assert forall|j: int| 0 <= j < produced@.len() implies !has_key(
                mid.places[pl.0 as int].produced_by,
                (#[trigger] produced@[j]).0,
            ) by {}
            assert(produced@.take(0).len() == 0);
        }
        let mut k: usize = 0;
        while k < produced.len()
            invariant
                k <= produced@.len(),
                mid.wf(),
                mid.valid_place(pl),
                !mid.places[pl.0 as int].deleted,
                sorted(produced@),
                forall|j: int|
                    0 <= j < produced@.len() ==> mid.valid_transition((#[trigger] produced@[j]).0)
                        && !mid.transitions[produced@[j].0.0 as int].deleted && !has_key(
                        mid.places[pl.0 as int].produced_by,
                        produced@[j].0,
                    ),
                self@ == mid.add_producers(pl, produced@.take(k as int)),
            decreases produced@.len() - k,
        {
            proof {
                mid.lemma_add_producers(pl, produced@, k as int);
            }
            let e = produced[k];
            let r = self.add_arc(arc::Kind::Produce(pl, e.0, e.1));
            k += 1;
        }
        proof {
            assert(produced@.take(produced@.len() as int) =~= produced@);
            mid.lemma_add_producers(pl, produced@, produced@.len() as int);
            v.lemma_connect(pl, consumed@, produced@);
        }
    }
}


impl NetView {
    /// In a well-formed net the arcs of a place lead to transitions of the net that
    /// were not removed, and a place that has an arc was not removed.
    pub proof fn lemma_place_arcs_live(self, p: int)
        requires
            self.wf(),
            0 <= p < self.places.len(),
        ensures
            sorted(self.places[p].consumed_by),
            sorted(self.places[p].produced_by),
            forall|j: int|
                0 <= j < self.places[p].consumed_by.len() ==> self.valid_transition(
                    (#[trigger] self.places[p].consumed_by[j]).0,
                ) && !self.transitions[self.places[p].consumed_by[j].0.0 as int].deleted,
            forall|j: int|
                0 <= j < self.places[p].produced_by.len() ==> self.valid_transition(
                    (#[trigger] self.places[p].produced_by[j]).0,
                ) && !self.transitions[self.places[p].produced_by[j].0.0 as int].deleted,
            !self.places[p].is_disconnected() ==> !self.places[p].deleted,
    {
        assert(self.place_wf(p));
        let pl = PlaceId(p as usize);
        assert forall|j: int| 0 <= j < self.places[p].consumed_by.len() implies self.valid_transition(
            (#[trigger] self.places[p].consumed_by[j]).0,
        ) && !self.transitions[self.places[p].consumed_by[j].0.0 as int].deleted by {
            let t = self.places[p].consumed_by[j].0;
            assert(self.transition_wf(t.0 as int));
            assert(self.symmetric(p, t.0 as int));
            lemma_entry(self.places[p].consumed_by, j);
            assert(has_key(self.transitions[t.0 as int].consume, pl));
        }
        assert forall|j: int| 0 <= j < self.places[p].produced_by.len() implies self.valid_transition(
            (#[trigger] self.places[p].produced_by[j]).0,
        ) && !self.transitions[self.places[p].produced_by[j].0.0 as int].deleted by {
            let t = self.places[p].produced_by[j].0;
            assert(self.transition_wf(t.0 as int));
            assert(self.symmetric(p, t.0 as int));
            lemma_entry(self.places[p].produced_by, j);
            assert(has_key(self.transitions[t.0 as int].produce, pl));
        }
    }

    /// In a well-formed net the arcs of a transition lead to places of the net that were
    /// not removed, and a transition that has an arc was not removed.
    pub proof fn lemma_transition_arcs_live(self, t: int)
        requires
            self.wf(),
            0 <= t < self.transitions.len(),
        ensures
            sorted(self.transitions[t].consume),
            sorted(self.transitions[t].produce),
            forall|j: int|
                0 <= j < self.transitions[t].consume.len() ==> self.valid_place(
                    (#[trigger] self.transitions[t].consume[j]).0,
                ) && !self.places[self.transitions[t].consume[j].0.0 as int].deleted,
            forall|j: int|
                0 <= j < self.transitions[t].produce.len() ==> self.valid_place(
                    (#[trigger] self.transitions[t].produce[j]).0,
                ) && !self.places[self.transitions[t].produce[j].0.0 as int].deleted,
            !self.transitions[t].is_disconnected() ==> !self.transitions[t].deleted,
    {
        assert(self.transition_wf(t));
        let tr = TransitionId(t as usize);
        assert forall|j: int| 0 <= j < self.transitions[t].consume.len() implies self.valid_place(
            (#[trigger] self.transitions[t].consume[j]).0,
        ) && !self.places[self.transitions[t].consume[j].0.0 as int].deleted by {
            let p = self.transitions[t].consume[j].0;
            assert(self.place_wf(p.0 as int));
            assert(self.symmetric(p.0 as int, t));
            lemma_entry(self.transitions[t].consume, j);
            assert(has_key(self.places[p.0 as int].consumed_by, tr));
        }
        assert forall|j: int| 0 <= j < self.transitions[t].produce.len() implies self.valid_place(
            (#[trigger] self.transitions[t].produce[j]).0,
        ) && !self.places[self.transitions[t].produce[j].0.0 as int].deleted by {
            let p = self.transitions[t].produce[j].0;
            assert(self.place_wf(p.0 as int));
            assert(self.symmetric(p.0 as int, t));
            lemma_entry(self.transitions[t].produce, j);
            assert(has_key(self.places[p.0 as int].produced_by, tr));
        }
    }

    /// The net with the tokens at the start of the place `pl` set to `initial`.
    pub open spec fn set_initial(self, pl: PlaceId, initial: usize) -> NetView {
        NetView {
            places: self.places.update(
                pl.0 as int,
                PlaceView { initial, ..self.places[pl.0 as int] },
            ),
            ..self
        }
    }

    /// Setting the tokens of a place keeps a well-formed net well formed.
    pub proof fn lemma_set_initial(self, pl: PlaceId, initial: usize)
        requires
            self.wf(),
            self.valid_place(pl),
        ensures
            self.set_initial(pl, initial).wf(),
            self.set_initial(pl, initial).transitions == self.transitions,
            self.set_initial(pl, initial).names == self.names,
            self.set_initial(pl, initial).places.len() == self.places.len(),
    {
        let r = self.set_initial(pl, initial);
        self.lemma_add_arc_frame(r);
        assert forall|p: int| 0 <= p < r.places.len() implies #[trigger] r.place_wf(p) by {
            assert(self.place_wf(p));
        }
        assert forall|p: int, t: int|
            0 <= p < r.places.len() && 0 <= t < r.transitions.len() implies #[trigger] r.symmetric(
            p,
            t,
        ) by {
            assert(self.symmetric(p, t));
        }
    }

    /// The net with a copy of the place `old_pl`: a new place with the same arcs, the
    /// same tokens at the start, and removed if `old_pl` is.
    pub open spec fn clone_place(self, old_pl: PlaceId) -> NetView {
        let src = self.places[old_pl.0 as int];
        let new_pl = PlaceId(self.places.len() as usize);
        let c = self.create_place().connect(new_pl, src.consumed_by, src.produced_by);
        NetView {
            places: c.places.update(
                new_pl.0 as int,
                PlaceView { initial: src.initial, deleted: src.deleted, ..c.places[new_pl.0 as int] },
            ),
            ..c
        }
    }

    /// A new place can be connected like any place of the net before it was created.
    pub proof fn lemma_create_then_connect(self, src: int)
        requires
            self.wf(),
            self.places.len() < usize::MAX,
            0 <= src < self.places.len(),
        ensures
            self.create_place().wf(),
            self.create_place().can_connect(
                PlaceId(self.places.len() as usize),
                self.places[src].consumed_by,
                self.places[src].produced_by,
            ),
    {
        self.lemma_create_place();
        self.lemma_place_arcs_live(src);
    }
}

impl Net {
    /// Sets the tokens that the place `pl` holds at the start.
    pub fn set_initial(&mut self, pl: PlaceId, initial: usize)
        requires
            old(self).wf(),
            old(self)@.valid_place(pl),
        ensures
            final(self).wf(),
            final(self)@ == old(self)@.set_initial(pl, initial),
    {
        proof {
            self@.lemma_set_initial(pl, initial);
        }
        self.places[pl.0].initial = initial;
        proof {
            assert(self@.places =~= old(self)@.set_initial(pl, initial).places);
            assert(self@.transitions =~= old(self)@.transitions);
        }
    }

    /// Creates a copy of the place `old_pl`, with all its arcs.
    pub fn clone_place(&mut self, old_pl: PlaceId) -> (new_pl: PlaceId)
        requires
            old(self).wf(),
            old(self)@.valid_place(old_pl),
            old(self)@.places.len() < usize::MAX,
        ensures
            final(self).wf(),
            final(self)@ == old(self)@.clone_place(old_pl),
            new_pl.0 == old(self)@.places.len(),
    {
        let ghost v = self@;
        proof {
            v.lemma_create_then_connect(old_pl.0 as int);
            v.lemma_place_arcs_live(old_pl.0 as int);
        }
        let consumed = self.places[old_pl.0].consumed_by.to_vec();
        let produced = self.places[old_pl.0].produced_by.to_vec();
        let initial = self.places[old_pl.0].initial;
        let deleted = self.places[old_pl.0].deleted;
        let new_pl = self.create_place();
        self.connect(new_pl, &consumed, &produced);
        let ghost c = self@;
        proof {
            assert(c.place_wf(new_pl.0 as int));
            if deleted {
                assert(v.place_wf(old_pl.0 as int));
                assert(consumed@.len() == 0 && produced@.len() == 0);
                assert(c.places[new_pl.0 as int].is_disconnected());
            }
        }
        self.places[new_pl.0].initial = initial;
        self.places[new_pl.0].deleted = deleted;
        proof {
            let r = v.clone_place(old_pl);
            assert(self@.places =~= r.places);
            assert(self@.transitions =~= r.transitions);
            c.lemma_add_arc_frame(r);
            assert forall|p: int| 0 <= p < r.places.len() implies #[trigger] r.place_wf(p) by {
                assert(c.place_wf(p));
            }
            assert forall|p: int, t: int|
                0 <= p < r.places.len() && 0 <= t < r.transitions.len() implies #[trigger] r.symmetric(
                p,
                t,
            ) by {
                assert(c.symmetric(p, t));
            }
        }
        new_pl
    }
}


impl NetView {
    /// The arcs of two places of a well-formed net, added up, lead to transitions of the
    /// net that were not removed.
    pub proof fn lemma_merged_arcs_live(self, p1: int, p2: int)
        requires
            self.wf(),
            0 <= p1 < self.places.len(),
            0 <= p2 < self.places.len(),
        ensures
            ({
                let c = crate::marking::add_into(
                    self.places[p1].consumed_by,
                    self.places[p2].consumed_by,
                );
                &&& sorted(c)
                &&& forall|j: int|
                    0 <= j < c.len() ==> self.valid_transition((#[trigger] c[j]).0)
                        && !self.transitions[c[j].0.0 as int].deleted
            }),
            ({
                let p = crate::marking::add_into(
                    self.places[p1].produced_by,
                    self.places[p2].produced_by,
                );
                &&& sorted(p)
                &&& forall|j: int|
                    0 <= j < p.len() ==> self.valid_transition((#[trigger] p[j]).0)
                        && !self.transitions[p[j].0.0 as int].deleted
            }),
    {
        self.lemma_place_arcs_live(p1);
        self.lemma_place_arcs_live(p2);
        let a = self.places[p1].consumed_by;
        let b = self.places[p2].consumed_by;
        let c = crate::marking::add_into(a, b);
        crate::marking::lemma_add_into(a, b);
        assert forall|j: int| 0 <= j < c.len() implies self.valid_transition((#[trigger] c[j]).0)
            && !self.transitions[c[j].0.0 as int].deleted by {
            let k = c[j].0;
            assert(has_key(c, k));
            if has_key(a, k) {
                let i = crate::marking::position(a, k);
                assert(a[i].0 == k);
            } else {
                let i = crate::marking::position(b, k);
                assert(b[i].0 == k);
            }
        }
        let a2 = self.places[p1].produced_by;
        let b2 = self.places[p2].produced_by;
        let p = crate::marking::add_into(a2, b2);
        crate::marking::lemma_add_into(a2, b2);
        assert forall|j: int| 0 <= j < p.len() implies self.valid_transition((#[trigger] p[j]).0)
            && !self.transitions[p[j].0.0 as int].deleted by {
            let k = p[j].0;
            assert(has_key(p, k));
            if has_key(a2, k) {
                let i = crate::marking::position(a2, k);
                assert(a2[i].0 == k);
            } else {
                let i = crate::marking::position(b2, k);
                assert(b2[i].0 == k);
            }
        }
    }
}


impl NetView {
    /// Copying a place keeps a well-formed net well formed, adds one place, and leaves
    /// the places that were there as they were.
    pub proof fn lemma_clone_place(self, old_pl: PlaceId)
        requires
            self.wf(),
            self.valid_place(old_pl),
            self.places.len() < usize::MAX,
        ensures
            self.clone_place(old_pl).wf(),
            self.clone_place(old_pl).places.len() == self.places.len() + 1,
            self.clone_place(old_pl).transitions.len() == self.transitions.len(),
            forall|p: int|
                0 <= p < self.places.len() ==> (#[trigger] self.clone_place(old_pl).places[p])
                    == self.places[p],
    {
        let src = self.places[old_pl.0 as int];
        let new_pl = PlaceId(self.places.len() as usize);
        self.lemma_create_then_connect(old_pl.0 as int);
        let a = self.create_place();
        a.lemma_connect(new_pl, src.consumed_by, src.produced_by);
        let c = a.connect(new_pl, src.consumed_by, src.produced_by);
        let r = self.clone_place(old_pl);
        assert(self.place_wf(old_pl.0 as int));
        assert(c.place_wf(new_pl.0 as int));
        c.lemma_add_arc_frame(r);
        a.lemma_connect_places(new_pl, src.consumed_by, src.produced_by);
        if src.deleted {
            assert(src.consumed_by.len() == 0 && src.produced_by.len() == 0);
            assert(c == a) by {
                reveal_with_fuel(NetView::add_consumers, 1);
                reveal_with_fuel(NetView::add_producers, 1);
            }
        }
        assert forall|p: int| 0 <= p < r.places.len() implies #[trigger] r.place_wf(p) by {
            assert(c.place_wf(p));
        }
        assert forall|p: int, t: int|
            0 <= p < r.places.len() && 0 <= t < r.transitions.len() implies #[trigger] r.symmetric(
            p,
            t,
        ) by {
            assert(c.symmetric(p, t));
        }
    }

    /// Connecting a place changes no other place.
    pub proof fn lemma_connect_places(
        self,
        pl: PlaceId,
        consumed: Seq<(TransitionId, usize)>,
        produced: Seq<(TransitionId, usize)>,
    )
        requires
            self.valid_place(pl),
        ensures
            self.connect(pl, consumed, produced).places.len() == self.places.len(),
            forall|p: int|
                0 <= p < self.places.len() && p != pl.0 ==> (#[trigger] self.connect(
                    pl,
                    consumed,
                    produced,
                ).places[p]) == self.places[p],
    {
        self.lemma_add_consumers_places(pl, consumed);
        self.add_consumers(pl, consumed).lemma_add_producers_places(pl, produced);
    }

    /// Adding consuming arcs at a place changes no other place.
    pub proof fn lemma_add_consumers_places(self, pl: PlaceId, arcs: Seq<(TransitionId, usize)>)
        requires
            self.valid_place(pl),
        ensures
            self.add_consumers(pl, arcs).places.len() == self.places.len(),
            forall|p: int|
                0 <= p < self.places.len() && p != pl.0 ==> (#[trigger] self.add_consumers(
                    pl,
                    arcs,
                ).places[p]) == self.places[p],
        decreases arcs.len(),
    {
        if arcs.len() > 0 {
            self.lemma_add_consumers_places(pl, arcs.drop_last());
        }
    }

    /// Adding producing arcs at a place changes no other place.
    pub proof fn lemma_add_producers_places(self, pl: PlaceId, arcs: Seq<(TransitionId, usize)>)
        requires
            self.valid_place(pl),
        ensures
            self.add_producers(pl, arcs).places.len() == self.places.len(),
            forall|p: int|
                0 <= p < self.places.len() && p != pl.0 ==> (#[trigger] self.add_producers(
                    pl,
                    arcs,
                ).places[p]) == self.places[p],
        decreases arcs.len(),
    {
        if arcs.len() > 0 {
            self.lemma_add_producers_places(pl, arcs.drop_last());
        }
    }
}


impl NetView {
    /// The net with a consuming arc from each place of `arcs` to the transition `tr`.
    pub open spec fn add_inputs(self, tr: TransitionId, arcs: Seq<(PlaceId, usize)>) -> NetView
        decreases arcs.len(),
    {
        if arcs.len() == 0 {
            self
        } else {
            self.add_inputs(tr, arcs.drop_last()).add_arc(
                arc::Kind::Consume(arcs.last().0, tr, arcs.last().1),
            )
        }
    }

    /// What holds after the first `i` of the consuming arcs `arcs` were added at the
    /// transition `tr`, which had no arc to any of their places: the net is well formed,
    /// its nodes are the same and as alive as before, the transition has arcs to the first
    /// `i` places and to those it had, and the next arc can be added.
    pub proof fn lemma_add_inputs(self, tr: TransitionId, arcs: Seq<(PlaceId, usize)>, i: int)
        requires
            self.wf(),
            self.valid_transition(tr),
            !self.transitions[tr.0 as int].deleted,
            sorted(arcs),
            0 <= i <= arcs.len(),
            forall|j: int|
                0 <= j < arcs.len() ==> self.valid_place((#[trigger] arcs[j]).0)
                    && !self.places[arcs[j].0.0 as int].deleted && !has_key(
                    self.transitions[tr.0 as int].consume,
                    arcs[j].0,
                ),
        ensures
            self.add_inputs(tr, arcs.take(i)).wf(),
            self.add_inputs(tr, arcs.take(i)).same_nodes(self),
            forall|p: PlaceId|
                has_key(self.add_inputs(tr, arcs.take(i)).transitions[tr.0 as int].consume, p)
                    ==> has_key(self.transitions[tr.0 as int].consume, p) || exists|j: int|
                    0 <= j < i && (#[trigger] arcs[j]).0 == p,
            self.add_inputs(tr, arcs.take(i)).transitions[tr.0 as int].produce
                == self.transitions[tr.0 as int].produce,
            i < arcs.len() ==> self.add_inputs(tr, arcs.take(i)).can_add(
                arc::Kind::Consume(arcs[i].0, tr, arcs[i].1),
            ) && self.add_inputs(tr, arcs.take(i + 1)) == self.add_inputs(
                tr,
                arcs.take(i),
            ).add_arc(arc::Kind::Consume(arcs[i].0, tr, arcs[i].1)),
        decreases i,
    {
        let cur = self.add_inputs(tr, arcs.take(i));
        if i == 0 {
            assert(arcs.take(0).len() == 0);
            assert(cur == self);
        } else {
            self.lemma_add_inputs(tr, arcs, i - 1);
            let prev = self.add_inputs(tr, arcs.take(i - 1));
            let a = arc::Kind::Consume(arcs[i - 1].0, tr, arcs[i - 1].1);
            assert(cur == prev.add_arc(a));
            prev.lemma_add_arc(a);
            assert(prev.transition_wf(tr.0 as int));
            assert(prev.place_wf(arcs[i - 1].0.0 as int));
            lemma_put(
                prev.transitions[tr.0 as int].consume,
                arcs[i - 1].0,
                (weight(prev.transitions[tr.0 as int].consume, arcs[i - 1].0) + arcs[i - 1].1) as usize,
            );
            assert forall|p: PlaceId|
                has_key(cur.transitions[tr.0 as int].consume, p) implies has_key(
                self.transitions[tr.0 as int].consume,
                p,
            ) || exists|j: int| 0 <= j < i && (#[trigger] arcs[j]).0 == p by {
                if p == arcs[i - 1].0 {
                } else {
                    assert(has_key(prev.transitions[tr.0 as int].consume, p));
                    if !has_key(self.transitions[tr.0 as int].consume, p) {
                        let j = choose|j: int| 0 <= j < i - 1 && (#[trigger] arcs[j]).0 == p;
                        assert(arcs[j].0 == p);
                    }
                }
            }
        }
        if i < arcs.len() {
            assert(arcs.take(i + 1).drop_last() =~= arcs.take(i));
            assert(arcs.take(i + 1).last() == arcs[i]);
            let p = arcs[i].0;
            assert(cur.symmetric(p.0 as int, tr.0 as int));
            if has_key(cur.transitions[tr.0 as int].consume, p) {
                let j = choose|j: int| 0 <= j < i && (#[trigger] arcs[j]).0 == p;
                assert(arcs[j].0.rank() < arcs[i].0.rank());
            }
        }
    }

    /// The net with a producing arc from the transition `tr` to each place of `arcs`.
    pub open spec fn add_outputs(self, tr: TransitionId, arcs: Seq<(PlaceId, usize)>) -> NetView
        decreases arcs.len(),
    {
        if arcs.len() == 0 {
            self
        } else {
            self.add_outputs(tr, arcs.drop_last()).add_arc(
                arc::Kind::Produce(arcs.last().0, tr, arcs.last().1),
            )
        }
    }

    /// What holds after the first `i` of the producing arcs `arcs` were added at the
    /// transition `tr`, which had no arc to any of their places: the net is well formed,
    /// its nodes are the same and as alive as before, the transition has arcs to the first
    /// `i` places and to those it had, and the next arc can be added.
    pub proof fn lemma_add_outputs(self, tr: TransitionId, arcs: Seq<(PlaceId, usize)>, i: int)
        requires
            self.wf(),
            self.valid_transition(tr),
            !self.transitions[tr.0 as int].deleted,
            sorted(arcs),
            0 <= i <= arcs.len(),
            forall|j: int|
                0 <= j < arcs.len() ==> self.valid_place((#[trigger] arcs[j]).0)
                    && !self.places[arcs[j].0.0 as int].deleted && !has_key(
                    self.transitions[tr.0 as int].produce,
                    arcs[j].0,
                ),
        ensures
            self.add_outputs(tr, arcs.take(i)).wf(),
            self.add_outputs(tr, arcs.take(i)).same_nodes(self),
            forall|p: PlaceId|
                has_key(self.add_outputs(tr, arcs.take(i)).transitions[tr.0 as int].produce, p)
                    ==> has_key(self.transitions[tr.0 as int].produce, p) || exists|j: int|
                    0 <= j < i && (#[trigger] arcs[j]).0 == p,
            self.add_outputs(tr, arcs.take(i)).transitions[tr.0 as int].consume
                == self.transitions[tr.0 as int].consume,
            i < arcs.len() ==> self.add_outputs(tr, arcs.take(i)).can_add(
                arc::Kind::Produce(arcs[i].0, tr, arcs[i].1),
            ) && self.add_outputs(tr, arcs.take(i + 1)) == self.add_outputs(
                tr,
                arcs.take(i),
            ).add_arc(arc::Kind::Produce(arcs[i].0, tr, arcs[i].1)),
        decreases i,
    {
        let cur = self.add_outputs(tr, arcs.take(i));
        if i == 0 {
            assert(arcs.take(0).len() == 0);
            assert(cur == self);
        } else {
            self.lemma_add_outputs(tr, arcs, i - 1);
            let prev = self.add_outputs(tr, arcs.take(i - 1));
            let a = arc::Kind::Produce(arcs[i - 1].0, tr, arcs[i - 1].1);
            assert(cur == prev.add_arc(a));
            prev.lemma_add_arc(a);
            assert(prev.transition_wf(tr.0 as int));
            assert(prev.place_wf(arcs[i - 1].0.0 as int));
            lemma_put(
                prev.transitions[tr.0 as int].produce,
                arcs[i - 1].0,
                (weight(prev.transitions[tr.0 as int].produce, arcs[i - 1].0) + arcs[i - 1].1) as usize,
            );
            assert forall|p: PlaceId|
                has_key(cur.transitions[tr.0 as int].produce, p) implies has_key(
                self.transitions[tr.0 as int].produce,
                p,
            ) || exists|j: int| 0 <= j < i && (#[trigger] arcs[j]).0 == p by {
                if p == arcs[i - 1].0 {
                } else {
                    assert(has_key(prev.transitions[tr.0 as int].produce, p));
                    if !has_key(self.transitions[tr.0 as int].produce, p) {
                        let j = choose|j: int| 0 <= j < i - 1 && (#[trigger] arcs[j]).0 == p;
                        assert(arcs[j].0 == p);
                    }
                }
            }
        }
        if i < arcs.len() {
            assert(arcs.take(i + 1).drop_last() =~= arcs.take(i));
            assert(arcs.take(i + 1).last() == arcs[i]);
            let p = arcs[i].0;
            assert(cur.symmetric(p.0 as int, tr.0 as int));
            if has_key(cur.transitions[tr.0 as int].produce, p) {
                let j = choose|j: int| 0 <= j < i && (#[trigger] arcs[j]).0 == p;
                assert(arcs[j].0.rank() < arcs[i].0.rank());
            }
        }
    }

    /// The net with the arcs `inputs` and `outputs` added at the transition `tr`.
    pub open spec fn connect_transition(
        self,
        tr: TransitionId,
        inputs: Seq<(PlaceId, usize)>,
        outputs: Seq<(PlaceId, usize)>,
    ) -> NetView {
        self.add_inputs(tr, inputs).add_outputs(tr, outputs)
    }

    /// The arcs can be added at the transition `tr` one after the other: the transition is
    /// in the net, was not removed and has no arc, and the arcs are sorted and lead to
    /// places of the net that were not removed.
    pub open spec fn can_connect_transition(
        self,
        tr: TransitionId,
        inputs: Seq<(PlaceId, usize)>,
        outputs: Seq<(PlaceId, usize)>,
    ) -> bool {
        &&& self.valid_transition(tr)
        &&& !self.transitions[tr.0 as int].deleted
        &&& self.transitions[tr.0 as int].is_disconnected()
        &&& sorted(inputs)
        &&& sorted(outputs)
        &&& forall|j: int|
            0 <= j < inputs.len() ==> self.valid_place((#[trigger] inputs[j]).0)
                && !self.places[inputs[j].0.0 as int].deleted
        &&& forall|j: int|
            0 <= j < outputs.len() ==> self.valid_place((#[trigger] outputs[j]).0)
                && !self.places[outputs[j].0.0 as int].deleted
    }

    /// Connecting a transition that had no arcs keeps a well-formed net well formed.
    pub proof fn lemma_connect_transition(
        self,
        tr: TransitionId,
        inputs: Seq<(PlaceId, usize)>,
        outputs: Seq<(PlaceId, usize)>,
    )
        requires
            self.wf(),
            self.can_connect_transition(tr, inputs, outputs),
        ensures
            self.connect_transition(tr, inputs, outputs).wf(),
            self.connect_transition(tr, inputs, outputs).same_nodes(self),
    {
        assert forall|j: int| 0 <= j < inputs.len() implies !has_key(
            self.transitions[tr.0 as int].consume,
            (#[trigger] inputs[j]).0,
        ) by {}
        self.lemma_add_inputs(tr, inputs, inputs.len() as int);
        assert(inputs.take(inputs.len() as int) =~= inputs);
        let mid = self.add_inputs(tr, inputs);
        assert forall|j: int| 0 <= j < outputs.len() implies !has_key(
            mid.transitions[tr.0 as int].produce,
            (#[trigger] outputs[j]).0,
        ) by {}
        mid.lemma_add_outputs(tr, outputs, outputs.len() as int);
        assert(outputs.take(outputs.len() as int) =~= outputs);
    }
}

impl Net {
    /// Adds the arcs `inputs` and `outputs` at the transition `tr`, which has none yet.
    pub fn connect_transition(
        &mut self,
        tr: TransitionId,
        inputs: &Vec<(PlaceId, usize)>,
        outputs: &Vec<(PlaceId, usize)>,
    )
        requires
            old(self).wf(),
            old(self)@.can_connect_transition(tr, inputs@, outputs@),
        ensures
            final(self).wf(),
            final(self)@ == old(self)@.connect_transition(tr, inputs@, outputs@),
            final(self)@.same_nodes(old(self)@),
    {
        let ghost v = self@;
        proof {
            assert forall|j: int| 0 <= j < inputs@.len() implies !has_key(
                v.transitions[tr.0 as int].consume,
                (#[trigger] inputs@[j]).0,
            ) by {}
            v.lemma_add_inputs(tr, inputs@, 0);
            assert(inputs@.take(0).len() == 0);
        }
        let mut i: usize = 0;
        while i < inputs.len()
            invariant
                i <= inputs@.len(),
                v.wf(),
                v.can_connect_transition(tr, inputs@, outputs@),
                forall|j: int|
                    0 <= j < inputs@.len() ==> !has_key(
                        v.transitions[tr.0 as int].consume,
                        (#[trigger] inputs@[j]).0,
                    ),
                self@ == v.add_inputs(tr, inputs@.take(i as int)),
            decreases inputs@.len() - i,
        {
            proof {
                v.lemma_add_inputs(tr, inputs@, i as int);
            }
            let e = inputs[i];
            let r = self.add_arc(arc::Kind::Consume(e.0, tr, e.1));
            i += 1;
        }
        let ghost mid = self@;
        proof {
            assert(inputs@.take(inputs@.len() as int) =~= inputs@);
            v.lemma_add_inputs(tr, inputs@, inputs@.len() as int);
            assert forall|j: int| 0 <= j < outputs@.len() implies !has_key(
                mid.transitions[tr.0 as int].produce,
                (#[trigger] outputs@[j]).0,
            ) by {}
            assert(outputs@.take(0).len() == 0);
        }
        let mut k: usize = 0;
        while k < outputs.len()
            invariant
                k <= outputs@.len(),
                mid.wf(),
                mid.valid_transition(tr),
                !mid.transitions[tr.0 as int].deleted,
                sorted(outputs@),
                forall|j: int|
                    0 <= j < outputs@.len() ==> mid.valid_place((#[trigger] outputs@[j]).0)
                        && !mid.places[outputs@[j].0.0 as int].deleted && !has_key(
                        mid.transitions[tr.0 as int].produce,
                        outputs@[j].0,
                    ),
                self@ == mid.add_outputs(tr, outputs@.take(k as int)),
            decreases outputs@.len() - k,
        {
            proof {
                mid.lemma_add_outputs(tr, outputs@, k as int);
            }
            let e = outputs[k];
            let r = self.add_arc(arc::Kind::Produce(e.0, tr, e.1));
            k += 1;
        }
        proof {
            assert(outputs@.take(outputs@.len() as int) =~= outputs@);
            mid.lemma_add_outputs(tr, outputs@, outputs@.len() as int);
            v.lemma_connect_transition(tr, inputs@, outputs@);
        }
    }
}



} // verus!
