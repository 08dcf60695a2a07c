//! Timed nets and the operations that change them.
use vstd::prelude::*;
use crate::arc;
use crate::errors::NetError;
use crate::ids::{NodeId, PlaceId, TransitionId};
use crate::marking::{
    Key, has_key, lemma_put, lemma_without, max_of, min_of, put, sorted, weight, without,
};
use crate::names::{Names, NamesView};
use crate::standard::net::{
    lemma_no_key_out_of_range, lemma_put_range, lemma_register, lemma_without_range,
};
use crate::timed::place::{Place, PlaceView};
use crate::timed::transition::{Transition, TransitionView};

verus! {

/// A net with arcs that consume, produce, test and inhibit, with time ranges and
/// priorities.
#[derive(Debug)]
pub struct Net {
    /// The name of the net.
    pub name: String,
    /// The names of the nodes.
    pub names: Names,
    /// The transitions, each at the position its identifier gives.
    pub transitions: Vec<Transition>,
    /// The places, each at the position its identifier gives.
    pub places: Vec<Place>,
}

/// What a timed net holds.
pub struct NetView {
    /// The name of the net.
    pub name: Seq<char>,
    /// The names of the nodes.
    pub names: NamesView,
    /// The transitions.
    pub transitions: Seq<TransitionView>,
    /// The places.
    pub places: Seq<PlaceView>,
}

/// The identifiers stand in strictly increasing order.
pub open spec fn increasing(s: Seq<TransitionId>) -> bool {
    forall|i: int, j: int| 0 <= i < j < s.len() ==> (#[trigger] s[i]).0 < (#[trigger] s[j]).0
}

/// How many of the identifiers of `s` lie below `x`, for an increasing `s`.
pub open spec fn below(s: Seq<TransitionId>, x: TransitionId) -> int
    decreases s.len(),
{
    if s.len() == 0 {
        0
    } else if s.last().0 < x.0 {
        s.len() as int
    } else {
        below(s.drop_last(), x)
    }
}

/// The increasing sequence `s` with `x` put in, if it is not there.
pub open spec fn with_id(s: Seq<TransitionId>, x: TransitionId) -> Seq<TransitionId> {
    if s.contains(x) {
        s
    } else {
        s.insert(below(s, x), x)
    }
}

/// In an increasing sequence `below` parts the identifiers below `x` from the others.
pub proof fn lemma_below(s: Seq<TransitionId>, x: TransitionId)
    requires
        increasing(s),
    ensures
        0 <= below(s, x) <= s.len(),
        forall|i: int| 0 <= i < below(s, x) ==> (#[trigger] s[i]).0 < x.0,
        forall|i: int| below(s, x) <= i < s.len() ==> (#[trigger] s[i]).0 >= x.0,
    decreases s.len(),
{
    if s.len() == 0 {
    } else if s.last().0 < x.0 {
        assert forall|i: int| 0 <= i < s.len() implies (#[trigger] s[i]).0 < x.0 by {
            if i < s.len() - 1 {
                assert(s[i].0 < s[s.len() - 1].0);
            }
        }
    } else {
        let t = s.drop_last();
        assert forall|i: int, j: int| 0 <= i < j < t.len() implies (#[trigger] t[i]).0 < (
        #[trigger] t[j]).0 by {
            assert(t[i] == s[i] && t[j] == s[j]);
        }
        lemma_below(t, x);
        assert forall|i: int| 0 <= i < below(s, x) implies (#[trigger] s[i]).0 < x.0 by {
            assert(t[i] == s[i]);
        }
        assert forall|i: int| below(s, x) <= i < s.len() implies (#[trigger] s[i]).0 >= x.0 by {
            if i < s.len() - 1 {
                assert(t[i] == s[i]);
            }
        }
    }
}

/// Putting an identifier into an increasing sequence leaves it increasing, with the
/// identifiers it had and the new one.
pub proof fn lemma_with_id(s: Seq<TransitionId>, x: TransitionId)
    requires
        increasing(s),
    ensures
        increasing(with_id(s, x)),
        forall|y: TransitionId| with_id(s, x).contains(y) <==> (s.contains(y) || y == x),
{
    lemma_below(s, x);
    let r = with_id(s, x);
    let p = below(s, x);
    if !s.contains(x) {
        assert forall|i: int, j: int| 0 <= i < j < r.len() implies (#[trigger] r[i]).0 < (
        #[trigger] r[j]).0 by {
            if i < p {
                assert(r[i] == s[i]);
            } else if i > p {
                assert(r[i] == s[i - 1]);
            }
            if j < p {
                assert(r[j] == s[j]);
            } else if j > p {
                assert(r[j] == s[j - 1]);
                if i == p {
                    assert(s[j - 1].0 >= x.0);
                    assert(s.contains(s[j - 1]));
                }
            }
        }
        assert forall|y: TransitionId| r.contains(y) <==> (s.contains(y) || y == x) by {
            if r.contains(y) {
                let i = choose|i: int| 0 <= i < r.len() && r[i] == y;
                if i < p {
                    assert(r[i] == s[i]);
                } else if i > p {
                    assert(r[i] == s[i - 1]);
                }
            }
            if s.contains(y) {
                let i = choose|i: int| 0 <= i < s.len() && s[i] == y;
                if i < p {
                    assert(r[i] == s[i]);
                } else {
                    assert(r[i + 1] == s[i]);
                }
            }
            if y == x {
                assert(r[p] == x);
            }
        }
    }
}

/// The net without nodes and without a name, whose new nodes are named by their number.
pub open spec fn empty() -> NetView {
    NetView {
        name: Seq::empty(),
        names: NamesView { table: Map::empty(), prefix: Seq::empty(), dashed: false },
        transitions: Seq::empty(),
        places: Seq::empty(),
    }
}

impl NetView {
    /// `pl` is a place of the net.
    pub open spec fn valid_place(self, pl: PlaceId) -> bool {
        pl.0 < self.places.len()
    }

    /// `tr` is a transition of the net.
    pub open spec fn valid_transition(self, tr: TransitionId) -> bool {
        tr.0 < self.transitions.len()
    }

    /// `id` is a node of the net.
    pub open spec fn valid_node(self, id: NodeId) -> bool {
        match id {
            NodeId::Place(pl) => self.valid_place(pl),
            NodeId::Transition(tr) => self.valid_transition(tr),
        }
    }

    /// The arcs `s` at a node are sorted and lead to nodes numbered below `bound`.
    pub open spec fn arcs_wf<T: Key>(s: Seq<(T, usize)>, bound: nat) -> bool {
        &&& sorted(s)
        &&& forall|i: int| 0 <= i < s.len() ==> (#[trigger] s[i]).0.rank() < bound
    }

    /// The place at position `p` bears its position as identifier, its arcs are sorted and
    /// lead to transitions of the net, and it has none if it was removed.
    pub open spec fn place_wf(self, p: int) -> bool {
        let place = self.places[p];
        &&& place.id == PlaceId(p as usize)
        &&& Self::arcs_wf(place.consumed_by, self.transitions.len())
        &&& Self::arcs_wf(place.produced_by, self.transitions.len())
        &&& Self::arcs_wf(place.condition_for, self.transitions.len())
        &&& Self::arcs_wf(place.inhibitor_for, self.transitions.len())
        &&& place.deleted ==> place.is_disconnected()
    }

    /// The transition at position `t` bears its position as identifier, its arcs are sorted
    /// and lead to places of the net, it has none if it was removed, and its priorities are
    /// transitions of the net in increasing order.
    pub open spec fn transition_wf(self, t: int) -> bool {
        let transition = self.transitions[t];
        &&& transition.id == TransitionId(t as usize)
        &&& Self::arcs_wf(transition.consume, self.places.len())
        &&& Self::arcs_wf(transition.produce, self.places.len())
        &&& Self::arcs_wf(transition.conditions, self.places.len())
        &&& Self::arcs_wf(transition.inhibitors, self.places.len())
        &&& transition.deleted ==> transition.is_disconnected()
        &&& increasing(transition.priorities)
        &&& forall|i: int|
            0 <= i < transition.priorities.len() ==> self.valid_transition(
                #[trigger] transition.priorities[i],
            )
    }

    /// The place at `p` and the transition at `t` agree on the arcs between them.
    pub open spec fn symmetric(self, p: int, t: int) -> bool {
        let pl = PlaceId(p as usize);
        let tr = TransitionId(t as usize);
        &&& has_key(self.places[p].consumed_by, tr) == has_key(self.transitions[t].consume, pl)
        &&& weight(self.places[p].consumed_by, tr) == weight(self.transitions[t].consume, pl)
        &&& has_key(self.places[p].produced_by, tr) == has_key(self.transitions[t].produce, pl)
        &&& weight(self.places[p].produced_by, tr) == weight(self.transitions[t].produce, pl)
        &&& has_key(self.places[p].condition_for, tr) == has_key(self.transitions[t].conditions, pl)
        &&& weight(self.places[p].condition_for, tr) == weight(self.transitions[t].conditions, pl)
        &&& has_key(self.places[p].inhibitor_for, tr) == has_key(self.transitions[t].inhibitors, pl)
        &&& weight(self.places[p].inhibitor_for, tr) == weight(self.transitions[t].inhibitors, pl)
    }

    /// The table of names is well formed, every name stands for a node of the net, and
    /// every node of the net has a name.
    pub open spec fn names_wf(self) -> bool {
        &&& self.names.wf()
        &&& forall|n: Seq<char>| #[trigger]
            self.names.table.contains_key(n) ==> self.valid_node(self.names.table[n])
        &&& forall|id: NodeId| #[trigger] self.valid_node(id) ==> self.names.has_name(id)
    }

    /// The invariant of a net: names and nodes correspond one to one, every node is well
    /// formed, and each arc is recorded alike at both of its ends.
    pub open spec fn wf(self) -> bool {
        &&& self.names_wf()
        &&& self.places.len() <= usize::MAX
        &&& self.transitions.len() <= usize::MAX
        &&& forall|p: int| 0 <= p < self.places.len() ==> #[trigger] self.place_wf(p)
        &&& forall|t: int| 0 <= t < self.transitions.len() ==> #[trigger] self.transition_wf(t)
        &&& forall|p: int, t: int|
            0 <= p < self.places.len() && 0 <= t < self.transitions.len()
                ==> #[trigger] self.symmetric(p, t)
    }

    /// The net with one more place, which has the next free identifier and name.
    pub open spec fn create_place(self) -> NetView {
        let id = PlaceId(self.places.len() as usize);
        NetView {
            places: self.places.push(PlaceView::fresh(id)),
            names: self.names.register(NodeId::Place(id)),
            ..self
        }
    }

    /// The net with one more transition, which has the next free identifier and name.
    pub open spec fn create_transition(self) -> NetView {
        let id = TransitionId(self.transitions.len() as usize);
        NetView {
            transitions: self.transitions.push(TransitionView::fresh(id)),
            names: self.names.register(NodeId::Transition(id)),
            ..self
        }
    }

    /// Whether `rename_node` gives `id` the name: the node is in the net, and no other
    /// node bears the name.
    pub open spec fn can_rename(self, id: NodeId, name: Seq<char>) -> bool {
        &&& self.valid_node(id)
        &&& self.names.index_of(name) is Some ==> self.names.index_of(name) == Some(id)
    }

    /// The net after `rename_node`: the prefix of new names has grown away from `name`,
    /// and `id` bears `name` if it could get it.
    pub open spec fn rename_node(self, id: NodeId, name: Seq<char>) -> NetView {
        if !self.valid_node(id) {
            self
        } else if self.names.index_of(name) is Some {
            NetView { names: self.names.avoid(name), ..self }
        } else {
            NetView { names: self.names.avoid(name).set(id, name), ..self }
        }
    }

    /// The ends of `arc` are nodes of the net that were not removed.
    pub open spec fn joins_live(self, arc: arc::Kind) -> bool {
        &&& self.valid_place(arc.place())
        &&& self.valid_transition(arc.transition())
        &&& !self.places[arc.place().0 as int].deleted
        &&& !self.transitions[arc.transition().0 as int].deleted
    }

    /// The arc joins two nodes of the net that were not removed, and, if it consumes or
    /// produces, its weight can be added to what is there.
    pub open spec fn can_add(self, arc: arc::Kind) -> bool {
        match arc {
            arc::Kind::Consume(pl, tr, w) => self.joins_live(arc) && weight(
                self.transitions[tr.0 as int].consume,
                pl,
            ) + w <= usize::MAX,
            arc::Kind::Produce(pl, tr, w) => self.joins_live(arc) && weight(
                self.transitions[tr.0 as int].produce,
                pl,
            ) + w <= usize::MAX,
            arc::Kind::Test(pl, tr, w) => self.joins_live(arc),
            arc::Kind::Inhibitor(pl, tr, w) => self.joins_live(arc),
            _ => true,
        }
    }

    /// The net with `arc` recorded at both of its ends: the weight of an arc that
    /// consumes or produces is added to what is there, the greater weight of a test arc
    /// and the smaller weight of an inhibitor arc is kept. An arc of another kind leaves
    /// the net as it is.
    pub open spec fn add_arc(self, arc: arc::Kind) -> NetView {
        match arc {
            arc::Kind::Consume(pl, tr, w) => {
                let t = self.transitions[tr.0 as int];
                let p = self.places[pl.0 as int];
                NetView {
                    transitions: self.transitions.update(
                        tr.0 as int,
                        TransitionView { consume: put(t.consume, pl, (weight(t.consume, pl) + w) as usize), ..t },
                    ),
                    places: self.places.update(
                        pl.0 as int,
                        PlaceView { consumed_by: put(p.consumed_by, tr, (weight(p.consumed_by, tr) + w) as usize), ..p },
                    ),
                    ..self
                }
            },
            arc::Kind::Produce(pl, tr, w) => {
                let t = self.transitions[tr.0 as int];
                let p = self.places[pl.0 as int];
                NetView {
                    transitions: self.transitions.update(
                        tr.0 as int,
                        TransitionView { produce: put(t.produce, pl, (weight(t.produce, pl) + w) as usize), ..t },
                    ),
                    places: self.places.update(
                        pl.0 as int,
                        PlaceView { produced_by: put(p.produced_by, tr, (weight(p.produced_by, tr) + w) as usize), ..p },
                    ),
                    ..self
                }
            },
            arc::Kind::Test(pl, tr, w) => {
                let t = self.transitions[tr.0 as int];
                let p = self.places[pl.0 as int];
                NetView {
                    transitions: self.transitions.update(
                        tr.0 as int,
                        TransitionView { conditions: put(t.conditions, pl, max_of(weight(t.conditions, pl), w as nat) as usize), ..t },
                    ),
                    places: self.places.update(
                        pl.0 as int,
                        PlaceView { condition_for: put(p.condition_for, tr, max_of(weight(p.condition_for, tr), w as nat) as usize), ..p },
                    ),
                    ..self
                }
            },
            arc::Kind::Inhibitor(pl, tr, w) => {
                let t = self.transitions[tr.0 as int];
                let p = self.places[pl.0 as int];
                NetView {
                    transitions: self.transitions.update(
                        tr.0 as int,
                        TransitionView { inhibitors: put(t.inhibitors, pl, (if has_key(t.inhibitors, pl) {
                                min_of(weight(t.inhibitors, pl), w as nat) as usize
                            } else {
                                w
                            })), ..t },
                    ),
                    places: self.places.update(
                        pl.0 as int,
                        PlaceView { inhibitor_for: put(p.inhibitor_for, tr, (if has_key(p.inhibitor_for, tr) {
                                min_of(weight(p.inhibitor_for, tr), w as nat) as usize
                            } else {
                                w
                            })), ..p },
                    ),
                    ..self
                }
            },
            _ => self,
        }
    }

    /// The net without the arcs of the place `pl`, which is marked as removed.
    pub open spec fn delete_place(self, pl: PlaceId) -> NetView {
        NetView {
            transitions: Seq::new(
                self.transitions.len(),
                |t: int| Self::transition_without(self.transitions[t], pl),
            ),
            places: self.places.update(
                pl.0 as int,
                PlaceView {
                    consumed_by: Seq::empty(),
                    produced_by: Seq::empty(),
                    condition_for: Seq::empty(),
                    inhibitor_for: Seq::empty(),
                    deleted: true,
                    ..self.places[pl.0 as int]
                },
            ),
            ..self
        }
    }

    /// The transition `t` without its arcs to the place `pl`.
    pub open spec fn transition_without(t: TransitionView, pl: PlaceId) -> TransitionView {
        TransitionView {
            consume: without(t.consume, pl),
            produce: without(t.produce, pl),
            conditions: without(t.conditions, pl),
            inhibitors: without(t.inhibitors, pl),
            ..t
        }
    }

    /// The place `p` without its arcs to the transition `tr`.
    pub open spec fn place_without(p: PlaceView, tr: TransitionId) -> PlaceView {
        PlaceView {
            consumed_by: without(p.consumed_by, tr),
            produced_by: without(p.produced_by, tr),
            condition_for: without(p.condition_for, tr),
            inhibitor_for: without(p.inhibitor_for, tr),
            ..p
        }
    }

    /// The net without the arcs and the priorities of the transition `tr`, which is
    /// marked as removed.
    pub open spec fn delete_transition(self, tr: TransitionId) -> NetView {
        NetView {
            places: Seq::new(self.places.len(), |p: int| Self::place_without(self.places[p], tr)),
            transitions: self.transitions.update(
                tr.0 as int,
                TransitionView {
                    consume: Seq::empty(),
                    produce: Seq::empty(),
                    conditions: Seq::empty(),
                    inhibitors: Seq::empty(),
                    priorities: Seq::empty(),
                    deleted: true,
                    ..self.transitions[tr.0 as int]
                },
            ),
            ..self
        }
    }

    /// The net in which the transition `tr` has priority over `over` as well.
    pub open spec fn add_priority(self, tr: TransitionId, over: TransitionId) -> NetView {
        NetView {
            transitions: self.transitions.update(
                tr.0 as int,
                TransitionView {
                    priorities: with_id(self.transitions[tr.0 as int].priorities, over),
                    ..self.transitions[tr.0 as int]
                },
            ),
            ..self
        }
    }

    /// A node that is not in the net has no name.
    pub proof fn lemma_unnamed(self, id: NodeId)
        requires
            self.names_wf(),
            !self.valid_node(id),
        ensures
            !self.names.has_name(id),
    {
        if self.names.has_name(id) {
            let n = choose|n: Seq<char>|
                self.names.table.contains_key(n) && #[trigger] self.names.table[n] == id;
            assert(self.valid_node(self.names.table[n]));
        }
    }

    /// What is true of every net `r` that has the names and the sizes of `self`: the
    /// names are well formed, and every node and every pair of nodes that is the same in
    /// both is well formed in `r`.
    pub proof fn lemma_frame(self, r: NetView)
        requires
            self.wf(),
            r.names == self.names,
            r.places.len() == self.places.len(),
            r.transitions.len() == self.transitions.len(),
        ensures
            r.names_wf(),
            forall|p: int|
                0 <= p < r.places.len() && r.places[p] == self.places[p] ==> #[trigger] r.place_wf(
                    p,
                ),
            forall|t: int|
                0 <= t < r.transitions.len() && r.transitions[t] == self.transitions[t]
                    ==> #[trigger] r.transition_wf(t),
            forall|p: int, t: int|
                0 <= p < r.places.len() && 0 <= t < r.transitions.len() && r.places[p]
                    == self.places[p] && r.transitions[t] == self.transitions[t]
                    ==> #[trigger] r.symmetric(p, t),
    {
        assert forall|n: Seq<char>| #[trigger] r.names.table.contains_key(n) implies r.valid_node(
            r.names.table[n],
        ) by {
            assert(self.valid_node(self.names.table[n]));
        }
        assert forall|i: NodeId| #[trigger] r.valid_node(i) implies r.names.has_name(i) by {
            assert(self.valid_node(i));
        }
        assert forall|p: int|
            0 <= p < r.places.len() && r.places[p] == self.places[p] implies #[trigger] r.place_wf(
            p,
        ) by {
            assert(self.place_wf(p));
        }
        assert forall|t: int|
            0 <= t < r.transitions.len() && r.transitions[t]
                == self.transitions[t] implies #[trigger] r.transition_wf(t) by {
            assert(self.transition_wf(t));
        }
        assert forall|p: int, t: int|
            0 <= p < r.places.len() && 0 <= t < r.transitions.len() && r.places[p]
                == self.places[p] && r.transitions[t]
                == self.transitions[t] implies #[trigger] r.symmetric(p, t) by {
            assert(self.symmetric(p, t));
        }
    }

    /// A net that differs from a well-formed net only in labels, time ranges and tokens
    /// is well formed.
    pub proof fn lemma_same_arcs(self, r: NetView)
        requires
            self.wf(),
            r.names == self.names,
            r.places.len() == self.places.len(),
            r.transitions.len() == self.transitions.len(),
            forall|p: int|
                0 <= p < self.places.len() ==> {
                    let a = #[trigger] r.places[p];
                    let b = self.places[p];
                    &&& a.id == b.id
                    &&& a.produced_by == b.produced_by
                    &&& a.consumed_by == b.consumed_by
                    &&& a.condition_for == b.condition_for
                    &&& a.inhibitor_for == b.inhibitor_for
                    &&& a.deleted == b.deleted
                },
            forall|t: int|
                0 <= t < self.transitions.len() ==> {
                    let a = #[trigger] r.transitions[t];
                    let b = self.transitions[t];
                    &&& a.id == b.id
                    &&& a.produce == b.produce
                    &&& a.consume == b.consume
                    &&& a.conditions == b.conditions
                    &&& a.inhibitors == b.inhibitors
                    &&& a.priorities == b.priorities
                    &&& a.deleted == b.deleted
                },
        ensures
            r.wf(),
    {
        self.lemma_frame(r);
        assert forall|p: int| 0 <= p < r.places.len() implies #[trigger] r.place_wf(p) by {
            assert(self.place_wf(p));
        }
        assert forall|t: int| 0 <= t < r.transitions.len() implies #[trigger] r.transition_wf(
            t,
        ) by {
            assert(self.transition_wf(t));
        }
        assert forall|p: int, t: int|
            0 <= p < r.places.len() && 0 <= t < r.transitions.len() implies #[trigger] r.symmetric(
            p,
            t,
        ) by {
            assert(self.symmetric(p, t));
        }
    }

    /// A new place keeps a well-formed net well formed.
    pub proof fn lemma_create_place(self)
        requires
            self.wf(),
            self.places.len() < usize::MAX,
        ensures
            self.create_place().wf(),
    {
        let r = self.create_place();
        let id = NodeId::Place(PlaceId(self.places.len() as usize));
        self.lemma_unnamed(id);
        lemma_register(self.names, id);
        assert forall|n: Seq<char>| #[trigger] r.names.table.contains_key(n) implies r.valid_node(
            r.names.table[n],
        ) by {
            if self.names.table.contains_key(n) {
                assert(self.valid_node(self.names.table[n]));
            }
        }
        assert forall|i: NodeId| #[trigger] r.valid_node(i) implies r.names.has_name(i) by {
            if i == id {
                assert(r.names.table[self.names.auto_name(self.names.table.len())] == id);
            } else {
                assert(self.valid_node(i));
                let n = choose|n: Seq<char>|
                    self.names.table.contains_key(n) && #[trigger] self.names.table[n] == i;
                assert(r.names.table[n] == i);
            }
        }
        assert forall|p: int| 0 <= p < r.places.len() implies #[trigger] r.place_wf(p) by {
            if p < self.places.len() {
                assert(self.place_wf(p));
            }
        }
        assert forall|t: int| 0 <= t < r.transitions.len() implies #[trigger] r.transition_wf(
            t,
        ) by {
            assert(self.transition_wf(t));
        }
        assert forall|p: int, t: int|
            0 <= p < r.places.len() && 0 <= t < r.transitions.len() implies #[trigger] r.symmetric(
            p,
            t,
        ) by {
            if p < self.places.len() {
                assert(self.symmetric(p, t));
            } else {
                assert(self.transition_wf(t));
                let pl = PlaceId(p as usize);
                lemma_no_key_out_of_range(self.transitions[t].consume, pl, self.places.len());
                lemma_no_key_out_of_range(self.transitions[t].produce, pl, self.places.len());
                lemma_no_key_out_of_range(self.transitions[t].conditions, pl, self.places.len());
                lemma_no_key_out_of_range(self.transitions[t].inhibitors, pl, self.places.len());
            }
        }
    }

    /// A new transition keeps a well-formed net well formed.
    pub proof fn lemma_create_transition(self)
        requires
            self.wf(),
            self.transitions.len() < usize::MAX,
        ensures
            self.create_transition().wf(),
    {
        let r = self.create_transition();
        let id = NodeId::Transition(TransitionId(self.transitions.len() as usize));
        self.lemma_unnamed(id);
        lemma_register(self.names, id);
        assert forall|n: Seq<char>| #[trigger] r.names.table.contains_key(n) implies r.valid_node(
            r.names.table[n],
        ) by {
            if self.names.table.contains_key(n) {
                assert(self.valid_node(self.names.table[n]));
            }
        }
        assert forall|i: NodeId| #[trigger] r.valid_node(i) implies r.names.has_name(i) by {
            if i == id {
                assert(r.names.table[self.names.auto_name(self.names.table.len())] == id);
            } else {
                assert(self.valid_node(i));
                let n = choose|n: Seq<char>|
                    self.names.table.contains_key(n) && #[trigger] self.names.table[n] == i;
                assert(r.names.table[n] == i);
            }
        }
        assert forall|p: int| 0 <= p < r.places.len() implies #[trigger] r.place_wf(p) by {
            assert(self.place_wf(p));
        }
        assert forall|t: int| 0 <= t < r.transitions.len() implies #[trigger] r.transition_wf(
            t,
        ) by {
            if t < self.transitions.len() {
                assert(self.transition_wf(t));
            }
        }
        assert forall|p: int, t: int|
            0 <= p < r.places.len() && 0 <= t < r.transitions.len() implies #[trigger] r.symmetric(
            p,
            t,
        ) by {
            if t < self.transitions.len() {
                assert(self.symmetric(p, t));
            } else {
                assert(self.place_wf(p));
                let tr = TransitionId(t as usize);
                lemma_no_key_out_of_range(self.places[p].consumed_by, tr, self.transitions.len());
                lemma_no_key_out_of_range(self.places[p].produced_by, tr, self.transitions.len());
                lemma_no_key_out_of_range(self.places[p].condition_for, tr, self.transitions.len());
                lemma_no_key_out_of_range(self.places[p].inhibitor_for, tr, self.transitions.len());
            }
        }
    }

    /// Renaming keeps a well-formed net well formed.
    pub proof fn lemma_rename_node(self, id: NodeId, name: Seq<char>)
        requires
            self.wf(),
        ensures
            self.rename_node(id, name).wf(),
    {
        let r = self.rename_node(id, name);
        assert forall|p: int| 0 <= p < r.places.len() implies #[trigger] r.place_wf(p) by {
            assert(self.place_wf(p));
        }
        assert forall|t: int| 0 <= t < r.transitions.len() implies #[trigger] r.transition_wf(
            t,
        ) by {
            assert(self.transition_wf(t));
        }
        assert forall|p: int, t: int|
            0 <= p < r.places.len() && 0 <= t < r.transitions.len() implies #[trigger] r.symmetric(
            p,
            t,
        ) by {
            assert(self.symmetric(p, t));
        }
        if self.valid_node(id) {
            crate::names::lemma_avoid(self.names, name);
            let a = self.names.avoid(name);
            if self.names.index_of(name) is Some {
                assert forall|i: NodeId| #[trigger] r.valid_node(i) implies r.names.has_name(
                    i,
                ) by {
                    assert(self.valid_node(i));
                    let n = choose|n: Seq<char>|
                        self.names.table.contains_key(n) && #[trigger] self.names.table[n] == i;
                    assert(r.names.table[n] == i);
                }
            } else {
                crate::names::lemma_set(a, id, name);
                assert forall|n: Seq<char>| #[trigger]
                    r.names.table.contains_key(n) implies r.valid_node(r.names.table[n]) by {
                    if n != name {
                        assert(self.names.table.contains_key(n));
                        assert(self.valid_node(self.names.table[n]));
                    }
                }
                assert forall|i: NodeId| #[trigger] r.valid_node(i) implies r.names.has_name(
                    i,
                ) by {
                    if i == id {
                        assert(r.names.table[name] == id);
                    } else {
                        assert(self.valid_node(i));
                        let n = choose|n: Seq<char>|
                            self.names.table.contains_key(n) && #[trigger] self.names.table[n]
                                == i;
                        assert(r.names.table[n] == i);
                    }
                }
            }
        }
    }

    /// Adding an arc keeps a well-formed net well formed.
    pub proof fn lemma_add_arc(self, arc: arc::Kind)
        requires
            self.wf(),
            self.can_add(arc),
        ensures
            self.add_arc(arc).wf(),
            self.add_arc(arc).places.len() == self.places.len(),
            self.add_arc(arc).transitions.len() == self.transitions.len(),
    {
        let r = self.add_arc(arc);
        match arc {
            arc::Kind::Consume(pl, tr, w) => {
                let t0 = self.transitions[tr.0 as int];
                let p0 = self.places[pl.0 as int];
                assert(self.place_wf(pl.0 as int));
                assert(self.transition_wf(tr.0 as int));
                assert(self.symmetric(pl.0 as int, tr.0 as int));
                let v = (weight(t0.consume, pl) + w) as usize;
                lemma_put(t0.consume, pl, v);
                lemma_put(p0.consumed_by, tr, v);
                self.lemma_frame(r);
                assert(r.place_wf(pl.0 as int)) by {
                    lemma_put_range(p0.consumed_by, tr, v, self.transitions.len());
                }
                assert(r.transition_wf(tr.0 as int)) by {
                    lemma_put_range(t0.consume, pl, v, self.places.len());
                }
                assert forall|p: int, t: int|
                    0 <= p < r.places.len() && 0 <= t < r.transitions.len()
                        && (p == pl.0 || t == tr.0) implies #[trigger] r.symmetric(p, t) by {
                    assert(self.symmetric(p, t));
                    if p != pl.0 {
                        assert(PlaceId(p as usize) != pl);
                    }
                    if t != tr.0 {
                        assert(TransitionId(t as usize) != tr);
                    }
                }
            },
            arc::Kind::Produce(pl, tr, w) => {
                let t0 = self.transitions[tr.0 as int];
                let p0 = self.places[pl.0 as int];
                assert(self.place_wf(pl.0 as int));
                assert(self.transition_wf(tr.0 as int));
                assert(self.symmetric(pl.0 as int, tr.0 as int));
                let v = (weight(t0.produce, pl) + w) as usize;
                lemma_put(t0.produce, pl, v);
                lemma_put(p0.produced_by, tr, v);
                self.lemma_frame(r);
                assert(r.place_wf(pl.0 as int)) by {
                    lemma_put_range(p0.produced_by, tr, v, self.transitions.len());
                }
                assert(r.transition_wf(tr.0 as int)) by {
                    lemma_put_range(t0.produce, pl, v, self.places.len());
                }
                assert forall|p: int, t: int|
                    0 <= p < r.places.len() && 0 <= t < r.transitions.len()
                        && (p == pl.0 || t == tr.0) implies #[trigger] r.symmetric(p, t) by {
                    assert(self.symmetric(p, t));
                    if p != pl.0 {
                        assert(PlaceId(p as usize) != pl);
                    }
                    if t != tr.0 {
                        assert(TransitionId(t as usize) != tr);
                    }
                }
            },
            arc::Kind::Test(pl, tr, w) => {
                let t0 = self.transitions[tr.0 as int];
                let p0 = self.places[pl.0 as int];
                assert(self.place_wf(pl.0 as int));
                assert(self.transition_wf(tr.0 as int));
                assert(self.symmetric(pl.0 as int, tr.0 as int));
                let v = max_of(weight(t0.conditions, pl), w as nat) as usize;
                lemma_put(t0.conditions, pl, v);
                lemma_put(p0.condition_for, tr, v);
                self.lemma_frame(r);
                assert(r.place_wf(pl.0 as int)) by {
                    lemma_put_range(p0.condition_for, tr, v, self.transitions.len());
                }
                assert(r.transition_wf(tr.0 as int)) by {
                    lemma_put_range(t0.conditions, pl, v, self.places.len());
                }
                assert forall|p: int, t: int|
                    0 <= p < r.places.len() && 0 <= t < r.transitions.len()
                        && (p == pl.0 || t == tr.0) implies #[trigger] r.symmetric(p, t) by {
                    assert(self.symmetric(p, t));
                    if p != pl.0 {
                        assert(PlaceId(p as usize) != pl);
                    }
                    if t != tr.0 {
                        assert(TransitionId(t as usize) != tr);
                    }
                }
            },
            arc::Kind::Inhibitor(pl, tr, w) => {
                let t0 = self.transitions[tr.0 as int];
                let p0 = self.places[pl.0 as int];
                assert(self.place_wf(pl.0 as int));
                assert(self.transition_wf(tr.0 as int));
                assert(self.symmetric(pl.0 as int, tr.0 as int));
                let v = (if has_key(t0.inhibitors, pl) {
                                min_of(weight(t0.inhibitors, pl), w as nat) as usize
                            } else {
                                w
                            });
                lemma_put(t0.inhibitors, pl, v);
                lemma_put(p0.inhibitor_for, tr, v);
                self.lemma_frame(r);
                assert(r.place_wf(pl.0 as int)) by {
                    lemma_put_range(p0.inhibitor_for, tr, v, self.transitions.len());
                }
                assert(r.transition_wf(tr.0 as int)) by {
                    lemma_put_range(t0.inhibitors, pl, v, self.places.len());
                }
                assert forall|p: int, t: int|
                    0 <= p < r.places.len() && 0 <= t < r.transitions.len()
                        && (p == pl.0 || t == tr.0) implies #[trigger] r.symmetric(p, t) by {
                    assert(self.symmetric(p, t));
                    if p != pl.0 {
                        assert(PlaceId(p as usize) != pl);
                    }
                    if t != tr.0 {
                        assert(TransitionId(t as usize) != tr);
                    }
                }
            },
            _ => {},
        }
    }

    /// Removing a place keeps a well-formed net well formed.
    pub proof fn lemma_delete_place(self, pl: PlaceId)
        requires
            self.wf(),
            self.valid_place(pl),
        ensures
            self.delete_place(pl).wf(),
    {
        let r = self.delete_place(pl);
        assert forall|n: Seq<char>| #[trigger] r.names.table.contains_key(n) implies r.valid_node(
            r.names.table[n],
        ) by {
            assert(self.valid_node(self.names.table[n]));
        }
        assert forall|i: NodeId| #[trigger] r.valid_node(i) implies r.names.has_name(i) by {
            assert(self.valid_node(i));
        }
        assert forall|p: int| 0 <= p < r.places.len() implies #[trigger] r.place_wf(p) by {
            assert(self.place_wf(p));
        }
        assert forall|t: int| 0 <= t < r.transitions.len() implies #[trigger] r.transition_wf(
            t,
        ) by {
            assert(self.transition_wf(t));
            let t0 = self.transitions[t];
            lemma_without(t0.consume, pl);
            lemma_without_range(t0.consume, pl, self.places.len());
            if t0.deleted {
                assert(without(t0.consume, pl) =~= t0.consume);
            }
            lemma_without(t0.produce, pl);
            lemma_without_range(t0.produce, pl, self.places.len());
            if t0.deleted {
                assert(without(t0.produce, pl) =~= t0.produce);
            }
            lemma_without(t0.conditions, pl);
            lemma_without_range(t0.conditions, pl, self.places.len());
            if t0.deleted {
                assert(without(t0.conditions, pl) =~= t0.conditions);
            }
            lemma_without(t0.inhibitors, pl);
            lemma_without_range(t0.inhibitors, pl, self.places.len());
            if t0.deleted {
                assert(without(t0.inhibitors, pl) =~= t0.inhibitors);
            }
        }
        assert forall|p: int, t: int|
            0 <= p < r.places.len() && 0 <= t < r.transitions.len() implies #[trigger] r.symmetric(
            p,
            t,
        ) by {
            assert(self.symmetric(p, t));
            assert(self.transition_wf(t));
            let t0 = self.transitions[t];
            lemma_without(t0.consume, pl);
            lemma_without(t0.produce, pl);
            lemma_without(t0.conditions, pl);
            lemma_without(t0.inhibitors, pl);
            if p != pl.0 {
                assert(PlaceId(p as usize) != pl);
            }
        }
    }

    /// Removing a transition keeps a well-formed net well formed.
    pub proof fn lemma_delete_transition(self, tr: TransitionId)
        requires
            self.wf(),
            self.valid_transition(tr),
        ensures
            self.delete_transition(tr).wf(),
    {
        let r = self.delete_transition(tr);
        assert forall|n: Seq<char>| #[trigger] r.names.table.contains_key(n) implies r.valid_node(
            r.names.table[n],
        ) by {
            assert(self.valid_node(self.names.table[n]));
        }
        assert forall|i: NodeId| #[trigger] r.valid_node(i) implies r.names.has_name(i) by {
            assert(self.valid_node(i));
        }
        assert forall|t: int| 0 <= t < r.transitions.len() implies #[trigger] r.transition_wf(
            t,
        ) by {
            assert(self.transition_wf(t));
        }
        assert forall|p: int| 0 <= p < r.places.len() implies #[trigger] r.place_wf(p) by {
            assert(self.place_wf(p));
            let p0 = self.places[p];
            lemma_without(p0.consumed_by, tr);
            lemma_without_range(p0.consumed_by, tr, self.transitions.len());
            if p0.deleted {
                assert(without(p0.consumed_by, tr) =~= p0.consumed_by);
            }
            lemma_without(p0.produced_by, tr);
            lemma_without_range(p0.produced_by, tr, self.transitions.len());
            if p0.deleted {
                assert(without(p0.produced_by, tr) =~= p0.produced_by);
            }
            lemma_without(p0.condition_for, tr);
            lemma_without_range(p0.condition_for, tr, self.transitions.len());
            if p0.deleted {
                assert(without(p0.condition_for, tr) =~= p0.condition_for);
            }
            lemma_without(p0.inhibitor_for, tr);
            lemma_without_range(p0.inhibitor_for, tr, self.transitions.len());
            if p0.deleted {
                assert(without(p0.inhibitor_for, tr) =~= p0.inhibitor_for);
            }
        }
        assert forall|p: int, t: int|
            0 <= p < r.places.len() && 0 <= t < r.transitions.len() implies #[trigger] r.symmetric(
            p,
            t,
        ) by {
            assert(self.symmetric(p, t));
            assert(self.place_wf(p));
            let p0 = self.places[p];
            lemma_without(p0.consumed_by, tr);
            lemma_without(p0.produced_by, tr);
            lemma_without(p0.condition_for, tr);
            lemma_without(p0.inhibitor_for, tr);
            if t != tr.0 {
                assert(TransitionId(t as usize) != tr);
            }
        }
    }

    /// One more priority keeps a well-formed net well formed.
    pub proof fn lemma_add_priority(self, tr: TransitionId, over: TransitionId)
        requires
            self.wf(),
            self.valid_transition(tr),
            self.valid_transition(over),
        ensures
            self.add_priority(tr, over).wf(),
            self.add_priority(tr, over).transitions.len() == self.transitions.len(),
    {
        let r = self.add_priority(tr, over);
        self.lemma_frame(r);
        assert(self.transition_wf(tr.0 as int));
        lemma_with_id(self.transitions[tr.0 as int].priorities, over);
        assert(r.transition_wf(tr.0 as int)) by {
            let s = self.transitions[tr.0 as int].priorities;
            let w = with_id(s, over);
            assert forall|i: int| 0 <= i < w.len() implies r.valid_transition(#[trigger] w[i]) by {
                assert(w.contains(w[i]));
                if s.contains(w[i]) {
                    let j = choose|j: int| 0 <= j < s.len() && s[j] == w[i];
                    assert(self.valid_transition(s[j]));
                }
            }
        }
        assert forall|p: int, t: int|
            0 <= p < r.places.len() && 0 <= t < r.transitions.len() implies #[trigger] r.symmetric(
            p,
            t,
        ) by {
            assert(self.symmetric(p, t));
        }
    }
}

impl View for Net {
    type V = NetView;

    open spec fn view(&self) -> NetView {
        NetView {
            name: self.name@,
            names: self.names@,
            transitions: self.transitions@.map_values(|t: Transition| t@),
            places: self.places@.map_values(|p: Place| p@),
        }
    }
}

impl Default for Net {
    /// A net without nodes.
    fn default() -> (net: Net)
        ensures
            net.wf(),
            net@ == empty(),
    {
        Net::new()
    }
}

impl std::ops::Index<PlaceId> for Net {
    type Output = Place;

    fn index(&self, index: PlaceId) -> (r: &Place)
        ensures
            r@ == self@.places[index.0 as int],
    {
        &self.places[index.0]
    }
}

impl vstd::std_specs::core::IndexSpecImpl<PlaceId> for Net {
    open spec fn index_req(&self, index: &PlaceId) -> bool {
        self@.valid_place(*index)
    }
}

impl std::ops::Index<TransitionId> for Net {
    type Output = Transition;

    fn index(&self, index: TransitionId) -> (r: &Transition)
        ensures
            r@ == self@.transitions[index.0 as int],
    {
        &self.transitions[index.0]
    }
}

impl vstd::std_specs::core::IndexSpecImpl<TransitionId> for Net {
    open spec fn index_req(&self, index: &TransitionId) -> bool {
        self@.valid_transition(*index)
    }
}

impl Net {
    /// The invariant of the net holds.
    pub open spec fn wf(&self) -> bool {
        self@.wf()
    }

    /// A net without nodes.
    pub fn new() -> (net: Net)
        ensures
            net.wf(),
            net@ == empty(),
    {
        let net = Net {
            name: String::new(),
            names: Names::new(false),
            transitions: Vec::new(),
            places: Vec::new(),
        };
        proof {
            assert(net@.names.table =~= Map::<Seq<char>, NodeId>::empty());
            assert(net@.places =~= Seq::empty());
            assert(net@.transitions =~= Seq::empty());
            assert forall|id: NodeId| #[trigger] net@.valid_node(id) implies net@.names.has_name(
                id,
            ) by {}
        }
        net
    }

    /// Creates a place without arcs and gives it the next free name.
    pub fn create_place(&mut self) -> (pl: PlaceId)
        requires
            old(self).wf(),
            old(self)@.places.len() < usize::MAX,
        ensures
            final(self).wf(),
            final(self)@ == old(self)@.create_place(),
            pl.0 == old(self)@.places.len(),
    {
        let pl = PlaceId(self.places.len());
        proof {
            self@.lemma_unnamed(NodeId::Place(pl));
            self@.lemma_create_place();
        }
        self.places.push(Place::new(pl));
        self.names.register(NodeId::Place(pl));
        proof {
            assert(self@.places =~= old(self)@.create_place().places);
            assert(self@.transitions =~= old(self)@.transitions);
        }
        pl
    }

    /// Creates a transition without arcs and gives it the next free name.
    pub fn create_transition(&mut self) -> (tr: TransitionId)
        requires
            old(self).wf(),
            old(self)@.transitions.len() < usize::MAX,
        ensures
            final(self).wf(),
            final(self)@ == old(self)@.create_transition(),
            tr.0 == old(self)@.transitions.len(),
    {
        let tr = TransitionId(self.transitions.len());
        proof {
            self@.lemma_unnamed(NodeId::Transition(tr));
            self@.lemma_create_transition();
        }
        self.transitions.push(Transition::new(tr));
        self.names.register(NodeId::Transition(tr));
        proof {
            assert(self@.transitions =~= old(self)@.create_transition().transitions);
            assert(self@.places =~= old(self)@.places);
        }
        tr
    }

    /// The name of a node.
    pub fn get_name_by_index(&self, index: &NodeId) -> (r: Option<String>)
        requires
            self.wf(),
        ensures
            match r {
                Some(s) => self@.names.name_of(*index) == Some(s@),
                None => self@.names.name_of(*index) is None,
            },
            self@.valid_node(*index) ==> r is Some,
    {
        self.names.get_name_by_index(index)
    }

    /// The node that bears a name.
    pub fn get_index_by_name(&self, name: &str) -> (r: Option<NodeId>)
        requires
            self.wf(),
        ensures
            r == self@.names.index_of(name@),
            r is Some ==> self@.valid_node(r->0),
    {
        self.names.get_index_by_name(name)
    }

    /// The place that bears a name.
    pub fn search_place_by_name(&self, name: &str) -> (r: Option<PlaceId>)
        requires
            self.wf(),
        ensures
            r == (match self@.names.index_of(name@) {
                Some(NodeId::Place(pl)) => Some(pl),
                _ => None,
            }),
    {
        match self.names.get_index_by_name(name) {
            Some(NodeId::Place(pl)) => Some(pl),
            _ => None,
        }
    }

    /// The transition that bears a name.
    pub fn search_transition_by_name(&self, name: &str) -> (r: Option<TransitionId>)
        requires
            self.wf(),
        ensures
            r == (match self@.names.index_of(name@) {
                Some(NodeId::Transition(tr)) => Some(tr),
                _ => None,
            }),
    {
        match self.names.get_index_by_name(name) {
            Some(NodeId::Transition(tr)) => Some(tr),
            _ => None,
        }
    }

    /// Whether `id` is a node of the net.
    pub fn contains_node(&self, id: NodeId) -> (b: bool)
        ensures
            b == self@.valid_node(id),
    {
        match id {
            NodeId::Place(pl) => pl.0 < self.places.len(),
            NodeId::Transition(tr) => tr.0 < self.transitions.len(),
        }
    }

    /// Gives the node `id` the name `name`.
    ///
    /// The prefix of the names of new nodes grows until `name` does not begin with it.
    /// A name that another node bears is refused with `DuplicatedName`, a node that is
    /// not in the net with `InvalidPlace` or `InvalidTransition`.
    pub fn rename_node(&mut self, id: NodeId, name: &str) -> (r: Result<(), NetError>)
        requires
            old(self).wf(),
        ensures
            final(self).wf(),
            final(self)@ == old(self)@.rename_node(id, name@),
            r is Ok <==> old(self)@.can_rename(id, name@),
            match r {
                Ok(_) => true,
                Err(NetError::InvalidPlace(pl)) => id == NodeId::Place(pl) && !old(
                    self,
                )@.valid_node(id),
                Err(NetError::InvalidTransition(tr)) => id == NodeId::Transition(tr) && !old(
                    self,
                )@.valid_node(id),
                Err(NetError::DuplicatedName(n)) => n@ == name@ && old(self)@.valid_node(id),
                Err(_) => false,
            },
    {
        proof {
            self@.lemma_rename_node(id, name@);
        }
        if !self.contains_node(id) {
            return match id {
                NodeId::Place(pl) => Err(NetError::InvalidPlace(pl)),
                NodeId::Transition(tr) => Err(NetError::InvalidTransition(tr)),
            };
        }
        self.names.avoid(name);
        match self.names.get_index_by_name(name) {
            None => {
                self.names.set(id, name);
                Ok(())
            },
            Some(holder) => {
                if holder == id {
                    Ok(())
                } else {
                    Err(NetError::DuplicatedName(name.to_owned()))
                }
            },
        }
    }

    /// Whether the ends of an arc between `pl` and `tr` are nodes of the net that were
    /// not removed.
    fn joins_live(&self, pl: PlaceId, tr: TransitionId) -> (b: bool)
        ensures
            b == (self@.valid_place(pl) && self@.valid_transition(tr)
                && !self@.places[pl.0 as int].deleted && !self@.transitions[tr.0 as int].deleted),
    {
        pl.0 < self.places.len() && tr.0 < self.transitions.len() && !self.places[pl.0].deleted
            && !self.transitions[tr.0].deleted
    }

    /// Whether `add_arc` can take `arc`: its ends are nodes of the net that were not
    /// removed, and its weight can be added to what is there.
    pub fn can_add_arc(&self, arc: &arc::Kind) -> (b: bool)
        requires
            self.wf(),
        ensures
            b == self@.can_add(*arc),
    {
        match *arc {
            arc::Kind::Consume(pl, tr, w) => {
                if self.joins_live(pl, tr) {
                    assert(self@.transition_wf(tr.0 as int));
                    self.transitions[tr.0].consume.get(pl) <= usize::MAX - w
                } else {
                    false
                }
            },
            arc::Kind::Produce(pl, tr, w) => {
                if self.joins_live(pl, tr) {
                    assert(self@.transition_wf(tr.0 as int));
                    self.transitions[tr.0].produce.get(pl) <= usize::MAX - w
                } else {
                    false
                }
            },
            arc::Kind::Test(pl, tr, w) => self.joins_live(pl, tr),
            arc::Kind::Inhibitor(pl, tr, w) => self.joins_live(pl, tr),
            _ => true,
        }
    }

    /// Adds an arc at the place and at the transition.
    ///
    /// The weight of an arc that consumes or produces is added to what is there; of test
    /// arcs the greater weight is kept, of inhibitor arcs the smaller. A stopwatch arc is
    /// refused with `UnsupportedArc` and the net stays as it is.
    pub fn add_arc(&mut self, arc: arc::Kind) -> (r: Result<(), NetError>)
        requires
            old(self).wf(),
            old(self)@.can_add(arc),
        ensures
            final(self).wf(),
            final(self)@ == old(self)@.add_arc(arc),
            r is Ok <==> (arc is Consume || arc is Produce || arc is Test || arc is Inhibitor),
            r is Err ==> r == Err::<(), NetError>(NetError::UnsupportedArc(arc)),
    {
        proof {
            self@.lemma_add_arc(arc);
        }
        match arc {
            arc::Kind::Consume(pl, tr, w) => {
                proof {
                    assert(self@.transition_wf(tr.0 as int));
                    assert(self@.place_wf(pl.0 as int));
                    assert(self@.symmetric(pl.0 as int, tr.0 as int));
                }
                self.transitions[tr.0].consume.insert_or_add(pl, w);
                self.places[pl.0].consumed_by.insert_or_add(tr, w);
                proof {
                    assert(self@.transitions =~= old(self)@.add_arc(arc).transitions);
                    assert(self@.places =~= old(self)@.add_arc(arc).places);
                }
                Ok(())
            },
            arc::Kind::Produce(pl, tr, w) => {
                proof {
                    assert(self@.transition_wf(tr.0 as int));
                    assert(self@.place_wf(pl.0 as int));
                    assert(self@.symmetric(pl.0 as int, tr.0 as int));
                }
                self.transitions[tr.0].produce.insert_or_add(pl, w);
                self.places[pl.0].produced_by.insert_or_add(tr, w);
                proof {
                    assert(self@.transitions =~= old(self)@.add_arc(arc).transitions);
                    assert(self@.places =~= old(self)@.add_arc(arc).places);
                }
                Ok(())
            },
            arc::Kind::Test(pl, tr, w) => {
                proof {
                    assert(self@.transition_wf(tr.0 as int));
                    assert(self@.place_wf(pl.0 as int));
                    assert(self@.symmetric(pl.0 as int, tr.0 as int));
                }
                self.transitions[tr.0].conditions.insert_or_max(pl, w);
                self.places[pl.0].condition_for.insert_or_max(tr, w);
                proof {
                    assert(self@.transitions =~= old(self)@.add_arc(arc).transitions);
                    assert(self@.places =~= old(self)@.add_arc(arc).places);
                }
                Ok(())
            },
            arc::Kind::Inhibitor(pl, tr, w) => {
                proof {
                    assert(self@.transition_wf(tr.0 as int));
                    assert(self@.place_wf(pl.0 as int));
                    assert(self@.symmetric(pl.0 as int, tr.0 as int));
                }
                self.transitions[tr.0].inhibitors.insert_or_min(pl, w);
                self.places[pl.0].inhibitor_for.insert_or_min(tr, w);
                proof {
                    assert(self@.transitions =~= old(self)@.add_arc(arc).transitions);
                    assert(self@.places =~= old(self)@.add_arc(arc).places);
                }
                Ok(())
            },
            a => Err(NetError::UnsupportedArc(a)),
        }
    }

    /// Removes the place from the net: its arcs are taken out at both ends and it is
    /// marked as removed. Its identifier and its name stay.
    pub fn delete_place(&mut self, place: PlaceId)
        requires
            old(self).wf(),
            old(self)@.valid_place(place),
        ensures
            final(self).wf(),
            final(self)@ == old(self)@.delete_place(place),
    {
        let ghost v = self@;
        proof {
            v.lemma_delete_place(place);
        }
        let n = self.transitions.len();
        let mut t: usize = 0;
        while t < n
            invariant
                t <= n,
                n == v.transitions.len(),
                v.wf(),
                self@.places == v.places,
                self@.names == v.names,
                self@.name == v.name,
                self@.transitions.len() == v.transitions.len(),
                forall|j: int|
                    0 <= j < t ==> #[trigger] self@.transitions[j] == NetView::transition_without(
                        v.transitions[j],
                        place,
                    ),
                forall|j: int| t <= j < n ==> #[trigger] self@.transitions[j] == v.transitions[j],
            decreases n - t,
        {
            let ghost before = self@;
            proof {
                assert(v.transition_wf(t as int));
                assert(before.transitions[t as int] == v.transitions[t as int]);
            }
            self.transitions[t].consume.delete(place);
            self.transitions[t].produce.delete(place);
            self.transitions[t].conditions.delete(place);
            self.transitions[t].inhibitors.delete(place);
            proof {
                assert(self@.places =~= v.places);
                assert forall|j: int| 0 <= j < n && j != t implies #[trigger] self@.transitions[j]
                    == before.transitions[j] by {}
            }
            t += 1;
        }
        self.places[place.0].consumed_by.clear();
        self.places[place.0].produced_by.clear();
        self.places[place.0].condition_for.clear();
        self.places[place.0].inhibitor_for.clear();
        self.places[place.0].deleted = true;
        proof {
            let r = v.delete_place(place);
            assert(self@.places =~= r.places);
            assert(self@.transitions =~= r.transitions);
        }
    }

    /// Removes the transition from the net: its arcs are taken out at both ends, its
    /// priorities are dropped, and it is marked as removed. Its identifier and its name stay.
    pub fn delete_transition(&mut self, transition: TransitionId)
        requires
            old(self).wf(),
            old(self)@.valid_transition(transition),
        ensures
            final(self).wf(),
            final(self)@ == old(self)@.delete_transition(transition),
    {
        let ghost v = self@;
        proof {
            v.lemma_delete_transition(transition);
        }
        let n = self.places.len();
        let mut p: usize = 0;
        while p < n
            invariant
                p <= n,
                n == v.places.len(),
                v.wf(),
                self@.transitions == v.transitions,
                self@.names == v.names,
                self@.name == v.name,
                self@.places.len() == v.places.len(),
                forall|j: int|
                    0 <= j < p ==> #[trigger] self@.places[j] == NetView::place_without(
                        v.places[j],
                        transition,
                    ),
                forall|j: int| p <= j < n ==> #[trigger] self@.places[j] == v.places[j],
            decreases n - p,
        {
            let ghost before = self@;
            proof {
                assert(v.place_wf(p as int));
                assert(before.places[p as int] == v.places[p as int]);
            }
            self.places[p].consumed_by.delete(transition);
            self.places[p].produced_by.delete(transition);
            self.places[p].condition_for.delete(transition);
            self.places[p].inhibitor_for.delete(transition);
            proof {
                assert(self@.transitions =~= v.transitions);
                assert forall|j: int| 0 <= j < n && j != p implies #[trigger] self@.places[j]
                    == before.places[j] by {}
            }
            p += 1;
        }
        self.transitions[transition.0].consume.clear();
        self.transitions[transition.0].produce.clear();
        self.transitions[transition.0].priorities.clear();
        self.transitions[transition.0].inhibitors.clear();
        self.transitions[transition.0].conditions.clear();
        self.transitions[transition.0].deleted = true;
        proof {
            let r = v.delete_transition(transition);
            assert(self@.places =~= r.places);
            assert(self@.transitions =~= r.transitions);
        }
    }

    /// Gives the transition `tr_index` priority over `over`.
    pub fn add_priority(&mut self, tr_index: TransitionId, over: TransitionId)
        requires
            old(self).wf(),
            old(self)@.valid_transition(tr_index),
            old(self)@.valid_transition(over),
        ensures
            final(self).wf(),
            final(self)@ == old(self)@.add_priority(tr_index, over),
    {
        let ghost v = self@;
        proof {
            v.lemma_add_priority(tr_index, over);
            assert(v.transition_wf(tr_index.0 as int));
            lemma_below(v.transitions[tr_index.0 as int].priorities, over);
        }
        let ghost s = v.transitions[tr_index.0 as int].priorities;
        let n = self.transitions[tr_index.0].priorities.len();
        let mut i: usize = 0;
        while i < n && self.transitions[tr_index.0].priorities[i].0 < over.0
            invariant
                i <= n,
                self@ == v,
                v.valid_transition(tr_index),
                n == s.len(),
                s == v.transitions[tr_index.0 as int].priorities,
                forall|j: int| 0 <= j < i ==> (#[trigger] s[j]).0 < over.0,
            decreases n - i,
        {
            i += 1;
        }
        proof {
            let b = below(s, over);
            if i < b {
                assert(s[i as int].0 < over.0);
            } else if i > b {
                assert(s[b].0 >= over.0);
            }
        }
        if i < n && self.transitions[tr_index.0].priorities[i].0 == over.0 {
            proof {
                assert(s[i as int] == over);
                assert(s.contains(over));
                assert(self@.transitions =~= v.add_priority(tr_index, over).transitions);
            }
        } else {
            proof {
                if s.contains(over) {
                    let j = choose|j: int| 0 <= j < s.len() && s[j] == over;
                    if j < i {
                        assert(s[j].0 < over.0);
                    } else if j > i {
                        assert(s[i as int].0 < s[j].0);
                    }
                }
            }
            self.transitions[tr_index.0].priorities.insert(i, over);
            proof {
                assert(self@.transitions =~= v.add_priority(tr_index, over).transitions);
                assert(self@.places =~= v.places);
            }
        }
    }
}

} // verus!
