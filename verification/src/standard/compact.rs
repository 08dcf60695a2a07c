//! A net without its disconnected nodes.
use vstd::prelude::*;
use crate::ids::{PlaceId, TransitionId};
use crate::marking::{has_key, lemma_entry, sorted};
use crate::standard::net::{empty, Net, NetView};

verus! {

/// The place at `p` is kept: it was not removed and has an arc.
pub open spec fn kept_place(net: NetView, p: int) -> bool {
    !net.places[p].deleted && !net.places[p].is_disconnected()
}

/// The transition at `t` is kept: it has an arc.
pub open spec fn kept_transition(net: NetView, t: int) -> bool {
    !net.transitions[t].is_disconnected()
}

/// How many of the first `n` places are kept.
pub open spec fn kept_before(net: NetView, n: nat) -> nat
    decreases n,
{
    if n == 0 {
        0
    } else if kept_place(net, n - 1) {
        kept_before(net, (n - 1) as nat) + 1
    } else {
        kept_before(net, (n - 1) as nat)
    }
}

/// Those of the first `n` places that are kept, in increasing order.
pub open spec fn place_map(net: NetView, n: nat) -> Seq<PlaceId>
    decreases n,
{
    if n == 0 {
        Seq::empty()
    } else if kept_place(net, n - 1) {
        place_map(net, (n - 1) as nat).push(PlaceId((n - 1) as usize))
    } else {
        place_map(net, (n - 1) as nat)
    }
}

/// Those of the first `n` transitions that are kept, in increasing order.
pub open spec fn transition_map(net: NetView, n: nat) -> Seq<TransitionId>
    decreases n,
{
    if n == 0 {
        Seq::empty()
    } else if kept_transition(net, n - 1) {
        transition_map(net, (n - 1) as nat).push(TransitionId((n - 1) as usize))
    } else {
        transition_map(net, (n - 1) as nat)
    }
}

/// The new net with a place for each of the first `n` places that is kept, with its tokens.
pub open spec fn compact_places(net: NetView, n: nat) -> NetView
    decreases n,
{
    if n == 0 {
        empty()
    } else {
        let before = compact_places(net, (n - 1) as nat);
        if kept_place(net, n - 1) {
            before.create_place().set_initial(
                PlaceId(before.places.len() as usize),
                net.places[n - 1].initial,
            )
        } else {
            before
        }
    }
}

/// The arcs `arcs`, each led to the new place of its place.
pub open spec fn mapped(net: NetView, arcs: Seq<(PlaceId, usize)>) -> Seq<(PlaceId, usize)> {
    Seq::new(
        arcs.len(),
        |i: int| (PlaceId(kept_before(net, arcs[i].0.0 as nat) as usize), arcs[i].1),
    )
}

/// The new net with the kept places and, for each of the first `n` transitions that is
/// kept, a transition with its arcs.
pub open spec fn compact(net: NetView, n: nat) -> NetView
    decreases n,
{
    if n == 0 {
        compact_places(net, net.places.len())
    } else {
        let before = compact(net, (n - 1) as nat);
        if kept_transition(net, n - 1) {
            before.create_transition().connect_transition(
                TransitionId(before.transitions.len() as usize),
                mapped(net, net.transitions[n - 1].consume),
                mapped(net, net.transitions[n - 1].produce),
            )
        } else {
            before
        }
    }
}

/// The new net has the kept places and nothing removed.
pub open spec fn compact_wf(net: NetView, c: NetView, t: nat) -> bool {
    &&& c.wf()
    &&& c.places.len() == kept_before(net, net.places.len())
    &&& c.transitions.len() <= t
    &&& forall|p: int| 0 <= p < c.places.len() ==> !(#[trigger] c.places[p]).deleted
}

/// Not more places are kept than there are, and a kept place counts.
pub proof fn lemma_kept_before(net: NetView, k: nat, n: nat)
    requires
        k <= n,
    ensures
        kept_before(net, k) <= kept_before(net, n),
        kept_before(net, n) <= n,
        k < n && kept_place(net, k as int) ==> kept_before(net, k) < kept_before(net, n),
    decreases n,
{
    if n > 0 {
        if k < n {
            lemma_kept_before(net, k, (n - 1) as nat);
        }
        lemma_kept_before(net, (n - 1) as nat, (n - 1) as nat);
    }
}

/// The new net of the places is well formed, with a place for each kept place and
/// nothing removed.
pub proof fn lemma_compact_places(net: NetView, n: nat)
    requires
        n <= net.places.len(),
        net.places.len() <= usize::MAX,
    ensures
        compact_places(net, n).wf(),
        compact_places(net, n).places.len() == kept_before(net, n),
        compact_places(net, n).transitions.len() == 0,
        forall|p: int|
            0 <= p < compact_places(net, n).places.len() ==> !(#[trigger] compact_places(
                net,
                n,
            ).places[p]).deleted,
    decreases n,
{
    if n == 0 {
        let e = empty();
        assert forall|id: crate::ids::NodeId| #[trigger] e.valid_node(id) implies e.names.has_name(
            id,
        ) by {}
        assert(e.names.table.dom().finite());
    } else {
        lemma_compact_places(net, (n - 1) as nat);
        lemma_kept_before(net, (n - 1) as nat, (n - 1) as nat);
        let before = compact_places(net, (n - 1) as nat);
        if kept_place(net, n - 1) {
            before.lemma_create_place();
            before.create_place().lemma_set_initial(
                PlaceId(before.places.len() as usize),
                net.places[n - 1].initial,
            );
        }
    }
}

/// The arcs of a kept transition, led to the new places, can be added at a new transition.
pub proof fn lemma_mapped(net: NetView, c: NetView, t: int)
    requires
        net.wf(),
        0 <= t < net.transitions.len(),
        compact_wf(net, c, t as nat),
        c.transitions.len() < usize::MAX,
    ensures
        c.create_transition().can_connect_transition(
            TransitionId(c.transitions.len() as usize),
            mapped(net, net.transitions[t].consume),
            mapped(net, net.transitions[t].produce),
        ),
        c.create_transition().wf(),
{
    c.lemma_create_transition();
    net.lemma_transition_arcs_live(t);
    let made = c.create_transition();
    let tr = TransitionId(t as usize);
    lemma_mapped_arcs(net, c, t, net.transitions[t].consume, true);
    lemma_mapped_arcs(net, c, t, net.transitions[t].produce, false);
}

/// Arcs that lead to kept places stay sorted when they are led to the new places, which
/// are places of the new net.
pub proof fn lemma_mapped_arcs(net: NetView, c: NetView, t: int, arcs: Seq<(PlaceId, usize)>, consuming: bool)
    requires
        net.wf(),
        0 <= t < net.transitions.len(),
        compact_wf(net, c, t as nat),
        arcs == (if consuming {
            net.transitions[t].consume
        } else {
            net.transitions[t].produce
        }),
    ensures
        sorted(mapped(net, arcs)),
        forall|j: int|
            0 <= j < arcs.len() ==> (#[trigger] mapped(net, arcs)[j]).0.0 < c.places.len(),
{
    net.lemma_transition_arcs_live(t);
    let tr = TransitionId(t as usize);
    assert forall|j: int| 0 <= j < arcs.len() implies kept_place(net, (#[trigger] arcs[j]).0.0 as int)
        && arcs[j].0.0 < net.places.len() by {
        let p = arcs[j].0;
        assert(net.valid_place(p));
        assert(net.symmetric(p.0 as int, t));
        lemma_entry(arcs, j);
        if consuming {
            assert(has_key(net.places[p.0 as int].consumed_by, tr));
        } else {
            assert(has_key(net.places[p.0 as int].produced_by, tr));
        }
    }
    let m = mapped(net, arcs);
    assert forall|i: int, j: int| 0 <= i < j < m.len() implies (#[trigger] m[i]).0.0 < (
    #[trigger] m[j]).0.0 by {
        assert(arcs[i].0.0 < arcs[j].0.0);
        assert(kept_place(net, arcs[i].0.0 as int));
        lemma_kept_before(net, arcs[i].0.0 as nat, arcs[j].0.0 as nat);
        lemma_kept_before(net, arcs[j].0.0 as nat, net.places.len());
    }
    assert forall|j: int| 0 <= j < arcs.len() implies (#[trigger] m[j]).0.0 < c.places.len() by {
        assert(kept_place(net, arcs[j].0.0 as int));
        lemma_kept_before(net, arcs[j].0.0 as nat, net.places.len());
    }
}

/// The new net is well formed at every stage.
pub proof fn lemma_compact(net: NetView, n: nat)
    requires
        net.wf(),
        n <= net.transitions.len(),
    ensures
        compact_wf(net, compact(net, n), n),
        compact(net, n).transitions.len() == transition_map(net, n).len(),
    decreases n,
{
    if n == 0 {
        lemma_compact_places(net, net.places.len());
    } else {
        lemma_compact(net, (n - 1) as nat);
        let before = compact(net, (n - 1) as nat);
        if kept_transition(net, n - 1) {
            lemma_mapped(net, before, n - 1);
            let tr = TransitionId(before.transitions.len() as usize);
            before.create_transition().lemma_connect_transition(
                tr,
                mapped(net, net.transitions[n - 1].consume),
                mapped(net, net.transitions[n - 1].produce),
            );
        }
    }
}

impl Net {
    /// The arcs `arcs`, each led to the new place that `new_of` gives for its place.
    fn mapped(arcs: &crate::marking::Marking<PlaceId>, new_of: &Vec<PlaceId>, Ghost(net): Ghost<
        NetView,
    >) -> (r: Vec<(PlaceId, usize)>)
        requires
            new_of@.len() == net.places.len(),
            forall|p: int|
                0 <= p < new_of@.len() ==> (#[trigger] new_of@[p]).0 == kept_before(net, p as nat),
            forall|j: int| 0 <= j < arcs@.len() ==> (#[trigger] arcs@[j]).0.0 < net.places.len(),
        ensures
            r@ == mapped(net, arcs@),
    {
        let mut r: Vec<(PlaceId, usize)> = Vec::new();
        let n = arcs.len();
        let mut i: usize = 0;
        while i < n
            invariant
                i <= n,
                n == arcs@.len(),
                new_of@.len() == net.places.len(),
                forall|p: int|
                    0 <= p < new_of@.len() ==> (#[trigger] new_of@[p]).0 == kept_before(
                        net,
                        p as nat,
                    ),
                forall|j: int|
                    0 <= j < arcs@.len() ==> (#[trigger] arcs@[j]).0.0 < net.places.len(),
                r@.len() == i,
                forall|j: int| 0 <= j < i ==> r@[j] == mapped(net, arcs@)[j],
            decreases n - i,
        {
            let e = arcs.entry(i);
            assert(arcs@[i as int].0.0 < net.places.len());
            let q = new_of[e.0.0];
            r.push((q, e.1));
            i += 1;
        }
        assert(r@ =~= mapped(net, arcs@));
        r
    }

    /// A new net with the nodes of this one that have an arc, and for the places and the
    /// transitions of the new net the nodes of this one that they stand for.
    ///
    /// The new net has a place for each place that was not removed and has an arc, with
    /// its tokens, and a transition for each transition that has an arc, with its arcs.
    /// Labels and names are not carried over.
    #[must_use]
    pub fn new_without_disconnected(&self) -> (r: (Net, Vec<TransitionId>, Vec<PlaceId>))
        requires
            self.wf(),
        ensures
            r.0.wf(),
            r.0@ == compact(self@, self@.transitions.len()),
            r.1@ == self::transition_map(self@, self@.transitions.len()),
            r.2@ == self::place_map(self@, self@.places.len()),
    {
        let ghost v = self@;
        let mut new = Net::new();
        let mut transition_map: Vec<TransitionId> = Vec::new();
        let mut place_map: Vec<PlaceId> = Vec::new();
        let mut place_map_inv: Vec<PlaceId> = Vec::new();
        let n = self.places.len();
        let mut p: usize = 0;
        while p < n
            invariant
                p <= n,
                n == v.places.len(),
                v == self@,
                v.wf(),
                new.wf(),
                new@ == compact_places(v, p as nat),
                place_map@ == self::place_map(v, p as nat),
                place_map@.len() == kept_before(v, p as nat),
                place_map_inv@.len() == p,
                forall|q: int|
                    0 <= q < p ==> (#[trigger] place_map_inv@[q]).0 == kept_before(v, q as nat),
            decreases n - p,
        {
            proof {
                lemma_compact_places(v, p as nat);
                lemma_kept_before(v, p as nat, p as nat);
            }
            place_map_inv.push(PlaceId(place_map.len()));
            let old_place = &self.places[p];
            if !old_place.deleted && !old_place.is_disconnected() {
                let pl = new.create_place();
                new.set_initial(pl, old_place.initial);
                place_map.push(PlaceId(p));
            }
            p += 1;
        }
        proof {
            lemma_compact(v, 0);
        }
        let m = self.transitions.len();
        let mut t: usize = 0;
        while t < m
            invariant
                t <= m,
                m == v.transitions.len(),
                n == v.places.len(),
                v == self@,
                v.wf(),
                new.wf(),
                new@ == compact(v, t as nat),
                transition_map@ == self::transition_map(v, t as nat),
                place_map@ == self::place_map(v, v.places.len()),
                place_map_inv@.len() == n,
                forall|q: int|
                    0 <= q < n ==> (#[trigger] place_map_inv@[q]).0 == kept_before(v, q as nat),
            decreases m - t,
        {
            proof {
                lemma_compact(v, t as nat);
                v.lemma_transition_arcs_live(t as int);
            }
            let old_transition = &self.transitions[t];
            if !old_transition.is_disconnected() {
                proof {
                    lemma_mapped(v, new@, t as int);
                }
                let consume = Self::mapped(&old_transition.consume, &place_map_inv, Ghost(v));
                let produce = Self::mapped(&old_transition.produce, &place_map_inv, Ghost(v));
                let tr = new.create_transition();
                new.connect_transition(tr, &consume, &produce);
                transition_map.push(TransitionId(t));
            }
            t += 1;
        }
        (new, transition_map, place_map)
    }
}

} // verus!
