//! The places of a basic net.
use vstd::prelude::*;
use crate::arc;
use crate::ids::{PlaceId, TransitionId};
use crate::marking::Marking;

verus! {

/// A place, with the transitions that put tokens into it and take tokens from it.
#[derive(Debug, Clone)]
pub struct Place {
    /// The identifier of the place.
    pub id: PlaceId,
    /// The label of the place.
    pub label: Option<String>,
    /// The number of tokens at the start.
    pub initial: usize,
    /// The transitions that produce into this place, each with the weight of its arc.
    pub produced_by: Marking<TransitionId>,
    /// The transitions that consume from this place, each with the weight of its arc.
    pub consumed_by: Marking<TransitionId>,
    /// The place was removed from the net; it is kept so that identifiers stay valid.
    pub deleted: bool,
}

/// What a place holds.
pub struct PlaceView {
    /// The identifier of the place.
    pub id: PlaceId,
    /// The label of the place.
    pub label: Option<Seq<char>>,
    /// The number of tokens at the start.
    pub initial: usize,
    /// The arcs from transitions into this place.
    pub produced_by: Seq<(TransitionId, usize)>,
    /// The arcs from this place to transitions.
    pub consumed_by: Seq<(TransitionId, usize)>,
    /// The place was removed from the net.
    pub deleted: bool,
}

impl PlaceView {
    /// A place that was just created: no label, no token, no arc.
    pub open spec fn fresh(id: PlaceId) -> PlaceView {
        PlaceView {
            id,
            label: None,
            initial: 0,
            produced_by: Seq::empty(),
            consumed_by: Seq::empty(),
            deleted: false,
        }
    }

    /// No arc touches the place.
    pub open spec fn is_disconnected(self) -> bool {
        self.produced_by.len() == 0 && self.consumed_by.len() == 0
    }

    /// The arcs of the place: those that consume from it, then those that produce into it.
    pub open spec fn arcs(self) -> Seq<arc::Kind> {
        Seq::new(
            self.consumed_by.len() + self.produced_by.len(),
            |i: int|
                if i < self.consumed_by.len() {
                    arc::Kind::Consume(self.id, self.consumed_by[i].0, self.consumed_by[i].1)
                } else {
                    let j = i - self.consumed_by.len();
                    arc::Kind::Produce(self.id, self.produced_by[j].0, self.produced_by[j].1)
                },
        )
    }
}

/// The characters of an optional string.
pub open spec fn label_view(label: Option<String>) -> Option<Seq<char>> {
    match label {
        Some(s) => Some(s@),
        None => None,
    }
}

impl View for Place {
    type V = PlaceView;

    open spec fn view(&self) -> PlaceView {
        PlaceView {
            id: self.id,
            label: label_view(self.label),
            initial: self.initial,
            produced_by: self.produced_by@,
            consumed_by: self.consumed_by@,
            deleted: self.deleted,
        }
    }
}

impl Place {
    /// A place without label, tokens or arcs.
    pub(crate) fn new(id: PlaceId) -> (p: Place)
        ensures
            p@ == PlaceView::fresh(id),
            p.produced_by.wf(),
            p.consumed_by.wf(),
    {
        Place {
            id,
            label: None,
            initial: 0,
            produced_by: Marking::new(),
            consumed_by: Marking::new(),
            deleted: false,
        }
    }

    /// The identifier of the place.
    #[must_use]
    pub fn id(&self) -> (id: PlaceId)
        ensures
            id == self@.id,
    {
        self.id
    }

    /// Whether no arc touches the place.
    #[must_use]
    pub fn is_disconnected(&self) -> (b: bool)
        ensures
            b == self@.is_disconnected(),
    {
        self.produced_by.is_empty() && self.consumed_by.is_empty()
    }

    /// The arcs of the place: those that consume from it, then those that produce into it.
    #[must_use]
    pub fn get_arcs(&self) -> (arcs: Vec<arc::Kind>)
        ensures
            arcs@ == self@.arcs(),
    {
        let mut arcs: Vec<arc::Kind> = Vec::new();
        let nc = self.consumed_by.len();
        let mut i: usize = 0;
        while i < nc
            invariant
                i <= nc,
                nc == self.consumed_by@.len(),
                arcs@.len() == i,
                forall|j: int| 0 <= j < i ==> arcs@[j] == self@.arcs()[j],
            decreases nc - i,
        {
            let e = self.consumed_by.entry(i);
            arcs.push(arc::Kind::Consume(self.id, e.0, e.1));
            i += 1;
        }
        let np = self.produced_by.len();
        let mut k: usize = 0;
        while k < np
            invariant
                k <= np,
                np == self.produced_by@.len(),
                nc == self.consumed_by@.len(),
                arcs@.len() == nc + k,
                forall|j: int| 0 <= j < nc + k ==> arcs@[j] == self@.arcs()[j],
            decreases np - k,
        {
            let e = self.produced_by.entry(k);
            arcs.push(arc::Kind::Produce(self.id, e.0, e.1));
            k += 1;
        }
        assert(arcs@ =~= self@.arcs());
        arcs
    }
}

} // verus!
