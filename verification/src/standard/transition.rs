//! The transitions of a basic net.
use vstd::prelude::*;
use crate::arc;
use crate::ids::{PlaceId, TransitionId};
use crate::marking::Marking;
use crate::standard::place::label_view;

verus! {

/// A transition, with the places it takes tokens from and puts tokens into.
#[derive(Debug, Clone)]
pub struct Transition {
    /// The identifier of the transition.
    pub id: TransitionId,
    /// The label of the transition.
    pub label: Option<String>,
    /// The places the transition consumes from, each with the weight of its arc.
    pub consume: Marking<PlaceId>,
    /// The places the transition produces into, each with the weight of its arc.
    pub produce: Marking<PlaceId>,
    /// The transition was removed from the net; it is kept so that identifiers stay valid.
    pub deleted: bool,
}

/// What a transition holds.
pub struct TransitionView {
    /// The identifier of the transition.
    pub id: TransitionId,
    /// The label of the transition.
    pub label: Option<Seq<char>>,
    /// The arcs from places to this transition.
    pub consume: Seq<(PlaceId, usize)>,
    /// The arcs from this transition to places.
    pub produce: Seq<(PlaceId, usize)>,
    /// The transition was removed from the net.
    pub deleted: bool,
}

impl TransitionView {
    /// A transition that was just created: no label, no arc.
    pub open spec fn fresh(id: TransitionId) -> TransitionView {
        TransitionView {
            id,
            label: None,
            consume: Seq::empty(),
            produce: Seq::empty(),
            deleted: false,
        }
    }

    /// No arc touches the transition.
    pub open spec fn is_disconnected(self) -> bool {
        self.consume.len() == 0 && self.produce.len() == 0
    }

    /// The arcs of the transition: those it consumes by, then those it produces by.
    pub open spec fn arcs(self) -> Seq<arc::Kind> {
        Seq::new(
            self.consume.len() + self.produce.len(),
            |i: int|
                if i < self.consume.len() {
                    arc::Kind::Consume(self.consume[i].0, self.id, self.consume[i].1)
                } else {
                    let j = i - self.consume.len();
                    arc::Kind::Produce(self.produce[j].0, self.id, self.produce[j].1)
                },
        )
    }
}

impl View for Transition {
    type V = TransitionView;

    open spec fn view(&self) -> TransitionView {
        TransitionView {
            id: self.id,
            label: label_view(self.label),
            consume: self.consume@,
            produce: self.produce@,
            deleted: self.deleted,
        }
    }
}

impl Transition {
    /// A transition without label or arcs.
    pub(crate) fn new(id: TransitionId) -> (t: Transition)
        ensures
            t@ == TransitionView::fresh(id),
            t.consume.wf(),
            t.produce.wf(),
    {
        Transition {
            id,
            label: None,
            consume: Marking::new(),
            produce: Marking::new(),
            deleted: false,
        }
    }

    /// The identifier of the transition.
    #[must_use]
    pub fn id(&self) -> (id: TransitionId)
        ensures
            id == self@.id,
    {
        self.id
    }

    /// Whether no arc touches the transition.
    #[must_use]
    pub fn is_disconnected(&self) -> (b: bool)
        ensures
            b == self@.is_disconnected(),
    {
        self.consume.is_empty() && self.produce.is_empty()
    }

    /// The arcs of the transition: those it consumes by, then those it produces by.
    #[must_use]
    pub fn get_arcs(&self) -> (arcs: Vec<arc::Kind>)
        ensures
            arcs@ == self@.arcs(),
    {
        let mut arcs: Vec<arc::Kind> = Vec::new();
        let nc = self.consume.len();
        let mut i: usize = 0;
        while i < nc
            invariant
                i <= nc,
                nc == self.consume@.len(),
                arcs@.len() == i,
                forall|j: int| 0 <= j < i ==> arcs@[j] == self@.arcs()[j],
            decreases nc - i,
        {
            let e = self.consume.entry(i);
            arcs.push(arc::Kind::Consume(e.0, self.id, e.1));
            i += 1;
        }
        let np = self.produce.len();
        let mut k: usize = 0;
        while k < np
            invariant
                k <= np,
                np == self.produce@.len(),
                nc == self.consume@.len(),
                arcs@.len() == nc + k,
                forall|j: int| 0 <= j < nc + k ==> arcs@[j] == self@.arcs()[j],
            decreases np - k,
        {
            let e = self.produce.entry(k);
            arcs.push(arc::Kind::Produce(e.0, self.id, e.1));
            k += 1;
        }
        assert(arcs@ =~= self@.arcs());
        arcs
    }
}

} // verus!
