//! The places of a timed net.
use vstd::prelude::*;
use crate::ids::{PlaceId, TransitionId};
use crate::marking::Marking;
use crate::standard::place::label_view;

verus! {

/// A place, with the transitions that are joined to it by an arc of each kind.
#[derive(Debug)]
pub struct Place {
    /// The identifier of the place.
    pub id: PlaceId,
    /// The label of the place.
    pub label: Option<String>,
    /// The number of tokens at the start.
    pub initial: usize,
    /// The transitions that produce into this place, each with the weight of its arc.
    pub produced_by: Marking<TransitionId>,
    /// The transitions that consume from this place, each with the weight of its arc.
    pub consumed_by: Marking<TransitionId>,
    /// The transitions that test this place, each with the weight of its arc.
    pub condition_for: Marking<TransitionId>,
    /// The transitions that this place inhibits, each with the weight of its arc.
    pub inhibitor_for: Marking<TransitionId>,
    /// The place was removed from the net; it is kept so that identifiers stay valid.
    pub deleted: bool,
}

/// What a place holds.
pub struct PlaceView {
    /// The identifier of the place.
    pub id: PlaceId,
    /// The label of the place.
    pub label: Option<Seq<char>>,
    /// The number of tokens at the start.
    pub initial: usize,
    /// The arcs from transitions into this place.
    pub produced_by: Seq<(TransitionId, usize)>,
    /// The arcs from this place to transitions.
    pub consumed_by: Seq<(TransitionId, usize)>,
    /// The test arcs at this place.
    pub condition_for: Seq<(TransitionId, usize)>,
    /// The inhibitor arcs at this place.
    pub inhibitor_for: Seq<(TransitionId, usize)>,
    /// The place was removed from the net.
    pub deleted: bool,
}

impl PlaceView {
    /// A place that was just created: no label, no token, no arc.
    pub open spec fn fresh(id: PlaceId) -> PlaceView {
        PlaceView {
            id,
            label: None,
            initial: 0,
            produced_by: Seq::empty(),
            consumed_by: Seq::empty(),
            condition_for: Seq::empty(),
            inhibitor_for: Seq::empty(),
            deleted: false,
        }
    }

    /// No arc touches the place.
    pub open spec fn is_disconnected(self) -> bool {
        &&& self.produced_by.len() == 0
        &&& self.consumed_by.len() == 0
        &&& self.condition_for.len() == 0
        &&& self.inhibitor_for.len() == 0
    }
}

impl View for Place {
    type V = PlaceView;

    open spec fn view(&self) -> PlaceView {
        PlaceView {
            id: self.id,
            label: label_view(self.label),
            initial: self.initial,
            produced_by: self.produced_by@,
            consumed_by: self.consumed_by@,
            condition_for: self.condition_for@,
            inhibitor_for: self.inhibitor_for@,
            deleted: self.deleted,
        }
    }
}

impl Place {
    /// A place without label, tokens or arcs.
    pub(crate) fn new(id: PlaceId) -> (p: Place)
        ensures
            p@ == PlaceView::fresh(id),
            p.produced_by.wf(),
            p.consumed_by.wf(),
            p.condition_for.wf(),
            p.inhibitor_for.wf(),
    {
        Place {
            id,
            label: None,
            initial: 0,
            produced_by: Marking::new(),
            consumed_by: Marking::new(),
            condition_for: Marking::new(),
            inhibitor_for: Marking::new(),
            deleted: false,
        }
    }

    /// The identifier of the place.
    #[must_use]
    pub fn id(&self) -> (id: PlaceId)
        ensures
            id == self@.id,
    {
        self.id
    }

    /// Whether no arc touches the place.
    #[must_use]
    pub fn is_disconnected(&self) -> (b: bool)
        ensures
            b == self@.is_disconnected(),
    {
        self.produced_by.is_empty() && self.consumed_by.is_empty() && self.condition_for.is_empty()
            && self.inhibitor_for.is_empty()
    }
}

} // verus!
