//! The transitions of a timed net.
use vstd::prelude::*;
use crate::ids::{PlaceId, TransitionId};
use crate::marking::Marking;
use crate::standard::place::label_view;
use crate::timed::time_range::{Bound, TimeRange};

verus! {

/// A transition, with the places that are joined to it by an arc of each kind, the time
/// range in which it fires, and the transitions over which it has priority.
#[derive(Debug)]
pub struct Transition {
    /// The identifier of the transition.
    pub id: TransitionId,
    /// The label of the transition.
    pub label: Option<String>,
    /// The time range in which the transition fires.
    pub time: TimeRange,
    /// The places the transition tests, each with the weight of its arc.
    pub conditions: Marking<PlaceId>,
    /// The places that inhibit the transition, each with the weight of its arc.
    pub inhibitors: Marking<PlaceId>,
    /// The places the transition consumes from, each with the weight of its arc.
    pub consume: Marking<PlaceId>,
    /// The places the transition produces into, each with the weight of its arc.
    pub produce: Marking<PlaceId>,
    /// The transitions over which this one has priority, in increasing order.
    pub priorities: Vec<TransitionId>,
    /// The transition was removed from the net; it is kept so that identifiers stay valid.
    pub deleted: bool,
}

/// What a transition holds.
pub struct TransitionView {
    /// The identifier of the transition.
    pub id: TransitionId,
    /// The label of the transition.
    pub label: Option<Seq<char>>,
    /// The time range in which the transition fires.
    pub time: TimeRange,
    /// The test arcs at this transition.
    pub conditions: Seq<(PlaceId, usize)>,
    /// The inhibitor arcs at this transition.
    pub inhibitors: Seq<(PlaceId, usize)>,
    /// The arcs from places to this transition.
    pub consume: Seq<(PlaceId, usize)>,
    /// The arcs from this transition to places.
    pub produce: Seq<(PlaceId, usize)>,
    /// The transitions over which this one has priority.
    pub priorities: Seq<TransitionId>,
    /// The transition was removed from the net.
    pub deleted: bool,
}

impl TransitionView {
    /// A transition that was just created: no label, no arc, no priority, and the time
    /// range `[0, ∞)`.
    pub open spec fn fresh(id: TransitionId) -> TransitionView {
        TransitionView {
            id,
            label: None,
            time: TimeRange { start: Bound::Closed(0), end: Bound::Infinity },
            conditions: Seq::empty(),
            inhibitors: Seq::empty(),
            consume: Seq::empty(),
            produce: Seq::empty(),
            priorities: Seq::empty(),
            deleted: false,
        }
    }

    /// No arc touches the transition.
    pub open spec fn is_disconnected(self) -> bool {
        &&& self.produce.len() == 0
        &&& self.consume.len() == 0
        &&& self.conditions.len() == 0
        &&& self.inhibitors.len() == 0
    }
}

impl View for Transition {
    type V = TransitionView;

    open spec fn view(&self) -> TransitionView {
        TransitionView {
            id: self.id,
            label: label_view(self.label),
            time: self.time,
            conditions: self.conditions@,
            inhibitors: self.inhibitors@,
            consume: self.consume@,
            produce: self.produce@,
            priorities: self.priorities@,
            deleted: self.deleted,
        }
    }
}

impl Transition {
    /// A transition without label, arcs or priorities.
    pub(crate) fn new(id: TransitionId) -> (t: Transition)
        ensures
            t@ == TransitionView::fresh(id),
            t.conditions.wf(),
            t.inhibitors.wf(),
            t.consume.wf(),
            t.produce.wf(),
    {
        Transition {
            id,
            label: None,
            time: TimeRange { start: Bound::Closed(0), end: Bound::Infinity },
            conditions: Marking::new(),
            inhibitors: Marking::new(),
            consume: Marking::new(),
            produce: Marking::new(),
            priorities: Vec::new(),
            deleted: false,
        }
    }

    /// The identifier of the transition.
    #[must_use]
    pub fn id(&self) -> (id: TransitionId)
        ensures
            id == self@.id,
    {
        self.id
    }

    /// Whether no arc touches the transition.
    #[must_use]
    pub fn is_disconnected(&self) -> (b: bool)
        ensures
            b == self@.is_disconnected(),
    {
        self.produce.is_empty() && self.consume.is_empty() && self.conditions.is_empty()
            && self.inhibitors.is_empty()
    }
}

} // verus!
