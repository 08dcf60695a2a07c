//! Dense identifiers of places and transitions.
use vstd::prelude::*;

verus! {

/// Identifier of a transition: its position in the net's transition vector.
#[derive(Clone, Copy, Debug, PartialEq, Eq, Structural, PartialOrd, Ord, Hash, Default)]
pub struct TransitionId(pub usize);

/// Identifier of a place: its position in the net's place vector.
#[derive(Clone, Copy, Debug, PartialEq, Eq, Structural, PartialOrd, Ord, Hash, Default)]
pub struct PlaceId(pub usize);

/// Identifier of any node of a net.
#[derive(Clone, Copy, Debug, PartialEq, Eq, Structural, Hash)]
pub enum NodeId {
    /// A place.
    Place(PlaceId),
    /// A transition.
    Transition(TransitionId),
}

impl From<usize> for PlaceId {
    fn from(v: usize) -> (id: PlaceId) {
        PlaceId(v)
    }
}

impl vstd::std_specs::convert::FromSpecImpl<usize> for PlaceId {
    open spec fn obeys_from_spec() -> bool {
        true
    }

    open spec fn from_spec(v: usize) -> PlaceId {
        PlaceId(v)
    }
}

impl From<usize> for TransitionId {
    fn from(v: usize) -> (id: TransitionId) {
        TransitionId(v)
    }
}

impl vstd::std_specs::convert::FromSpecImpl<usize> for TransitionId {
    open spec fn obeys_from_spec() -> bool {
        true
    }

    open spec fn from_spec(v: usize) -> TransitionId {
        TransitionId(v)
    }
}

impl From<PlaceId> for NodeId {
    fn from(pl: PlaceId) -> (id: NodeId) {
        NodeId::Place(pl)
    }
}

impl vstd::std_specs::convert::FromSpecImpl<PlaceId> for NodeId {
    open spec fn obeys_from_spec() -> bool {
        true
    }

    open spec fn from_spec(pl: PlaceId) -> NodeId {
        NodeId::Place(pl)
    }
}

impl From<TransitionId> for NodeId {
    fn from(tr: TransitionId) -> (id: NodeId) {
        NodeId::Transition(tr)
    }
}

impl vstd::std_specs::convert::FromSpecImpl<TransitionId> for NodeId {
    open spec fn obeys_from_spec() -> bool {
        true
    }

    open spec fn from_spec(tr: TransitionId) -> NodeId {
        NodeId::Transition(tr)
    }
}

impl NodeId {
    /// The place this identifier names, if it names a place.
    pub fn as_place(&self) -> (r: Option<PlaceId>)
        ensures
            r == (match *self {
                NodeId::Place(pl) => Some(pl),
                NodeId::Transition(_) => None,
            }),
    {
        match self {
            NodeId::Place(pl) => Some(*pl),
            NodeId::Transition(_) => None,
        }
    }

    /// The transition this identifier names, if it names a transition.
    pub fn as_transition(&self) -> (r: Option<TransitionId>)
        ensures
            r == (match *self {
                NodeId::Place(_) => None,
                NodeId::Transition(tr) => Some(tr),
            }),
    {
        match self {
            NodeId::Place(_) => None,
            NodeId::Transition(tr) => Some(*tr),
        }
    }
}

} // verus!
