//! What can go wrong when a net is built or changed.
use vstd::prelude::*;
use crate::arc;
use crate::ids::{PlaceId, TransitionId};

verus! {

/// An error raised by an operation on a net.
#[derive(Debug, Eq, PartialEq)]
pub enum NetError {
    /// The priorities form a cycle.
    CyclicPriorities,
    /// A time range that cannot be written down.
    InvalidTimeRange,
    /// The net does not take this kind of arc.
    UnsupportedArc(arc::Kind),
    /// No usable transition has this identifier.
    InvalidTransition(TransitionId),
    /// No usable place has this identifier.
    InvalidPlace(PlaceId),
    /// The name is already taken.
    DuplicatedName(String),
    /// No node has this name.
    UnknownIdentifier(String),
    /// An arc that does not join a place and a transition.
    InvalidArc,
}


/// What an error holds.
pub enum NetErrorView {
    CyclicPriorities,
    InvalidTimeRange,
    UnsupportedArc(arc::Kind),
    InvalidTransition(TransitionId),
    InvalidPlace(PlaceId),
    DuplicatedName(Seq<char>),
    UnknownIdentifier(Seq<char>),
    InvalidArc,
}

impl View for NetError {
    type V = NetErrorView;

    open spec fn view(&self) -> NetErrorView {
        match *self {
            NetError::CyclicPriorities => NetErrorView::CyclicPriorities,
            NetError::InvalidTimeRange => NetErrorView::InvalidTimeRange,
            NetError::UnsupportedArc(a) => NetErrorView::UnsupportedArc(a),
            NetError::InvalidTransition(t) => NetErrorView::InvalidTransition(t),
            NetError::InvalidPlace(p) => NetErrorView::InvalidPlace(p),
            NetError::DuplicatedName(n) => NetErrorView::DuplicatedName(n@),
            NetError::UnknownIdentifier(n) => NetErrorView::UnknownIdentifier(n@),
            NetError::InvalidArc => NetErrorView::InvalidArc,
        }
    }
}

} // verus!
