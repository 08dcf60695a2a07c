//! The kinds of arcs between a place and a transition.
use vstd::prelude::*;
use crate::ids::{PlaceId, TransitionId};

verus! {

/// An arc between a place and a transition, with its weight.
#[derive(Debug, Clone, Copy, Eq, PartialEq, Structural)]
pub enum Kind {
    /// The transition takes tokens from the place.
    Consume(PlaceId, TransitionId, usize),
    /// The transition puts tokens into the place.
    Produce(PlaceId, TransitionId, usize),
    /// The transition needs tokens in the place and leaves them there.
    Test(PlaceId, TransitionId, usize),
    /// The transition is blocked while the place holds that many tokens.
    Inhibitor(PlaceId, TransitionId, usize),
    /// Stopwatch arc.
    StopWatch(PlaceId, TransitionId, usize),
    /// Stopwatch inhibitor arc.
    StopWatchInhibitor(PlaceId, TransitionId, usize),
}

impl Kind {
    /// The place at one end of the arc.
    pub open spec fn place(self) -> PlaceId {
        match self {
            Kind::Consume(pl, _, _) => pl,
            Kind::Produce(pl, _, _) => pl,
            Kind::Test(pl, _, _) => pl,
            Kind::Inhibitor(pl, _, _) => pl,
            Kind::StopWatch(pl, _, _) => pl,
            Kind::StopWatchInhibitor(pl, _, _) => pl,
        }
    }

    /// The transition at the other end of the arc.
    pub open spec fn transition(self) -> TransitionId {
        match self {
            Kind::Consume(_, tr, _) => tr,
            Kind::Produce(_, tr, _) => tr,
            Kind::Test(_, tr, _) => tr,
            Kind::Inhibitor(_, tr, _) => tr,
            Kind::StopWatch(_, tr, _) => tr,
            Kind::StopWatchInhibitor(_, tr, _) => tr,
        }
    }

    /// The weight of the arc.
    pub open spec fn arc_weight(self) -> usize {
        match self {
            Kind::Consume(_, _, w) => w,
            Kind::Produce(_, _, w) => w,
            Kind::Test(_, _, w) => w,
            Kind::Inhibitor(_, _, w) => w,
            Kind::StopWatch(_, _, w) => w,
            Kind::StopWatchInhibitor(_, _, w) => w,
        }
    }
}

} // verus!
