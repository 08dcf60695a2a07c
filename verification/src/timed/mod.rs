//! Nets with time ranges, priorities, and test and inhibitor arcs.
//!
//! `priorities` closes the priorities of a net; `closure` says what that closure is.
pub mod closure;
pub mod embedding;
pub mod from_standard;
pub mod laws;
pub mod net;
pub mod place;
pub mod priorities;
pub mod time_range;
pub mod transition;

pub use net::{Net, NetView};
pub use place::{Place, PlaceView};
pub use time_range::{Bound, TimeRange};
pub use transition::{Transition, TransitionView};
