//! Basic nets: places, transitions, and arcs that consume or produce.
pub mod compact;
pub mod from_timed;
pub mod laws;
pub mod net;
pub mod place;
pub mod transition;

pub use net::{Net, NetView};
pub use place::{Place, PlaceView};
pub use transition::{Transition, TransitionView};
