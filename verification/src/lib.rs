//! A toolkit for Petri nets: sparse markings, basic and timed nets, structural
//! reductions that record algebraic witnesses, and the textual net format.
pub mod arc;
pub mod equations;
pub mod errors;
pub mod ids;
pub mod io;
pub mod marking;
pub mod messages;
pub mod modifications;
pub mod names;
pub mod reducers;
pub mod standard;
pub mod text;
pub mod timed;
pub mod tina;

pub use errors::NetError;
pub use ids::{NodeId, PlaceId, TransitionId};
pub use marking::Marking;
