//! Reductions of nets: what a reduction is, how reductions are combined, and the rules.
//!
//! `firing` and `agglomeration_firing` hold the rules against the token game: what fires
//! in a net fires in the net that a rule leaves, and the records of the rule hold.
pub mod agglomeration_firing;
pub mod chain_reducer;
pub mod chains;
pub mod firing;
pub mod identity_reducer;
pub mod loop_reducer;
pub mod reduce;
pub mod smart_reducer;

pub mod standard;

pub use chain_reducer::ChainReducer;
pub use identity_reducer::IdentityReducer;
pub use loop_reducer::LoopReducer;
pub use reduce::{ConservativeReduce, PlaceReduce, Reduce, TransitionReduce};
pub use smart_reducer::SmartReducer;

