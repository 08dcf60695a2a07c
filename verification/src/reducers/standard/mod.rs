//! The reductions of basic nets.
pub mod identity_place_reducer;
pub mod identity_transitions_reducer;
pub mod invariant_reducer;
pub mod parallel_place_reducer;
pub mod parallel_transition_reducer;
pub mod pseudo_start;
pub mod r7_reducer;
pub mod rl_pattern;
pub mod rl_reducer;
pub mod simple_chain_agglomeration;
pub mod simple_loop_agglomeration;
pub mod source_sink_reducer;
pub mod weight_simplification;

pub use identity_place_reducer::IdentityPlaceReducer;
pub use identity_transitions_reducer::IdentityTransitionReducer;
pub use invariant_reducer::InvariantReducer;
pub use parallel_place_reducer::ParallelPlaceReducer;
pub use parallel_transition_reducer::ParallelTransitionReducer;
pub use pseudo_start::PseudoStart;
pub use r7_reducer::R7Reducer;
pub use rl_reducer::RLReducer;
pub use simple_chain_agglomeration::SimpleChainReducer;
pub use simple_loop_agglomeration::SimpleLoopAgglomeration;
pub use source_sink_reducer::SourceSinkReducer;
pub use weight_simplification::WeightSimplification;
