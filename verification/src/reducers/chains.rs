//! The compositions of rules that are in use: each is a loop over a chain, named by the
//! kinds of rules that it holds.
//!
//! The rules for redundant nodes remove what is parallel to, or determined by, something
//! else; the compacting rules agglomerate places; the extra rules are those that look at
//! the tokens of the places.
//!
//! The type of a composition says which rules it holds and in which order they are
//! applied; none of the rules has a setting of its own, so that the number of rounds is
//! all that a value adds to its type.
use vstd::prelude::*;
use crate::reducers::chain_reducer::ChainReducer;
use crate::reducers::loop_reducer::LoopReducer;
use crate::reducers::smart_reducer::SmartReducer;
use crate::reducers::standard::{
    IdentityPlaceReducer, IdentityTransitionReducer, ParallelPlaceReducer,
    ParallelTransitionReducer, PseudoStart, RLReducer, SimpleChainReducer,
    SimpleLoopAgglomeration, SourceSinkReducer, WeightSimplification,
};

verus! {

/// A reduction that is followed up by the removal of parallel places.
pub type Smart<R> = SmartReducer<R, ParallelPlaceReducer, ParallelTransitionReducer>;

/// The simple chains, each followed up by the removal of identity and source–sink places.
pub type SmartChains = SmartReducer<
    SimpleChainReducer,
    ChainReducer<IdentityPlaceReducer, SourceSinkReducer>,
    IdentityTransitionReducer,
>;

/// The rules for redundant nodes, the compacting rules and the extra rules.
pub type RedundantCompactExtra = LoopReducer<
    ChainReducer<
        Smart<
            ChainReducer<
                Smart<ChainReducer<IdentityPlaceReducer, SimpleLoopAgglomeration>>,
                ChainReducer<
                    IdentityTransitionReducer,
                    ChainReducer<SmartChains, ChainReducer<SourceSinkReducer, PseudoStart>>,
                >,
            >,
        >,
        ChainReducer<
            RLReducer,
            ChainReducer<
                WeightSimplification,
                ChainReducer<ParallelPlaceReducer, ParallelTransitionReducer>,
            >,
        >,
    >,
>;

/// The rules for redundant nodes and the compacting rules.
pub type RedundantCompact = LoopReducer<
    ChainReducer<
        Smart<ChainReducer<IdentityPlaceReducer, SimpleLoopAgglomeration>>,
        ChainReducer<
            SmartChains,
            ChainReducer<
                SourceSinkReducer,
                ChainReducer<ParallelPlaceReducer, ParallelTransitionReducer>,
            >,
        >,
    >,
>;

/// The rules for redundant nodes and the extra rules.
pub type RedundantExtra = LoopReducer<
    ChainReducer<
        Smart<
            ChainReducer<
                Smart<IdentityPlaceReducer>,
                ChainReducer<
                    IdentityTransitionReducer,
                    ChainReducer<
                        SourceSinkReducer,
                        ChainReducer<PseudoStart, ChainReducer<RLReducer, WeightSimplification>>,
                    >,
                >,
            >,
        >,
        ChainReducer<ParallelPlaceReducer, ParallelTransitionReducer>,
    >,
>;

/// The rules for redundant nodes.
pub type Redundant = LoopReducer<
    ChainReducer<
        Smart<
            ChainReducer<
                Smart<IdentityPlaceReducer>,
                ChainReducer<IdentityTransitionReducer, SourceSinkReducer>,
            >,
        >,
        ChainReducer<ParallelPlaceReducer, ParallelTransitionReducer>,
    >,
>;

/// The compacting rules and the extra rules.
pub type CompactExtra = LoopReducer<
    ChainReducer<
        SimpleLoopAgglomeration,
        ChainReducer<
            SimpleChainReducer,
            ChainReducer<PseudoStart, ChainReducer<RLReducer, WeightSimplification>>,
        >,
    >,
>;

/// The compacting rules.
pub type Compact = LoopReducer<ChainReducer<SimpleChainReducer, SimpleLoopAgglomeration>>;

/// The extra rules.
pub type Extra = LoopReducer<
    ChainReducer<PseudoStart, ChainReducer<RLReducer, WeightSimplification>>,
>;

/// The simple chains with their follow-up.
fn smart_chains() -> SmartChains {
    SmartReducer::new(
        SimpleChainReducer::new(),
        ChainReducer::new2(IdentityPlaceReducer::new(), SourceSinkReducer::new()),
        IdentityTransitionReducer::new(),
    )
}

/// The loop over all rules, for `max_iter` rounds at most.
pub fn new_redundant_compact_extra(max_iter: u64) -> (r: RedundantCompactExtra)
    ensures
        r.max_iter() == max_iter,
{
    LoopReducer::new(
        ChainReducer::new5(
            SmartReducer::new_parallel_smart_reducer(
                ChainReducer::new5(
                    SmartReducer::new_parallel_smart_reducer(
                        ChainReducer::new2(
                            IdentityPlaceReducer::new(),
                            SimpleLoopAgglomeration::new(),
                        ),
                    ),
                    IdentityTransitionReducer::new(),
                    smart_chains(),
                    SourceSinkReducer::new(),
                    PseudoStart::new(),
                ),
            ),
            RLReducer::new(),
            WeightSimplification::new(),
            ParallelPlaceReducer::new(),
            ParallelTransitionReducer::new(),
        ),
        max_iter,
    )
}

/// The loop over the rules for redundant nodes and the compacting rules, for `max_iter`
/// rounds at most.
pub fn new_redundant_compact(max_iter: u64) -> (r: RedundantCompact)
    ensures
        r.max_iter() == max_iter,
{
    LoopReducer::new(
        ChainReducer::new5(
            SmartReducer::new_parallel_smart_reducer(
                ChainReducer::new2(IdentityPlaceReducer::new(), SimpleLoopAgglomeration::new()),
            ),
            smart_chains(),
            SourceSinkReducer::new(),
            ParallelPlaceReducer::new(),
            ParallelTransitionReducer::new(),
        ),
        max_iter,
    )
}

/// The loop over the rules for redundant nodes and the extra rules, for `max_iter` rounds
/// at most.
pub fn new_redundant_extra(max_iter: u64) -> (r: RedundantExtra)
    ensures
        r.max_iter() == max_iter,
{
    LoopReducer::new(
        ChainReducer::new3(
            SmartReducer::new_parallel_smart_reducer(
                ChainReducer::new6(
                    SmartReducer::new_parallel_smart_reducer(IdentityPlaceReducer::new()),
                    IdentityTransitionReducer::new(),
                    SourceSinkReducer::new(),
                    PseudoStart::new(),
                    RLReducer::new(),
                    WeightSimplification::new(),
                ),
            ),
            ParallelPlaceReducer::new(),
            ParallelTransitionReducer::new(),
        ),
        max_iter,
    )
}

/// The loop over the rules for redundant nodes, for `max_iter` rounds at most.
pub fn new_redundant(max_iter: u64) -> (r: Redundant)
    ensures
        r.max_iter() == max_iter,
{
    LoopReducer::new(
        ChainReducer::new3(
            SmartReducer::new_parallel_smart_reducer(
                ChainReducer::new3(
                    SmartReducer::new_parallel_smart_reducer(IdentityPlaceReducer::new()),
                    IdentityTransitionReducer::new(),
                    SourceSinkReducer::new(),
                ),
            ),
            ParallelPlaceReducer::new(),
            ParallelTransitionReducer::new(),
        ),
        max_iter,
    )
}

/// The loop over the compacting rules and the extra rules, for `max_iter` rounds at most.
pub fn new_compact_extra(max_iter: u64) -> (r: CompactExtra)
    ensures
        r.max_iter() == max_iter,
{
    LoopReducer::new(
        ChainReducer::new5(
            SimpleLoopAgglomeration::new(),
            SimpleChainReducer::new(),
            PseudoStart::new(),
            RLReducer::new(),
            WeightSimplification::new(),
        ),
        max_iter,
    )
}

/// The loop over the compacting rules, for `max_iter` rounds at most.
pub fn new_compact(max_iter: u64) -> (r: Compact)
    ensures
        r.max_iter() == max_iter,
{
    LoopReducer::new(
        ChainReducer::new2(SimpleChainReducer::new(), SimpleLoopAgglomeration::new()),
        max_iter,
    )
}

/// The loop over the extra rules, for `max_iter` rounds at most.
pub fn new_extra(max_iter: u64) -> (r: Extra)
    ensures
        r.max_iter() == max_iter,
{
    LoopReducer::new(
        ChainReducer::new3(PseudoStart::new(), RLReducer::new(), WeightSimplification::new()),
        max_iter,
    )
}

} // verus!
