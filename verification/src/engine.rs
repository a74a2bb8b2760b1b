//! The stages of a run of the search.
//!
//! A run starts idle, precomputes the table, searches its shards, and is
//! complete once every shard has been merged. It only ever moves forward;
//! a new run starts idle again.

use vstd::prelude::*;

verus! {

/// Where a run stands.
#[derive(Clone, Copy, Debug, PartialEq, Eq)]
pub enum Stage {
    /// Nothing has been done yet.
    Idle,
    /// The table has been precomputed.
    Prefilled,
    /// Shards are being dealt out and searched.
    Searching,
    /// Every shard has been merged into the collector.
    Complete,
}

/// What moves a run on.
#[derive(Clone, Copy, Debug, PartialEq, Eq)]
pub enum Event {
    /// The precomputation for a valid number of free bytes has succeeded.
    TablePrefilled,
    /// The driver has begun to deal out shards.
    DispatchBegun,
    /// The last shard has been merged.
    AllMerged,
}

/// How far a run has come: the number of the stage.
pub open spec fn rank(stage: Stage) -> nat {
    match stage {
        Stage::Idle => 0,
        Stage::Prefilled => 1,
        Stage::Searching => 2,
        Stage::Complete => 3,
    }
}

/// The stage that follows `stage` on `event`, if the event is due there.
pub open spec fn follows(stage: Stage, event: Event) -> Option<Stage> {
    match (stage, event) {
        (Stage::Idle, Event::TablePrefilled) => Some(Stage::Prefilled),
        (Stage::Prefilled, Event::DispatchBegun) => Some(Stage::Searching),
        (Stage::Searching, Event::AllMerged) => Some(Stage::Complete),
        _ => None,
    }
}

/// Moves a run on by one event: the next stage, or `None` where the event
/// is not due at this stage.
pub fn advance(stage: Stage, event: Event) -> (next: Option<Stage>)
    ensures
        next == follows(stage, event),
{
    match (stage, event) {
        (Stage::Idle, Event::TablePrefilled) => Some(Stage::Prefilled),
        (Stage::Prefilled, Event::DispatchBegun) => Some(Stage::Searching),
        (Stage::Searching, Event::AllMerged) => Some(Stage::Complete),
        _ => None,
    }
}

/// There is no way back: every move leads to the next stage, and none
/// leads on from the last.
pub proof fn lemma_runs_only_move_forward(stage: Stage, event: Event)
    ensures
        follows(stage, event) matches Some(next) ==> rank(next) == rank(stage) + 1,
        stage == Stage::Complete ==> follows(stage, event) is None,
{
}

} // verus!
