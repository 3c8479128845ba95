//! Keeping an index fresh: the debouncing that turns a burst of filesystem
//! events into a single re-index. Waiting on the event channel happens
//! outside; each thing it hears is handed to `quiet_step`.

use vstd::prelude::*;

use crate::chunk::ChunkOptions;
use crate::index::IndexOptions;
use crate::walk::WalkOptions;

verus! {

pub struct WatchOptions {
    /// How long, in milliseconds, the directory must be quiet before a
    /// re-index starts.
    pub debounce_ms: u64,
}

impl Default for WatchOptions {
    fn default() -> (o: Self)
        ensures
            o.debounce_ms == 750,
    {
        WatchOptions { debounce_ms: 750 }
    }
}

/// Everything a re-index run needs, bundled so the watch loop stays readable.
pub struct Pipeline<'a> {
    pub walk: &'a WalkOptions,
    pub chunk: &'a ChunkOptions,
    pub index: &'a IndexOptions,
    pub watch: &'a WatchOptions,
}

/// Where the debouncer stands.
#[derive(Debug, Clone, Copy, PartialEq, Eq, Structural)]
pub enum Quiet {
    /// Waiting, without a time limit, for the first event of a burst.
    Idle,
    /// Inside a burst: waiting up to the debounce period for the next event.
    Settling,
}

/// What waiting on the event channel produced.
#[derive(Debug, Clone, Copy, PartialEq, Eq, Structural)]
pub enum Heard {
    Event,
    /// The debounce period passed without an event.
    Timeout,
    /// The sender is gone; no more events can arrive.
    Disconnected,
}

/// What the watcher does next.
#[derive(Debug, Clone, Copy, PartialEq, Eq, Structural)]
pub enum QuietNext {
    /// Keep waiting, in this state.
    Wait(Quiet),
    /// The burst has settled: re-index now.
    Settled,
    /// Nothing more can happen: stop watching.
    Closed,
}

pub open spec fn spec_quiet_step(state: Quiet, heard: Heard) -> QuietNext {
    match (state, heard) {
        (Quiet::Idle, Heard::Event) => QuietNext::Wait(Quiet::Settling),
        (Quiet::Idle, Heard::Timeout) => QuietNext::Wait(Quiet::Idle),
        (Quiet::Idle, Heard::Disconnected) => QuietNext::Closed,
        (Quiet::Settling, Heard::Event) => QuietNext::Wait(Quiet::Settling),
        (Quiet::Settling, Heard::Timeout) => QuietNext::Settled,
        (Quiet::Settling, Heard::Disconnected) => QuietNext::Settled,
    }
}

/// One step of the debouncer: an idle watcher waits for a first event, then
/// swallows every event that follows within the debounce period, so one
/// save does not trigger several re-index runs. A burst in progress is
/// always reported settled, even when the channel closes behind it.
pub fn quiet_step(state: Quiet, heard: Heard) -> (n: QuietNext)
    ensures
        n == spec_quiet_step(state, heard),
{
    match (state, heard) {
        (Quiet::Idle, Heard::Event) => QuietNext::Wait(Quiet::Settling),
        (Quiet::Idle, Heard::Timeout) => QuietNext::Wait(Quiet::Idle),
        (Quiet::Idle, Heard::Disconnected) => QuietNext::Closed,
        (Quiet::Settling, Heard::Event) => QuietNext::Wait(Quiet::Settling),
        (Quiet::Settling, Heard::Timeout) => QuietNext::Settled,
        (Quiet::Settling, Heard::Disconnected) => QuietNext::Settled,
    }
}

/// Once a burst has begun, the watcher never stops without re-indexing it:
/// from `Settling`, no sequence of events leads to `Closed`.
pub proof fn law_a_burst_is_never_dropped(heard: Heard)
    ensures
        spec_quiet_step(Quiet::Settling, heard) != QuietNext::Closed,
        spec_quiet_step(Quiet::Settling, heard) != QuietNext::Wait(Quiet::Idle),
{
}

/// An idle watcher re-indexes nothing until it hears an event.
pub proof fn law_no_event_no_reindex(heard: Heard)
    ensures
        spec_quiet_step(Quiet::Idle, heard) != QuietNext::Settled,
{
}

} // verus!
