//! When what is known of the cluster is fetched again.

use vstd::prelude::*;

use crate::leaders::{LEADERS_REFRESH_SECS, SLOT_REFRESH_SECS};
use crate::tpus::TPU_FILE_REFRESH_SECS;

verus! {

/// What is fetched again and again.
#[derive(Clone, Copy, Debug, PartialEq, Eq)]
pub enum Refreshed {
    /// The current slot.
    Slot,
    /// The leaders of the slots.
    Leaders,
    /// The file of validators.
    TpuFile,
}

/// What happened to the one who fetches something again and again.
#[derive(Clone, Copy, Debug, PartialEq, Eq)]
pub enum RefreshEvent {
    /// Fetching has begun.
    Started,
    /// It was fetched.
    Fetched,
    /// A wait is over.
    Waited,
}

/// What the one who fetches something again and again does next.
#[derive(Clone, Copy, Debug, PartialEq, Eq)]
pub enum RefreshAction {
    /// Fetch it.
    Fetch,
    /// Wait before going on.
    Wait { millis: u64 },
}

/// How many milliseconds after it was fetched something is fetched again: ten seconds
/// for the slot, fifteen minutes for the leaders, five minutes for the file.
pub open spec fn refresh_millis(what: Refreshed) -> u64 {
    match what {
        Refreshed::Slot => 10_000,
        Refreshed::Leaders => 900_000,
        Refreshed::TpuFile => 300_000,
    }
}

/// What is done after an event.
pub open spec fn refresh_action_after(what: Refreshed, event: RefreshEvent) -> RefreshAction {
    match event {
        RefreshEvent::Started => RefreshAction::Fetch,
        RefreshEvent::Fetched => RefreshAction::Wait { millis: refresh_millis(what) },
        RefreshEvent::Waited => RefreshAction::Fetch,
    }
}

/// Says what to do after an event.
pub fn next_refresh(what: Refreshed, event: RefreshEvent) -> (action: RefreshAction)
    ensures
        action == refresh_action_after(what, event),
{
    match event {
        RefreshEvent::Started => RefreshAction::Fetch,
        RefreshEvent::Fetched => RefreshAction::Wait {
            millis: match what {
                Refreshed::Slot => SLOT_REFRESH_SECS * 1000,
                Refreshed::Leaders => LEADERS_REFRESH_SECS * 1000,
                Refreshed::TpuFile => TPU_FILE_REFRESH_SECS * 1000,
            },
        },
        RefreshEvent::Waited => RefreshAction::Fetch,
    }
}

/// The slot is fetched again ten seconds after it was fetched, the leaders fifteen minutes
/// and the file five minutes after; nothing but a fetch comes before the first wait and
/// after each.
pub proof fn fetches_come_at_their_times(what: Refreshed)
    ensures
        refresh_action_after(what, RefreshEvent::Started) is Fetch,
        refresh_action_after(what, RefreshEvent::Waited) is Fetch,
        refresh_action_after(what, RefreshEvent::Fetched) == (RefreshAction::Wait {
            millis: (1000 * if what is Slot {
                10
            } else if what is Leaders {
                15 * 60
            } else {
                5 * 60
            }) as u64,
        }),
{
}

} // verus!
