//! The recent blockhash that transactions are signed with.

use vstd::prelude::*;

use crate::bytes::same_bytes;

verus! {

/// The next blockhash is fetched this many seconds after the last one came to be used.
pub const RECENT_BLOCKHASH_REFRESH_INTERVAL_SECS: u64 = 30;

/// A blockhash is held back for this many seconds after it was fetched, as the
/// servers do not learn of it at the same time.
pub const BLOCKHASH_HOLD_SECS: u64 = 5;

/// How long to wait after a failure to fetch a blockhash.
pub const BLOCKHASH_RETRY_MILLIS: u64 = 500;

/// How long to wait before looking for the first blockhash again.
pub const BLOCKHASH_POLL_MILLIS: u64 = 100;

/// The hash of a block.
#[derive(Clone, Copy, Debug, PartialEq, Eq)]
pub struct Blockhash {
    pub bytes: [u8; 32],
}

impl Blockhash {
    /// Whether two hashes are the same.
    pub fn same(&self, other: &Blockhash) -> (same: bool)
        ensures
            same == (*self == *other),
    {
        same_bytes(&self.bytes, &other.bytes)
    }
}

/// What happened to the one who fetches blockhashes.
#[derive(Clone, Copy, Debug, PartialEq, Eq)]
pub enum BlockhashEvent {
    /// Fetching has begun.
    Started,
    /// The latest blockhash came.
    Fetched(Blockhash),
    /// No blockhash came.
    Failed,
    /// A blockhash has been held back for long enough.
    Held(Blockhash),
    /// A wait is over.
    Waited,
}

/// What the one who fetches blockhashes does next.
#[derive(Clone, Copy, Debug, PartialEq, Eq)]
pub enum BlockhashAction {
    /// Fetch the latest blockhash.
    Fetch,
    /// Hold the blockhash back.
    Hold { blockhash: Blockhash, millis: u64 },
    /// Wait before going on.
    Wait { millis: u64 },
}

/// The most recent blockhash that may be used.
pub struct RecentBlockhashFetcher {
    recent_blockhash: Option<Blockhash>,
}

/// What is done after an event.
pub open spec fn action_after(event: BlockhashEvent) -> BlockhashAction {
    match event {
        BlockhashEvent::Started => BlockhashAction::Fetch,
        BlockhashEvent::Waited => BlockhashAction::Fetch,
        BlockhashEvent::Fetched(blockhash) => BlockhashAction::Hold { blockhash, millis: 5000 },
        BlockhashEvent::Held(_) => BlockhashAction::Wait { millis: 30_000 },
        BlockhashEvent::Failed => BlockhashAction::Wait { millis: BLOCKHASH_RETRY_MILLIS },
    }
}

/// The blockhash that may be used after an event.
pub open spec fn blockhash_after(
    recent: Option<Blockhash>,
    event: BlockhashEvent,
) -> Option<Blockhash> {
    match event {
        BlockhashEvent::Held(blockhash) => Some(blockhash),
        _ => recent,
    }
}

impl View for RecentBlockhashFetcher {
    type V = Option<Blockhash>;

    closed spec fn view(&self) -> Option<Blockhash> {
        self.recent_blockhash
    }
}

impl RecentBlockhashFetcher {
    /// No blockhash yet.
    pub fn new() -> (fetcher: RecentBlockhashFetcher)
        ensures
            fetcher@ is None,
    {
        RecentBlockhashFetcher { recent_blockhash: None }
    }

    /// The blockhash to use, once there is one.
    pub fn get(&self) -> (blockhash: Option<Blockhash>)
        ensures
            blockhash == self@,
    {
        self.recent_blockhash
    }

    /// Takes note of an event, and says what to do next.
    pub fn step(&mut self, event: BlockhashEvent) -> (action: BlockhashAction)
        ensures
            action == action_after(event),
            final(self)@ == blockhash_after(old(self)@, event),
    {
        match event {
            BlockhashEvent::Started => BlockhashAction::Fetch,
            BlockhashEvent::Waited => BlockhashAction::Fetch,
            BlockhashEvent::Fetched(blockhash) => BlockhashAction::Hold {
                blockhash,
                millis: BLOCKHASH_HOLD_SECS * 1000,
            },
            BlockhashEvent::Held(blockhash) => {
                self.recent_blockhash = Some(blockhash);
                BlockhashAction::Wait {
                    millis: RECENT_BLOCKHASH_REFRESH_INTERVAL_SECS * 1000,
                }
            },
            BlockhashEvent::Failed => BlockhashAction::Wait { millis: BLOCKHASH_RETRY_MILLIS },
        }
    }
}

/// A fetched blockhash is not used before it has been held back for five seconds,
/// and the next one is fetched thirty seconds after it came to be used.
pub proof fn blockhash_is_held_back(recent: Option<Blockhash>, blockhash: Blockhash)
    ensures
        blockhash_after(recent, BlockhashEvent::Fetched(blockhash)) == recent,
        ({
            let hold = action_after(BlockhashEvent::Fetched(blockhash));
            let wait = action_after(BlockhashEvent::Held(blockhash));
            &&& hold == (BlockhashAction::Hold { blockhash, millis: 5000 })
            &&& blockhash_after(recent, BlockhashEvent::Held(blockhash)) == Some(blockhash)
            &&& wait == (BlockhashAction::Wait { millis: 30_000 })
            &&& action_after(BlockhashEvent::Waited) is Fetch
        }),
{
}

/// Once there is a blockhash to use, there always is one, whatever happens.
pub proof fn blockhash_stays(recent: Option<Blockhash>, event: BlockhashEvent)
    requires
        recent is Some,
    ensures
        blockhash_after(recent, event) is Some,
        event !is Held ==> blockhash_after(recent, event) == recent,
{
}

/// After a failure there is half a second of waiting, and after any wait the next fetch;
/// neither changes the blockhash that may be used, nor does the start.
pub proof fn failures_are_waited_out(recent: Option<Blockhash>)
    ensures
        action_after(BlockhashEvent::Started) is Fetch,
        action_after(BlockhashEvent::Failed) == (BlockhashAction::Wait { millis: 500 }),
        action_after(BlockhashEvent::Waited) is Fetch,
        blockhash_after(recent, BlockhashEvent::Started) == recent,
        blockhash_after(recent, BlockhashEvent::Failed) == recent,
        blockhash_after(recent, BlockhashEvent::Waited) == recent,
{
}

} // verus!
