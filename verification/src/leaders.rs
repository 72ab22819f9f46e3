//! The slot that the cluster is in, and the leaders of the slots.

use vstd::prelude::*;

use crate::pubkey::{pubkey_text, pubkey_to_string, Pubkey};

verus! {

/// The slot is fetched again this many seconds after the last time.
pub const SLOT_REFRESH_SECS: u64 = 10;

/// The leaders are fetched again this many seconds after the last time.
pub const LEADERS_REFRESH_SECS: u64 = 900;

/// How long to wait after a failure to learn of the slot.
pub const SLOT_RETRY_MILLIS: u64 = 100;

/// How long to wait after a failure to learn of the leaders.
pub const LEADERS_RETRY_MILLIS: u64 = 500;

/// How many leaders are asked for.
pub const LEADERS_LIMIT: u64 = 4000;

/// How long a slot lasts, for the purpose of estimating the current one.
pub const SLOT_MILLIS: u64 = 500;

/// The nanoseconds of a millisecond.
pub const NANOS_PER_MILLI: u128 = 1_000_000;

/// What is to be done after a reply.
#[derive(Clone, Copy, Debug, PartialEq, Eq)]
pub enum NextStep {
    /// Nothing more.
    Done,
    /// Wait, and ask again.
    Retry { millis: u64 },
}

/// A slot, and the time at which it was the current one, in nanoseconds.
pub struct SlotFetcher {
    fetch_time: u128,
    slot: u64,
}

/// The time that is halfway between asking and being answered.
pub open spec fn midpoint(before: u128, half_elapsed: u128) -> u128 {
    if before + half_elapsed <= u128::MAX {
        (before + half_elapsed) as u128
    } else {
        before
    }
}

/// The whole milliseconds from `at` to `now`, as many as 64 bits hold of them; the
/// largest number if `now` is earlier.
pub open spec fn millis_since(at: u128, now: u128) -> int {
    if now >= at {
        ((now - at) / NANOS_PER_MILLI as int) % 0x1_0000_0000_0000_0000
    } else {
        u64::MAX as int
    }
}

/// The slot that is the current one at `now`, if `slot` was at `at`.
pub open spec fn estimated_slot(at: u128, slot: u64, now: u128) -> int {
    slot + millis_since(at, now) / SLOT_MILLIS as int
}

impl View for SlotFetcher {
    type V = (u128, u64);

    closed spec fn view(&self) -> (u128, u64) {
        (self.fetch_time, self.slot)
    }
}

impl SlotFetcher {
    /// No slot is known yet.
    pub fn new(now: u128) -> (fetcher: SlotFetcher)
        ensures
            fetcher@ == (now, 0u64),
    {
        SlotFetcher { fetch_time: now, slot: 0 }
    }

    /// The slot, behind the time at which it was the current one.
    pub fn get(&self) -> (slot: (u128, u64))
        ensures
            slot == self@,
    {
        (self.fetch_time, self.slot)
    }

    /// Takes note of the reply to the question for the current slot, which was asked
    /// at `before`; the reply took twice `half_elapsed`.
    pub fn update(&mut self, before: u128, half_elapsed: u128, reply: Option<u64>) -> (next:
        NextStep)
        ensures
            match reply {
                Some(slot) => {
                    &&& next is Done
                    &&& final(self)@ == (midpoint(before, half_elapsed), slot)
                },
                None => {
                    &&& next == (NextStep::Retry { millis: 100 })
                    &&& final(self)@ == old(self)@
                },
            },
    {
        match reply {
            Some(slot) => {
                self.fetch_time = match before.checked_add(half_elapsed) {
                    Some(time) => time,
                    None => before,
                };
                self.slot = slot;
                NextStep::Done
            },
            None => NextStep::Retry { millis: SLOT_RETRY_MILLIS },
        }
    }

    /// The slot that is the current one at `now`, if it is a slot number.
    pub fn estimate(&self, now: u128) -> (slot: Option<u64>)
        ensures
            ({
                let expected = estimated_slot(self@.0, self@.1, now);
                slot == if expected <= u64::MAX {
                    Some(expected as u64)
                } else {
                    None
                }
            }),
    {
        let millis: u64 = if now >= self.fetch_time {
            let whole: u128 = (now - self.fetch_time) / NANOS_PER_MILLI;
            let low: u128 = whole % 0x1_0000_0000_0000_0000;
            low as u64
        } else {
            u64::MAX
        };
        self.slot.checked_add(millis / SLOT_MILLIS)
    }
}

/// What happened to the one who asks for the leaders.
#[derive(Debug, PartialEq, Eq)]
pub enum LeadersEvent {
    /// The leaders are wanted.
    Started,
    /// The current slot came.
    Slot(u64),
    /// The leaders from a slot on came.
    Leaders { first_slot: u64, leaders: Vec<Pubkey> },
    /// What was asked for did not come.
    Failed,
    /// A wait is over.
    Waited,
}

/// What the one who asks for the leaders does next.
#[derive(Clone, Copy, Debug, PartialEq, Eq)]
pub enum LeadersAction {
    /// Ask for the current slot.
    AskSlot,
    /// Ask for the leaders of so many slots.
    AskLeaders { first_slot: u64, limit: u64 },
    /// Wait before going on.
    Wait { millis: u64 },
    /// Nothing more.
    Done,
}

/// The leaders of consecutive slots, by the text form of their addresses.
pub struct LeadersFetcher {
    first_slot: u64,
    leaders: Vec<String>,
}

/// The text forms of addresses.
pub open spec fn pubkey_texts(pubkeys: Seq<Pubkey>) -> Seq<Seq<char>> {
    Seq::new(pubkeys.len(), |i: int| pubkey_text(pubkeys[i].bytes@))
}

/// What is done after an event.
pub open spec fn leaders_action_after(event: LeadersEvent) -> LeadersAction {
    match event {
        LeadersEvent::Started => LeadersAction::AskSlot,
        LeadersEvent::Waited => LeadersAction::AskSlot,
        LeadersEvent::Slot(slot) => LeadersAction::AskLeaders {
            first_slot: slot,
            limit: LEADERS_LIMIT,
        },
        LeadersEvent::Leaders { .. } => LeadersAction::Done,
        LeadersEvent::Failed => LeadersAction::Wait { millis: LEADERS_RETRY_MILLIS },
    }
}

impl LeadersFetcher {
    /// The slot of the first leader.
    pub closed spec fn first_slot(self) -> u64 {
        self.first_slot
    }

    /// The leaders, from the first slot on.
    pub closed spec fn leaders(self) -> Seq<Seq<char>> {
        Seq::new(self.leaders@.len(), |i: int| self.leaders@[i]@)
    }

    /// Whether the slots of the leaders are slot numbers, as far as they matter to
    /// the leader of `target_slot`.
    pub open spec fn fits(self, target_slot: u64) -> bool {
        target_slot < self.first_slot() || self.first_slot() + self.leaders().len() <= u64::MAX
    }

    /// The leader of a slot, if it is known.
    pub open spec fn leader_of(self, slot: u64) -> Option<Seq<char>> {
        if self.first_slot() <= slot < self.first_slot() + self.leaders().len() {
            Some(self.leaders()[slot - self.first_slot()])
        } else {
            None
        }
    }

    /// No leaders are known yet.
    pub fn new() -> (fetcher: LeadersFetcher)
        ensures
            fetcher.first_slot() == 0,
            fetcher.leaders() == Seq::<Seq<char>>::empty(),
    {
        let fetcher = LeadersFetcher { first_slot: 0, leaders: Vec::new() };
        assert(fetcher.leaders() =~= Seq::<Seq<char>>::empty());
        fetcher
    }

    /// Whether the leader of `target_slot` can be looked for.
    pub fn can_get(&self, target_slot: u64) -> (can: bool)
        ensures
            can == self.fits(target_slot),
    {
        target_slot < self.first_slot || self.leaders.len() as u64 <= u64::MAX - self.first_slot
    }

    /// The leader of a slot, if it is known.
    pub fn get(&self, target_slot: u64) -> (leader: Option<String>)
        requires
            self.fits(target_slot),
        ensures
            match self.leader_of(target_slot) {
                Some(text) => leader is Some && leader->0@ == text,
                None => leader is None,
            },
    {
        if target_slot < self.first_slot || target_slot >= self.first_slot
            + self.leaders.len() as u64 {
            None
        } else {
            let index: usize = (target_slot - self.first_slot) as usize;
            assert(self.leaders()[index as int] == self.leaders@[index as int]@);
            Some(self.leaders[index].clone())
        }
    }

    /// Takes note of an event, and says what to do next.
    pub fn update(&mut self, event: &LeadersEvent) -> (action: LeadersAction)
        ensures
            action == leaders_action_after(*event),
            match *event {
                LeadersEvent::Leaders { first_slot, leaders } => {
                    &&& final(self).first_slot() == first_slot
                    &&& final(self).leaders() == pubkey_texts(leaders@)
                },
                _ => {
                    &&& final(self).first_slot() == old(self).first_slot()
                    &&& final(self).leaders() == old(self).leaders()
                },
            },
    {
        match event {
            LeadersEvent::Started => LeadersAction::AskSlot,
            LeadersEvent::Waited => LeadersAction::AskSlot,
            LeadersEvent::Slot(slot) => LeadersAction::AskLeaders {
                first_slot: *slot,
                limit: LEADERS_LIMIT,
            },
            LeadersEvent::Leaders { first_slot, leaders } => {
                self.first_slot = *first_slot;
                self.leaders = leader_texts(leaders);
                assert(self.leaders() =~= pubkey_texts(leaders@));
                LeadersAction::Done
            },
            LeadersEvent::Failed => LeadersAction::Wait { millis: LEADERS_RETRY_MILLIS },
        }
    }
}

/// The text forms of addresses.
fn leader_texts(leaders: &Vec<Pubkey>) -> (texts: Vec<String>)
    ensures
        texts@.len() == leaders@.len(),
        forall|i: int|
            0 <= i < texts@.len() ==> (#[trigger] texts@[i])@ == pubkey_text(leaders@[i].bytes@),
{
    let mut texts: Vec<String> = Vec::new();
    let mut i: usize = 0;
    while i < leaders.len()
        invariant
            i <= leaders@.len(),
            texts@.len() == i,
            forall|k: int|
                0 <= k < i ==> (#[trigger] texts@[k])@ == pubkey_text(leaders@[k].bytes@),
        decreases leaders@.len() - i,
    {
        texts.push(pubkey_to_string(&leaders[i]));
        i = i + 1;
    }
    texts
}

/// Time passing takes the estimate of the slot on, and never back, as long as the
/// milliseconds since the slot was learnt fit 64 bits.
pub proof fn estimate_goes_on(at: u128, slot: u64, now: u128, later: u128)
    requires
        at <= now <= later,
        (later - at) / NANOS_PER_MILLI as int <= u64::MAX,
    ensures
        slot <= estimated_slot(at, slot, now) <= estimated_slot(at, slot, later),
        later - now >= SLOT_MILLIS * NANOS_PER_MILLI ==> estimated_slot(at, slot, later)
            > estimated_slot(at, slot, now),
{
    let a = (now - at) / 1_000_000;
    let b = (later - at) / 1_000_000;
    assert(a <= b);
    assert(a % 0x1_0000_0000_0000_0000 == a);
    assert(b % 0x1_0000_0000_0000_0000 == b);
    assert(a / 500 <= b / 500);
}

/// A slot lasts half a second: as many slots have passed as there are whole half seconds
/// since the slot was learnt.
pub proof fn slots_last_half_a_second(at: u128, slot: u64, now: u128)
    requires
        at <= now,
        (now - at) / 1_000_000 <= u64::MAX,
    ensures
        ({
            let passed = estimated_slot(at, slot, now) - slot;
            passed * 500_000_000 <= now - at < (passed + 1) * 500_000_000
        }),
{
    let millis = (now - at) / 1_000_000;
    assert(millis % 0x1_0000_0000_0000_0000 == millis);
    let passed = estimated_slot(at, slot, now) - slot;
    assert(passed == millis / 500);
}

/// A clock that runs back counts as the most milliseconds that there are.
pub proof fn a_clock_that_runs_back_counts_as_the_most(at: u128, slot: u64, now: u128)
    requires
        now < at,
    ensures
        estimated_slot(at, slot, now) == slot + 36_893_488_147_419_103,
{
}

/// The slot is dated between asking and being answered: half of the time that passed after
/// asking, or at asking where that is no time.
pub proof fn slot_is_dated_in_between(before: u128, half_elapsed: u128)
    ensures
        before + half_elapsed <= u128::MAX ==> midpoint(before, half_elapsed) - before
            == half_elapsed,
        before + half_elapsed > u128::MAX ==> midpoint(before, half_elapsed) == before,
{
}

/// The leaders lead consecutive slots from the first one on, each one slot, and no leader is
/// known of any other slot.
pub proof fn leaders_lead_consecutive_slots(fetcher: LeadersFetcher, i: int, slot: u64)
    requires
        fetcher.first_slot() + fetcher.leaders().len() <= u64::MAX,
        0 <= i < fetcher.leaders().len(),
    ensures
        fetcher.leader_of((fetcher.first_slot() + i) as u64) == Some(fetcher.leaders()[i]),
        fetcher.leader_of(slot) is Some <==> exists|k: int|
            0 <= k < fetcher.leaders().len() && #[trigger] (fetcher.first_slot() + k) == slot,
{
    if fetcher.leader_of(slot) is Some {
        let k = slot - fetcher.first_slot();
        assert(0 <= k < fetcher.leaders().len() && fetcher.first_slot() + k == slot);
    }
}

/// Learning of the leaders is asking for the slot, then for the leaders of 4000 slots from
/// it on, and then it is done; after a failure of either there is half a second of waiting
/// and then the slot is asked for again.
pub proof fn leaders_are_asked_for(slot: u64, leaders: Vec<Pubkey>)
    ensures
        leaders_action_after(LeadersEvent::Started) is AskSlot,
        leaders_action_after(LeadersEvent::Slot(slot)) == (LeadersAction::AskLeaders {
            first_slot: slot,
            limit: 4000,
        }),
        leaders_action_after(LeadersEvent::Leaders { first_slot: slot, leaders }) is Done,
        leaders_action_after(LeadersEvent::Failed) == (LeadersAction::Wait { millis: 500 }),
        leaders_action_after(LeadersEvent::Waited) is AskSlot,
{
}

/// Each leader is listed by the text form of its own address, in their order.
pub proof fn leaders_are_listed_by_their_texts(leaders: Seq<Pubkey>, i: int)
    requires
        0 <= i < leaders.len(),
    ensures
        pubkey_texts(leaders).len() == leaders.len(),
        pubkey_texts(leaders)[i] == pubkey_text(leaders[i].bytes@),
{
}

/// The leader of a slot before the first one can always be looked for, that of a later slot
/// unless the slots of the leaders run over the largest slot number.
pub proof fn leaders_run_over_the_largest_slot(fetcher: LeadersFetcher, slot: u64)
    ensures
        !fetcher.fits(slot) <==> fetcher.first_slot() <= slot && fetcher.first_slot()
            + fetcher.leaders().len() > 18_446_744_073_709_551_615,
{
}

/// Milliseconds are counted in 64 bits: a time that is longer by as many of them as there
/// are numbers of 64 bits leads to the same slot.
pub proof fn milliseconds_are_counted_in_64_bits(at: u128, slot: u64, now: u128, later: u128)
    requires
        at <= now,
        later == now + 18_446_744_073_709_551_616 * 1_000_000,
    ensures
        estimated_slot(at, slot, later) == estimated_slot(at, slot, now),
{
    let millis = (now - at) / 1_000_000;
    assert((later - at) / 1_000_000 == millis + 18_446_744_073_709_551_616);
}

} // verus!
