//! What one worker does: it keeps its fee payer in funds, sends transactions while
//! there are any to send, and gives the funds back.

use vstd::prelude::*;

use crate::blockhash::Blockhash;
use crate::instructions::{instruction_views, Instruction};
use crate::keypair::{public_half, Keypair};
use crate::message::{sign_instructions, transaction_bytes};
use crate::pubkey::{lemma_pubkey_with, pubkey_with, Pubkey};

verus! {

/// How many lamports the fee payer is given at a time, and below how many it is given
/// them: one SOL.
pub const LAMPORTS_PER_TRANSFER: u64 = 1_000_000_000;

/// The balance of the fee payer is looked at once in so many iterations.
pub const ITERATIONS_PER_BALANCE_CHECK: i32 = 1000;

/// How long to wait before looking for another blockhash.
pub const BLOCKHASH_CHANGE_POLL_MILLIS: u64 = 250;

/// Which of the two keypairs of a worker.
#[derive(Clone, Copy, Debug, PartialEq, Eq)]
pub enum Party {
    /// The account that the funds come from.
    FundsSource,
    /// The account of the worker, which pays for its transactions.
    FeePayer,
}

/// What a worker is in the middle of.
#[derive(Clone, Copy, Debug, PartialEq, Eq)]
pub enum Phase {
    /// It looks for the stop file.
    Checking,
    /// It looks at how many transactions remain.
    Counting,
    /// It begins an iteration.
    Starting,
    /// It reports how far it is.
    Reporting { blockhash: Blockhash },
    /// It looks at the balance of the fee payer.
    Weighing { blockhash: Blockhash },
    /// It gives the fee payer funds.
    Funding { blockhash: Blockhash },
    /// It looks whether the funds have come.
    Verifying { blockhash: Blockhash },
    /// It waits for another blockhash.
    Renewing { blockhash: Blockhash },
    /// It takes one of the transactions that remain.
    Taking,
    /// It sends a transaction.
    Sending,
    /// It stops sending transactions.
    Closing,
    /// It looks at what the fee payer has left.
    Sweeping,
    /// It asks for a blockhash to give the rest back with.
    Resolving { balance: u64 },
    /// It gives the rest back.
    Returning { balance: u64, blockhash: Blockhash },
    /// It is done.
    Finished,
    /// It has counted as many iterations as it can.
    Exhausted,
}

/// What a worker asks for.
#[derive(Clone, Copy, Debug, PartialEq, Eq)]
pub enum WorkerAction {
    /// Say whether the stop file is there.
    CheckStopFile,
    /// Say how many transactions remain.
    CountRemaining,
    /// Take the next client, and say what the recent blockhash is.
    BeginIteration,
    /// Report how many iterations there were.
    Report { iterations: i32 },
    /// Say what the balance of the fee payer is.
    GetBalance,
    /// Transfer lamports, and wait until that is confirmed.
    Transfer {
        fee_payer: Party,
        funds_source: Party,
        target: Party,
        amount: u64,
        blockhash: Blockhash,
    },
    /// Wait, and say what the recent blockhash is then.
    PollBlockhash { millis: u64 },
    /// Take one of the transactions that remain, and say whether there was one.
    TakeTransaction,
    /// Make a transaction and send it by the next client.
    SendTransaction,
    /// Take the next client.
    BeginSweep,
    /// Say what the latest blockhash of the client is.
    GetLatestBlockhash,
    /// Nothing more.
    Stop,
    /// Stop, as the iterations can no longer be counted.
    Abort,
}

/// What a worker is told.
#[derive(Clone, Copy, Debug, PartialEq, Eq)]
pub enum WorkerEvent {
    /// Whether the stop file is there.
    StopFile(bool),
    /// How many transactions remain, if their number is limited.
    Remaining(Option<u64>),
    /// The recent blockhash.
    Recent(Blockhash),
    /// The balance of the fee payer, if it could be had.
    Balance(Option<u64>),
    /// Whether there was a transaction to take.
    Taken(bool),
    /// The latest blockhash, if it could be had.
    Latest(Option<Blockhash>),
    /// What was asked for is done.
    Done,
}

/// A worker as its contracts see it.
pub ghost struct WorkerView {
    pub phase: Phase,
    pub iterations: i32,
    pub own_source: bool,
}

/// What a worker asks for in a phase.
pub open spec fn action_in(worker: WorkerView) -> WorkerAction {
    match worker.phase {
        Phase::Checking => WorkerAction::CheckStopFile,
        Phase::Counting => WorkerAction::CountRemaining,
        Phase::Starting => WorkerAction::BeginIteration,
        Phase::Reporting { .. } => WorkerAction::Report { iterations: worker.iterations },
        Phase::Weighing { .. } => WorkerAction::GetBalance,
        Phase::Funding { blockhash } => WorkerAction::Transfer {
            fee_payer: Party::FundsSource,
            funds_source: Party::FundsSource,
            target: Party::FeePayer,
            amount: LAMPORTS_PER_TRANSFER,
            blockhash,
        },
        Phase::Verifying { .. } => WorkerAction::GetBalance,
        Phase::Renewing { .. } => WorkerAction::PollBlockhash {
            millis: BLOCKHASH_CHANGE_POLL_MILLIS,
        },
        Phase::Taking => WorkerAction::TakeTransaction,
        Phase::Sending => WorkerAction::SendTransaction,
        Phase::Closing => WorkerAction::BeginSweep,
        Phase::Sweeping => WorkerAction::GetBalance,
        Phase::Resolving { .. } => WorkerAction::GetLatestBlockhash,
        Phase::Returning { balance, blockhash } => WorkerAction::Transfer {
            fee_payer: Party::FundsSource,
            funds_source: Party::FeePayer,
            target: Party::FundsSource,
            amount: balance,
            blockhash,
        },
        Phase::Finished => WorkerAction::Stop,
        Phase::Exhausted => WorkerAction::Abort,
    }
}

/// A balance that is not known counts as none.
pub open spec fn known_balance(balance: Option<u64>) -> u64 {
    match balance {
        Some(lamports) => lamports,
        None => 0,
    }
}

/// The worker in another phase.
pub open spec fn in_phase(worker: WorkerView, phase: Phase) -> WorkerView {
    WorkerView { phase, ..worker }
}

/// The worker that has looked after the balance, or had no need to: it counts the
/// iteration and goes on to take a transaction.
pub open spec fn counted(worker: WorkerView) -> WorkerView {
    if worker.iterations < i32::MAX {
        WorkerView {
            phase: Phase::Taking,
            iterations: (worker.iterations + 1) as i32,
            own_source: worker.own_source,
        }
    } else {
        in_phase(worker, Phase::Exhausted)
    }
}

/// The worker after it was told something; what does not answer what it asked for
/// changes nothing.
pub open spec fn after_event(worker: WorkerView, event: WorkerEvent) -> WorkerView {
    match (worker.phase, event) {
        (Phase::Checking, WorkerEvent::StopFile(exists)) => in_phase(
            worker,
            if exists {
                Phase::Closing
            } else {
                Phase::Counting
            },
        ),
        (Phase::Counting, WorkerEvent::Remaining(remaining)) => in_phase(
            worker,
            if remaining == Some(0u64) {
                Phase::Closing
            } else {
                Phase::Starting
            },
        ),
        (Phase::Starting, WorkerEvent::Recent(blockhash)) => if worker.iterations as int
            % ITERATIONS_PER_BALANCE_CHECK as int == 0 {
            in_phase(worker, Phase::Reporting { blockhash })
        } else {
            counted(worker)
        },
        (Phase::Reporting { blockhash }, WorkerEvent::Done) => in_phase(
            worker,
            Phase::Weighing { blockhash },
        ),
        (Phase::Weighing { blockhash }, WorkerEvent::Balance(balance)) => if known_balance(balance)
            < LAMPORTS_PER_TRANSFER {
            in_phase(worker, Phase::Funding { blockhash })
        } else {
            counted(worker)
        },
        (Phase::Funding { blockhash }, WorkerEvent::Done) => in_phase(
            worker,
            Phase::Verifying { blockhash },
        ),
        (Phase::Verifying { blockhash }, WorkerEvent::Balance(balance)) => if known_balance(balance)
            < LAMPORTS_PER_TRANSFER {
            in_phase(worker, Phase::Renewing { blockhash })
        } else {
            counted(worker)
        },
        (Phase::Renewing { blockhash }, WorkerEvent::Recent(recent)) => if recent == blockhash {
            worker
        } else {
            in_phase(worker, Phase::Weighing { blockhash: recent })
        },
        (Phase::Taking, WorkerEvent::Taken(taken)) => in_phase(
            worker,
            if taken {
                Phase::Sending
            } else {
                Phase::Closing
            },
        ),
        (Phase::Sending, WorkerEvent::Done) => in_phase(worker, Phase::Checking),
        (Phase::Closing, WorkerEvent::Done) => in_phase(worker, Phase::Sweeping),
        (Phase::Sweeping, WorkerEvent::Balance(Some(balance))) => if balance == 0
            || worker.own_source {
            in_phase(worker, Phase::Finished)
        } else {
            in_phase(worker, Phase::Resolving { balance })
        },
        (Phase::Resolving { balance }, WorkerEvent::Latest(latest)) => in_phase(
            worker,
            match latest {
                Some(blockhash) => Phase::Returning { balance, blockhash },
                None => Phase::Sweeping,
            },
        ),
        (Phase::Returning { .. }, WorkerEvent::Done) => in_phase(worker, Phase::Sweeping),
        _ => worker,
    }
}

/// One worker.
pub struct Worker {
    fee_payer: Keypair,
    funds_source: Keypair,
    phase: Phase,
    iterations: i32,
}

impl View for Worker {
    type V = WorkerView;

    closed spec fn view(&self) -> WorkerView {
        WorkerView {
            phase: self.phase,
            iterations: self.iterations,
            own_source: public_half(self.fee_payer.bytes@) == public_half(self.funds_source.bytes@),
        }
    }
}

impl Worker {
    /// The keypair of a party.
    pub closed spec fn keypair_of(self, party: Party) -> Keypair {
        match party {
            Party::FundsSource => self.funds_source,
            Party::FeePayer => self.fee_payer,
        }
    }

    /// The iterations are counted from zero, and whether the two accounts are one is
    /// decided by their addresses.
    pub open spec fn wf(self) -> bool {
        &&& 0 <= self@.iterations
        &&& self@.own_source <==> public_half(self.keypair_of(Party::FeePayer).bytes@)
            == public_half(self.keypair_of(Party::FundsSource).bytes@)
    }

    /// A worker that has done nothing yet.
    pub fn new(fee_payer: Keypair, funds_source: Keypair) -> (worker: Worker)
        ensures
            worker.wf(),
            worker@.phase == Phase::Checking,
            worker@.iterations == 0,
            worker.keypair_of(Party::FeePayer) == fee_payer,
            worker.keypair_of(Party::FundsSource) == funds_source,
    {
        Worker { fee_payer, funds_source, phase: Phase::Checking, iterations: 0 }
    }

    /// The keypair of a party.
    pub fn keypair(&self, party: Party) -> (keypair: Keypair)
        ensures
            keypair == self.keypair_of(party),
    {
        match party {
            Party::FundsSource => self.funds_source,
            Party::FeePayer => self.fee_payer,
        }
    }

    /// What the worker asks for.
    pub fn action(&self) -> (action: WorkerAction)
        ensures
            action == action_in(self@),
    {
        match self.phase {
            Phase::Checking => WorkerAction::CheckStopFile,
            Phase::Counting => WorkerAction::CountRemaining,
            Phase::Starting => WorkerAction::BeginIteration,
            Phase::Reporting { .. } => WorkerAction::Report { iterations: self.iterations },
            Phase::Weighing { .. } => WorkerAction::GetBalance,
            Phase::Funding { blockhash } => WorkerAction::Transfer {
                fee_payer: Party::FundsSource,
                funds_source: Party::FundsSource,
                target: Party::FeePayer,
                amount: LAMPORTS_PER_TRANSFER,
                blockhash,
            },
            Phase::Verifying { .. } => WorkerAction::GetBalance,
            Phase::Renewing { .. } => WorkerAction::PollBlockhash {
                millis: BLOCKHASH_CHANGE_POLL_MILLIS,
            },
            Phase::Taking => WorkerAction::TakeTransaction,
            Phase::Sending => WorkerAction::SendTransaction,
            Phase::Closing => WorkerAction::BeginSweep,
            Phase::Sweeping => WorkerAction::GetBalance,
            Phase::Resolving { .. } => WorkerAction::GetLatestBlockhash,
            Phase::Returning { balance, blockhash } => WorkerAction::Transfer {
                fee_payer: Party::FundsSource,
                funds_source: Party::FeePayer,
                target: Party::FundsSource,
                amount: balance,
                blockhash,
            },
            Phase::Finished => WorkerAction::Stop,
            Phase::Exhausted => WorkerAction::Abort,
        }
    }

    /// Counts the iteration, and goes on to take a transaction.
    fn count_iteration(&mut self)
        requires
            old(self).wf(),
        ensures
            final(self).wf(),
            final(self)@ == counted(old(self)@),
            forall|party: Party| #[trigger]
                final(self).keypair_of(party) == old(self).keypair_of(party),
    {
        if self.iterations < i32::MAX {
            self.iterations = self.iterations + 1;
            self.phase = Phase::Taking;
        } else {
            self.phase = Phase::Exhausted;
        }
    }

    /// Tells the worker something.
    pub fn step(&mut self, event: WorkerEvent)
        requires
            old(self).wf(),
        ensures
            final(self).wf(),
            final(self)@ == after_event(old(self)@, event),
            forall|party: Party| #[trigger]
                final(self).keypair_of(party) == old(self).keypair_of(party),
    {
        match (self.phase, event) {
            (Phase::Checking, WorkerEvent::StopFile(exists)) => {
                self.phase = if exists {
                    Phase::Closing
                } else {
                    Phase::Counting
                };
            },
            (Phase::Counting, WorkerEvent::Remaining(remaining)) => {
                self.phase = match remaining {
                    Some(0) => Phase::Closing,
                    _ => Phase::Starting,
                };
            },
            (Phase::Starting, WorkerEvent::Recent(blockhash)) => {
                if self.iterations % ITERATIONS_PER_BALANCE_CHECK == 0 {
                    self.phase = Phase::Reporting { blockhash };
                } else {
                    self.count_iteration();
                }
            },
            (Phase::Reporting { blockhash }, WorkerEvent::Done) => {
                self.phase = Phase::Weighing { blockhash };
            },
            (Phase::Weighing { blockhash }, WorkerEvent::Balance(balance)) => {
                if balance.unwrap_or(0) < LAMPORTS_PER_TRANSFER {
                    self.phase = Phase::Funding { blockhash };
                } else {
                    self.count_iteration();
                }
            },
            (Phase::Funding { blockhash }, WorkerEvent::Done) => {
                self.phase = Phase::Verifying { blockhash };
            },
            (Phase::Verifying { blockhash }, WorkerEvent::Balance(balance)) => {
                if balance.unwrap_or(0) < LAMPORTS_PER_TRANSFER {
                    self.phase = Phase::Renewing { blockhash };
                } else {
                    self.count_iteration();
                }
            },
            (Phase::Renewing { blockhash }, WorkerEvent::Recent(recent)) => {
                if !recent.same(&blockhash) {
                    self.phase = Phase::Weighing { blockhash: recent };
                }
            },
            (Phase::Taking, WorkerEvent::Taken(taken)) => {
                self.phase = if taken {
                    Phase::Sending
                } else {
                    Phase::Closing
                };
            },
            (Phase::Sending, WorkerEvent::Done) => {
                self.phase = Phase::Checking;
            },
            (Phase::Closing, WorkerEvent::Done) => {
                self.phase = Phase::Sweeping;
            },
            (Phase::Sweeping, WorkerEvent::Balance(Some(balance))) => {
                if balance == 0 || self.funds_source.pubkey().same(&self.fee_payer.pubkey()) {
                    self.phase = Phase::Finished;
                } else {
                    self.phase = Phase::Resolving { balance };
                }
            },
            (Phase::Resolving { balance }, WorkerEvent::Latest(latest)) => {
                self.phase = match latest {
                    Some(blockhash) => Phase::Returning { balance, blockhash },
                    None => Phase::Sweeping,
                };
            },
            (Phase::Returning { .. }, WorkerEvent::Done) => {
                self.phase = Phase::Sweeping;
            },
            _ => {},
        }
    }
}

/// Takes one of the transactions that remain. Where their number is not limited there
/// always is one.
pub fn take_transaction(remaining: &mut Option<u64>) -> (taken: bool)
    ensures
        taken <==> *old(remaining) != Some(0u64),
        *final(remaining) == after_take(*old(remaining)),
{
    match *remaining {
        Some(0) => false,
        Some(n) => {
            *remaining = Some(n - 1);
            true
        },
        None => true,
    }
}

/// How many transactions remain after an attempt to take one.
pub open spec fn after_take(remaining: Option<u64>) -> Option<u64> {
    match remaining {
        Some(n) => if n == 0 {
            Some(0)
        } else {
            Some((n - 1) as u64)
        },
        None => None,
    }
}

/// How many transactions remain after so many attempts to take one, whoever makes
/// them.
pub open spec fn after_takes(remaining: Option<u64>, attempts: nat) -> Option<u64>
    decreases attempts,
{
    if attempts == 0 {
        remaining
    } else {
        after_take(after_takes(remaining, (attempts - 1) as nat))
    }
}

/// How many of so many attempts to take a transaction succeed.
pub open spec fn successes(remaining: Option<u64>, attempts: nat) -> nat
    decreases attempts,
{
    if attempts == 0 {
        0
    } else {
        successes(remaining, (attempts - 1) as nat) + if after_takes(
            remaining,
            (attempts - 1) as nat,
        ) != Some(0u64) {
            1nat
        } else {
            0nat
        }
    }
}

/// Of a limited number of transactions no more are taken than there are, and all of
/// them are if there are enough attempts; without a limit every attempt succeeds.
pub proof fn takes_are_limited(remaining: Option<u64>, attempts: nat)
    ensures
        match remaining {
            Some(n) => {
                &&& successes(remaining, attempts) == if attempts <= n {
                    attempts
                } else {
                    n as nat
                }
                &&& after_takes(remaining, attempts) == Some(
                    (n - successes(remaining, attempts)) as u64,
                )
            },
            None => {
                &&& successes(remaining, attempts) == attempts
                &&& after_takes(remaining, attempts) is None
            },
        },
    decreases attempts,
{
    if attempts > 0 {
        takes_are_limited(remaining, (attempts - 1) as nat);
    }
}

/// The worker after it was told several things.
pub open spec fn after_events(worker: WorkerView, events: Seq<WorkerEvent>) -> WorkerView
    decreases events.len(),
{
    if events.len() == 0 {
        worker
    } else {
        after_event(after_events(worker, events.drop_last()), events.last())
    }
}

/// How often the worker comes to send a transaction while it is told these things.
pub open spec fn sends(worker: WorkerView, events: Seq<WorkerEvent>) -> nat
    decreases events.len(),
{
    if events.len() == 0 {
        0
    } else {
        let before = after_events(worker, events.drop_last());
        sends(worker, events.drop_last()) + if before.phase != Phase::Sending && after_event(
            before,
            events.last(),
        ).phase == Phase::Sending {
            1nat
        } else {
            0nat
        }
    }
}

/// How often there was a transaction to take.
pub open spec fn takes(events: Seq<WorkerEvent>) -> nat
    decreases events.len(),
{
    if events.len() == 0 {
        0
    } else {
        takes(events.drop_last()) + if events.last() == WorkerEvent::Taken(true) {
            1nat
        } else {
            0nat
        }
    }
}

/// Every transaction that a worker sends was taken from those that remain: it never
/// sends more than it has taken.
pub proof fn sent_transactions_were_taken(worker: WorkerView, events: Seq<WorkerEvent>)
    ensures
        sends(worker, events) <= takes(events),
    decreases events.len(),
{
    if events.len() > 0 {
        sent_transactions_were_taken(worker, events.drop_last());
    }
}

/// How often several workers come to send a transaction.
pub open spec fn total_sends(workers: Seq<WorkerView>, events: Seq<Seq<WorkerEvent>>) -> nat
    decreases workers.len(),
{
    if workers.len() == 0 {
        0
    } else {
        total_sends(workers.drop_last(), events.drop_last()) + sends(workers.last(), events.last())
    }
}

/// How often there was a transaction to take for several workers.
pub open spec fn total_takes(events: Seq<Seq<WorkerEvent>>) -> nat
    decreases events.len(),
{
    if events.len() == 0 {
        0
    } else {
        total_takes(events.drop_last()) + takes(events.last())
    }
}

/// Workers that take their transactions from the same limited number send no more than
/// that number between them.
pub proof fn limit_is_kept(
    limit: u64,
    attempts: nat,
    workers: Seq<WorkerView>,
    events: Seq<Seq<WorkerEvent>>,
)
    requires
        workers.len() == events.len(),
        total_takes(events) <= successes(Some(limit), attempts),
    ensures
        total_sends(workers, events) <= limit,
{
    takes_are_limited(Some(limit), attempts);
    lemma_total_sends(workers, events);
}

/// Workers send no more than they take.
proof fn lemma_total_sends(workers: Seq<WorkerView>, events: Seq<Seq<WorkerEvent>>)
    requires
        workers.len() == events.len(),
    ensures
        total_sends(workers, events) <= total_takes(events),
    decreases workers.len(),
{
    if workers.len() > 0 {
        lemma_total_sends(workers.drop_last(), events.drop_last());
        sent_transactions_were_taken(workers.last(), events.last());
    }
}

/// Several workers, how many transactions remain for them, if their number is limited,
/// and how many they have come to send.
pub ghost struct Crew {
    pub workers: Seq<WorkerView>,
    pub remaining: Option<u64>,
    pub sent: nat,
}

/// Workers that begin with `remaining` transactions.
pub open spec fn new_crew(workers: Seq<WorkerView>, remaining: Option<u64>) -> Crew {
    Crew { workers, remaining, sent: 0 }
}

/// Whether what the worker at `at` is told is so: how many transactions remain, and
/// whether there was one to take when it asked for one.
pub open spec fn is_so(crew: Crew, at: int, event: WorkerEvent) -> bool {
    &&& 0 <= at < crew.workers.len()
    &&& match event {
        WorkerEvent::Remaining(remaining) => remaining == crew.remaining,
        WorkerEvent::Taken(taken) => {
            &&& crew.workers[at].phase == Phase::Taking
            &&& taken == (crew.remaining != Some(0u64))
        },
        _ => true,
    }
}

/// The workers after the one at `at` was told something; an answer about a transaction
/// to take comes of an attempt to take one.
pub open spec fn crew_after(crew: Crew, at: int, event: WorkerEvent) -> Crew {
    let before = crew.workers[at];
    let after = after_event(before, event);
    Crew {
        workers: crew.workers.update(at, after),
        remaining: if event is Taken {
            after_take(crew.remaining)
        } else {
            crew.remaining
        },
        sent: crew.sent + if before.phase != Phase::Sending && after.phase == Phase::Sending {
            1nat
        } else {
            0nat
        },
    }
}

/// The workers after they were told several things, one after the other.
pub open spec fn crew_at(crew: Crew, told: Seq<(int, WorkerEvent)>) -> Crew
    decreases told.len(),
{
    if told.len() == 0 {
        crew
    } else {
        crew_after(crew_at(crew, told.drop_last()), told.last().0, told.last().1)
    }
}

/// Whether all that the workers are told is so when they are told it.
pub open spec fn all_is_so(crew: Crew, told: Seq<(int, WorkerEvent)>) -> bool
    decreases told.len(),
{
    told.len() == 0 || {
        &&& all_is_so(crew, told.drop_last())
        &&& is_so(crew_at(crew, told.drop_last()), told.last().0, told.last().1)
    }
}

/// The transactions that workers have come to send and those that remain are the limit
/// that they began with, whatever happens. Without a stop file, a worker stops sending
/// only when none remains, and so as soon as one has stopped, and all the more once all
/// are done, exactly as many as the limit have been sent.
pub proof fn limit_is_reached(
    workers: Seq<WorkerView>,
    limit: u64,
    told: Seq<(int, WorkerEvent)>,
)
    requires
        forall|k: int|
            0 <= k < workers.len() ==> (#[trigger] workers[k]).phase == Phase::Checking,
        all_is_so(new_crew(workers, Some(limit)), told),
    ensures
        ({
            let crew = crew_at(new_crew(workers, Some(limit)), told);
            &&& crew.workers.len() == workers.len()
            &&& crew.remaining is Some
            &&& crew.sent + crew.remaining->0 == limit
            &&& (forall|j: int|
                0 <= j < told.len() ==> (#[trigger] told[j]).1 != WorkerEvent::StopFile(true))
                ==> forall|k: int|
                0 <= k < workers.len() && is_closing((#[trigger] crew.workers[k]).phase)
                    ==> crew.sent == limit
        }),
    decreases told.len(),
{
    if told.len() > 0 {
        let shorter = told.drop_last();
        limit_is_reached(workers, limit, shorter);
        let before = crew_at(new_crew(workers, Some(limit)), shorter);
        let crew = crew_at(new_crew(workers, Some(limit)), told);
        let (at, event) = told.last();
        if forall|j: int|
            0 <= j < told.len() ==> (#[trigger] told[j]).1 != WorkerEvent::StopFile(true) {
            assert forall|j: int| 0 <= j < shorter.len() implies (#[trigger] shorter[j]).1
                != WorkerEvent::StopFile(true) by {
                assert(shorter[j] == told[j]);
            }
            assert(told[told.len() - 1].1 != WorkerEvent::StopFile(true));
            assert forall|k: int|
                0 <= k < workers.len() && is_closing(
                    (#[trigger] crew.workers[k]).phase,
                ) implies crew.sent == limit by {
                if k != at {
                    assert(crew.workers[k] == before.workers[k]);
                } else if !is_closing(before.workers[k].phase) {
                    closing_has_a_reason(before.workers[k], event);
                }
            }
        }
    }
}

/// Whether the worker has stopped sending transactions.
pub open spec fn is_closing(phase: Phase) -> bool {
    phase is Closing || phase is Sweeping || phase is Resolving || phase is Returning || phase
        is Finished
}

/// A worker that has stopped sending transactions never sends another.
pub proof fn closing_is_final(worker: WorkerView, events: Seq<WorkerEvent>)
    requires
        is_closing(worker.phase),
    ensures
        is_closing(after_events(worker, events).phase),
        sends(worker, events) == 0,
    decreases events.len(),
{
    if events.len() > 0 {
        closing_is_final(worker, events.drop_last());
    }
}

/// A worker stops sending transactions only because the stop file is there or because
/// no transaction remains.
pub proof fn closing_has_a_reason(worker: WorkerView, event: WorkerEvent)
    requires
        !is_closing(worker.phase),
        is_closing(after_event(worker, event).phase),
    ensures
        event == WorkerEvent::StopFile(true) || event == WorkerEvent::Remaining(Some(0u64))
            || event == WorkerEvent::Taken(false),
        after_event(worker, event).phase == Phase::Closing,
{
}

/// A worker is not done before its fee payer has nothing left, unless the fee payer is
/// the source of the funds.
pub proof fn funds_are_given_back(worker: WorkerView, event: WorkerEvent)
    requires
        worker.phase != Phase::Finished,
        after_event(worker, event).phase == Phase::Finished,
    ensures
        event is Balance,
        event == WorkerEvent::Balance(Some(0u64)) || worker.own_source,
{
}

/// A worker takes a transaction only in an iteration in which the balance is not looked
/// at, or after the fee payer was found to have one SOL at least.
pub proof fn fee_payer_is_in_funds(worker: WorkerView, event: WorkerEvent)
    requires
        worker.phase != Phase::Taking,
        after_event(worker, event).phase == Phase::Taking,
    ensures
        after_event(worker, event).iterations == worker.iterations + 1,
        worker.phase == Phase::Starting ==> worker.iterations as int % 1000 != 0,
        worker.phase != Phase::Starting ==> (event matches WorkerEvent::Balance(Some(balance))
            && balance >= LAMPORTS_PER_TRANSFER),
{
}

/// A transfer to the fee payer is not repeated with the blockhash that it was made
/// with: after a transfer that failed the next balance is looked at with another one.
pub proof fn transfer_is_repeated_with_another_blockhash(
    worker: WorkerView,
    event: WorkerEvent,
    blockhash: Blockhash,
)
    requires
        worker.phase == (Phase::Renewing { blockhash }),
        after_event(worker, event).phase != worker.phase,
    ensures
        after_event(worker, event).phase matches Phase::Weighing { blockhash: other } && other
            != blockhash,
{
}

/// Lamports move in two ways only: one SOL from the source of the funds to the fee payer,
/// after its balance was found to be below that, and all that the fee payer was
/// found to have back to the source, which pays for both.
pub proof fn transfers_have_their_reasons(worker: WorkerView, event: WorkerEvent)
    requires
        action_in(worker) !is Transfer,
        action_in(after_event(worker, event)) is Transfer,
    ensures
        match action_in(after_event(worker, event)) {
            WorkerAction::Transfer { fee_payer, funds_source, target, amount, blockhash } => {
                &&& fee_payer == Party::FundsSource
                &&& funds_source != target
                &&& if target == Party::FeePayer {
                    &&& worker.phase == (Phase::Weighing { blockhash })
                    &&& event matches WorkerEvent::Balance(balance) && known_balance(balance)
                        < LAMPORTS_PER_TRANSFER
                    &&& amount == LAMPORTS_PER_TRANSFER
                } else {
                    &&& worker.phase == (Phase::Resolving { balance: amount })
                    &&& event == WorkerEvent::Latest(Some(blockhash))
                }
            },
            _ => true,
        },
{
}

/// Signs the instructions as a transaction that `fee_payer` pays for; nothing, if they
/// are no message or the keypair cannot sign it.
pub fn sign_transaction(
    instructions: &Vec<Instruction>,
    fee_payer: &Keypair,
    recent_blockhash: &Blockhash,
) -> (transaction: Option<Vec<u8>>)
    ensures
        transaction_bytes(
            instruction_views(instructions@),
            pubkey_with(public_half(fee_payer.bytes@)),
            seq![*fee_payer],
            *recent_blockhash,
        ) == (match transaction {
            Some(bytes) => Some(bytes@),
            None => None,
        }),
{
    let payer: Pubkey = fee_payer.pubkey();
    let mut keypairs: Vec<Keypair> = Vec::new();
    keypairs.push(*fee_payer);
    proof {
        lemma_pubkey_with(payer);
        assert(keypairs@ =~= seq![*fee_payer]);
    }
    sign_instructions(instructions, &payer, &keypairs, recent_blockhash)
}

/// Whether an event answers what a worker asks for.
pub open spec fn answers(action: WorkerAction, event: WorkerEvent) -> bool {
    match action {
        WorkerAction::CheckStopFile => event is StopFile,
        WorkerAction::CountRemaining => event is Remaining,
        WorkerAction::BeginIteration => event is Recent,
        WorkerAction::Report { .. } => event is Done,
        WorkerAction::GetBalance => event is Balance,
        WorkerAction::Transfer { .. } => event is Done,
        WorkerAction::PollBlockhash { .. } => event is Recent,
        WorkerAction::TakeTransaction => event is Taken,
        WorkerAction::SendTransaction => event is Done,
        WorkerAction::BeginSweep => event is Done,
        WorkerAction::GetLatestBlockhash => event is Latest,
        WorkerAction::Stop => false,
        WorkerAction::Abort => false,
    }
}

/// What a worker did not ask for changes nothing, and who has stopped stays so.
pub proof fn only_answers_matter(worker: WorkerView, event: WorkerEvent)
    requires
        !answers(action_in(worker), event),
    ensures
        after_event(worker, event) == worker,
{
}

/// A worker that has nothing against it goes round: it looks for the stop file, counts what
/// remains, begins an iteration, takes a transaction and sends it, and is where it was, one
/// iteration on. In an iteration whose number is no multiple of 1000 it does no more.
pub proof fn iteration_sends_a_transaction(
    worker: WorkerView,
    remaining: Option<u64>,
    blockhash: Blockhash,
)
    requires
        worker.phase == Phase::Checking,
        0 <= worker.iterations < i32::MAX,
        worker.iterations as int % 1000 != 0,
        remaining != Some(0u64),
    ensures
        ({
            let w1 = after_event(worker, WorkerEvent::StopFile(false));
            let w2 = after_event(w1, WorkerEvent::Remaining(remaining));
            let w3 = after_event(w2, WorkerEvent::Recent(blockhash));
            let w4 = after_event(w3, WorkerEvent::Taken(true));
            let w5 = after_event(w4, WorkerEvent::Done);
            &&& action_in(worker) is CheckStopFile
            &&& action_in(w1) is CountRemaining
            &&& action_in(w2) is BeginIteration
            &&& action_in(w3) is TakeTransaction
            &&& action_in(w4) is SendTransaction
            &&& action_in(w5) is CheckStopFile
            &&& w5.iterations == worker.iterations + 1
            &&& w5.phase == worker.phase
            &&& w5.own_source == worker.own_source
        }),
{
}

/// In an iteration whose number is a multiple of 1000 it reports that number and looks at
/// the balance before it takes a transaction, and takes one at once if there is one SOL or
/// more.
pub proof fn balance_is_looked_at_every_thousandth_time(
    worker: WorkerView,
    remaining: Option<u64>,
    blockhash: Blockhash,
    balance: u64,
)
    requires
        worker.phase == Phase::Checking,
        0 <= worker.iterations < i32::MAX,
        worker.iterations as int % 1000 == 0,
        remaining != Some(0u64),
        balance >= 1_000_000_000,
    ensures
        ({
            let w1 = after_event(worker, WorkerEvent::StopFile(false));
            let w2 = after_event(w1, WorkerEvent::Remaining(remaining));
            let w3 = after_event(w2, WorkerEvent::Recent(blockhash));
            let w4 = after_event(w3, WorkerEvent::Done);
            let w5 = after_event(w4, WorkerEvent::Balance(Some(balance)));
            &&& action_in(w3) == (WorkerAction::Report { iterations: worker.iterations })
            &&& action_in(w4) is GetBalance
            &&& action_in(w5) is TakeTransaction
            &&& w5.iterations == worker.iterations + 1
        }),
{
}

/// Where the balance is below one SOL, or not known, one SOL is transferred to the fee payer
/// with the blockhash of the iteration, which the source of the funds pays for, and the
/// balance is looked at again. If there is one SOL then a transaction is taken; if not, the
/// worker looks for another blockhash every quarter of a second, and with it begins again.
pub proof fn low_balance_is_topped_up(
    worker: WorkerView,
    remaining: Option<u64>,
    blockhash: Blockhash,
    balance: Option<u64>,
    enough: u64,
    still: Option<u64>,
    other: Blockhash,
)
    requires
        worker.phase == Phase::Checking,
        0 <= worker.iterations < i32::MAX,
        worker.iterations as int % 1000 == 0,
        remaining != Some(0u64),
        balance is None || balance->0 < 1_000_000_000,
        enough >= 1_000_000_000,
        still is None || still->0 < 1_000_000_000,
        other != blockhash,
    ensures
        ({
            let w1 = after_event(worker, WorkerEvent::StopFile(false));
            let w2 = after_event(w1, WorkerEvent::Remaining(remaining));
            let w3 = after_event(w2, WorkerEvent::Recent(blockhash));
            let w4 = after_event(w3, WorkerEvent::Done);
            let w5 = after_event(w4, WorkerEvent::Balance(balance));
            let w6 = after_event(w5, WorkerEvent::Done);
            let good = after_event(w6, WorkerEvent::Balance(Some(enough)));
            let bad = after_event(w6, WorkerEvent::Balance(still));
            let same = after_event(bad, WorkerEvent::Recent(blockhash));
            let again = after_event(same, WorkerEvent::Recent(other));
            let repeated = after_event(again, WorkerEvent::Balance(still));
            &&& action_in(w5) == (WorkerAction::Transfer {
                fee_payer: Party::FundsSource,
                funds_source: Party::FundsSource,
                target: Party::FeePayer,
                amount: 1_000_000_000,
                blockhash,
            })
            &&& action_in(w6) is GetBalance
            &&& action_in(good) is TakeTransaction
            &&& good.iterations == worker.iterations + 1
            &&& action_in(bad) == (WorkerAction::PollBlockhash { millis: 250 })
            &&& same == bad
            &&& action_in(again) is GetBalance
            &&& again.iterations == worker.iterations
            &&& after_event(again, WorkerEvent::Balance(Some(enough))) == good
            &&& action_in(repeated) == (WorkerAction::Transfer {
                fee_payer: Party::FundsSource,
                funds_source: Party::FundsSource,
                target: Party::FeePayer,
                amount: 1_000_000_000,
                blockhash: other,
            })
        }),
{
}

/// A worker begins to give back when the stop file is there, when nothing remains, or when
/// there was nothing to take: it takes a client and looks at what the fee payer has.
pub proof fn worker_stops_when_it_should(worker: WorkerView)
    ensures
        ({
            let checking = in_phase(worker, Phase::Checking);
            let counting = in_phase(worker, Phase::Counting);
            let taking = in_phase(worker, Phase::Taking);
            let closing = after_event(checking, WorkerEvent::StopFile(true));
            let sweeping = after_event(closing, WorkerEvent::Done);
            &&& action_in(closing) is BeginSweep
            &&& after_event(counting, WorkerEvent::Remaining(Some(0u64))) == closing
            &&& after_event(taking, WorkerEvent::Taken(false)) == closing
            &&& action_in(sweeping) is GetBalance
            &&& sweeping.phase == Phase::Sweeping
        }),
{
}

/// All that the fee payer has is given back: told a balance and then a blockhash, a worker
/// that sweeps asks for the transfer of exactly that balance from the fee payer to the source
/// of the funds with that blockhash, and looks at the balance again. Without the balance or
/// the blockhash it asks for the balance again. It is done when nothing is left.
pub proof fn all_that_is_left_is_given_back(
    worker: WorkerView,
    balance: u64,
    blockhash: Blockhash,
)
    requires
        worker.phase == Phase::Sweeping,
        !worker.own_source,
        balance > 0,
    ensures
        ({
            let told = after_event(worker, WorkerEvent::Balance(Some(balance)));
            let ready = after_event(told, WorkerEvent::Latest(Some(blockhash)));
            &&& action_in(worker) is GetBalance
            &&& action_in(told) is GetLatestBlockhash
            &&& action_in(ready) == (WorkerAction::Transfer {
                fee_payer: Party::FundsSource,
                funds_source: Party::FeePayer,
                target: Party::FundsSource,
                amount: balance,
                blockhash,
            })
            &&& after_event(ready, WorkerEvent::Done) == worker
            &&& after_event(told, WorkerEvent::Latest(None)) == worker
            &&& after_event(worker, WorkerEvent::Balance(None)) == worker
            &&& action_in(after_event(worker, WorkerEvent::Balance(Some(0u64)))) is Stop
        }),
{
}

/// A fee payer that is the source of the funds keeps what it has.
pub proof fn source_keeps_its_own(worker: WorkerView, balance: u64)
    requires
        worker.phase == Phase::Sweeping,
        worker.own_source,
    ensures
        action_in(after_event(worker, WorkerEvent::Balance(Some(balance)))) is Stop,
{
}

/// A worker that can count no further gives up in place of taking another transaction.
pub proof fn iterations_run_out(worker: WorkerView, blockhash: Blockhash)
    requires
        worker.phase == Phase::Starting,
        worker.iterations == 2_147_483_647,
    ensures
        action_in(after_event(worker, WorkerEvent::Recent(blockhash))) is Abort,
{
}

} // verus!
