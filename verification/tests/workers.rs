//! What a worker asks for, and what it does with the answers.

use hammer::blockhash::Blockhash;
use hammer::instructions::Instruction;
use hammer::keypair::Keypair;
use hammer::message::sign_instructions;
use hammer::pubkey::Pubkey;
use hammer::worker::{
    sign_transaction, take_transaction, Party, Worker, WorkerAction, WorkerEvent,
    LAMPORTS_PER_TRANSFER,
};

fn hash(b: u8) -> Blockhash {
    Blockhash { bytes: [b; 32] }
}

fn keypair(b: u8) -> Keypair {
    let keypair = solana_sdk::signer::keypair::keypair_from_seed(&[b; 32]).unwrap();
    Keypair { bytes: keypair.to_bytes() }
}

fn worker() -> Worker {
    Worker::new(keypair(1), keypair(2))
}

fn tell(worker: &mut Worker, events: &[WorkerEvent]) -> WorkerAction {
    for event in events {
        worker.step(*event);
    }
    worker.action()
}

// One iteration in which the balance is not looked at.
fn plain_iteration(worker: &mut Worker) {
    let action = tell(
        worker,
        &[
            WorkerEvent::StopFile(false),
            WorkerEvent::Remaining(None),
            WorkerEvent::Recent(hash(1)),
        ],
    );
    assert_eq!(action, WorkerAction::TakeTransaction);
    let action = tell(worker, &[WorkerEvent::Taken(true)]);
    assert_eq!(action, WorkerAction::SendTransaction);
    assert_eq!(tell(worker, &[WorkerEvent::Done]), WorkerAction::CheckStopFile);
}

// The first iteration, of a worker whose fee payer has funds.
fn first_iteration(worker: &mut Worker) {
    let action = tell(
        worker,
        &[
            WorkerEvent::StopFile(false),
            WorkerEvent::Remaining(Some(10)),
            WorkerEvent::Recent(hash(1)),
            WorkerEvent::Done,
            WorkerEvent::Balance(Some(LAMPORTS_PER_TRANSFER)),
            WorkerEvent::Taken(true),
            WorkerEvent::Done,
        ],
    );
    assert_eq!(action, WorkerAction::CheckStopFile);
}

#[test]
fn a_transfer_is_one_sol() {
    assert_eq!(LAMPORTS_PER_TRANSFER, solana_sdk::native_token::LAMPORTS_PER_SOL);
}

#[test]
fn the_balance_is_looked_at_first() {
    let mut worker = worker();
    assert_eq!(worker.action(), WorkerAction::CheckStopFile);
    assert_eq!(tell(&mut worker, &[WorkerEvent::StopFile(false)]), WorkerAction::CountRemaining);
    let action = tell(&mut worker, &[WorkerEvent::Remaining(Some(1))]);
    assert_eq!(action, WorkerAction::BeginIteration);
    let action = tell(&mut worker, &[WorkerEvent::Recent(hash(1))]);
    assert_eq!(action, WorkerAction::Report { iterations: 0 });
    assert_eq!(tell(&mut worker, &[WorkerEvent::Done]), WorkerAction::GetBalance);
}

#[test]
fn the_balance_is_looked_at_once_in_a_thousand_iterations() {
    let mut worker = worker();
    first_iteration(&mut worker);
    for _ in 1..1000 {
        plain_iteration(&mut worker);
    }
    let action = tell(
        &mut worker,
        &[
            WorkerEvent::StopFile(false),
            WorkerEvent::Remaining(None),
            WorkerEvent::Recent(hash(1)),
        ],
    );
    assert_eq!(action, WorkerAction::Report { iterations: 1000 });
}

#[test]
fn a_low_balance_is_filled_up() {
    for balance in [None, Some(0), Some(500_000_000), Some(LAMPORTS_PER_TRANSFER - 1)] {
        let mut worker = worker();
        let action = tell(
            &mut worker,
            &[
                WorkerEvent::StopFile(false),
                WorkerEvent::Remaining(None),
                WorkerEvent::Recent(hash(1)),
                WorkerEvent::Done,
                WorkerEvent::Balance(balance),
            ],
        );
        assert_eq!(
            action,
            WorkerAction::Transfer {
                fee_payer: Party::FundsSource,
                funds_source: Party::FundsSource,
                target: Party::FeePayer,
                amount: 1_000_000_000,
                blockhash: hash(1),
            }
        );
        assert_eq!(tell(&mut worker, &[WorkerEvent::Done]), WorkerAction::GetBalance);
        let action = tell(&mut worker, &[WorkerEvent::Balance(Some(LAMPORTS_PER_TRANSFER))]);
        assert_eq!(action, WorkerAction::TakeTransaction);
    }
}

#[test]
fn a_failed_transfer_waits_for_another_blockhash() {
    let mut worker = worker();
    let action = tell(
        &mut worker,
        &[
            WorkerEvent::StopFile(false),
            WorkerEvent::Remaining(None),
            WorkerEvent::Recent(hash(1)),
            WorkerEvent::Done,
            WorkerEvent::Balance(None),
            WorkerEvent::Done,
            WorkerEvent::Balance(Some(LAMPORTS_PER_TRANSFER - 1)),
        ],
    );
    assert_eq!(action, WorkerAction::PollBlockhash { millis: 250 });
    let action = tell(&mut worker, &[WorkerEvent::Recent(hash(1))]);
    assert_eq!(action, WorkerAction::PollBlockhash { millis: 250 });
    assert_eq!(tell(&mut worker, &[WorkerEvent::Recent(hash(2))]), WorkerAction::GetBalance);
    let action = tell(&mut worker, &[WorkerEvent::Balance(Some(0))]);
    assert!(matches!(action, WorkerAction::Transfer { blockhash, .. } if blockhash == hash(2)));
}

#[test]
fn the_stop_file_stops() {
    let mut worker = worker();
    first_iteration(&mut worker);
    assert_eq!(tell(&mut worker, &[WorkerEvent::StopFile(true)]), WorkerAction::BeginSweep);
}

#[test]
fn no_more_transactions_stop() {
    let mut first = worker();
    let action = tell(&mut first, &[WorkerEvent::StopFile(false), WorkerEvent::Remaining(Some(0))]);
    assert_eq!(action, WorkerAction::BeginSweep);
    let mut second = worker();
    first_iteration(&mut second);
    let action = tell(
        &mut second,
        &[
            WorkerEvent::StopFile(false),
            WorkerEvent::Remaining(Some(1)),
            WorkerEvent::Recent(hash(1)),
            WorkerEvent::Taken(false),
        ],
    );
    assert_eq!(action, WorkerAction::BeginSweep);
}

#[test]
fn the_rest_is_given_back() {
    let mut worker = worker();
    let action = tell(&mut worker, &[WorkerEvent::StopFile(true), WorkerEvent::Done]);
    assert_eq!(action, WorkerAction::GetBalance);
    assert_eq!(tell(&mut worker, &[WorkerEvent::Balance(None)]), WorkerAction::GetBalance);
    let action = tell(&mut worker, &[WorkerEvent::Balance(Some(77))]);
    assert_eq!(action, WorkerAction::GetLatestBlockhash);
    assert_eq!(tell(&mut worker, &[WorkerEvent::Latest(None)]), WorkerAction::GetBalance);
    let action = tell(
        &mut worker,
        &[WorkerEvent::Balance(Some(78)), WorkerEvent::Latest(Some(hash(3)))],
    );
    assert_eq!(
        action,
        WorkerAction::Transfer {
            fee_payer: Party::FundsSource,
            funds_source: Party::FeePayer,
            target: Party::FundsSource,
            amount: 78,
            blockhash: hash(3),
        }
    );
    assert_eq!(tell(&mut worker, &[WorkerEvent::Done]), WorkerAction::GetBalance);
    assert_eq!(tell(&mut worker, &[WorkerEvent::Balance(Some(0))]), WorkerAction::Stop);
    assert_eq!(tell(&mut worker, &[WorkerEvent::Done]), WorkerAction::Stop);
}

#[test]
fn a_source_keeps_its_own_funds() {
    let mut worker = Worker::new(keypair(1), keypair(1));
    let action = tell(
        &mut worker,
        &[WorkerEvent::StopFile(true), WorkerEvent::Done, WorkerEvent::Balance(Some(5))],
    );
    assert_eq!(action, WorkerAction::Stop);
}

#[test]
fn other_answers_change_nothing() {
    let mut worker = worker();
    let action = tell(
        &mut worker,
        &[
            WorkerEvent::Done,
            WorkerEvent::Taken(true),
            WorkerEvent::Balance(Some(0)),
            WorkerEvent::Recent(hash(1)),
            WorkerEvent::Remaining(Some(0)),
            WorkerEvent::Latest(None),
        ],
    );
    assert_eq!(action, WorkerAction::CheckStopFile);
}

#[test]
fn the_keypairs_are_kept() {
    let mut worker = worker();
    first_iteration(&mut worker);
    assert!(worker.keypair(Party::FeePayer) == keypair(1));
    assert!(worker.keypair(Party::FundsSource) == keypair(2));
}

#[test]
fn transactions_run_out() {
    let mut remaining = Some(2);
    assert!(take_transaction(&mut remaining));
    assert!(take_transaction(&mut remaining));
    assert_eq!(remaining, Some(0));
    assert!(!take_transaction(&mut remaining));
    assert_eq!(remaining, Some(0));
    let mut unlimited = None;
    assert!(take_transaction(&mut unlimited));
    assert_eq!(unlimited, None);
}

#[test]
fn a_transaction_is_signed_by_its_fee_payer() {
    let program_id = Pubkey { bytes: [9; 32] };
    let instructions = vec![Instruction { program_id, accounts: vec![], data: vec![6; 10] }];
    let expected =
        sign_instructions(&instructions, &keypair(1).pubkey(), &vec![keypair(1)], &hash(4));
    assert!(expected.is_some());
    assert_eq!(sign_transaction(&instructions, &keypair(1), &hash(4)), expected);
    assert_ne!(sign_transaction(&instructions, &keypair(2), &hash(4)), expected);
    assert_ne!(sign_transaction(&instructions, &keypair(1), &hash(5)), expected);
}

#[test]
fn a_transaction_that_cannot_be_signed_is_none() {
    let program_id = Pubkey { bytes: [9; 32] };
    let instructions = vec![Instruction { program_id, accounts: vec![], data: vec![6; 10] }];
    let broken = Keypair { bytes: [0; 64] };
    assert_eq!(sign_transaction(&instructions, &broken, &hash(4)), None);
    let long = vec![Instruction { program_id, accounts: vec![], data: vec![6; 65536] }];
    assert_eq!(sign_transaction(&long, &keypair(1), &hash(4)), None);
}

#[test]
fn workers_share_a_limited_number_of_transactions() {
    let mut remaining = Some(5);
    let mut workers = [worker(), worker(), worker()];
    let mut sent = 0;
    for _ in 0..100 {
        for worker in workers.iter_mut() {
            let event = match worker.action() {
                WorkerAction::CheckStopFile => WorkerEvent::StopFile(false),
                WorkerAction::CountRemaining => WorkerEvent::Remaining(remaining),
                WorkerAction::BeginIteration => WorkerEvent::Recent(hash(1)),
                WorkerAction::Report { .. } => WorkerEvent::Done,
                WorkerAction::GetBalance => WorkerEvent::Balance(Some(LAMPORTS_PER_TRANSFER)),
                WorkerAction::TakeTransaction => {
                    WorkerEvent::Taken(take_transaction(&mut remaining))
                }
                WorkerAction::SendTransaction => {
                    sent += 1;
                    WorkerEvent::Done
                }
                _ => WorkerEvent::Done,
            };
            worker.step(event);
        }
    }
    assert_eq!(sent, 5);
    assert_eq!(remaining, Some(0));
}
