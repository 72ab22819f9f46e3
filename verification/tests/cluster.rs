//! What is known of the cluster.

use hammer::blockhash::{Blockhash, BlockhashAction, BlockhashEvent, RecentBlockhashFetcher};
use hammer::leaders::{LeadersAction, LeadersEvent, LeadersFetcher, NextStep, SlotFetcher};
use hammer::pubkey::{pubkey_to_string, Pubkey};
use hammer::refresh::{next_refresh, RefreshAction, RefreshEvent, Refreshed};
use hammer::rpc_clients::RpcClients;
use hammer::tpus::{
    fill_tpus, next_tpu_action, CurrentTpus, SocketAddress, TpuAction, TpuEvent, TpuFetcher,
    TpuUpdate,
};
use std::sync::Arc;

const MILLI: u128 = 1_000_000;

fn key(b: u8) -> Pubkey {
    Pubkey { bytes: [b; 32] }
}

fn hash(b: u8) -> Blockhash {
    Blockhash { bytes: [b; 32] }
}

fn v4(b: u8) -> SocketAddress {
    SocketAddress::V4 { ip: [10, 0, 0, b], port: 8000 + b as u16 }
}

// The file of a map from text to the address 10.0.0.b, as bincode writes it.
fn tpu_file(entries: &[(String, u8)]) -> Vec<u8> {
    let mut bytes = (entries.len() as u64).to_le_bytes().to_vec();
    for (name, b) in entries {
        bytes.extend((name.len() as u64).to_le_bytes());
        bytes.extend(name.as_bytes());
        bytes.extend(0u32.to_le_bytes());
        bytes.extend([10, 0, 0, *b]);
        bytes.extend((8000 + *b as u16).to_le_bytes());
    }
    bytes
}

fn fetcher(entries: &[(String, u8)]) -> TpuFetcher {
    let (fetcher, refused) = TpuFetcher::load_validators(Some(&tpu_file(entries)));
    assert!(!refused);
    fetcher
}

fn leaders(first_slot: u64, leaders: Vec<Pubkey>) -> LeadersFetcher {
    let mut fetcher = LeadersFetcher::new();
    let action = fetcher.update(&LeadersEvent::Leaders { first_slot, leaders });
    assert_eq!(action, LeadersAction::Done);
    fetcher
}

fn at_slot(slot: u64) -> SlotFetcher {
    let mut fetcher = SlotFetcher::new(0);
    assert_eq!(fetcher.update(0, 0, Some(slot)), NextStep::Done);
    fetcher
}

#[test]
fn clients_take_turns() {
    let mut clients = RpcClients::new(vec![Arc::new('a'), Arc::new('b'), Arc::new('c')]);
    assert_eq!(clients.count(), 3);
    let turns: String = (0..7).map(|_| *clients.get()).collect();
    assert_eq!(turns, "bcabcab");
}

#[test]
fn a_single_client_is_always_used() {
    let mut clients = RpcClients::new(vec![Arc::new(5)]);
    assert_eq!(*clients.get(), 5);
    assert_eq!(*clients.get(), 5);
}

#[test]
fn no_blockhash_before_the_first() {
    let mut fetcher = RecentBlockhashFetcher::new();
    assert_eq!(fetcher.get(), None);
    assert_eq!(fetcher.step(BlockhashEvent::Started), BlockhashAction::Fetch);
    assert_eq!(fetcher.step(BlockhashEvent::Failed), BlockhashAction::Wait { millis: 500 });
    assert_eq!(fetcher.step(BlockhashEvent::Waited), BlockhashAction::Fetch);
    assert_eq!(fetcher.get(), None);
}

#[test]
fn a_blockhash_is_held_back() {
    let mut fetcher = RecentBlockhashFetcher::new();
    let hold = BlockhashAction::Hold { blockhash: hash(1), millis: 5000 };
    assert_eq!(fetcher.step(BlockhashEvent::Fetched(hash(1))), hold);
    assert_eq!(fetcher.get(), None);
    let wait = BlockhashAction::Wait { millis: 30_000 };
    assert_eq!(fetcher.step(BlockhashEvent::Held(hash(1))), wait);
    assert_eq!(fetcher.get(), Some(hash(1)));
    fetcher.step(BlockhashEvent::Waited);
    fetcher.step(BlockhashEvent::Fetched(hash(2)));
    assert_eq!(fetcher.get(), Some(hash(1)));
    fetcher.step(BlockhashEvent::Failed);
    assert_eq!(fetcher.get(), Some(hash(1)));
    assert!(hash(1).same(&hash(1)));
    assert!(!hash(1).same(&hash(2)));
}

#[test]
fn slots_are_dated_halfway() {
    let mut fetcher = SlotFetcher::new(7);
    assert_eq!(fetcher.get(), (7, 0));
    assert_eq!(fetcher.update(100, 10, None), NextStep::Retry { millis: 100 });
    assert_eq!(fetcher.get(), (7, 0));
    assert_eq!(fetcher.update(100, 10, Some(55)), NextStep::Done);
    assert_eq!(fetcher.get(), (110, 55));
    assert_eq!(fetcher.update(u128::MAX, 1, Some(56)), NextStep::Done);
    assert_eq!(fetcher.get(), (u128::MAX, 56));
}

#[test]
fn a_slot_lasts_half_a_second() {
    let fetcher = at_slot(100);
    assert_eq!(fetcher.estimate(0), Some(100));
    assert_eq!(fetcher.estimate(499 * MILLI + 999_999), Some(100));
    assert_eq!(fetcher.estimate(500 * MILLI), Some(101));
    assert_eq!(fetcher.estimate(10_250 * MILLI), Some(120));
}

#[test]
fn a_clock_that_runs_back_jumps_far_ahead() {
    let mut fetcher = SlotFetcher::new(0);
    fetcher.update(1000, 0, Some(3));
    assert_eq!(fetcher.estimate(999), Some(3 + u64::MAX / 500));
    fetcher.update(1000, 0, Some(u64::MAX));
    assert_eq!(fetcher.estimate(1000), Some(u64::MAX));
    assert_eq!(fetcher.estimate(999), None);
}

#[test]
fn milliseconds_are_cut_to_64_bits() {
    let fetcher = at_slot(0);
    let beyond = (u64::MAX as u128 + 1 + 1500) * MILLI;
    assert_eq!(fetcher.estimate(beyond), Some(3));
}

#[test]
fn leaders_are_asked_for_from_the_current_slot() {
    let mut fetcher = LeadersFetcher::new();
    assert_eq!(fetcher.update(&LeadersEvent::Started), LeadersAction::AskSlot);
    assert_eq!(fetcher.update(&LeadersEvent::Failed), LeadersAction::Wait { millis: 500 });
    assert_eq!(fetcher.update(&LeadersEvent::Waited), LeadersAction::AskSlot);
    assert_eq!(
        fetcher.update(&LeadersEvent::Slot(70)),
        LeadersAction::AskLeaders { first_slot: 70, limit: 4000 }
    );
    assert_eq!(fetcher.get(70), None);
}

#[test]
fn leaders_are_found_by_their_slots() {
    let fetcher = leaders(70, vec![key(1), key(2)]);
    assert_eq!(fetcher.get(69), None);
    assert_eq!(fetcher.get(70), Some(pubkey_to_string(&key(1))));
    assert_eq!(fetcher.get(71), Some(pubkey_to_string(&key(2))));
    assert_eq!(fetcher.get(72), None);
}

#[test]
fn leaders_beyond_the_last_slot_cannot_be_looked_for() {
    let fetcher = leaders(u64::MAX, vec![key(1)]);
    assert!(fetcher.can_get(u64::MAX - 1));
    assert!(!fetcher.can_get(u64::MAX));
    assert!(leaders(u64::MAX - 1, vec![key(1)]).can_get(u64::MAX));
}

#[test]
fn validators_are_decoded() {
    let mut bytes = tpu_file(&[("a".to_string(), 1)]);
    bytes[0] = 2;
    bytes.extend(1u64.to_le_bytes());
    bytes.extend(b"b");
    bytes.extend(1u32.to_le_bytes());
    bytes.extend([9; 16]);
    bytes.extend(443u16.to_le_bytes());
    let (fetcher, refused) = TpuFetcher::load_validators(Some(&bytes));
    assert!(!refused);
    assert_eq!(fetcher.get(&"a".to_string()), Some(v4(1)));
    assert_eq!(fetcher.get(&"b".to_string()), Some(SocketAddress::V6 { ip: [9; 16], port: 443 }));
    assert_eq!(fetcher.get(&"c".to_string()), None);
}

#[test]
fn a_later_address_holds() {
    let fetcher = fetcher(&[
        ("a".to_string(), 1),
        ("b".to_string(), 2),
        ("a".to_string(), 3),
    ]);
    assert_eq!(fetcher.get(&"a".to_string()), Some(v4(3)));
    assert_eq!(fetcher.get(&"b".to_string()), Some(v4(2)));
}

#[test]
fn a_file_that_does_not_decode_names_no_validator() {
    let mut bytes = tpu_file(&[("a".to_string(), 1)]);
    bytes.pop();
    let (fetcher, refused) = TpuFetcher::load_validators(Some(&bytes));
    assert!(refused);
    assert_eq!(fetcher.get(&"a".to_string()), None);
    let (fetcher, refused) = TpuFetcher::load_validators(None);
    assert!(!refused);
    assert_eq!(fetcher.get(&"a".to_string()), None);
}

#[test]
fn missing_addresses_are_filled_in() {
    let (a, b, c) = (v4(1), v4(2), v4(3));
    assert_eq!(fill_tpus(None, None, None), None);
    assert_eq!(fill_tpus(None, None, Some(c)), Some((c, c, c)));
    assert_eq!(fill_tpus(None, Some(b), None), Some((b, b, b)));
    assert_eq!(fill_tpus(None, Some(b), Some(c)), Some((b, b, c)));
    assert_eq!(fill_tpus(Some(a), None, None), Some((a, a, a)));
    assert_eq!(fill_tpus(Some(a), None, Some(c)), Some((a, a, c)));
    assert_eq!(fill_tpus(Some(a), Some(b), None), Some((a, b, b)));
    assert_eq!(fill_tpus(Some(a), Some(b), Some(c)), Some((a, b, c)));
}

#[test]
fn tpus_are_those_of_the_leaders_around() {
    let mut keys = vec![key(1); 4];
    keys.extend(vec![key(2); 4]);
    keys.extend(vec![key(3); 4]);
    let leaders = leaders(100, keys);
    let tpus = fetcher(&[
        (pubkey_to_string(&key(1)), 1),
        (pubkey_to_string(&key(2)), 2),
        (pubkey_to_string(&key(3)), 3),
    ]);
    let found = CurrentTpus::update(500 * MILLI, &at_slot(104), &leaders, &tpus);
    assert_eq!(found, TpuUpdate::Found(v4(1), v4(2), v4(3)));
    let found = CurrentTpus::update(0, &at_slot(96), &leaders, &tpus);
    assert_eq!(found, TpuUpdate::Found(v4(1), v4(1), v4(1)));
    let found = CurrentTpus::update(0, &at_slot(111), &leaders, &tpus);
    assert_eq!(found, TpuUpdate::Found(v4(2), v4(3), v4(3)));
}

#[test]
fn unknown_addresses_are_not_found() {
    let leaders = leaders(100, vec![key(1); 12]);
    let found = CurrentTpus::update(0, &at_slot(104), &leaders, &fetcher(&[]));
    assert_eq!(found, TpuUpdate::Unknown);
}

#[test]
fn unknown_leaders_are_fetched_again() {
    let leaders = leaders(100, vec![key(1); 12]);
    let tpus = fetcher(&[(pubkey_to_string(&key(1)), 1)]);
    assert_eq!(CurrentTpus::update(0, &at_slot(95), &leaders, &tpus), TpuUpdate::Refetch);
    assert_eq!(CurrentTpus::update(0, &at_slot(116), &leaders, &tpus), TpuUpdate::Refetch);
}

#[test]
fn slots_that_are_none_are_out_of_range() {
    let leaders = leaders(100, vec![key(1); 12]);
    let tpus = fetcher(&[]);
    assert_eq!(CurrentTpus::update(0, &at_slot(3), &leaders, &tpus), TpuUpdate::OutOfRange);
    assert_eq!(CurrentTpus::update(0, &at_slot(4), &leaders, &tpus), TpuUpdate::Refetch);
    let last = at_slot(u64::MAX - 3);
    assert_eq!(CurrentTpus::update(0, &last, &leaders, &tpus), TpuUpdate::OutOfRange);
    let beyond = at_slot(u64::MAX);
    assert_eq!(
        CurrentTpus::update(500 * MILLI, &beyond, &leaders, &tpus),
        TpuUpdate::OutOfRange
    );
}

#[test]
fn tpus_stay_until_others_are_found() {
    let mut current = CurrentTpus::new((v4(1), v4(2), v4(3)));
    current.refresh(&TpuUpdate::Unknown);
    current.refresh(&TpuUpdate::Refetch);
    current.refresh(&TpuUpdate::OutOfRange);
    assert_eq!(current.get(), (v4(1), v4(2), v4(3)));
    current.refresh(&TpuUpdate::Found(v4(4), v4(5), v4(6)));
    assert_eq!(current.get(), (v4(4), v4(5), v4(6)));
}

#[test]
fn leaders_are_looked_at_every_half_second() {
    let wait = TpuAction::Wait { millis: 500 };
    let found = TpuUpdate::Found(v4(1), v4(2), v4(3));
    assert_eq!(next_tpu_action(&TpuEvent::Started), TpuAction::Look);
    assert_eq!(next_tpu_action(&TpuEvent::Looked(found)), wait);
    assert_eq!(next_tpu_action(&TpuEvent::Looked(TpuUpdate::Unknown)), wait);
    assert_eq!(next_tpu_action(&TpuEvent::Waited), TpuAction::Look);
}

#[test]
fn unknown_leaders_have_slot_and_leaders_fetched_again() {
    let refetch = TpuEvent::Looked(TpuUpdate::Refetch);
    assert_eq!(next_tpu_action(&refetch), TpuAction::FetchSlot);
    assert_eq!(next_tpu_action(&TpuEvent::SlotFetched), TpuAction::FetchLeaders);
    assert_eq!(next_tpu_action(&TpuEvent::LeadersFetched), TpuAction::Wait { millis: 500 });
    let out_of_range = TpuEvent::Looked(TpuUpdate::OutOfRange);
    assert_eq!(next_tpu_action(&out_of_range), TpuAction::Abort);
}

#[test]
fn everything_is_fetched_again_after_a_while() {
    for (what, millis) in [
        (Refreshed::Slot, 10_000),
        (Refreshed::Leaders, 15 * 60 * 1000),
        (Refreshed::TpuFile, 5 * 60 * 1000),
    ] {
        assert_eq!(next_refresh(what, RefreshEvent::Started), RefreshAction::Fetch);
        assert_eq!(next_refresh(what, RefreshEvent::Fetched), RefreshAction::Wait { millis });
        assert_eq!(next_refresh(what, RefreshEvent::Waited), RefreshAction::Fetch);
    }
}
