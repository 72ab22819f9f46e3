//! The accounts to contend for.

use hammer::accounts::{
    add_contention_accounts, contention_account, contention_account_at, Account, Accounts,
};
use hammer::draws::Draws;
use hammer::pubkey::Pubkey;
use std::sync::Arc;

fn account(b: u8, size: u16) -> Account {
    Account { address: Pubkey { bytes: [b; 32] }, seed: vec![b], size }
}

#[test]
fn no_account_is_taken_from_none() {
    let mut accounts = Accounts::new();
    let mut rng = Draws::replay(vec![5]);
    assert_eq!(accounts.count(), 0);
    assert_eq!(accounts.get_random_account(&mut rng), None);
    assert_eq!(accounts.take_random_account(&mut rng), None);
    assert_eq!(rng.next_u32(), 5);
}

#[test]
fn an_account_that_is_added_is_there() {
    let mut accounts = Accounts::new();
    accounts.add_new_account(account(1, 100));
    assert_eq!(accounts.count(), 1);
    let mut rng = Draws::replay(vec![17]);
    assert_eq!(accounts.get_random_account(&mut rng), Some(Arc::new(account(1, 100))));
    assert_eq!(accounts.count(), 1);
}

#[test]
fn an_account_at_the_same_address_is_replaced() {
    let mut accounts = Accounts::new();
    accounts.add_new_account(account(1, 100));
    accounts.add_existing_account(Arc::new(account(1, 200)));
    assert_eq!(accounts.count(), 1);
    let mut rng = Draws::replay(vec![0]);
    assert_eq!(accounts.get_random_account(&mut rng), Some(Arc::new(account(1, 200))));
}

#[test]
fn the_draw_picks_the_account() {
    let mut accounts = Accounts::new();
    for b in 0..3 {
        accounts.add_new_account(account(b, 1));
    }
    let mut rng = Draws::replay(vec![4, 4_294_967_295]);
    assert_eq!(accounts.get_random_account(&mut rng), Some(Arc::new(account(1, 1))));
    assert_eq!(accounts.get_random_account(&mut rng), Some(Arc::new(account(0, 1))));
}

#[test]
fn an_account_that_is_taken_is_gone_until_it_is_added_again() {
    let mut accounts = Accounts::new();
    for b in 0..3 {
        accounts.add_new_account(account(b, 1));
    }
    let mut rng = Draws::replay(vec![1, 1]);
    let taken = accounts.take_random_account(&mut rng).unwrap();
    assert_eq!(*taken, account(1, 1));
    assert_eq!(accounts.count(), 2);
    assert_eq!(accounts.get_random_account(&mut rng), Some(Arc::new(account(2, 1))));
    accounts.add_existing_account(taken);
    assert_eq!(accounts.count(), 3);
}

#[test]
fn contention_accounts_are_program_addresses() {
    let program_id = Pubkey { bytes: [3; 32] };
    for index in [0u32, 1, 300] {
        let seed = &(index as u64).to_le_bytes()[0..7];
        let (address, bump) = solana_sdk::pubkey::Pubkey::find_program_address(
            &[seed],
            &solana_sdk::pubkey::Pubkey::new_from_array(program_id.bytes),
        );
        let made = contention_account(&program_id, index).unwrap();
        assert_eq!(made.address.bytes, address.to_bytes());
        let mut expected_seed = seed.to_vec();
        expected_seed.push(bump);
        assert_eq!(made, Account { address: made.address, seed: expected_seed, size: 100 });
    }
}

#[test]
fn contention_account_holds_its_seed() {
    let address = Pubkey { bytes: [4; 32] };
    let made = contention_account_at(0x0102_0304, address, 254);
    assert_eq!(made, Account { address, seed: vec![4, 3, 2, 1, 0, 0, 0, 254], size: 100 });
}

#[test]
fn contention_accounts_are_all_added() {
    let mut accounts = Accounts::new();
    assert!(add_contention_accounts(&mut accounts, &Pubkey { bytes: [3; 32] }, 20));
    assert_eq!(accounts.count(), 20);
    assert!(add_contention_accounts(&mut accounts, &Pubkey { bytes: [3; 32] }, 10));
    assert_eq!(accounts.count(), 20);
}
