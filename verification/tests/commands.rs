//! The bytes of commands, and the accounts that commands touch.

use hammer::accounts::Account;
use hammer::bytes::{write_byte, write_le};
use hammer::command_accounts::{AccountMeta, CommandAccounts};
use hammer::commands::{
    add_alloc_command, add_cpi_command, add_cpu_command, add_create_account_command,
    add_delete_account_command, add_fail_command, add_free_command, add_sysvar_command,
    system_program,
};
use hammer::pubkey::Pubkey;

fn key(b: u8) -> Pubkey {
    Pubkey { bytes: [b; 32] }
}

#[test]
fn bytes_are_appended() {
    let mut w = vec![9];
    hammer::bytes::write(&mut w, &[1, 2]);
    write_byte(&mut w, 3);
    write_le(&mut w, 0x0102_0304_0506_0708, 8);
    write_le(&mut w, 0x1234_5678, 2);
    assert_eq!(w, vec![9, 1, 2, 3, 8, 7, 6, 5, 4, 3, 2, 1, 0x78, 0x56]);
}

#[test]
fn cpu_command_bytes() {
    let mut w = vec![];
    add_cpu_command(0x0102_0304, &mut w);
    assert_eq!(w, vec![2, 4, 3, 2, 1]);
}

#[test]
fn alloc_and_free_command_bytes() {
    let mut w = vec![];
    add_alloc_command(1000, 7, &mut w);
    add_free_command(7, &mut w);
    assert_eq!(w, vec![3, 232, 3, 0, 0, 7, 4, 7]);
}

#[test]
fn sysvar_and_fail_command_bytes() {
    let mut w = vec![];
    add_sysvar_command(&mut w);
    add_fail_command(255, &mut w);
    assert_eq!(w, vec![6, 7, 255]);
}

#[test]
fn create_account_command_bytes() {
    let account = Account { address: key(2), seed: vec![5, 6], size: 0x0102 };
    let mut accounts = CommandAccounts::new();
    let mut w = vec![];
    add_create_account_command(&key(1), &account, &mut accounts, &mut w);
    let mut expected = vec![0];
    expected.extend([1; 32]);
    expected.extend([2; 32]);
    expected.extend([5, 6, 2, 1]);
    assert_eq!(w, expected);
    assert_eq!(
        accounts.get_account_metas(),
        vec![
            AccountMeta::new(key(1), true),
            AccountMeta::new(key(2), false),
            AccountMeta::new_readonly(system_program(), false),
        ]
    );
}

#[test]
fn delete_account_command_bytes() {
    let account = Account { address: key(2), seed: vec![5, 6], size: 10 };
    let mut accounts = CommandAccounts::new();
    let mut w = vec![];
    add_delete_account_command(&key(1), &account, &mut accounts, &mut w);
    let mut expected = vec![1];
    expected.extend([1; 32]);
    expected.extend([2; 32]);
    assert_eq!(w, expected);
    assert_eq!(accounts.count(), 3);
}

#[test]
fn cpi_command_bytes() {
    let metas = vec![AccountMeta::new(key(2), true), AccountMeta::new_readonly(key(3), false)];
    let mut accounts = CommandAccounts::new();
    let mut w = vec![];
    add_cpi_command(&key(1), &metas, &vec![8, 9], &Some(vec![4]), &mut accounts, &mut w);
    let mut expected = vec![5];
    expected.extend([1; 32]);
    expected.push(2);
    expected.extend([2; 32]);
    expected.extend([1, 1]);
    expected.extend([3; 32]);
    expected.extend([0, 0]);
    expected.extend([2, 0, 8, 9, 1, 4]);
    assert_eq!(w, expected);
    assert_eq!(
        accounts.get_account_metas(),
        vec![
            AccountMeta::new_readonly(key(1), false),
            AccountMeta::new(key(2), true),
            AccountMeta::new_readonly(key(3), false),
        ]
    );
}

#[test]
fn cpi_command_without_a_seed_has_an_empty_one() {
    let mut accounts = CommandAccounts::new();
    let mut w = vec![];
    add_cpi_command(&key(1), &vec![], &vec![], &None, &mut accounts, &mut w);
    let mut expected = vec![5];
    expected.extend([1; 32]);
    expected.extend([0, 0, 0, 0]);
    assert_eq!(w, expected);
}

#[test]
fn cpi_lengths_lose_their_high_order_bytes() {
    let metas = vec![AccountMeta::new(key(2), false); 257];
    let data = vec![1; 65537];
    let mut accounts = CommandAccounts::new();
    let mut w = vec![];
    add_cpi_command(&key(1), &metas, &data, &None, &mut accounts, &mut w);
    assert_eq!(w[33], 1);
    let at = 34 + 257 * 34;
    assert_eq!(w[at..at + 2], [1, 0]);
    assert_eq!(w.len(), at + 2 + 65537 + 1);
    assert_eq!(accounts.count(), 2);
}

#[test]
fn uses_of_an_account_add_up() {
    let mut accounts = CommandAccounts::new();
    accounts.add(&key(1), false, false);
    accounts.add(&key(2), false, true);
    accounts.add(&key(1), true, false);
    accounts.add(&key(1), false, true);
    assert_eq!(accounts.count(), 2);
    assert_eq!(
        accounts.get_account_metas(),
        vec![AccountMeta::new(key(1), true), AccountMeta::new_readonly(key(2), true)]
    );
}

#[test]
fn a_use_that_is_there_changes_nothing() {
    let mut accounts = CommandAccounts::new();
    accounts.add(&key(1), true, true);
    let before = accounts.get_account_metas();
    accounts.add(&key(1), true, true);
    accounts.add(&key(1), false, false);
    assert_eq!(accounts.get_account_metas(), before);
}

#[test]
fn uses_of_another_list_are_added() {
    let mut accounts = CommandAccounts::new();
    accounts.add(&key(1), false, false);
    let mut other = CommandAccounts::new();
    other.add(&key(2), true, false);
    other.add(&key(1), true, false);
    accounts.add_command_accounts(&other);
    assert_eq!(
        accounts.get_account_metas(),
        vec![AccountMeta::new(key(1), false), AccountMeta::new(key(2), false)]
    );
    assert_eq!(other.count(), 2);
}

#[test]
fn entries_of_an_account_are_listed_once() {
    let metas = vec![
        AccountMeta::new_readonly(key(2), true),
        AccountMeta::new(key(1), false),
        AccountMeta::new(key(2), false),
    ];
    let mut accounts = CommandAccounts::new();
    add_cpi_command(&key(1), &metas, &vec![], &None, &mut accounts, &mut vec![]);
    assert_eq!(
        accounts.get_account_metas(),
        vec![AccountMeta::new(key(1), false), AccountMeta::new(key(2), true)]
    );
}
