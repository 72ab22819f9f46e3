//! Messages and signed transactions.

use hammer::accounts::{add_contention_accounts, Accounts};
use hammer::blockhash::Blockhash;
use hammer::command_accounts::AccountMeta;
use hammer::draws::Draws;
use hammer::instructions::Instruction;
use hammer::keypair::Keypair;
use hammer::message::{
    build_message, can_compile, sign_instructions, transfer_lamports, Transfer,
};
use hammer::pubkey::Pubkey;
use hammer::transaction::build_transaction;
use solana_sdk::message::Message;
use solana_sdk::signature::Signer;
use solana_sdk::system_instruction;
use solana_sdk::transaction::Transaction;

fn key(b: u8) -> Pubkey {
    Pubkey { bytes: [b; 32] }
}

fn numbered_key(n: u16) -> Pubkey {
    let mut bytes = [0; 32];
    bytes[0..2].copy_from_slice(&n.to_le_bytes());
    bytes[31] = 1;
    Pubkey { bytes }
}

fn signer(b: u8) -> solana_sdk::signature::Keypair {
    solana_sdk::signer::keypair::keypair_from_seed(&[b; 32]).unwrap()
}

fn keypair(b: u8) -> Keypair {
    Keypair { bytes: signer(b).to_bytes() }
}

fn sdk_instruction(instruction: &Instruction) -> solana_sdk::instruction::Instruction {
    solana_sdk::instruction::Instruction {
        program_id: instruction.program_id.bytes.into(),
        accounts: instruction
            .accounts
            .iter()
            .map(|a| solana_sdk::instruction::AccountMeta {
                pubkey: a.pubkey.bytes.into(),
                is_signer: a.is_signer,
                is_writable: a.is_writable,
            })
            .collect(),
        data: instruction.data.clone(),
    }
}

fn sample_instructions() -> Vec<Instruction> {
    vec![
        Instruction {
            program_id: key(1),
            accounts: vec![AccountMeta::new(key(9), false), AccountMeta::new_readonly(key(8), false)],
            data: vec![6, 6],
        },
        Instruction {
            program_id: key(2),
            accounts: vec![AccountMeta::new(key(8), false)],
            data: vec![7, 1],
        },
    ]
}

#[test]
fn messages_are_those_of_the_sdk() {
    let instructions = sample_instructions();
    let payer = keypair(5).pubkey();
    let sdk: Vec<_> = instructions.iter().map(sdk_instruction).collect();
    let expected = Message::new(&sdk, Some(&payer.bytes.into())).serialize();
    assert_eq!(build_message(&instructions, &payer), Some(expected));
}

#[test]
fn a_header_counts_so_many_readers() {
    let reads = |n: u16| {
        let accounts: Vec<AccountMeta> =
            (0..n).map(|i| AccountMeta::new_readonly(numbered_key(i), false)).collect();
        vec![Instruction { program_id: key(1), accounts, data: vec![6] }]
    };
    let payer = keypair(5).pubkey();
    assert!(can_compile(&reads(254), &payer));
    assert!(build_message(&reads(254), &payer).is_some());
    assert!(!can_compile(&reads(255), &payer));
    assert_eq!(build_message(&reads(255), &payer), None);
}

#[test]
fn a_header_counts_so_many_signers() {
    let signs = |n: u16| {
        let accounts: Vec<AccountMeta> =
            (0..n).map(|i| AccountMeta::new(numbered_key(i), true)).collect();
        vec![Instruction { program_id: key(1), accounts, data: vec![6] }]
    };
    let payer = keypair(5).pubkey();
    assert!(build_message(&signs(254), &payer).is_some());
    assert_eq!(build_message(&signs(255), &payer), None);
}

#[test]
fn lists_have_a_longest_length() {
    let payer = keypair(5).pubkey();
    let long = |n: usize| vec![Instruction { program_id: key(1), accounts: vec![], data: vec![6; n] }];
    assert!(build_message(&long(65535), &payer).is_some());
    assert_eq!(build_message(&long(65536), &payer), None);
}

#[test]
fn an_account_that_is_written_once_is_not_counted_as_read() {
    let mut accounts: Vec<AccountMeta> =
        (0..255).map(|i| AccountMeta::new_readonly(numbered_key(i), false)).collect();
    accounts.push(AccountMeta::new(numbered_key(0), false));
    let instructions = vec![Instruction { program_id: key(1), accounts, data: vec![6] }];
    assert!(build_message(&instructions, &keypair(5).pubkey()).is_some());
}

#[test]
fn transactions_are_those_of_the_sdk() {
    let instructions = sample_instructions();
    let sdk: Vec<_> = instructions.iter().map(sdk_instruction).collect();
    let transaction = Transaction::new(
        &vec![&signer(5)],
        Message::new(&sdk, Some(&signer(5).pubkey())),
        solana_sdk::hash::Hash::new_from_array([3; 32]),
    );
    let signed = sign_instructions(
        &instructions,
        &keypair(5).pubkey(),
        &vec![keypair(5)],
        &Blockhash { bytes: [3; 32] },
    );
    assert_eq!(signed, Some(bincode::serialize(&transaction).unwrap()));
}

#[test]
fn only_the_right_keypairs_sign() {
    let blockhash = Blockhash { bytes: [3; 32] };
    let payer = keypair(5).pubkey();
    let instructions = sample_instructions();
    assert_eq!(sign_instructions(&instructions, &payer, &vec![keypair(6)], &blockhash), None);
    assert_eq!(sign_instructions(&instructions, &payer, &vec![], &blockhash), None);
    let broken = Keypair { bytes: [0; 64] };
    assert_eq!(sign_instructions(&instructions, &payer, &vec![broken], &blockhash), None);
}

#[test]
fn a_transfer_is_a_transaction() {
    let blockhash = Blockhash { bytes: [4; 32] };
    let target = key(9);
    let transaction = Transaction::new(
        &vec![&signer(5), &signer(6)],
        Message::new(
            &[system_instruction::transfer(&signer(6).pubkey(), &target.bytes.into(), 1234)],
            Some(&signer(5).pubkey()),
        ),
        solana_sdk::hash::Hash::new_from_array(blockhash.bytes),
    );
    let transfer = transfer_lamports(&keypair(5), &keypair(6), &target, 1234, &blockhash);
    assert_eq!(transfer, Transfer::Send(bincode::serialize(&transaction).unwrap()));
}

#[test]
fn the_source_can_pay_for_its_transfer() {
    let blockhash = Blockhash { bytes: [4; 32] };
    let transaction = Transaction::new(
        &vec![&signer(6), &signer(6)],
        Message::new(
            &[system_instruction::transfer(&signer(6).pubkey(), &key(9).bytes.into(), 1)],
            Some(&signer(6).pubkey()),
        ),
        solana_sdk::hash::Hash::new_from_array(blockhash.bytes),
    );
    let transfer = transfer_lamports(&keypair(6), &keypair(6), &key(9), 1, &blockhash);
    assert_eq!(transfer, Transfer::Send(bincode::serialize(&transaction).unwrap()));
}

#[test]
fn a_transfer_to_its_source_is_none() {
    let blockhash = Blockhash { bytes: [4; 32] };
    let target = keypair(6).pubkey();
    let transfer = transfer_lamports(&keypair(5), &keypair(6), &target, 1, &blockhash);
    assert_eq!(transfer, Transfer::Nothing);
}

#[test]
fn a_transfer_needs_keypairs_that_sign() {
    let blockhash = Blockhash { bytes: [4; 32] };
    let broken = Keypair { bytes: [0; 64] };
    let transfer = transfer_lamports(&keypair(5), &broken, &key(9), 1, &blockhash);
    assert_eq!(transfer, Transfer::Unsigned);
}

#[test]
fn the_payer_alone_signs_random_transactions() {
    let mut accounts = Accounts::new();
    assert!(add_contention_accounts(&mut accounts, &key(1), 8));
    let payer = keypair(5).pubkey();
    let mut rng = Draws::new();
    for _ in 0..100 {
        if let Ok(instructions) = build_transaction(&mut rng, &vec![key(1), key(2)], &accounts) {
            let message = build_message(&instructions, &payer).unwrap();
            assert_eq!(message[0], 1);
            assert_eq!(message[4..36], payer.bytes);
        }
    }
}
