//! The random choice of commands, and the transactions that are made of them.

use hammer::accounts::{Account, Accounts};
use hammer::command_accounts::{AccountMeta, CommandAccounts};
use hammer::cpi::{make_cpi, wrap_instruction, wrap_some};
use hammer::draws::{pick_index, random_chance, Draws};
use hammer::generate::{
    iterations_for, list_possible_kinds, make_command, AllocatedIndices, CommandKind,
    FAIL_COMMAND_CHANCE_DENOMINATOR, FAIL_COMMAND_CHANCE_NUMERATOR,
};
use hammer::instructions::{add_contention, group_commands, take_group, Instruction};
use hammer::plan::{budget_for, plan_commands, BudgetExceeded, PlannedCommand};
use hammer::pubkey::Pubkey;
use hammer::transaction::build_transaction;

// A draw on which no command fails, and one on which one does.
const NO_FAIL: u32 = u32::MAX;
const FAIL: u32 = 0;

// A draw on which no other instruction is wrapped, and one on which one is.
const STOP: u32 = 0;
const GO_ON: u32 = u32::MAX;

fn key(b: u8) -> Pubkey {
    Pubkey { bytes: [b; 32] }
}

fn pool(n: u8) -> Accounts {
    let mut accounts = Accounts::new();
    for b in 0..n {
        accounts.add_new_account(Account { address: key(100 + b), seed: vec![], size: 100 });
    }
    accounts
}

fn planned(data: Vec<u8>, compute_units: u32) -> PlannedCommand {
    PlannedCommand { data, accounts: CommandAccounts::new(), compute_units }
}

fn chance_by_floats(draw: u32, pct: f32) -> bool {
    ((draw as f64) / (u32::MAX as f64)) < (pct as f64)
}

fn chance(draw: u32, numerator: u64, denominator: u64) -> bool {
    random_chance(&mut Draws::replay(vec![draw]), numerator, denominator)
}

#[test]
fn given_numbers_come_first() {
    let mut rng = Draws::replay(vec![3, 1]);
    assert_eq!(rng.next_u32(), 3);
    assert_eq!(rng.next_u32(), 1);
    rng.next_u32();
}

#[test]
fn random_numbers_differ() {
    let mut rng = Draws::new();
    let first = rng.next_u32();
    let others: Vec<u32> = (0..64).map(|_| rng.next_u32()).collect();
    assert!(others.iter().any(|n| *n != first));
}

#[test]
fn chances_are_those_of_the_floats() {
    let mut draws: Vec<u32> = vec![0, 1, u32::MAX, u32::MAX - 1];
    draws.extend(4_294_900..4_295_100);
    draws.extend(3_221_225_400..3_221_225_500);
    draws.extend((0..5000).map(|i: u32| i.wrapping_mul(2_654_435_761)));
    for draw in draws {
        assert_eq!(
            chance(draw, FAIL_COMMAND_CHANCE_NUMERATOR, FAIL_COMMAND_CHANCE_DENOMINATOR),
            chance_by_floats(draw, 0.001)
        );
        assert_eq!(chance(draw, 3, 4), chance_by_floats(draw, 0.75));
    }
}

#[test]
fn picks_are_remainders() {
    let mut rng = Draws::replay(vec![7, u32::MAX]);
    assert_eq!(pick_index(&mut rng, 3), 1);
    assert_eq!(pick_index(&mut rng, 256), 255);
}

#[test]
fn possible_kinds_depend_on_budget_and_allocations() {
    let (cpu, alloc) = (CommandKind::Cpu, CommandKind::Alloc);
    let (free, sysvar) = (CommandKind::Free, CommandKind::Sysvar);
    assert_eq!(list_possible_kinds(99, 1), vec![]);
    assert_eq!(list_possible_kinds(100, 0), vec![alloc]);
    assert_eq!(list_possible_kinds(100, 1), vec![alloc, free]);
    assert_eq!(list_possible_kinds(100, 256), vec![free]);
    assert_eq!(list_possible_kinds(499, 0), vec![alloc]);
    assert_eq!(list_possible_kinds(500, 0), vec![alloc, sysvar]);
    assert_eq!(list_possible_kinds(4999, 255), vec![alloc, free, sysvar]);
    assert_eq!(list_possible_kinds(5000, 0), vec![cpu, alloc, sysvar]);
}

#[test]
fn iterations_lie_around_half() {
    assert_eq!(iterations_for(100_000, 3, 0), 14);
    assert_eq!(iterations_for(100_000, 3, 1), 6);
    assert_eq!(iterations_for(100_000, 9, 1), 0);
    assert_eq!(iterations_for(5000, 0, 0), 2);
    assert_eq!(iterations_for(5000, 0, 1), 0);
}

#[test]
fn a_failing_command() {
    let mut indices = AllocatedIndices::new();
    let mut rng = Draws::replay(vec![FAIL, 254, FAIL, 255, 9]);
    assert_eq!(make_command(&mut rng, &mut indices, 10), (vec![7, 255], 1000));
    assert_eq!(make_command(&mut rng, &mut indices, 5000), (vec![7, 1], 1000));
    assert_eq!(rng.next_u32(), 9);
}

#[test]
fn an_idle_command_takes_the_budget() {
    let mut indices = AllocatedIndices::new();
    let mut rng = Draws::replay(vec![NO_FAIL, 9]);
    assert_eq!(make_command(&mut rng, &mut indices, 99), (vec![], 99));
    assert_eq!(rng.next_u32(), 9);
}

#[test]
fn a_cpu_command() {
    let mut indices = AllocatedIndices::new();
    let mut rng = Draws::replay(vec![NO_FAIL, 0, 3, 0]);
    assert_eq!(make_command(&mut rng, &mut indices, 100_000), (vec![2, 14, 0, 0, 0], 70_000));
}

#[test]
fn allocations_are_under_the_first_free_index() {
    let mut indices = AllocatedIndices::new();
    let mut rng = Draws::replay(vec![NO_FAIL, 0, 999, NO_FAIL, 0, 1000, NO_FAIL, 1, 0, NO_FAIL, 0, 7]);
    assert_eq!(make_command(&mut rng, &mut indices, 400), (vec![3, 232, 3, 0, 0, 0], 100));
    assert_eq!(make_command(&mut rng, &mut indices, 400), (vec![3, 1, 0, 0, 0, 1], 100));
    assert_eq!(indices.len(), 2);
    assert_eq!(make_command(&mut rng, &mut indices, 400), (vec![4, 0], 100));
    assert!(!indices.contains(0));
    assert!(indices.contains(1));
    assert_eq!(make_command(&mut rng, &mut indices, 400), (vec![3, 8, 0, 0, 0, 0], 100));
    assert_eq!(indices.len(), 2);
}

#[test]
fn every_index_can_be_allocated() {
    let mut indices = AllocatedIndices::new();
    for index in 0..=255u8 {
        assert_eq!(indices.first_free(), index);
        indices.insert(index);
    }
    assert_eq!(indices.len(), 256);
    let mut rng = Draws::replay(vec![NO_FAIL, 0, 256]);
    assert_eq!(make_command(&mut rng, &mut indices, 100), (vec![4, 0], 100));
    assert_eq!(indices.first_free(), 0);
    assert_eq!(indices.nth(0), 1);
}

#[test]
fn a_sysvar_command() {
    let mut indices = AllocatedIndices::new();
    let mut rng = Draws::replay(vec![NO_FAIL, 1]);
    assert_eq!(make_command(&mut rng, &mut indices, 500), (vec![6], 500));
}

#[test]
fn budgets_are_in_three_classes() {
    assert_eq!(budget_for(0, 0), 5000);
    assert_eq!(budget_for(3, 39_999), 44_999);
    assert_eq!(budget_for(0, 40_000), 5000);
    assert_eq!(budget_for(1, 0), 45_000);
    assert_eq!(budget_for(4, 1_059_999), 1_104_999);
    assert_eq!(budget_for(2, 0), 1_105_000);
    assert_eq!(budget_for(2, 299_999), 1_404_999);
    assert_eq!(budget_for(2, 300_000), 1_105_000);
}

#[test]
fn a_plan_spends_its_budget() {
    let mut rng = Draws::replay(vec![NO_FAIL, 1, NO_FAIL, 0, 4, NO_FAIL]);
    let plan = plan_commands(&mut rng, 650).unwrap();
    let commands: Vec<(Vec<u8>, u32)> =
        plan.into_iter().map(|c| (c.data, c.compute_units)).collect();
    assert_eq!(commands, vec![(vec![6], 500), (vec![3, 5, 0, 0, 0, 0], 100), (vec![], 50)]);
}

#[test]
fn an_empty_budget_has_an_empty_plan() {
    let mut rng = Draws::replay(vec![4]);
    assert_eq!(plan_commands(&mut rng, 0).unwrap().len(), 0);
    assert_eq!(rng.next_u32(), 4);
}

#[test]
fn a_plan_ends_when_there_are_bytes_enough() {
    // Two allocations and two releases take 16 bytes and 400 compute units.
    let mut draws = vec![];
    for _ in 0..100 {
        draws.extend([NO_FAIL, 1, 0, NO_FAIL, 1, 0, NO_FAIL, 2, 0, NO_FAIL, 2, 0]);
    }
    let mut rng = Draws::replay(draws);
    let plan = plan_commands(&mut rng, 1_000_000).unwrap();
    let size: usize = plan.iter().map(|c| c.data.len()).sum();
    assert_eq!(size, 1100);
    assert_eq!(plan.len(), 274);
}

#[test]
fn a_command_can_take_more_than_is_left() {
    let mut rng = Draws::replay(vec![NO_FAIL, 0, 0, 0]);
    assert_eq!(
        plan_commands(&mut rng, 5000).err(),
        Some(BudgetExceeded { budget: 5000, cost: 10_000 })
    );
    let mut rng = Draws::replay(vec![FAIL, 0]);
    assert_eq!(
        plan_commands(&mut rng, 999).err(),
        Some(BudgetExceeded { budget: 999, cost: 1000 })
    );
}

#[test]
fn a_group_takes_its_commands_in_order() {
    let mut commands = vec![planned(vec![1], 10), planned(vec![2, 3], 10), planned(vec![4], 10)];
    let (data, accounts) = take_group(&mut commands, 2);
    assert_eq!(data, vec![1, 2, 3]);
    assert_eq!(accounts.count(), 0);
    assert_eq!(commands.len(), 1);
    assert_eq!(commands[0].data, vec![4]);
}

#[test]
fn a_group_drops_the_command_that_is_too_much() {
    let mut commands =
        vec![planned(vec![1], 1_000_000), planned(vec![2], 400_001), planned(vec![3], 1)];
    let (data, _) = take_group(&mut commands, 3);
    assert_eq!(data, vec![1]);
    assert_eq!(commands.len(), 1);
    assert_eq!(commands[0].data, vec![3]);
    let mut commands = vec![planned(vec![1], 1_000_000), planned(vec![2], 400_000)];
    let (data, _) = take_group(&mut commands, 2);
    assert_eq!(data, vec![1, 2]);
}

#[test]
fn a_group_gathers_the_accounts_of_its_commands() {
    let mut first = planned(vec![1], 1);
    first.accounts.add(&key(1), false, true);
    let mut second = planned(vec![2], 1);
    second.accounts.add(&key(1), true, false);
    second.accounts.add(&key(2), false, false);
    let (_, accounts) = take_group(&mut vec![first, second], 2);
    assert_eq!(
        accounts.get_account_metas(),
        vec![AccountMeta::new(key(1), true), AccountMeta::new_readonly(key(2), false)]
    );
}

#[test]
fn contention_reads_some_accounts_and_writes_others() {
    // Five accounts, two of them only read.
    let mut rng = Draws::replay(vec![5, 2, 0, 1, 1, 2, 3, 9]);
    let mut accounts = CommandAccounts::new();
    add_contention(&mut rng, &pool(4), &mut accounts);
    assert_eq!(
        accounts.get_account_metas(),
        vec![
            AccountMeta::new_readonly(key(100), false),
            AccountMeta::new(key(101), false),
            AccountMeta::new(key(102), false),
            AccountMeta::new(key(103), false),
        ]
    );
    assert_eq!(rng.next_u32(), 9);
}

#[test]
fn contention_can_add_nothing() {
    let mut rng = Draws::replay(vec![12, 9]);
    let mut accounts = CommandAccounts::new();
    add_contention(&mut rng, &pool(4), &mut accounts);
    assert_eq!(accounts.count(), 0);
    assert_eq!(rng.next_u32(), 9);
}

#[test]
fn contention_leaves_full_lists_alone() {
    let mut accounts = CommandAccounts::new();
    for b in 0..12 {
        accounts.add(&key(b), false, false);
    }
    let mut rng = Draws::replay(vec![9]);
    add_contention(&mut rng, &pool(4), &mut accounts);
    assert_eq!(accounts.count(), 12);
    assert_eq!(rng.next_u32(), 9);
}

#[test]
fn contention_needs_accounts() {
    let mut rng = Draws::replay(vec![5, 2, 9]);
    let mut accounts = CommandAccounts::new();
    add_contention(&mut rng, &pool(0), &mut accounts);
    assert_eq!(accounts.count(), 0);
    assert_eq!(rng.next_u32(), 9);
}

#[test]
fn commands_are_grouped_into_instructions() {
    // Two commands, no accounts; then one, with one account that is written.
    let mut rng = Draws::replay(vec![1, 0, 0, 1, 0, 0, 9]);
    let commands = vec![planned(vec![1], 1), planned(vec![2], 1), planned(vec![3], 1)];
    let made = group_commands(&mut rng, commands, &key(1), &pool(1));
    assert_eq!(
        made,
        vec![
            Instruction { program_id: key(1), accounts: vec![], data: vec![1, 2] },
            Instruction {
                program_id: key(1),
                accounts: vec![AccountMeta::new(key(100), false)],
                data: vec![3],
            },
        ]
    );
    assert_eq!(rng.next_u32(), 9);
}

#[test]
fn empty_commands_make_no_instruction() {
    let mut rng = Draws::replay(vec![0, 9]);
    let made = group_commands(&mut rng, vec![planned(vec![], 50)], &key(1), &pool(1));
    assert_eq!(made, vec![]);
    assert_eq!(rng.next_u32(), 9);
}

#[test]
fn an_instruction_is_wrapped() {
    let inner = Instruction {
        program_id: key(1),
        accounts: vec![AccountMeta::new(key(3), false)],
        data: vec![8],
    };
    let wrapped = wrap_instruction(&inner, &key(2));
    let mut data = vec![5];
    data.extend([2; 32]);
    data.push(1);
    data.extend([3; 32]);
    data.extend([1, 0, 1, 0, 8, 0]);
    assert_eq!(wrapped.data, data);
    assert_eq!(wrapped.program_id, key(2));
    assert_eq!(
        wrapped.accounts,
        vec![AccountMeta::new_readonly(key(2), false), AccountMeta::new(key(3), false)]
    );
    let mut rng = Draws::replay(vec![3]);
    assert_eq!(make_cpi(&mut rng, &inner, &vec![key(1), key(2)]), wrapped);
}

#[test]
fn another_program_is_called() {
    let programs = vec![key(1), key(2), key(3)];
    for own in 1..4 {
        let inner = Instruction { program_id: key(own), accounts: vec![], data: vec![6] };
        for draw in [0, 1, 2, 3, u32::MAX] {
            let mut rng = Draws::replay(vec![draw, 9]);
            let wrapped = make_cpi(&mut rng, &inner, &programs);
            assert_ne!(wrapped.program_id, key(own));
            assert!(programs.contains(&wrapped.program_id));
            assert_eq!(rng.next_u32(), 9);
        }
    }
    let inner = Instruction { program_id: key(2), accounts: vec![], data: vec![6] };
    let called = |draw| make_cpi(&mut Draws::replay(vec![draw]), &inner, &programs).program_id;
    assert_eq!(called(0), key(1));
    assert_eq!(called(1), key(3));
    assert_eq!(called(2), key(1));
}

#[test]
fn a_program_alone_calls_itself() {
    let inner = Instruction { program_id: key(1), accounts: vec![], data: vec![6] };
    let mut rng = Draws::replay(vec![5]);
    assert_eq!(make_cpi(&mut rng, &inner, &vec![key(1)]).program_id, key(1));
}

#[test]
fn instructions_are_wrapped_until_a_draw_says_stop() {
    let simple = || Instruction { program_id: key(1), accounts: vec![], data: vec![6] };
    let programs = vec![key(1), key(2)];
    let mut instructions = vec![simple(), simple()];
    let mut rng = Draws::replay(vec![GO_ON, 1, 1, GO_ON, 1, 0, STOP, 9]);
    wrap_some(&mut rng, &mut instructions, &programs);
    assert_eq!(instructions[0], simple());
    let once = wrap_instruction(&simple(), &key(2));
    assert_eq!(instructions[1], wrap_instruction(&once, &key(1)));
    assert_eq!(rng.next_u32(), 9);
}

#[test]
fn a_single_program_is_not_wrapped() {
    let mut instructions =
        vec![Instruction { program_id: key(1), accounts: vec![], data: vec![6] }];
    let mut rng = Draws::replay(vec![GO_ON, 0, 0]);
    wrap_some(&mut rng, &mut instructions, &vec![key(1)]);
    assert_eq!(instructions[0].data, vec![6]);
    assert_eq!(rng.next_u32(), GO_ON);
}

#[test]
fn a_whole_transaction() {
    // The second program, and a budget of 5000 that is spent on the system variables.
    let mut draws = vec![1, 0, 0];
    draws.extend([NO_FAIL, 2]);
    for _ in 0..8 {
        draws.extend([NO_FAIL, 1]);
    }
    draws.extend([NO_FAIL, 1]);
    // One group of all ten commands, without accounts; nothing is wrapped.
    draws.extend([9, 0, STOP, 77]);
    let mut rng = Draws::replay(draws);
    let built = build_transaction(&mut rng, &vec![key(1), key(2)], &pool(2)).unwrap();
    assert_eq!(
        built,
        vec![Instruction { program_id: key(2), accounts: vec![], data: vec![6; 10] }]
    );
    assert_eq!(rng.next_u32(), 77);
}

#[test]
fn a_transaction_can_exceed_its_budget() {
    let mut rng = Draws::replay(vec![0, 0, 0, NO_FAIL, 0, 0, 0]);
    assert_eq!(
        build_transaction(&mut rng, &vec![key(1)], &pool(0)).err(),
        Some(BudgetExceeded { budget: 5000, cost: 10_000 })
    );
}

#[test]
fn random_transactions_call_the_programs() {
    let programs = vec![key(1), key(2), key(3)];
    let accounts = pool(20);
    let mut rng = Draws::new();
    for _ in 0..200 {
        if let Ok(instructions) = build_transaction(&mut rng, &programs, &accounts) {
            for instruction in instructions {
                assert!(programs.contains(&instruction.program_id));
                assert!(!instruction.data.is_empty());
            }
        }
    }
}

#[test]
fn random_transactions_touch_the_pool() {
    let accounts = pool(20);
    let in_pool = |k: &Pubkey| (100..120).any(|b| *k == key(b));
    let mut rng = Draws::new();
    for programs in [vec![key(1)], vec![key(1), key(2), key(3)]] {
        for _ in 0..200 {
            let built = build_transaction(&mut rng, &programs, &accounts);
            for instruction in built.unwrap_or_default() {
                let metas = &instruction.accounts;
                for (i, meta) in metas.iter().enumerate() {
                    assert!(!meta.is_signer);
                    assert!(metas[..i].iter().all(|m| m.pubkey != meta.pubkey));
                    assert!(in_pool(&meta.pubkey) || programs.contains(&meta.pubkey));
                    assert!(programs.len() > 1 || in_pool(&meta.pubkey));
                }
                assert!(programs.len() > 1 || metas.len() < 12);
            }
        }
    }
}
