//! Who has to sign a transaction: the one who pays for it, and no one else.

use vstd::prelude::*;

use crate::accounts::AccountView;
use crate::command_accounts::{
    distinct_accounts, has_account, metas_of, use_is_recorded, with_account, with_accounts,
    AccountMeta, CommandAccount,
};
use crate::commands::{entries_accumulate, with_metas};
use crate::cpi::{
    called_program, cpi_of, wrapping_of, STOP_CHANCE_DENOMINATOR, STOP_CHANCE_NUMERATOR,
};
use crate::draws::{happens, pick};
use crate::instructions::{
    contended, contended_draws, contention_counts, contention_draws, count_draws, first_group,
    group_instruction, group_of, grouping_of, lemma_first_group_progress, with_contention,
    InstructionView, MAX_INSTRUCTION_COMPUTE_UNITS,
};
use crate::message::{instruction_keys, message_keys, signer_count};
use crate::plan::{chosen_budget, plan_of, plan_respects_limits, PlannedView};
use crate::pubkey::{pubkey_with, Pubkey};
use crate::transaction::transaction_of;

verus! {

/// None of the accounts signs.
pub open spec fn unsigned_accounts(accounts: Seq<CommandAccount>) -> bool {
    forall|i: int| 0 <= i < accounts.len() ==> !(#[trigger] accounts[i]).is_signer
}

/// None of the entries of an instruction is of an account that signs.
pub open spec fn unsigned_metas(metas: Seq<AccountMeta>) -> bool {
    forall|i: int| 0 <= i < metas.len() ==> !(#[trigger] metas[i]).is_signer
}

/// None of the instructions asks for a signature.
pub open spec fn unsigned_instructions(instructions: Seq<InstructionView>) -> bool {
    forall|i: int|
        0 <= i < instructions.len() ==> unsigned_metas((#[trigger] instructions[i]).accounts)
}

/// None of the commands asks for a signature.
spec fn unsigned_commands(commands: Seq<PlannedView>) -> bool {
    forall|i: int|
        0 <= i < commands.len() ==> unsigned_accounts((#[trigger] commands[i]).accounts)
}

/// A use that does not sign makes no account sign.
proof fn lemma_use_unsigned(accounts: Seq<CommandAccount>, address: Pubkey, is_write: bool)
    requires
        unsigned_accounts(accounts),
    ensures
        unsigned_accounts(with_account(accounts, address, is_write, false)),
{
}

/// Uses that do not sign make no account sign.
proof fn lemma_uses_unsigned(accounts: Seq<CommandAccount>, more: Seq<CommandAccount>)
    requires
        unsigned_accounts(accounts),
        unsigned_accounts(more),
    ensures
        unsigned_accounts(with_accounts(accounts, more)),
    decreases more.len(),
{
    if more.len() > 0 {
        let shorter = more.drop_last();
        assert forall|i: int| 0 <= i < shorter.len() implies !(#[trigger] shorter[i]).is_signer by {
            assert(shorter[i] == more[i]);
        }
        lemma_uses_unsigned(accounts, shorter);
        let last = more.last();
        assert(!more[more.len() - 1].is_signer);
        lemma_use_unsigned(with_accounts(accounts, shorter), last.address, last.is_write);
    }
}

/// Entries of accounts that do not sign make no account sign.
proof fn lemma_metas_unsigned(accounts: Seq<CommandAccount>, metas: Seq<AccountMeta>)
    requires
        unsigned_accounts(accounts),
        unsigned_metas(metas),
    ensures
        unsigned_accounts(with_metas(accounts, metas)),
    decreases metas.len(),
{
    if metas.len() > 0 {
        let shorter = metas.drop_last();
        assert forall|i: int| 0 <= i < shorter.len() implies !(#[trigger] shorter[i]).is_signer by {
            assert(shorter[i] == metas[i]);
        }
        lemma_metas_unsigned(accounts, shorter);
        let last = metas.last();
        assert(!metas[metas.len() - 1].is_signer);
        lemma_use_unsigned(with_metas(accounts, shorter), last.pubkey, last.is_writable);
    }
}

/// Accounts from the pool do not sign.
proof fn lemma_contended_unsigned(
    d: Seq<u32>,
    pool: Seq<AccountView>,
    accounts: Seq<CommandAccount>,
    n: nat,
    is_write: bool,
)
    requires
        unsigned_accounts(accounts),
    ensures
        unsigned_accounts(contended(d, pool, accounts, n, is_write)),
    decreases n,
{
    if n > 0 && pool.len() > 0 {
        let address = pubkey_with(pool[pick(d[0], pool.len() as int)].address);
        lemma_use_unsigned(accounts, address, is_write);
        lemma_contended_unsigned(
            d.skip(1),
            pool,
            with_account(accounts, address, is_write, false),
            (n - 1) as nat,
            is_write,
        );
    }
}

/// Accounts that are added for contention do not sign.
proof fn lemma_contention_unsigned(
    d: Seq<u32>,
    pool: Seq<AccountView>,
    accounts: Seq<CommandAccount>,
)
    requires
        unsigned_accounts(accounts),
    ensures
        unsigned_accounts(with_contention(d, pool, accounts)),
{
    let (read_only, read_write) = contention_counts(d, accounts.len());
    let after_counts = d.skip(count_draws(d, accounts.len()) as int);
    let after_reads = after_counts.skip(contended_draws(pool, read_only) as int);
    lemma_contended_unsigned(after_counts, pool, accounts, read_only, false);
    lemma_contended_unsigned(
        after_reads,
        pool,
        contended(after_counts, pool, accounts, read_only, false),
        read_write,
        true,
    );
}

/// A group of commands that ask for no signature asks for none.
proof fn lemma_group_unsigned(
    commands: Seq<PlannedView>,
    count: nat,
    units: int,
    data: Seq<u8>,
    accounts: Seq<CommandAccount>,
)
    requires
        unsigned_commands(commands),
        unsigned_accounts(accounts),
    ensures
        unsigned_accounts(group_of(commands, count, units, data, accounts).accounts),
    decreases count,
{
    if count > 0 && commands.len() > 0 {
        let next = commands[0];
        if units + next.compute_units <= MAX_INSTRUCTION_COMPUTE_UNITS {
            let rest = commands.drop_first();
            assert forall|i: int| 0 <= i < rest.len() implies unsigned_accounts(
                (#[trigger] rest[i]).accounts,
            ) by {
                assert(rest[i] == commands[i + 1]);
            }
            lemma_uses_unsigned(accounts, next.accounts);
            lemma_group_unsigned(
                rest,
                (count - 1) as nat,
                units + next.compute_units,
                data + next.data,
                with_accounts(accounts, next.accounts),
            );
        }
    }
}

/// Instructions that come of commands that ask for no signature ask for none.
proof fn lemma_grouping_unsigned(
    d: Seq<u32>,
    commands: Seq<PlannedView>,
    program_id: Pubkey,
    pool: Seq<AccountView>,
)
    requires
        unsigned_commands(commands),
    ensures
        unsigned_instructions(grouping_of(d, commands, program_id, pool).instructions),
    decreases commands.len(),
{
    if commands.len() > 0 {
        lemma_first_group_progress(d[0], commands);
        let group = first_group(d[0], commands);
        lemma_group_unsigned(
            commands,
            (pick(d[0], commands.len() as int) + 1) as nat,
            0,
            Seq::empty(),
            Seq::empty(),
        );
        let taken = commands.len() - group.rest.len();
        assert forall|i: int| 0 <= i < group.rest.len() implies unsigned_accounts(
            (#[trigger] group.rest[i]).accounts,
        ) by {
            assert(group.rest[i] == commands[i + taken]);
        }
        let more = d.skip(1);
        if group.data.len() == 0 {
            lemma_grouping_unsigned(more, group.rest, program_id, pool);
        } else {
            let n = contention_draws(more, pool, group.accounts.len());
            lemma_grouping_unsigned(more.skip(n as int), group.rest, program_id, pool);
            lemma_contention_unsigned(more, pool, group.accounts);
            let first = group_instruction(more, group, program_id, pool);
            let touched = with_contention(more, pool, group.accounts);
            assert forall|i: int| 0 <= i < first.accounts.len() implies !(
            #[trigger] first.accounts[i]).is_signer by {
                assert(!touched[i].is_signer);
            }
            let rest = grouping_of(more.skip(n as int), group.rest, program_id, pool).instructions;
            let all = grouping_of(d, commands, program_id, pool).instructions;
            assert(all == seq![first] + rest);
            assert forall|i: int| 0 <= i < all.len() implies unsigned_metas(
                (#[trigger] all[i]).accounts,
            ) by {
                if i > 0 {
                    assert(all[i] == rest[i - 1]);
                }
            }
        }
    }
}

/// A wrapped instruction asks for no signature if the one inside it asks for none.
proof fn lemma_cpi_unsigned(instruction: InstructionView, program_id: Pubkey)
    requires
        unsigned_metas(instruction.accounts),
    ensures
        unsigned_metas(cpi_of(instruction, program_id).accounts),
{
    let called = with_account(Seq::empty(), program_id, false, false);
    lemma_use_unsigned(Seq::empty(), program_id, false);
    lemma_metas_unsigned(called, instruction.accounts);
    let touched = with_metas(called, instruction.accounts);
    let metas = cpi_of(instruction, program_id).accounts;
    assert(metas == metas_of(touched));
    assert forall|i: int| 0 <= i < metas.len() implies !(#[trigger] metas[i]).is_signer by {
        assert(!touched[i].is_signer);
    }
}

/// Wrapping instructions that ask for no signature makes none ask for one.
proof fn lemma_wrapping_unsigned(
    d: Seq<u32>,
    instructions: Seq<InstructionView>,
    program_ids: Seq<Pubkey>,
)
    requires
        instructions.len() > 0,
        unsigned_instructions(instructions),
    ensures
        unsigned_instructions(wrapping_of(d, instructions, program_ids).instructions),
    decreases d.len(),
{
    if d.len() >= 3 && !happens(d[0], STOP_CHANCE_NUMERATOR, STOP_CHANCE_DENOMINATOR) {
        let index = pick(d[1], instructions.len() as int);
        assert(0 <= index < instructions.len());
        let program_id = called_program(d[2], program_ids, instructions[index].program_id);
        let wrapped = cpi_of(instructions[index], program_id);
        lemma_cpi_unsigned(instructions[index], program_id);
        let next = instructions.update(index, wrapped);
        assert forall|i: int| 0 <= i < next.len() implies unsigned_metas(
            (#[trigger] next[i]).accounts,
        ) by {
            if i != index {
                assert(next[i] == instructions[i]);
            }
        }
        lemma_wrapping_unsigned(d.skip(3), next, program_ids);
    }
}

/// No instruction of a transaction asks for a signature, however the draws fall.
pub proof fn transaction_asks_for_no_signature(
    d: Seq<u32>,
    program_ids: Seq<Pubkey>,
    pool: Seq<AccountView>,
)
    ensures
        transaction_of(d, program_ids, pool).outcome matches Ok(instructions)
            ==> unsigned_instructions(instructions),
{
    let program_id = program_ids[pick(d[0], program_ids.len() as int)];
    let budget = chosen_budget(d[1], d[2]) as u32;
    let d1 = d.skip(3);
    let plan = plan_of(d1, budget, Seq::empty(), 0);
    plan_respects_limits(d1, budget, Seq::empty(), 0);
    let d2 = d1.skip(plan.draws as int);
    let grouping = grouping_of(d2, plan.commands, program_id, pool);
    lemma_grouping_unsigned(d2, plan.commands, program_id, pool);
    let d3 = d2.skip(grouping.draws as int);
    if grouping.instructions.len() > 0 {
        lemma_wrapping_unsigned(d3, grouping.instructions, program_ids);
    }
}

/// No account is listed twice among those that instructions touch, and none signs if
/// no instruction asks for it.
proof fn lemma_keys_unsigned(instructions: Seq<InstructionView>)
    requires
        unsigned_instructions(instructions),
    ensures
        unsigned_accounts(instruction_keys(instructions)),
        distinct_accounts(instruction_keys(instructions)),
    decreases instructions.len(),
{
    if instructions.len() > 0 {
        let shorter = instructions.drop_last();
        let last = instructions.last();
        assert forall|i: int| 0 <= i < shorter.len() implies unsigned_metas(
            (#[trigger] shorter[i]).accounts,
        ) by {
            assert(shorter[i] == instructions[i]);
        }
        lemma_keys_unsigned(shorter);
        assert(unsigned_metas(instructions[instructions.len() - 1].accounts));
        let before = instruction_keys(shorter);
        lemma_use_unsigned(before, last.program_id, false);
        use_is_recorded(before, last.program_id, false, false, last.program_id);
        let called = with_account(before, last.program_id, false, false);
        lemma_metas_unsigned(called, last.accounts);
        entries_accumulate(called, last.accounts, last.program_id);
    }
}

/// Where one account signs, or none, one or none is counted.
proof fn lemma_signers_counted(keys: Seq<CommandAccount>, at: Option<int>)
    requires
        at matches Some(i) ==> 0 <= i < keys.len(),
        forall|i: int|
            0 <= i < keys.len() ==> ((#[trigger] keys[i]).is_signer <==> at == Some(i)),
    ensures
        signer_count(keys) == if at is Some {
            1nat
        } else {
            0nat
        },
    decreases keys.len(),
{
    if keys.len() > 0 {
        let shorter = keys.drop_last();
        let last = keys.len() - 1;
        assert(keys[last].is_signer <==> at == Some(last));
        let before = if at == Some(last) {
            None
        } else {
            at
        };
        assert forall|i: int| 0 <= i < shorter.len() implies ((#[trigger] shorter[i]).is_signer
            <==> before == Some(i)) by {
            assert(shorter[i] == keys[i]);
        }
        lemma_signers_counted(shorter, before);
    }
}

/// A message whose instructions ask for no signature is signed by the one who pays
/// for it, and by no one else.
pub proof fn payer_alone_signs(instructions: Seq<InstructionView>, payer: Pubkey)
    requires
        unsigned_instructions(instructions),
    ensures
        signer_count(message_keys(instructions, payer)) == 1,
        forall|i: int|
            0 <= i < message_keys(instructions, payer).len() ==> ((#[trigger] message_keys(
                instructions,
                payer,
            )[i]).is_signer <==> message_keys(instructions, payer)[i].address == payer),
{
    let before = instruction_keys(instructions);
    let keys = message_keys(instructions, payer);
    lemma_keys_unsigned(instructions);
    if has_account(before, payer) {
        let at = choose|i: int| 0 <= i < before.len() && (#[trigger] before[i]).address == payer;
        assert forall|i: int| 0 <= i < keys.len() implies ((#[trigger] keys[i]).is_signer <==> Some(
            at,
        ) == Some(i)) by {
            assert(!before[i].is_signer);
            if i != at {
                assert(before[i].address != payer);
            }
        }
        lemma_signers_counted(keys, Some(at));
        assert forall|i: int| 0 <= i < keys.len() implies ((#[trigger] keys[i]).is_signer
            <==> keys[i].address == payer) by {
            assert(!before[i].is_signer);
        }
    } else {
        let n = before.len() as int;
        assert forall|i: int| 0 <= i < keys.len() implies ((#[trigger] keys[i]).is_signer <==> Some(
            n,
        ) == Some(i)) by {
            if i < n {
                assert(keys[i] == before[i]);
            }
        }
        lemma_signers_counted(keys, Some(n));
        assert forall|i: int| 0 <= i < keys.len() implies ((#[trigger] keys[i]).is_signer
            <==> keys[i].address == payer) by {
            if i < n {
                assert(keys[i] == before[i]);
                assert(before[i].address != payer);
            }
        }
    }
}

} // verus!
