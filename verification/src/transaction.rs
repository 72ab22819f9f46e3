//! A whole transaction, from the first draw to its instructions.

use vstd::prelude::*;

use crate::accounts::{has_address, proper_addresses, AccountView, Accounts};
use crate::command_accounts::{
    has_account, metas_of, permission, use_is_recorded, with_account, with_accounts, AccountMeta,
    CommandAccount,
};
use crate::commands::{entries_accumulate, with_metas};
use crate::cpi::{
    another_program_is_called, called_program, cpi_of, lemma_wrapping_local, wrap_some,
    wrapping_calls_the_programs, wrapping_of, STOP_CHANCE_DENOMINATOR, STOP_CHANCE_NUMERATOR,
};
use crate::draws::{happens, lemma_follows_transitive, pick, pick_index, Draws};
use crate::instructions::{
    contention_adds_from_pool, contention_draws, first_group, group_commands, group_instruction,
    group_of, grouping_makes_calls, grouping_of, instruction_views, lemma_first_group_progress,
    lemma_grouping_local, with_contention, Instruction, InstructionView, MAX_INSTRUCTION_ACCOUNTS,
    MAX_INSTRUCTION_COMPUTE_UNITS,
};
use crate::plan::{
    budget_covers_a_round, budget_for, budget_is_counted_off, chosen_budget, lemma_plan_local, plan_commands, plan_of,
    plan_respects_limits, planned_views, BudgetExceeded, PlannedView,
};
use crate::pubkey::{pubkey_with, Pubkey};

verus! {

/// What comes of building a transaction: its instructions, or a command that took
/// too much, and the number of draws.
pub ghost struct Built {
    pub outcome: Result<Seq<InstructionView>, BudgetExceeded>,
    pub draws: nat,
}

/// The instructions once some of them are wrapped, if there is more than one
/// program, and the number of draws.
pub open spec fn finished(
    d: Seq<u32>,
    instructions: Seq<InstructionView>,
    program_ids: Seq<Pubkey>,
) -> (Seq<InstructionView>, nat) {
    if program_ids.len() > 1 && instructions.len() > 0 {
        let wrapping = wrapping_of(d, instructions, program_ids);
        (wrapping.instructions, wrapping.draws)
    } else {
        (instructions, 0)
    }
}

/// The transaction that the draws `d` build: the first picks the program, two more
/// set the compute budget, and the others choose the commands, group them into
/// instructions and wrap some of these.
pub open spec fn transaction_of(
    d: Seq<u32>,
    program_ids: Seq<Pubkey>,
    pool: Seq<AccountView>,
) -> Built {
    let program_id = program_ids[pick(d[0], program_ids.len() as int)];
    let budget = chosen_budget(d[1], d[2]) as u32;
    let d1 = d.skip(3);
    let plan = plan_of(d1, budget, Seq::empty(), 0);
    match plan.exceeded {
        Some(e) => Built { outcome: Err(e), draws: 3 + plan.draws },
        None => {
            let d2 = d1.skip(plan.draws as int);
            let grouping = grouping_of(d2, plan.commands, program_id, pool);
            let d3 = d2.skip(grouping.draws as int);
            let (instructions, wrap_draws) = finished(d3, grouping.instructions, program_ids);
            Built {
                outcome: Ok(instructions),
                draws: 3 + plan.draws + grouping.draws + wrap_draws,
            }
        },
    }
}

/// Builds the instructions of a transaction. Fails if a command takes more compute
/// units than are left.
pub fn build_transaction(rng: &mut Draws, program_ids: &Vec<Pubkey>, pool: &Accounts) -> (built:
    Result<Vec<Instruction>, BudgetExceeded>)
    requires
        0 < program_ids@.len() <= u32::MAX,
    ensures
        final(rng).follows(*old(rng)),
        ({
            let d = final(rng).since(*old(rng));
            let expected = transaction_of(d, program_ids@, pool@);
            &&& d.len() == expected.draws
            &&& match built {
                Ok(instructions) => expected.outcome == Ok::<Seq<InstructionView>, BudgetExceeded>(
                    instruction_views(instructions@),
                ),
                Err(e) => expected.outcome == Err::<Seq<InstructionView>, BudgetExceeded>(e),
            }
        }),
{
    let ghost start: Draws = *rng;
    let which: usize = pick_index(rng, program_ids.len());
    let program_id: Pubkey = program_ids[which];
    let ghost s1: Draws = *rng;
    let class_draw: u32 = rng.next_u32();
    let ghost s2: Draws = *rng;
    let amount_draw: u32 = rng.next_u32();
    let ghost s3: Draws = *rng;
    let budget: u32 = budget_for(class_draw, amount_draw);
    let ghost h: Seq<u32> = s3.since(start);
    proof {
        lemma_follows_transitive(start, s1, s2);
        lemma_follows_transitive(start, s2, s3);
        assert(h[1] == class_draw && h[2] == amount_draw);
        budget_covers_a_round(class_draw, amount_draw);
    }
    let planned = plan_commands(rng, budget);
    let ghost s4: Draws = *rng;
    let ghost p: Seq<u32> = s4.since(s3);
    proof {
        lemma_follows_transitive(start, s3, s4);
    }
    match planned {
        Err(e) => {
            proof {
                let d = rng.since(start);
                assert(d.skip(3) =~= p);
                assert(d[0] == h[0] && d[1] == h[1] && d[2] == h[2]);
            }
            Err(e)
        },
        Ok(commands) => {
            let ghost views: Seq<PlannedView> = planned_views(commands@);
            proof {
                plan_respects_limits(p, budget, Seq::empty(), 0);
                assert forall|i: int| 0 <= i < commands@.len() implies (
                #[trigger] commands@[i]).accounts.wf() && commands@[i].compute_units <= u32::MAX
                    - MAX_INSTRUCTION_COMPUTE_UNITS by {
                    assert(views[i].compute_units == commands@[i].compute_units);
                }
            }
            let mut instructions: Vec<Instruction> = group_commands(
                rng,
                commands,
                &program_id,
                pool,
            );
            let ghost s5: Draws = *rng;
            let ghost g: Seq<u32> = s5.since(s4);
            let ghost grouped: Seq<InstructionView> = instruction_views(instructions@);
            proof {
                grouping_makes_calls(g, views, program_id, pool@);
            }
            wrap_some(rng, &mut instructions, program_ids);
            let ghost w: Seq<u32> = rng.since(s5);
            proof {
                lemma_follows_transitive(start, s4, s5);
                lemma_follows_transitive(start, s5, *rng);
                let d = rng.since(start);
                assert(d == ((h + p) + g) + w);
                assert(d[0] == h[0] && d[1] == h[1] && d[2] == h[2]);
                assert(d.skip(3) =~= p + (g + w));
                lemma_plan_local(p, g + w, budget, Seq::empty(), 0);
                assert((p + (g + w)).skip(p.len() as int) =~= g + w);
                lemma_grouping_local(g, w, views, program_id, pool@);
                assert((g + w).skip(g.len() as int) =~= w);
            }
            Ok(instructions)
        },
    }
}

/// Draws that come after those that a transaction takes do not matter to it.
pub proof fn transaction_is_local(
    d: Seq<u32>,
    t: Seq<u32>,
    program_ids: Seq<Pubkey>,
    pool: Seq<AccountView>,
)
    requires
        transaction_of(d, program_ids, pool).draws <= d.len(),
    ensures
        transaction_of(d + t, program_ids, pool) == transaction_of(d, program_ids, pool),
{
    assert((d + t)[0] == d[0] && (d + t)[1] == d[1] && (d + t)[2] == d[2]);
    let program_id = program_ids[pick(d[0], program_ids.len() as int)];
    let budget = chosen_budget(d[1], d[2]) as u32;
    let d1 = d.skip(3);
    assert((d + t).skip(3) =~= d1 + t);
    let plan = plan_of(d1, budget, Seq::empty(), 0);
    lemma_plan_local(d1, t, budget, Seq::empty(), 0);
    if plan.exceeded is None {
        let d2 = d1.skip(plan.draws as int);
        assert((d1 + t).skip(plan.draws as int) =~= d2 + t);
        let grouping = grouping_of(d2, plan.commands, program_id, pool);
        lemma_grouping_local(d2, t, plan.commands, program_id, pool);
        let d3 = d2.skip(grouping.draws as int);
        assert((d2 + t).skip(grouping.draws as int) =~= d3 + t);
        if program_ids.len() > 1 && grouping.instructions.len() > 0 {
            lemma_wrapping_local(d3, t, grouping.instructions, program_ids);
        }
    }
}

/// Every instruction of a transaction calls one of the programs and has data, and
/// there is at most one instruction per command.
pub proof fn transaction_calls_the_programs(
    d: Seq<u32>,
    program_ids: Seq<Pubkey>,
    pool: Seq<AccountView>,
)
    requires
        program_ids.len() > 0,
    ensures
        transaction_of(d, program_ids, pool).outcome matches Ok(instructions) ==> {
            let plan = plan_of(d.skip(3), chosen_budget(d[1], d[2]) as u32, Seq::empty(), 0);
            &&& instructions.len() <= plan.commands.len()
            &&& forall|i: int|
                0 <= i < instructions.len() ==> program_ids.contains(
                    (#[trigger] instructions[i]).program_id,
                ) && instructions[i].data.len() > 0
        },
{
    let program_id = program_ids[pick(d[0], program_ids.len() as int)];
    let budget = chosen_budget(d[1], d[2]) as u32;
    let d1 = d.skip(3);
    let plan = plan_of(d1, budget, Seq::empty(), 0);
    let d2 = d1.skip(plan.draws as int);
    let grouping = grouping_of(d2, plan.commands, program_id, pool);
    let d3 = d2.skip(grouping.draws as int);
    assert(0 <= pick(d[0], program_ids.len() as int) < program_ids.len());
    grouping_makes_calls(d2, plan.commands, program_id, pool);
    assert forall|i: int| 0 <= i < grouping.instructions.len() implies program_ids.contains(
        (#[trigger] grouping.instructions[i]).program_id,
    ) by {}
    if grouping.instructions.len() > 0 {
        wrapping_calls_the_programs(d3, grouping.instructions, program_ids);
    }
}

/// No account is listed twice, and none signs.
pub open spec fn plain_metas(metas: Seq<AccountMeta>) -> bool {
    &&& forall|i: int| 0 <= i < metas.len() ==> !(#[trigger] metas[i]).is_signer
    &&& forall|i: int, j: int|
        0 <= i < j < metas.len() ==> (#[trigger] metas[i]).pubkey != (#[trigger] metas[j]).pubkey
}

/// Every account is in the pool or one of the programs.
pub open spec fn known_metas(
    metas: Seq<AccountMeta>,
    pool: Seq<AccountView>,
    program_ids: Seq<Pubkey>,
) -> bool {
    forall|i: int|
        0 <= i < metas.len() ==> has_address(pool, (#[trigger] metas[i]).pubkey.bytes@)
            || program_ids.contains(metas[i].pubkey)
}

/// Commands that touch no accounts make a group that touches none.
proof fn lemma_group_touches_nothing(
    commands: Seq<PlannedView>,
    count: nat,
    units: int,
    data: Seq<u8>,
)
    requires
        forall|i: int| 0 <= i < commands.len() ==> (#[trigger] commands[i]).accounts.len() == 0,
    ensures
        group_of(commands, count, units, data, Seq::empty()).accounts == Seq::<
            CommandAccount,
        >::empty(),
    decreases count,
{
    if count > 0 && commands.len() > 0 {
        let next = commands[0];
        let rest = commands.drop_first();
        assert forall|i: int| 0 <= i < rest.len() implies (#[trigger] rest[i]).accounts.len()
            == 0 by {
            assert(rest[i] == commands[i + 1]);
        }
        assert(with_accounts(Seq::empty(), next.accounts) == Seq::<CommandAccount>::empty());
        if units + next.compute_units <= MAX_INSTRUCTION_COMPUTE_UNITS {
            lemma_group_touches_nothing(
                rest,
                (count - 1) as nat,
                units + next.compute_units,
                data + next.data,
            );
        }
    }
}

/// What is added to no accounts for contention comes from the pool.
proof fn lemma_contention_alone(d: Seq<u32>, pool: Seq<AccountView>)
    requires
        proper_addresses(pool),
    ensures
        ({
            let metas = metas_of(with_contention(d, pool, Seq::empty()));
            &&& metas.len() < MAX_INSTRUCTION_ACCOUNTS
            &&& plain_metas(metas)
            &&& known_metas(metas, pool, Seq::empty())
        }),
{
    let none = Seq::<CommandAccount>::empty();
    let after = with_contention(d, pool, none);
    let metas = metas_of(after);
    contention_adds_from_pool(d, pool, none, pubkey_with(Seq::empty()));
    assert forall|i: int| 0 <= i < metas.len() implies !(#[trigger] metas[i]).is_signer
        && has_address(pool, metas[i].pubkey.bytes@) by {
        let address = after[i].address;
        contention_adds_from_pool(d, pool, none, address);
        assert(has_account(after, address));
        if after[i].is_signer {
            assert(permission(after, address).1);
        }
    }
    assert forall|i: int, j: int| 0 <= i < j < metas.len() implies (#[trigger] metas[i]).pubkey != (
    #[trigger] metas[j]).pubkey by {
        assert(after[i].address != after[j].address);
    }
}

/// Instructions that come of commands without accounts touch accounts of the pool only.
proof fn lemma_grouping_touches_pool(
    d: Seq<u32>,
    commands: Seq<PlannedView>,
    program_id: Pubkey,
    pool: Seq<AccountView>,
)
    requires
        proper_addresses(pool),
        forall|i: int| 0 <= i < commands.len() ==> (#[trigger] commands[i]).accounts.len() == 0,
    ensures
        ({
            let instructions = grouping_of(d, commands, program_id, pool).instructions;
            forall|i: int|
                0 <= i < instructions.len() ==> {
                    &&& (#[trigger] instructions[i]).accounts.len() < MAX_INSTRUCTION_ACCOUNTS
                    &&& plain_metas(instructions[i].accounts)
                    &&& known_metas(instructions[i].accounts, pool, Seq::empty())
                }
        }),
    decreases commands.len(),
{
    if commands.len() > 0 {
        lemma_first_group_progress(d[0], commands);
        let group = first_group(d[0], commands);
        lemma_group_touches_nothing(
            commands,
            (pick(d[0], commands.len() as int) + 1) as nat,
            0,
            Seq::empty(),
        );
        let taken = commands.len() - group.rest.len();
        assert forall|i: int| 0 <= i < group.rest.len() implies (
        #[trigger] group.rest[i]).accounts.len() == 0 by {
            assert(group.rest[i] == commands[i + taken]);
        }
        let more = d.skip(1);
        if group.data.len() == 0 {
            lemma_grouping_touches_pool(more, group.rest, program_id, pool);
            let rest = grouping_of(more, group.rest, program_id, pool).instructions;
            let all = grouping_of(d, commands, program_id, pool).instructions;
            assert(all == rest);
        } else {
            let n = contention_draws(more, pool, group.accounts.len());
            lemma_grouping_touches_pool(more.skip(n as int), group.rest, program_id, pool);
            lemma_contention_alone(more, pool);
            let first = group_instruction(more, group, program_id, pool);
            let rest = grouping_of(more.skip(n as int), group.rest, program_id, pool).instructions;
            let all = grouping_of(d, commands, program_id, pool).instructions;
            assert(all == seq![first] + rest);
            assert forall|i: int| 0 <= i < all.len() implies {
                &&& (#[trigger] all[i]).accounts.len() < MAX_INSTRUCTION_ACCOUNTS
                &&& plain_metas(all[i].accounts)
                &&& known_metas(all[i].accounts, pool, Seq::empty())
            } by {
                if i > 0 {
                    assert(all[i] == rest[i - 1]);
                }
            }
        }
    }
}

/// A wrapped instruction touches the accounts of the one inside it and the program.
proof fn lemma_cpi_touches(
    instruction: InstructionView,
    program_id: Pubkey,
    pool: Seq<AccountView>,
    program_ids: Seq<Pubkey>,
)
    requires
        program_ids.contains(program_id),
        plain_metas(instruction.accounts),
        known_metas(instruction.accounts, pool, program_ids),
    ensures
        plain_metas(cpi_of(instruction, program_id).accounts),
        known_metas(cpi_of(instruction, program_id).accounts, pool, program_ids),
{
    let none = Seq::<CommandAccount>::empty();
    let called = with_account(none, program_id, false, false);
    let after = with_metas(called, instruction.accounts);
    let metas = cpi_of(instruction, program_id).accounts;
    use_is_recorded(none, program_id, false, false, program_id);
    entries_accumulate(called, instruction.accounts, program_id);
    assert forall|i: int| 0 <= i < metas.len() implies !(#[trigger] metas[i]).is_signer && (
    has_address(pool, metas[i].pubkey.bytes@) || program_ids.contains(metas[i].pubkey)) by {
        let address = after[i].address;
        use_is_recorded(none, program_id, false, false, address);
        entries_accumulate(called, instruction.accounts, address);
        assert(has_account(after, address));
        if after[i].is_signer {
            assert(permission(after, address).1);
        }
    }
    assert forall|i: int, j: int| 0 <= i < j < metas.len() implies (#[trigger] metas[i]).pubkey != (
    #[trigger] metas[j]).pubkey by {
        assert(after[i].address != after[j].address);
    }
}

/// Wrapped instructions touch accounts of the pool and programs only.
proof fn lemma_wrapping_touches(
    d: Seq<u32>,
    instructions: Seq<InstructionView>,
    pool: Seq<AccountView>,
    program_ids: Seq<Pubkey>,
)
    requires
        instructions.len() > 0,
        program_ids.len() > 0,
        forall|i: int|
            0 <= i < instructions.len() ==> plain_metas((#[trigger] instructions[i]).accounts)
                && known_metas(instructions[i].accounts, pool, program_ids),
    ensures
        ({
            let after = wrapping_of(d, instructions, program_ids).instructions;
            forall|i: int|
                0 <= i < after.len() ==> plain_metas((#[trigger] after[i]).accounts)
                    && known_metas(after[i].accounts, pool, program_ids)
        }),
    decreases d.len(),
{
    if d.len() >= 3 && !happens(d[0], STOP_CHANCE_NUMERATOR, STOP_CHANCE_DENOMINATOR) {
        let index = pick(d[1], instructions.len() as int);
        assert(0 <= index < instructions.len());
        let own = instructions[index].program_id;
        let program_id = called_program(d[2], program_ids, own);
        another_program_is_called(d[2], program_ids, own);
        let wrapped = cpi_of(instructions[index], program_id);
        lemma_cpi_touches(instructions[index], program_id, pool, program_ids);
        let next = instructions.update(index, wrapped);
        assert forall|i: int| 0 <= i < next.len() implies plain_metas(
            (#[trigger] next[i]).accounts,
        ) && known_metas(next[i].accounts, pool, program_ids) by {
            if i != index {
                assert(next[i] == instructions[i]);
            }
        }
        lemma_wrapping_touches(d.skip(3), next, pool, program_ids);
        let rest = wrapping_of(d.skip(3), next, program_ids).instructions;
        let after = wrapping_of(d, instructions, program_ids).instructions;
        assert(after == rest);
        assert forall|i: int| 0 <= i < after.len() implies plain_metas(
            (#[trigger] after[i]).accounts,
        ) && known_metas(after[i].accounts, pool, program_ids) by {
            assert(after[i] == rest[i]);
        }
    }
}

/// No instruction of a transaction lists an account twice or has one sign, and all its
/// accounts are in the pool or are programs. With a single program they are all in the
/// pool, and there are fewer than twelve of them.
pub proof fn transaction_touches_the_pool(
    d: Seq<u32>,
    program_ids: Seq<Pubkey>,
    pool: Seq<AccountView>,
)
    requires
        program_ids.len() > 0,
        proper_addresses(pool),
    ensures
        transaction_of(d, program_ids, pool).outcome matches Ok(instructions) ==> {
            forall|i: int|
                0 <= i < instructions.len() ==> {
                    &&& plain_metas((#[trigger] instructions[i]).accounts)
                    &&& known_metas(instructions[i].accounts, pool, program_ids)
                    &&& program_ids.len() == 1 ==> {
                        &&& known_metas(instructions[i].accounts, pool, Seq::empty())
                        &&& instructions[i].accounts.len() < MAX_INSTRUCTION_ACCOUNTS
                    }
                }
        },
{
    let program_id = program_ids[pick(d[0], program_ids.len() as int)];
    let budget = chosen_budget(d[1], d[2]) as u32;
    let d1 = d.skip(3);
    let plan = plan_of(d1, budget, Seq::empty(), 0);
    plan_respects_limits(d1, budget, Seq::empty(), 0);
    let d2 = d1.skip(plan.draws as int);
    let grouping = grouping_of(d2, plan.commands, program_id, pool);
    let grouped = grouping.instructions;
    lemma_grouping_touches_pool(d2, plan.commands, program_id, pool);
    assert forall|i: int| 0 <= i < grouped.len() implies known_metas(
        (#[trigger] grouped[i]).accounts,
        pool,
        program_ids,
    ) by {
        let metas = grouped[i].accounts;
        assert(known_metas(metas, pool, Seq::empty()));
    }
    let d3 = d2.skip(grouping.draws as int);
    if grouped.len() > 0 {
        lemma_wrapping_touches(d3, grouped, pool, program_ids);
    }
}

/// The draws lead to the transaction: the first counts off the program, the next two the
/// budget, and then come those of the plan, of the grouping and of the wrapping, each where
/// the ones before it end. With one program nothing is wrapped, and where the plan fails
/// nothing is built.
pub proof fn draws_lead_to_the_transaction(
    d: Seq<u32>,
    program_ids: Seq<Pubkey>,
    pool: Seq<AccountView>,
)
    requires
        program_ids.len() > 0,
        d.len() >= 3,
    ensures
        ({
            let built = transaction_of(d, program_ids, pool);
            let program_id = program_ids[d[0] as int % program_ids.len() as int];
            let base: int = if d[1] % 3 == 0 {
                5_000
            } else if d[1] % 3 == 1 {
                45_000
            } else {
                1_105_000
            };
            let span: int = if d[1] % 3 == 0 {
                40_000
            } else if d[1] % 3 == 1 {
                1_060_000
            } else {
                300_000
            };
            let behind = d.skip(3);
            let plan = plan_of(behind, (base + d[2] as int % span) as u32, Seq::empty(), 0);
            let further = behind.skip(plan.draws as int);
            let grouping = grouping_of(further, plan.commands, program_id, pool);
            let furthest = further.skip(grouping.draws as int);
            let wrapping = wrapping_of(furthest, grouping.instructions, program_ids);
            &&& plan.exceeded matches Some(e) ==> built.outcome == Err::<
                Seq<InstructionView>,
                BudgetExceeded,
            >(e) && built.draws == 3 + plan.draws
            &&& plan.exceeded is None && (program_ids.len() == 1 || grouping.instructions.len()
                == 0) ==> built.outcome == Ok::<Seq<InstructionView>, BudgetExceeded>(
                grouping.instructions,
            ) && built.draws == 3 + plan.draws + grouping.draws
            &&& plan.exceeded is None && program_ids.len() > 1 && grouping.instructions.len() > 0
                ==> built.outcome == Ok::<Seq<InstructionView>, BudgetExceeded>(
                wrapping.instructions,
            ) && built.draws == 3 + plan.draws + grouping.draws + wrapping.draws
        }),
{
    budget_is_counted_off(d[1], d[2]);
}

} // verus!
