//! The commands of one transaction: how much they may compute, and which they are.

use vstd::prelude::*;

use crate::command_accounts::{CommandAccount, CommandAccounts};
use crate::draws::{lemma_follows_reflexive, lemma_follows_transitive, Draws};
use crate::generate::{
    choice_is_within_limits, chosen_command, command_bytes, command_cost, command_draws,
    distinct_indices, draws_choose_the_command, indices_after, indices_in_use,
    lemma_command_local, make_command, AllocatedIndices, Command, CPU_COMMAND_COST_PER_ITERATION,
};

verus! {

// The compute units at which small, medium and large transactions end.
pub const SMALL_TX_MAX_COMPUTE_UNITS: u32 = 40_000;

pub const MEDIUM_TX_MAX_COMPUTE_UNITS: u32 = 1_100_000;

pub const LARGE_TX_MAX_COMPUTE_UNITS: u32 = 1_400_000;

/// Commands are added to a transaction while they have fewer bytes than this.
pub const TX_DATA_TARGET: usize = 1100;

/// The smallest and the largest compute budget of a transaction of the class that a
/// draw chooses, before the cost of one round is added.
pub open spec fn budget_range(class_draw: u32) -> (u32, u32) {
    if class_draw % 3 == 0 {
        (0, SMALL_TX_MAX_COMPUTE_UNITS)
    } else if class_draw % 3 == 1 {
        (SMALL_TX_MAX_COMPUTE_UNITS, MEDIUM_TX_MAX_COMPUTE_UNITS)
    } else {
        (MEDIUM_TX_MAX_COMPUTE_UNITS, LARGE_TX_MAX_COMPUTE_UNITS)
    }
}

/// The compute budget that two draws choose: a third of the transactions are small,
/// a third medium and a third large, and each class has enough for one round.
pub open spec fn chosen_budget(class_draw: u32, amount_draw: u32) -> int {
    let (min, max) = budget_range(class_draw);
    amount_draw as int % (max - min) + min + CPU_COMMAND_COST_PER_ITERATION
}

/// The compute budget that two draws choose.
pub fn budget_for(class_draw: u32, amount_draw: u32) -> (budget: u32)
    ensures
        budget == chosen_budget(class_draw, amount_draw),
{
    let (min, max): (u32, u32) = match class_draw % 3 {
        0 => (0, SMALL_TX_MAX_COMPUTE_UNITS),
        1 => (SMALL_TX_MAX_COMPUTE_UNITS, MEDIUM_TX_MAX_COMPUTE_UNITS),
        _ => (MEDIUM_TX_MAX_COMPUTE_UNITS, LARGE_TX_MAX_COMPUTE_UNITS),
    };
    amount_draw % (max - min) + min + CPU_COMMAND_COST_PER_ITERATION
}

/// A compute budget covers at least one round, and lies in the range of its class
/// moved up by the cost of that round.
pub proof fn budget_covers_a_round(class_draw: u32, amount_draw: u32)
    ensures
        ({
            let (min, max) = budget_range(class_draw);
            min + CPU_COMMAND_COST_PER_ITERATION <= chosen_budget(class_draw, amount_draw) < max
                + CPU_COMMAND_COST_PER_ITERATION
        }),
        chosen_budget(class_draw, amount_draw) >= CPU_COMMAND_COST_PER_ITERATION,
{
}

/// A command with the accounts that it touches and the compute units that it takes.
pub struct PlannedCommand {
    pub data: Vec<u8>,
    pub accounts: CommandAccounts,
    pub compute_units: u32,
}

/// What a planned command is.
pub ghost struct PlannedView {
    pub data: Seq<u8>,
    pub accounts: Seq<CommandAccount>,
    pub compute_units: u32,
}

impl View for PlannedCommand {
    type V = PlannedView;

    open spec fn view(&self) -> PlannedView {
        PlannedView {
            data: self.data@,
            accounts: self.accounts@,
            compute_units: self.compute_units,
        }
    }
}

/// What planned commands are.
pub open spec fn planned_views(commands: Seq<PlannedCommand>) -> Seq<PlannedView> {
    Seq::new(commands.len(), |i: int| commands[i]@)
}

/// A command took more compute units than were left.
#[derive(Clone, Copy, Debug, PartialEq, Eq)]
pub struct BudgetExceeded {
    /// What was left.
    pub budget: u32,
    /// What the command took.
    pub cost: u32,
}

/// What comes of planning the commands of a transaction: the commands up to and
/// without one that took too much, that one if there was one, and the number of
/// draws.
pub ghost struct Plan {
    pub commands: Seq<PlannedView>,
    pub exceeded: Option<BudgetExceeded>,
    pub draws: nat,
}

/// A command as it is planned.
pub open spec fn planned(command: Command, budget: u32) -> PlannedView {
    PlannedView {
        data: command_bytes(command),
        accounts: Seq::empty(),
        compute_units: command_cost(command, budget) as u32,
    }
}

/// The plan that the draws `d` make, where `size` bytes of commands are already
/// there: one command after the other, as long as there is room and budget left.
pub open spec fn plan_of(d: Seq<u32>, budget: u32, indices: Seq<u8>, size: nat) -> Plan
    decreases
            (if size < TX_DATA_TARGET {
                TX_DATA_TARGET - size
            } else {
                0
            }) + (if budget > 0 {
                1int
            } else {
                0
            }),
{
    if size >= TX_DATA_TARGET || budget == 0 {
        Plan { commands: Seq::empty(), exceeded: None, draws: 0 }
    } else {
        let command = chosen_command(d, budget, indices);
        let cost = command_cost(command, budget);
        let n = command_draws(d, budget, indices);
        if cost > budget {
            Plan {
                commands: Seq::empty(),
                exceeded: Some(BudgetExceeded { budget, cost: cost as u32 }),
                draws: n,
            }
        } else {
            let rest = plan_of(
                d.skip(n as int),
                (budget - cost) as u32,
                indices_after(d, command, indices),
                size + command_bytes(command).len(),
            );
            Plan {
                commands: seq![planned(command, budget)] + rest.commands,
                exceeded: rest.exceeded,
                draws: n + rest.draws,
            }
        }
    }
}

/// Draws that come after those that a plan takes do not matter to it.
pub proof fn lemma_plan_local(
    d: Seq<u32>,
    t: Seq<u32>,
    budget: u32,
    indices: Seq<u8>,
    size: nat,
)
    requires
        plan_of(d, budget, indices, size).draws <= d.len(),
    ensures
        plan_of(d + t, budget, indices, size) == plan_of(d, budget, indices, size),
    decreases
            (if size < TX_DATA_TARGET {
                TX_DATA_TARGET - size
            } else {
                0
            }) + (if budget > 0 {
                1int
            } else {
                0
            }),
{
    if size < TX_DATA_TARGET && budget > 0 {
        let command = chosen_command(d, budget, indices);
        let cost = command_cost(command, budget);
        let n = command_draws(d, budget, indices);
        lemma_command_local(d, t, budget, indices);
        if cost <= budget {
            lemma_plan_local(
                d.skip(n as int),
                t,
                (budget - cost) as u32,
                indices_after(d, command, indices),
                size + command_bytes(command).len(),
            );
            assert((d + t).skip(n as int) =~= d.skip(n as int) + t);
        }
    }
}

/// The plan that begins with `commands`, which took `draws` draws, and goes on as
/// `rest`.
pub open spec fn continued(commands: Seq<PlannedView>, draws: nat, rest: Plan) -> Plan {
    Plan {
        commands: commands + rest.commands,
        exceeded: rest.exceeded,
        draws: draws + rest.draws,
    }
}

/// One step of a plan, where the draws `d` choose a command that the budget covers.
proof fn lemma_plan_step(d: Seq<u32>, t: Seq<u32>, budget: u32, indices: Seq<u8>, size: nat)
    requires
        size < TX_DATA_TARGET,
        budget > 0,
        d.len() == command_draws(d, budget, indices),
        command_cost(chosen_command(d, budget, indices), budget) <= budget,
    ensures
        ({
            let command = chosen_command(d, budget, indices);
            plan_of(d + t, budget, indices, size) == continued(
                seq![planned(command, budget)],
                d.len(),
                plan_of(
                    t,
                    (budget - command_cost(command, budget)) as u32,
                    indices_after(d, command, indices),
                    size + command_bytes(command).len(),
                ),
            )
        }),
{
    lemma_command_local(d, t, budget, indices);
    assert((d + t).skip(d.len() as int) =~= t);
}

/// Going on after what was already gone on with.
proof fn lemma_continued_twice(
    a: Seq<PlannedView>,
    m: nat,
    b: Seq<PlannedView>,
    n: nat,
    rest: Plan,
)
    ensures
        continued(a, m, continued(b, n, rest)) == continued(a + b, m + n, rest),
{
    assert(a + (b + rest.commands) =~= (a + b) + rest.commands);
}

/// Plans the commands of a transaction.
#[verifier::spinoff_prover]
pub fn plan_commands(rng: &mut Draws, compute_budget: u32) -> (plan: Result<
    Vec<PlannedCommand>,
    BudgetExceeded,
>)
    ensures
        final(rng).follows(*old(rng)),
        ({
            let d = final(rng).since(*old(rng));
            let expected = plan_of(d, compute_budget, Seq::empty(), 0);
            &&& d.len() == expected.draws
            &&& match plan {
                Ok(commands) => {
                    &&& expected.exceeded is None
                    &&& planned_views(commands@) == expected.commands
                    &&& forall|i: int| 0 <= i < commands@.len() ==> (#[trigger] commands@[i]).accounts.wf()
                },
                Err(e) => expected.exceeded == Some(e),
            }
        }),
{
    let ghost start: Draws = *rng;
    let mut budget: u32 = compute_budget;
    let mut indices = AllocatedIndices::new();
    let mut commands: Vec<PlannedCommand> = Vec::new();
    let mut size: usize = 0;
    proof {
        lemma_follows_reflexive(start);
        assert(indices@ =~= Seq::empty());
        assert forall|t: Seq<u32>|
            #[trigger] plan_of(rng.since(start) + t, compute_budget, Seq::empty(), 0) == continued(
                planned_views(commands@),
                0,
                plan_of(t, budget, indices@, size as nat),
            ) by {
            assert(rng.since(start) + t =~= t);
            let rest = plan_of(t, budget, indices@, size as nat);
            assert(planned_views(commands@) + rest.commands =~= rest.commands);
        }
    }
    while size < TX_DATA_TARGET && budget > 0
        invariant
            start == *old(rng),
            rng.follows(start),
            indices.wf(),
            size < TX_DATA_TARGET + 6,
            forall|i: int| 0 <= i < commands@.len() ==> (#[trigger] commands@[i]).accounts.wf(),
            forall|t: Seq<u32>|
                #[trigger] plan_of(rng.since(start) + t, compute_budget, Seq::empty(), 0)
                    == continued(
                    planned_views(commands@),
                    rng.since(start).len(),
                    plan_of(t, budget, indices@, size as nat),
                ),
        decreases
                (if size < TX_DATA_TARGET {
                    TX_DATA_TARGET - size
                } else {
                    0
                }) + (if budget > 0 {
                    1int
                } else {
                    0
                }),
    {
        let ghost before: Draws = *rng;
        let ghost used: Seq<u32> = rng.since(start);
        let ghost indices_before: Seq<u8> = indices@;
        let ghost done: Seq<PlannedView> = planned_views(commands@);
        let (data, cost): (Vec<u8>, u32) = make_command(rng, &mut indices, budget);
        let ghost d: Seq<u32> = rng.since(before);
        let ghost command: Command = chosen_command(d, budget, indices_before);
        proof {
            lemma_follows_transitive(start, before, *rng);
            lemma_command_length(command);
        }
        if cost > budget {
            proof {
                let t = d;
                assert(d + Seq::<u32>::empty() =~= d);
                assert(plan_of(used + t, compute_budget, Seq::empty(), 0).exceeded == Some(
                    BudgetExceeded { budget, cost },
                ));
            }
            return Err(BudgetExceeded { budget, cost });
        }
        let ghost budget_before: u32 = budget;
        let ghost size_before: nat = size as nat;
        size = size + data.len();
        commands.push(PlannedCommand { data, accounts: CommandAccounts::new(), compute_units: cost });
        budget = budget - cost;
        proof {
            let after = planned_views(commands@);
            let step = seq![planned(command, budget_before)];
            assert(after =~= done + step);
            assert forall|t: Seq<u32>|
                #[trigger] plan_of(rng.since(start) + t, compute_budget, Seq::empty(), 0)
                    == continued(
                    after,
                    rng.since(start).len(),
                    plan_of(t, budget, indices@, size as nat),
                ) by {
                assert(rng.since(start) + t =~= used + (d + t));
                lemma_plan_step(d, t, budget_before, indices_before, size_before);
                let rest = plan_of(t, budget, indices@, size as nat);
                lemma_continued_twice(done, used.len(), step, d.len(), rest);
            }
        }
    }
    proof {
        let used = rng.since(start);
        assert(used + Seq::<u32>::empty() =~= used);
        let rest = plan_of(Seq::empty(), budget, indices@, size as nat);
        assert(planned_views(commands@) + rest.commands =~= planned_views(commands@));
        assert(plan_of(used, compute_budget, Seq::empty(), 0) == continued(
            planned_views(commands@),
            used.len(),
            rest,
        ));
    }
    Ok(commands)
}

/// A command has at most six bytes, and none only if it is idle.
proof fn lemma_command_length(command: Command)
    ensures
        command_bytes(command).len() <= 6,
        command !is Idle ==> command_bytes(command).len() >= 1,
{
    match command {
        Command::Cpu { iterations } => {
            crate::bytes::le_bytes_round_trip(iterations as nat, 4);
        },
        Command::Alloc { amount, .. } => {
            crate::bytes::le_bytes_round_trip(amount as nat, 4);
        },
        _ => {},
    }
}

/// The compute units of planned commands, added up.
pub open spec fn total_units(commands: Seq<PlannedView>) -> nat
    decreases commands.len(),
{
    if commands.len() == 0 {
        0
    } else {
        commands[0].compute_units as nat + total_units(commands.drop_first())
    }
}

/// The bytes of planned commands, counted.
pub open spec fn total_size(commands: Seq<PlannedView>) -> nat
    decreases commands.len(),
{
    if commands.len() == 0 {
        0
    } else {
        commands[0].data.len() + total_size(commands.drop_first())
    }
}

/// A plan stays within its budget and ends in time: its commands take no more
/// compute units than there were and have fewer bytes than the target before the
/// last of them, which has at most six; and it does not end before the budget is
/// spent or the target is reached.
pub proof fn plan_respects_limits(d: Seq<u32>, budget: u32, indices: Seq<u8>, size: nat)
    requires
        size < TX_DATA_TARGET + 6,
    ensures
        ({
            let plan = plan_of(d, budget, indices, size);
            let commands = plan.commands;
            &&& total_units(commands) <= budget
            &&& size + total_size(commands) < TX_DATA_TARGET + 6
            &&& plan.exceeded is None ==> total_units(commands) == budget || size + total_size(
                commands,
            ) >= TX_DATA_TARGET
            &&& size + commands.len() <= TX_DATA_TARGET + 6
            &&& forall|i: int|
                0 <= i < commands.len() ==> (#[trigger] commands[i]).compute_units <= budget
                    && commands[i].accounts.len() == 0
        }),
    decreases
            (if size < TX_DATA_TARGET {
                TX_DATA_TARGET - size
            } else {
                0
            }) + (if budget > 0 {
                1int
            } else {
                0
            }),
{
    let plan = plan_of(d, budget, indices, size);
    if size < TX_DATA_TARGET && budget > 0 {
        let command = chosen_command(d, budget, indices);
        let cost = command_cost(command, budget);
        let n = command_draws(d, budget, indices);
        lemma_command_length(command);
        if cost <= budget {
            crate::generate::cost_fits_budget(d, budget, indices);
            let left = (budget - cost) as u32;
            let size_after = size + command_bytes(command).len();
            let after = indices_after(d, command, indices);
            plan_respects_limits(d.skip(n as int), left, after, size_after);
            let rest = plan_of(d.skip(n as int), left, after, size_after).commands;
            assert(plan.commands.drop_first() =~= rest);
            assert forall|i: int| 0 <= i < plan.commands.len() implies (
            #[trigger] plan.commands[i]).compute_units <= budget && plan.commands[i].accounts.len()
                == 0 by {
                if i > 0 {
                    assert(plan.commands[i] == rest[i - 1]);
                }
            }
        }
    }
}

/// The compute budget is counted off by the second draw, in the class that the first one
/// counts off: from 5000 on among 40000, from 45000 on among 1060000, or from 1105000 on
/// among 300000.
pub proof fn budget_is_counted_off(class_draw: u32, amount_draw: u32)
    ensures
        class_draw % 3 == 0 ==> chosen_budget(class_draw, amount_draw) == 5_000 + amount_draw as int
            % 40_000,
        class_draw % 3 == 1 ==> chosen_budget(class_draw, amount_draw) == 45_000
            + amount_draw as int % 1_060_000,
        class_draw % 3 == 2 ==> chosen_budget(class_draw, amount_draw) == 1_105_000
            + amount_draw as int % 300_000,
{
}

/// A plan ends at 1100 bytes or when the budget is spent. Until then each draw goes into
/// the next command: it is chosen with what is left of the budget and the indices in use,
/// and after it the plan goes on with the draws, the budget and the indices that it leaves;
/// or it takes more than is left, and the plan fails with both numbers.
pub proof fn plan_takes_one_command_after_the_other(
    d: Seq<u32>,
    budget: u32,
    indices: Seq<u8>,
    size: nat,
)
    ensures
        ({
            let plan = plan_of(d, budget, indices, size);
            let command = chosen_command(d, budget, indices);
            let cost = command_cost(command, budget);
            let n = command_draws(d, budget, indices);
            let rest = plan_of(
                d.skip(n as int),
                (budget - cost) as u32,
                indices_after(d, command, indices),
                size + command_bytes(command).len(),
            );
            if size >= 1100 || budget == 0 {
                plan.commands.len() == 0 && plan.exceeded is None && plan.draws == 0
            } else if cost > budget {
                &&& plan.commands.len() == 0
                &&& plan.draws == n
                &&& plan.exceeded is Some && plan.exceeded->0.budget == budget
                &&& cost <= u32::MAX ==> plan.exceeded->0.cost == cost
            } else {
                &&& plan.commands.len() == 1 + rest.commands.len()
                &&& plan.commands[0].data == command_bytes(command)
                &&& plan.commands[0].compute_units == cost
                &&& plan.commands[0].accounts.len() == 0
                &&& plan.commands.drop_first() == rest.commands
                &&& plan.exceeded == rest.exceeded
                &&& plan.draws == n + rest.draws
            }
        }),
{
    let plan = plan_of(d, budget, indices, size);
    let command = chosen_command(d, budget, indices);
    let cost = command_cost(command, budget);
    if size < 1100 && budget > 0 && cost <= budget {
        let n = command_draws(d, budget, indices);
        let rest = plan_of(
            d.skip(n as int),
            (budget - cost) as u32,
            indices_after(d, command, indices),
            size + command_bytes(command).len(),
        );
        assert(plan.commands.drop_first() =~= rest.commands);
    }
}

/// The indices in use after the command with these bytes.
pub open spec fn memory_after(data: Seq<u8>, used: Set<u8>) -> Set<u8> {
    if data.len() == 6 && data[0] == 3 {
        used.insert(data[5])
    } else if data.len() == 2 && data[0] == 4 {
        used.remove(data[1])
    } else {
        used
    }
}

/// Whether commands, one after the other, allocate memory under the lowest index that is
/// not in use, and free only what is in use.
pub open spec fn memory_is_managed(commands: Seq<PlannedView>, used: Set<u8>) -> bool
    decreases commands.len(),
{
    commands.len() == 0 || {
        let data = commands[0].data;
        &&& data.len() == 6 && data[0] == 3 ==> !used.contains(data[5]) && forall|k: u8|
            k < data[5] ==> used.contains(k)
        &&& data.len() == 2 && data[0] == 4 ==> used.contains(data[1])
        &&& memory_is_managed(commands.drop_first(), memory_after(data, used))
    }
}

/// The commands of a plan manage their memory: whatever was allocated before is not
/// allocated again before it is freed, and nothing else is freed.
pub proof fn plan_manages_memory(d: Seq<u32>, budget: u32, indices: Seq<u8>, size: nat)
    requires
        distinct_indices(indices),
    ensures
        memory_is_managed(plan_of(d, budget, indices, size).commands, indices.to_set()),
    decreases
            (if size < TX_DATA_TARGET {
                TX_DATA_TARGET - size
            } else {
                0
            }) + (if budget > 0 {
                1int
            } else {
                0
            }),
{
    let plan = plan_of(d, budget, indices, size);
    let command = chosen_command(d, budget, indices);
    let cost = command_cost(command, budget);
    if size < TX_DATA_TARGET && budget > 0 && cost <= budget {
        let n = command_draws(d, budget, indices);
        let after = indices_after(d, command, indices);
        let used = indices.to_set();
        let data = command_bytes(command);
        lemma_command_length(command);
        choice_is_within_limits(d, budget, indices);
        plan_manages_memory(
            d.skip(n as int),
            (budget - cost) as u32,
            after,
            size + data.len(),
        );
        plan_takes_one_command_after_the_other(d, budget, indices, size);
        assert forall|k: u8| #[trigger]
            after.to_set().contains(k) <==> memory_after(data, used).contains(k) by {
            indices_in_use(d, budget, indices, k);
            lemma_memory_of(command, used);
        }
        assert(after.to_set() =~= memory_after(data, used));
        lemma_memory_of(command, used);
        draws_choose_the_command(d, budget, indices);
        assert forall|k: u8| #[trigger] used.contains(k) <==> indices.contains(k) by {}
    }
}

/// What the bytes of a command say of memory.
proof fn lemma_memory_of(command: Command, used: Set<u8>)
    ensures
        ({
            let data = command_bytes(command);
            &&& (data.len() == 6 && data[0] == 3) <==> command is Alloc
            &&& (data.len() == 2 && data[0] == 4) <==> command is Free
            &&& command matches Command::Alloc { index, .. } ==> data[5] == index
                && memory_after(data, used) == used.insert(index)
            &&& command matches Command::Free { index } ==> data[1] == index && memory_after(
                data,
                used,
            ) == used.remove(index)
            &&& command !is Alloc && command !is Free ==> memory_after(data, used) == used
        }),
{
    match command {
        Command::Cpu { iterations } => {
            crate::bytes::le_bytes_round_trip(iterations as nat, 4);
        },
        Command::Alloc { amount, .. } => {
            crate::bytes::le_bytes_round_trip(amount as nat, 4);
        },
        _ => {},
    }
}

} // verus!
