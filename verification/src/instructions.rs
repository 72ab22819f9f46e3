//! The instructions of one transaction: commands in groups, with accounts added for
//! contention.

use vstd::prelude::*;

use crate::accounts::{has_address, proper_addresses, AccountView, Accounts};
use crate::command_accounts::{
    distinct_accounts, has_account, metas_of, permission, use_is_recorded, uses_accumulate,
    with_account,
    with_accounts, AccountMeta, CommandAccount, CommandAccounts,
};
use crate::draws::{lemma_follows_reflexive, lemma_follows_transitive, pick, Draws};
use crate::plan::{planned_views, total_units, PlannedCommand, PlannedView};
use crate::pubkey::{is_address, lemma_pubkey_with, pubkey_with, Pubkey};

verus! {

/// The most compute units that the commands of one instruction take together.
pub const MAX_INSTRUCTION_COMPUTE_UNITS: u32 = 1_400_000;

/// An instruction that touches this many accounts or more gets none added.
pub const MAX_INSTRUCTION_ACCOUNTS: usize = 12;

/// A call of a program.
#[derive(Debug, PartialEq, Eq)]
pub struct Instruction {
    pub program_id: Pubkey,
    pub accounts: Vec<AccountMeta>,
    pub data: Vec<u8>,
}

/// What an instruction is.
#[verifier::ext_equal]
pub ghost struct InstructionView {
    pub program_id: Pubkey,
    pub accounts: Seq<AccountMeta>,
    pub data: Seq<u8>,
}

impl View for Instruction {
    type V = InstructionView;

    open spec fn view(&self) -> InstructionView {
        InstructionView {
            program_id: self.program_id,
            accounts: self.accounts@,
            data: self.data@,
        }
    }
}

/// What instructions are.
pub open spec fn instruction_views(instructions: Seq<Instruction>) -> Seq<InstructionView> {
    Seq::new(instructions.len(), |i: int| instructions[i]@)
}

/// What is collected for an instruction, and the commands that are left.
pub ghost struct Group {
    pub data: Seq<u8>,
    pub accounts: Seq<CommandAccount>,
    pub rest: Seq<PlannedView>,
}

/// Collects the next `count` commands, where commands of `units` compute units with
/// the given data and accounts have been collected. A command with which the
/// instruction would take too many compute units is dropped, and ends the group.
pub open spec fn group_of(
    commands: Seq<PlannedView>,
    count: nat,
    units: int,
    data: Seq<u8>,
    accounts: Seq<CommandAccount>,
) -> Group
    decreases count,
{
    if count == 0 || commands.len() == 0 {
        Group { data, accounts, rest: commands }
    } else {
        let next = commands[0];
        let rest = commands.drop_first();
        if units + next.compute_units > MAX_INSTRUCTION_COMPUTE_UNITS {
            Group { data, accounts, rest }
        } else {
            group_of(
                rest,
                (count - 1) as nat,
                units + next.compute_units,
                data + next.data,
                with_accounts(accounts, next.accounts),
            )
        }
    }
}

/// A group takes at least one of the commands, and leaves the others in order.
pub proof fn lemma_group_progress(
    commands: Seq<PlannedView>,
    count: nat,
    units: int,
    data: Seq<u8>,
    accounts: Seq<CommandAccount>,
)
    ensures
        ({
            let rest = group_of(commands, count, units, data, accounts).rest;
            &&& rest.len() <= commands.len()
            &&& rest == commands.skip(commands.len() - rest.len())
            &&& count > 0 && commands.len() > 0 ==> rest.len() < commands.len()
        }),
    decreases count,
{
    let rest = group_of(commands, count, units, data, accounts).rest;
    if count == 0 || commands.len() == 0 {
        assert(rest =~= commands.skip(0));
    } else {
        let next = commands[0];
        if units + next.compute_units > MAX_INSTRUCTION_COMPUTE_UNITS {
            assert(rest =~= commands.skip(1));
        } else {
            lemma_group_progress(
                commands.drop_first(),
                (count - 1) as nat,
                units + next.compute_units,
                data + next.data,
                with_accounts(accounts, next.accounts),
            );
            assert(rest =~= commands.skip(commands.len() - rest.len()));
        }
    }
}

/// `accounts` after `n` accounts from the pool have been added, one draw each.
pub open spec fn contended(
    d: Seq<u32>,
    pool: Seq<AccountView>,
    accounts: Seq<CommandAccount>,
    n: nat,
    is_write: bool,
) -> Seq<CommandAccount>
    decreases n,
{
    if n == 0 || pool.len() == 0 {
        accounts
    } else {
        let address = pubkey_with(pool[pick(d[0], pool.len() as int)].address);
        contended(
            d.skip(1),
            pool,
            with_account(accounts, address, is_write, false),
            (n - 1) as nat,
            is_write,
        )
    }
}

/// How many draws adding `n` accounts from the pool takes.
pub open spec fn contended_draws(pool: Seq<AccountView>, n: nat) -> nat {
    if pool.len() == 0 {
        0
    } else {
        n
    }
}

/// How many accounts the draws `d` choose to add to an instruction that touches
/// `touched` accounts: some to be read and some to be written.
pub open spec fn contention_counts(d: Seq<u32>, touched: nat) -> (nat, nat) {
    if touched < MAX_INSTRUCTION_ACCOUNTS {
        let total = d[0] as int % (MAX_INSTRUCTION_ACCOUNTS - touched);
        if total > 0 {
            let read_only = d[1] as int % total;
            (read_only as nat, (total - read_only) as nat)
        } else {
            (0, 0)
        }
    } else {
        (0, 0)
    }
}

/// How many draws choosing those numbers takes.
pub open spec fn count_draws(d: Seq<u32>, touched: nat) -> nat {
    if touched < MAX_INSTRUCTION_ACCOUNTS {
        if d[0] as int % (MAX_INSTRUCTION_ACCOUNTS - touched) > 0 {
            2
        } else {
            1
        }
    } else {
        0
    }
}

/// `accounts` with the accounts added that the draws `d` choose from the pool.
pub open spec fn with_contention(
    d: Seq<u32>,
    pool: Seq<AccountView>,
    accounts: Seq<CommandAccount>,
) -> Seq<CommandAccount> {
    let (read_only, read_write) = contention_counts(d, accounts.len());
    let after_counts = d.skip(count_draws(d, accounts.len()) as int);
    let after_reads = after_counts.skip(contended_draws(pool, read_only) as int);
    contended(
        after_reads,
        pool,
        contended(after_counts, pool, accounts, read_only, false),
        read_write,
        true,
    )
}

/// How many draws adding accounts for contention takes.
pub open spec fn contention_draws(d: Seq<u32>, pool: Seq<AccountView>, touched: nat) -> nat {
    let (read_only, read_write) = contention_counts(d, touched);
    count_draws(d, touched) + contended_draws(pool, read_only) + contended_draws(pool, read_write)
}

/// Draws that come after those that adding accounts takes do not matter to it.
proof fn lemma_contended_local(
    d: Seq<u32>,
    t: Seq<u32>,
    pool: Seq<AccountView>,
    accounts: Seq<CommandAccount>,
    n: nat,
    is_write: bool,
)
    requires
        contended_draws(pool, n) <= d.len(),
    ensures
        contended(d + t, pool, accounts, n, is_write) == contended(d, pool, accounts, n, is_write),
    decreases n,
{
    if n > 0 && pool.len() > 0 {
        assert((d + t)[0] == d[0]);
        assert((d + t).skip(1) =~= d.skip(1) + t);
        let address = pubkey_with(pool[pick(d[0], pool.len() as int)].address);
        lemma_contended_local(
            d.skip(1),
            t,
            pool,
            with_account(accounts, address, is_write, false),
            (n - 1) as nat,
            is_write,
        );
    }
}

/// Draws that come after those that adding accounts for contention takes do not
/// matter to it.
pub proof fn lemma_contention_local(
    d: Seq<u32>,
    t: Seq<u32>,
    pool: Seq<AccountView>,
    accounts: Seq<CommandAccount>,
)
    requires
        contention_draws(d, pool, accounts.len()) <= d.len(),
    ensures
        with_contention(d + t, pool, accounts) == with_contention(d, pool, accounts),
        contention_draws(d + t, pool, accounts.len()) == contention_draws(d, pool, accounts.len()),
{
    let touched = accounts.len();
    assert forall|i: int| 0 <= i < d.len() implies #[trigger] (d + t)[i] == d[i] by {}
    let n = count_draws(d, touched) as int;
    if touched < MAX_INSTRUCTION_ACCOUNTS {
        assert((d + t)[0] == d[0]);
    }
    assert(contention_counts(d + t, touched) == contention_counts(d, touched));
    let (read_only, read_write) = contention_counts(d, touched);
    assert((d + t).skip(n) =~= d.skip(n) + t);
    let after_counts = d.skip(n);
    lemma_contended_local(after_counts, t, pool, accounts, read_only, false);
    let m = contended_draws(pool, read_only) as int;
    assert((after_counts + t).skip(m) =~= after_counts.skip(m) + t);
    lemma_contended_local(
        after_counts.skip(m),
        t,
        pool,
        contended(after_counts, pool, accounts, read_only, false),
        read_write,
        true,
    );
}

/// Adds `n` accounts from the pool, at random.
fn add_random_accounts(
    rng: &mut Draws,
    pool: &Accounts,
    accounts: &mut CommandAccounts,
    n: u32,
    is_write: bool,
)
    requires
        old(accounts).wf(),
    ensures
        final(accounts).wf(),
        final(rng).follows(*old(rng)),
        final(rng).since(*old(rng)).len() == contended_draws(pool@, n as nat),
        final(accounts)@ == contended(
            final(rng).since(*old(rng)),
            pool@,
            old(accounts)@,
            n as nat,
            is_write,
        ),
{
    let ghost start: Draws = *rng;
    let ghost initial: Seq<CommandAccount> = accounts@;
    let mut i: u32 = 0;
    proof {
        lemma_follows_reflexive(start);
        assert forall|t: Seq<u32>|
            #[trigger] contended(rng.since(start) + t, pool@, initial, n as nat, is_write)
                == contended(t, pool@, accounts@, n as nat, is_write) by {
            assert(rng.since(start) + t =~= t);
        }
    }
    while i < n
        invariant
            i <= n,
            start == *old(rng),
            initial == old(accounts)@,
            accounts.wf(),
            rng.follows(start),
            rng.since(start).len() == contended_draws(pool@, i as nat),
            forall|t: Seq<u32>|
                #[trigger] contended(rng.since(start) + t, pool@, initial, n as nat, is_write)
                    == contended(t, pool@, accounts@, (n - i) as nat, is_write),
        decreases n - i,
    {
        let ghost before: Draws = *rng;
        let ghost used: Seq<u32> = rng.since(start);
        let ghost accounts_before: Seq<CommandAccount> = accounts@;
        let chosen = pool.get_random_account(rng);
        let ghost d: Seq<u32> = rng.since(before);
        proof {
            lemma_follows_transitive(start, before, *rng);
        }
        match chosen {
            Some(account) => {
                accounts.add(&account.address, is_write, false);
                proof {
                    lemma_pubkey_with(account.address);
                }
            },
            None => {},
        }
        proof {
            assert forall|t: Seq<u32>|
                #[trigger] contended(rng.since(start) + t, pool@, initial, n as nat, is_write)
                    == contended(t, pool@, accounts@, (n - i - 1) as nat, is_write) by {
                assert((used + d) + t =~= used + (d + t));
                assert(contended(used + (d + t), pool@, initial, n as nat, is_write) == contended(
                    d + t,
                    pool@,
                    accounts_before,
                    (n - i) as nat,
                    is_write,
                ));
                if pool@.len() > 0 {
                    assert((d + t)[0] == d[0]);
                    assert((d + t).skip(1) =~= t);
                } else {
                    assert(d + t =~= t);
                }
            }
        }
        i = i + 1;
    }
    proof {
        let used = rng.since(start);
        assert(used + Seq::<u32>::empty() =~= used);
        assert(contended(used, pool@, initial, n as nat, is_write) == contended(
            Seq::empty(),
            pool@,
            accounts@,
            0,
            is_write,
        ));
    }
}

/// Adds accounts from the pool to those that an instruction touches, so that
/// transactions contend for them.
pub fn add_contention(rng: &mut Draws, pool: &Accounts, accounts: &mut CommandAccounts)
    requires
        old(accounts).wf(),
    ensures
        final(accounts).wf(),
        final(rng).follows(*old(rng)),
        final(rng).since(*old(rng)).len() == contention_draws(
            final(rng).since(*old(rng)),
            pool@,
            old(accounts)@.len(),
        ),
        final(accounts)@ == with_contention(
            final(rng).since(*old(rng)),
            pool@,
            old(accounts)@,
        ),
{
    let ghost start: Draws = *rng;
    let ghost initial: Seq<CommandAccount> = accounts@;
    let touched: usize = accounts.count();
    if touched >= MAX_INSTRUCTION_ACCOUNTS {
        proof {
            lemma_follows_reflexive(start);
        }
        return ;
    }
    let room: u32 = (MAX_INSTRUCTION_ACCOUNTS - touched) as u32;
    let total: u32 = rng.next_u32() % room;
    if total == 0 {
        return ;
    }
    let ghost first: Draws = *rng;
    let read_only: u32 = rng.next_u32() % total;
    let read_write: u32 = total - read_only;
    let ghost counted: Draws = *rng;
    proof {
        lemma_follows_transitive(start, first, counted);
    }
    let ghost c: Seq<u32> = counted.since(start);
    add_random_accounts(rng, pool, accounts, read_only, false);
    let ghost read: Draws = *rng;
    let ghost r: Seq<u32> = read.since(counted);
    let ghost after_reads: Seq<CommandAccount> = accounts@;
    add_random_accounts(rng, pool, accounts, read_write, true);
    let ghost w: Seq<u32> = rng.since(read);
    proof {
        lemma_follows_transitive(start, counted, read);
        lemma_follows_transitive(start, read, *rng);
        let d = rng.since(start);
        assert(d == (c + r) + w);
        assert(d[0] == c[0] && d[1] == c[1]);
        assert(contention_counts(d, initial.len()) == (read_only as nat, read_write as nat));
        assert(d.skip(2) =~= r + w);
        lemma_contended_local(r, w, pool@, initial, read_only as nat, false);
        assert((r + w).skip(r.len() as int) =~= w);
    }
}

/// The instructions that come of grouping commands, and the number of draws.
pub ghost struct Grouping {
    pub instructions: Seq<InstructionView>,
    pub draws: nat,
}

/// The group that a draw makes of the commands at the front.
pub open spec fn first_group(count_draw: u32, commands: Seq<PlannedView>) -> Group {
    group_of(
        commands,
        (pick(count_draw, commands.len() as int) + 1) as nat,
        0,
        Seq::empty(),
        Seq::empty(),
    )
}

/// The instructions for `program_id` that the draws `d` make of the commands: as
/// long as there are commands, a random number of them becomes one instruction,
/// with accounts from the pool added. A group without a byte becomes none.
pub open spec fn grouping_of(
    d: Seq<u32>,
    commands: Seq<PlannedView>,
    program_id: Pubkey,
    pool: Seq<AccountView>,
) -> Grouping
    decreases commands.len(),
{
    if commands.len() == 0 {
        Grouping { instructions: Seq::empty(), draws: 0 }
    } else {
        let group = first_group(d[0], commands);
        proof {
            lemma_group_progress(
                commands,
                (pick(d[0], commands.len() as int) + 1) as nat,
                0,
                Seq::empty(),
                Seq::empty(),
            );
        }
        if group.data.len() == 0 {
            let rest = grouping_of(d.skip(1), group.rest, program_id, pool);
            Grouping { instructions: rest.instructions, draws: 1 + rest.draws }
        } else {
            let more = d.skip(1);
            let n = contention_draws(more, pool, group.accounts.len());
            let instruction = group_instruction(more, group, program_id, pool);
            let rest = grouping_of(more.skip(n as int), group.rest, program_id, pool);
            Grouping {
                instructions: seq![instruction] + rest.instructions,
                draws: 1 + n + rest.draws,
            }
        }
    }
}

/// A first group leaves fewer commands.
pub proof fn lemma_first_group_progress(count_draw: u32, commands: Seq<PlannedView>)
    requires
        commands.len() > 0,
    ensures
        first_group(count_draw, commands).rest.len() < commands.len(),
        first_group(count_draw, commands).rest == commands.skip(
            commands.len() - first_group(count_draw, commands).rest.len(),
        ),
{
    assert(pick(count_draw, commands.len() as int) >= 0);
    lemma_group_progress(
        commands,
        (pick(count_draw, commands.len() as int) + 1) as nat,
        0,
        Seq::empty(),
        Seq::empty(),
    );
}

/// Draws that come after those that grouping takes do not matter to it.
pub proof fn lemma_grouping_local(
    d: Seq<u32>,
    t: Seq<u32>,
    commands: Seq<PlannedView>,
    program_id: Pubkey,
    pool: Seq<AccountView>,
)
    requires
        grouping_of(d, commands, program_id, pool).draws <= d.len(),
    ensures
        grouping_of(d + t, commands, program_id, pool) == grouping_of(
            d,
            commands,
            program_id,
            pool,
        ),
    decreases commands.len(),
{
    if commands.len() > 0 {
        lemma_first_group_progress(d[0], commands);
        assert((d + t)[0] == d[0]);
        let group = first_group(d[0], commands);
        let more = d.skip(1);
        assert((d + t).skip(1) =~= more + t);
        if group.data.len() == 0 {
            lemma_grouping_local(more, t, group.rest, program_id, pool);
        } else {
            let n = contention_draws(more, pool, group.accounts.len()) as int;
            lemma_contention_local(more, t, pool, group.accounts);
            assert((more + t).skip(n) =~= more.skip(n) + t);
            lemma_grouping_local(more.skip(n), t, group.rest, program_id, pool);
        }
    }
}

/// The instruction that comes of a group.
pub open spec fn group_instruction(
    d: Seq<u32>,
    group: Group,
    program_id: Pubkey,
    pool: Seq<AccountView>,
) -> InstructionView {
    InstructionView {
        program_id,
        accounts: metas_of(with_contention(d, pool, group.accounts)),
        data: group.data,
    }
}

/// One step of grouping, where the first draw makes a group without a byte.
proof fn lemma_grouping_skips(
    draw: u32,
    t: Seq<u32>,
    commands: Seq<PlannedView>,
    program_id: Pubkey,
    pool: Seq<AccountView>,
)
    requires
        commands.len() > 0,
        first_group(draw, commands).data.len() == 0,
    ensures
        grouping_of(seq![draw] + t, commands, program_id, pool) == regrouped(
            Seq::empty(),
            1,
            grouping_of(t, first_group(draw, commands).rest, program_id, pool),
        ),
{
    let d = seq![draw] + t;
    lemma_first_group_progress(draw, commands);
    assert(d[0] == draw);
    assert(d.skip(1) =~= t);
    let rest = grouping_of(t, first_group(draw, commands).rest, program_id, pool);
    assert(Seq::<InstructionView>::empty() + rest.instructions =~= rest.instructions);
}

/// One step of grouping, where the first draw makes a group and the draws `c` add
/// accounts to it.
proof fn lemma_grouping_adds(
    draw: u32,
    c: Seq<u32>,
    t: Seq<u32>,
    commands: Seq<PlannedView>,
    program_id: Pubkey,
    pool: Seq<AccountView>,
)
    requires
        commands.len() > 0,
        first_group(draw, commands).data.len() > 0,
        c.len() == contention_draws(c, pool, first_group(draw, commands).accounts.len()),
    ensures
        grouping_of(seq![draw] + (c + t), commands, program_id, pool) == regrouped(
            seq![group_instruction(c, first_group(draw, commands), program_id, pool)],
            1 + c.len(),
            grouping_of(t, first_group(draw, commands).rest, program_id, pool),
        ),
{
    let d = seq![draw] + (c + t);
    let group = first_group(draw, commands);
    lemma_first_group_progress(draw, commands);
    assert(d[0] == draw);
    assert(d.skip(1) =~= c + t);
    lemma_contention_local(c, t, pool, group.accounts);
    assert((c + t).skip(c.len() as int) =~= t);
}

/// Going on after what was already gone on with.
proof fn lemma_regrouped_twice(
    a: Seq<InstructionView>,
    m: nat,
    b: Seq<InstructionView>,
    n: nat,
    rest: Grouping,
)
    ensures
        regrouped(a, m, regrouped(b, n, rest)) == regrouped(a + b, m + n, rest),
{
    assert(a + (b + rest.instructions) =~= (a + b) + rest.instructions);
}

/// All commands list their accounts properly and take few enough compute units to
/// be added up.
pub open spec fn commands_ok(commands: Seq<PlannedCommand>) -> bool {
    forall|i: int|
        0 <= i < commands.len() ==> (#[trigger] commands[i]).accounts.wf()
            && commands[i].compute_units <= u32::MAX - MAX_INSTRUCTION_COMPUTE_UNITS
}

/// Collects the next `count` commands for an instruction.
pub fn take_group(commands: &mut Vec<PlannedCommand>, count: u32) -> (group: (
    Vec<u8>,
    CommandAccounts,
))
    requires
        count <= old(commands)@.len(),
        commands_ok(old(commands)@),
    ensures
        commands_ok(final(commands)@),
        final(commands)@.len() <= old(commands)@.len(),
        group.1.wf(),
        ({
            let expected = group_of(
                planned_views(old(commands)@),
                count as nat,
                0,
                Seq::empty(),
                Seq::empty(),
            );
            &&& group.0@ == expected.data
            &&& group.1@ == expected.accounts
            &&& planned_views(final(commands)@) == expected.rest
        }),
{
    let ghost all: Seq<PlannedView> = planned_views(commands@);
    let mut left: u32 = count;
    let mut units: u32 = 0;
    let mut data: Vec<u8> = Vec::new();
    let mut accounts = CommandAccounts::new();
    assert(data@ =~= Seq::empty());
    assert(accounts@ =~= Seq::empty());
    while left > 0
        invariant
            all == planned_views(old(commands)@),
            left <= commands@.len() <= old(commands)@.len(),
            commands_ok(commands@),
            accounts.wf(),
            units <= MAX_INSTRUCTION_COMPUTE_UNITS,
            group_of(all, count as nat, 0, Seq::empty(), Seq::empty()) == group_of(
                planned_views(commands@),
                left as nat,
                units as int,
                data@,
                accounts@,
            ),
        decreases left,
    {
        let ghost before: Seq<PlannedView> = planned_views(commands@);
        assert(commands@[0].compute_units <= u32::MAX - MAX_INSTRUCTION_COMPUTE_UNITS);
        let next: PlannedCommand = commands.remove(0);
        assert(planned_views(commands@) =~= before.drop_first());
        assert(before[0] == next@);
        units = units + next.compute_units;
        if units > MAX_INSTRUCTION_COMPUTE_UNITS {
            return (data, accounts);
        }
        crate::bytes::write(&mut data, next.data.as_slice());
        accounts.add_command_accounts(&next.accounts);
        left = left - 1;
    }
    (data, accounts)
}

/// Grouping all the commands with the draws `used` first makes the instructions `done`,
/// and then groups the commands that are left with the draws that follow.
#[verifier::opaque]
spec fn grouped_so_far(
    used: Seq<u32>,
    all: Seq<PlannedView>,
    done: Seq<InstructionView>,
    left: Seq<PlannedView>,
    program_id: Pubkey,
    pool: Seq<AccountView>,
) -> bool {
    forall|t: Seq<u32>| #[trigger]
        grouping_of(used + t, all, program_id, pool) == regrouped(
            done,
            used.len(),
            grouping_of(t, left, program_id, pool),
        )
}

/// Without a draw nothing is grouped.
proof fn lemma_grouped_none(all: Seq<PlannedView>, program_id: Pubkey, pool: Seq<AccountView>)
    ensures
        grouped_so_far(Seq::empty(), all, Seq::empty(), all, program_id, pool),
{
    reveal(grouped_so_far);
    let none = Seq::<u32>::empty();
    assert forall|t: Seq<u32>| #[trigger]
        grouping_of(none + t, all, program_id, pool) == regrouped(
            Seq::empty(),
            0,
            grouping_of(t, all, program_id, pool),
        ) by {
        assert(none + t =~= t);
        let rest = grouping_of(t, all, program_id, pool);
        assert(Seq::<InstructionView>::empty() + rest.instructions =~= rest.instructions);
    }
}

/// The next draw makes a group without a byte.
proof fn lemma_grouped_skips(
    used: Seq<u32>,
    draw: u32,
    all: Seq<PlannedView>,
    done: Seq<InstructionView>,
    left: Seq<PlannedView>,
    program_id: Pubkey,
    pool: Seq<AccountView>,
)
    requires
        grouped_so_far(used, all, done, left, program_id, pool),
        left.len() > 0,
        first_group(draw, left).data.len() == 0,
    ensures
        grouped_so_far(
            used + seq![draw],
            all,
            done,
            first_group(draw, left).rest,
            program_id,
            pool,
        ),
{
    reveal(grouped_so_far);
    let more = used + seq![draw];
    let rest_left = first_group(draw, left).rest;
    assert forall|t: Seq<u32>| #[trigger]
        grouping_of(more + t, all, program_id, pool) == regrouped(
            done,
            more.len(),
            grouping_of(t, rest_left, program_id, pool),
        ) by {
        let d = seq![draw] + t;
        assert(more + t =~= used + d);
        lemma_grouping_skips(draw, t, left, program_id, pool);
        let rest = grouping_of(t, rest_left, program_id, pool);
        lemma_regrouped_twice(done, used.len(), Seq::empty(), 1, rest);
        assert(done + Seq::<InstructionView>::empty() =~= done);
    }
}

/// The next draw makes a group, and the draws `c` add accounts to it.
proof fn lemma_grouped_adds(
    used: Seq<u32>,
    draw: u32,
    c: Seq<u32>,
    all: Seq<PlannedView>,
    done: Seq<InstructionView>,
    left: Seq<PlannedView>,
    program_id: Pubkey,
    pool: Seq<AccountView>,
)
    requires
        grouped_so_far(used, all, done, left, program_id, pool),
        left.len() > 0,
        first_group(draw, left).data.len() > 0,
        c.len() == contention_draws(c, pool, first_group(draw, left).accounts.len()),
    ensures
        grouped_so_far(
            used + seq![draw] + c,
            all,
            done + seq![group_instruction(c, first_group(draw, left), program_id, pool)],
            first_group(draw, left).rest,
            program_id,
            pool,
        ),
{
    reveal(grouped_so_far);
    let more = used + seq![draw] + c;
    let group = first_group(draw, left);
    let made = seq![group_instruction(c, group, program_id, pool)];
    assert forall|t: Seq<u32>| #[trigger]
        grouping_of(more + t, all, program_id, pool) == regrouped(
            done + made,
            more.len(),
            grouping_of(t, group.rest, program_id, pool),
        ) by {
        let d = seq![draw] + (c + t);
        assert(more + t =~= used + d);
        lemma_grouping_adds(draw, c, t, left, program_id, pool);
        let rest = grouping_of(t, group.rest, program_id, pool);
        lemma_regrouped_twice(done, used.len(), made, 1 + c.len(), rest);
    }
}

/// Once no command is left, the grouping is complete.
proof fn lemma_grouped_all(
    used: Seq<u32>,
    all: Seq<PlannedView>,
    done: Seq<InstructionView>,
    program_id: Pubkey,
    pool: Seq<AccountView>,
)
    requires
        grouped_so_far(used, all, done, Seq::empty(), program_id, pool),
    ensures
        grouping_of(used, all, program_id, pool) == (Grouping {
            instructions: done,
            draws: used.len(),
        }),
{
    reveal(grouped_so_far);
    let none = Seq::<u32>::empty();
    assert(used + none =~= used);
    let rest = grouping_of(none, Seq::empty(), program_id, pool);
    assert(done + rest.instructions =~= done);
    assert(grouping_of(used + none, all, program_id, pool) == regrouped(done, used.len(), rest));
}

/// Makes instructions for `program_id` of the commands, in random groups.
#[verifier::spinoff_prover]
pub fn group_commands(
    rng: &mut Draws,
    commands: Vec<PlannedCommand>,
    program_id: &Pubkey,
    pool: &Accounts,
) -> (instructions: Vec<Instruction>)
    requires
        commands_ok(commands@),
        commands@.len() <= u32::MAX,
    ensures
        final(rng).follows(*old(rng)),
        ({
            let d = final(rng).since(*old(rng));
            let expected = grouping_of(d, planned_views(commands@), *program_id, pool@);
            &&& d.len() == expected.draws
            &&& instruction_views(instructions@) == expected.instructions
        }),
{
    let ghost start: Draws = *rng;
    let ghost all: Seq<PlannedView> = planned_views(commands@);
    let mut left: Vec<PlannedCommand> = commands;
    let mut instructions: Vec<Instruction> = Vec::new();
    proof {
        lemma_follows_reflexive(start);
        lemma_grouped_none(all, *program_id, pool@);
        assert(instruction_views(instructions@) =~= Seq::empty());
    }
    while left.len() > 0
        invariant
            start == *old(rng),
            commands_ok(left@),
            left@.len() <= u32::MAX,
            rng.follows(start),
            grouped_so_far(
                rng.since(start),
                all,
                instruction_views(instructions@),
                planned_views(left@),
                *program_id,
                pool@,
            ),
        decreases left@.len(),
    {
        let ghost before: Draws = *rng;
        let ghost used: Seq<u32> = rng.since(start);
        let ghost done: Seq<InstructionView> = instruction_views(instructions@);
        let ghost views: Seq<PlannedView> = planned_views(left@);
        let draw: u32 = rng.next_u32();
        let ghost counted: Draws = *rng;
        let count: u32 = draw % (left.len() as u32) + 1;
        let ghost group: Group = first_group(draw, views);
        proof {
            lemma_follows_transitive(start, before, counted);
            lemma_first_group_progress(draw, views);
        }
        let (data, group_accounts): (Vec<u8>, CommandAccounts) = take_group(&mut left, count);
        let mut accounts = group_accounts;
        if data.len() > 0 {
            add_contention(rng, pool, &mut accounts);
            let ghost c: Seq<u32> = rng.since(counted);
            let metas: Vec<AccountMeta> = accounts.get_account_metas();
            instructions.push(Instruction { program_id: *program_id, accounts: metas, data });
            proof {
                lemma_follows_transitive(start, counted, *rng);
                let instruction = group_instruction(c, group, *program_id, pool@);
                assert(instruction_views(instructions@) =~= done + seq![instruction]);
                lemma_grouped_adds(used, draw, c, all, done, views, *program_id, pool@);
            }
        } else {
            proof {
                lemma_grouped_skips(used, draw, all, done, views, *program_id, pool@);
            }
        }
    }
    proof {
        assert(planned_views(left@) =~= Seq::empty());
        lemma_grouped_all(
            rng.since(start),
            all,
            instruction_views(instructions@),
            *program_id,
            pool@,
        );
    }
    instructions
}

/// The grouping that begins with `instructions`, which took `draws` draws, and goes
/// on as `rest`.
pub open spec fn regrouped(
    instructions: Seq<InstructionView>,
    draws: nat,
    rest: Grouping,
) -> Grouping {
    Grouping {
        instructions: instructions + rest.instructions,
        draws: draws + rest.draws,
    }
}

/// The data of commands, one after the other.
pub open spec fn joined_data(commands: Seq<PlannedView>) -> Seq<u8>
    decreases commands.len(),
{
    if commands.len() == 0 {
        Seq::empty()
    } else {
        commands[0].data + joined_data(commands.drop_first())
    }
}

/// How many of the next `count` commands are collected into a group that has
/// `units` compute units already.
pub open spec fn collected(commands: Seq<PlannedView>, count: nat, units: int) -> nat
    decreases count,
{
    if count == 0 || commands.len() == 0 || units + commands[0].compute_units
        > MAX_INSTRUCTION_COMPUTE_UNITS {
        0
    } else {
        1 + collected(
            commands.drop_first(),
            (count - 1) as nat,
            units + commands[0].compute_units,
        )
    }
}

/// A group is the data of commands in their order, within the compute units of one
/// instruction. Either all the commands that were asked for are in it, or the next
/// one would have taken too many compute units, and that one is dropped. The others
/// are left in their order.
pub proof fn group_is_in_order(
    commands: Seq<PlannedView>,
    count: nat,
    units: int,
    data: Seq<u8>,
    accounts: Seq<CommandAccount>,
)
    requires
        count <= commands.len(),
        0 <= units <= MAX_INSTRUCTION_COMPUTE_UNITS,
    ensures
        ({
            let group = group_of(commands, count, units, data, accounts);
            let k = collected(commands, count, units);
            &&& k <= count
            &&& group.data == data + joined_data(commands.take(k as int))
            &&& units + total_units(commands.take(k as int)) <= MAX_INSTRUCTION_COMPUTE_UNITS
            &&& if k == count {
                group.rest == commands.skip(k as int)
            } else {
                &&& group.rest == commands.skip(k as int + 1)
                &&& units + total_units(commands.take(k as int)) + commands[k as int].compute_units
                    > MAX_INSTRUCTION_COMPUTE_UNITS
            }
        }),
    decreases count,
{
    let group = group_of(commands, count, units, data, accounts);
    let k = collected(commands, count, units) as int;
    if count == 0 {
        assert(data + joined_data(commands.take(0)) =~= data);
        assert(commands.skip(0) =~= commands);
    } else {
        let next = commands[0];
        let rest = commands.drop_first();
        if units + next.compute_units > MAX_INSTRUCTION_COMPUTE_UNITS {
            assert(data + joined_data(commands.take(0)) =~= data);
            assert(commands.skip(1) =~= rest);
        } else {
            group_is_in_order(
                rest,
                (count - 1) as nat,
                units + next.compute_units,
                data + next.data,
                with_accounts(accounts, next.accounts),
            );
            assert(commands.take(k).drop_first() =~= rest.take(k - 1));
            assert((data + next.data) + joined_data(rest.take(k - 1)) =~= data + joined_data(
                commands.take(k),
            ));
            assert(rest.skip(k - 1) =~= commands.skip(k));
            if k < count {
                assert(rest.skip(k) =~= commands.skip(k + 1));
                assert(rest[k - 1] == commands[k]);
            }
        }
    }
}

/// Adding accounts from the pool adds at most as many as asked for, none that
/// signs, and none that is neither there nor in the pool.
proof fn lemma_contended_keeps(
    d: Seq<u32>,
    pool: Seq<AccountView>,
    accounts: Seq<CommandAccount>,
    n: nat,
    is_write: bool,
    address: Pubkey,
)
    requires
        proper_addresses(pool),
    ensures
        ({
            let after = contended(d, pool, accounts, n, is_write);
            &&& accounts.len() <= after.len() <= accounts.len() + n
            &&& permission(after, address).1 == permission(accounts, address).1
            &&& permission(accounts, address).0 ==> permission(after, address).0
            &&& has_account(accounts, address) ==> has_account(after, address)
            &&& has_account(after, address) ==> has_account(accounts, address) || has_address(
                pool,
                address.bytes@,
            )
            &&& distinct_accounts(accounts) ==> distinct_accounts(after)
        }),
    decreases n,
{
    if n > 0 && pool.len() > 0 {
        let at = pick(d[0], pool.len() as int);
        assert(0 <= at < pool.len());
        let chosen = pubkey_with(pool[at].address);
        use_is_recorded(accounts, chosen, is_write, false, address);
        lemma_contended_keeps(
            d.skip(1),
            pool,
            with_account(accounts, chosen, is_write, false),
            (n - 1) as nat,
            is_write,
            address,
        );
        if address == chosen {
            assert(is_address(pool[at].address));
            assert(has_address(pool, address.bytes@));
        }
    }
}

/// Accounts added for contention come from the pool and do not sign, what was there
/// keeps what it may do, and the instruction stays below the limit of accounts if
/// it was below it.
pub proof fn contention_adds_from_pool(
    d: Seq<u32>,
    pool: Seq<AccountView>,
    accounts: Seq<CommandAccount>,
    address: Pubkey,
)
    requires
        proper_addresses(pool),
    ensures
        ({
            let after = with_contention(d, pool, accounts);
            &&& accounts.len() < MAX_INSTRUCTION_ACCOUNTS ==> after.len()
                < MAX_INSTRUCTION_ACCOUNTS
            &&& accounts.len() >= MAX_INSTRUCTION_ACCOUNTS ==> after == accounts
            &&& permission(after, address).1 == permission(accounts, address).1
            &&& permission(accounts, address).0 ==> permission(after, address).0
            &&& has_account(accounts, address) ==> has_account(after, address)
            &&& has_account(after, address) ==> has_account(accounts, address) || has_address(
                pool,
                address.bytes@,
            )
            &&& distinct_accounts(accounts) ==> distinct_accounts(after)
        }),
{
    let (read_only, read_write) = contention_counts(d, accounts.len());
    let after_counts = d.skip(count_draws(d, accounts.len()) as int);
    let after_reads = after_counts.skip(contended_draws(pool, read_only) as int);
    lemma_contended_keeps(after_counts, pool, accounts, read_only, false, address);
    lemma_contended_keeps(
        after_reads,
        pool,
        contended(after_counts, pool, accounts, read_only, false),
        read_write,
        true,
        address,
    );
}

/// Every instruction that comes of grouping calls the one program and has data, and
/// there are no more of them than commands.
pub proof fn grouping_makes_calls(
    d: Seq<u32>,
    commands: Seq<PlannedView>,
    program_id: Pubkey,
    pool: Seq<AccountView>,
)
    ensures
        ({
            let instructions = grouping_of(d, commands, program_id, pool).instructions;
            &&& instructions.len() <= commands.len()
            &&& forall|i: int|
                0 <= i < instructions.len() ==> (#[trigger] instructions[i]).program_id
                    == program_id && instructions[i].data.len() > 0
        }),
    decreases commands.len(),
{
    if commands.len() > 0 {
        lemma_first_group_progress(d[0], commands);
        let group = first_group(d[0], commands);
        let more = d.skip(1);
        if group.data.len() == 0 {
            grouping_makes_calls(more, group.rest, program_id, pool);
        } else {
            let n = contention_draws(more, pool, group.accounts.len());
            grouping_makes_calls(more.skip(n as int), group.rest, program_id, pool);
            let first = group_instruction(more, group, program_id, pool);
            let rest = grouping_of(more.skip(n as int), group.rest, program_id, pool).instructions;
            let all = grouping_of(d, commands, program_id, pool).instructions;
            assert(all == seq![first] + rest);
            assert forall|i: int| 0 <= i < all.len() implies (#[trigger] all[i]).program_id
                == program_id && all[i].data.len() > 0 by {
                if i > 0 {
                    assert(all[i] == rest[i - 1]);
                }
            }
        }
    }
}

/// Commands that fit one instruction together are all collected.
proof fn lemma_all_collected(commands: Seq<PlannedView>, count: nat, units: int)
    requires
        count <= commands.len(),
        units + total_units(commands) <= MAX_INSTRUCTION_COMPUTE_UNITS,
        0 <= units,
    ensures
        collected(commands, count, units) == count,
    decreases count,
{
    if count > 0 {
        lemma_all_collected(
            commands.drop_first(),
            (count - 1) as nat,
            units + commands[0].compute_units,
        );
    }
}

/// The draw counts off how many commands a group takes. Where all of them together take no
/// more than 1400000 units, it takes just these from the front, and leaves the others.
pub proof fn draw_counts_off_the_group(draw: u32, commands: Seq<PlannedView>)
    requires
        commands.len() > 0,
        total_units(commands) <= 1_400_000,
    ensures
        ({
            let n = 1 + draw as int % commands.len() as int;
            let group = first_group(draw, commands);
            &&& 1 <= n <= commands.len()
            &&& group.data == joined_data(commands.take(n))
            &&& group.rest == commands.skip(n)
        }),
{
    let n = 1 + draw as int % commands.len() as int;
    vstd::arithmetic::div_mod::lemma_mod_bound(draw as int, commands.len() as int);
    lemma_all_collected(commands, n as nat, 0);
    group_is_in_order(commands, n as nat, 0, Seq::empty(), Seq::empty());
    let group = first_group(draw, commands);
    assert(Seq::<u8>::empty() + joined_data(commands.take(n)) =~= joined_data(commands.take(n)));
}

/// A command of more than 1400000 units is dropped: a group that comes to it ends there,
/// without it, and it is not left either.
pub proof fn too_large_a_command_is_dropped(draw: u32, commands: Seq<PlannedView>)
    requires
        commands.len() > 0,
        commands[0].compute_units > 1_400_000,
    ensures
        first_group(draw, commands).data.len() == 0,
        first_group(draw, commands).rest == commands.drop_first(),
{
    assert(pick(draw, commands.len() as int) >= 0);
}

/// A group touches the accounts that its commands touch, and may do with each what any of
/// them may.
pub proof fn group_touches_what_its_commands_touch(
    commands: Seq<PlannedView>,
    count: nat,
    units: int,
    data: Seq<u8>,
    accounts: Seq<CommandAccount>,
    address: Pubkey,
)
    ensures
        ({
            let k = collected(commands, count, units);
            let after = group_of(commands, count, units, data, accounts).accounts;
            &&& k <= commands.len()
            &&& has_account(after, address) <==> has_account(accounts, address) || exists|i: int|
                0 <= i < k && has_account((#[trigger] commands[i]).accounts, address)
            &&& permission(after, address).0 <==> permission(accounts, address).0 || exists|i: int|
                0 <= i < k && permission((#[trigger] commands[i]).accounts, address).0
            &&& permission(after, address).1 <==> permission(accounts, address).1 || exists|i: int|
                0 <= i < k && permission((#[trigger] commands[i]).accounts, address).1
        }),
    decreases count,
{
    if !(count == 0 || commands.len() == 0 || units + commands[0].compute_units
        > MAX_INSTRUCTION_COMPUTE_UNITS) {
        let next = commands[0];
        let rest = commands.drop_first();
        let grown = with_accounts(accounts, next.accounts);
        let k = collected(commands, count, units) as int;
        group_touches_what_its_commands_touch(
            rest,
            (count - 1) as nat,
            units + next.compute_units,
            data + next.data,
            grown,
            address,
        );
        uses_accumulate(accounts, next.accounts, address);
        assert forall|i: int| 0 <= i < rest.len() implies #[trigger] rest[i] == commands[i + 1] by {}
        if exists|i: int| 0 <= i < k && has_account((#[trigger] commands[i]).accounts, address) {
            let i = choose|i: int|
                0 <= i < k && has_account((#[trigger] commands[i]).accounts, address);
            if i > 0 {
                assert(has_account(rest[i - 1].accounts, address));
            }
        }
        if exists|i: int| 0 <= i < k && permission((#[trigger] commands[i]).accounts, address).0 {
            let i = choose|i: int|
                0 <= i < k && permission((#[trigger] commands[i]).accounts, address).0;
            if i > 0 {
                assert(permission(rest[i - 1].accounts, address).0);
            }
        }
        if exists|i: int| 0 <= i < k && permission((#[trigger] commands[i]).accounts, address).1 {
            let i = choose|i: int|
                0 <= i < k && permission((#[trigger] commands[i]).accounts, address).1;
            if i > 0 {
                assert(permission(rest[i - 1].accounts, address).1);
            }
        }
        if exists|i: int| 0 <= i < k - 1 && has_account((#[trigger] rest[i]).accounts, address) {
            let i = choose|i: int|
                0 <= i < k - 1 && has_account((#[trigger] rest[i]).accounts, address);
            assert(has_account(commands[i + 1].accounts, address));
        }
        if exists|i: int| 0 <= i < k - 1 && permission((#[trigger] rest[i]).accounts, address).0 {
            let i = choose|i: int|
                0 <= i < k - 1 && permission((#[trigger] rest[i]).accounts, address).0;
            assert(permission(commands[i + 1].accounts, address).0);
        }
        if exists|i: int| 0 <= i < k - 1 && permission((#[trigger] rest[i]).accounts, address).1 {
            let i = choose|i: int|
                0 <= i < k - 1 && permission((#[trigger] rest[i]).accounts, address).1;
            assert(permission(commands[i + 1].accounts, address).1);
        }
    }
}

/// The data of instructions, one after the other.
pub open spec fn all_data(instructions: Seq<InstructionView>) -> Seq<u8>
    decreases instructions.len(),
{
    if instructions.len() == 0 {
        Seq::empty()
    } else {
        instructions[0].data + all_data(instructions.drop_first())
    }
}

/// The units of commands behind the first ones are not more than of all.
proof fn lemma_units_left(commands: Seq<PlannedView>, n: int)
    requires
        0 <= n <= commands.len(),
    ensures
        total_units(commands.skip(n)) <= total_units(commands),
    decreases n,
{
    if n == 0 {
        assert(commands.skip(0) =~= commands);
    } else {
        lemma_units_left(commands.drop_first(), n - 1);
        assert(commands.drop_first().skip(n - 1) =~= commands.skip(n));
    }
}

/// The data of commands is that of the first ones and then that of the others.
proof fn lemma_data_joined(commands: Seq<PlannedView>, n: int)
    requires
        0 <= n <= commands.len(),
    ensures
        joined_data(commands) == joined_data(commands.take(n)) + joined_data(commands.skip(n)),
    decreases n,
{
    if n == 0 {
        assert(commands.skip(0) =~= commands);
        assert(joined_data(commands.take(0)) + joined_data(commands) =~= joined_data(commands));
    } else {
        let rest = commands.drop_first();
        lemma_data_joined(rest, n - 1);
        assert(rest.skip(n - 1) =~= commands.skip(n));
        assert(commands.take(n).drop_first() =~= rest.take(n - 1));
        assert(commands[0].data + (joined_data(rest.take(n - 1)) + joined_data(commands.skip(n)))
            =~= (commands[0].data + joined_data(rest.take(n - 1))) + joined_data(commands.skip(n)));
    }
}

/// Grouping loses nothing and adds nothing: where the commands together take no more than
/// 1400000 units, the data of the instructions, one after the other, is the data of the
/// commands, however they are grouped.
pub proof fn grouping_keeps_the_data(
    d: Seq<u32>,
    commands: Seq<PlannedView>,
    program_id: Pubkey,
    pool: Seq<AccountView>,
)
    requires
        total_units(commands) <= 1_400_000,
    ensures
        all_data(grouping_of(d, commands, program_id, pool).instructions) == joined_data(commands),
    decreases commands.len(),
{
    if commands.len() > 0 {
        let n = 1 + d[0] as int % commands.len() as int;
        draw_counts_off_the_group(d[0], commands);
        let group = first_group(d[0], commands);
        lemma_units_left(commands, n);
        lemma_data_joined(commands, n);
        let more = d.skip(1);
        let all = grouping_of(d, commands, program_id, pool).instructions;
        if group.data.len() == 0 {
            grouping_keeps_the_data(more, group.rest, program_id, pool);
            assert(group.data + joined_data(group.rest) =~= joined_data(group.rest));
        } else {
            let c = contention_draws(more, pool, group.accounts.len());
            grouping_keeps_the_data(more.skip(c as int), group.rest, program_id, pool);
            let rest = grouping_of(more.skip(c as int), group.rest, program_id, pool).instructions;
            assert(all.drop_first() =~= rest);
            assert(all[0].data == group.data);
        }
    }
}

/// Each draw goes into the next group: the first one counts it off, those that follow add
/// accounts to it, and the others group what is left. A group with data becomes the next
/// instruction, with what it and the contention touch; one without becomes none.
pub proof fn grouping_takes_one_group_after_the_other(
    d: Seq<u32>,
    commands: Seq<PlannedView>,
    program_id: Pubkey,
    pool: Seq<AccountView>,
)
    ensures
        ({
            let grouping = grouping_of(d, commands, program_id, pool);
            let group = first_group(d[0], commands);
            if commands.len() == 0 {
                grouping.instructions.len() == 0 && grouping.draws == 0
            } else if group.data.len() == 0 {
                let rest = grouping_of(d.skip(1), group.rest, program_id, pool);
                grouping.instructions == rest.instructions && grouping.draws == 1 + rest.draws
            } else {
                let n = contention_draws(d.skip(1), pool, group.accounts.len());
                let rest = grouping_of(d.skip(1).skip(n as int), group.rest, program_id, pool);
                let first = grouping.instructions[0];
                &&& grouping.instructions.len() > 0
                &&& first.program_id == program_id
                &&& first.data == group.data
                &&& first.accounts == metas_of(with_contention(d.skip(1), pool, group.accounts))
                &&& grouping.instructions.drop_first() == rest.instructions
                &&& grouping.draws == 1 + n + rest.draws
            }
        }),
{
    if commands.len() > 0 {
        lemma_first_group_progress(d[0], commands);
        let grouping = grouping_of(d, commands, program_id, pool);
        let group = first_group(d[0], commands);
        if group.data.len() > 0 {
            let n = contention_draws(d.skip(1), pool, group.accounts.len());
            let rest = grouping_of(d.skip(1).skip(n as int), group.rest, program_id, pool);
            assert(grouping.instructions.drop_first() =~= rest.instructions);
        }
    }
}

/// The draws count off how many accounts are added for contention: together fewer than
/// bring the instruction to twelve, and of them some to be read, never all.
pub proof fn draws_count_off_the_contention(d: Seq<u32>, touched: nat)
    ensures
        ({
            let (reads, writes) = contention_counts(d, touched);
            let draws = count_draws(d, touched);
            if touched >= 12 {
                reads == 0 && writes == 0 && draws == 0
            } else {
                &&& reads + writes == d[0] as int % (12 - touched)
                &&& reads + writes == 0 ==> draws == 1
                &&& reads + writes > 0 ==> draws == 2 && writes > 0 && reads == d[1] as int % (reads
                    + writes) as int
            }
        }),
{
    if touched < 12 {
        let total = d[0] as int % (12 - touched);
        vstd::arithmetic::div_mod::lemma_mod_bound(d[0] as int, 12 - touched);
        if total > 0 {
            vstd::arithmetic::div_mod::lemma_mod_bound(d[1] as int, total);
        }
    }
}

/// Whether one of the draws from the one at `from` to before the one at `to` counts off the
/// account at `address` in the pool.
pub open spec fn is_drawn(
    d: Seq<u32>,
    from: int,
    to: int,
    pool: Seq<AccountView>,
    address: Pubkey,
) -> bool {
    exists|j: int|
        from <= j < to && pubkey_with(pool[(#[trigger] d[j]) as int % pool.len() as int].address)
            == address
}

/// Adding accounts from a pool adds those that the draws count off, one each, and lets
/// them be written if they are added for that.
proof fn lemma_contended_adds(
    d: Seq<u32>,
    pool: Seq<AccountView>,
    accounts: Seq<CommandAccount>,
    n: nat,
    is_write: bool,
    address: Pubkey,
)
    requires
        pool.len() > 0,
        n <= d.len(),
    ensures
        ({
            let after = contended(d, pool, accounts, n, is_write);
            let drawn = is_drawn(d, 0, n as int, pool, address);
            &&& has_account(after, address) <==> has_account(accounts, address) || drawn
            &&& permission(after, address).0 <==> permission(accounts, address).0 || (drawn
                && is_write)
            &&& permission(after, address).1 <==> permission(accounts, address).1
        }),
    decreases n,
{
    if n > 0 {
        let chosen = pubkey_with(pool[pick(d[0], pool.len() as int)].address);
        let d1 = d.skip(1);
        use_is_recorded(accounts, chosen, is_write, false, address);
        lemma_contended_adds(
            d1,
            pool,
            with_account(accounts, chosen, is_write, false),
            (n - 1) as nat,
            is_write,
            address,
        );
        if is_drawn(d1, 0, n - 1, pool, address) {
            let j = choose|j: int|
                0 <= j < n - 1 && pubkey_with(
                    pool[(#[trigger] d1[j]) as int % pool.len() as int].address,
                ) == address;
            assert(d[j + 1] == d1[j]);
        }
        if is_drawn(d, 0, n as int, pool, address) {
            let j = choose|j: int|
                0 <= j < n && pubkey_with(
                    pool[(#[trigger] d[j]) as int % pool.len() as int].address,
                ) == address;
            if j > 0 {
                assert(d1[j - 1] == d[j]);
            }
        }
        if chosen == address {
            assert(pubkey_with(pool[d[0] as int % pool.len() as int].address) == address);
        }
    }
}

/// What is drawn behind some draws is drawn from there on.
proof fn lemma_drawn_behind(
    d: Seq<u32>,
    skipped: int,
    n: int,
    pool: Seq<AccountView>,
    address: Pubkey,
)
    requires
        0 <= skipped,
        0 <= n,
        skipped + n <= d.len(),
    ensures
        is_drawn(d.skip(skipped), 0, n, pool, address) <==> is_drawn(
            d,
            skipped,
            skipped + n,
            pool,
            address,
        ),
{
    let behind = d.skip(skipped);
    if is_drawn(behind, 0, n, pool, address) {
        let j = choose|j: int|
            0 <= j < n && pubkey_with(
                pool[(#[trigger] behind[j]) as int % pool.len() as int].address,
            ) == address;
        assert(d[skipped + j] == behind[j]);
    }
    if is_drawn(d, skipped, skipped + n, pool, address) {
        let j = choose|j: int|
            skipped <= j < skipped + n && pubkey_with(
                pool[(#[trigger] d[j]) as int % pool.len() as int].address,
            ) == address;
        assert(behind[j - skipped] == d[j]);
    }
}

/// The accounts that are added for contention are those that the draws behind the counts
/// count off in the pool: first those to be read, and then those to be written. Nothing
/// else is added or comes to be written, and nothing comes to sign.
pub proof fn draws_count_off_the_contended(
    d: Seq<u32>,
    pool: Seq<AccountView>,
    accounts: Seq<CommandAccount>,
    address: Pubkey,
)
    requires
        contention_draws(d, pool, accounts.len()) <= d.len(),
    ensures
        ({
            let after = with_contention(d, pool, accounts);
            let (reads, writes) = contention_counts(d, accounts.len());
            let c = count_draws(d, accounts.len());
            let read = is_drawn(d, c as int, (c + reads) as int, pool, address);
            let written = is_drawn(
                d,
                (c + reads) as int,
                (c + reads + writes) as int,
                pool,
                address,
            );
            &&& pool.len() == 0 ==> after == accounts && contention_draws(d, pool, accounts.len())
                == c
            &&& pool.len() > 0 ==> {
                &&& contention_draws(d, pool, accounts.len()) == c + reads + writes
                &&& has_account(after, address) <==> has_account(accounts, address) || read
                    || written
                &&& permission(after, address).0 <==> permission(accounts, address).0 || written
                &&& permission(after, address).1 <==> permission(accounts, address).1
            }
        }),
{
    let (reads, writes) = contention_counts(d, accounts.len());
    let c = count_draws(d, accounts.len()) as int;
    if pool.len() > 0 {
        let behind = d.skip(c);
        let far = behind.skip(reads as int);
        let read = contended(behind, pool, accounts, reads, false);
        lemma_contended_adds(behind, pool, accounts, reads, false, address);
        lemma_contended_adds(far, pool, read, writes, true, address);
        lemma_drawn_behind(d, c, reads as int, pool, address);
        assert(far =~= d.skip(c + reads));
        lemma_drawn_behind(d, c + reads, writes as int, pool, address);
    }
}

/// Instructions are listed one for one, in their order, with their program, their accounts
/// and their data.
pub proof fn instructions_are_listed_in_order(instructions: Seq<Instruction>, i: int)
    requires
        0 <= i < instructions.len(),
    ensures
        instruction_views(instructions).len() == instructions.len(),
        instruction_views(instructions)[i].program_id == instructions[i].program_id,
        instruction_views(instructions)[i].accounts == instructions[i].accounts@,
        instruction_views(instructions)[i].data == instructions[i].data@,
{
}

} // verus!
