//! The random choice of commands within a compute budget.

use vstd::prelude::*;

use crate::bytes::{le_bytes, le_bytes_round_trip, le_value};
use crate::commands::{
    add_alloc_command, add_cpu_command, add_fail_command, add_free_command, add_sysvar_command,
    alloc_bytes, cpu_bytes, fail_bytes, free_bytes, sysvar_bytes,
};
use crate::draws::{
    happens, lemma_follows_transitive, pick, pick_index, random_chance, Draws,
};

verus! {

// The compute units that the commands take, as observed of the test program. They
// err on the side of too much.
pub const FAIL_COMMAND_COST: u32 = 1000;

pub const CPU_COMMAND_COST_PER_ITERATION: u32 = 5000;

pub const ALLOC_COMMAND_COST: u32 = 100;

pub const FREE_COMMAND_COST: u32 = 100;

pub const SYSVAR_COMMAND_COST: u32 = 500;

// The chance of a command that fails: the single-precision number next to 0.001.
pub const FAIL_COMMAND_CHANCE_NUMERATOR: u64 = 8_589_935;

pub const FAIL_COMMAND_CHANCE_DENOMINATOR: u64 = 8_589_934_592;

/// The most bytes that a command allocates.
pub const MAX_ALLOC_BYTES: u32 = 1000;

/// How many indices there are to allocate memory under.
pub const MAX_ALLOCATIONS: usize = 256;

/// The indices that memory is allocated under, each of them once.
pub struct AllocatedIndices {
    indices: Vec<u8>,
}

/// No index is listed twice.
pub open spec fn distinct_indices(indices: Seq<u8>) -> bool {
    forall|i: int, j: int|
        0 <= i < j < indices.len() ==> #[trigger] indices[i] != #[trigger] indices[j]
}

/// `index` is the first index that nothing is allocated under.
pub open spec fn is_first_free(indices: Seq<u8>, index: u8) -> bool {
    &&& !indices.contains(index)
    &&& forall|k: u8| k < index ==> indices.contains(k)
}

/// The first index that nothing is allocated under.
pub open spec fn first_free(indices: Seq<u8>) -> u8 {
    choose|index: u8| is_first_free(indices, index)
}

/// There are `n` numbers below `n`.
proof fn lemma_numbers_below(n: int)
    requires
        0 <= n <= 256,
    ensures
        Set::new(|k: u8| k < n).finite(),
        Set::new(|k: u8| k < n).len() == n,
    decreases n,
{
    if n == 0 {
        assert(Set::new(|k: u8| k < n) =~= Set::empty());
    } else {
        lemma_numbers_below(n - 1);
        let top = (n - 1) as u8;
        assert(Set::new(|k: u8| k < n) =~= Set::new(|k: u8| k < n - 1).insert(top));
    }
}

/// A list that holds every index has at least as many entries as there are
/// indices.
proof fn lemma_all_indices(indices: Seq<u8>)
    requires
        forall|k: u8| indices.contains(k),
    ensures
        indices.len() >= 256,
{
    lemma_numbers_below(256);
    indices.lemma_cardinality_of_set();
    vstd::seq_lib::seq_to_set_is_finite(indices);
    let all = Set::new(|k: u8| k < 256);
    assert(all.subset_of(indices.to_set()));
    vstd::set_lib::lemma_len_subset(all, indices.to_set());
}

impl View for AllocatedIndices {
    type V = Seq<u8>;

    closed spec fn view(&self) -> Seq<u8> {
        self.indices@
    }
}

impl AllocatedIndices {
    /// No index is listed twice.
    pub open spec fn wf(self) -> bool {
        distinct_indices(self@)
    }

    /// Nothing is allocated.
    pub fn new() -> (indices: AllocatedIndices)
        ensures
            indices.wf(),
            indices@ == Seq::<u8>::empty(),
    {
        AllocatedIndices { indices: Vec::new() }
    }

    /// How many indices are allocated.
    pub fn len(&self) -> (n: usize)
        ensures
            n == self@.len(),
    {
        self.indices.len()
    }

    /// Whether memory is allocated under `index`.
    pub fn contains(&self, index: u8) -> (found: bool)
        ensures
            found == self@.contains(index),
    {
        let mut i: usize = 0;
        while i < self.indices.len()
            invariant
                i <= self.indices@.len(),
                forall|k: int| 0 <= k < i ==> self.indices@[k] != index,
            decreases self.indices@.len() - i,
        {
            if self.indices[i] == index {
                return true;
            }
            i = i + 1;
        }
        false
    }

    /// The first index that nothing is allocated under.
    pub fn first_free(&self) -> (index: u8)
        requires
            self@.len() < MAX_ALLOCATIONS,
        ensures
            is_first_free(self@, index),
            index == first_free(self@),
    {
        let mut index: u8 = 0;
        while self.contains(index)
            invariant
                self@.len() < MAX_ALLOCATIONS,
                forall|k: u8| k < index ==> self@.contains(k),
            decreases 255 - index,
        {
            if index == 255 {
                proof {
                    assert forall|k: u8| self@.contains(k) by {
                        if k < 255 {
                            assert(self@.contains(k));
                        }
                    }
                    lemma_all_indices(self@);
                }
                assert(false);
            }
            index = index + 1;
        }
        proof {
            let chosen = first_free(self@);
            assert(is_first_free(self@, index));
            assert(is_first_free(self@, chosen));
        }
        index
    }

    /// The index at a position of the list.
    pub fn nth(&self, i: usize) -> (index: u8)
        requires
            i < self@.len(),
        ensures
            index == self@[i as int],
    {
        self.indices[i]
    }

    /// Records an allocation under an index that was free.
    pub fn insert(&mut self, index: u8)
        requires
            old(self).wf(),
            !old(self)@.contains(index),
        ensures
            final(self).wf(),
            final(self)@ == old(self)@.push(index),
    {
        proof {
            assert forall|i: int| 0 <= i < self@.len() implies #[trigger] self@[i] != index by {
                assert(self@.contains(self@[i]));
            }
        }
        self.indices.push(index);
    }

    /// Forgets the allocation at a position of the list.
    pub fn remove_nth(&mut self, i: usize)
        requires
            old(self).wf(),
            i < old(self)@.len(),
        ensures
            final(self).wf(),
            final(self)@ == old(self)@.remove(i as int),
    {
        self.indices.remove(i);
    }
}

/// A command that can be chosen.
#[derive(Clone, Copy, Debug, PartialEq, Eq)]
pub enum Command {
    /// Fail with an error code.
    Fail { error_code: u8 },
    /// Do nothing, for want of budget.
    Idle,
    /// Keep the processor busy.
    Cpu { iterations: u32 },
    /// Allocate memory under an index.
    Alloc { amount: u32, index: u8 },
    /// Free the memory under an index.
    Free { index: u8 },
    /// Read the system variables.
    Sysvar,
}

/// The kinds of command that a choice is made from.
#[derive(Clone, Copy, Debug, PartialEq, Eq)]
pub enum CommandKind {
    Cpu,
    Alloc,
    Free,
    Sysvar,
}

/// The bytes of a command.
pub open spec fn command_bytes(command: Command) -> Seq<u8> {
    match command {
        Command::Fail { error_code } => fail_bytes(error_code),
        Command::Idle => Seq::empty(),
        Command::Cpu { iterations } => cpu_bytes(iterations),
        Command::Alloc { amount, index } => alloc_bytes(amount, index),
        Command::Free { index } => free_bytes(index),
        Command::Sysvar => sysvar_bytes(),
    }
}

/// The compute units that a command takes out of a budget.
pub open spec fn command_cost(command: Command, budget: u32) -> int {
    match command {
        Command::Fail { .. } => FAIL_COMMAND_COST as int,
        Command::Idle => budget as int,
        Command::Cpu { iterations } => iterations * CPU_COMMAND_COST_PER_ITERATION,
        Command::Alloc { .. } => ALLOC_COMMAND_COST as int,
        Command::Free { .. } => FREE_COMMAND_COST as int,
        Command::Sysvar => SYSVAR_COMMAND_COST as int,
    }
}

/// A list of one kind, or none.
pub open spec fn kind_if(possible: bool, kind: CommandKind) -> Seq<CommandKind> {
    if possible {
        seq![kind]
    } else {
        Seq::empty()
    }
}

/// The kinds of command that a budget leaves possible while memory is allocated
/// under `allocated` indices.
pub open spec fn possible_kinds(budget: u32, allocated: nat) -> Seq<CommandKind> {
    kind_if(budget >= CPU_COMMAND_COST_PER_ITERATION, CommandKind::Cpu) + kind_if(
        budget >= ALLOC_COMMAND_COST && allocated < MAX_ALLOCATIONS,
        CommandKind::Alloc,
    ) + kind_if(budget >= FREE_COMMAND_COST && allocated > 0, CommandKind::Free) + kind_if(
        budget >= SYSVAR_COMMAND_COST,
        CommandKind::Sysvar,
    )
}

/// Half of the rounds that a budget is good for, but at least one.
pub open spec fn half_iterations(budget: u32) -> u32 {
    let half = budget / (2 * CPU_COMMAND_COST_PER_ITERATION) as u32;
    if half == 0 {
        1
    } else {
        half
    }
}

/// The number of rounds that two draws settle: half the rounds that the budget is
/// good for, more or less up to as many again.
pub open spec fn chosen_iterations(budget: u32, offset_draw: u32, sign_draw: u32) -> int {
    let half = half_iterations(budget);
    let offset = offset_draw % half + 1;
    if sign_draw % 2 == 0 {
        half + offset
    } else {
        half - offset
    }
}

/// The command that the draws `d` choose, given the budget and the indices that
/// memory is allocated under.
pub open spec fn chosen_command(d: Seq<u32>, budget: u32, indices: Seq<u8>) -> Command {
    if happens(d[0], FAIL_COMMAND_CHANCE_NUMERATOR, FAIL_COMMAND_CHANCE_DENOMINATOR) {
        Command::Fail { error_code: (d[1] % 255 + 1) as u8 }
    } else {
        let kinds = possible_kinds(budget, indices.len());
        if kinds.len() == 0 {
            Command::Idle
        } else {
            match kinds[pick(d[1], kinds.len() as int)] {
                CommandKind::Cpu => Command::Cpu {
                    iterations: chosen_iterations(budget, d[2], d[3]) as u32,
                },
                CommandKind::Alloc => Command::Alloc {
                    amount: (d[2] % MAX_ALLOC_BYTES + 1) as u32,
                    index: first_free(indices),
                },
                CommandKind::Free => Command::Free {
                    index: indices[pick(d[2], indices.len() as int)],
                },
                CommandKind::Sysvar => Command::Sysvar,
            }
        }
    }
}

/// How many draws choosing a command takes.
pub open spec fn command_draws(d: Seq<u32>, budget: u32, indices: Seq<u8>) -> nat {
    match chosen_command(d, budget, indices) {
        Command::Fail { .. } => 2,
        Command::Idle => 1,
        Command::Cpu { .. } => 4,
        Command::Alloc { .. } => 3,
        Command::Free { .. } => 3,
        Command::Sysvar => 2,
    }
}

/// The indices that memory is allocated under after a command. An index that is
/// freed leaves the list where the draws `d` point.
pub open spec fn indices_after(d: Seq<u32>, command: Command, indices: Seq<u8>) -> Seq<u8> {
    match command {
        Command::Alloc { index, .. } => indices.push(index),
        Command::Free { .. } => indices.remove(pick(d[2], indices.len() as int)),
        _ => indices,
    }
}

/// The rounds that a command keeps the processor busy are at most twice the half,
/// and their cost is a number of compute units.
pub proof fn lemma_iterations_bounded(budget: u32, offset_draw: u32, sign_draw: u32)
    ensures
        0 <= chosen_iterations(budget, offset_draw, sign_draw) <= 2 * half_iterations(budget),
        chosen_iterations(budget, offset_draw, sign_draw) * CPU_COMMAND_COST_PER_ITERATION
            <= u32::MAX,
{
    let half = half_iterations(budget);
    assert(0 <= offset_draw % half < half);
    assert((2 * CPU_COMMAND_COST_PER_ITERATION) as u32 == 10_000u32);
    assert(budget / 10_000u32 <= 429_496);
}

/// The kinds of command that a budget leaves possible.
pub fn list_possible_kinds(budget: u32, allocated: usize) -> (kinds: Vec<CommandKind>)
    ensures
        kinds@ == possible_kinds(budget, allocated as nat),
{
    let mut kinds: Vec<CommandKind> = Vec::new();
    if budget >= CPU_COMMAND_COST_PER_ITERATION {
        kinds.push(CommandKind::Cpu);
    }
    if budget >= ALLOC_COMMAND_COST && allocated < MAX_ALLOCATIONS {
        kinds.push(CommandKind::Alloc);
    }
    if budget >= FREE_COMMAND_COST && allocated > 0 {
        kinds.push(CommandKind::Free);
    }
    if budget >= SYSVAR_COMMAND_COST {
        kinds.push(CommandKind::Sysvar);
    }
    assert(kinds@ =~= possible_kinds(budget, allocated as nat));
    kinds
}

/// The number of rounds that two draws settle.
pub fn iterations_for(budget: u32, offset_draw: u32, sign_draw: u32) -> (iterations: u32)
    ensures
        iterations == chosen_iterations(budget, offset_draw, sign_draw),
{
    proof {
        lemma_iterations_bounded(budget, offset_draw, sign_draw);
    }
    let mut half: u32 = budget / (2 * CPU_COMMAND_COST_PER_ITERATION);
    if half == 0 {
        half = 1;
    }
    let offset: u32 = offset_draw % half + 1;
    if sign_draw % 2 == 0 {
        half + offset
    } else {
        half - offset
    }
}

/// A command: its bytes and the compute units that it takes. Memory that it
/// allocates or frees is recorded in `allocated_indices`.
pub fn make_command(
    rng: &mut Draws,
    allocated_indices: &mut AllocatedIndices,
    compute_budget: u32,
) -> (made: (Vec<u8>, u32))
    requires
        old(allocated_indices).wf(),
    ensures
        final(allocated_indices).wf(),
        final(rng).follows(*old(rng)),
        ({
            let d = final(rng).since(*old(rng));
            let command = chosen_command(d, compute_budget, old(allocated_indices)@);
            &&& d.len() == command_draws(d, compute_budget, old(allocated_indices)@)
            &&& made.0@ == command_bytes(command)
            &&& made.1 == command_cost(command, compute_budget)
            &&& final(allocated_indices)@ == indices_after(d, command, old(allocated_indices)@)
        }),
{
    let ghost start: Draws = *rng;
    let ghost indices: Seq<u8> = allocated_indices@;
    let mut data: Vec<u8> = Vec::new();
    if random_chance(rng, FAIL_COMMAND_CHANCE_NUMERATOR, FAIL_COMMAND_CHANCE_DENOMINATOR) {
        let ghost chance: Draws = *rng;
        let code: u32 = rng.next_u32() % 255 + 1;
        proof {
            lemma_follows_transitive(start, chance, *rng);
        }
        add_fail_command(code as u8, &mut data);
        assert(data@ =~= fail_bytes(code as u8));
        return (data, FAIL_COMMAND_COST);
    }
    let ghost chance: Draws = *rng;
    let kinds: Vec<CommandKind> = list_possible_kinds(compute_budget, allocated_indices.len());
    if kinds.len() == 0 {
        return (data, compute_budget);
    }
    let which: usize = pick_index(rng, kinds.len());
    let ghost chosen: Draws = *rng;
    proof {
        lemma_follows_transitive(start, chance, chosen);
    }
    match kinds[which] {
        CommandKind::Cpu => {
            let offset_draw: u32 = rng.next_u32();
            let ghost third: Draws = *rng;
            let sign_draw: u32 = rng.next_u32();
            proof {
                lemma_follows_transitive(start, chosen, third);
                lemma_follows_transitive(start, third, *rng);
                lemma_iterations_bounded(compute_budget, offset_draw, sign_draw);
            }
            let iterations: u32 = iterations_for(compute_budget, offset_draw, sign_draw);
            add_cpu_command(iterations, &mut data);
            assert(data@ =~= cpu_bytes(iterations));
            (data, iterations * CPU_COMMAND_COST_PER_ITERATION)
        },
        CommandKind::Alloc => {
            let index: u8 = allocated_indices.first_free();
            let amount: u32 = rng.next_u32() % MAX_ALLOC_BYTES + 1;
            proof {
                lemma_follows_transitive(start, chosen, *rng);
            }
            add_alloc_command(amount, index, &mut data);
            allocated_indices.insert(index);
            assert(data@ =~= alloc_bytes(amount, index));
            (data, ALLOC_COMMAND_COST)
        },
        CommandKind::Free => {
            let at: usize = pick_index(rng, allocated_indices.len());
            proof {
                lemma_follows_transitive(start, chosen, *rng);
            }
            let index: u8 = allocated_indices.nth(at);
            add_free_command(index, &mut data);
            allocated_indices.remove_nth(at);
            assert(data@ =~= free_bytes(index));
            (data, FREE_COMMAND_COST)
        },
        CommandKind::Sysvar => {
            add_sysvar_command(&mut data);
            assert(data@ =~= sysvar_bytes());
            (data, SYSVAR_COMMAND_COST)
        },
    }
}

/// Draws that come after those that a command takes do not matter to it.
pub proof fn lemma_command_local(d: Seq<u32>, t: Seq<u32>, budget: u32, indices: Seq<u8>)
    requires
        command_draws(d, budget, indices) <= d.len(),
    ensures
        chosen_command(d + t, budget, indices) == chosen_command(d, budget, indices),
        command_draws(d + t, budget, indices) == command_draws(d, budget, indices),
        indices_after(d + t, chosen_command(d, budget, indices), indices) == indices_after(
            d,
            chosen_command(d, budget, indices),
            indices,
        ),
{
    assert forall|i: int| 0 <= i < d.len() implies #[trigger] (d + t)[i] == d[i] by {}
    assert((d + t)[0] == d[0]);
}

/// A command takes no more compute units than the budget has, with two exceptions:
/// a failing command costs the same on a smaller budget, and on a budget for less
/// than two rounds the processor may be kept busy for two.
pub proof fn cost_fits_budget(d: Seq<u32>, budget: u32, indices: Seq<u8>)
    ensures
        ({
            let command = chosen_command(d, budget, indices);
            command_cost(command, budget) > budget <==> {
                ||| command is Fail && budget < FAIL_COMMAND_COST
                ||| command == (Command::Cpu { iterations: 2 }) && budget < 2
                    * CPU_COMMAND_COST_PER_ITERATION
            }
        }),
{
    let command = chosen_command(d, budget, indices);
    let kinds = possible_kinds(budget, indices.len());
    assert forall|i: int| 0 <= i < kinds.len() implies match #[trigger] kinds[i] {
        CommandKind::Cpu => budget >= CPU_COMMAND_COST_PER_ITERATION,
        CommandKind::Alloc => budget >= ALLOC_COMMAND_COST,
        CommandKind::Free => budget >= FREE_COMMAND_COST,
        CommandKind::Sysvar => budget >= SYSVAR_COMMAND_COST,
    } by {}
    if kinds.len() > 0 {
        assert(0 <= pick(d[1], kinds.len() as int) < kinds.len());
    }
    if command is Cpu {
        lemma_iterations_bounded(budget, d[2], d[3]);
        assert((2 * CPU_COMMAND_COST_PER_ITERATION) as u32 == 10_000u32);
        if budget >= 10_000 {
            assert(half_iterations(budget) == budget / 10_000u32);
        } else {
            assert(half_iterations(budget) == 1);
        }
    }
}

/// A command is chosen within its limits: error codes are not zero, allocations are
/// of 1 to 1000 bytes and under the first free index, and only what is allocated is
/// freed. No index comes to be allocated twice.
pub proof fn choice_is_within_limits(d: Seq<u32>, budget: u32, indices: Seq<u8>)
    requires
        distinct_indices(indices),
    ensures
        match chosen_command(d, budget, indices) {
            Command::Fail { error_code } => error_code > 0,
            Command::Alloc { amount, index } => 1 <= amount <= MAX_ALLOC_BYTES && is_first_free(
                indices,
                index,
            ),
            Command::Free { index } => indices.contains(index),
            _ => true,
        },
        distinct_indices(indices_after(d, chosen_command(d, budget, indices), indices)),
{
    let command = chosen_command(d, budget, indices);
    let kinds = possible_kinds(budget, indices.len());
    assert forall|i: int| 0 <= i < kinds.len() implies match #[trigger] kinds[i] {
        CommandKind::Alloc => indices.len() < MAX_ALLOCATIONS,
        CommandKind::Free => indices.len() > 0,
        _ => true,
    } by {}
    if kinds.len() > 0 {
        assert(0 <= pick(d[1], kinds.len() as int) < kinds.len());
    }
    if command is Alloc {
        lemma_first_free_exists(indices);
        let index = command->Alloc_index;
        assert forall|i: int| 0 <= i < indices.len() implies #[trigger] indices[i] != index by {
            assert(indices.contains(indices[i]));
        }
    }
    if command is Free {
        assert(0 <= pick(d[2], indices.len() as int) < indices.len());
    }
}

/// As long as not every index is allocated, one of them is the first free one.
proof fn lemma_first_free_exists(indices: Seq<u8>)
    requires
        indices.len() < MAX_ALLOCATIONS,
    ensures
        is_first_free(indices, first_free(indices)),
{
    if forall|k: u8| indices.contains(k) {
        lemma_all_indices(indices);
    }
    let some = choose|k: u8| !indices.contains(k);
    lemma_first_free_below(indices, some);
}

/// If `limit` is free, the first free index is at or below it.
proof fn lemma_first_free_below(indices: Seq<u8>, limit: u8)
    requires
        !indices.contains(limit),
    ensures
        is_first_free(indices, first_free(indices)),
    decreases limit,
{
    if exists|k: u8| k < limit && !indices.contains(k) {
        let k = choose|k: u8| k < limit && !indices.contains(k);
        lemma_first_free_below(indices, k);
    } else {
        assert(is_first_free(indices, limit));
    }
}

/// The command at the front of `s`, read from its bytes, and how many bytes it has.
pub open spec fn command_at_front(s: Seq<u8>) -> Option<(Command, nat)> {
    if s.len() >= 5 && s[0] == 2 {
        Some((Command::Cpu { iterations: le_value(s.subrange(1, 5)) as u32 }, 5))
    } else if s.len() >= 6 && s[0] == 3 {
        Some((Command::Alloc { amount: le_value(s.subrange(1, 5)) as u32, index: s[5] }, 6))
    } else if s.len() >= 2 && s[0] == 4 {
        Some((Command::Free { index: s[1] }, 2))
    } else if s.len() >= 1 && s[0] == 6 {
        Some((Command::Sysvar, 1))
    } else if s.len() >= 2 && s[0] == 7 {
        Some((Command::Fail { error_code: s[1] }, 2))
    } else {
        None
    }
}

/// Whatever follows it, a command can be read back from its bytes, so that a row of
/// commands stands for these commands only.
pub proof fn command_reads_back(command: Command, rest: Seq<u8>)
    requires
        command !is Idle,
    ensures
        command_at_front(command_bytes(command) + rest) == Some(
            (command, command_bytes(command).len()),
        ),
{
    let s = command_bytes(command) + rest;
    match command {
        Command::Cpu { iterations } => {
            lemma_four_bytes(iterations);
            assert(s.subrange(1, 5) =~= le_bytes(iterations as nat, 4));
        },
        Command::Alloc { amount, index } => {
            lemma_four_bytes(amount);
            assert(s.subrange(1, 5) =~= le_bytes(amount as nat, 4));
        },
        _ => {},
    }
}

/// Four bytes hold a 32-bit number.
proof fn lemma_four_bytes(x: u32)
    ensures
        le_bytes(x as nat, 4).len() == 4,
        le_value(le_bytes(x as nat, 4)) == x,
{
    le_bytes_round_trip(x as nat, 4);
    reveal_with_fuel(crate::bytes::byte_span, 5);
}

/// Half the rounds of a budget are half of what it pays for at 5000 units each, rounded
/// down, but at least one.
pub proof fn half_is_half_the_budget(budget: u32)
    ensures
        half_iterations(budget) >= 1,
        budget >= 10_000 ==> half_iterations(budget) * 10_000 <= budget < (half_iterations(budget)
            + 1) * 10_000,
        budget < 10_000 ==> half_iterations(budget) == 1,
{
    assert((2 * CPU_COMMAND_COST_PER_ITERATION) as u32 == 10_000u32);
}

/// The rounds lie around the half: as far above it on every even draw as below it on every
/// odd one, at least one away and at most the half, and each distance up to the half has
/// the draws that leave it as their remainder.
pub proof fn rounds_lie_around_the_half(budget: u32, offset_draw: u32, even: u32, odd: u32)
    requires
        even % 2 == 0,
        odd % 2 == 1,
    ensures
        ({
            let half = half_iterations(budget);
            let more = chosen_iterations(budget, offset_draw, even);
            let less = chosen_iterations(budget, offset_draw, odd);
            &&& more > half > less >= 0
            &&& more + less == 2 * half
            &&& more - half <= half
            &&& more - half - 1 == offset_draw as int % half as int
        }),
{
    half_is_half_the_budget(budget);
}

/// The place of a kind among the kinds.
pub open spec fn kind_rank(kind: CommandKind) -> int {
    match kind {
        CommandKind::Cpu => 0,
        CommandKind::Alloc => 1,
        CommandKind::Free => 2,
        CommandKind::Sysvar => 3,
    }
}

/// A kind of command is possible if the budget pays for it and, for memory, if there is an
/// index to allocate or to free; the kinds that are possible are listed once each, in
/// their order.
pub proof fn possible_kinds_are_paid_for(budget: u32, allocated: nat)
    ensures
        ({
            let kinds = possible_kinds(budget, allocated);
            &&& kinds.contains(CommandKind::Cpu) <==> budget >= 5000
            &&& kinds.contains(CommandKind::Alloc) <==> budget >= 100 && allocated < 256
            &&& kinds.contains(CommandKind::Free) <==> budget >= 100 && allocated > 0
            &&& kinds.contains(CommandKind::Sysvar) <==> budget >= 500
            &&& forall|i: int, j: int|
                0 <= i < j < kinds.len() ==> kind_rank(#[trigger] kinds[i]) < kind_rank(
                    #[trigger] kinds[j],
                )
        }),
{
    let kinds = possible_kinds(budget, allocated);
    let cpu = kind_if(budget >= CPU_COMMAND_COST_PER_ITERATION, CommandKind::Cpu);
    let alloc = kind_if(
        budget >= ALLOC_COMMAND_COST && allocated < MAX_ALLOCATIONS,
        CommandKind::Alloc,
    );
    let free = kind_if(budget >= FREE_COMMAND_COST && allocated > 0, CommandKind::Free);
    let a = cpu.len() as int;
    let b = a + alloc.len();
    let c = b + free.len();
    if budget >= 5000 {
        assert(kinds[0] == CommandKind::Cpu);
    }
    if budget >= 100 && allocated < 256 {
        assert(kinds[a] == CommandKind::Alloc);
    }
    if budget >= 100 && allocated > 0 {
        assert(kinds[b] == CommandKind::Free);
    }
    if budget >= 500 {
        assert(kinds[c] == CommandKind::Sysvar);
    }
}

/// The kind of a command, if it is of one.
pub open spec fn kind_of(command: Command) -> Option<CommandKind> {
    match command {
        Command::Cpu { .. } => Some(CommandKind::Cpu),
        Command::Alloc { .. } => Some(CommandKind::Alloc),
        Command::Free { .. } => Some(CommandKind::Free),
        Command::Sysvar => Some(CommandKind::Sysvar),
        _ => None,
    }
}

/// The draws choose the command. One in a thousand fails, with a code that the second draw
/// counts off; else the second draw counts off the kind among those that are possible, and
/// nothing is done only on less than 100 units. The third draw counts off the bytes that
/// are allocated, under the lowest index that is not in use, or the index that is freed.
pub proof fn draws_choose_the_command(d: Seq<u32>, budget: u32, indices: Seq<u8>)
    ensures
        ({
            let command = chosen_command(d, budget, indices);
            let kinds = possible_kinds(budget, indices.len());
            &&& command is Fail <==> d[0] < 4_294_968
            &&& command is Idle <==> d[0] >= 4_294_968 && budget < 100
            &&& kind_of(command) is Some ==> kinds.len() > 0 && kind_of(command) == Some(
                kinds[d[1] as int % kinds.len() as int],
            )
            &&& match command {
                Command::Fail { error_code } => error_code - 1 == d[1] as int % 255,
                Command::Cpu { iterations } => iterations == chosen_iterations(budget, d[2], d[3]),
                Command::Alloc { amount, index } => {
                    &&& amount - 1 == d[2] as int % 1000
                    &&& !indices.contains(index)
                    &&& forall|k: u8| k < index ==> indices.contains(k)
                },
                Command::Free { index } => {
                    &&& indices.len() > 0
                    &&& index == indices[d[2] as int % indices.len() as int]
                },
                _ => true,
            }
        }),
{
    let command = chosen_command(d, budget, indices);
    let kinds = possible_kinds(budget, indices.len());
    possible_kinds_are_paid_for(budget, indices.len());
    if kinds.len() > 0 {
        let at = pick(d[1], kinds.len() as int);
        vstd::arithmetic::div_mod::lemma_mod_bound(d[1] as int, kinds.len() as int);
        assert(kinds.contains(kinds[at]));
        assert(kinds.contains(kinds[0]));
    }
    if command is Cpu {
        lemma_iterations_bounded(budget, d[2], d[3]);
    }
    if command is Alloc {
        lemma_first_free_exists(indices);
    }
}

/// What commands take: 1000 units to fail, the whole budget to do nothing, 5000 for each
/// round, 100 to allocate or to free, 500 to read the system variables; and how many draws
/// it takes to choose them, which alone decide.
pub proof fn commands_take_their_units(
    d: Seq<u32>,
    other: Seq<u32>,
    budget: u32,
    indices: Seq<u8>,
)
    ensures
        ({
            let command = chosen_command(d, budget, indices);
            let cost = command_cost(command, budget);
            let draws = command_draws(d, budget, indices);
            &&& match command {
                Command::Fail { .. } => cost == 1000 && draws == 2,
                Command::Idle => cost == budget && draws == 1,
                Command::Cpu { iterations } => cost == 5000 * iterations && draws == 4,
                Command::Alloc { .. } => cost == 100 && draws == 3,
                Command::Free { .. } => cost == 100 && draws == 3,
                Command::Sysvar => cost == 500 && draws == 2,
            }
            &&& (forall|i: int| 0 <= i < draws ==> #[trigger] other[i] == d[i])
                ==> chosen_command(other, budget, indices) == command
        }),
{
    let command = chosen_command(d, budget, indices);
    let draws = command_draws(d, budget, indices);
    if forall|i: int| 0 <= i < draws ==> #[trigger] other[i] == d[i] {
        assert(other[0] == d[0]);
        if draws > 1 {
            assert(other[1] == d[1]);
        }
        if draws > 2 {
            assert(other[2] == d[2]);
        }
        if draws > 3 {
            assert(other[3] == d[3]);
        }
    }
}

/// An index is in use after a command if it was and is not freed, or if memory is
/// allocated under it.
pub proof fn indices_in_use(d: Seq<u32>, budget: u32, indices: Seq<u8>, k: u8)
    requires
        distinct_indices(indices),
    ensures
        ({
            let command = chosen_command(d, budget, indices);
            let after = indices_after(d, command, indices);
            after.contains(k) <==> match command {
                Command::Alloc { index, .. } => indices.contains(k) || k == index,
                Command::Free { index } => indices.contains(k) && k != index,
                _ => indices.contains(k),
            }
        }),
{
    let command = chosen_command(d, budget, indices);
    let after = indices_after(d, command, indices);
    draws_choose_the_command(d, budget, indices);
    match command {
        Command::Alloc { index, .. } => {
            assert(after[indices.len() as int] == index);
            if indices.contains(k) {
                let i = choose|i: int| 0 <= i < indices.len() && indices[i] == k;
                assert(after[i] == k);
            }
        },
        Command::Free { index } => {
            let at = d[2] as int % indices.len() as int;
            vstd::arithmetic::div_mod::lemma_mod_bound(d[2] as int, indices.len() as int);
            if indices.contains(k) && k != index {
                let i = choose|i: int| 0 <= i < indices.len() && indices[i] == k;
                if i < at {
                    assert(after[i] == k);
                } else {
                    assert(after[i - 1] == k);
                }
            }
            if after.contains(k) {
                let i = choose|i: int| 0 <= i < after.len() && after[i] == k;
                let j = if i < at {
                    i
                } else {
                    i + 1
                };
                assert(indices[j] == k);
                if j < at {
                    assert(indices[j] != indices[at]);
                } else {
                    assert(indices[at] != indices[j]);
                }
            }
        },
        _ => {},
    }
}

} // verus!
