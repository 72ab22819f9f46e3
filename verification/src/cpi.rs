//! Cross-program invocations: instructions wrapped into calls from another program.

use vstd::prelude::*;

use crate::command_accounts::{
    has_account, meta_of, metas_of, permission, use_is_recorded, with_account, AccountMeta,
    CommandAccount, CommandAccounts,
};
use crate::commands::{
    add_cpi_command, cpi_bytes, entries_accumulate, invocation_at_front, invocation_reads_back,
    with_metas, Invocation,
};
use crate::draws::{
    happens, lemma_follows_reflexive, lemma_follows_transitive, pick, random_chance, Draws,
};
use crate::instructions::{instruction_views, Instruction, InstructionView};
use crate::pubkey::Pubkey;

verus! {

// The chance of not wrapping another instruction: three in four.
pub const STOP_CHANCE_NUMERATOR: u64 = 3;

pub const STOP_CHANCE_DENOMINATOR: u64 = 4;

/// The cross-program invocation of `program_id` with the accounts and the data of
/// `instruction`, as an instruction for that program.
pub open spec fn cpi_of(instruction: InstructionView, program_id: Pubkey) -> InstructionView {
    InstructionView {
        program_id,
        accounts: metas_of(
            with_metas(
                with_account(Seq::empty(), program_id, false, false),
                instruction.accounts,
            ),
        ),
        data: cpi_bytes(program_id, instruction.accounts, instruction.data, None),
    }
}

/// Wraps an instruction into a cross-program invocation by the given program.
pub fn wrap_instruction(instruction: &Instruction, program_id: &Pubkey) -> (wrapped: Instruction)
    ensures
        wrapped@ == cpi_of(instruction@, *program_id),
{
    let mut data: Vec<u8> = Vec::new();
    let mut accounts = CommandAccounts::new();
    add_cpi_command(
        program_id,
        &instruction.accounts,
        &instruction.data,
        &None,
        &mut accounts,
        &mut data,
    );
    let metas: Vec<AccountMeta> = accounts.get_account_metas();
    let wrapped = Instruction { program_id: *program_id, accounts: metas, data };
    assert(wrapped@ =~= cpi_of(instruction@, *program_id));
    wrapped
}

/// The programs other than `own`, in their order.
pub open spec fn other_programs(program_ids: Seq<Pubkey>, own: Pubkey) -> Seq<Pubkey>
    decreases program_ids.len(),
{
    if program_ids.len() == 0 {
        Seq::empty()
    } else {
        let others = other_programs(program_ids.drop_last(), own);
        if program_ids.last() == own {
            others
        } else {
            others.push(program_ids.last())
        }
    }
}

/// The programs that an instruction for `own` can be turned over to: the others, or all
/// of them if there is no other.
pub open spec fn callable_programs(program_ids: Seq<Pubkey>, own: Pubkey) -> Seq<Pubkey> {
    let others = other_programs(program_ids, own);
    if others.len() > 0 {
        others
    } else {
        program_ids
    }
}

/// The program that a draw chooses for the invocation of an instruction for `own`.
pub open spec fn called_program(draw: u32, program_ids: Seq<Pubkey>, own: Pubkey) -> Pubkey {
    let programs = callable_programs(program_ids, own);
    programs[pick(draw, programs.len() as int)]
}

/// The other programs are the programs without `own`, and no more than there are.
proof fn lemma_other_programs(program_ids: Seq<Pubkey>, own: Pubkey)
    ensures
        other_programs(program_ids, own).len() <= program_ids.len(),
        forall|i: int|
            0 <= i < other_programs(program_ids, own).len() ==> {
                &&& #[trigger] other_programs(program_ids, own)[i] != own
                &&& program_ids.contains(other_programs(program_ids, own)[i])
            },
        forall|k: int|
            0 <= k < program_ids.len() && #[trigger] program_ids[k] != own ==> other_programs(
                program_ids,
                own,
            ).len() > 0,
    decreases program_ids.len(),
{
    if program_ids.len() > 0 {
        let shorter = program_ids.drop_last();
        let before = other_programs(shorter, own);
        let others = other_programs(program_ids, own);
        lemma_other_programs(shorter, own);
        assert forall|i: int| 0 <= i < others.len() implies #[trigger] others[i] != own
            && program_ids.contains(others[i]) by {
            if i < before.len() {
                assert(others[i] == before[i]);
                let k = choose|k: int| 0 <= k < shorter.len() && shorter[k] == before[i];
                assert(program_ids[k] == others[i]);
            } else {
                assert(program_ids[program_ids.len() - 1] == others[i]);
            }
        }
        assert forall|k: int|
            0 <= k < program_ids.len() && #[trigger] program_ids[k] != own implies others.len()
            > 0 by {
            if k < shorter.len() {
                assert(shorter[k] == program_ids[k]);
            }
        }
    }
}

/// An invocation calls one of the programs, and another one than the instruction did
/// if there is another.
pub proof fn another_program_is_called(draw: u32, program_ids: Seq<Pubkey>, own: Pubkey)
    requires
        program_ids.len() > 0,
    ensures
        program_ids.contains(called_program(draw, program_ids, own)),
        (exists|k: int| 0 <= k < program_ids.len() && #[trigger] program_ids[k] != own)
            ==> called_program(draw, program_ids, own) != own,
{
    lemma_other_programs(program_ids, own);
    let programs = callable_programs(program_ids, own);
    let at = pick(draw, programs.len() as int);
    assert(0 <= at < programs.len());
    assert(program_ids.contains(programs[at]));
}

/// Lists the programs that an instruction for `own` can be turned over to.
fn list_callable(program_ids: &Vec<Pubkey>, own: &Pubkey) -> (programs: Vec<Pubkey>)
    ensures
        programs@ == callable_programs(program_ids@, *own),
        program_ids@.len() > 0 ==> 0 < programs@.len() <= program_ids@.len(),
{
    let mut programs: Vec<Pubkey> = Vec::new();
    let mut i: usize = 0;
    while i < program_ids.len()
        invariant
            i <= program_ids@.len(),
            programs@ == other_programs(program_ids@.take(i as int), *own),
        decreases program_ids@.len() - i,
    {
        if !program_ids[i].same(own) {
            programs.push(program_ids[i]);
        }
        assert(program_ids@.take(i as int + 1).drop_last() =~= program_ids@.take(i as int));
        i = i + 1;
    }
    assert(program_ids@.take(i as int) =~= program_ids@);
    proof {
        lemma_other_programs(program_ids@, *own);
    }
    if programs.len() == 0 {
        let mut k: usize = 0;
        while k < program_ids.len()
            invariant
                k <= program_ids@.len(),
                programs@ == program_ids@.take(k as int),
            decreases program_ids@.len() - k,
        {
            programs.push(program_ids[k]);
            assert(programs@ =~= program_ids@.take(k as int + 1));
            k = k + 1;
        }
        assert(program_ids@.take(k as int) =~= program_ids@);
    }
    programs
}

/// Turns an instruction into a cross-program invocation of the same instruction that
/// calls some other program, at random. (Where there is no other program it calls the
/// same one.)
pub fn make_cpi(rng: &mut Draws, instruction: &Instruction, program_ids: &Vec<Pubkey>) -> (wrapped:
    Instruction)
    requires
        0 < program_ids@.len() <= u32::MAX,
    ensures
        final(rng).follows(*old(rng)),
        final(rng).since(*old(rng)).len() == 1,
        wrapped@ == cpi_of(
            instruction@,
            called_program(
                final(rng).since(*old(rng))[0],
                program_ids@,
                instruction@.program_id,
            ),
        ),
        program_ids@.contains(wrapped@.program_id),
        (exists|k: int|
            0 <= k < program_ids@.len() && #[trigger] program_ids@[k] != instruction@.program_id)
            ==> wrapped@.program_id != instruction@.program_id,
{
    let programs: Vec<Pubkey> = list_callable(program_ids, &instruction.program_id);
    let draw: u32 = rng.next_u32();
    let which: u32 = draw % (programs.len() as u32);
    proof {
        another_program_is_called(draw, program_ids@, instruction.program_id);
    }
    wrap_instruction(instruction, &programs[which as usize])
}

/// The instructions after some of them have been wrapped, and the number of draws.
pub ghost struct Wrapping {
    pub instructions: Seq<InstructionView>,
    pub draws: nat,
}

/// The instructions after the draws `d` have wrapped some of them: before each
/// wrapping, a draw decides whether it is the end; a second one picks the
/// instruction, a third one another program than it calls. (If the draws run out before the end, more
/// than there are would be needed.)
pub open spec fn wrapping_of(
    d: Seq<u32>,
    instructions: Seq<InstructionView>,
    program_ids: Seq<Pubkey>,
) -> Wrapping
    decreases d.len(),
{
    if d.len() == 0 {
        Wrapping { instructions, draws: 1 }
    } else if happens(d[0], STOP_CHANCE_NUMERATOR, STOP_CHANCE_DENOMINATOR) {
        Wrapping { instructions, draws: 1 }
    } else if d.len() < 3 {
        Wrapping { instructions, draws: 3 }
    } else {
        let index = pick(d[1], instructions.len() as int);
        let program_id = called_program(d[2], program_ids, instructions[index].program_id);
        let rest = wrapping_of(
            d.skip(3),
            instructions.update(index, cpi_of(instructions[index], program_id)),
            program_ids,
        );
        Wrapping { instructions: rest.instructions, draws: 3 + rest.draws }
    }
}

/// Draws that come after those that wrapping takes do not matter to it.
pub proof fn lemma_wrapping_local(
    d: Seq<u32>,
    t: Seq<u32>,
    instructions: Seq<InstructionView>,
    program_ids: Seq<Pubkey>,
)
    requires
        wrapping_of(d, instructions, program_ids).draws <= d.len(),
    ensures
        wrapping_of(d + t, instructions, program_ids) == wrapping_of(d, instructions, program_ids),
    decreases d.len(),
{
    assert((d + t)[0] == d[0]);
    if !happens(d[0], STOP_CHANCE_NUMERATOR, STOP_CHANCE_DENOMINATOR) {
        assert((d + t)[1] == d[1]);
        assert((d + t)[2] == d[2]);
        assert((d + t).skip(3) =~= d.skip(3) + t);
        let index = pick(d[1], instructions.len() as int);
        let program_id = called_program(d[2], program_ids, instructions[index].program_id);
        lemma_wrapping_local(
            d.skip(3),
            t,
            instructions.update(index, cpi_of(instructions[index], program_id)),
            program_ids,
        );
    }
}

/// How many bytes the data of the instructions could still grow by.
spec fn room(instructions: Seq<InstructionView>) -> int
    decreases instructions.len(),
{
    if instructions.len() == 0 {
        0
    } else {
        room(instructions.drop_last()) + usize::MAX - instructions.last().data.len()
    }
}

/// Data that fits into memory leaves room, or none.
proof fn lemma_room_nonnegative(instructions: Seq<InstructionView>)
    requires
        forall|i: int|
            0 <= i < instructions.len() ==> (#[trigger] instructions[i]).data.len() <= usize::MAX,
    ensures
        room(instructions) >= 0,
    decreases instructions.len(),
{
    if instructions.len() > 0 {
        let shorter = instructions.drop_last();
        assert forall|i: int| 0 <= i < shorter.len() implies (#[trigger] shorter[i]).data.len()
            <= usize::MAX by {
            assert(shorter[i] == instructions[i]);
        }
        lemma_room_nonnegative(shorter);
    }
}

/// An instruction that grows takes room away.
proof fn lemma_room_shrinks(instructions: Seq<InstructionView>, i: int, grown: InstructionView)
    requires
        0 <= i < instructions.len(),
        grown.data.len() > instructions[i].data.len(),
    ensures
        room(instructions.update(i, grown)) < room(instructions),
    decreases instructions.len(),
{
    let after = instructions.update(i, grown);
    if i == instructions.len() - 1 {
        assert(after.drop_last() =~= instructions.drop_last());
    } else {
        assert(after.drop_last() =~= instructions.drop_last().update(i, grown));
        lemma_room_shrinks(instructions.drop_last(), i, grown);
    }
}

/// A wrapped instruction has more data than the one inside it.
pub proof fn wrapping_grows(instruction: InstructionView, program_id: Pubkey)
    ensures
        cpi_of(instruction, program_id).data.len() > instruction.data.len(),
{
    let data = cpi_of(instruction, program_id).data;
    assert(data.len() >= 1 + instruction.data.len());
}

/// Wraps some of the instructions into cross-program invocations, at random, if
/// there is more than one program. An instruction may be wrapped several times.
#[verifier::spinoff_prover]
pub fn wrap_some(rng: &mut Draws, instructions: &mut Vec<Instruction>, program_ids: &Vec<Pubkey>)
    requires
        old(instructions)@.len() <= u32::MAX,
        program_ids@.len() <= u32::MAX,
    ensures
        final(rng).follows(*old(rng)),
        ({
            let d = final(rng).since(*old(rng));
            let before = instruction_views(old(instructions)@);
            let after = instruction_views(final(instructions)@);
            if program_ids@.len() > 1 && before.len() > 0 {
                let expected = wrapping_of(d, before, program_ids@);
                d.len() == expected.draws && after == expected.instructions
            } else {
                d.len() == 0 && after == before
            }
        }),
{
    let ghost start: Draws = *rng;
    let ghost initial: Seq<InstructionView> = instruction_views(instructions@);
    proof {
        lemma_follows_reflexive(start);
    }
    if program_ids.len() <= 1 || instructions.len() == 0 {
        return ;
    }
    proof {
        assert forall|t: Seq<u32>|
            #[trigger] wrapping_of(rng.since(start) + t, initial, program_ids@) == rewrapped(
                rng.since(start).len(),
                wrapping_of(t, instruction_views(instructions@), program_ids@),
            ) by {
            assert(rng.since(start) + t =~= t);
        }
    }
    loop
        invariant
            start == *old(rng),
            initial == instruction_views(old(instructions)@),
            initial.len() > 0,
            1 < program_ids@.len() <= u32::MAX,
            0 < instructions@.len() <= u32::MAX,
            rng.follows(start),
            forall|t: Seq<u32>|
                #[trigger] wrapping_of(rng.since(start) + t, initial, program_ids@) == rewrapped(
                    rng.since(start).len(),
                    wrapping_of(t, instruction_views(instructions@), program_ids@),
                ),
        decreases room(instruction_views(instructions@)),
    {
        let ghost before: Draws = *rng;
        let ghost used: Seq<u32> = rng.since(start);
        let ghost views: Seq<InstructionView> = instruction_views(instructions@);
        let stop: bool = random_chance(rng, STOP_CHANCE_NUMERATOR, STOP_CHANCE_DENOMINATOR);
        let ghost decided: Draws = *rng;
        let ghost chance: u32 = decided.since(before)[0];
        proof {
            lemma_follows_transitive(start, before, decided);
            assert(decided.since(before) =~= seq![chance]);
        }
        if stop {
            proof {
                assert(wrapping_of(used + seq![chance], initial, program_ids@) == rewrapped(
                    used.len(),
                    wrapping_of(seq![chance], views, program_ids@),
                ));
            }
            return ;
        }
        let index_draw: u32 = rng.next_u32();
        let ghost picked: Draws = *rng;
        let index: usize = (index_draw % (instructions.len() as u32)) as usize;
        let wrapped: Instruction = make_cpi(rng, &instructions[index], program_ids);
        let ghost program_draw: u32 = rng.since(picked)[0];
        let ghost program_id: Pubkey = called_program(
            program_draw,
            program_ids@,
            views[index as int].program_id,
        );
        instructions.remove(index);
        instructions.insert(index, wrapped);
        proof {
            lemma_follows_transitive(before, decided, picked);
            lemma_follows_transitive(before, picked, *rng);
            lemma_follows_transitive(start, before, *rng);
            let d = rng.since(before);
            assert(d =~= seq![chance, index_draw, program_draw]);
            let after = instruction_views(instructions@);
            assert(after =~= views.update(index as int, cpi_of(views[index as int], program_id)));
            assert forall|t: Seq<u32>|
                #[trigger] wrapping_of(rng.since(start) + t, initial, program_ids@) == rewrapped(
                    rng.since(start).len(),
                    wrapping_of(t, after, program_ids@),
                ) by {
                assert((used + d) + t =~= used + (d + t));
                assert(wrapping_of(used + (d + t), initial, program_ids@) == rewrapped(
                    used.len(),
                    wrapping_of(d + t, views, program_ids@),
                ));
                assert((d + t)[0] == chance);
                assert((d + t)[1] == index_draw);
                assert((d + t)[2] == program_draw);
                assert((d + t).skip(3) =~= t);
            }
            wrapping_grows(views[index as int], program_id);
            lemma_room_shrinks(views, index as int, cpi_of(views[index as int], program_id));
            assert forall|i: int| 0 <= i < after.len() implies (#[trigger] after[i]).data.len()
                <= usize::MAX by {
                assert(after[i].data.len() == instructions@[i].data.len());
            }
            lemma_room_nonnegative(after);
        }
    }
}

/// The wrapping that took `draws` draws before it went on as `rest`.
pub open spec fn rewrapped(draws: nat, rest: Wrapping) -> Wrapping {
    Wrapping { instructions: rest.instructions, draws: draws + rest.draws }
}

/// Wrapping keeps the number of instructions; if each calls one of the programs and
/// has data, each still does.
pub proof fn wrapping_calls_the_programs(
    d: Seq<u32>,
    instructions: Seq<InstructionView>,
    program_ids: Seq<Pubkey>,
)
    requires
        program_ids.len() > 0,
        instructions.len() > 0,
        forall|i: int|
            0 <= i < instructions.len() ==> program_ids.contains(
                (#[trigger] instructions[i]).program_id,
            ) && instructions[i].data.len() > 0,
    ensures
        ({
            let after = wrapping_of(d, instructions, program_ids).instructions;
            &&& after.len() == instructions.len()
            &&& forall|i: int|
                0 <= i < after.len() ==> program_ids.contains((#[trigger] after[i]).program_id)
                    && after[i].data.len() > 0
        }),
    decreases d.len(),
{
    if d.len() >= 3 && !happens(d[0], STOP_CHANCE_NUMERATOR, STOP_CHANCE_DENOMINATOR) {
        let index = pick(d[1], instructions.len() as int);
        assert(0 <= index < instructions.len());
        let program_id = called_program(d[2], program_ids, instructions[index].program_id);
        another_program_is_called(d[2], program_ids, instructions[index].program_id);
        let wrapped = cpi_of(instructions[index], program_id);
        let next = instructions.update(index, wrapped);
        wrapping_grows(instructions[index], program_id);
        assert forall|i: int| 0 <= i < next.len() implies program_ids.contains(
            (#[trigger] next[i]).program_id,
        ) && next[i].data.len() > 0 by {
            if i == index {
                assert(next[i] == wrapped);
            } else {
                assert(next[i] == instructions[i]);
            }
        }
        wrapping_calls_the_programs(d.skip(3), next, program_ids);
    }
}

/// The programs other than `own` are the programs without `own`, in their order, and the
/// draw counts them off: the remainder of the draw says which of them is called.
pub proof fn others_are_counted_off(draw: u32, program_ids: Seq<Pubkey>, own: Pubkey)
    ensures
        ({
            let others = program_ids.filter(|p: Pubkey| p != own);
            &&& others.len() > 0 ==> called_program(draw, program_ids, own) == others[draw as int
                % others.len() as int]
            &&& others.len() == 0 ==> called_program(draw, program_ids, own) == program_ids[
                draw as int % program_ids.len() as int]
        }),
{
    lemma_others_filtered(program_ids, own);
}

/// The other programs are those that a filter leaves.
proof fn lemma_others_filtered(program_ids: Seq<Pubkey>, own: Pubkey)
    ensures
        other_programs(program_ids, own) == program_ids.filter(|p: Pubkey| p != own),
    decreases program_ids.len(),
{
    reveal(Seq::filter);
    if program_ids.len() > 0 {
        lemma_others_filtered(program_ids.drop_last(), own);
    }
}

/// Draws of three quarters and more go on.
proof fn lemma_three_quarters(draw: u32)
    ensures
        happens(draw, STOP_CHANCE_NUMERATOR, STOP_CHANCE_DENOMINATOR) <==> draw < 3_221_225_472,
{
}

/// A draw below three quarters of the largest one ends the wrapping, and nothing has
/// changed.
pub proof fn a_low_draw_ends_the_wrapping(
    stop: u32,
    rest: Seq<u32>,
    instructions: Seq<InstructionView>,
    program_ids: Seq<Pubkey>,
)
    requires
        stop < 3_221_225_472,
    ensures
        wrapping_of(seq![stop] + rest, instructions, program_ids) == (Wrapping {
            instructions,
            draws: 1,
        }),
{
    assert((seq![stop] + rest)[0] == stop);
    lemma_three_quarters(stop);
}

/// A draw of three quarters or more goes on: the second draw counts off the instruction
/// that is wrapped and the third one the program that it calls, and then the wrapping
/// goes on in the same way with that one instruction changed.
pub proof fn draws_pick_what_is_wrapped(
    go: u32,
    x: u32,
    y: u32,
    rest: Seq<u32>,
    instructions: Seq<InstructionView>,
    program_ids: Seq<Pubkey>,
)
    requires
        go >= 3_221_225_472,
        instructions.len() > 0,
    ensures
        ({
            let k = x as int % instructions.len() as int;
            let wrapped = cpi_of(
                instructions[k],
                called_program(y, program_ids, instructions[k].program_id),
            );
            let all = wrapping_of(seq![go, x, y] + rest, instructions, program_ids);
            let others = wrapping_of(rest, instructions.update(k, wrapped), program_ids);
            &&& 0 <= k < instructions.len()
            &&& all.instructions == others.instructions
            &&& all.draws == 3 + others.draws
        }),
{
    let d = seq![go, x, y] + rest;
    assert(d[0] == go && d[1] == x && d[2] == y);
    assert(d.skip(3) =~= rest);
    lemma_three_quarters(go);
    vstd::arithmetic::div_mod::lemma_mod_bound(x as int, instructions.len() as int);
}

/// Every instruction can be wrapped, and alone: with a draw that goes on, its number, a
/// draw for the program and a draw that stops, it becomes the invocation of what it was
/// and all the others stay as they are.
pub proof fn any_instruction_can_be_wrapped(
    go: u32,
    k: u32,
    y: u32,
    stop: u32,
    instructions: Seq<InstructionView>,
    program_ids: Seq<Pubkey>,
)
    requires
        go >= 3_221_225_472,
        stop < 3_221_225_472,
        k < instructions.len(),
    ensures
        ({
            let after = wrapping_of(seq![go, k, y, stop], instructions, program_ids).instructions;
            &&& after.len() == instructions.len()
            &&& after[k as int] == cpi_of(
                instructions[k as int],
                called_program(y, program_ids, instructions[k as int].program_id),
            )
            &&& forall|j: int|
                0 <= j < instructions.len() && j != k ==> #[trigger] after[j] == instructions[j]
        }),
{
    assert(seq![go, k, y, stop] =~= seq![go, k, y] + seq![stop]);
    assert(seq![stop] =~= seq![stop] + Seq::<u32>::empty());
    draws_pick_what_is_wrapped(go, k, y, seq![stop], instructions, program_ids);
    vstd::arithmetic::div_mod::lemma_small_mod(k as nat, instructions.len());
    let wrapped = cpi_of(
        instructions[k as int],
        called_program(y, program_ids, instructions[k as int].program_id),
    );
    a_low_draw_ends_the_wrapping(
        stop,
        Seq::empty(),
        instructions.update(k as int, wrapped),
        program_ids,
    );
}

/// A wrapped instruction is for the program that it invokes. Its data read back as the
/// invocation of that program with the accounts and the data of the one inside, and it
/// lists the program and the accounts of the one inside, with all that they may do there.
pub proof fn wrapped_instruction_holds_the_other(
    instruction: InstructionView,
    program_id: Pubkey,
    address: Pubkey,
)
    requires
        instruction.accounts.len() <= 255,
        instruction.data.len() <= 65535,
    ensures
        ({
            let wrapped = cpi_of(instruction, program_id);
            let uses = |write: bool, sign: bool|
                exists|i: int|
                    0 <= i < instruction.accounts.len() && (
                    #[trigger] instruction.accounts[i]).pubkey == address && (write
                        ==> instruction.accounts[i].is_writable) && (sign
                        ==> instruction.accounts[i].is_signer);
            let lists = |write: bool, sign: bool|
                exists|i: int|
                    0 <= i < wrapped.accounts.len() && (#[trigger] wrapped.accounts[i]).pubkey
                        == address && (write ==> wrapped.accounts[i].is_writable) && (sign
                        ==> wrapped.accounts[i].is_signer);
            &&& wrapped.program_id == program_id
            &&& invocation_at_front(wrapped.data) == (
                Invocation {
                    program_id,
                    accounts: instruction.accounts,
                    data: instruction.data,
                    seed: Seq::empty(),
                },
                wrapped.data.len(),
            )
            &&& lists(false, false) <==> address == program_id || uses(false, false)
            &&& lists(true, false) <==> uses(true, false)
            &&& lists(false, true) <==> uses(false, true)
        }),
{
    let wrapped = cpi_of(instruction, program_id);
    invocation_reads_back(program_id, instruction.accounts, instruction.data, None, Seq::empty());
    assert(wrapped.data + Seq::<u8>::empty() =~= wrapped.data);
    let none = Seq::<CommandAccount>::empty();
    let called = with_account(none, program_id, false, false);
    let after = with_metas(called, instruction.accounts);
    use_is_recorded(none, program_id, false, false, address);
    entries_accumulate(called, instruction.accounts, address);
    assert(wrapped.accounts == metas_of(after));
    assert forall|i: int| 0 <= i < after.len() implies #[trigger] wrapped.accounts[i] == meta_of(
        after[i],
    ) by {}
    if has_account(after, address) {
        let i = choose|i: int| 0 <= i < after.len() && (#[trigger] after[i]).address == address;
        assert(wrapped.accounts[i].pubkey == address);
    }
    if permission(after, address).0 {
        let i = choose|i: int|
            0 <= i < after.len() && (#[trigger] after[i]).address == address && after[i].is_write;
        assert(wrapped.accounts[i].pubkey == address && wrapped.accounts[i].is_writable);
    }
    if permission(after, address).1 {
        let i = choose|i: int|
            0 <= i < after.len() && (#[trigger] after[i]).address == address && after[i].is_signer;
        assert(wrapped.accounts[i].pubkey == address && wrapped.accounts[i].is_signer);
    }
    if exists|i: int|
        0 <= i < wrapped.accounts.len() && (#[trigger] wrapped.accounts[i]).pubkey == address {
        let i = choose|i: int|
            0 <= i < wrapped.accounts.len() && (#[trigger] wrapped.accounts[i]).pubkey == address;
        assert(after[i].address == address);
    }
    if exists|i: int|
        0 <= i < wrapped.accounts.len() && (#[trigger] wrapped.accounts[i]).pubkey == address
            && wrapped.accounts[i].is_writable {
        let i = choose|i: int|
            0 <= i < wrapped.accounts.len() && (#[trigger] wrapped.accounts[i]).pubkey == address
                && wrapped.accounts[i].is_writable;
        assert(after[i].address == address && after[i].is_write);
    }
    if exists|i: int|
        0 <= i < wrapped.accounts.len() && (#[trigger] wrapped.accounts[i]).pubkey == address
            && wrapped.accounts[i].is_signer {
        let i = choose|i: int|
            0 <= i < wrapped.accounts.len() && (#[trigger] wrapped.accounts[i]).pubkey == address
                && wrapped.accounts[i].is_signer;
        assert(after[i].address == address && after[i].is_signer);
    }
}

} // verus!
