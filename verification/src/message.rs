//! Messages: instructions together with the one who pays for them, signed as
//! transactions.

use vstd::prelude::*;

use crate::blockhash::Blockhash;
use crate::bytes::{byte_span, le_bytes, le_bytes_round_trip, le_value};
use crate::command_accounts::{
    distinct_accounts, has_account, metas_of, permission, use_is_recorded, with_account,
    AccountMeta, CommandAccount, CommandAccounts,
};
use crate::commands::{entries_accumulate, system_program_id, with_metas};
use crate::instructions::{instruction_views, Instruction, InstructionView};
use crate::keypair::{keypair_bytes, public_half, Keypair};
use crate::pubkey::{lemma_pubkey_with, pubkey_with, Pubkey};

verus! {

/// The most accounts of one kind that the header of a message can count.
pub const MAX_HEADER_COUNT: usize = 255;

/// The longest list that a message can hold.
pub const MAX_LIST_LENGTH: usize = 65535;

/// An instruction by its bytes: the program, the accounts with whether they sign and
/// whether they are written, and the data.
pub open spec fn plain_instruction(instruction: InstructionView) -> (
    Seq<u8>,
    Seq<(Seq<u8>, bool, bool)>,
    Seq<u8>,
) {
    (
        instruction.program_id.bytes@,
        Seq::new(
            instruction.accounts.len(),
            |i: int|
                (
                    instruction.accounts[i].pubkey.bytes@,
                    instruction.accounts[i].is_signer,
                    instruction.accounts[i].is_writable,
                ),
        ),
        instruction.data,
    )
}

/// Instructions by their bytes.
pub open spec fn plain_instructions(instructions: Seq<InstructionView>) -> Seq<
    (Seq<u8>, Seq<(Seq<u8>, bool, bool)>, Seq<u8>),
> {
    Seq::new(instructions.len(), |i: int| plain_instruction(instructions[i]))
}

/// The bytes of the message with these instructions, which `payer` pays for.
pub uninterp spec fn message_bytes(
    instructions: Seq<(Seq<u8>, Seq<(Seq<u8>, bool, bool)>, Seq<u8>)>,
    payer: Seq<u8>,
) -> Seq<u8>;

/// The bytes of the transaction with this message, once the blockhash is in it and
/// the keypairs have signed it; nothing, if they cannot sign it.
pub uninterp spec fn signed_transaction(
    message: Seq<u8>,
    keypairs: Seq<Seq<u8>>,
    blockhash: Seq<u8>,
) -> Option<Seq<u8>>;

/// The accounts that instructions touch, and the programs that they call.
pub open spec fn instruction_keys(instructions: Seq<InstructionView>) -> Seq<CommandAccount>
    decreases instructions.len(),
{
    if instructions.len() == 0 {
        Seq::empty()
    } else {
        let last = instructions.last();
        with_metas(
            with_account(instruction_keys(instructions.drop_last()), last.program_id, false, false),
            last.accounts,
        )
    }
}

/// The accounts of a message: those of its instructions, and the one who pays.
pub open spec fn message_keys(instructions: Seq<InstructionView>, payer: Pubkey) -> Seq<
    CommandAccount,
> {
    with_account(instruction_keys(instructions), payer, true, true)
}

/// How many of the accounts sign.
pub open spec fn signer_count(keys: Seq<CommandAccount>) -> nat
    decreases keys.len(),
{
    if keys.len() == 0 {
        0
    } else {
        signer_count(keys.drop_last()) + if keys.last().is_signer {
            1nat
        } else {
            0nat
        }
    }
}

/// How many of the accounts neither sign nor are written.
pub open spec fn readonly_count(keys: Seq<CommandAccount>) -> nat
    decreases keys.len(),
{
    if keys.len() == 0 {
        0
    } else {
        readonly_count(keys.drop_last()) + if !keys.last().is_signer && !keys.last().is_write {
            1nat
        } else {
            0nat
        }
    }
}

/// Whether the lists of an instruction can stand in a message.
pub open spec fn instruction_fits(instruction: InstructionView) -> bool {
    &&& instruction.accounts.len() <= MAX_LIST_LENGTH
    &&& instruction.data.len() <= MAX_LIST_LENGTH
}

/// Whether there is a message with these instructions: its header can count the
/// accounts that sign and those that are only read, and none of its lists is too
/// long.
pub open spec fn message_fits(instructions: Seq<InstructionView>, payer: Pubkey) -> bool {
    let keys = message_keys(instructions, payer);
    &&& signer_count(keys) <= MAX_HEADER_COUNT
    &&& readonly_count(keys) <= MAX_HEADER_COUNT
    &&& keys.len() <= MAX_LIST_LENGTH
    &&& instructions.len() <= MAX_LIST_LENGTH
    &&& forall|i: int|
        0 <= i < instructions.len() ==> instruction_fits(#[trigger] instructions[i])
}

/// `solana_sdk::message::Message::new`, serialized. It merges the accounts of the
/// instructions and of the one who pays, orders them by what is done with them, and
/// has the instructions refer to them by their places. It panics where the header
/// cannot count the accounts that sign or those that are only read, and its
/// serialization where a list is longer than its length field allows. Claimed is that
/// the bytes depend on the instructions and the payer alone.
#[verifier::external_body]
fn compile_message(instructions: &Vec<Instruction>, payer: &Pubkey) -> (message: Vec<u8>)
    requires
        message_fits(instruction_views(instructions@), *payer),
    ensures
        message@ == message_bytes(
            plain_instructions(instruction_views(instructions@)),
            payer.bytes@,
        ),
{
    let instructions: Vec<solana_sdk::instruction::Instruction> = instructions.iter().map(
        |i| solana_sdk::instruction::Instruction {
            program_id: i.program_id.bytes.into(),
            accounts: i.accounts.iter().map(|a| solana_sdk::instruction::AccountMeta {
                pubkey: a.pubkey.bytes.into(),
                is_signer: a.is_signer,
                is_writable: a.is_writable,
            }).collect(),
            data: i.data.clone(),
        },
    ).collect();
    solana_sdk::message::Message::new(&instructions, Some(&payer.bytes.into())).serialize()
}

/// `solana_sdk::transaction::Transaction::try_sign` on the unsigned transaction with
/// the message, from and to bytes. It puts the blockhash into the message and signs it
/// with each of the keypairs, which fails where the keypairs are not those of the
/// accounts that sign. Claimed is that the message, the keypairs and the blockhash
/// decide whether it fails, and the bytes.
#[verifier::external_body]
fn sign_message(message: &Vec<u8>, keypairs: &Vec<Keypair>, blockhash: &Blockhash) -> (signed:
    Option<Vec<u8>>)
    ensures
        signed_transaction(message@, keypair_bytes(keypairs@), blockhash.bytes@) == (match signed {
            Some(bytes) => Some(bytes@),
            None => None,
        }),
{
    let message = bincode::deserialize::<solana_sdk::message::Message>(message).ok()?;
    let signers: Vec<solana_sdk::signature::Keypair> = keypairs.iter().map(
        |k| solana_sdk::signature::Keypair::from_bytes(&k.bytes).ok(),
    ).collect::<Option<Vec<_>>>()?;
    let signers: Vec<&solana_sdk::signature::Keypair> = signers.iter().collect();
    let mut transaction = solana_sdk::transaction::Transaction::new_unsigned(message);
    transaction.try_sign(&signers, solana_sdk::hash::Hash::new_from_array(blockhash.bytes)).ok()?;
    bincode::serialize(&transaction).ok()
}

/// `solana_sdk::system_instruction::transfer`: a call of the system program, which is
/// at 32 zero bytes, with the account that gives, which signs, and the account that
/// takes, both of which are written; its data is the number of the instruction, 2, in
/// four bytes, and the amount in eight.
#[verifier::external_body]
fn system_transfer(from: &Pubkey, to: &Pubkey, lamports: u64) -> (instruction: Instruction)
    ensures
        instruction@ == transfer_instruction(*from, *to, lamports),
{
    let i = solana_sdk::system_instruction::transfer(
        &from.bytes.into(),
        &to.bytes.into(),
        lamports,
    );
    Instruction {
        program_id: Pubkey { bytes: i.program_id.to_bytes() },
        accounts: i.accounts.iter().map(|a| AccountMeta {
            pubkey: Pubkey { bytes: a.pubkey.to_bytes() },
            is_signer: a.is_signer,
            is_writable: a.is_writable,
        }).collect(),
        data: i.data,
    }
}

/// The instruction that transfers lamports.
pub open spec fn transfer_instruction(from: Pubkey, to: Pubkey, lamports: u64) -> InstructionView {
    InstructionView {
        program_id: system_program_id(),
        accounts: seq![
            AccountMeta { pubkey: from, is_signer: true, is_writable: true },
            AccountMeta { pubkey: to, is_signer: false, is_writable: true },
        ],
        data: le_bytes(2, 4) + le_bytes(lamports as nat, 8),
    }
}

/// The number of accounts that sign, and of those that are only read, at the front
/// of a list.
proof fn lemma_counts_step(keys: Seq<CommandAccount>, i: int)
    requires
        0 <= i < keys.len(),
    ensures
        signer_count(keys.take(i + 1)) == signer_count(keys.take(i)) + if keys[i].is_signer {
            1nat
        } else {
            0nat
        },
        readonly_count(keys.take(i + 1)) == readonly_count(keys.take(i)) + if !keys[i].is_signer
            && !keys[i].is_write {
            1nat
        } else {
            0nat
        },
{
    assert(keys.take(i + 1).drop_last() =~= keys.take(i));
}

/// No more accounts sign, or are only read, than there are.
proof fn lemma_counts_bounded(keys: Seq<CommandAccount>)
    ensures
        signer_count(keys) <= keys.len(),
        readonly_count(keys) <= keys.len(),
    decreases keys.len(),
{
    if keys.len() > 0 {
        lemma_counts_bounded(keys.drop_last());
    }
}

/// The accounts that sign, and those that are only read.
fn count_keys(keys: &CommandAccounts) -> (counts: (usize, usize))
    ensures
        counts.0 == signer_count(keys@),
        counts.1 == readonly_count(keys@),
{
    let metas: Vec<AccountMeta> = keys.get_account_metas();
    let mut signers: usize = 0;
    let mut readonly: usize = 0;
    let mut i: usize = 0;
    while i < metas.len()
        invariant
            i <= metas@.len(),
            metas@ == metas_of(keys@),
            signers == signer_count(keys@.take(i as int)),
            readonly == readonly_count(keys@.take(i as int)),
            signers <= i,
            readonly <= i,
        decreases metas@.len() - i,
    {
        proof {
            lemma_counts_step(keys@, i as int);
        }
        let meta: AccountMeta = metas[i];
        if meta.is_signer {
            signers = signers + 1;
        } else if !meta.is_writable {
            readonly = readonly + 1;
        }
        i = i + 1;
    }
    assert(keys@.take(i as int) =~= keys@);
    (signers, readonly)
}

/// Whether there is a message with these instructions.
pub fn can_compile(instructions: &Vec<Instruction>, payer: &Pubkey) -> (can: bool)
    ensures
        can == message_fits(instruction_views(instructions@), *payer),
{
    let ghost views: Seq<InstructionView> = instruction_views(instructions@);
    let mut keys = CommandAccounts::new();
    let mut lists_fit: bool = true;
    let mut i: usize = 0;
    while i < instructions.len()
        invariant
            i <= instructions@.len(),
            views == instruction_views(instructions@),
            keys.wf(),
            keys@ == instruction_keys(views.take(i as int)),
            lists_fit <==> forall|k: int| 0 <= k < i ==> instruction_fits(#[trigger] views[k]),
        decreases instructions@.len() - i,
    {
        let accounts: &Vec<AccountMeta> = &instructions[i].accounts;
        assert(views[i as int] == instructions@[i as int]@);
        if accounts.len() > MAX_LIST_LENGTH || instructions[i].data.len() > MAX_LIST_LENGTH {
            assert(!instruction_fits(views[i as int]));
            lists_fit = false;
        }
        keys.add(&instructions[i].program_id, false, false);
        let ghost called: Seq<CommandAccount> = keys@;
        let mut j: usize = 0;
        assert(accounts@.take(0) =~= Seq::empty());
        while j < accounts.len()
            invariant
                j <= accounts@.len(),
                keys.wf(),
                keys@ == with_metas(called, accounts@.take(j as int)),
            decreases accounts@.len() - j,
        {
            let a: AccountMeta = accounts[j];
            keys.add(&a.pubkey, a.is_writable, a.is_signer);
            proof {
                assert(accounts@.take(j as int + 1).drop_last() =~= accounts@.take(j as int));
            }
            j = j + 1;
        }
        proof {
            assert(accounts@.take(j as int) =~= accounts@);
            assert(views.take(i as int + 1).drop_last() =~= views.take(i as int));
            assert(views.take(i as int + 1).last() == views[i as int]);
        }
        i = i + 1;
    }
    assert(views.take(i as int) =~= views);
    keys.add(payer, true, true);
    let (signers, readonly) = count_keys(&keys);
    signers <= MAX_HEADER_COUNT && readonly <= MAX_HEADER_COUNT && keys.count() <= MAX_LIST_LENGTH
        && instructions.len() <= MAX_LIST_LENGTH && lists_fit
}

/// The message with these instructions, which `payer` pays for, if there is one.
pub fn build_message(instructions: &Vec<Instruction>, payer: &Pubkey) -> (message: Option<Vec<u8>>)
    ensures
        match message {
            Some(bytes) => {
                &&& message_fits(instruction_views(instructions@), *payer)
                &&& bytes@ == message_bytes(
                    plain_instructions(instruction_views(instructions@)),
                    payer.bytes@,
                )
            },
            None => !message_fits(instruction_views(instructions@), *payer),
        },
{
    if can_compile(instructions, payer) {
        Some(compile_message(instructions, payer))
    } else {
        None
    }
}

/// The bytes of the transaction with these instructions, which `payer` pays for;
/// nothing, if there is no such message or the keypairs cannot sign it.
pub open spec fn transaction_bytes(
    instructions: Seq<InstructionView>,
    payer: Pubkey,
    keypairs: Seq<Keypair>,
    blockhash: Blockhash,
) -> Option<Seq<u8>> {
    if message_fits(instructions, payer) {
        signed_transaction(
            message_bytes(plain_instructions(instructions), payer.bytes@),
            keypair_bytes(keypairs),
            blockhash.bytes@,
        )
    } else {
        None
    }
}

/// Signs the instructions as a transaction that `payer` pays for.
pub fn sign_instructions(
    instructions: &Vec<Instruction>,
    payer: &Pubkey,
    keypairs: &Vec<Keypair>,
    blockhash: &Blockhash,
) -> (transaction: Option<Vec<u8>>)
    ensures
        transaction_bytes(instruction_views(instructions@), *payer, keypairs@, *blockhash) == (
        match transaction {
            Some(bytes) => Some(bytes@),
            None => None,
        }),
{
    match build_message(instructions, payer) {
        Some(message) => sign_message(&message, keypairs, blockhash),
        None => None,
    }
}

/// What there is to do for a transfer.
#[derive(Debug, PartialEq, Eq)]
pub enum Transfer {
    /// Nothing, as the money stays where it is.
    Nothing,
    /// Send this transaction.
    Send(Vec<u8>),
    /// The keypairs cannot sign the transaction.
    Unsigned,
}

/// The transaction that transfers `amount` lamports from the account of `funds_source`
/// to `target`, which `fee_payer` pays for.
pub fn transfer_lamports(
    fee_payer: &Keypair,
    funds_source: &Keypair,
    target: &Pubkey,
    amount: u64,
    recent_blockhash: &Blockhash,
) -> (transfer: Transfer)
    ensures
        ({
            let from = public_half(funds_source.bytes@);
            let expected = transaction_bytes(
                seq![transfer_instruction(pubkey_with(from), *target, amount)],
                pubkey_with(public_half(fee_payer.bytes@)),
                seq![*fee_payer, *funds_source],
                *recent_blockhash,
            );
            match transfer {
                Transfer::Nothing => target.bytes@ == from,
                Transfer::Send(bytes) => target.bytes@ != from && expected == Some(bytes@),
                Transfer::Unsigned => target.bytes@ != from && expected is None,
            }
        }),
{
    let from: Pubkey = funds_source.pubkey();
    let payer: Pubkey = fee_payer.pubkey();
    if target.same(&from) {
        return Transfer::Nothing;
    }
    let mut instructions: Vec<Instruction> = Vec::new();
    instructions.push(system_transfer(&from, target, amount));
    let mut keypairs: Vec<Keypair> = Vec::new();
    keypairs.push(*fee_payer);
    keypairs.push(*funds_source);
    proof {
        lemma_pubkey_with(from);
        lemma_pubkey_with(payer);
        assert(instruction_views(instructions@) =~= seq![
            transfer_instruction(from, *target, amount),
        ]);
        assert(keypairs@ =~= seq![*fee_payer, *funds_source]);
    }
    match sign_instructions(&instructions, &payer, &keypairs, recent_blockhash) {
        Some(bytes) => Transfer::Send(bytes),
        None => Transfer::Unsigned,
    }
}

/// A transfer is never refused for its size: only keypairs that cannot sign it keep it
/// from being a transaction.
pub proof fn transfer_is_a_message(from: Pubkey, to: Pubkey, lamports: u64, payer: Pubkey)
    ensures
        message_fits(seq![transfer_instruction(from, to, lamports)], payer),
{
    let instruction = transfer_instruction(from, to, lamports);
    let instructions = seq![instruction];
    assert(instructions.drop_last() =~= Seq::empty());
    let called = with_account(Seq::empty(), instruction.program_id, false, false);
    let metas = instruction.accounts;
    assert(metas.drop_last().drop_last() =~= Seq::empty());
    assert(with_metas(called, metas.drop_last().drop_last()) == called);
    assert(with_metas(called, metas.drop_last()).len() <= 2);
    let keys = message_keys(instructions, payer);
    assert(instruction_keys(instructions.drop_last()) == Seq::<CommandAccount>::empty());
    assert(keys.len() <= 4);
    lemma_counts_bounded(keys);
    le_bytes_round_trip(2, 4);
    le_bytes_round_trip(lamports as nat, 8);
}

/// The accounts that are counted are those that sign, and those that neither sign nor are
/// written.
pub proof fn listed_accounts_are_counted(keys: Seq<CommandAccount>)
    ensures
        signer_count(keys) == keys.filter(|key: CommandAccount| key.is_signer).len(),
        readonly_count(keys) == keys.filter(
            |key: CommandAccount| !key.is_signer && !key.is_write,
        ).len(),
    decreases keys.len(),
{
    reveal(Seq::filter);
    if keys.len() > 0 {
        listed_accounts_are_counted(keys.drop_last());
    }
}

impl InstructionView {
    /// Whether the instruction calls the program at `address` or is given the account.
    pub open spec fn touches(self, address: Pubkey) -> bool {
        self.program_id == address || exists|i: int|
            0 <= i < self.accounts.len() && (#[trigger] self.accounts[i]).pubkey == address
    }

    /// Whether the instruction may write the account at `address`.
    pub open spec fn writes(self, address: Pubkey) -> bool {
        exists|i: int|
            0 <= i < self.accounts.len() && (#[trigger] self.accounts[i]).pubkey == address
                && self.accounts[i].is_writable
    }

    /// Whether the instruction needs the signature of the account at `address`.
    pub open spec fn is_signed_by(self, address: Pubkey) -> bool {
        exists|i: int|
            0 <= i < self.accounts.len() && (#[trigger] self.accounts[i]).pubkey == address
                && self.accounts[i].is_signer
    }
}

/// What instructions touch is what they call and the accounts that they are given, with all
/// that any of them may do with an account.
proof fn lemma_instruction_keys(instructions: Seq<InstructionView>, address: Pubkey)
    ensures
        ({
            let keys = instruction_keys(instructions);
            &&& has_account(keys, address) == exists|i: int|
                0 <= i < instructions.len() && (#[trigger] instructions[i]).touches(address)
            &&& permission(keys, address).0 == exists|i: int|
                0 <= i < instructions.len() && (#[trigger] instructions[i]).writes(address)
            &&& permission(keys, address).1 == exists|i: int|
                0 <= i < instructions.len() && (#[trigger] instructions[i]).is_signed_by(address)
            &&& distinct_accounts(keys)
        }),
    decreases instructions.len(),
{
    if instructions.len() > 0 {
        let front = instructions.drop_last();
        let last = instructions.last();
        lemma_instruction_keys(front, address);
        let before = instruction_keys(front);
        let called = with_account(before, last.program_id, false, false);
        use_is_recorded(before, last.program_id, false, false, address);
        entries_accumulate(called, last.accounts, address);
        assert(instructions[instructions.len() - 1] == last);
        assert(forall|i: int| 0 <= i < front.len() ==> #[trigger] front[i] == instructions[i]);
        assert(forall|i: int| 0 <= i < front.len() ==> front[i] == #[trigger] instructions[i]);
    }
}

/// The accounts of a message are the one who pays, who signs and is written, the programs
/// that are called and the accounts that instructions touch; each is written or signs if an
/// instruction says so, and none is listed twice.
pub proof fn message_lists_what_is_touched(
    instructions: Seq<InstructionView>,
    payer: Pubkey,
    address: Pubkey,
)
    ensures
        ({
            let keys = message_keys(instructions, payer);
            &&& has_account(keys, address) <==> address == payer || exists|i: int|
                0 <= i < instructions.len() && (#[trigger] instructions[i]).touches(address)
            &&& permission(keys, address).0 <==> address == payer || exists|i: int|
                0 <= i < instructions.len() && (#[trigger] instructions[i]).writes(address)
            &&& permission(keys, address).1 <==> address == payer || exists|i: int|
                0 <= i < instructions.len() && (#[trigger] instructions[i]).is_signed_by(address)
            &&& distinct_accounts(keys)
        }),
{
    lemma_instruction_keys(instructions, address);
    use_is_recorded(instruction_keys(instructions), payer, true, true, address);
}

/// There is a message if a byte can count its accounts that sign and a byte those that are
/// only read, and sixteen bits the entries of each of its lists.
pub proof fn message_fits_its_fields(instructions: Seq<InstructionView>, payer: Pubkey)
    ensures
        ({
            let keys = message_keys(instructions, payer);
            message_fits(instructions, payer) <==> {
                &&& keys.filter(|key: CommandAccount| key.is_signer).len() < 256
                &&& keys.filter(|key: CommandAccount| !key.is_signer && !key.is_write).len() < 256
                &&& keys.len() < 65536
                &&& instructions.len() < 65536
                &&& forall|i: int|
                    0 <= i < instructions.len() ==> (#[trigger] instructions[i]).accounts.len()
                        < 65536 && instructions[i].data.len() < 65536
            }
        }),
{
    listed_accounts_are_counted(message_keys(instructions, payer));
    if message_fits(instructions, payer) {
        assert forall|i: int| 0 <= i < instructions.len() implies (
        #[trigger] instructions[i]).accounts.len() < 65536 && instructions[i].data.len()
            < 65536 by {
            assert(instruction_fits(instructions[i]));
        }
    }
}

/// Nothing of instructions is lost in their bytes: two rows of instructions with the same
/// bytes are the same.
pub proof fn bytes_tell_instructions_apart(a: Seq<InstructionView>, b: Seq<InstructionView>)
    requires
        plain_instructions(a) == plain_instructions(b),
    ensures
        a == b,
{
    assert(plain_instructions(a).len() == a.len());
    assert(plain_instructions(b).len() == b.len());
    assert forall|i: int| 0 <= i < a.len() implies #[trigger] a[i] == b[i] by {
        assert(plain_instructions(a)[i] == plain_instruction(a[i]));
        assert(plain_instructions(b)[i] == plain_instruction(b[i]));
        let m = plain_instruction(a[i]).1;
        let n = plain_instruction(b[i]).1;
        assert(a[i].program_id.bytes =~= b[i].program_id.bytes);
        assert(m.len() == n.len());
        assert forall|k: int| 0 <= k < a[i].accounts.len() implies #[trigger] a[i].accounts[k]
            == b[i].accounts[k] by {
            assert(m[k] == n[k]);
            assert(a[i].accounts[k].pubkey.bytes =~= b[i].accounts[k].pubkey.bytes);
        }
        assert(a[i].accounts =~= b[i].accounts);
    }
    assert(a =~= b);
}

/// A transfer calls the program whose address is all zeros with the one who gives, who
/// signs, and the one who takes, both of whom are written; its data is a 2 in four bytes and
/// the amount in eight, the least significant byte first.
pub proof fn transfer_names_the_amount(from: Pubkey, to: Pubkey, lamports: u64)
    ensures
        ({
            let transfer = transfer_instruction(from, to, lamports);
            &&& forall|i: int| 0 <= i < 32 ==> #[trigger] transfer.program_id.bytes@[i] == 0
            &&& transfer.accounts.len() == 2
            &&& transfer.accounts[0] == (AccountMeta {
                pubkey: from,
                is_signer: true,
                is_writable: true,
            })
            &&& transfer.accounts[1] == (AccountMeta {
                pubkey: to,
                is_signer: false,
                is_writable: true,
            })
            &&& transfer.data.len() == 12
            &&& le_value(transfer.data.take(4)) == 2
            &&& le_value(transfer.data.skip(4)) == lamports
        }),
{
    let transfer = transfer_instruction(from, to, lamports);
    le_bytes_round_trip(2, 4);
    le_bytes_round_trip(lamports as nat, 8);
    reveal_with_fuel(byte_span, 9);
    assert(transfer.data.take(4) =~= le_bytes(2, 4));
    assert(transfer.data.skip(4) =~= le_bytes(lamports as nat, 8));
}

/// There is a transaction only where there is a message, and it is the message of just these
/// instructions and this payer, signed by all the keypairs in their order with the blockhash.
pub proof fn transaction_signs_the_message(
    instructions: Seq<InstructionView>,
    payer: Pubkey,
    keypairs: Seq<Keypair>,
    blockhash: Blockhash,
)
    ensures
        ({
            let bytes = transaction_bytes(instructions, payer, keypairs, blockhash);
            &&& !message_fits(instructions, payer) ==> bytes is None
            &&& message_fits(instructions, payer) ==> bytes == signed_transaction(
                message_bytes(plain_instructions(instructions), payer.bytes@),
                keypairs.map_values(|keypair: Keypair| keypair.bytes@),
                blockhash.bytes@,
            )
        }),
{
    assert(keypair_bytes(keypairs) =~= keypairs.map_values(|keypair: Keypair| keypair.bytes@));
}

} // verus!
