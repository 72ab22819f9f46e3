//! The commands of the test program, as bytes.
//!
//! A command is a tag byte followed by its operands. Numbers are little-endian and
//! addresses are their 32 bytes. The bytes of several commands follow each other in
//! the data of an instruction.

use vstd::prelude::*;

use crate::accounts::{Account, AccountView};
use crate::bytes::{byte_span, le_bytes, le_bytes_round_trip, le_value, write_byte, write_le};
use crate::command_accounts::{
    distinct_accounts, has_account, permission, use_is_recorded, uses_accumulate, with_account, with_accounts,
    AccountMeta, CommandAccount, CommandAccounts,
};
use crate::pubkey::{lemma_pubkey_with, pubkey_with, Pubkey};

verus! {

/// The address of the system program: 32 zero bytes.
pub open spec fn system_program_id() -> Pubkey {
    Pubkey { bytes: vstd::array::spec_array_fill_for_copy_type::<u8, 32>(0u8) }
}

/// The address of the system program.
pub fn system_program() -> (id: Pubkey)
    ensures
        id == system_program_id(),
        id.bytes@ == Seq::new(32, |i: int| 0u8),
{
    let id = Pubkey { bytes: [0u8; 32] };
    assert(id.bytes@ =~= Seq::new(32, |i: int| 0u8));
    id
}

/// A flag as a byte.
pub open spec fn flag_byte(flag: bool) -> u8 {
    if flag {
        1
    } else {
        0
    }
}

/// The command that creates an account.
pub open spec fn create_account_bytes(fee_payer: Pubkey, account: AccountView) -> Seq<u8> {
    seq![0u8] + fee_payer.bytes@ + account.address + account.seed + le_bytes(account.size as nat, 2)
}

/// The command that deletes an account.
pub open spec fn delete_account_bytes(fee_payer: Pubkey, account: AccountView) -> Seq<u8> {
    seq![1u8] + fee_payer.bytes@ + account.address
}

/// The command that keeps the processor busy for a number of rounds.
pub open spec fn cpu_bytes(loop_count: u32) -> Seq<u8> {
    seq![2u8] + le_bytes(loop_count as nat, 4)
}

/// The command that allocates memory under an index.
pub open spec fn alloc_bytes(amount: u32, index: u8) -> Seq<u8> {
    seq![3u8] + le_bytes(amount as nat, 4) + seq![index]
}

/// The command that frees the memory under an index.
pub open spec fn free_bytes(index: u8) -> Seq<u8> {
    seq![4u8, index]
}

/// The accounts of a cross-program invocation, one after the other.
pub open spec fn meta_bytes(metas: Seq<AccountMeta>) -> Seq<u8>
    decreases metas.len(),
{
    if metas.len() == 0 {
        Seq::empty()
    } else {
        meta_bytes(metas.drop_last()) + metas.last().pubkey.bytes@ + seq![
            flag_byte(metas.last().is_writable),
            flag_byte(metas.last().is_signer),
        ]
    }
}

/// The seed of a cross-program invocation behind its length. No seed is an empty
/// one.
pub open spec fn seed_bytes(seed: Option<Seq<u8>>) -> Seq<u8> {
    match seed {
        Some(s) => le_bytes(s.len(), 1) + s,
        None => seq![0u8],
    }
}

/// The command that invokes another program. A length that does not fit its field
/// loses its high-order bytes.
pub open spec fn cpi_bytes(
    program_id: Pubkey,
    metas: Seq<AccountMeta>,
    data: Seq<u8>,
    seed: Option<Seq<u8>>,
) -> Seq<u8> {
    seq![5u8] + program_id.bytes@ + le_bytes(metas.len(), 1) + meta_bytes(metas) + le_bytes(
        data.len(),
        2,
    ) + data + seed_bytes(seed)
}

/// The command that reads the system variables.
pub open spec fn sysvar_bytes() -> Seq<u8> {
    seq![6u8]
}

/// The command that fails with an error code.
pub open spec fn fail_bytes(error_code: u8) -> Seq<u8> {
    seq![7u8, error_code]
}

/// The accounts after the uses that creating or deleting the account at `address`
/// makes.
pub open spec fn with_owned_account(
    accounts: Seq<CommandAccount>,
    fee_payer: Pubkey,
    address: Pubkey,
) -> Seq<CommandAccount> {
    with_account(
        with_account(with_account(accounts, fee_payer, true, true), address, true, false),
        system_program_id(),
        false,
        false,
    )
}

/// The accounts after the uses in `metas`, one after the other.
pub open spec fn with_metas(
    accounts: Seq<CommandAccount>,
    metas: Seq<AccountMeta>,
) -> Seq<CommandAccount>
    decreases metas.len(),
{
    if metas.len() == 0 {
        accounts
    } else {
        let last = metas.last();
        with_account(
            with_metas(accounts, metas.drop_last()),
            last.pubkey,
            last.is_writable,
            last.is_signer,
        )
    }
}

/// The use that an entry of an instruction makes of its account.
pub open spec fn use_of(meta: AccountMeta) -> CommandAccount {
    CommandAccount { address: meta.pubkey, is_write: meta.is_writable, is_signer: meta.is_signer }
}

/// The uses that the entries of an instruction make of their accounts.
pub open spec fn uses_of(metas: Seq<AccountMeta>) -> Seq<CommandAccount> {
    Seq::new(metas.len(), |i: int| use_of(metas[i]))
}

/// Adding the entries of an instruction is adding their uses.
proof fn lemma_metas_are_uses(accounts: Seq<CommandAccount>, metas: Seq<AccountMeta>)
    ensures
        with_metas(accounts, metas) == with_accounts(accounts, uses_of(metas)),
    decreases metas.len(),
{
    if metas.len() > 0 {
        lemma_metas_are_uses(accounts, metas.drop_last());
        assert(uses_of(metas).drop_last() =~= uses_of(metas.drop_last()));
    }
}

/// Adding the entries of an instruction records all their uses: an account is there
/// afterwards if it was or if an entry is of it, it may do what it might before and
/// what any entry of it allows, and no account is listed twice.
pub proof fn entries_accumulate(
    accounts: Seq<CommandAccount>,
    metas: Seq<AccountMeta>,
    address: Pubkey,
)
    ensures
        ({
            let after = with_metas(accounts, metas);
            &&& has_account(after, address) == (has_account(accounts, address) || exists|i: int|
                0 <= i < metas.len() && (#[trigger] metas[i]).pubkey == address)
            &&& permission(after, address).0 == (permission(accounts, address).0 || exists|i: int|
                0 <= i < metas.len() && (#[trigger] metas[i]).pubkey == address
                    && metas[i].is_writable)
            &&& permission(after, address).1 == (permission(accounts, address).1 || exists|i: int|
                0 <= i < metas.len() && (#[trigger] metas[i]).pubkey == address
                    && metas[i].is_signer)
            &&& distinct_accounts(accounts) ==> distinct_accounts(after)
        }),
{
    let uses = uses_of(metas);
    lemma_metas_are_uses(accounts, metas);
    uses_accumulate(accounts, uses, address);
    assert forall|i: int| 0 <= i < metas.len() implies #[trigger] uses[i] == use_of(metas[i]) by {}
    if exists|i: int| 0 <= i < metas.len() && (#[trigger] metas[i]).pubkey == address {
        let i = choose|i: int| 0 <= i < metas.len() && (#[trigger] metas[i]).pubkey == address;
        assert(uses[i].address == address);
    }
    if exists|i: int|
        0 <= i < metas.len() && (#[trigger] metas[i]).pubkey == address && metas[i].is_writable {
        let i = choose|i: int|
            0 <= i < metas.len() && (#[trigger] metas[i]).pubkey == address
                && metas[i].is_writable;
        assert(uses[i].address == address && uses[i].is_write);
    }
    if exists|i: int|
        0 <= i < metas.len() && (#[trigger] metas[i]).pubkey == address && metas[i].is_signer {
        let i = choose|i: int|
            0 <= i < metas.len() && (#[trigger] metas[i]).pubkey == address && metas[i].is_signer;
        assert(uses[i].address == address && uses[i].is_signer);
    }
    if has_account(uses, address) {
        let i = choose|i: int| 0 <= i < uses.len() && (#[trigger] uses[i]).address == address;
        assert(metas[i].pubkey == address);
    }
    if permission(uses, address).0 {
        let i = choose|i: int|
            0 <= i < uses.len() && (#[trigger] uses[i]).address == address && uses[i].is_write;
        assert(metas[i].pubkey == address && metas[i].is_writable);
    }
    if permission(uses, address).1 {
        let i = choose|i: int|
            0 <= i < uses.len() && (#[trigger] uses[i]).address == address && uses[i].is_signer;
        assert(metas[i].pubkey == address && metas[i].is_signer);
    }
}

/// Writes the command that creates `account` at the expense of `fee_payer`.
pub fn add_create_account_command(
    fee_payer: &Pubkey,
    account: &Account,
    command_accounts: &mut CommandAccounts,
    w: &mut Vec<u8>,
)
    requires
        old(command_accounts).wf(),
    ensures
        final(command_accounts).wf(),
        final(command_accounts)@ == with_owned_account(
            old(command_accounts)@,
            *fee_payer,
            account.address,
        ),
        final(w)@ == old(w)@ + create_account_bytes(*fee_payer, account@),
{
    command_accounts.add(fee_payer, true, true);
    command_accounts.add(&account.address, true, false);
    command_accounts.add(&system_program(), false, false);
    write_byte(w, 0);
    crate::bytes::write(w, fee_payer.bytes.as_slice());
    crate::bytes::write(w, account.address.bytes.as_slice());
    crate::bytes::write(w, account.seed.as_slice());
    write_le(w, account.size as u64, 2);
    assert(w@ =~= old(w)@ + create_account_bytes(*fee_payer, account@));
}

/// Writes the command that deletes `account` in favour of `fee_payer`.
pub fn add_delete_account_command(
    fee_payer: &Pubkey,
    account: &Account,
    command_accounts: &mut CommandAccounts,
    w: &mut Vec<u8>,
)
    requires
        old(command_accounts).wf(),
    ensures
        final(command_accounts).wf(),
        final(command_accounts)@ == with_owned_account(
            old(command_accounts)@,
            *fee_payer,
            account.address,
        ),
        final(w)@ == old(w)@ + delete_account_bytes(*fee_payer, account@),
{
    command_accounts.add(fee_payer, true, true);
    command_accounts.add(&account.address, true, false);
    command_accounts.add(&system_program(), false, false);
    write_byte(w, 1);
    crate::bytes::write(w, fee_payer.bytes.as_slice());
    crate::bytes::write(w, account.address.bytes.as_slice());
    assert(w@ =~= old(w)@ + delete_account_bytes(*fee_payer, account@));
}

/// Writes the command that keeps the processor busy for `loop_count` rounds.
pub fn add_cpu_command(loop_count: u32, w: &mut Vec<u8>)
    ensures
        final(w)@ == old(w)@ + cpu_bytes(loop_count),
{
    write_byte(w, 2);
    write_le(w, loop_count as u64, 4);
    assert(w@ =~= old(w)@ + cpu_bytes(loop_count));
}

/// Writes the command that allocates `amount` bytes under `index`.
pub fn add_alloc_command(amount: u32, index: u8, w: &mut Vec<u8>)
    ensures
        final(w)@ == old(w)@ + alloc_bytes(amount, index),
{
    write_byte(w, 3);
    write_le(w, amount as u64, 4);
    write_byte(w, index);
    assert(w@ =~= old(w)@ + alloc_bytes(amount, index));
}

/// Writes the command that frees what is allocated under `index`.
pub fn add_free_command(index: u8, w: &mut Vec<u8>)
    ensures
        final(w)@ == old(w)@ + free_bytes(index),
{
    write_byte(w, 4);
    write_byte(w, index);
    assert(w@ =~= old(w)@ + free_bytes(index));
}

/// A seed, if there is one.
pub open spec fn seed_view(seed: Option<Vec<u8>>) -> Option<Seq<u8>> {
    match seed {
        Some(s) => Some(s@),
        None => None,
    }
}

/// Writes the command that invokes `program_id` with the given accounts, data and
/// seed.
pub fn add_cpi_command(
    program_id: &Pubkey,
    accounts: &Vec<AccountMeta>,
    data: &Vec<u8>,
    seed: &Option<Vec<u8>>,
    command_accounts: &mut CommandAccounts,
    w: &mut Vec<u8>,
)
    requires
        old(command_accounts).wf(),
    ensures
        final(command_accounts).wf(),
        final(command_accounts)@ == with_metas(
            with_account(old(command_accounts)@, *program_id, false, false),
            accounts@,
        ),
        final(w)@ == old(w)@ + cpi_bytes(*program_id, accounts@, data@, seed_view(*seed)),
{
    command_accounts.add(program_id, false, false);
    let ghost uses: Seq<CommandAccount> = command_accounts@;
    write_byte(w, 5);
    crate::bytes::write(w, program_id.bytes.as_slice());
    write_le(w, accounts.len() as u64, 1);
    let ghost head: Seq<u8> = w@;
    let mut i: usize = 0;
    assert(accounts@.take(0) =~= Seq::empty());
    assert(w@ =~= head + meta_bytes(accounts@.take(0)));
    while i < accounts.len()
        invariant
            i <= accounts@.len(),
            command_accounts.wf(),
            command_accounts@ == with_metas(uses, accounts@.take(i as int)),
            w@ == head + meta_bytes(accounts@.take(i as int)),
        decreases accounts@.len() - i,
    {
        let account: AccountMeta = accounts[i];
        crate::bytes::write(w, account.pubkey.bytes.as_slice());
        write_byte(w, if account.is_writable { 1 } else { 0 });
        write_byte(w, if account.is_signer { 1 } else { 0 });
        command_accounts.add(&account.pubkey, account.is_writable, account.is_signer);
        proof {
            let next = accounts@.take(i as int + 1);
            assert(next.drop_last() =~= accounts@.take(i as int));
            assert(next.last() == account);
            assert(w@ =~= head + meta_bytes(next));
        }
        i = i + 1;
    }
    assert(accounts@.take(i as int) =~= accounts@);
    write_le(w, data.len() as u64, 2);
    crate::bytes::write(w, data.as_slice());
    match seed {
        Some(s) => {
            write_le(w, s.len() as u64, 1);
            crate::bytes::write(w, s.as_slice());
        },
        None => write_byte(w, 0),
    }
    assert(w@ =~= old(w)@ + cpi_bytes(*program_id, accounts@, data@, seed_view(*seed)));
}

/// Writes the command that reads the system variables.
pub fn add_sysvar_command(w: &mut Vec<u8>)
    ensures
        final(w)@ == old(w)@ + sysvar_bytes(),
{
    write_byte(w, 6);
}

/// Writes the command that fails with `error_code`.
pub fn add_fail_command(error_code: u8, w: &mut Vec<u8>)
    ensures
        final(w)@ == old(w)@ + fail_bytes(error_code),
{
    write_byte(w, 7);
    write_byte(w, error_code);
    assert(w@ =~= old(w)@ + fail_bytes(error_code));
}

/// The account at a place in a row of accounts.
pub open spec fn meta_at(s: Seq<u8>, i: int) -> AccountMeta {
    AccountMeta {
        pubkey: pubkey_with(s.subrange(34 * i, 34 * i + 32)),
        is_writable: s[34 * i + 32] == 1,
        is_signer: s[34 * i + 33] == 1,
    }
}

/// A cross-program invocation.
#[verifier::ext_equal]
pub ghost struct Invocation {
    pub program_id: Pubkey,
    pub accounts: Seq<AccountMeta>,
    pub data: Seq<u8>,
    pub seed: Seq<u8>,
}

/// The cross-program invocation at the front of `s`, read from its bytes, and how many
/// bytes it has.
pub open spec fn invocation_at_front(s: Seq<u8>) -> (Invocation, nat) {
    let count = s[33] as int;
    let at = 34 + 34 * count;
    let length = le_value(s.subrange(at, at + 2)) as int;
    let seed_length = s[at + 2 + length] as int;
    let end = at + 3 + length + seed_length;
    (
        Invocation {
            program_id: pubkey_with(s.subrange(1, 33)),
            accounts: Seq::new(count as nat, |i: int| meta_at(s.skip(34), i)),
            data: s.subrange(at + 2, at + 2 + length),
            seed: s.subrange(at + 3 + length, end),
        },
        end as nat,
    )
}

/// Each account of a row can be read from its place.
proof fn lemma_metas_read_back(metas: Seq<AccountMeta>, rest: Seq<u8>)
    ensures
        meta_bytes(metas).len() == 34 * metas.len(),
        forall|i: int|
            0 <= i < metas.len() ==> #[trigger] meta_at(meta_bytes(metas) + rest, i) == metas[i],
    decreases metas.len(),
{
    if metas.len() > 0 {
        let shorter = metas.drop_last();
        let last = metas.last();
        let own = last.pubkey.bytes@ + seq![flag_byte(last.is_writable), flag_byte(last.is_signer)];
        assert(meta_bytes(metas) =~= meta_bytes(shorter) + own);
        lemma_metas_read_back(shorter, own + rest);
        let s = meta_bytes(metas) + rest;
        assert(s =~= meta_bytes(shorter) + (own + rest));
        let n = shorter.len() as int;
        assert forall|i: int| 0 <= i < metas.len() implies #[trigger] meta_at(s, i) == metas[i] by {
            if i < n {
                assert(meta_at(meta_bytes(shorter) + (own + rest), i) == shorter[i]);
            } else {
                assert(s.subrange(34 * i, 34 * i + 32) =~= last.pubkey.bytes@);
                lemma_pubkey_with(last.pubkey);
            }
        }
    }
}

/// Whatever follows it, a cross-program invocation can be read back from its bytes, as
/// long as its lengths fit their fields.
#[verifier::spinoff_prover]
#[verifier::rlimit(40)]
pub proof fn invocation_reads_back(
    program_id: Pubkey,
    metas: Seq<AccountMeta>,
    data: Seq<u8>,
    seed: Option<Seq<u8>>,
    rest: Seq<u8>,
)
    requires
        metas.len() <= 255,
        data.len() <= 65535,
        seed matches Some(s) ==> s.len() <= 255,
    ensures
        ({
            let bytes = cpi_bytes(program_id, metas, data, seed);
            let invocation = Invocation {
                program_id,
                accounts: metas,
                data,
                seed: match seed {
                    Some(s) => s,
                    None => Seq::empty(),
                },
            };
            invocation_at_front(bytes + rest) == (invocation, bytes.len())
        }),
{
    let bytes = cpi_bytes(program_id, metas, data, seed);
    let s = bytes + rest;
    let count = metas.len() as int;
    le_bytes_round_trip(metas.len(), 1);
    le_bytes_round_trip(data.len(), 2);
    reveal_with_fuel(le_value, 3);
    reveal_with_fuel(byte_span, 3);
    let tail = le_bytes(data.len(), 2) + data + seed_bytes(seed) + rest;
    lemma_metas_read_back(metas, tail);
    let head = seq![5u8] + program_id.bytes@ + le_bytes(metas.len(), 1);
    assert(head.len() == 34);
    assert(s =~= head + (meta_bytes(metas) + tail));
    assert(s.subrange(1, 33) =~= program_id.bytes@);
    lemma_pubkey_with(program_id);
    assert(s[33] == le_bytes(metas.len(), 1)[0]);
    assert(le_bytes(metas.len(), 1)[0] == metas.len());
    assert(s.skip(34) =~= meta_bytes(metas) + tail);
    let at = 34 + 34 * count;
    assert(s.subrange(at, at + 2) =~= le_bytes(data.len(), 2));
    let length = data.len() as int;
    assert(s.subrange(at + 2, at + 2 + length) =~= data);
    let (read, size) = invocation_at_front(s);
    assert(read.accounts =~= metas);
    match seed {
        Some(text) => {
            le_bytes_round_trip(text.len(), 1);
            assert(le_bytes(text.len(), 1)[0] == text.len());
            assert(s[at + 2 + length] == text.len());
            assert(s.subrange(at + 3 + length, at + 3 + length + text.len()) =~= text);
        },
        None => {
            assert(s[at + 2 + length] == 0);
            assert(s.subrange(at + 3 + length, at + 3 + length) =~= Seq::empty());
        },
    }
}

/// The four bytes of a number, the least significant first.
pub open spec fn four_bytes(x: u32) -> Seq<u8> {
    seq![
        (x as int % 256) as u8,
        (x as int / 256 % 256) as u8,
        (x as int / 65536 % 256) as u8,
        (x as int / 16777216) as u8,
    ]
}

/// The bytes of a number of four bytes are these four.
proof fn lemma_four_bytes_are(x: u32)
    ensures
        le_bytes(x as nat, 4) == four_bytes(x),
{
    reveal_with_fuel(le_bytes, 5);
    let n = x as nat;
    assert(n / 256 / 256 == n / 65536);
    assert(n / 65536 / 256 == n / 16777216);
    assert(n / 16777216 < 256);
    assert(le_bytes(n, 4) =~= four_bytes(x));
}

/// The tag of a command says what it is, and its numbers follow: the rounds of the one
/// that computes, the amount and the index of the one that allocates, the index of the
/// one that frees, the code of the one that fails.
pub proof fn commands_are_tagged(number: u32, byte: u8)
    ensures
        cpu_bytes(number) == seq![2u8] + four_bytes(number),
        alloc_bytes(number, byte) == seq![3u8] + four_bytes(number) + seq![byte],
        free_bytes(byte) == seq![4u8, byte],
        sysvar_bytes() == seq![6u8],
        fail_bytes(byte) == seq![7u8, byte],
{
    lemma_four_bytes_are(number);
}

/// The command that creates an account names who pays, the account, its seed and its
/// size, the size in two bytes at the end; the one that deletes an account names who is
/// paid and the account.
pub proof fn account_commands_name_their_accounts(fee_payer: Pubkey, account: AccountView)
    requires
        account.address.len() == 32,
    ensures
        ({
            let create = create_account_bytes(fee_payer, account);
            let n = account.seed.len() as int;
            &&& create.len() == 67 + n
            &&& create[0] == 0
            &&& create.subrange(1, 33) == fee_payer.bytes@
            &&& create.subrange(33, 65) == account.address
            &&& create.subrange(65, 65 + n) == account.seed
            &&& create[65 + n] + 256 * create[66 + n] == account.size
        }),
        ({
            let delete = delete_account_bytes(fee_payer, account);
            &&& delete.len() == 65
            &&& delete[0] == 1
            &&& delete.subrange(1, 33) == fee_payer.bytes@
            &&& delete.subrange(33, 65) == account.address
        }),
{
    let create = create_account_bytes(fee_payer, account);
    let n = account.seed.len() as int;
    reveal_with_fuel(le_bytes, 3);
    le_bytes_round_trip(account.size as nat, 2);
    assert(create.subrange(1, 33) =~= fee_payer.bytes@);
    assert(create.subrange(33, 65) =~= account.address);
    assert(create.subrange(65, 65 + n) =~= account.seed);
    let size = le_bytes(account.size as nat, 2);
    assert(create[65 + n] == size[0]);
    assert(create[66 + n] == size[1]);
    assert(size[0] == account.size % 256);
    assert(size[1] == account.size / 256);
    let delete = delete_account_bytes(fee_payer, account);
    assert(delete.subrange(1, 33) =~= fee_payer.bytes@);
    assert(delete.subrange(33, 65) =~= account.address);
}

/// Creating or deleting an account has the one who pays sign and be written, the account
/// be written, and the system program be there; nothing else comes to be used.
pub proof fn owned_account_is_used(
    accounts: Seq<CommandAccount>,
    fee_payer: Pubkey,
    address: Pubkey,
    other: Pubkey,
)
    ensures
        ({
            let after = with_owned_account(accounts, fee_payer, address);
            &&& has_account(after, fee_payer) && permission(after, fee_payer) == (true, true)
            &&& has_account(after, address) && permission(after, address).0
            &&& has_account(after, system_program_id())
            &&& other != fee_payer && other != address ==> permission(after, other) == permission(
                accounts,
                other,
            )
            &&& other != fee_payer ==> permission(after, other).1 == permission(accounts, other).1
            &&& has_account(after, other) == (has_account(accounts, other) || other == fee_payer
                || other == address || other == system_program_id())
        }),
        system_program_id().bytes@ == Seq::new(32, |i: int| 0u8),
{
    let first = with_account(accounts, fee_payer, true, true);
    let second = with_account(first, address, true, false);
    let system = system_program_id();
    lemma_owned_use(accounts, first, second, fee_payer, address, fee_payer);
    lemma_owned_use(accounts, first, second, fee_payer, address, address);
    lemma_owned_use(accounts, first, second, fee_payer, address, system);
    lemma_owned_use(accounts, first, second, fee_payer, address, other);
    assert(system.bytes@ =~= Seq::new(32, |i: int| 0u8));
}

/// What the three uses make of one address.
proof fn lemma_owned_use(
    accounts: Seq<CommandAccount>,
    first: Seq<CommandAccount>,
    second: Seq<CommandAccount>,
    fee_payer: Pubkey,
    address: Pubkey,
    other: Pubkey,
)
    requires
        first == with_account(accounts, fee_payer, true, true),
        second == with_account(first, address, true, false),
    ensures
        ({
            let after = with_account(second, system_program_id(), false, false);
            &&& has_account(after, other) == (has_account(accounts, other) || other == fee_payer
                || other == address || other == system_program_id())
            &&& permission(after, other).0 == (permission(accounts, other).0 || other == fee_payer
                || other == address)
            &&& permission(after, other).1 == (permission(accounts, other).1 || other == fee_payer)
        }),
{
    use_is_recorded(accounts, fee_payer, true, true, other);
    use_is_recorded(first, address, true, false, other);
    use_is_recorded(second, system_program_id(), false, false, other);
}

} // verus!
