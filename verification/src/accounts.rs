//! The accounts that transactions contend for.

use std::sync::Arc;
use vstd::prelude::*;

use crate::bytes::{le_bytes, write_byte, write_le};
use crate::draws::{pick, pick_index, Draws};
use crate::pubkey::{
    is_address, is_text_of, lemma_pubkey_with, pubkey_to_string, text_form_is_faithful, Pubkey,
};

verus! {

/// The size that every contention account has.
pub const CONTENTION_ACCOUNT_SIZE: u16 = 100;

/// An account of the test program.
#[derive(Clone, Debug, PartialEq, Eq)]
pub struct Account {
    pub address: Pubkey,
    /// The seeds that the address is derived from, the bump seed last.
    pub seed: Vec<u8>,
    pub size: u16,
}

/// What an account is.
#[verifier::ext_equal]
pub ghost struct AccountView {
    pub address: Seq<u8>,
    pub seed: Seq<u8>,
    pub size: u16,
}

impl View for Account {
    type V = AccountView;

    open spec fn view(&self) -> AccountView {
        AccountView { address: self.address.bytes@, seed: self.seed@, size: self.size }
    }
}

/// An account under the text form of its address.
struct AccountEntry {
    key: String,
    account: Arc<Account>,
}

/// The accounts that are known to exist, each of them once.
pub struct Accounts {
    entries: Vec<AccountEntry>,
}

/// Whether an account at `address` is among `accounts`.
pub open spec fn has_address(accounts: Seq<AccountView>, address: Seq<u8>) -> bool {
    exists|i: int| 0 <= i < accounts.len() && (#[trigger] accounts[i]).address == address
}

/// No two accounts have the same address.
pub open spec fn distinct_addresses(accounts: Seq<AccountView>) -> bool {
    forall|i: int, j: int|
        0 <= i < j < accounts.len() ==> (#[trigger] accounts[i]).address != (
        #[trigger] accounts[j]).address
}

/// Every account has an address.
pub open spec fn proper_addresses(accounts: Seq<AccountView>) -> bool {
    forall|i: int| 0 <= i < accounts.len() ==> is_address((#[trigger] accounts[i]).address)
}

/// The accounts once `account` is among them. It takes the place of one that has
/// its address.
pub open spec fn with_entry(accounts: Seq<AccountView>, account: AccountView) -> Seq<AccountView> {
    if has_address(accounts, account.address) {
        Seq::new(
            accounts.len(),
            |i: int|
                if accounts[i].address == account.address {
                    account
                } else {
                    accounts[i]
                },
        )
    } else {
        accounts.push(account)
    }
}

/// The accounts by their addresses.
pub open spec fn by_address(accounts: Seq<AccountView>) -> Map<Seq<u8>, AccountView> {
    Map::new(
        |address: Seq<u8>| has_address(accounts, address),
        |address: Seq<u8>|
            accounts[choose|i: int|
                0 <= i < accounts.len() && (#[trigger] accounts[i]).address == address],
    )
}

impl View for Accounts {
    type V = Seq<AccountView>;

    closed spec fn view(&self) -> Seq<AccountView> {
        Seq::new(self.entries@.len(), |i: int| self.entries@[i].account@)
    }
}

impl Accounts {
    /// Every account is under its own text form, and no two have the same address.
    pub closed spec fn wf(self) -> bool {
        &&& distinct_addresses(self@)
        &&& forall|i: int|
            0 <= i < self.entries@.len() ==> is_text_of(
                (#[trigger] self.entries@[i]).key@,
                self.entries@[i].account.address,
            )
    }

    /// No two accounts have the same address.
    pub proof fn no_account_is_listed_twice(self)
        requires
            self.wf(),
        ensures
            distinct_addresses(self@),
    {
    }

    /// Every account has an address.
    pub proof fn every_account_has_an_address(self)
        ensures
            proper_addresses(self@),
    {
        assert forall|i: int| 0 <= i < self@.len() implies is_address(
            (#[trigger] self@[i]).address,
        ) by {
            lemma_pubkey_with(self.entries@[i].account.address);
        }
    }

    /// No accounts.
    pub fn new() -> (accounts: Accounts)
        ensures
            accounts.wf(),
            accounts@ == Seq::<AccountView>::empty(),
    {
        let accounts = Accounts { entries: Vec::new() };
        assert(accounts@ =~= Seq::<AccountView>::empty());
        accounts
    }

    /// How many accounts there are.
    pub fn count(&self) -> (n: usize)
        ensures
            n == self@.len(),
    {
        self.entries.len()
    }

    /// Adds an account.
    pub fn add_new_account(&mut self, account: Account)
        requires
            old(self).wf(),
        ensures
            final(self).wf(),
            final(self)@ == with_entry(old(self)@, account@),
    {
        self.add_existing_account(Arc::new(account));
    }

    /// Adds an account that others hold too.
    pub fn add_existing_account(&mut self, rc: Arc<Account>)
        requires
            old(self).wf(),
        ensures
            final(self).wf(),
            final(self)@ == with_entry(old(self)@, rc@),
    {
        let key = pubkey_to_string(&rc.address);
        let mut i: usize = 0;
        while i < self.entries.len()
            invariant
                i <= self.entries@.len(),
                self.wf(),
                *self == *old(self),
                is_text_of(key@, rc.address),
                forall|k: int| 0 <= k < i ==> (#[trigger] self@[k]).address != rc@.address,
            decreases self.entries@.len() - i,
        {
            let found: bool = self.entries[i].key == key;
            proof {
                let entry = self.entries@[i as int];
                text_form_is_faithful(entry.account.address, rc.address, entry.key@, key@);
                assert(self@[i as int] == entry.account@);
                if entry.account.address.bytes@ == rc.address.bytes@ {
                    assert(entry.account.address.bytes =~= rc.address.bytes);
                }
            }
            if found {
                self.entries.remove(i);
                self.entries.insert(i, AccountEntry { key, account: rc });
                assert(has_address(old(self)@, rc@.address));
                assert(self@ =~= with_entry(old(self)@, rc@));
                return ;
            }
            i = i + 1;
        }
        self.entries.push(AccountEntry { key, account: rc });
        assert(self@ =~= with_entry(old(self)@, rc@));
    }

    /// One of the accounts, at random.
    pub fn get_random_account(&self, rng: &mut Draws) -> (account: Option<Arc<Account>>)
        ensures
            final(rng).follows(*old(rng)),
            random_account(self@, final(rng).since(*old(rng)), account),
    {
        match self.random_index(rng) {
            Some(i) => Some(self.entries[i].account.clone()),
            None => None,
        }
    }

    /// Takes out one of the accounts, at random.
    pub fn take_random_account(&mut self, rng: &mut Draws) -> (account: Option<Arc<Account>>)
        requires
            old(self).wf(),
        ensures
            final(self).wf(),
            final(rng).follows(*old(rng)),
            random_account(old(self)@, final(rng).since(*old(rng)), account),
            old(self)@.len() == 0 ==> final(self)@ == old(self)@,
            old(self)@.len() > 0 ==> final(self)@ == old(self)@.remove(
                pick(final(rng).since(*old(rng))[0], old(self)@.len() as int),
            ),
    {
        match self.random_index(rng) {
            Some(i) => {
                let entry: AccountEntry = self.entries.remove(i);
                assert(self@ =~= old(self)@.remove(i as int));
                Some(entry.account)
            },
            None => None,
        }
    }

    /// The index of one of the accounts, at random.
    fn random_index(&self, rng: &mut Draws) -> (index: Option<usize>)
        ensures
            final(rng).follows(*old(rng)),
            self@.len() == 0 ==> index is None && final(rng).since(*old(rng)).len() == 0,
            self@.len() > 0 ==> {
                &&& index is Some
                &&& final(rng).since(*old(rng)).len() == 1
                &&& index->0 == pick(final(rng).since(*old(rng))[0], self@.len() as int)
                &&& index->0 < self@.len()
            },
    {
        let len: usize = self.entries.len();
        if len == 0 {
            proof {
                crate::draws::lemma_follows_reflexive(*rng);
            }
            None
        } else {
            Some(pick_index(rng, len))
        }
    }
}

/// `account` is the one of `accounts` that the draws `d` choose: none, and without a
/// draw, if there are none, else the one that a single draw picks.
pub open spec fn random_account(
    accounts: Seq<AccountView>,
    d: Seq<u32>,
    account: Option<Arc<Account>>,
) -> bool {
    if accounts.len() == 0 {
        account is None && d.len() == 0
    } else {
        &&& d.len() == 1
        &&& account is Some
        &&& account->0@ == accounts[pick(d[0], accounts.len() as int)]
    }
}

/// In a list without repeated addresses, an address leads to its own account.
proof fn lemma_by_address(accounts: Seq<AccountView>, i: int)
    requires
        distinct_addresses(accounts),
        0 <= i < accounts.len(),
    ensures
        by_address(accounts).contains_key(accounts[i].address),
        by_address(accounts)[accounts[i].address] == accounts[i],
{
    let address = accounts[i].address;
    let j = choose|j: int| 0 <= j < accounts.len() && (#[trigger] accounts[j]).address == address;
    assert(0 <= j < accounts.len() && accounts[j].address == address);
    if j < i {
        assert(accounts[j].address != accounts[i].address);
    } else if i < j {
        assert(accounts[i].address != accounts[j].address);
    }
}

/// Adding an account leads its address to it and changes nothing else; no address
/// comes to be there twice.
pub proof fn account_is_added(accounts: Seq<AccountView>, account: AccountView)
    requires
        distinct_addresses(accounts),
    ensures
        distinct_addresses(with_entry(accounts, account)),
        by_address(with_entry(accounts, account)) == by_address(accounts).insert(
            account.address,
            account,
        ),
        with_entry(accounts, account).len() == accounts.len() + (if has_address(
            accounts,
            account.address,
        ) {
            0int
        } else {
            1int
        }),
{
    let after = with_entry(accounts, account);
    if has_address(accounts, account.address) {
        assert forall|i: int| 0 <= i < accounts.len() implies (#[trigger] after[i]).address
            == accounts[i].address by {}
        let at = choose|i: int|
            0 <= i < accounts.len() && (#[trigger] accounts[i]).address == account.address;
        assert(after[at] == account);
    } else {
        assert forall|i: int| 0 <= i < accounts.len() implies #[trigger] after[i] == accounts[i] by {}
        assert(after[accounts.len() as int] == account);
    }
    assert(distinct_addresses(after));
    let expected = by_address(accounts).insert(account.address, account);
    assert forall|address: Seq<u8>|
        #[trigger] by_address(after).contains_key(address) == expected.contains_key(address) by {
        if has_address(accounts, address) {
            let k = choose|i: int|
                0 <= i < accounts.len() && (#[trigger] accounts[i]).address == address;
            assert(after[k].address == address);
        }
        if has_address(after, address) {
            let k = choose|i: int|
                0 <= i < after.len() && (#[trigger] after[i]).address == address;
            if k < accounts.len() {
                assert(accounts[k].address == address);
            }
        }
        if address == account.address && has_address(accounts, address) {
            let k = choose|i: int|
                0 <= i < accounts.len() && (#[trigger] accounts[i]).address == address;
            assert(after[k].address == address);
        }
    }
    assert forall|address: Seq<u8>|
        #[trigger] by_address(after).contains_key(address) implies by_address(after)[address]
        == expected[address] by {
        let k = choose|i: int| 0 <= i < after.len() && (#[trigger] after[i]).address == address;
        assert(0 <= k < after.len() && after[k].address == address);
        lemma_by_address(after, k);
        if address != account.address {
            assert(after[k] == accounts[k]);
            lemma_by_address(accounts, k);
        }
    }
    assert(by_address(after) =~= expected);
}

/// Taking out an account leaves all the others, and its address leads nowhere.
pub proof fn account_is_taken_out(accounts: Seq<AccountView>, i: int)
    requires
        distinct_addresses(accounts),
        0 <= i < accounts.len(),
    ensures
        distinct_addresses(accounts.remove(i)),
        by_address(accounts.remove(i)) == by_address(accounts).remove(accounts[i].address),
{
    let after = accounts.remove(i);
    let gone = accounts[i].address;
    assert forall|k: int| 0 <= k < after.len() implies #[trigger] after[k] == accounts[if k < i {
        k
    } else {
        k + 1
    }] by {}
    assert(distinct_addresses(after));
    assert forall|k: int| 0 <= k < after.len() implies (#[trigger] after[k]).address != gone by {
        let j = if k < i {
            k
        } else {
            k + 1
        };
        assert(after[k] == accounts[j]);
        if j < i {
            assert(accounts[j].address != accounts[i].address);
        } else {
            assert(accounts[i].address != accounts[j].address);
        }
    }
    let expected = by_address(accounts).remove(gone);
    assert forall|address: Seq<u8>|
        #[trigger] by_address(after).contains_key(address) == expected.contains_key(address) by {
        if has_address(after, address) {
            let k = choose|k: int|
                0 <= k < after.len() && (#[trigger] after[k]).address == address;
            assert(accounts[if k < i {
                k
            } else {
                k + 1
            }].address == address);
        }
        if has_address(accounts, address) && address != gone {
            let k = choose|k: int|
                0 <= k < accounts.len() && (#[trigger] accounts[k]).address == address;
            assert(k != i);
            assert(after[if k < i {
                k
            } else {
                k - 1
            }].address == address);
        }
    }
    assert forall|address: Seq<u8>|
        #[trigger] by_address(after).contains_key(address) implies by_address(after)[address]
        == expected[address] by {
        let k = choose|k: int| 0 <= k < after.len() && (#[trigger] after[k]).address == address;
        assert(0 <= k < after.len() && after[k].address == address);
        lemma_by_address(after, k);
        lemma_by_address(
            accounts,
            if k < i {
                k
            } else {
                k + 1
            },
        );
    }
    assert(by_address(after) =~= expected);
}

/// Taking out an account and adding it again leaves the same accounts.
pub proof fn take_then_add_restores(accounts: Seq<AccountView>, i: int)
    requires
        distinct_addresses(accounts),
        0 <= i < accounts.len(),
    ensures
        by_address(with_entry(accounts.remove(i), accounts[i])) == by_address(accounts),
{
    account_is_taken_out(accounts, i);
    account_is_added(accounts.remove(i), accounts[i]);
    lemma_by_address(accounts, i);
    assert(by_address(with_entry(accounts.remove(i), accounts[i])) =~= by_address(accounts));
}

/// The address that a program owns for a seed and the bump seed that leads to it, if
/// there is one.
pub uninterp spec fn program_address(seed: Seq<u8>, program_id: Seq<u8>) -> Option<(Seq<u8>, u8)>;

/// `Pubkey::try_find_program_address` of `solana_sdk` for a single seed. What it
/// finds depends on the seed and the program alone.
#[verifier::external_body]
fn find_program_address(seed: &[u8], program_id: &Pubkey) -> (found: Option<(Pubkey, u8)>)
    ensures
        match found {
            Some((address, bump)) => program_address(seed@, program_id.bytes@) == Some(
                (address.bytes@, bump),
            ),
            None => program_address(seed@, program_id.bytes@) is None,
        },
{
    let program = solana_sdk::pubkey::Pubkey::new_from_array(program_id.bytes);
    solana_sdk::pubkey::Pubkey::try_find_program_address(&[seed], &program).map(
        |found| (Pubkey { bytes: found.0.to_bytes() }, found.1),
    )
}

/// The seed of the contention account with the given index.
pub open spec fn contention_seed(index: u32) -> Seq<u8> {
    le_bytes(index as nat, 7)
}

/// The contention account with the given index, where its address and bump seed are
/// `found`.
pub open spec fn contention_account_found(index: u32, found: (Seq<u8>, u8)) -> AccountView {
    AccountView {
        address: found.0,
        seed: contention_seed(index).push(found.1),
        size: CONTENTION_ACCOUNT_SIZE,
    }
}

/// The contention account of a program with the given index.
pub open spec fn contention_account_of(program_id: Seq<u8>, index: u32) -> Option<AccountView> {
    match program_address(contention_seed(index), program_id) {
        Some(found) => Some(contention_account_found(index, found)),
        None => None,
    }
}

/// The contention account with the given index, at an address that was found for
/// it.
pub fn contention_account_at(index: u32, address: Pubkey, bump_seed: u8) -> (account: Account)
    ensures
        account@ == contention_account_found(index, (address.bytes@, bump_seed)),
{
    let mut seed: Vec<u8> = Vec::new();
    write_le(&mut seed, index as u64, 7);
    write_byte(&mut seed, bump_seed);
    let account = Account { address, seed, size: CONTENTION_ACCOUNT_SIZE };
    assert(account@ =~= contention_account_found(index, (address.bytes@, bump_seed)));
    account
}

/// The contention account of a program with the given index, unless no address can
/// be found for it.
pub fn contention_account(program_id: &Pubkey, index: u32) -> (account: Option<Account>)
    ensures
        match contention_account_of(program_id.bytes@, index) {
            Some(expected) => account is Some && account->0@ == expected,
            None => account is None,
        },
{
    let mut seed: Vec<u8> = Vec::new();
    write_le(&mut seed, index as u64, 7);
    assert(seed@ =~= contention_seed(index));
    match find_program_address(seed.as_slice(), program_id) {
        Some((address, bump)) => Some(contention_account_at(index, address, bump)),
        None => None,
    }
}

/// How many of the contention accounts with the indices below `count` come before
/// the first one that has no address.
pub open spec fn contention_reach(program_id: Seq<u8>, count: u32) -> u32
    decreases count,
{
    if count == 0 {
        0
    } else {
        let before = contention_reach(program_id, (count - 1) as u32);
        if before == count - 1 && contention_account_of(program_id, before) is Some {
            count
        } else {
            before
        }
    }
}

/// The accounts once the first `count` contention accounts of a program are among
/// them.
pub open spec fn with_contention_accounts(
    accounts: Seq<AccountView>,
    program_id: Seq<u8>,
    count: u32,
) -> Seq<AccountView>
    decreases count,
{
    if count == 0 {
        accounts
    } else {
        let index = (count - 1) as u32;
        with_entry(
            with_contention_accounts(accounts, program_id, index),
            contention_account_of(program_id, index)->0,
        )
    }
}

/// Once there is no address for an index, no later index is reached.
proof fn lemma_contention_reach(program_id: Seq<u8>, stop: u32, count: u32)
    requires
        stop < count,
        contention_reach(program_id, stop) == stop,
        contention_account_of(program_id, stop) is None,
    ensures
        contention_reach(program_id, count) == stop,
    decreases count,
{
    if stop + 1 < count {
        lemma_contention_reach(program_id, stop, (count - 1) as u32);
    }
}

/// Adds the first `count` contention accounts of a program. Stops early, and says
/// so, at an index for which no address can be found.
pub fn add_contention_accounts(accounts: &mut Accounts, program_id: &Pubkey, count: u32) -> (
complete: bool)
    requires
        old(accounts).wf(),
    ensures
        final(accounts).wf(),
        complete == (contention_reach(program_id.bytes@, count) == count),
        final(accounts)@ == with_contention_accounts(
            old(accounts)@,
            program_id.bytes@,
            contention_reach(program_id.bytes@, count),
        ),
{
    let ghost before: Seq<AccountView> = accounts@;
    let mut index: u32 = 0;
    while index < count
        invariant
            index <= count,
            accounts.wf(),
            before == old(accounts)@,
            contention_reach(program_id.bytes@, index) == index,
            accounts@ == with_contention_accounts(before, program_id.bytes@, index),
        decreases count - index,
    {
        match contention_account(program_id, index) {
            Some(account) => accounts.add_new_account(account),
            None => {
                proof {
                    lemma_contention_reach(program_id.bytes@, index, count);
                }
                return false;
            },
        }
        index = index + 1;
    }
    true
}

/// A draw counts off the account that is chosen.
pub proof fn draw_counts_off_an_account(
    accounts: Seq<AccountView>,
    draw: u32,
    account: Option<Arc<Account>>,
)
    requires
        accounts.len() > 0,
        random_account(accounts, seq![draw], account),
    ensures
        account is Some,
        account->0@ == accounts[draw as int % accounts.len() as int],
{
}

/// A contention account has the size 100, and its seed is seven bytes and the bump seed:
/// the bytes are those of its index, the least significant first, and they and the program
/// lead to its address with that bump seed.
pub proof fn contention_account_is_derived(program_id: Seq<u8>, index: u32)
    ensures
        ({
            let seed = Seq::new(
                7,
                |i: int| (index as int / vstd::arithmetic::power::pow(256, i as nat) % 256) as u8,
            );
            match contention_account_of(program_id, index) {
                Some(account) => {
                    &&& account.size == 100
                    &&& account.seed.len() == 8
                    &&& account.seed.take(7) == seed
                    &&& program_address(seed, program_id) == Some(
                        (account.address, account.seed[7]),
                    )
                },
                None => program_address(seed, program_id) is None,
            }
        }),
{
    let seed = Seq::new(
        7,
        |i: int| (index as int / vstd::arithmetic::power::pow(256, i as nat) % 256) as u8,
    );
    crate::bytes::le_bytes_round_trip(index as nat, 7);
    assert forall|i: int| 0 <= i < 7 implies #[trigger] contention_seed(index)[i] == seed[i] by {
        crate::bytes::bytes_are_digits(index as nat, 7, i);
    }
    assert(contention_seed(index) =~= seed);
    if let Some(account) = contention_account_of(program_id, index) {
        assert(account.seed.take(7) =~= seed);
    }
}

/// The contention accounts reach as far as there are addresses: every index below the
/// reach has one, and where the reach falls short of the count the index that it stops at
/// has none.
pub proof fn reach_ends_where_no_address_is(program_id: Seq<u8>, count: u32, k: u32)
    ensures
        contention_reach(program_id, count) <= count,
        k < contention_reach(program_id, count) ==> contention_account_of(program_id, k) is Some,
        contention_reach(program_id, count) < count ==> contention_account_of(
            program_id,
            contention_reach(program_id, count),
        ) is None,
    decreases count,
{
    if count > 0 {
        reach_ends_where_no_address_is(program_id, (count - 1) as u32, k);
    }
}

/// Adding contention accounts leads to exactly the accounts of the indices below the count,
/// and to what was there before: an address is there afterwards if it was, or if it is that
/// of the account of such an index.
pub proof fn pool_holds_the_first_indices(
    accounts: Seq<AccountView>,
    program_id: Seq<u8>,
    count: u32,
    address: Seq<u8>,
)
    requires
        forall|k: u32| k < count ==> #[trigger] contention_account_of(program_id, k) is Some,
    ensures
        has_address(with_contention_accounts(accounts, program_id, count), address) <==> {
            ||| has_address(accounts, address)
            ||| exists|k: u32|
                k < count && (#[trigger] contention_account_of(program_id, k))->0.address
                    == address
        },
    decreases count,
{
    if count > 0 {
        let index = (count - 1) as u32;
        pool_holds_the_first_indices(accounts, program_id, index, address);
        let before = with_contention_accounts(accounts, program_id, index);
        let added = contention_account_of(program_id, index)->0;
        lemma_entry_is_there(before, added, address);
        if exists|k: u32|
            k < count && (#[trigger] contention_account_of(program_id, k))->0.address == address {
            let k = choose|k: u32|
                k < count && (#[trigger] contention_account_of(program_id, k))->0.address
                    == address;
            if k < index {
                assert(contention_account_of(program_id, k)->0.address == address);
            }
        }
        if exists|k: u32|
            k < index && (#[trigger] contention_account_of(program_id, k))->0.address == address {
            let k = choose|k: u32|
                k < index && (#[trigger] contention_account_of(program_id, k))->0.address
                    == address;
            assert(k < count);
        }
        if address == added.address {
            assert(contention_account_of(program_id, index)->0.address == address);
        }
    }
}

/// An address is there after adding an account if it was or is that of the account.
proof fn lemma_entry_is_there(accounts: Seq<AccountView>, added: AccountView, address: Seq<u8>)
    ensures
        has_address(with_entry(accounts, added), address) <==> has_address(accounts, address)
            || address == added.address,
{
    let after = with_entry(accounts, added);
    if has_address(accounts, added.address) {
        let at = choose|i: int|
            0 <= i < accounts.len() && (#[trigger] accounts[i]).address == added.address;
        assert(after[at] == added);
    } else {
        assert(after[accounts.len() as int] == added);
    }
    if has_address(accounts, address) {
        let i = choose|i: int|
            0 <= i < accounts.len() && (#[trigger] accounts[i]).address == address;
        assert(after[i].address == address);
    }
    if has_address(after, address) {
        let i = choose|i: int| 0 <= i < after.len() && (#[trigger] after[i]).address == address;
        if i < accounts.len() {
            assert(accounts[i].address == address || after[i] == added);
        }
    }
}

/// Whatever is in a pool that was empty before is the contention account of an index below
/// the count.
pub proof fn pool_is_made_of_contention_accounts(program_id: Seq<u8>, count: u32, i: int)
    requires
        forall|k: u32| k < count ==> #[trigger] contention_account_of(program_id, k) is Some,
        0 <= i < with_contention_accounts(Seq::empty(), program_id, count).len(),
    ensures
        exists|k: u32|
            k < count && #[trigger] contention_account_of(program_id, k) == Some(
                with_contention_accounts(Seq::empty(), program_id, count)[i],
            ),
    decreases count,
{
    if count > 0 {
        let index = (count - 1) as u32;
        let before = with_contention_accounts(Seq::empty(), program_id, index);
        let after = with_contention_accounts(Seq::empty(), program_id, count);
        let added = contention_account_of(program_id, index)->0;
        if after[i] == added {
            assert(contention_account_of(program_id, index) == Some(after[i]));
        } else {
            assert(i < before.len() && after[i] == before[i]);
            pool_is_made_of_contention_accounts(program_id, index, i);
            let k = choose|k: u32|
                k < index && #[trigger] contention_account_of(program_id, k) == Some(before[i]);
            assert(k < count && contention_account_of(program_id, k) == Some(after[i]));
        }
    }
}

} // verus!
