//! The accounts that a command or an instruction touches, and how.

use vstd::prelude::*;

use crate::pubkey::{is_text_of, pubkey_to_string, text_form_is_faithful, Pubkey};

verus! {

/// An account of an instruction, and what the instruction may do with it.
#[derive(Clone, Copy, Debug, PartialEq, Eq)]
pub struct AccountMeta {
    pub pubkey: Pubkey,
    pub is_signer: bool,
    pub is_writable: bool,
}

impl AccountMeta {
    /// An account that the instruction writes.
    pub fn new(pubkey: Pubkey, is_signer: bool) -> (meta: AccountMeta)
        ensures
            meta == (AccountMeta { pubkey, is_signer, is_writable: true }),
    {
        AccountMeta { pubkey, is_signer, is_writable: true }
    }

    /// An account that the instruction only reads.
    pub fn new_readonly(pubkey: Pubkey, is_signer: bool) -> (meta: AccountMeta)
        ensures
            meta == (AccountMeta { pubkey, is_signer, is_writable: false }),
    {
        AccountMeta { pubkey, is_signer, is_writable: false }
    }
}

/// An account that a command touches.
#[derive(Clone, Copy, Debug, PartialEq, Eq)]
pub struct CommandAccount {
    pub address: Pubkey,
    pub is_write: bool,
    pub is_signer: bool,
}

/// An account under the text form of its address.
struct KeyedAccount {
    key: String,
    account: CommandAccount,
}

/// The accounts that a command touches, each of them once, in the order in which
/// they were first added.
pub struct CommandAccounts {
    accounts: Vec<KeyedAccount>,
}

/// Whether the account at `address` is among `accounts`.
pub open spec fn has_account(accounts: Seq<CommandAccount>, address: Pubkey) -> bool {
    exists|i: int| 0 <= i < accounts.len() && (#[trigger] accounts[i]).address == address
}

/// No account is listed twice.
pub open spec fn distinct_accounts(accounts: Seq<CommandAccount>) -> bool {
    forall|i: int, j: int|
        0 <= i < j < accounts.len() ==> (#[trigger] accounts[i]).address != (
        #[trigger] accounts[j]).address
}

/// The accounts after one more use of the account at `address`: an account that is
/// already there keeps its place and gains what it did not have, a new one comes
/// last.
pub open spec fn with_account(
    accounts: Seq<CommandAccount>,
    address: Pubkey,
    is_write: bool,
    is_signer: bool,
) -> Seq<CommandAccount> {
    if has_account(accounts, address) {
        Seq::new(
            accounts.len(),
            |i: int|
                if accounts[i].address == address {
                    CommandAccount {
                        address,
                        is_write: accounts[i].is_write || is_write,
                        is_signer: accounts[i].is_signer || is_signer,
                    }
                } else {
                    accounts[i]
                },
        )
    } else {
        accounts.push(CommandAccount { address, is_write, is_signer })
    }
}

/// The accounts after the uses in `more`, one after the other.
pub open spec fn with_accounts(
    accounts: Seq<CommandAccount>,
    more: Seq<CommandAccount>,
) -> Seq<CommandAccount>
    decreases more.len(),
{
    if more.len() == 0 {
        accounts
    } else {
        let last = more.last();
        with_account(
            with_accounts(accounts, more.drop_last()),
            last.address,
            last.is_write,
            last.is_signer,
        )
    }
}

/// The entry of an instruction for an account that it touches.
pub open spec fn meta_of(account: CommandAccount) -> AccountMeta {
    AccountMeta {
        pubkey: account.address,
        is_signer: account.is_signer,
        is_writable: account.is_write,
    }
}

/// The entries of an instruction for the accounts that it touches.
pub open spec fn metas_of(accounts: Seq<CommandAccount>) -> Seq<AccountMeta> {
    Seq::new(accounts.len(), |i: int| meta_of(accounts[i]))
}

impl View for CommandAccounts {
    type V = Seq<CommandAccount>;

    closed spec fn view(&self) -> Seq<CommandAccount> {
        Seq::new(self.accounts@.len(), |i: int| self.accounts@[i].account)
    }
}

impl CommandAccounts {
    /// Every account is under its own text form, and none is listed twice.
    pub closed spec fn wf(self) -> bool {
        &&& distinct_accounts(self@)
        &&& forall|i: int|
            0 <= i < self.accounts@.len() ==> is_text_of(
                (#[trigger] self.accounts@[i]).key@,
                self.accounts@[i].account.address,
            )
    }

    /// No account is listed twice.
    pub proof fn no_account_is_listed_twice(self)
        requires
            self.wf(),
        ensures
            distinct_accounts(self@),
    {
    }

    /// No accounts.
    pub fn new() -> (accounts: CommandAccounts)
        ensures
            accounts.wf(),
            accounts@ == Seq::<CommandAccount>::empty(),
    {
        let accounts = CommandAccounts { accounts: Vec::new() };
        assert(accounts@ =~= Seq::<CommandAccount>::empty());
        accounts
    }

    /// How many accounts there are.
    pub fn count(&self) -> (n: usize)
        ensures
            n == self@.len(),
    {
        self.accounts.len()
    }

    /// Where the account under the text form of `address` is.
    fn position(&self, key: &String, Ghost(address): Ghost<Pubkey>) -> (at: Option<usize>)
        requires
            self.wf(),
            is_text_of(key@, address),
        ensures
            match at {
                Some(i) => i < self@.len() && self@[i as int].address == address,
                None => !has_account(self@, address),
            },
    {
        let mut i: usize = 0;
        while i < self.accounts.len()
            invariant
                i <= self.accounts@.len(),
                self.wf(),
                is_text_of(key@, address),
                forall|k: int| 0 <= k < i ==> (#[trigger] self@[k]).address != address,
            decreases self.accounts@.len() - i,
        {
            let found: bool = self.accounts[i].key == *key;
            proof {
                let entry = self.accounts@[i as int];
                text_form_is_faithful(entry.account.address, address, entry.key@, key@);
                assert(self@[i as int] == entry.account);
            }
            if found {
                return Some(i);
            }
            i = i + 1;
        }
        None
    }

    /// Adds a use of the account at `pubkey`.
    pub fn add(&mut self, pubkey: &Pubkey, is_write: bool, is_signer: bool)
        requires
            old(self).wf(),
        ensures
            final(self).wf(),
            final(self)@ == with_account(old(self)@, *pubkey, is_write, is_signer),
    {
        let key = pubkey_to_string(pubkey);
        match self.position(&key, Ghost(*pubkey)) {
            Some(i) => {
                let mut existing: KeyedAccount = self.accounts.remove(i);
                if is_write {
                    existing.account.is_write = true;
                }
                if is_signer {
                    existing.account.is_signer = true;
                }
                self.accounts.insert(i, existing);
                assert(has_account(old(self)@, *pubkey));
                assert(self@ =~= with_account(old(self)@, *pubkey, is_write, is_signer));
            },
            None => {
                self.accounts.push(
                    KeyedAccount {
                        key,
                        account: CommandAccount { address: *pubkey, is_write, is_signer },
                    },
                );
                assert(self@ =~= with_account(old(self)@, *pubkey, is_write, is_signer));
            },
        }
    }

    /// Adds every use that `other` lists.
    pub fn add_command_accounts(&mut self, other: &CommandAccounts)
        requires
            old(self).wf(),
        ensures
            final(self).wf(),
            final(self)@ == with_accounts(old(self)@, other@),
    {
        let ghost before: Seq<CommandAccount> = self@;
        let mut i: usize = 0;
        assert(other@.take(0) =~= Seq::empty());
        while i < other.accounts.len()
            invariant
                i <= other.accounts@.len(),
                self.wf(),
                self@ == with_accounts(before, other@.take(i as int)),
            decreases other.accounts@.len() - i,
        {
            let account: CommandAccount = other.accounts[i].account;
            self.add(&account.address, account.is_write, account.is_signer);
            proof {
                assert(other@.take(i as int + 1).drop_last() =~= other@.take(i as int));
                assert(other@.take(i as int + 1).last() == account);
            }
            i = i + 1;
        }
        assert(other@.take(i as int) =~= other@);
    }

    /// The accounts as an instruction lists them.
    pub fn get_account_metas(&self) -> (metas: Vec<AccountMeta>)
        ensures
            metas@ == metas_of(self@),
    {
        let mut metas: Vec<AccountMeta> = Vec::new();
        let mut i: usize = 0;
        while i < self.accounts.len()
            invariant
                i <= self.accounts@.len(),
                metas@ == metas_of(self@).take(i as int),
            decreases self.accounts@.len() - i,
        {
            let a: CommandAccount = self.accounts[i].account;
            if a.is_write {
                metas.push(AccountMeta::new(a.address, a.is_signer));
            } else {
                metas.push(AccountMeta::new_readonly(a.address, a.is_signer));
            }
            assert(metas@ =~= metas_of(self@).take(i as int + 1));
            i = i + 1;
        }
        assert(metas@ =~= metas_of(self@));
        metas
    }
}

/// What is known of the use of the account at `address`: whether it is written and
/// whether it signs.
pub open spec fn permission(accounts: Seq<CommandAccount>, address: Pubkey) -> (bool, bool) {
    (
        exists|i: int|
            0 <= i < accounts.len() && (#[trigger] accounts[i]).address == address
                && accounts[i].is_write,
        exists|i: int|
            0 <= i < accounts.len() && (#[trigger] accounts[i]).address == address
                && accounts[i].is_signer,
    )
}

/// A use of an account is recorded: the account is there afterwards, with what it
/// had before and what the use adds, and nothing else has changed. No account is
/// listed twice because of it.
pub proof fn use_is_recorded(
    accounts: Seq<CommandAccount>,
    address: Pubkey,
    is_write: bool,
    is_signer: bool,
    other: Pubkey,
)
    ensures
        ({
            let after = with_account(accounts, address, is_write, is_signer);
            &&& has_account(after, other) == (has_account(accounts, other) || other == address)
            &&& permission(after, other).0 == (permission(accounts, other).0 || (other == address
                && is_write))
            &&& permission(after, other).1 == (permission(accounts, other).1 || (other == address
                && is_signer))
            &&& distinct_accounts(accounts) ==> distinct_accounts(after)
        }),
{
    let after = with_account(accounts, address, is_write, is_signer);
    if has_account(accounts, address) {
        let at = choose|i: int|
            0 <= i < accounts.len() && (#[trigger] accounts[i]).address == address;
        assert(after[at].address == address);
        assert forall|i: int| 0 <= i < accounts.len() implies (#[trigger] after[i]).address
            == accounts[i].address by {}
        assert(has_account(accounts, other) == has_account(after, other)) by {
            if has_account(accounts, other) {
                let k = choose|i: int|
                    0 <= i < accounts.len() && (#[trigger] accounts[i]).address == other;
                assert(after[k].address == other);
            }
        }
        if permission(accounts, other).0 {
            let k = choose|i: int|
                0 <= i < accounts.len() && (#[trigger] accounts[i]).address == other
                    && accounts[i].is_write;
            assert(after[k].address == other && after[k].is_write);
        }
        if permission(accounts, other).1 {
            let k = choose|i: int|
                0 <= i < accounts.len() && (#[trigger] accounts[i]).address == other
                    && accounts[i].is_signer;
            assert(after[k].address == other && after[k].is_signer);
        }
    } else {
        let n = accounts.len() as int;
        assert(after[n].address == address);
        assert forall|i: int| 0 <= i < n implies #[trigger] after[i] == accounts[i] by {}
        if has_account(accounts, other) {
            let k = choose|i: int|
                0 <= i < accounts.len() && (#[trigger] accounts[i]).address == other;
            assert(after[k].address == other);
        }
        if permission(accounts, other).0 {
            let k = choose|i: int|
                0 <= i < accounts.len() && (#[trigger] accounts[i]).address == other
                    && accounts[i].is_write;
            assert(after[k].address == other && after[k].is_write);
        }
        if permission(accounts, other).1 {
            let k = choose|i: int|
                0 <= i < accounts.len() && (#[trigger] accounts[i]).address == other
                    && accounts[i].is_signer;
            assert(after[k].address == other && after[k].is_signer);
        }
    }
}

/// Adding the accounts of another list records all their uses: an account may do
/// afterwards what it might do by either list, and no account is listed twice.
pub proof fn uses_accumulate(
    accounts: Seq<CommandAccount>,
    more: Seq<CommandAccount>,
    address: Pubkey,
)
    ensures
        ({
            let after = with_accounts(accounts, more);
            &&& has_account(after, address) == (has_account(accounts, address) || has_account(
                more,
                address,
            ))
            &&& permission(after, address).0 == (permission(accounts, address).0 || permission(
                more,
                address,
            ).0)
            &&& permission(after, address).1 == (permission(accounts, address).1 || permission(
                more,
                address,
            ).1)
            &&& distinct_accounts(accounts) ==> distinct_accounts(after)
        }),
    decreases more.len(),
{
    if more.len() > 0 {
        let shorter = more.drop_last();
        let last = more.last();
        uses_accumulate(accounts, shorter, address);
        use_is_recorded(
            with_accounts(accounts, shorter),
            last.address,
            last.is_write,
            last.is_signer,
            address,
        );
        assert(more =~= shorter.push(last));
        assert forall|i: int| 0 <= i < shorter.len() implies #[trigger] more[i] == shorter[i] by {}
        let n = shorter.len() as int;
        assert(more[n] == last);
        if has_account(shorter, address) {
            let k = choose|i: int|
                0 <= i < shorter.len() && (#[trigger] shorter[i]).address == address;
            assert(more[k].address == address);
        }
        if permission(shorter, address).0 {
            let k = choose|i: int|
                0 <= i < shorter.len() && (#[trigger] shorter[i]).address == address
                    && shorter[i].is_write;
            assert(more[k].address == address);
        }
        if permission(shorter, address).1 {
            let k = choose|i: int|
                0 <= i < shorter.len() && (#[trigger] shorter[i]).address == address
                    && shorter[i].is_signer;
            assert(more[k].address == address);
        }
    }
}

/// Recording the same use twice is recording it once.
pub proof fn use_is_idempotent(
    accounts: Seq<CommandAccount>,
    address: Pubkey,
    is_write: bool,
    is_signer: bool,
)
    ensures
        with_account(
            with_account(accounts, address, is_write, is_signer),
            address,
            is_write,
            is_signer,
        ) == with_account(accounts, address, is_write, is_signer),
{
    let once = with_account(accounts, address, is_write, is_signer);
    use_is_recorded(accounts, address, is_write, is_signer, address);
    assert(has_account(once, address));
    assert(with_account(once, address, is_write, is_signer) =~= once);
}

/// Uses are recorded in the order in which accounts are first used: what is listed keeps
/// its place, and a new account comes last.
pub proof fn uses_keep_their_places(
    accounts: Seq<CommandAccount>,
    address: Pubkey,
    is_write: bool,
    is_signer: bool,
    i: int,
)
    requires
        0 <= i < accounts.len(),
    ensures
        ({
            let after = with_account(accounts, address, is_write, is_signer);
            &&& after[i].address == accounts[i].address
            &&& accounts[i].address != address ==> after[i] == accounts[i]
            &&& !has_account(accounts, address) ==> after.len() == accounts.len() + 1
                && after.last() == (CommandAccount { address, is_write, is_signer })
            &&& has_account(accounts, address) ==> after.len() == accounts.len()
        }),
{
}

/// An instruction lists each account with what may be done with it: the account may be
/// written if it is, and has to sign if it does.
pub proof fn entries_say_what_may_be_done(accounts: Seq<CommandAccount>, i: int)
    requires
        0 <= i < accounts.len(),
    ensures
        metas_of(accounts).len() == accounts.len(),
        metas_of(accounts)[i].pubkey == accounts[i].address,
        metas_of(accounts)[i].is_writable <==> accounts[i].is_write,
        metas_of(accounts)[i].is_signer <==> accounts[i].is_signer,
{
}

} // verus!
