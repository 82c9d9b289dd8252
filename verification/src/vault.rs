//! The key vault: an append-only, randomly addressable log of encrypted
//! entries per account, admission gated on an attached payment, and a
//! single-owner administration surface.
use vstd::prelude::*;

use crate::AccountId;
use crate::Balance;

verus! {

/// Version number of this contract revision, reported by `get_versions`.
pub const VERSION: u8 = 1;

/// Why a call was refused. Every error leaves the state exactly as it was.
#[derive(Debug, Clone, Copy, PartialEq, Eq)]
pub enum Error {
    /// An operation was asked of an account that never registered.
    AccountNotFound,
    /// A caller tried to register an account that already exists.
    AccountAlreadyExists,
    /// A non-owner attempted a restricted operation.
    NotOwner,
    /// A caller tried to create an account with insufficient payment.
    InsufficientPayment,
    /// An entry was added or asked for out of sequence.
    IndexMismatch,
    /// A reset was asked of an account whose log is already empty.
    AlreadyEmpty,
    /// The balance transfer of a withdrawal was refused.
    TransferFailed,
}

/// An encrypted data entry: opaque ciphertext and the initialization
/// vector it was produced with. The vault never looks inside either.
#[derive(Debug, PartialEq, Eq)]
pub struct EncryptedEntry {
    /// The encryption process's initialization vector.
    pub iv: Vec<u8>,
    /// The encrypted payload.
    pub ciphertext: Vec<u8>,
}

/// The mathematical value of an [`EncryptedEntry`]: both byte strings.
pub struct EntryView {
    pub iv: Seq<u8>,
    pub ciphertext: Seq<u8>,
}

impl View for EncryptedEntry {
    type V = EntryView;

    open spec fn view(&self) -> EntryView {
        EntryView { iv: self.iv@, ciphertext: self.ciphertext@ }
    }
}

impl Clone for EncryptedEntry {
    fn clone(&self) -> (r: Self)
        ensures
            r@ == self@,
    {
        EncryptedEntry { iv: self.iv.clone(), ciphertext: self.ciphertext.clone() }
    }
}

/// Notification that a user registered an account; the surrounding
/// runtime emits it after a successful `create_account`.
#[derive(Debug, Clone, Copy, PartialEq, Eq)]
pub struct Registered {
    pub user: AccountId,
}

/// Notification that entries were appended; the surrounding runtime
/// emits it after a successful `add_entry` or `add_entries`.
#[derive(Debug, Clone, Copy, PartialEq, Eq)]
pub struct AddedEntry {
    pub user: AccountId,
    pub num_entries: u32,
}

/// The mathematical state of one registered account: the hash its user
/// registered with, and the log of entries, index `i` of the log holding
/// the entry written at sequence number `i`.
pub struct AccountView {
    pub key_hash: Seq<u8>,
    pub entries: Seq<EntryView>,
}

/// The administrative record: the owner, the admission fee, and the
/// version bookkeeping that points clients at the newest revision.
pub struct AdminView {
    pub owner: AccountId,
    pub fee: Balance,
    pub latest_version: u8,
    pub latest_address: Option<AccountId>,
    pub latest_ext_version: u32,
}

struct Account {
    id: AccountId,
    key_hash: Vec<u8>,
    entries: Vec<EncryptedEntry>,
}

/// The contract state. One value of this type is the whole vault.
pub struct KeyVault {
    owner: AccountId,
    fee: Balance,
    balance: Balance,
    accounts: Vec<Account>,
    latest_version: u8,
    latest_address: Option<AccountId>,
    latest_ext_version: u32,
}

/// Composite keys never collide: equal keys can only come from the
/// same identity and the same index, so a flat layout addressed by
/// [`KeyVault::construct_key`] keeps every account's entries exactly at
/// its own indices — no orphaned or aliased slots.
pub proof fn lemma_construct_key_injective(a1: AccountId, i1: u32, a2: AccountId, i2: u32)
    requires
        vstd::bytes::spec_u64_to_le_bytes(a1) + vstd::bytes::spec_u32_to_le_bytes(i1)
            == vstd::bytes::spec_u64_to_le_bytes(a2) + vstd::bytes::spec_u32_to_le_bytes(i2),
    ensures
        a1 == a2,
        i1 == i2,
{
    vstd::bytes::lemma_auto_spec_u64_to_from_le_bytes();
    vstd::bytes::lemma_auto_spec_u32_to_from_le_bytes();
    let k = vstd::bytes::spec_u64_to_le_bytes(a1) + vstd::bytes::spec_u32_to_le_bytes(i1);
    assert(vstd::bytes::spec_u64_to_le_bytes(a1) =~= k.take(8));
    assert(vstd::bytes::spec_u64_to_le_bytes(a2) =~= k.take(8));
    assert(vstd::bytes::spec_u32_to_le_bytes(i1) =~= k.skip(8));
    assert(vstd::bytes::spec_u32_to_le_bytes(i2) =~= k.skip(8));
}

/// Index of the first account with the given id, or -1 if none has it.
spec fn find_in(s: Seq<Account>, id: AccountId) -> int
    decreases s.len(),
{
    if s.len() == 0 {
        -1
    } else if s[0].id == id {
        0
    } else {
        let r = find_in(s.subrange(1, s.len() as int), id);
        if r < 0 {
            -1
        } else {
            1 + r
        }
    }
}

proof fn lemma_find_in_props(s: Seq<Account>, id: AccountId)
    ensures
        -1 <= find_in(s, id) < s.len(),
        find_in(s, id) >= 0 ==> s[find_in(s, id)].id == id,
        find_in(s, id) >= 0 ==> forall|k: int| 0 <= k < find_in(s, id) ==> s[k].id != id,
        find_in(s, id) == -1 ==> forall|k: int| 0 <= k < s.len() ==> s[k].id != id,
    decreases s.len(),
{
    if s.len() != 0 && s[0].id != id {
        let t = s.subrange(1, s.len() as int);
        lemma_find_in_props(t, id);
        assert(forall|k: int| 1 <= k < s.len() ==> s[k] == t[k - 1]);
    }
}

proof fn lemma_find_in_first(s: Seq<Account>, id: AccountId, j: int)
    requires
        0 <= j < s.len(),
        s[j].id == id,
        forall|k: int| 0 <= k < j ==> s[k].id != id,
    ensures
        find_in(s, id) == j,
    decreases s.len(),
{
    if j > 0 {
        let t = s.subrange(1, s.len() as int);
        assert(forall|k: int| 0 <= k < t.len() ==> t[k] == s[k + 1]);
        lemma_find_in_first(t, id, j - 1);
    }
}

proof fn lemma_find_in_update(s: Seq<Account>, j: int, a: Account)
    requires
        0 <= j < s.len(),
        a.id == s[j].id,
    ensures
        forall|id2: AccountId| find_in(s.update(j, a), id2) == find_in(s, id2),
    decreases s.len(),
{
    let s2 = s.update(j, a);
    let t = s.subrange(1, s.len() as int);
    let t2 = s2.subrange(1, s2.len() as int);
    if j == 0 {
        assert(t2 =~= t);
    } else {
        assert(t2 =~= t.update(j - 1, a));
        lemma_find_in_update(t, j - 1, a);
    }
    assert(s2[0].id == s[0].id);
    assert forall|id2: AccountId| find_in(s2, id2) == find_in(s, id2) by {
        if s[0].id != id2 {
            assert(find_in(t2, id2) == find_in(t, id2));
        }
    }
}

proof fn lemma_find_in_push(s: Seq<Account>, a: Account)
    ensures
        forall|id2: AccountId|
            find_in(s.push(a), id2) == if find_in(s, id2) >= 0 {
                find_in(s, id2)
            } else if id2 == a.id {
                s.len() as int
            } else {
                -1
            },
    decreases s.len(),
{
    let s2 = s.push(a);
    if s.len() == 0 {
        assert forall|id2: AccountId|
            find_in(s2, id2) == if find_in(s, id2) >= 0 {
                find_in(s, id2)
            } else if id2 == a.id {
                s.len() as int
            } else {
                -1
            } by {
            assert(s2.len() == 1);
            assert(s2[0] == a);
            assert(s2.subrange(1, 1) =~= Seq::<Account>::empty());
            assert(find_in(Seq::<Account>::empty(), id2) == -1);
            if id2 == a.id {
                assert(find_in(s2, id2) == 0);
            } else {
                assert(find_in(s2, id2) == -1);
            }
            assert(find_in(s, id2) == -1);
        }
    } else {
        let t = s.subrange(1, s.len() as int);
        assert(s2.subrange(1, s2.len() as int) =~= t.push(a));
        lemma_find_in_push(t, a);
        assert forall|id2: AccountId|
            find_in(s2, id2) == if find_in(s, id2) >= 0 {
                find_in(s, id2)
            } else if id2 == a.id {
                s.len() as int
            } else {
                -1
            } by {
            assert(s2[0] == s[0]);
            if s[0].id != id2 {
                assert(find_in(s2.subrange(1, s2.len() as int), id2) == find_in(t.push(a), id2));
            }
        }
    }
}

spec fn entries_view(s: Seq<EncryptedEntry>) -> Seq<EntryView> {
    s.map_values(|e: EncryptedEntry| e@)
}

/// The mathematical value of a batch of `(iv, ciphertext)` pairs, in order.
pub open spec fn batch_view(s: Seq<(Vec<u8>, Vec<u8>)>) -> Seq<EntryView> {
    s.map_values(|p: (Vec<u8>, Vec<u8>)| EntryView { iv: p.0@, ciphertext: p.1@ })
}

spec fn account_view(a: Account) -> AccountView {
    AccountView { key_hash: a.key_hash@, entries: entries_view(a.entries@) }
}

impl KeyVault {
    /// Well-formedness: account ids are unique, and no log outgrows the
    /// 32-bit index space. Established by `new` and kept by every call.
    pub closed spec fn wf(self) -> bool {
        &&& forall|i: int, j: int|
            0 <= i < j < self.accounts@.len() ==> self.accounts@[i].id != self.accounts@[j].id
        &&& forall|i: int|
            0 <= i < self.accounts@.len() ==> (#[trigger] self.accounts@[i]).entries@.len()
                <= u32::MAX
    }

    /// The state of the account registered under `id`, or `None` if that
    /// identity never registered.
    pub closed spec fn account_of(self, id: AccountId) -> Option<AccountView> {
        let j = find_in(self.accounts@, id);
        if j < 0 {
            None
        } else {
            Some(account_view(self.accounts@[j]))
        }
    }

    /// Whether `id` has registered. A record is never deleted, so this
    /// only ever moves from false to true.
    pub open spec fn registered(self, id: AccountId) -> bool {
        self.account_of(id) is Some
    }

    /// Number of entries in `id`'s log; meaningful only when registered.
    pub open spec fn count_of(self, id: AccountId) -> nat {
        self.account_of(id)->Some_0.entries.len()
    }

    /// The entry at index `i` of `id`'s log.
    pub open spec fn entry_at(self, id: AccountId, i: int) -> EntryView {
        self.account_of(id)->Some_0.entries[i]
    }

    /// The key hash `id` registered with.
    pub open spec fn key_hash_of(self, id: AccountId) -> Seq<u8> {
        self.account_of(id)->Some_0.key_hash
    }

    /// The administrative record.
    pub closed spec fn admin(self) -> AdminView {
        AdminView {
            owner: self.owner,
            fee: self.fee,
            latest_version: self.latest_version,
            latest_address: self.latest_address,
            latest_ext_version: self.latest_ext_version,
        }
    }

    /// The balance collected from admission payments and not yet withdrawn.
    pub closed spec fn spec_balance(self) -> Balance {
        self.balance
    }

    /// A fresh vault: the given owner, a zero fee, no balance, no
    /// accounts, and this revision recorded as the latest known one.
    pub fn new(owner: AccountId, latest_compatible_browser_extension_version: u32) -> (r: KeyVault)
        ensures
            r.wf(),
            r.admin() == (AdminView {
                owner,
                fee: 0,
                latest_version: VERSION,
                latest_address: None,
                latest_ext_version: latest_compatible_browser_extension_version,
            }),
            r.spec_balance() == 0,
            forall|a: AccountId| r.account_of(a) is None,
    {
        let r = KeyVault {
            owner,
            fee: 0,
            balance: 0,
            accounts: Vec::new(),
            latest_version: VERSION,
            latest_address: None,
            latest_ext_version: latest_compatible_browser_extension_version,
        };
        proof {
            assert(forall|a: AccountId| find_in(r.accounts@, a) == -1);
        }
        r
    }

    /// Retrieves the contract owner's account id.
    pub fn get_owner(&self) -> (r: AccountId)
        ensures
            r == self.admin().owner,
    {
        self.owner
    }

    /// Retrieves the contract owner's account id, as a result.
    pub fn get_owner_result(&self) -> (r: Result<AccountId, Error>)
        ensures
            r == Ok::<AccountId, Error>(self.admin().owner),
    {
        Ok(self.owner)
    }

    /// Gets the contract's balance.
    pub fn get_balance(&self) -> (r: Balance)
        ensures
            r == self.spec_balance(),
    {
        self.balance
    }

    /// Restricts a transaction to the contract owner.
    fn is_owner(&self, caller: AccountId) -> (r: Result<(), Error>)
        ensures
            r == if caller == self.admin().owner {
                Ok::<(), Error>(())
            } else {
                Err::<(), Error>(Error::NotOwner)
            },
    {
        if caller != self.owner {
            return Err(Error::NotOwner);
        }
        Ok(())
    }

    /// Updates the contract owner, owner-restricted: a non-owner caller
    /// gets `NotOwner` back and changes nothing.
    pub fn set_owner(&mut self, caller: AccountId, new_owner: AccountId) -> (r: Result<(), Error>)
        requires
            old(self).wf(),
        ensures
            final(self).wf(),
            caller != old(self).admin().owner ==> r == Err::<(), Error>(Error::NotOwner) && *final(self) == *old(self),
            caller == old(self).admin().owner ==> {
                &&& r == Ok::<(), Error>(())
                &&& final(self).admin() == (AdminView { owner: new_owner, ..old(self).admin() })
                &&& final(self).spec_balance() == old(self).spec_balance()
                &&& forall|a: AccountId| final(self).account_of(a) == old(self).account_of(a)
            },
    {
        self.is_owner(caller)?;
        self.owner = new_owner;
        Ok(())
    }

    /// Updates the account creation fee, owner-restricted.
    pub fn set_account_creation_fee(&mut self, caller: AccountId, new_fee: Balance) -> (r: Result<
        (),
        Error,
    >)
        requires
            old(self).wf(),
        ensures
            final(self).wf(),
            caller != old(self).admin().owner ==> r == Err::<(), Error>(Error::NotOwner) && *final(self) == *old(self),
            caller == old(self).admin().owner ==> {
                &&& r == Ok::<(), Error>(())
                &&& final(self).admin() == (AdminView { fee: new_fee, ..old(self).admin() })
                &&& final(self).spec_balance() == old(self).spec_balance()
                &&& forall|a: AccountId| final(self).account_of(a) == old(self).account_of(a)
            },
    {
        self.is_owner(caller)?;
        self.fee = new_fee;
        Ok(())
    }

    /// Records the address of the latest contract revision, owner-restricted.
    pub fn set_latest_smart_contract_address(&mut self, caller: AccountId, latest: AccountId) -> (r:
        Result<(), Error>)
        requires
            old(self).wf(),
        ensures
            final(self).wf(),
            caller != old(self).admin().owner ==> r == Err::<(), Error>(Error::NotOwner) && *final(self) == *old(self),
            caller == old(self).admin().owner ==> {
                &&& r == Ok::<(), Error>(())
                &&& final(self).admin() == (AdminView {
                    latest_address: Some(latest),
                    ..old(self).admin()
                })
                &&& final(self).spec_balance() == old(self).spec_balance()
                &&& forall|a: AccountId| final(self).account_of(a) == old(self).account_of(a)
            },
    {
        self.is_owner(caller)?;
        self.latest_address = Some(latest);
        Ok(())
    }

    /// Records the version number of the latest contract revision,
    /// owner-restricted.
    pub fn set_latest_smart_contract_version(&mut self, caller: AccountId, latest: u8) -> (r:
        Result<(), Error>)
        requires
            old(self).wf(),
        ensures
            final(self).wf(),
            caller != old(self).admin().owner ==> r == Err::<(), Error>(Error::NotOwner) && *final(self) == *old(self),
            caller == old(self).admin().owner ==> {
                &&& r == Ok::<(), Error>(())
                &&& final(self).admin() == (AdminView {
                    latest_version: latest,
                    ..old(self).admin()
                })
                &&& final(self).spec_balance() == old(self).spec_balance()
                &&& forall|a: AccountId| final(self).account_of(a) == old(self).account_of(a)
            },
    {
        self.is_owner(caller)?;
        self.latest_version = latest;
        Ok(())
    }

    /// Records the latest browser extension version known to work with
    /// this contract, owner-restricted.
    pub fn set_latest_compatible_browser_extension_version(
        &mut self,
        caller: AccountId,
        latest: u32,
    ) -> (r: Result<(), Error>)
        requires
            old(self).wf(),
        ensures
            final(self).wf(),
            caller != old(self).admin().owner ==> r == Err::<(), Error>(Error::NotOwner) && *final(self) == *old(self),
            caller == old(self).admin().owner ==> {
                &&& r == Ok::<(), Error>(())
                &&& final(self).admin() == (AdminView {
                    latest_ext_version: latest,
                    ..old(self).admin()
                })
                &&& final(self).spec_balance() == old(self).spec_balance()
                &&& forall|a: AccountId| final(self).account_of(a) == old(self).account_of(a)
            },
    {
        self.is_owner(caller)?;
        self.latest_ext_version = latest;
        Ok(())
    }

    /// Reports the version bookkeeping: this revision's own version, the
    /// latest known version, the address clients should use (this
    /// contract's own address, passed in by the runtime, when no
    /// successor has been recorded), and the latest compatible browser
    /// extension version.
    pub fn get_versions(&self, self_address: AccountId) -> (r: (u8, u8, AccountId, u32))
        ensures
            r.0 == VERSION,
            r.1 == self.admin().latest_version,
            r.2 == match self.admin().latest_address {
                Some(a) => a,
                None => self_address,
            },
            r.3 == self.admin().latest_ext_version,
    {
        let latest = match self.latest_address {
            Some(a) => a,
            None => self_address,
        };
        (VERSION, self.latest_version, latest, self.latest_ext_version)
    }

    /// Pays the whole collected balance out to the owner. The payout
    /// itself is done by the execution environment; its verdict is
    /// handed in as `transfer_accepted`. A refused transfer reports
    /// `TransferFailed` and leaves the balance exactly as it was; a
    /// zero balance succeeds without attempting a transfer at all.
    pub fn withdraw(&mut self, caller: AccountId, transfer_accepted: bool) -> (r: Result<(), Error>)
        requires
            old(self).wf(),
        ensures
            final(self).wf(),
            caller != old(self).admin().owner ==> r == Err::<(), Error>(Error::NotOwner) && *final(self) == *old(self),
            caller == old(self).admin().owner && old(self).spec_balance() > 0 && !transfer_accepted
                ==> r == Err::<(), Error>(Error::TransferFailed) && *final(self) == *old(self),
            caller == old(self).admin().owner && (old(self).spec_balance() == 0
                || transfer_accepted) ==> {
                &&& r == Ok::<(), Error>(())
                &&& final(self).spec_balance() == 0
                &&& final(self).admin() == old(self).admin()
                &&& forall|a: AccountId| final(self).account_of(a) == old(self).account_of(a)
            },
    {
        self.is_owner(caller)?;
        if self.balance > 0 {
            if !transfer_accepted {
                return Err(Error::TransferFailed);
            }
            self.balance = 0;
        }
        Ok(())
    }

    /// Constructs the composite key `identity bytes ++ little-endian
    /// index` under which flat storage layouts file the entry at `index`
    /// of `account_id`'s log. Never persisted: computed on every access.
    pub fn construct_key(account_id: AccountId, index: u32) -> (key: Vec<u8>)
        ensures
            key@ == vstd::bytes::spec_u64_to_le_bytes(account_id) + vstd::bytes::spec_u32_to_le_bytes(
                index,
            ),
    {
        let mut key = vstd::bytes::u64_to_le_bytes(account_id);
        let mut tail = vstd::bytes::u32_to_le_bytes(index);
        key.append(&mut tail);
        key
    }

    /// Position of `id`'s account record, or `None` if it never registered.
    fn find_account(&self, id: AccountId) -> (r: Option<usize>)
        ensures
            match r {
                Some(j) => j < self.accounts@.len() && find_in(self.accounts@, id) == j as int,
                None => find_in(self.accounts@, id) == -1,
            },
    {
        let n = self.accounts.len();
        let mut j: usize = 0;
        while j < n
            invariant
                n == self.accounts@.len(),
                j <= n,
                forall|k: int| 0 <= k < j ==> self.accounts@[k].id != id,
            decreases n - j,
        {
            if self.accounts[j].id == id {
                proof {
                    lemma_find_in_first(self.accounts@, id, j as int);
                }
                return Some(j);
            }
            j += 1;
        }
        proof {
            lemma_find_in_props(self.accounts@, id);
        }
        None
    }

    /// Admits `caller` as a registered account with an empty log, provided
    /// it is not registered yet and the attached payment covers the fee.
    /// The payment check and the registration are one atomic step: on any
    /// error no record is made and no payment is kept.
    pub fn create_account(
        &mut self,
        caller: AccountId,
        attached_deposit: Balance,
        encryption_key_hash: Vec<u8>,
    ) -> (r: Result<(), Error>)
        requires
            old(self).wf(),
            old(self).spec_balance() + attached_deposit <= u128::MAX,
        ensures
            final(self).wf(),
            old(self).registered(caller) ==> r == Err::<(), Error>(Error::AccountAlreadyExists)
                && *final(self) == *old(self),
            !old(self).registered(caller) && attached_deposit < old(self).admin().fee ==> r
                == Err::<(), Error>(Error::InsufficientPayment) && *final(self) == *old(self),
            !old(self).registered(caller) && attached_deposit >= old(self).admin().fee ==> {
                &&& r == Ok::<(), Error>(())
                &&& final(self).account_of(caller) == Some(
                    AccountView { key_hash: encryption_key_hash@, entries: Seq::<EntryView>::empty() },
                )
                &&& final(self).count_of(caller) == 0
                &&& forall|a: AccountId|
                    a != caller ==> final(self).account_of(a) == old(self).account_of(a)
                &&& final(self).admin() == old(self).admin()
                &&& final(self).spec_balance() == old(self).spec_balance() + attached_deposit
            },
    {
        match self.find_account(caller) {
            Some(_) => Err(Error::AccountAlreadyExists),
            None => {
                if attached_deposit < self.fee {
                    Err(Error::InsufficientPayment)
                } else {
                    let ghost s0 = self.accounts@;
                    let fresh = Account { id: caller, key_hash: encryption_key_hash, entries: Vec::new() };
                    let ghost a = fresh;
                    self.balance = self.balance + attached_deposit;
                    self.accounts.push(fresh);
                    proof {
                        lemma_find_in_props(s0, caller);
                        lemma_find_in_push(s0, a);
                        assert(self.accounts@ == s0.push(a));
                        assert(find_in(self.accounts@, caller) == s0.len() as int);
                        assert(entries_view(a.entries@) =~= Seq::<EntryView>::empty());
                        assert forall|a2: AccountId| a2 != caller implies final(self).account_of(a2)
                            == old(self).account_of(a2) by {
                            assert(find_in(self.accounts@, a2) == find_in(s0, a2));
                            if find_in(s0, a2) >= 0 {
                                lemma_find_in_props(s0, a2);
                                assert(self.accounts@[find_in(s0, a2)] == s0[find_in(s0, a2)]);
                            }
                        }
                        assert(final(self).wf()) by {
                            assert(forall|k: int| 0 <= k < s0.len() ==> s0[k].id != caller);
                            assert(forall|i: int|
                                0 <= i < s0.len() ==> self.accounts@[i] == s0[i]);
                        }
                    }
                    Ok(())
                }
            },
        }
    }

    /// Retrieves the hash of the encryption key `account_id` registered with.
    pub fn get_encryption_key_hash(&self, account_id: AccountId) -> (r: Result<Vec<u8>, Error>)
        ensures
            self.registered(account_id) ==> r is Ok && r->Ok_0@ == self.key_hash_of(account_id),
            !self.registered(account_id) ==> r == Err::<Vec<u8>, Error>(Error::AccountNotFound),
    {
        match self.find_account(account_id) {
            Some(j) => Ok(self.accounts[j].key_hash.clone()),
            None => Err(Error::AccountNotFound),
        }
    }

    /// Appends one encrypted entry to the caller's log, fenced by the
    /// index the caller believes is next: the append commits only if
    /// `expected_index` still equals the log's count, so a caller that
    /// lost a race gets `IndexMismatch` back, with nothing changed, and
    /// is expected to re-read the count and retry.
    pub fn add_entry(
        &mut self,
        caller: AccountId,
        expected_index: u32,
        iv: Vec<u8>,
        ciphertext: Vec<u8>,
    ) -> (r: Result<(), Error>)
        requires
            old(self).wf(),
            expected_index < u32::MAX,
        ensures
            final(self).wf(),
            !old(self).registered(caller) ==> r == Err::<(), Error>(Error::AccountNotFound)
                && *final(self) == *old(self),
            old(self).registered(caller) && expected_index != old(self).count_of(caller) ==> r
                == Err::<(), Error>(Error::IndexMismatch) && *final(self) == *old(self),
            old(self).registered(caller) && expected_index == old(self).count_of(caller) ==> {
                &&& r == Ok::<(), Error>(())
                &&& final(self).account_of(caller) == Some(
                    AccountView {
                        key_hash: old(self).key_hash_of(caller),
                        entries: old(self).account_of(caller)->Some_0.entries.push(
                            EntryView { iv: iv@, ciphertext: ciphertext@ },
                        ),
                    },
                )
                &&& final(self).count_of(caller) == old(self).count_of(caller) + 1
                &&& forall|a: AccountId|
                    a != caller ==> final(self).account_of(a) == old(self).account_of(a)
                &&& final(self).admin() == old(self).admin()
                &&& final(self).spec_balance() == old(self).spec_balance()
            },
    {
        let j = match self.find_account(caller) {
            None => { return Err(Error::AccountNotFound) },
            Some(j) => j,
        };
        let current_index = self.accounts[j].entries.len() as u32;
        if expected_index != current_index {
            return Err(Error::IndexMismatch);
        }
        let ghost s0 = self.accounts@;
        let mut acct = self.accounts.remove(j);
        let entry = EncryptedEntry { iv, ciphertext };
        let ghost ev = entry@;
        acct.entries.push(entry);
        let ghost a2 = acct;
        self.accounts.insert(j, acct);
        proof {
            assert(self.accounts@ =~= s0.update(j as int, a2));
            lemma_find_in_update(s0, j as int, a2);
            assert(entries_view(a2.entries@) =~= entries_view(s0[j as int].entries@).push(ev));
            lemma_find_in_props(s0, caller);
            assert forall|a: AccountId| a != caller implies final(self).account_of(a) == old(
                self,
            ).account_of(a) by {
                lemma_find_in_props(s0, a);
            }
            assert(final(self).wf()) by {
                assert(forall|i: int|
                    0 <= i < s0.len() && i != j ==> self.accounts@[i] == s0[i]);
            }
        }
        Ok(())
    }

    /// Appends a whole batch of `(iv, ciphertext)` pairs to the caller's
    /// log in one atomic step, fenced on the first entry's expected
    /// index: either every entry lands, at consecutive indices from
    /// `expected_index` on, or none does.
    pub fn add_entries(
        &mut self,
        caller: AccountId,
        expected_index: u32,
        entries: Vec<(Vec<u8>, Vec<u8>)>,
    ) -> (r: Result<(), Error>)
        requires
            old(self).wf(),
            expected_index + entries@.len() <= u32::MAX,
        ensures
            final(self).wf(),
            !old(self).registered(caller) ==> r == Err::<(), Error>(Error::AccountNotFound)
                && *final(self) == *old(self),
            old(self).registered(caller) && expected_index != old(self).count_of(caller) ==> r
                == Err::<(), Error>(Error::IndexMismatch) && *final(self) == *old(self),
            old(self).registered(caller) && expected_index == old(self).count_of(caller) ==> {
                &&& r == Ok::<(), Error>(())
                &&& final(self).account_of(caller) == Some(
                    AccountView {
                        key_hash: old(self).key_hash_of(caller),
                        entries: old(self).account_of(caller)->Some_0.entries + batch_view(
                            entries@,
                        ),
                    },
                )
                &&& final(self).count_of(caller) == old(self).count_of(caller) + entries@.len()
                &&& forall|a: AccountId|
                    a != caller ==> final(self).account_of(a) == old(self).account_of(a)
                &&& final(self).admin() == old(self).admin()
                &&& final(self).spec_balance() == old(self).spec_balance()
            },
    {
        let j = match self.find_account(caller) {
            None => { return Err(Error::AccountNotFound) },
            Some(j) => j,
        };
        let current_index = self.accounts[j].entries.len() as u32;
        if expected_index != current_index {
            return Err(Error::IndexMismatch);
        }
        let ghost s0 = self.accounts@;
        let ghost b0 = entries@;
        let mut entries = entries;
        let mut acct = self.accounts.remove(j);
        let ghost e0 = acct.entries@;
        let mut k: usize = 0;
        while entries.len() > 0
            invariant
                j < s0.len(),
                b0.len() <= usize::MAX,
                k + entries@.len() == b0.len(),
                entries@ == b0.subrange(k as int, b0.len() as int),
                acct.entries@.len() == e0.len() + k,
                acct.id == s0[j as int].id,
                acct.key_hash@ == s0[j as int].key_hash@,
                entries_view(acct.entries@) == entries_view(e0) + batch_view(
                    b0.subrange(0, k as int),
                ),
            decreases entries@.len(),
        {
            let ghost pre = entries@;
            let (iv, ciphertext) = entries.remove(0);
            let ghost ev = EntryView { iv: iv@, ciphertext: ciphertext@ };
            let ghost before = acct.entries@;
            acct.entries.push(EncryptedEntry { iv, ciphertext });
            proof {
                assert(pre[0] == b0[k as int]);
                assert(entries@ =~= b0.subrange(k as int + 1, b0.len() as int));
                assert(batch_view(b0.subrange(0, k as int + 1)) =~= batch_view(
                    b0.subrange(0, k as int),
                ).push(ev));
                assert(entries_view(acct.entries@) =~= entries_view(before).push(ev));
            }
            k += 1;
        }
        let ghost a2 = acct;
        self.accounts.insert(j, acct);
        proof {
            assert(b0.subrange(0, b0.len() as int) =~= b0);
            assert(self.accounts@ =~= s0.update(j as int, a2));
            lemma_find_in_update(s0, j as int, a2);
            lemma_find_in_props(s0, caller);
            assert forall|a: AccountId| a != caller implies final(self).account_of(a) == old(
                self,
            ).account_of(a) by {
                lemma_find_in_props(s0, a);
            }
            assert(final(self).wf()) by {
                assert(forall|i: int|
                    0 <= i < s0.len() && i != j ==> self.accounts@[i] == s0[i]);
            }
        }
        Ok(())
    }

    fn min(&self, a: u32, b: u32) -> (r: u32)
        ensures
            r == if a <= b {
                a
            } else {
                b
            },
    {
        if a <= b {
            a
        } else {
            b
        }
    }

    /// Retrieves a range of entries from `account_id`'s log: up to
    /// `max_num` of them, starting at `start_index`. The result length
    /// is always the smaller of `max_num` and what remains from
    /// `start_index` to the end of the log; an over-large `max_num` is
    /// clamped, never an error. Reading mutates nothing, so two calls
    /// against an unchanged vault return identical output.
    pub fn get_entries(&self, account_id: AccountId, start_index: u32, max_num: u32) -> (r: Result<
        Vec<EncryptedEntry>,
        Error,
    >)
        requires
            self.wf(),
        ensures
            !self.registered(account_id) ==> r == Err::<Vec<EncryptedEntry>, Error>(
                Error::AccountNotFound,
            ),
            self.registered(account_id) && start_index >= self.count_of(account_id) ==> r == Err::<
                Vec<EncryptedEntry>,
                Error,
            >(Error::IndexMismatch),
            self.registered(account_id) && start_index < self.count_of(account_id) ==> {
                &&& r is Ok
                &&& r->Ok_0@.len() == if (max_num as int) <= self.count_of(account_id)
                    - start_index {
                    max_num as int
                } else {
                    self.count_of(account_id) - start_index
                }
                &&& forall|i: int|
                    0 <= i < r->Ok_0@.len() ==> (#[trigger] r->Ok_0@[i])@ == self.entry_at(
                        account_id,
                        start_index + i,
                    )
            },
    {
        let j = match self.find_account(account_id) {
            None => { return Err(Error::AccountNotFound) },
            Some(j) => j,
        };
        let num = self.accounts[j].entries.len() as u32;
        if start_index >= num {
            return Err(Error::IndexMismatch);
        }
        let take_n = self.min(max_num, num - start_index);
        let end = start_index + take_n;
        let mut results: Vec<EncryptedEntry> = Vec::new();
        let mut index = start_index;
        while index < end
            invariant
                self.wf(),
                j < self.accounts@.len(),
                find_in(self.accounts@, account_id) == j as int,
                self.accounts@[j as int].entries@.len() == num,
                start_index <= index <= end,
                end <= num,
                results@.len() == index - start_index,
                forall|i: int|
                    0 <= i < results@.len() ==> (#[trigger] results@[i])@ == self.entry_at(
                        account_id,
                        start_index + i,
                    ),
            decreases end - index,
        {
            results.push(self.accounts[j].entries[index as usize].clone());
            index += 1;
        }
        Ok(results)
    }

    /// Resets the caller's account: the count returns to zero and every
    /// stored entry is logically discarded, so the next append lands at
    /// index zero and reads back as written, never as a stale pre-reset
    /// value. The record itself survives: the account stays registered.
    pub fn reset_account(&mut self, caller: AccountId) -> (r: Result<(), Error>)
        requires
            old(self).wf(),
        ensures
            final(self).wf(),
            !old(self).registered(caller) ==> r == Err::<(), Error>(Error::AccountNotFound)
                && *final(self) == *old(self),
            old(self).registered(caller) && old(self).count_of(caller) == 0 ==> r == Err::<
                (),
                Error,
            >(Error::AlreadyEmpty) && *final(self) == *old(self),
            old(self).registered(caller) && old(self).count_of(caller) > 0 ==> {
                &&& r == Ok::<(), Error>(())
                &&& final(self).account_of(caller) == Some(
                    AccountView {
                        key_hash: old(self).key_hash_of(caller),
                        entries: Seq::<EntryView>::empty(),
                    },
                )
                &&& final(self).count_of(caller) == 0
                &&& forall|a: AccountId|
                    a != caller ==> final(self).account_of(a) == old(self).account_of(a)
                &&& final(self).admin() == old(self).admin()
                &&& final(self).spec_balance() == old(self).spec_balance()
            },
    {
        let j = match self.find_account(caller) {
            None => { return Err(Error::AccountNotFound) },
            Some(j) => j,
        };
        if self.accounts[j].entries.is_empty() {
            return Err(Error::AlreadyEmpty);
        }
        let ghost s0 = self.accounts@;
        let mut acct = self.accounts.remove(j);
        acct.entries.clear();
        let ghost a2 = acct;
        self.accounts.insert(j, acct);
        proof {
            assert(self.accounts@ =~= s0.update(j as int, a2));
            lemma_find_in_update(s0, j as int, a2);
            lemma_find_in_props(s0, caller);
            assert(entries_view(a2.entries@) =~= Seq::<EntryView>::empty());
            assert forall|a: AccountId| a != caller implies final(self).account_of(a) == old(
                self,
            ).account_of(a) by {
                lemma_find_in_props(s0, a);
            }
            assert(final(self).wf()) by {
                assert(forall|i: int|
                    0 <= i < s0.len() && i != j ==> self.accounts@[i] == s0[i]);
            }
        }
        Ok(())
    }

    /// Reset discards without corrupting. For any registered account,
    /// resetting (or finding the log already empty) and then appending
    /// fenced at index zero always succeeds, and reading index zero
    /// returns exactly the entry just written — never a stale pre-reset
    /// value. Proved from the contracts of `reset_account`, `add_entry`
    /// and `get_entry` alone.
    pub fn reset_then_reappend(
        &mut self,
        caller: AccountId,
        iv: Vec<u8>,
        ciphertext: Vec<u8>,
    ) -> (r: EncryptedEntry)
        requires
            old(self).wf(),
            old(self).registered(caller),
        ensures
            final(self).wf(),
            final(self).count_of(caller) == 1,
            r@.iv == iv@,
            r@.ciphertext == ciphertext@,
    {
        let _ = self.reset_account(caller);
        let _ = self.add_entry(caller, 0, iv, ciphertext);
        match self.get_entry(caller, 0) {
            Ok(e) => e,
            Err(_) => {
                proof {
                    assert(false);
                }
                EncryptedEntry { iv: Vec::new(), ciphertext: Vec::new() }
            },
        }
    }

    /// Retrieves the entry at `index` of `account_id`'s log. For a
    /// registered account with count `n` this succeeds exactly on the
    /// indices `0..n-1` and fails `IndexMismatch` on every index from
    /// `n` up: the log is contiguous, with no gaps.
    pub fn get_entry(&self, account_id: AccountId, index: u32) -> (r: Result<EncryptedEntry, Error>)
        requires
            self.wf(),
        ensures
            !self.registered(account_id) ==> r == Err::<EncryptedEntry, Error>(
                Error::AccountNotFound,
            ),
            self.registered(account_id) && index >= self.count_of(account_id) ==> r == Err::<
                EncryptedEntry,
                Error,
            >(Error::IndexMismatch),
            self.registered(account_id) && index < self.count_of(account_id) ==> r is Ok
                && r->Ok_0@ == self.entry_at(account_id, index as int),
    {
        let j = match self.find_account(account_id) {
            None => { return Err(Error::AccountNotFound) },
            Some(j) => j,
        };
        let num = self.accounts[j].entries.len() as u32;
        if index >= num {
            return Err(Error::IndexMismatch);
        }
        Ok(self.accounts[j].entries[index as usize].clone())
    }

    /// Retrieves the number of entries in `account_id`'s log.
    pub fn get_entry_count(&self, account_id: AccountId) -> (r: Result<u32, Error>)
        requires
            self.wf(),
        ensures
            self.registered(account_id) ==> r == Ok::<u32, Error>(
                self.count_of(account_id) as u32,
            ),
            !self.registered(account_id) ==> r == Err::<u32, Error>(Error::AccountNotFound),
    {
        match self.find_account(account_id) {
            Some(j) => Ok(self.accounts[j].entries.len() as u32),
            None => Err(Error::AccountNotFound),
        }
    }
}

} // verus!
