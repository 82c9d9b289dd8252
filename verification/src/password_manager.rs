//! A keyed password store: encrypted passwords filed under a composite
//! string key derived from the caller's identity and a per-account
//! sequence number, with an update timestamp kept per password.
use vstd::prelude::*;
use vstd::string::StringExecFns;

use crate::AccountId;
use crate::encoding::decimal_of;
use crate::encoding::hex_encode;
use crate::encoding::hex_of;
use crate::encoding::u16_to_decimal;

verus! {

/// Why a call was refused.
#[derive(Debug, Clone, Copy, PartialEq, Eq)]
pub enum Error {
    /// The requested password does not exist, likely because the caller
    /// asked for password number `n` when fewer than `n + 1` passwords
    /// are filed under the account.
    PasswordDoesNotExist,
}

/// Notification that the contract was set up; the surrounding runtime
/// emits it once at construction.
#[derive(Debug, Clone, Copy, PartialEq, Eq)]
pub struct InitializedContract {
    pub account_id: AccountId,
}

/// The composite key under which password number `num` of `account_id`
/// is filed: the identity's bytes as lowercase hex, then the number in
/// decimal.
pub open spec fn spec_pw_key(account_id: AccountId, num: u16) -> Seq<char> {
    hex_of(vstd::bytes::spec_u64_to_le_bytes(account_id)) + decimal_of(num as nat)
}

/// Composite string keys never collide: equal keys can only come from
/// the same account and the same password number, so one account's
/// passwords can never shadow or overwrite another's.
pub proof fn lemma_pw_key_injective(a1: AccountId, n1: u16, a2: AccountId, n2: u16)
    requires
        spec_pw_key(a1, n1) == spec_pw_key(a2, n2),
    ensures
        a1 == a2,
        n1 == n2,
{
    vstd::bytes::lemma_auto_spec_u64_to_from_le_bytes();
    let b1 = vstd::bytes::spec_u64_to_le_bytes(a1);
    let b2 = vstd::bytes::spec_u64_to_le_bytes(a2);
    crate::encoding::lemma_hex_of_len(b1);
    crate::encoding::lemma_hex_of_len(b2);
    let k = spec_pw_key(a1, n1);
    assert(hex_of(b1) =~= k.take(16));
    assert(hex_of(b2) =~= k.take(16));
    crate::encoding::lemma_hex_of_injective(b1, b2);
    assert(decimal_of(n1 as nat) =~= k.skip(16));
    assert(decimal_of(n2 as nat) =~= k.skip(16));
    crate::encoding::lemma_decimal_of_injective(n1 as nat, n2 as nat);
}

/// The contract state: a flat map from composite string keys to
/// encrypted passwords, and one timestamp per password per account.
pub struct PasswordManager {
    passwords: Vec<(String, String)>,
    last_updated: Vec<(AccountId, Vec<u64>)>,
}

/// The map a list of key/value pairs denotes when later pairs shadow
/// earlier ones.
spec fn pw_map_of(s: Seq<(String, String)>) -> Map<Seq<char>, Seq<char>>
    decreases s.len(),
{
    if s.len() == 0 {
        Map::empty()
    } else {
        pw_map_of(s.drop_last()).insert(s.last().0@, s.last().1@)
    }
}

/// Index of the first record with the given account id, or -1 if none.
spec fn find_user(s: Seq<(AccountId, Vec<u64>)>, id: AccountId) -> int
    decreases s.len(),
{
    if s.len() == 0 {
        -1
    } else if s[0].0 == id {
        0
    } else {
        let r = find_user(s.subrange(1, s.len() as int), id);
        if r < 0 {
            -1
        } else {
            1 + r
        }
    }
}

proof fn lemma_find_user_props(s: Seq<(AccountId, Vec<u64>)>, id: AccountId)
    ensures
        -1 <= find_user(s, id) < s.len(),
        find_user(s, id) >= 0 ==> s[find_user(s, id)].0 == id,
        find_user(s, id) >= 0 ==> forall|k: int| 0 <= k < find_user(s, id) ==> s[k].0 != id,
        find_user(s, id) == -1 ==> forall|k: int| 0 <= k < s.len() ==> s[k].0 != id,
    decreases s.len(),
{
    if s.len() != 0 && s[0].0 != id {
        let t = s.subrange(1, s.len() as int);
        lemma_find_user_props(t, id);
        assert(forall|k: int| 1 <= k < s.len() ==> s[k] == t[k - 1]);
    }
}

proof fn lemma_find_user_first(s: Seq<(AccountId, Vec<u64>)>, id: AccountId, j: int)
    requires
        0 <= j < s.len(),
        s[j].0 == id,
        forall|k: int| 0 <= k < j ==> s[k].0 != id,
    ensures
        find_user(s, id) == j,
    decreases s.len(),
{
    if j > 0 {
        let t = s.subrange(1, s.len() as int);
        assert(forall|k: int| 0 <= k < t.len() ==> t[k] == s[k + 1]);
        lemma_find_user_first(t, id, j - 1);
    }
}

proof fn lemma_find_user_update(s: Seq<(AccountId, Vec<u64>)>, j: int, a: (AccountId, Vec<u64>))
    requires
        0 <= j < s.len(),
        a.0 == s[j].0,
    ensures
        forall|id2: AccountId| find_user(s.update(j, a), id2) == find_user(s, id2),
    decreases s.len(),
{
    let s2 = s.update(j, a);
    let t = s.subrange(1, s.len() as int);
    let t2 = s2.subrange(1, s2.len() as int);
    if j == 0 {
        assert(t2 =~= t);
    } else {
        assert(t2 =~= t.update(j - 1, a));
        lemma_find_user_update(t, j - 1, a);
    }
    assert(s2[0].0 == s[0].0);
    assert forall|id2: AccountId| find_user(s2, id2) == find_user(s, id2) by {
        if s[0].0 != id2 {
            assert(find_user(t2, id2) == find_user(t, id2));
        }
    }
}

proof fn lemma_find_user_push(s: Seq<(AccountId, Vec<u64>)>, a: (AccountId, Vec<u64>))
    ensures
        forall|id2: AccountId|
            find_user(s.push(a), id2) == if find_user(s, id2) >= 0 {
                find_user(s, id2)
            } else if id2 == a.0 {
                s.len() as int
            } else {
                -1
            },
    decreases s.len(),
{
    let s2 = s.push(a);
    if s.len() == 0 {
        assert forall|id2: AccountId|
            find_user(s2, id2) == if find_user(s, id2) >= 0 {
                find_user(s, id2)
            } else if id2 == a.0 {
                s.len() as int
            } else {
                -1
            } by {
            assert(s2.len() == 1);
            assert(s2[0] == a);
            assert(s2.subrange(1, 1) =~= Seq::<(AccountId, Vec<u64>)>::empty());
            assert(find_user(Seq::<(AccountId, Vec<u64>)>::empty(), id2) == -1);
            if id2 == a.0 {
                assert(find_user(s2, id2) == 0);
            } else {
                assert(find_user(s2, id2) == -1);
            }
            assert(find_user(s, id2) == -1);
        }
    } else {
        let t = s.subrange(1, s.len() as int);
        assert(s2.subrange(1, s2.len() as int) =~= t.push(a));
        lemma_find_user_push(t, a);
        assert forall|id2: AccountId|
            find_user(s2, id2) == if find_user(s, id2) >= 0 {
                find_user(s, id2)
            } else if id2 == a.0 {
                s.len() as int
            } else {
                -1
            } by {
            assert(s2[0] == s[0]);
            if s[0].0 != id2 {
                assert(find_user(s2.subrange(1, s2.len() as int), id2) == find_user(
                    t.push(a),
                    id2,
                ));
            }
        }
    }
}

impl PasswordManager {
    /// Well-formedness: each account has at most one timestamp record.
    pub closed spec fn wf(self) -> bool {
        forall|i: int, j: int|
            0 <= i < j < self.last_updated@.len() ==> self.last_updated@[i].0
                != self.last_updated@[j].0
    }

    /// The password map: composite key to encrypted password.
    pub closed spec fn pw_map(self) -> Map<Seq<char>, Seq<char>> {
        pw_map_of(self.passwords@)
    }

    /// The update timestamps of `id`'s passwords, oldest first; empty
    /// for an account that never stored one.
    pub closed spec fn stamps_of(self, id: AccountId) -> Seq<u64> {
        let j = find_user(self.last_updated@, id);
        if j < 0 {
            Seq::empty()
        } else {
            self.last_updated@[j].1@
        }
    }

    /// How many passwords are filed under `id`.
    pub open spec fn password_count(self, id: AccountId) -> nat {
        self.stamps_of(id).len()
    }

    /// Creates a new password manager holding nothing.
    pub fn default() -> (r: PasswordManager)
        ensures
            r.wf(),
            r.pw_map() == Map::<Seq<char>, Seq<char>>::empty(),
            forall|a: AccountId| r.stamps_of(a) == Seq::<u64>::empty(),
    {
        PasswordManager { passwords: Vec::new(), last_updated: Vec::new() }
    }

    /// The string key password number `num` of `account_id` is filed
    /// under: the identity's bytes as lowercase hex, then `num` in
    /// decimal.
    pub fn pw_key(&self, account_id: AccountId, num: u16) -> (r: String)
        ensures
            r@ == spec_pw_key(account_id, num),
    {
        let bytes = vstd::bytes::u64_to_le_bytes(account_id);
        let mut key = hex_encode(bytes.as_slice());
        let digits = u16_to_decimal(num);
        key.append(digits.as_str());
        key
    }

    /// Position of `id`'s timestamp record, or `None` if there is none.
    fn find_record(&self, id: AccountId) -> (r: Option<usize>)
        ensures
            match r {
                Some(j) => j < self.last_updated@.len() && find_user(self.last_updated@, id)
                    == j as int,
                None => find_user(self.last_updated@, id) == -1,
            },
    {
        let n = self.last_updated.len();
        let mut j: usize = 0;
        while j < n
            invariant
                n == self.last_updated@.len(),
                j <= n,
                forall|k: int| 0 <= k < j ==> self.last_updated@[k].0 != id,
            decreases n - j,
        {
            if self.last_updated[j].0 == id {
                proof {
                    lemma_find_user_first(self.last_updated@, id, j as int);
                }
                return Some(j);
            }
            j += 1;
        }
        proof {
            lemma_find_user_props(self.last_updated@, id);
        }
        None
    }

    /// Files `encrypted` as the caller's next password, keyed by the
    /// caller's identity and current password count, and records `now`
    /// as its update timestamp.
    pub fn add_password(&mut self, caller: AccountId, encrypted: String, now: u64) -> (r: Result<
        (),
        Error,
    >)
        requires
            old(self).wf(),
            old(self).password_count(caller) < 65536,
        ensures
            final(self).wf(),
            r == Ok::<(), Error>(()),
            final(self).pw_map() == old(self).pw_map().insert(
                spec_pw_key(caller, old(self).password_count(caller) as u16),
                encrypted@,
            ),
            final(self).stamps_of(caller) == old(self).stamps_of(caller).push(now),
            forall|a: AccountId| a != caller ==> final(self).stamps_of(a) == old(self).stamps_of(a),
    {
        let found = self.find_record(caller);
        let num: u16 = match found {
            Some(j) => self.last_updated[j].1.len() as u16,
            None => 0,
        };
        let key = self.pw_key(caller, num);
        let ghost p0 = self.passwords@;
        let ghost kv = (key@, encrypted@);
        self.passwords.push((key, encrypted));
        proof {
            assert(self.passwords@.drop_last() =~= p0);
            assert(self.passwords@.last().0@ == kv.0 && self.passwords@.last().1@ == kv.1);
        }
        let ghost s0 = self.last_updated@;
        match found {
            Some(j) => {
                let (uid, mut stamps) = self.last_updated.remove(j);
                stamps.push(now);
                let ghost a2 = (uid, stamps);
                self.last_updated.insert(j, (uid, stamps));
                proof {
                    assert(self.last_updated@ =~= s0.update(j as int, a2));
                    lemma_find_user_update(s0, j as int, a2);
                    lemma_find_user_props(s0, caller);
                    assert forall|a: AccountId| a != caller implies final(self).stamps_of(a) == old(
                        self,
                    ).stamps_of(a) by {
                        lemma_find_user_props(s0, a);
                    }
                    assert(final(self).wf()) by {
                        assert(forall|i: int|
                            0 <= i < s0.len() && i != j ==> self.last_updated@[i] == s0[i]);
                    }
                }
            },
            None => {
                let mut stamps: Vec<u64> = Vec::new();
                stamps.push(now);
                let ghost a2 = (caller, stamps);
                self.last_updated.push((caller, stamps));
                proof {
                    lemma_find_user_props(s0, caller);
                    lemma_find_user_push(s0, a2);
                    assert(self.last_updated@ == s0.push(a2));
                    assert(final(self).stamps_of(caller) =~= old(self).stamps_of(caller).push(
                        now,
                    ));
                    assert forall|a: AccountId| a != caller implies final(self).stamps_of(a) == old(
                        self,
                    ).stamps_of(a) by {
                        lemma_find_user_props(s0, a);
                        if find_user(s0, a) >= 0 {
                            assert(self.last_updated@[find_user(s0, a)] == s0[find_user(s0, a)]);
                        }
                    }
                    assert(final(self).wf()) by {
                        assert(forall|k: int| 0 <= k < s0.len() ==> s0[k].0 != caller);
                        assert(forall|i: int|
                            0 <= i < s0.len() ==> self.last_updated@[i] == s0[i]);
                    }
                }
            },
        }
        Ok(())
    }

    /// Overwrites password number `num` of the caller and records `now`
    /// as its update timestamp. Only passwords that exist can be
    /// overwritten; asking for a number at or past the caller's count
    /// fails and changes nothing.
    pub fn update_password(&mut self, caller: AccountId, num: u16, encrypted: String, now: u64) -> (r:
        Result<(), Error>)
        requires
            old(self).wf(),
        ensures
            final(self).wf(),
            num >= old(self).password_count(caller) ==> r == Err::<(), Error>(
                Error::PasswordDoesNotExist,
            ) && *final(self) == *old(self),
            num < old(self).password_count(caller) ==> {
                &&& r == Ok::<(), Error>(())
                &&& final(self).pw_map() == old(self).pw_map().insert(
                    spec_pw_key(caller, num),
                    encrypted@,
                )
                &&& final(self).stamps_of(caller) == old(self).stamps_of(caller).update(
                    num as int,
                    now,
                )
                &&& forall|a: AccountId|
                    a != caller ==> final(self).stamps_of(a) == old(self).stamps_of(a)
            },
    {
        let j = match self.find_record(caller) {
            None => { return Err(Error::PasswordDoesNotExist) },
            Some(j) => j,
        };
        if num as usize >= self.last_updated[j].1.len() {
            return Err(Error::PasswordDoesNotExist);
        }
        let key = self.pw_key(caller, num);
        let ghost p0 = self.passwords@;
        self.passwords.push((key, encrypted));
        proof {
            assert(self.passwords@.drop_last() =~= p0);
        }
        let ghost s0 = self.last_updated@;
        let (uid, mut stamps) = self.last_updated.remove(j);
        stamps[num as usize] = now;
        let ghost a2 = (uid, stamps);
        self.last_updated.insert(j, (uid, stamps));
        proof {
            assert(self.last_updated@ =~= s0.update(j as int, a2));
            lemma_find_user_update(s0, j as int, a2);
            lemma_find_user_props(s0, caller);
            assert forall|a: AccountId| a != caller implies final(self).stamps_of(a) == old(
                self,
            ).stamps_of(a) by {
                lemma_find_user_props(s0, a);
            }
            assert(final(self).wf()) by {
                assert(forall|i: int|
                    0 <= i < s0.len() && i != j ==> self.last_updated@[i] == s0[i]);
            }
        }
        Ok(())
    }

    /// Returns password number `num` of `account_id`, or the empty
    /// string when no password is filed under that key.
    pub fn password(&self, account_id: AccountId, num: u16) -> (r: String)
        ensures
            r@ == if self.pw_map().contains_key(spec_pw_key(account_id, num)) {
                self.pw_map()[spec_pw_key(account_id, num)]
            } else {
                Seq::<char>::empty()
            },
    {
        let key = self.pw_key(account_id, num);
        let n = self.passwords.len();
        let mut i = n;
        proof {
            assert(self.passwords@.take(n as int) =~= self.passwords@);
        }
        while i > 0
            invariant
                i <= n,
                n == self.passwords@.len(),
                key@ == spec_pw_key(account_id, num),
                pw_map_of(self.passwords@).contains_key(key@) == pw_map_of(
                    self.passwords@.take(i as int),
                ).contains_key(key@),
                pw_map_of(self.passwords@).contains_key(key@)
                    ==> pw_map_of(self.passwords@)[key@] == pw_map_of(
                    self.passwords@.take(i as int),
                )[key@],
            decreases i,
        {
            i -= 1;
            let ghost pre = self.passwords@.take(i as int + 1);
            proof {
                assert(pre.drop_last() =~= self.passwords@.take(i as int));
                assert(pre.last() == self.passwords@[i as int]);
            }
            if self.passwords[i].0 == key {
                return self.passwords[i].1.clone();
            }
        }
        proof {
            assert(self.passwords@.take(0) =~= Seq::<(String, String)>::empty());
        }
        String::new()
    }

    /// Returns the update timestamps of `account_id`'s passwords,
    /// oldest first; empty when the account never stored one.
    pub fn get_last_updated(&self, account_id: AccountId) -> (r: Vec<u64>)
        ensures
            r@ == self.stamps_of(account_id),
    {
        match self.find_record(account_id) {
            Some(j) => {
                let r = self.last_updated[j].1.clone();
                proof {
                    assert(r@ =~= self.last_updated@[j as int].1@);
                }
                r
            },
            None => Vec::new(),
        }
    }
}

} // verus!
