use keyvault::vault::EncryptedEntry;
use keyvault::vault::Error;
use keyvault::vault::KeyVault;
use keyvault::vault::Registered;
use keyvault::vault::AddedEntry;

const OWNER: u64 = 1;
const ALICE: u64 = 10;
const BOB: u64 = 11;

fn vault_with(fee: u128) -> KeyVault {
    let mut v = KeyVault::new(OWNER, 2);
    v.set_account_creation_fee(OWNER, fee).unwrap();
    v
}

fn entry(iv: &[u8], ct: &[u8]) -> EncryptedEntry {
    EncryptedEntry { iv: iv.to_vec(), ciphertext: ct.to_vec() }
}

#[test]
fn contiguity_of_the_log() {
    let mut v = vault_with(0);
    v.create_account(ALICE, 0, vec![9, 9]).unwrap();
    for i in 0..3u32 {
        v.add_entry(ALICE, i, vec![i as u8], vec![i as u8, 42]).unwrap();
    }
    assert_eq!(v.get_entry_count(ALICE), Ok(3));
    for i in 0..3u32 {
        let e = v.get_entry(ALICE, i).unwrap();
        assert_eq!(e, entry(&[i as u8], &[i as u8, 42]));
    }
    assert_eq!(v.get_entry(ALICE, 3), Err(Error::IndexMismatch));
    assert_eq!(v.get_entry(ALICE, 4), Err(Error::IndexMismatch));
    assert_eq!(v.get_entry(ALICE, u32::MAX), Err(Error::IndexMismatch));
    assert_eq!(v.get_entry(BOB, 0), Err(Error::AccountNotFound));
}

#[test]
fn fencing_rejects_stale_appends() {
    let mut v = vault_with(0);
    v.create_account(ALICE, 0, Vec::new()).unwrap();
    v.add_entry(ALICE, 0, vec![1], vec![2]).unwrap();
    // A competing session already appended: index 0 is stale now.
    assert_eq!(v.add_entry(ALICE, 0, vec![3], vec![4]), Err(Error::IndexMismatch));
    assert_eq!(v.add_entry(ALICE, 2, vec![3], vec![4]), Err(Error::IndexMismatch));
    assert_eq!(v.get_entry_count(ALICE), Ok(1));
    assert_eq!(v.get_entry(ALICE, 0).unwrap(), entry(&[1], &[2]));
    // Re-reading the count and retrying with a fresh token succeeds.
    assert_eq!(v.add_entry(ALICE, 1, vec![3], vec![4]), Ok(()));
    assert_eq!(v.get_entry_count(ALICE), Ok(2));
}

#[test]
fn fencing_of_unregistered_caller() {
    let mut v = vault_with(0);
    assert_eq!(v.add_entry(ALICE, 0, vec![1], vec![2]), Err(Error::AccountNotFound));
    assert_eq!(v.add_entries(ALICE, 0, vec![(vec![1], vec![2])]), Err(Error::AccountNotFound));
    assert_eq!(v.reset_account(ALICE), Err(Error::AccountNotFound));
    assert_eq!(v.get_entry_count(ALICE), Err(Error::AccountNotFound));
    assert_eq!(v.get_encryption_key_hash(ALICE), Err(Error::AccountNotFound));
}

#[test]
fn batch_append_is_all_or_nothing() {
    let mut v = vault_with(0);
    v.create_account(ALICE, 0, Vec::new()).unwrap();
    v.add_entry(ALICE, 0, vec![7], vec![8]).unwrap();
    let batch = vec![(vec![1], vec![10]), (vec![2], vec![20]), (vec![3], vec![30])];
    // Stale first index: nothing of the batch lands.
    assert_eq!(v.add_entries(ALICE, 0, batch.clone()), Err(Error::IndexMismatch));
    assert_eq!(v.get_entry_count(ALICE), Ok(1));
    // Fresh index: the whole batch lands in order.
    assert_eq!(v.add_entries(ALICE, 1, batch), Ok(()));
    assert_eq!(v.get_entry_count(ALICE), Ok(4));
    assert_eq!(v.get_entry(ALICE, 1).unwrap(), entry(&[1], &[10]));
    assert_eq!(v.get_entry(ALICE, 2).unwrap(), entry(&[2], &[20]));
    assert_eq!(v.get_entry(ALICE, 3).unwrap(), entry(&[3], &[30]));
    // An empty batch is a no-op that still checks its fence.
    assert_eq!(v.add_entries(ALICE, 4, Vec::new()), Ok(()));
    assert_eq!(v.get_entry_count(ALICE), Ok(4));
}

#[test]
fn admission_is_atomic() {
    let mut v = vault_with(100);
    // Underpayment: no record is left behind, no payment kept.
    assert_eq!(v.create_account(ALICE, 99, vec![1, 2, 3]), Err(Error::InsufficientPayment));
    assert_eq!(v.get_entry_count(ALICE), Err(Error::AccountNotFound));
    assert_eq!(v.get_balance(), 0);
    // Sufficient payment: exactly one record, count zero, payment kept.
    assert_eq!(v.create_account(ALICE, 100, vec![1, 2, 3]), Ok(()));
    assert_eq!(v.get_entry_count(ALICE), Ok(0));
    assert_eq!(v.get_encryption_key_hash(ALICE), Ok(vec![1, 2, 3]));
    assert_eq!(v.get_balance(), 100);
    // Registering twice fails and keeps no extra payment.
    assert_eq!(v.create_account(ALICE, 500, vec![4]), Err(Error::AccountAlreadyExists));
    assert_eq!(v.get_balance(), 100);
    assert_eq!(v.get_encryption_key_hash(ALICE), Ok(vec![1, 2, 3]));
    // Overpayment is fine and kept in full.
    assert_eq!(v.create_account(BOB, 101, Vec::new()), Ok(()));
    assert_eq!(v.get_balance(), 201);
}

#[test]
fn range_reads_are_clamped_and_repeatable() {
    let mut v = vault_with(0);
    v.create_account(ALICE, 0, Vec::new()).unwrap();
    for i in 0..5u32 {
        v.add_entry(ALICE, i, vec![i as u8], vec![100 + i as u8]).unwrap();
    }
    let first = v.get_entries(ALICE, 1, 2).unwrap();
    let second = v.get_entries(ALICE, 1, 2).unwrap();
    assert_eq!(first, second);
    assert_eq!(first.len(), 2);
    assert_eq!(first[0], entry(&[1], &[101]));
    assert_eq!(first[1], entry(&[2], &[102]));
    // min(max_num, count - start): an over-large max_num is clamped.
    assert_eq!(v.get_entries(ALICE, 3, 1000).unwrap().len(), 2);
    assert_eq!(v.get_entries(ALICE, 0, u32::MAX).unwrap().len(), 5);
    assert_eq!(v.get_entries(ALICE, 4, 0).unwrap().len(), 0);
    // Reading from the count or past it is out of range.
    assert_eq!(v.get_entries(ALICE, 5, 1), Err(Error::IndexMismatch));
    assert_eq!(v.get_entries(ALICE, 1000, 1), Err(Error::IndexMismatch));
    assert_eq!(v.get_entries(BOB, 0, 1), Err(Error::AccountNotFound));
}

#[test]
fn owner_gating_protects_every_administrative_call() {
    let mut v = vault_with(50);
    v.create_account(ALICE, 50, Vec::new()).unwrap();
    assert_eq!(v.set_owner(ALICE, ALICE), Err(Error::NotOwner));
    assert_eq!(v.set_account_creation_fee(ALICE, 0), Err(Error::NotOwner));
    assert_eq!(v.set_latest_smart_contract_address(ALICE, 99), Err(Error::NotOwner));
    assert_eq!(v.set_latest_smart_contract_version(ALICE, 9), Err(Error::NotOwner));
    assert_eq!(v.set_latest_compatible_browser_extension_version(ALICE, 9), Err(Error::NotOwner));
    assert_eq!(v.withdraw(ALICE, true), Err(Error::NotOwner));
    // Nothing moved: owner, versions and balance read back unchanged.
    assert_eq!(v.get_owner(), OWNER);
    assert_eq!(v.get_owner_result(), Ok(OWNER));
    assert_eq!(v.get_versions(7), (1, 1, 7, 2));
    assert_eq!(v.get_balance(), 50);
    // The fee is still 50: underpaying with 0 is refused.
    assert_eq!(v.create_account(BOB, 0, Vec::new()), Err(Error::InsufficientPayment));
}

#[test]
fn ownership_transfer_hands_over_the_gate() {
    let mut v = vault_with(0);
    assert_eq!(v.set_owner(OWNER, ALICE), Ok(()));
    assert_eq!(v.get_owner(), ALICE);
    // Authority moved: the previous owner is now refused.
    assert_eq!(v.set_account_creation_fee(OWNER, 7), Err(Error::NotOwner));
    assert_eq!(v.set_account_creation_fee(ALICE, 7), Ok(()));
}

#[test]
fn version_bookkeeping() {
    let mut v = KeyVault::new(OWNER, 42);
    // No successor recorded: the vault's own address stands in.
    assert_eq!(v.get_versions(123), (1, 1, 123, 42));
    v.set_latest_smart_contract_version(OWNER, 2).unwrap();
    v.set_latest_smart_contract_address(OWNER, 900).unwrap();
    v.set_latest_compatible_browser_extension_version(OWNER, 43).unwrap();
    assert_eq!(v.get_versions(123), (1, 2, 900, 43));
}

#[test]
fn withdraw_all_or_nothing() {
    let mut v = vault_with(30);
    v.create_account(ALICE, 30, Vec::new()).unwrap();
    assert_eq!(v.get_balance(), 30);
    // The environment refused the payout: balance must be untouched.
    assert_eq!(v.withdraw(OWNER, false), Err(Error::TransferFailed));
    assert_eq!(v.get_balance(), 30);
    // The payout went through: the whole balance leaves.
    assert_eq!(v.withdraw(OWNER, true), Ok(()));
    assert_eq!(v.get_balance(), 0);
    // An empty balance withdraws trivially, no transfer attempted.
    assert_eq!(v.withdraw(OWNER, false), Ok(()));
}

#[test]
fn reset_discards_but_does_not_corrupt() {
    let mut v = vault_with(0);
    v.create_account(ALICE, 0, vec![5]).unwrap();
    // A fresh, empty account cannot be reset.
    assert_eq!(v.reset_account(ALICE), Err(Error::AlreadyEmpty));
    v.add_entry(ALICE, 0, vec![1], vec![1, 1]).unwrap();
    v.add_entry(ALICE, 1, vec![2], vec![2, 2]).unwrap();
    assert_eq!(v.reset_account(ALICE), Ok(()));
    assert_eq!(v.get_entry_count(ALICE), Ok(0));
    assert_eq!(v.get_entry(ALICE, 0), Err(Error::IndexMismatch));
    // The record survives: appending restarts at index zero, and the
    // read returns the new entry, not a stale pre-reset one.
    assert_eq!(v.add_entry(ALICE, 0, vec![9], vec![9, 9]), Ok(()));
    assert_eq!(v.get_entry(ALICE, 0).unwrap(), entry(&[9], &[9, 9]));
    assert_eq!(v.get_entry_count(ALICE), Ok(1));
    // The registration data is still there.
    assert_eq!(v.get_encryption_key_hash(ALICE), Ok(vec![5]));
}

#[test]
fn reset_then_reappend_reads_back_the_new_entry() {
    let mut v = vault_with(0);
    v.create_account(ALICE, 0, Vec::new()).unwrap();
    v.add_entry(ALICE, 0, vec![1], vec![2]).unwrap();
    let e = v.reset_then_reappend(ALICE, vec![8], vec![6, 7]);
    assert_eq!(e, entry(&[8], &[6, 7]));
    assert_eq!(v.get_entry_count(ALICE), Ok(1));
}

#[test]
fn example_session() {
    let mut v = vault_with(10);
    v.create_account(ALICE, 10, Vec::new()).unwrap();
    assert_eq!(v.get_entry_count(ALICE), Ok(0));
    assert_eq!(v.add_entry(ALICE, 0, vec![0; 16], vec![1, 2, 3, 4]), Ok(()));
    assert_eq!(v.get_entry_count(ALICE), Ok(1));
    assert_eq!(v.get_entry(ALICE, 0).unwrap(), entry(&[0; 16], &[1, 2, 3, 4]));
    // The same client submits the same expected index again: stale.
    assert_eq!(v.add_entry(ALICE, 0, vec![0; 16], vec![5, 6]), Err(Error::IndexMismatch));
    assert_eq!(v.get_entry_count(ALICE), Ok(1));
}

#[test]
fn composite_key_layout() {
    let key = KeyVault::construct_key(0x0102030405060708, 0x0A0B0C0D);
    assert_eq!(key, vec![8, 7, 6, 5, 4, 3, 2, 1, 0x0D, 0x0C, 0x0B, 0x0A]);
    assert_eq!(KeyVault::construct_key(0, 0), vec![0; 12]);
}

#[test]
fn event_records_carry_their_fields() {
    let r = Registered { user: ALICE };
    assert_eq!(r.user, ALICE);
    let a = AddedEntry { user: ALICE, num_entries: 3 };
    assert_eq!((a.user, a.num_entries), (ALICE, 3));
}
