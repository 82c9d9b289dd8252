use keyvault::password_manager::Error;
use keyvault::password_manager::InitializedContract;
use keyvault::password_manager::PasswordManager;

const ALICE: u64 = 0x0102030405060708;
const BOB: u64 = 0x1112131415161718;

#[test]
fn composite_string_key_layout() {
    let m = PasswordManager::default();
    // Identity bytes little-endian as lowercase hex, then the number
    // in plain decimal.
    assert_eq!(m.pw_key(ALICE, 0), "08070605040302010");
    assert_eq!(m.pw_key(ALICE, 314), "0807060504030201314");
    assert_eq!(m.pw_key(0xFFAA, 65535), "aaff00000000000065535");
    assert_eq!(m.pw_key(0, 10), "000000000000000010");
}

#[test]
fn add_and_read_back() {
    let mut m = PasswordManager::default();
    m.add_password(ALICE, "alpha".to_string(), 100).unwrap();
    m.add_password(ALICE, "beta".to_string(), 200).unwrap();
    m.add_password(BOB, "gamma".to_string(), 300).unwrap();
    assert_eq!(m.password(ALICE, 0), "alpha");
    assert_eq!(m.password(ALICE, 1), "beta");
    assert_eq!(m.password(BOB, 0), "gamma");
    // A number nothing was filed under reads back empty.
    assert_eq!(m.password(ALICE, 2), "");
    assert_eq!(m.password(BOB, 1), "");
    assert_eq!(m.password(77, 0), "");
}

#[test]
fn accounts_do_not_interfere() {
    let mut m = PasswordManager::default();
    m.add_password(ALICE, "mine".to_string(), 1).unwrap();
    m.add_password(BOB, "yours".to_string(), 2).unwrap();
    m.update_password(BOB, 0, "changed".to_string(), 3).unwrap();
    assert_eq!(m.password(ALICE, 0), "mine");
    assert_eq!(m.password(BOB, 0), "changed");
    assert_eq!(m.get_last_updated(ALICE), vec![1]);
    assert_eq!(m.get_last_updated(BOB), vec![3]);
}

#[test]
fn update_overwrites_and_restamps() {
    let mut m = PasswordManager::default();
    m.add_password(ALICE, "one".to_string(), 10).unwrap();
    m.add_password(ALICE, "two".to_string(), 20).unwrap();
    assert_eq!(m.update_password(ALICE, 0, "one-new".to_string(), 30), Ok(()));
    assert_eq!(m.password(ALICE, 0), "one-new");
    assert_eq!(m.password(ALICE, 1), "two");
    assert_eq!(m.get_last_updated(ALICE), vec![30, 20]);
}

#[test]
fn update_needs_an_existing_password() {
    let mut m = PasswordManager::default();
    assert_eq!(
        m.update_password(ALICE, 0, "x".to_string(), 1),
        Err(Error::PasswordDoesNotExist)
    );
    m.add_password(ALICE, "one".to_string(), 10).unwrap();
    // The count itself is one past the last valid number.
    assert_eq!(
        m.update_password(ALICE, 1, "x".to_string(), 11),
        Err(Error::PasswordDoesNotExist)
    );
    assert_eq!(m.password(ALICE, 0), "one");
    assert_eq!(m.get_last_updated(ALICE), vec![10]);
}

#[test]
fn timestamps_accumulate_in_order() {
    let mut m = PasswordManager::default();
    assert_eq!(m.get_last_updated(ALICE), Vec::<u64>::new());
    m.add_password(ALICE, "a".to_string(), 5).unwrap();
    m.add_password(ALICE, "b".to_string(), 6).unwrap();
    m.add_password(ALICE, "c".to_string(), 7).unwrap();
    assert_eq!(m.get_last_updated(ALICE), vec![5, 6, 7]);
}

#[test]
fn initialization_record_carries_its_field() {
    let e = InitializedContract { account_id: ALICE };
    assert_eq!(e.account_id, ALICE);
}
