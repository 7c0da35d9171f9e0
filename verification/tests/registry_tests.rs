use aat::account::Account;
use aat::enums::CoreError;
use aat::fixed::FloatAsLong;
use aat::registry::{AccountManager, InstrumentManager, OrderRegistry, Registry, Tracker};

#[test]
fn test_tracker_ids_start_at_one() {
    let mut t: Tracker<u32> = Tracker::new();
    assert_eq!(t.next(), 1);
    assert_eq!(t.create(10), 1);
    assert_eq!(t.create(20), 2);
    assert_eq!(t.next(), 3);
    assert_eq!(t.get(1), Some(&10));
    assert_eq!(t.get(2), Some(&20));
    assert_eq!(t.get(3), None);
}

#[test]
fn test_tracker_remove_does_not_reuse_ids() {
    let mut t: Tracker<u32> = Tracker::new();
    t.create(10);
    assert_eq!(t.remove(1), Some(10));
    assert_eq!(t.get(1), None);
    assert_eq!(t.create(30), 2);
}

#[test]
fn test_tracker_replace_upserts() {
    let mut t: Tracker<u32> = Tracker::new();
    t.create(10);
    t.replace(1, 11);
    assert_eq!(t.get(1), Some(&11));
    t.replace(9, 99);
    assert_eq!(t.get(9), Some(&99));
}

#[test]
fn test_order_registry_not_found() {
    let om = OrderRegistry::new();
    assert_eq!(om.get(1).unwrap_err(), CoreError::NotFound);
}

#[test]
fn test_account_manager() {
    let mut am = AccountManager::new();
    let a = am.create(FloatAsLong::from_int(100));
    assert_eq!(a.get_id(), 1);
    assert_eq!(a.get_balance(), FloatAsLong::from_int(100));

    am.set_balance(1, FloatAsLong::from_int(50)).unwrap();
    assert_eq!(am.get(1).unwrap().get_balance(), FloatAsLong::from_int(50));
    assert_eq!(
        am.set_balance(7, FloatAsLong::zero()).unwrap_err(),
        CoreError::NotFound
    );
}

#[test]
fn test_account_eq_is_by_id() {
    let a1 = Account::new(1, 0, Some(FloatAsLong::from_int(1)));
    let a2 = Account::new(1, 0, Some(FloatAsLong::from_int(2)));
    let a3 = Account::new(2, 0, None);
    assert_eq!(a1, a2);
    assert_ne!(a1, a3);
    assert_eq!(a3.get_balance(), FloatAsLong::zero());
}

#[test]
fn test_sum_as_string() {
    assert_eq!(aat::sum_as_string(2, 3), 5);
}

#[test]
fn test_instrument_manager() {
    let mut im = InstrumentManager::new();
    let _instrument = im.create();
    assert!(im.get(1).is_ok());
    assert_eq!(im.get(2).unwrap_err(), CoreError::NotFound);
}
