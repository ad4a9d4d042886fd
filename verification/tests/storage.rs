use synthetic_core::network::components::{Converter, Entity, MAX_HEALTH};
use synthetic_core::network::{ResourceAmount, Storage};
use synthetic_core::DomainError;

fn amt(raw: i64) -> ResourceAmount {
    ResourceAmount::from_raw(raw)
}

#[test]
fn test_storage_new_validation() {
    let s = Storage::new(3, amt(10), amt(20)).unwrap();
    assert_eq!(s.element_id, 3);
    assert_eq!(s.current_amount, amt(10));
    assert_eq!(s.capacity, amt(20));
    assert_eq!(Storage::new(3, amt(-1), amt(20)), Err(DomainError::NegativeResourceAmount(-1)));
    assert_eq!(Storage::new(3, amt(1), amt(-20)), Err(DomainError::NegativeResourceAmount(-20)));
    assert_eq!(
        Storage::new(3, amt(30), amt(20)),
        Err(DomainError::CapacityExceeded { current: 30, capacity: 20 })
    );
}

#[test]
fn test_storage_deposit_and_withdraw() {
    let mut s = Storage::new(1, amt(40), amt(50)).unwrap();
    assert_eq!(s.available_capacity(), amt(10));
    s.deposit(amt(10)).unwrap();
    assert_eq!(s.current_amount, amt(50));
    assert_eq!(s.available_capacity(), amt(0));
    assert_eq!(s.deposit(amt(1)), Err(DomainError::CapacityExceeded { current: 51, capacity: 50 }));
    assert_eq!(s.current_amount, amt(50));
    assert_eq!(s.deposit(amt(-1)), Err(DomainError::NegativeResourceAmount(-1)));
    s.withdraw(amt(20)).unwrap();
    assert_eq!(s.current_amount, amt(30));
    assert_eq!(
        s.withdraw(amt(31)),
        Err(DomainError::InsufficientInventory { available: 30, requested: 31 })
    );
    assert_eq!(s.withdraw(amt(-5)), Err(DomainError::NegativeResourceAmount(-5)));
    assert_eq!(s.current_amount, amt(30));
}

#[test]
fn test_storage_deposit_overflow() {
    let mut s = Storage { element_id: 1, current_amount: amt(i64::MAX), capacity: amt(i64::MAX) };
    assert_eq!(s.deposit(amt(1)), Err(DomainError::ResourceOverflow(format!("{} + 1", i64::MAX))));
    assert_eq!(s.current_amount, amt(i64::MAX));
}

#[test]
fn test_deposit_withdraw_inverse() {
    let initial = Storage::new(7, amt(123), amt(1_000)).unwrap();
    let mut s = initial;
    s.deposit(amt(400)).unwrap();
    s.withdraw(amt(400)).unwrap();
    assert_eq!(s, initial);
    s.withdraw(amt(100)).unwrap();
    s.deposit(amt(100)).unwrap();
    assert_eq!(s, initial);
}

#[test]
fn test_converter_health_and_status() {
    let c = Converter::new(5, 20_000, true);
    assert_eq!(c.health, MAX_HEALTH);
    assert!(c.is_operational());
    assert!(!Converter::new(5, 0, true).is_operational());
    assert!(!Converter::new(5, 100, false).is_operational());
    assert_eq!(Converter::new(5, 100, false).health, 100);
}

#[test]
fn test_entity_handles() {
    let e = Entity::from_index(12);
    assert_eq!(e.index(), 12);
    assert_eq!(Entity::placeholder().index(), u32::MAX);
}
