use synthetic_core::network::types::{add_assign_amount, sub_assign_amount};
use synthetic_core::network::ResourceAmount;
use synthetic_core::DomainError;

#[test]
fn test_fixed_point_conversions() {
    let amt = ResourceAmount::from_units(5).expect("valid conversion");
    assert_eq!(amt.to_raw(), 5_000_000);
    let zero = ResourceAmount::zero();
    assert_eq!(zero.to_raw(), 0);
    assert!(zero.is_zero());
}

#[test]
fn test_checked_arithmetic() {
    let a = ResourceAmount::from_raw(1_500_000);
    let b = ResourceAmount::from_raw(2_500_000);
    let sum = a.checked_add(b).expect("no overflow");
    assert_eq!(sum.to_raw(), 4_000_000);

    let diff = sum.checked_sub(a).expect("no underflow");
    assert_eq!(diff.to_raw(), 2_500_000);

    let max_val = ResourceAmount::from_raw(i64::MAX);
    assert!(max_val.checked_add(ResourceAmount::from_raw(1)).is_err());
}

#[test]
fn test_checked_mul_ratio() {
    let base = ResourceAmount::from_units(10).expect("valid");
    let scaled = base.checked_mul_ratio(3, 4).expect("valid ratio");
    assert_eq!(scaled.to_raw(), 7_500_000);
    assert!(base.checked_mul_ratio(1, 0).is_err());
}

#[test]
fn test_non_negative_validation() {
    let positive = ResourceAmount::from_raw(100);
    assert!(positive.ensure_non_negative().is_ok());

    let zero = ResourceAmount::zero();
    assert!(zero.ensure_non_negative().is_ok());

    let negative = ResourceAmount::from_raw(-50);
    assert!(matches!(
        negative.ensure_non_negative(),
        Err(DomainError::NegativeResourceAmount(-50))
    ));
}

#[test]
fn test_overflow_error_messages() {
    assert_eq!(
        ResourceAmount::from_units(i64::MAX),
        Err(DomainError::ResourceOverflow(format!("from_units({}) overflowed", i64::MAX)))
    );
    assert_eq!(
        ResourceAmount::from_raw(i64::MAX).checked_add(ResourceAmount::from_raw(1)),
        Err(DomainError::ResourceOverflow(format!("{} + 1", i64::MAX)))
    );
    assert_eq!(
        ResourceAmount::from_raw(i64::MIN).checked_sub(ResourceAmount::from_raw(2)),
        Err(DomainError::ResourceOverflow(format!("{} - 2", i64::MIN)))
    );
    assert_eq!(
        ResourceAmount::from_raw(5).checked_mul_ratio(1, 0),
        Err(DomainError::ResourceOverflow("Division by zero in ratio".to_string()))
    );
    assert_eq!(
        ResourceAmount::from_raw(i64::MAX).checked_mul_ratio(3, 1),
        Err(DomainError::ResourceOverflow("Ratio result out of i64 range".to_string()))
    );
}

#[test]
fn test_mul_ratio_wide_intermediate_and_truncation() {
    let big = ResourceAmount::from_raw(i64::MAX);
    assert_eq!(big.checked_mul_ratio(10, 10).unwrap(), big);
    assert_eq!(ResourceAmount::from_raw(7).checked_mul_ratio(1, 2).unwrap().to_raw(), 3);
    assert_eq!(ResourceAmount::from_raw(-7).checked_mul_ratio(1, 2).unwrap().to_raw(), -3);
    assert_eq!(ResourceAmount::from_raw(7).checked_mul_ratio(-1, 2).unwrap().to_raw(), -3);
    assert_eq!(ResourceAmount::from_raw(123).checked_mul_ratio(5, 5).unwrap().to_raw(), 123);
}

#[test]
fn test_saturating_arithmetic() {
    let max = ResourceAmount::from_raw(i64::MAX);
    let min = ResourceAmount::from_raw(i64::MIN);
    assert_eq!(max.saturating_add(ResourceAmount::from_raw(10)), max);
    assert_eq!(min.saturating_sub(ResourceAmount::from_raw(10)), min);
    assert_eq!(ResourceAmount::from_raw(40).saturating_sub(ResourceAmount::from_raw(50)).to_raw(), -10);
    assert_eq!(ResourceAmount::from_raw(40).saturating_add(ResourceAmount::from_raw(50)).to_raw(), 90);
}

#[test]
fn test_predicates_and_min() {
    assert!(ResourceAmount::zero().is_zero());
    assert!(!ResourceAmount::one().is_zero());
    assert_eq!(ResourceAmount::one().to_raw(), 1_000_000);
    assert!(ResourceAmount::from_raw(1).is_positive());
    assert!(!ResourceAmount::from_raw(0).is_positive());
    assert!(!ResourceAmount::from_raw(-1).is_positive());
    assert_eq!(ResourceAmount::from_raw(3).min_amount(ResourceAmount::from_raw(-2)).to_raw(), -2);
    assert_eq!(ResourceAmount::from_raw(3).min_amount(ResourceAmount::from_raw(9)).to_raw(), 3);
}

#[test]
fn test_operators() {
    let a = ResourceAmount::from_raw(1_500_000);
    let b = ResourceAmount::from_raw(500_000);
    assert_eq!((a + b).to_raw(), 2_000_000);
    assert_eq!((a - b).to_raw(), 1_000_000);
    assert_eq!((a * 3).to_raw(), 4_500_000);
    assert_eq!((a / 4).to_raw(), 375_000);
    assert_eq!((ResourceAmount::from_raw(-7) / 2).to_raw(), -3);
}

#[test]
fn test_display_string() {
    assert_eq!(ResourceAmount::from_raw(1_500_000).to_display_string(), "1.500000");
    assert_eq!(ResourceAmount::from_raw(42).to_display_string(), "0.000042");
    assert_eq!(ResourceAmount::from_raw(-2_000_001).to_display_string(), "-2.000001");
    assert_eq!(ResourceAmount::from_raw(0).to_display_string(), "0.000000");
    assert_eq!(ResourceAmount::from_raw(i64::MIN).to_display_string(), "-9223372036854.775808");
}

#[test]
fn test_checked_add_sub_roundtrip() {
    let a = ResourceAmount::from_raw(-12_345);
    let b = ResourceAmount::from_raw(987_654_321);
    assert_eq!(a.checked_add(b).unwrap().checked_sub(b).unwrap(), a);
}

#[test]
fn test_unit_ratio_is_identity() {
    let a = ResourceAmount::from_raw(-987_654_321);
    assert_eq!(a.checked_mul_ratio(17, 17).unwrap(), a);
    assert_eq!(a.checked_mul_ratio(-3, -3).unwrap(), a);
}

#[test]
fn test_in_place_arithmetic() {
    let mut a = ResourceAmount::from_raw(10);
    add_assign_amount(&mut a, ResourceAmount::from_raw(5));
    assert_eq!(a.to_raw(), 15);
    sub_assign_amount(&mut a, ResourceAmount::from_raw(20));
    assert_eq!(a.to_raw(), -5);
}
