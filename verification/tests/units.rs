use clob_engine::units::{
    price_from_decimal, price_from_parts, price_to_decimal, quantity_from_decimal,
    quantity_from_parts, quantity_to_decimal, total_to_decimal, units_from_parts,
};
use rust_decimal::Decimal;

#[test]
fn parts_to_units() {
    assert_eq!(units_from_parts(10125, 2), Some(10_125_000_000));
    assert_eq!(units_from_parts(-7, 0), Some(-700_000_000));
    assert_eq!(units_from_parts(123_456_789, 9), None);
    assert_eq!(units_from_parts(123_456_780, 9), Some(12_345_678));
    assert_eq!(units_from_parts(-5_000_000_000, 10), Some(-50_000_000));
    assert_eq!(units_from_parts(-5_000_000_001, 10), None);
}

#[test]
fn price_and_quantity_ranges() {
    assert_eq!(price_from_parts(-3, 1), Some(-30_000_000));
    assert_eq!(price_from_parts(1_000_000_000_000, 0), None);
    assert_eq!(quantity_from_parts(-1, 0), None);
    assert_eq!(quantity_from_parts(25, 1), Some(250_000_000));
    assert_eq!(quantity_from_parts(0, 28), Some(0));
}

#[test]
fn decimal_to_units() {
    assert_eq!(price_from_decimal(&Decimal::new(10125, 2)), Some(10_125_000_000));
    assert_eq!(price_from_decimal(&Decimal::new(-1, 8)), Some(-1));
    assert_eq!(price_from_decimal(&Decimal::new(1, 9)), None);
    assert_eq!(quantity_from_decimal(&Decimal::from(100)), Some(10_000_000_000));
    assert_eq!(quantity_from_decimal(&Decimal::new(-5, 0)), None);
}

#[test]
fn units_to_decimal() {
    assert_eq!(price_to_decimal(10_125_000_000), Decimal::new(10125, 2));
    assert_eq!(price_to_decimal(-1), Decimal::new(-1, 8));
    assert_eq!(quantity_to_decimal(300_000_000), Decimal::from(3));
    assert_eq!(total_to_decimal(250_000_000), Some(Decimal::new(25, 1)));
    assert_eq!(total_to_decimal(u128::MAX), None);
    let p = price_from_decimal(&price_to_decimal(123_456)).unwrap();
    assert_eq!(p, 123_456);
}

#[test]
fn decimal_round_trips_keep_mantissa_and_scale() {
    for p in [i64::MIN, -1, 0, 1, 10_125_000_000, i64::MAX] {
        let d = price_to_decimal(p);
        assert_eq!((d.mantissa(), d.scale()), (p as i128, 8));
        assert_eq!(price_from_decimal(&d), Some(p));
    }
    for q in [0u64, 7, u64::MAX] {
        let d = quantity_to_decimal(q);
        assert_eq!((d.mantissa(), d.scale()), (q as i128, 8));
        assert_eq!(quantity_from_decimal(&d), Some(q));
    }
    let t: u128 = 0xFFFF_FFFF_FFFF_FFFF_FFFF_FFFF;
    let d = total_to_decimal(t).unwrap();
    assert_eq!((d.mantissa(), d.scale()), (t as i128, 8));
    assert_eq!(total_to_decimal(t + 1), None);
}
