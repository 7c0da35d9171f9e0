use aat::fixed::FloatAsLong;

#[test]
fn test_eq_from_int() {
    let f1 = FloatAsLong::from_int(5);
    let f2 = FloatAsLong::from_int(5);
    assert_eq!(f1, f2);
}

#[test]
fn test_add_from_int() {
    let f1 = FloatAsLong::from_int(12);
    let f2 = FloatAsLong::from_int(34);
    let f3 = FloatAsLong::from_int(46);
    assert_eq!(f1.add(f2), f3);
}

#[test]
fn test_sub_from_int() {
    let f1 = FloatAsLong::from_int(46);
    let f2 = FloatAsLong::from_int(34);
    assert_eq!(f1.sub(f2), FloatAsLong::from_int(12));
}

#[test]
fn test_cmp_from_int() {
    let f1 = FloatAsLong::from_int(12);
    let f2 = FloatAsLong::from_int(34);
    assert_eq!(f1.lt(f2), true);
    assert_eq!(f2.lt(f1), false);
    assert_eq!(f1.le(f1), true);
}

#[test]
fn test_assign_from_int() {
    let mut f1 = FloatAsLong::from_int(12);
    let f2 = FloatAsLong::from_int(46);
    f1.add_assign(FloatAsLong::from_int(34));
    assert_eq!(f1, f2);
}

#[test]
fn test_sum() {
    let values = vec![
        FloatAsLong::from_int(1),
        FloatAsLong::from_int(2),
        FloatAsLong::from_int(3),
    ];
    assert_eq!(FloatAsLong::sum(&values), FloatAsLong::from_int(6));
    let empty: Vec<FloatAsLong> = Vec::new();
    assert_eq!(FloatAsLong::sum(&empty), FloatAsLong::zero());
}

#[test]
fn test_scaled_value() {
    // the fixed multiplier is one million
    assert_eq!(FloatAsLong::from_int(5).value, 5_000_000);
    assert_eq!(FloatAsLong::zero().value, 0);
    assert_eq!(FloatAsLong::infinity().value, i64::MAX);
}
