use pursuit::natural::Natural;

#[test]
fn zero_is_zero() {
    assert!(Natural::zero().is_zero());
    assert_eq!(Natural::zero().to_u64(), Some(0));
}

#[test]
fn small_sums_and_products() {
    let a = Natural::from_u64(7);
    let b = Natural::from_u64(35);
    assert_eq!(a.plus(&b).to_u64(), Some(42));
    assert_eq!(a.times(6).to_u64(), Some(42));
    assert_eq!(a.times(0).to_u64(), Some(0));
    assert!(a.less_than(&b));
    assert!(!b.less_than(&a));
    assert!(!a.equals(&b));
}

#[test]
fn carries_run_into_the_next_digit() {
    let top = Natural::from_u64(u64::MAX);
    let one = Natural::from_u64(1);
    let over = top.plus(&one);
    assert_eq!(over.to_u64(), None);
    assert!(top.less_than(&over));
    let twice = top.times(2);
    assert!(twice.equals(&top.plus(&top)));
    assert!(over.less_than(&twice));
    let square = top.times(u64::MAX);
    let mut sum = Natural::zero();
    for _ in 0..5 {
        sum = sum.plus(&square);
    }
    assert!(sum.equals(&square.times(5)));
}
