use gbm_pricer::natural::Natural;

fn of(x: u64) -> Natural {
    Natural::from_u64(x)
}

#[test]
fn one_limb() {
    assert_eq!(of(0).limbs, vec![0]);
    assert_eq!(of(7).limbs, vec![7]);
    assert_eq!(of(7).times(6).limbs, vec![42]);
    assert_eq!(of(7).times(0).limbs, vec![0]);
}

#[test]
fn product_carries_into_the_next_limb() {
    // (2^64 - 1)^2 = 2^128 - 2^65 + 1
    assert_eq!(of(u64::MAX).times(u64::MAX).limbs, vec![1, u64::MAX - 1]);
    // 2^63 * 2 = 2^64
    assert_eq!(of(1 << 63).times(2).limbs, vec![0, 1]);
    // 2^64 * 2^63 * 2 = 2^128
    assert_eq!(of(1 << 63).times(2).times(1 << 63).times(2).limbs, vec![0, 0, 1]);
}

#[test]
fn ten_to_the_twentieth() {
    let mut n = of(1);
    for _ in 0..20 {
        n = n.times(10);
    }
    // 10^20 = 5 * 2^64 + 7766279631452241920
    assert_eq!(n.limbs, vec![7766279631452241920, 5]);
}

#[test]
fn order() {
    assert!(of(3).at_most(&of(3)));
    assert!(of(3).at_most(&of(4)));
    assert!(!of(4).at_most(&of(3)));
    assert!(of(0).at_most(&of(0)));
    let big = of(u64::MAX).times(u64::MAX);
    let bigger = of(1 << 63).times(2).times(1 << 63).times(2);
    assert!(big.at_most(&bigger));
    assert!(!bigger.at_most(&big));
    assert!(of(u64::MAX).at_most(&big));
    assert!(!big.at_most(&of(u64::MAX)));
    assert!(big.at_most(&big));
}

#[test]
fn order_ignores_zero_limbs_on_top() {
    let padded = Natural { limbs: vec![5, 0, 0] };
    assert!(padded.at_most(&of(5)));
    assert!(of(5).at_most(&padded));
    assert!(!padded.at_most(&of(4)));
    assert!(of(4).at_most(&padded));
    let empty = Natural { limbs: vec![] };
    assert!(empty.at_most(&of(0)));
    assert!(of(0).at_most(&empty));
    assert!(!of(1).at_most(&empty));
}

#[test]
fn higher_limb_decides() {
    let a = Natural { limbs: vec![u64::MAX, 1] };
    let b = Natural { limbs: vec![0, 2] };
    assert!(a.at_most(&b));
    assert!(!b.at_most(&a));
}
