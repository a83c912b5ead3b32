use btclib::u256::U256;

fn big(l3: u64, l2: u64, l1: u64, l0: u64) -> U256 {
    U256 { l0, l1, l2, l3 }
}

#[test]
fn from_u64_sets_lowest_limb() {
    let v = U256::from_u64(42);
    assert_eq!((v.l0, v.l1, v.l2, v.l3), (42, 0, 0, 0));
}

#[test]
fn ordering_compares_high_limbs_first() {
    let a = big(0, 1, 0, 0);
    let b = big(0, 0, u64::MAX, u64::MAX);
    assert!(b.lt(&a));
    assert!(b.le(&a));
    assert!(!a.le(&b));
    assert!(a.le(&a));
    assert!(!a.lt(&a));
}

#[test]
fn multiplication_carries_between_limbs() {
    let a = big(0, 0, 0, u64::MAX);
    let p = a.mul_u64(2);
    assert_eq!((p.l0, p.l1, p.l2, p.l3), (u64::MAX - 1, 1, 0, 0));
}

#[test]
fn checked_multiplication_detects_overflow() {
    let top = big(1 << 63, 0, 0, 0);
    assert!(top.checked_mul_u64(2).is_none());
    let ok = top.checked_mul_u64(1).unwrap();
    assert!(ok.same(&top));
}

#[test]
fn division_rounds_down() {
    let a = big(0, 0, 1, 0);
    let q = a.div_u64(3);
    assert_eq!((q.l0, q.l1), (0x5555_5555_5555_5555, 0));
    let seven = U256::from_u64(7).div_u64(2);
    assert_eq!(seven.l0, 3);
}

#[test]
fn min_and_clamp() {
    let lo = U256::from_u64(10);
    let hi = U256::from_u64(20);
    assert_eq!(U256::from_u64(5).clamp(lo, hi).l0, 10);
    assert_eq!(U256::from_u64(25).clamp(lo, hi).l0, 20);
    assert_eq!(U256::from_u64(15).clamp(lo, hi).l0, 15);
    assert_eq!(lo.min(hi).l0, 10);
}

#[test]
fn hex_digits_read_big_endian() {
    let digits = b"000000000000000000000000000000000000000000000000000000000000ff01";
    let v = U256::from_hex64(digits);
    assert_eq!((v.l0, v.l1, v.l2, v.l3), (0xff01, 0, 0, 0));
    let digits = b"1000000000000000000000000000000000000000000000000000000000000000";
    let v = U256::from_hex64(digits);
    assert_eq!((v.l0, v.l1, v.l2, v.l3), (0, 0, 0, 0x1000_0000_0000_0000));
}

#[test]
fn be_bytes_put_the_high_limb_first() {
    let v = big(1, 0, 0, 2);
    let b = v.to_be_bytes();
    assert_eq!(b[7], 1);
    assert_eq!(b[31], 2);
    assert_eq!(b.iter().map(|x| *x as u32).sum::<u32>(), 3);
}

#[test]
fn min_target_is_two_to_the_240_minus_one() {
    let t = btclib::min_target();
    assert_eq!((t.l0, t.l1, t.l2, t.l3), (u64::MAX, u64::MAX, u64::MAX, 0x0000_FFFF_FFFF_FFFF));
}
