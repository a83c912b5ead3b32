use btclib::u256::U256;

#[test]
fn hash_of_empty_input_is_the_sha256_digest() {
    // SHA-256("") = e3b0c442 98fc1c14 9afbf4c8 996fb924 27ae41e4 649b934c a495991b 7852b855
    let h = btclib::sha256::Hash::hash(&[]);
    assert_eq!(h.0.l3, 0xe3b0c44298fc1c14);
    assert_eq!(h.0.l2, 0x9afbf4c8996fb924);
    assert_eq!(h.0.l1, 0x27ae41e4649b934c);
    assert_eq!(h.0.l0, 0xa495991b7852b855);
}

#[test]
fn hash_of_abc() {
    // SHA-256("abc") = ba7816bf 8f01cfea 414140de 5dae2223 b00361a3 96177a9c b410ff61 f20015ad
    let h = btclib::sha256::Hash::hash(b"abc");
    assert_eq!(h.0.l3, 0xba7816bf8f01cfea);
    assert_eq!(h.0.l0, 0xb410ff61f20015ad);
    let b = h.as_bytes();
    assert_eq!(b[0], 0xba);
    assert_eq!(b[31], 0xad);
}

#[test]
fn matches_target_is_at_most() {
    let h = btclib::sha256::Hash(U256::from_u64(100));
    assert!(h.matches_target(U256::from_u64(100)));
    assert!(h.matches_target(U256::from_u64(101)));
    assert!(!h.matches_target(U256::from_u64(99)));
}

#[test]
fn matches_target_grows_with_the_target() {
    let h = btclib::sha256::Hash::hash(b"block");
    let t = h.0;
    assert!(h.matches_target(t));
    assert!(!h.matches_target(U256::zero()) || h.0.same(&U256::zero()));
}

#[test]
fn zero_hash_and_equality() {
    let z = btclib::sha256::Hash::zero();
    assert!(z.same(&btclib::sha256::Hash(U256::zero())));
    assert!(!z.same(&btclib::sha256::Hash::hash(b"x")));
}

#[test]
fn hash_prints_as_64_digits_with_leading_zeros() {
    let small = btclib::sha256::Hash(btclib::u256::U256 { l0: 0xab, l1: 0, l2: 0, l3: 0 });
    let text = String::from_utf8(small.to_hex()).unwrap();
    assert_eq!(text.len(), 64);
    assert_eq!(text, format!("{}ab", "0".repeat(62)));
    let big = btclib::sha256::Hash(btclib::u256::U256 {
        l0: 0x0123_4567_89ab_cdef,
        l1: 0,
        l2: 0xfedc_ba98_7654_3210,
        l3: 0x0000_00ff_0000_0001,
    });
    assert_eq!(
        String::from_utf8(big.to_hex()).unwrap(),
        "000000ff00000001fedcba987654321000000000000000000123456789abcdef"
    );
    assert_eq!(String::from_utf8(btclib::sha256::Hash::zero().to_hex()).unwrap(), "0".repeat(64));
}

#[test]
fn hex_digits_read_back_to_the_same_number() {
    let h = btclib::sha256::Hash::hash(b"round trip");
    let back = btclib::u256::U256::from_hex64(&h.to_hex());
    assert!(back.same(&h.0));
}
