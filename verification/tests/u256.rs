
use btclib::u256::U256;

fn value(x: &U256) -> (u64, u64, u64, u64) {
    (x.w3, x.w2, x.w1, x.w0)
}

#[test]
fn u256_div4_and_mul4() {
    let x = U256::from_words(7, 5, 3, 1);
    let q = x.div4();
    // 1*2^192 + 3*2^128 + 5*2^64 + 7, divided by 4
    assert_eq!(value(&q), (0, 0x4000_0000_0000_0000, 0xC000_0000_0000_0001, 0x4000_0000_0000_0001));
    let m = q.mul4();
    assert_eq!(value(&m), (1, 3, 5, 4));
}

#[test]
fn u256_compare_and_min() {
    let a = U256::from_words(0, 0, 0, 1);
    let b = U256::from_words(u64::MAX, u64::MAX, u64::MAX, 0);
    assert!(b.lt(&a));
    assert!(b.le(&a));
    assert!(!a.le(&b));
    assert!(a.le(&a));
    assert!(!a.lt(&a));
    assert_eq!(a.min(&b), b);
    assert_eq!(b.min(&a), b);
}

#[test]
fn u256_div_rem_small() {
    let x = U256::from_words(1001, 0, 0, 0);
    let (q, r) = x.div_rem_small(500);
    assert_eq!(value(&q), (0, 0, 0, 2));
    assert_eq!(r, 1);
    let y = U256::from_words(0, 1, 0, 0);
    let (q, r) = y.div_rem_small(3);
    assert_eq!(value(&q), (0, 0, 0, 0x5555_5555_5555_5555));
    assert_eq!(r, 1);
}

#[test]
fn u256_checked_mul_and_add() {
    let x = U256::from_words(u64::MAX, 0, 0, 0);
    let p = x.checked_mul_small(2).unwrap();
    assert_eq!(value(&p), (0, 0, 1, u64::MAX - 1));
    let top = U256::from_words(0, 0, 0, 1 << 63);
    assert!(top.checked_mul_small(2).is_none());
    let s = x.checked_add_small(1).unwrap();
    assert_eq!(value(&s), (0, 0, 1, 0));
    let max = U256::from_words(u64::MAX, u64::MAX, u64::MAX, u64::MAX);
    assert!(max.checked_add_small(1).is_none());
}

#[test]
fn u256_byte_order() {
    let bytes: Vec<u8> = (1..=32u8).collect();
    let x = U256::from_big_endian(&bytes);
    assert_eq!(x.w3, 0x0102_0304_0506_0708);
    assert_eq!(x.w0, 0x191A_1B1C_1D1E_1F20);
    let le = x.to_little_endian();
    let mut rev = bytes.clone();
    rev.reverse();
    assert_eq!(le.to_vec(), rev);
    assert_eq!(btclib::sha256::Hash(x).as_bytes().to_vec(), rev);
}
