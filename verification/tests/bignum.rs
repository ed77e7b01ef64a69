use bposit_calc::bignum::Big;

#[test]
fn small_values() {
    assert_eq!(Big::from_u64(0).to_decimal(), "0");
    assert_eq!(Big::from_u64(1).to_decimal(), "1");
    assert_eq!(Big::from_u64(1_000_000_000).to_decimal(), "1000000000");
    assert_eq!(Big::from_u64(u64::MAX).to_decimal(), "18446744073709551615");
}

#[test]
fn shifting() {
    let mut b = Big::from_u64(1);
    b.shl_bits(64);
    assert_eq!(b.to_decimal(), "18446744073709551616");
    let mut b = Big::from_u64(3);
    b.shl_bits(100);
    assert_eq!(b.to_decimal(), "3802951800684688204490109616128");
}

#[test]
fn powers_of_five() {
    let mut b = Big::from_u64(1);
    b.mul_pow5(0);
    assert_eq!(b.to_decimal(), "1");
    let mut b = Big::from_u64(1);
    b.mul_pow5(13);
    assert_eq!(b.to_decimal(), "1220703125");
    // 5^40, spanning several chunks
    let mut b = Big::from_u64(1);
    b.mul_pow5(40);
    assert_eq!(b.to_decimal(), "9094947017729282379150390625");
}

#[test]
fn zero_is_absorbing() {
    let mut b = Big::from_u64(0);
    b.shl_bits(500);
    b.mul_pow5(500);
    assert!(b.is_zero());
    assert_eq!(b.to_decimal(), "0");
}

#[test]
fn arithmetic_round_trips() {
    let mut a = Big::from_u64(123_456_789_012_345);
    a.mul_u32(1000);
    a.add_u32(678);
    assert_eq!(a.to_decimal(), "123456789012345678");
    let b = Big::from_u64(u64::MAX);
    let mut c = a.mul_big(&b);
    assert_eq!(c.to_decimal(), "2277375791072698123500090624763169970");
    c.sub_assign(&a);
    let (q, r) = c.divmod_big(&a);
    assert_eq!(q.to_decimal(), "18446744073709551614");
    assert!(r.is_zero());
    let mut d = Big::from_u64(1_000_000_007);
    let rem = d.divmod_u32(10);
    assert_eq!(rem, 7);
    assert_eq!(d.to_decimal(), "100000000");
}

#[test]
fn shifting_right_undoes_shifting_left() {
    let mut b = Big::from_u64(0xdead_beef);
    b.shl_bits(77);
    b.shr_bits(77);
    assert_eq!(b.to_decimal(), "3735928559");
    b.shr_bits(4);
    assert_eq!(b.to_decimal(), "233495534");
    assert!(!b.is_one());
    assert!(Big::one().is_one());
    assert!(b.is_even());
}
