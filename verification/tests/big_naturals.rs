use tiny_interp::bignat::{BigNat, Order};

fn big(v: u128) -> BigNat {
    BigNat::from_u128(v)
}

fn same(a: &BigNat, v: u128) -> bool {
    a.compare(&big(v)) == Order::Same
}

#[test]
fn sums_and_differences_are_exact() {
    let pairs: Vec<(u128, u128)> = vec![
        (0, 0),
        (1, 0),
        (0xFFFF_FFFF, 1),
        (0xFFFF_FFFF_FFFF_FFFF, 1),
        (0xFFFF_FFFF_FFFF_FFFF_FFFF_FFFF, 0xFFFF_FFFF_FFFF_FFFF),
        (1 << 100, (1 << 100) - 1),
        (123456789012345678901234567890, 98765432109876543210),
    ];
    for (a, b) in pairs {
        assert!(same(&big(a).add(&big(b)), a + b));
        assert!(same(&big(a).sub(&big(b)), a - b));
        assert!(same(&big(a).sub(&big(a)), 0));
    }
}

#[test]
fn products_shifts_and_quotients_are_exact() {
    let values: Vec<u128> = vec![0, 1, 9, 10, 0xFFFF_FFFF, 1 << 32, 12345678901234567890, 1 << 90];
    for v in values {
        assert!(same(&big(v).mul_small_add(10, 7), v * 10 + 7));
        assert!(same(&big(v).mul_small_add(0xFFFF_FFFF, 0xFFFF_FFFF), v * 0xFFFF_FFFF + 0xFFFF_FFFF));
        assert!(same(&big(v).mul_small_add(0, 0), 0));
        for k in [0usize, 1, 5, 31, 32, 33] {
            assert!(same(&big(v).shl(k), v << k));
        }
        for d in [1u32, 2, 10, 1_000_000_007, u32::MAX] {
            let (q, r) = big(v).divrem_small(d);
            assert!(same(&q, v / d as u128));
            assert_eq!(r as u128, v % d as u128);
        }
        assert_eq!(big(v).bit_length(), (128 - v.leading_zeros()) as u128);
        assert_eq!(big(v).is_zero(), v == 0);
        assert!(same(&big(v).duplicate(), v));
    }
    assert!(same(&BigNat::zero(), 0));
    assert!(same(&BigNat::from_u64(u64::MAX), u64::MAX as u128));
}

#[test]
fn numbers_beyond_128_bits() {
    let one = BigNat::from_u64(1);
    let high = one.shl(200);
    let (q, r) = high.divrem_small(1 << 20);
    assert_eq!(r, 0);
    assert_eq!(q.compare(&one.shl(180)), Order::Same);
    assert_eq!(high.bit_length(), 201);
    assert_eq!(high.compare(&one.shl(199)), Order::Above);
    assert_eq!(one.shl(199).compare(&high), Order::Below);
    let below = high.sub(&one);
    assert_eq!(below.bit_length(), 200);
    assert_eq!(below.add(&one).compare(&high), Order::Same);
}
