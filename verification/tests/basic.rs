use zhl_algorithm_template_rs::math::basic::from_to::{
    default_i128u128, default_i16u16, default_i32u32, default_i64u64, default_i8u8,
    default_u128i128, default_u16i16, default_u32i32, default_u64i64, default_u8i8, i128u128,
    i16u16, i32u32, i64u64, i8u8, u128i128, u16i16, u32i32, u64i64, u8i8,
};
use zhl_algorithm_template_rs::math::basic::{
    add_mod_u32, add_mod_u64, gcd_u128, gcd_u32, gcd_u64, mul_mod_u32, mul_mod_u64, pow_mod_u32,
    pow_mod_u64, sub_mod_u32, sub_mod_u64,
};

#[test]
fn add_mod_wraps_once() {
    assert_eq!(add_mod_u32(&3, &4, &10), 7);
    assert_eq!(add_mod_u32(&6, &4, &10), 0);
    assert_eq!(add_mod_u32(&9, &9, &10), 8);
    assert_eq!(add_mod_u32(&0, &0, &1), 0);
    assert_eq!(add_mod_u32(&4294967294, &4294967294, &4294967295), 4294967293);
    assert_eq!(add_mod_u64(&3, &4, &10), 7);
    assert_eq!(add_mod_u64(&9, &1, &10), 0);
    assert_eq!(
        add_mod_u64(&18446744073709551614, &18446744073709551613, &18446744073709551615),
        18446744073709551612
    );
}

#[test]
fn sub_mod_wraps_once() {
    assert_eq!(sub_mod_u32(&7, &4, &10), 3);
    assert_eq!(sub_mod_u32(&4, &7, &10), 7);
    assert_eq!(sub_mod_u32(&0, &9, &10), 1);
    assert_eq!(sub_mod_u32(&5, &5, &10), 0);
    assert_eq!(sub_mod_u32(&0, &4294967294, &4294967295), 1);
    assert_eq!(sub_mod_u64(&4, &7, &10), 7);
    assert_eq!(sub_mod_u64(&0, &18446744073709551614, &18446744073709551615), 1);
}

#[test]
fn mul_mod_uses_the_wide_product() {
    assert_eq!(mul_mod_u32(&7, &8, &10), 6);
    assert_eq!(mul_mod_u32(&4294967295, &4294967295, &4294967291), 16);
    assert_eq!(mul_mod_u32(&0, &5, &7), 0);
    assert_eq!(mul_mod_u64(&7, &8, &10), 6);
    assert_eq!(
        mul_mod_u64(&18446744073709551615, &18446744073709551615, &18446744073709551557),
        3364
    );
    assert_eq!(mul_mod_u64(&123456789012345678, &987654321098765432, &1000000007), 854595951);
}

#[test]
fn pow_mod_values() {
    assert_eq!(pow_mod_u32(&2, &10, &1000), 24);
    assert_eq!(pow_mod_u32(&3, &0, &7), 1);
    assert_eq!(pow_mod_u32(&3, &0, &1), 1);
    assert_eq!(pow_mod_u32(&0, &5, &7), 0);
    assert_eq!(pow_mod_u32(&5, &1, &1), 0);
    assert_eq!(pow_mod_u32(&2, &4294967290, &4294967291), 1);
    assert_eq!(pow_mod_u32(&4294967295, &4294967295, &4294967291), 1024);
    assert_eq!(pow_mod_u64(&2, &10, &1000), 24);
    assert_eq!(pow_mod_u64(&7, &0, &0), 1);
    assert_eq!(pow_mod_u64(&2, &1000000006, &1000000007), 1);
    assert_eq!(pow_mod_u64(&2, &18446744073709551556, &18446744073709551557), 1);
    assert_eq!(
        pow_mod_u64(&18446744073709551615, &18446744073709551615, &18446744073709551557),
        4959809447704153900
    );
}

#[test]
fn gcd_values() {
    assert_eq!(gcd_u32(12, 18), 6);
    assert_eq!(gcd_u32(18, 12), 6);
    assert_eq!(gcd_u32(0, 0), 0);
    assert_eq!(gcd_u32(0, 9), 9);
    assert_eq!(gcd_u32(9, 0), 9);
    assert_eq!(gcd_u32(17, 5), 1);
    assert_eq!(gcd_u32(4294967295, 65537), 65537);
    assert_eq!(gcd_u64(12, 18), 6);
    assert_eq!(gcd_u64(0, 0), 0);
    assert_eq!(gcd_u64(998244359987710471, 1000000007), 1000000007);
    assert_eq!(gcd_u64(18446744073709551615, 6700417), 6700417);
    assert_eq!(gcd_u128(12, 18), 6);
    assert_eq!(gcd_u128(0, 7), 7);
    assert_eq!(
        gcd_u128(340282366920938463463374607431768211455, 18446744073709551615),
        18446744073709551615
    );
}

#[test]
fn gcd_divides_both_and_is_greatest() {
    for a in 0u32..60 {
        for b in 0u32..60 {
            let g = gcd_u32(a, b);
            if a == 0 && b == 0 {
                assert_eq!(g, 0);
                continue;
            }
            assert!(a % g == 0 && b % g == 0);
            for c in g + 1..=60 {
                assert!(a % c != 0 || b % c != 0);
            }
            assert_eq!(gcd_u64(a as u64, b as u64), g as u64);
            assert_eq!(gcd_u128(a as u128, b as u128), g as u128);
        }
    }
}

#[test]
fn shifting_conversions_keep_the_order() {
    assert_eq!(u8i8(0), -128);
    assert_eq!(u8i8(127), -1);
    assert_eq!(u8i8(128), 0);
    assert_eq!(u8i8(255), 127);
    assert_eq!(i8u8(-128), 0);
    assert_eq!(i8u8(-1), 127);
    assert_eq!(i8u8(0), 128);
    assert_eq!(i8u8(127), 255);
    assert_eq!(u16i16(0), i16::MIN);
    assert_eq!(u16i16(32768), 0);
    assert_eq!(u16i16(65535), i16::MAX);
    assert_eq!(i16u16(i16::MIN), 0);
    assert_eq!(i16u16(0), 32768);
    assert_eq!(i16u16(i16::MAX), 65535);
    assert_eq!(u32i32(0), i32::MIN);
    assert_eq!(u32i32(2147483648), 0);
    assert_eq!(u32i32(u32::MAX), i32::MAX);
    assert_eq!(i32u32(i32::MIN), 0);
    assert_eq!(i32u32(-1), 2147483647);
    assert_eq!(i32u32(i32::MAX), u32::MAX);
    assert_eq!(u64i64(0), i64::MIN);
    assert_eq!(u64i64(9223372036854775808), 0);
    assert_eq!(u64i64(u64::MAX), i64::MAX);
    assert_eq!(i64u64(i64::MIN), 0);
    assert_eq!(i64u64(0), 9223372036854775808);
    assert_eq!(i64u64(i64::MAX), u64::MAX);
    assert_eq!(u128i128(0), i128::MIN);
    assert_eq!(u128i128(1 << 127), 0);
    assert_eq!(u128i128(u128::MAX), i128::MAX);
    assert_eq!(i128u128(i128::MIN), 0);
    assert_eq!(i128u128(0), 1 << 127);
    assert_eq!(i128u128(i128::MAX), u128::MAX);
}

#[test]
fn shifting_conversions_are_inverse_and_monotone() {
    let mut last = u8i8(0);
    for x in 0..=255u8 {
        assert_eq!(i8u8(u8i8(x)), x);
        if x > 0 {
            assert!(u8i8(x) > last);
        }
        last = u8i8(x);
    }
    for x in [0u16, 1, 32767, 32768, 65535] {
        assert_eq!(i16u16(u16i16(x)), x);
    }
    for x in [0u32, 1, 2147483647, 2147483648, u32::MAX] {
        assert_eq!(i32u32(u32i32(x)), x);
    }
    for x in [0u64, 1, 9223372036854775807, 9223372036854775808, u64::MAX] {
        assert_eq!(i64u64(u64i64(x)), x);
    }
    for x in [0u128, 1, (1 << 127) - 1, 1 << 127, u128::MAX] {
        assert_eq!(i128u128(u128i128(x)), x);
    }
}

#[test]
fn default_conversions_keep_the_bits() {
    for x in 0..=255u8 {
        assert_eq!(default_u8i8(x), x as i8);
        assert_eq!(default_i8u8(x as i8), x);
    }
    for x in [0u16, 1, 32767, 32768, 65535] {
        assert_eq!(default_u16i16(x), x as i16);
        assert_eq!(default_i16u16(x as i16), x);
    }
    for x in [0u32, 1, 2147483647, 2147483648, u32::MAX] {
        assert_eq!(default_u32i32(x), x as i32);
        assert_eq!(default_i32u32(x as i32), x);
    }
    for x in [0u64, 1, 9223372036854775807, 9223372036854775808, u64::MAX] {
        assert_eq!(default_u64i64(x), x as i64);
        assert_eq!(default_i64u64(x as i64), x);
    }
    for x in [0u128, 1, (1 << 127) - 1, 1 << 127, u128::MAX] {
        assert_eq!(default_u128i128(x), x as i128);
        assert_eq!(default_i128u128(x as i128), x);
    }
    assert_eq!(default_u8i8(200), -56);
    assert_eq!(default_i8u8(-1), 255);
    assert_eq!(default_i64u64(-2), 18446744073709551614);
}
