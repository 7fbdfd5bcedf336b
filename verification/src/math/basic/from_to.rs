//! Conversions between unsigned and signed integers of one width.
//!
//! The plain conversions shift by half the value space, so they keep the
//! order of the values: the smallest unsigned value becomes the smallest
//! signed one. The `default_` conversions keep the bits instead.
use vstd::prelude::*;

verus! {

/// Maps `u8` onto `i8` by subtracting half the value space.
#[inline(always)]
pub fn u8i8(x: u8) -> (r: i8)
    ensures
        r == x - 128,
{
    if x >= 128 {
        (x - 128) as i8
    } else {
        (x as i8) - 127 - 1
    }
}

/// Maps `i8` onto `u8` by adding half the value space.
#[inline(always)]
pub fn i8u8(x: i8) -> (r: u8)
    ensures
        r == x + 128,
{
    if x < 0 {
        (x + 127 + 1) as u8
    } else {
        (x as u8) + 128
    }
}

/// Maps `u16` onto `i16` by subtracting half the value space.
#[inline(always)]
pub fn u16i16(x: u16) -> (r: i16)
    ensures
        r == x - 32768,
{
    if x >= 32768 {
        (x - 32768) as i16
    } else {
        (x as i16) - 32767 - 1
    }
}

/// Maps `i16` onto `u16` by adding half the value space.
#[inline(always)]
pub fn i16u16(x: i16) -> (r: u16)
    ensures
        r == x + 32768,
{
    if x < 0 {
        (x + 32767 + 1) as u16
    } else {
        (x as u16) + 32768
    }
}

/// Maps `u32` onto `i32` by subtracting half the value space.
#[inline(always)]
pub fn u32i32(x: u32) -> (r: i32)
    ensures
        r == x - 2147483648,
{
    if x >= 2147483648 {
        (x - 2147483648) as i32
    } else {
        (x as i32) - 2147483647 - 1
    }
}

/// Maps `i32` onto `u32` by adding half the value space.
#[inline(always)]
pub fn i32u32(x: i32) -> (r: u32)
    ensures
        r == x + 2147483648,
{
    if x < 0 {
        (x + 2147483647 + 1) as u32
    } else {
        (x as u32) + 2147483648
    }
}

/// Maps `u64` onto `i64` by subtracting half the value space.
#[inline(always)]
pub fn u64i64(x: u64) -> (r: i64)
    ensures
        r == x - 9223372036854775808,
{
    if x >= 9223372036854775808 {
        (x - 9223372036854775808) as i64
    } else {
        (x as i64) - 9223372036854775807 - 1
    }
}

/// Maps `i64` onto `u64` by adding half the value space.
#[inline(always)]
pub fn i64u64(x: i64) -> (r: u64)
    ensures
        r == x + 9223372036854775808,
{
    if x < 0 {
        (x + 9223372036854775807 + 1) as u64
    } else {
        (x as u64) + 9223372036854775808
    }
}

/// Maps `u128` onto `i128` by subtracting half the value space.
#[inline(always)]
pub fn u128i128(x: u128) -> (r: i128)
    ensures
        r == x - 170141183460469231731687303715884105728,
{
    if x >= 170141183460469231731687303715884105728 {
        (x - 170141183460469231731687303715884105728) as i128
    } else {
        (x as i128) - 170141183460469231731687303715884105727 - 1
    }
}

/// Maps `i128` onto `u128` by adding half the value space.
#[inline(always)]
pub fn i128u128(x: i128) -> (r: u128)
    ensures
        r == x + 170141183460469231731687303715884105728,
{
    if x < 0 {
        (x + 170141183460469231731687303715884105727 + 1) as u128
    } else {
        (x as u128) + 170141183460469231731687303715884105728
    }
}

/// Reads the bits of a `u8` as a two's-complement `i8`.
#[inline(always)]
pub fn default_u8i8(x: u8) -> (r: i8)
    ensures
        r == if x <= 127 {
            x as int
        } else {
            x - 256
        },
{
    if x <= 127 {
        x as i8
    } else {
        (x - 128) as i8 - 127 - 1
    }
}

/// Reads the two's-complement bits of an `i8` as a `u8`.
#[inline(always)]
pub fn default_i8u8(x: i8) -> (r: u8)
    ensures
        r == if x >= 0 {
            x as int
        } else {
            x + 256
        },
{
    if x >= 0 {
        x as u8
    } else {
        (x + 127 + 1) as u8 + 128
    }
}

/// Reads the bits of a `u16` as a two's-complement `i16`.
#[inline(always)]
pub fn default_u16i16(x: u16) -> (r: i16)
    ensures
        r == if x <= 32767 {
            x as int
        } else {
            x - 65536
        },
{
    if x <= 32767 {
        x as i16
    } else {
        (x - 32768) as i16 - 32767 - 1
    }
}

/// Reads the two's-complement bits of an `i16` as a `u16`.
#[inline(always)]
pub fn default_i16u16(x: i16) -> (r: u16)
    ensures
        r == if x >= 0 {
            x as int
        } else {
            x + 65536
        },
{
    if x >= 0 {
        x as u16
    } else {
        (x + 32767 + 1) as u16 + 32768
    }
}

/// Reads the bits of a `u32` as a two's-complement `i32`.
#[inline(always)]
pub fn default_u32i32(x: u32) -> (r: i32)
    ensures
        r == if x <= 2147483647 {
            x as int
        } else {
            x - 4294967296
        },
{
    if x <= 2147483647 {
        x as i32
    } else {
        (x - 2147483648) as i32 - 2147483647 - 1
    }
}

/// Reads the two's-complement bits of an `i32` as a `u32`.
#[inline(always)]
pub fn default_i32u32(x: i32) -> (r: u32)
    ensures
        r == if x >= 0 {
            x as int
        } else {
            x + 4294967296
        },
{
    if x >= 0 {
        x as u32
    } else {
        (x + 2147483647 + 1) as u32 + 2147483648
    }
}

/// Reads the bits of a `u64` as a two's-complement `i64`.
#[inline(always)]
pub fn default_u64i64(x: u64) -> (r: i64)
    ensures
        r == if x <= 9223372036854775807 {
            x as int
        } else {
            x - 18446744073709551616
        },
{
    if x <= 9223372036854775807 {
        x as i64
    } else {
        (x - 9223372036854775808) as i64 - 9223372036854775807 - 1
    }
}

/// Reads the two's-complement bits of an `i64` as a `u64`.
#[inline(always)]
pub fn default_i64u64(x: i64) -> (r: u64)
    ensures
        r == if x >= 0 {
            x as int
        } else {
            x + 18446744073709551616
        },
{
    if x >= 0 {
        x as u64
    } else {
        (x + 9223372036854775807 + 1) as u64 + 9223372036854775808
    }
}

/// Reads the bits of a `u128` as a two's-complement `i128`.
#[inline(always)]
pub fn default_u128i128(x: u128) -> (r: i128)
    ensures
        r == if x <= 170141183460469231731687303715884105727 {
            x as int
        } else {
            x - 340282366920938463463374607431768211456
        },
{
    if x <= 170141183460469231731687303715884105727 {
        x as i128
    } else {
        let low = (x - 170141183460469231731687303715884105728) as i128;
        low - 170141183460469231731687303715884105727 - 1
    }
}

/// Reads the two's-complement bits of an `i128` as a `u128`.
#[inline(always)]
pub fn default_i128u128(x: i128) -> (r: u128)
    ensures
        r == if x >= 0 {
            x as int
        } else {
            x + 340282366920938463463374607431768211456
        },
{
    if x >= 0 {
        x as u128
    } else {
        let low = (x + 170141183460469231731687303715884105727 + 1) as u128;
        low + 170141183460469231731687303715884105728
    }
}

} // verus!
