//! Casts between integer types that keep the low bits.
//!
//! The database holds signed 64-bit integers only; counters and user ids are unsigned. Each cast is
//! given the number that it yields, and the round trips through the database are lossless.
use vstd::prelude::*;

verus! {

/// The number that `x as i64` yields.
pub open spec fn as_i64(x: u64) -> int {
    if x <= i64::MAX {
        x as int
    } else {
        x - 0x1_0000_0000_0000_0000
    }
}

/// The number that `x as u64` yields.
pub open spec fn as_u64(x: i64) -> int {
    if x >= 0 {
        x as int
    } else {
        x + 0x1_0000_0000_0000_0000
    }
}

/// The number that `x as i32` yields.
pub open spec fn as_i32(x: u32) -> int {
    if x <= i32::MAX {
        x as int
    } else {
        x - 0x1_0000_0000
    }
}

/// The number that `x as u32` yields.
pub open spec fn as_u32(x: i64) -> int {
    x as int % 0x1_0000_0000
}

pub fn u64_as_i64(x: u64) -> (y: i64)
    ensures
        y == as_i64(x),
        y == x as i64,
{
    assert(x as i64 == (if x <= i64::MAX as u64 { x as int } else { x - 0x1_0000_0000_0000_0000 }))
        by (bit_vector);
    x as i64
}

pub fn i64_as_u64(x: i64) -> (y: u64)
    ensures
        y == as_u64(x),
        y == x as u64,
{
    assert(x as u64 == (if x >= 0 { x as int } else { x + 0x1_0000_0000_0000_0000 }))
        by (bit_vector);
    x as u64
}

pub fn u32_as_i32(x: u32) -> (y: i32)
    ensures
        y == as_i32(x),
        y == x as i32,
{
    assert(x as i32 == (if x <= i32::MAX as u32 { x as int } else { x - 0x1_0000_0000 }))
        by (bit_vector);
    x as i32
}

pub fn i64_as_u32(x: i64) -> (y: u32)
    ensures
        y == as_u32(x),
        y == x as u32,
{
    assert(x as u32 == x % 0x1_0000_0000) by (bit_vector);
    x as u32
}

/// The number that `x as u32` yields.
pub open spec fn low_u32(x: u64) -> int {
    x as int % 0x1_0000_0000
}

pub fn u64_as_u32(x: u64) -> (y: u32)
    ensures
        y == low_u32(x),
        y == x as u32,
{
    assert(x as u32 == x % 0x1_0000_0000) by (bit_vector);
    x as u32
}

/// A counter that is stored as a signed integer is read back unchanged.
pub proof fn law_u64_round_trip(x: u64, stored: i64)
    requires
        stored == as_i64(x),
    ensures
        as_u64(stored) == x,
{
}

/// A user id that is stored as a signed integer is read back unchanged.
pub proof fn law_u32_round_trip(x: u32, stored: i64)
    requires
        stored == as_i32(x),
    ensures
        as_u32(stored) == x,
{
}

/// A cast yields the one number of its type that differs by a multiple of the number of values.
pub proof fn law_casts(x: u64, y: i64, z: u32)
    ensures
        i64::MIN <= as_i64(x) <= i64::MAX && (as_i64(x) - x) % 0x1_0000_0000_0000_0000 == 0,
        0 <= as_u64(y) <= u64::MAX && (as_u64(y) - y) % 0x1_0000_0000_0000_0000 == 0,
        i32::MIN <= as_i32(z) <= i32::MAX && (as_i32(z) - z) % 0x1_0000_0000 == 0,
        0 <= as_u32(y) <= u32::MAX && (as_u32(y) - y) % 0x1_0000_0000 == 0,
        0 <= low_u32(x) <= u32::MAX && (low_u32(x) - x) % 0x1_0000_0000 == 0,
{
}

} // verus!
