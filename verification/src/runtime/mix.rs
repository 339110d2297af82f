//! Key mixing shared by the runtime helpers.
use vstd::prelude::*;

verus! {

/// `y` rotated left by `r` bits (`0 < r < 32`).
pub open spec fn rotl(y: u32, r: u32) -> u32 {
    (y << r) | (y >> ((32 - r) as u32))
}

/// `x * k + rotl(y, r) + c`, modulo 2^32.
pub open spec fn mix_spec(x: u32, y: u32, k: u32, r: u32, c: u32) -> u32 {
    ((x as int * k as int + rotl(y, r) as int + c as int) % 0x1_0000_0000) as u32
}

/// `x.wrapping_mul(k).wrapping_add(y.rotate_left(r)).wrapping_add(c)`.
pub fn mix(x: u32, y: u32, k: u32, r: u32, c: u32) -> (out: u32)
    requires
        0 < r < 32,
        k <= 0x1_0000,
    ensures
        out == mix_spec(x, y, k, r, c),
{
    let rot: u32 = (y << r) | (y >> (32 - r));
    assert(x as u64 * k as u64 <= 0xFFFF_FFFFu64 * 0x1_0000u64) by (nonlinear_arith)
        requires
            k <= 0x1_0000,
    ;
    let wide: u64 = x as u64 * k as u64 + rot as u64 + c as u64;
    (wide % 0x1_0000_0000) as u32
}

} // verus!
