//! Frame layout and alignment helpers.
use vstd::prelude::*;

verus! {

#[derive(Clone, Copy, Debug)]
pub struct FrameLayout {
    pub locals: u32,
    pub frame_size: u32,
    pub arg_slots: u32,
    pub spill_base: u32,
}

impl FrameLayout {
    /// A layout whose first `min(locals, 4)` locals are argument slots; spills follow them.
    pub fn new(locals: u32, frame_size: u32) -> (r: Self)
        ensures
            ({
                let a = if locals < 4 { locals } else { 4 };
                r == (FrameLayout { locals, frame_size, arg_slots: a, spill_base: a })
            }),
    {
        let arg_slots = if locals < 4 { locals } else { 4 };
        FrameLayout { locals, frame_size, arg_slots, spill_base: arg_slots }
    }

    /// Whether `base + slot` (saturating) lies in the frame.
    pub fn slot_ok(self, base: u32, slot: u32) -> (r: bool)
        ensures
            r == ((if base + slot > u32::MAX { u32::MAX as int } else { base + slot }) < self.frame_size),
    {
        let s: u64 = base as u64 + slot as u64;
        let sat: u32 = if s > 0xFFFF_FFFF { 0xFFFF_FFFF } else { s as u32 };
        sat < self.frame_size
    }

    /// The base after moving by `delta` (kept as its low 32 bits), when it is not negative and
    /// lies in the frame.
    pub fn window_ok(self, base: u32, delta: i8) -> (r: Option<u32>)
        ensures
            ({
                let next = base as int + delta as int;
                r == if next < 0 || (next as u32) >= self.frame_size { None } else { Some(next as u32) }
            }),
    {
        let next: i64 = base as i64 + delta as i64;
        if next < 0 || next as u32 >= self.frame_size {
            None
        } else {
            Some(next as u32)
        }
    }
}

/// `n` rounded up to a multiple of the power of two `align`.
pub fn align_up(n: u32, align: u32) -> (r: u32)
    requires
        align >= 1,
        n + align <= u32::MAX,
    ensures
        r == ((n + align - 1) as u32 & !((align - 1) as u32)),
{
    (n + align - 1) & !(align - 1)
}

pub fn word_bytes() -> (r: usize)
    ensures
        r == 8,
{
    8
}

/// Bytes of a shadow stack `depth` frames deep, four words each (saturating).
pub fn shadow_stack_bytes(depth: usize) -> (r: usize)
    ensures
        r == crate::heap::sat_mul(depth as int, 32),
{
    crate::heap::mul_saturating(depth, word_bytes() * 4)
}

} // verus!
