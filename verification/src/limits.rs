//! Runtime and verifier resource limits.
use vstd::prelude::*;
use crate::text::{dec_nat, push_dec};

verus! {

#[derive(Clone, Copy, Debug)]
pub struct Limits {
    pub max_code_bytes: usize,
    pub max_consts: usize,
    pub max_strings: usize,
    pub max_functions: usize,
    pub max_call_depth: usize,
    pub max_locals: u16,
    pub max_frame_size: u32,
    pub max_intern_bytes: usize,
    pub max_deser_nodes: usize,
}

/// Production limits.
pub open spec fn production_limits() -> Limits {
    Limits {
        max_code_bytes: 0x10_0000,
        max_consts: 0x1_0000,
        max_strings: 4096,
        max_functions: 256,
        max_call_depth: 1024,
        max_locals: 256,
        max_frame_size: 4096,
        max_intern_bytes: 0x40_0000,
        max_deser_nodes: 4096,
    }
}

impl Default for Limits {
    fn default() -> (r: Self)
        ensures
            r == production_limits(),
    {
        Self::production()
    }
}

impl Limits {
    pub fn production() -> (r: Self)
        ensures
            r == production_limits(),
    {
        Limits {
            max_code_bytes: 0x10_0000,
            max_consts: 0x1_0000,
            max_strings: 4096,
            max_functions: 256,
            max_call_depth: 1024,
            max_locals: 256,
            max_frame_size: 4096,
            max_intern_bytes: 0x40_0000,
            max_deser_nodes: 4096,
        }
    }

    pub fn fuzzing() -> (r: Self)
        ensures
            r == (Limits {
                max_code_bytes: 0x1_0000,
                max_consts: 4096,
                max_strings: 1024,
                max_functions: 64,
                max_call_depth: 128,
                max_locals: 64,
                max_frame_size: 512,
                max_intern_bytes: 0x4_0000,
                max_deser_nodes: 1024,
            }),
    {
        Limits {
            max_code_bytes: 0x1_0000,
            max_consts: 4096,
            max_strings: 1024,
            max_functions: 64,
            max_call_depth: 128,
            max_locals: 64,
            max_frame_size: 512,
            max_intern_bytes: 0x4_0000,
            max_deser_nodes: 1024,
        }
    }

    pub fn tiny() -> (r: Self)
        ensures
            r == (Limits {
                max_code_bytes: 4096,
                max_consts: 256,
                max_strings: 64,
                max_functions: 16,
                max_call_depth: 32,
                max_locals: 16,
                max_frame_size: 64,
                max_intern_bytes: 0x4000,
                max_deser_nodes: 128,
            }),
    {
        Limits {
            max_code_bytes: 4096,
            max_consts: 256,
            max_strings: 64,
            max_functions: 16,
            max_call_depth: 32,
            max_locals: 16,
            max_frame_size: 64,
            max_intern_bytes: 0x4000,
            max_deser_nodes: 128,
        }
    }

    pub fn check_code_len(&self, n: usize) -> (r: bool)
        ensures
            r == (n <= self.max_code_bytes),
    {
        n <= self.max_code_bytes
    }

    pub fn check_consts(&self, n: usize) -> (r: bool)
        ensures
            r == (n <= self.max_consts),
    {
        n <= self.max_consts
    }

    pub fn check_strings(&self, n: usize) -> (r: bool)
        ensures
            r == (n <= self.max_strings),
    {
        n <= self.max_strings
    }

    pub fn check_functions(&self, n: usize) -> (r: bool)
        ensures
            r == (n <= self.max_functions),
    {
        n <= self.max_functions
    }

    pub fn check_call_depth(&self, n: usize) -> (r: bool)
        ensures
            r == (n <= self.max_call_depth),
    {
        n <= self.max_call_depth
    }

    /// Locals and frame within their limits, and no more locals than frame slots.
    pub fn check_frame(&self, locals: u16, frame: u32) -> (r: bool)
        ensures
            r == (locals <= self.max_locals && frame <= self.max_frame_size && locals as u32 <= frame),
    {
        locals <= self.max_locals && frame <= self.max_frame_size && (locals as u32) <= frame
    }

    pub fn check_intern_bytes(&self, n: usize) -> (r: bool)
        ensures
            r == (n <= self.max_intern_bytes),
    {
        n <= self.max_intern_bytes
    }

    pub fn check_deser_nodes(&self, n: usize) -> (r: bool)
        ensures
            r == (n <= self.max_deser_nodes),
    {
        n <= self.max_deser_nodes
    }

    /// `limits code=.. consts=.. strings=.. funcs=.. depth=.. locals=.. frame=.. intern=.. deser=..`.
    pub fn render(&self) -> (r: String)
        ensures
            r@ == "limits code="@ + dec_nat(self.max_code_bytes as nat) + " consts="@ + dec_nat(self.max_consts as nat)
                + " strings="@ + dec_nat(self.max_strings as nat) + " funcs="@ + dec_nat(self.max_functions as nat)
                + " depth="@ + dec_nat(self.max_call_depth as nat) + " locals="@ + dec_nat(self.max_locals as nat)
                + " frame="@ + dec_nat(self.max_frame_size as nat) + " intern="@ + dec_nat(self.max_intern_bytes as nat)
                + " deser="@ + dec_nat(self.max_deser_nodes as nat),
    {
        let mut s = String::new();
        s.append("limits code=");
        push_dec(&mut s, self.max_code_bytes as u64);
        s.append(" consts=");
        push_dec(&mut s, self.max_consts as u64);
        s.append(" strings=");
        push_dec(&mut s, self.max_strings as u64);
        s.append(" funcs=");
        push_dec(&mut s, self.max_functions as u64);
        s.append(" depth=");
        push_dec(&mut s, self.max_call_depth as u64);
        s.append(" locals=");
        push_dec(&mut s, self.max_locals as u64);
        s.append(" frame=");
        push_dec(&mut s, self.max_frame_size as u64);
        s.append(" intern=");
        push_dec(&mut s, self.max_intern_bytes as u64);
        s.append(" deser=");
        push_dec(&mut s, self.max_deser_nodes as u64);
        s
    }
}

/// The requested depth, capped by the limit.
pub fn clamp_call_depth(requested: usize, limits: &Limits) -> (r: usize)
    ensures
        r == (if requested < limits.max_call_depth { requested } else { limits.max_call_depth }),
{
    if requested < limits.max_call_depth { requested } else { limits.max_call_depth }
}

/// Locals capped by the limit; the frame capped by its limit and raised to the locals.
pub fn clamp_frame(locals: u16, frame: u32, limits: &Limits) -> (r: (u16, u32))
    ensures
        ({
            let l = if locals < limits.max_locals { locals } else { limits.max_locals };
            let f = if frame < limits.max_frame_size { frame } else { limits.max_frame_size };
            r == (l, if f > l as u32 { f } else { l as u32 })
        }),
{
    let l = if locals < limits.max_locals { locals } else { limits.max_locals };
    let f = if frame < limits.max_frame_size { frame } else { limits.max_frame_size };
    (l, if f > l as u32 { f } else { l as u32 })
}

/// `limit - used`, or zero when the budget is spent.
pub fn budget_remaining(used: usize, limit: usize) -> (r: usize)
    ensures
        r == (if used < limit { limit - used } else { 0 }),
{
    if used < limit { limit - used } else { 0 }
}

pub fn exceeds(used: usize, limit: usize) -> (r: bool)
    ensures
        r == (used > limit),
{
    used > limit
}

} // verus!
