//! Profiling counters for executor instrumentation.
use vstd::prelude::*;
use crate::text::{dec_nat, push_dec};

verus! {

#[derive(Clone, Debug, Default)]
pub struct Counters {
    pub ops: u64,
    pub calls: u64,
    pub throws: u64,
    pub interns: u64,
    pub jumps: u64,
}

/// `ops=<o> calls=<c> throws=<t> interns=<i> jumps=<j>`.
pub open spec fn counters_text(c: Counters) -> Seq<char> {
    "ops="@ + dec_nat(c.ops as nat) + " calls="@ + dec_nat(c.calls as nat) + " throws="@ + dec_nat(c.throws as nat)
        + " interns="@ + dec_nat(c.interns as nat) + " jumps="@ + dec_nat(c.jumps as nat)
}

impl Counters {
    pub fn bump_op(&mut self)
        requires
            old(self).ops < u64::MAX,
        ensures
            *final(self) == (Counters { ops: (old(self).ops + 1) as u64, ..*old(self) }),
    {
        self.ops = self.ops + 1;
    }

    pub fn bump_call(&mut self)
        requires
            old(self).calls < u64::MAX,
        ensures
            *final(self) == (Counters { calls: (old(self).calls + 1) as u64, ..*old(self) }),
    {
        self.calls = self.calls + 1;
    }

    pub fn bump_throw(&mut self)
        requires
            old(self).throws < u64::MAX,
        ensures
            *final(self) == (Counters { throws: (old(self).throws + 1) as u64, ..*old(self) }),
    {
        self.throws = self.throws + 1;
    }

    pub fn bump_intern(&mut self)
        requires
            old(self).interns < u64::MAX,
        ensures
            *final(self) == (Counters { interns: (old(self).interns + 1) as u64, ..*old(self) }),
    {
        self.interns = self.interns + 1;
    }

    pub fn bump_jump(&mut self)
        requires
            old(self).jumps < u64::MAX,
        ensures
            *final(self) == (Counters { jumps: (old(self).jumps + 1) as u64, ..*old(self) }),
    {
        self.jumps = self.jumps + 1;
    }

    /// (ops, calls, throws, interns, jumps).
    pub fn snapshot(&self) -> (r: (u64, u64, u64, u64, u64))
        ensures
            r == (self.ops, self.calls, self.throws, self.interns, self.jumps),
    {
        (self.ops, self.calls, self.throws, self.interns, self.jumps)
    }

    /// `ops=<o> calls=<c> throws=<t> interns=<i> jumps=<j>`.
    pub fn render(&self) -> (r: String)
        ensures
            r@ == counters_text(*self),
    {
        let (o, c, t, i, j) = self.snapshot();
        let mut s = String::new();
        s.append("ops=");
        push_dec(&mut s, o);
        s.append(" calls=");
        push_dec(&mut s, c);
        s.append(" throws=");
        push_dec(&mut s, t);
        s.append(" interns=");
        push_dec(&mut s, i);
        s.append(" jumps=");
        push_dec(&mut s, j);
        s
    }
}

} // verus!
