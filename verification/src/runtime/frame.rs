//! Call frames and the value stack for execution.
use vstd::prelude::*;
use crate::error::{Error, Result};

verus! {

#[derive(Clone, Copy, Debug, PartialEq, Eq)]
pub struct CallFrame {
    pub func_idx: u32,
    pub return_pc: usize,
    pub base: u32,
    pub locals_base: u32,
    pub upvalue_start: u32,
    pub upvalue_count: u16,
    pub closed: bool,
}

impl CallFrame {
    pub open spec fn spec_new(func_idx: u32, return_pc: usize, base: u32) -> CallFrame {
        CallFrame { func_idx, return_pc, base, locals_base: base, upvalue_start: 0, upvalue_count: 0, closed: false }
    }

    pub fn new(func_idx: u32, return_pc: usize, base: u32) -> (r: Self)
        ensures
            r == Self::spec_new(func_idx, return_pc, base),
    {
        CallFrame { func_idx, return_pc, base, locals_base: base, upvalue_start: 0, upvalue_count: 0, closed: false }
    }
}

/// Capacity of a frame vector. Wraps `Vec::capacity`; the documentation promises only that
/// it is at least the length.
#[verifier::external_body]
fn frames_capacity(v: &Vec<CallFrame>) -> (r: usize)
    ensures
        r >= v@.len(),
{
    v.capacity()
}

#[derive(Debug)]
pub struct CallStack {
    frames: Vec<CallFrame>,
}

impl View for CallStack {
    type V = Seq<CallFrame>;

    closed spec fn view(&self) -> Seq<CallFrame> {
        self.frames@
    }
}

impl CallStack {
    pub fn new() -> (r: Self)
        ensures
            r@ == Seq::<CallFrame>::empty(),
    {
        CallStack { frames: Vec::new() }
    }

    /// An empty stack; the capacity request is only a hint.
    pub fn with_capacity(cap: usize) -> (r: Self)
        ensures
            r@ == Seq::<CallFrame>::empty(),
    {
        let _ = cap;
        CallStack { frames: Vec::new() }
    }

    pub fn depth(&self) -> (r: usize)
        ensures
            r == self@.len(),
    {
        self.frames.len()
    }

    pub fn capacity(&self) -> (r: usize)
        ensures
            r >= self@.len(),
    {
        frames_capacity(&self.frames)
    }

    pub fn push(&mut self, frame: CallFrame) -> (r: usize)
        ensures
            final(self)@ == old(self)@.push(frame),
            r == old(self)@.len(),
    {
        self.frames.push(frame);
        self.frames.len() - 1
    }

    pub fn pop(&mut self) -> (r: Option<CallFrame>)
        ensures
            old(self)@.len() == 0 ==> r is None && final(self)@ == old(self)@,
            old(self)@.len() > 0 ==> r == Some(old(self)@.last()) && final(self)@ == old(self)@.drop_last(),
    {
        self.frames.pop()
    }

    pub fn top(&self) -> (r: Option<&CallFrame>)
        ensures
            self@.len() == 0 ==> r is None,
            self@.len() > 0 ==> r == Some(&self@.last()),
    {
        if self.frames.len() == 0 {
            None
        } else {
            Some(&self.frames[self.frames.len() - 1])
        }
    }

    pub fn get(&self, idx: usize) -> (r: Option<&CallFrame>)
        ensures
            idx >= self@.len() ==> r is None,
            idx < self@.len() ==> r == Some(&self@[idx as int]),
    {
        if idx < self.frames.len() {
            Some(&self.frames[idx])
        } else {
            None
        }
    }

    /// The top frame, to update in place; `None` on an empty stack.
    pub fn top_mut(&mut self) -> (r: Option<&mut CallFrame>)
        ensures
            old(self)@.len() == 0 ==> r is None && final(self)@ == old(self)@,
            old(self)@.len() > 0 ==> r is Some && *r.unwrap() == old(self)@.last()
                && final(self)@ == old(self)@.update(old(self)@.len() - 1, *final(r.unwrap())),
    {
        let n = self.frames.len();
        if n == 0 {
            None
        } else {
            Some(&mut self.frames[n - 1])
        }
    }

    /// The frame at `idx`, to update in place; `None` when there is none.
    pub fn get_mut(&mut self, idx: usize) -> (r: Option<&mut CallFrame>)
        ensures
            idx >= old(self)@.len() ==> r is None && final(self)@ == old(self)@,
            idx < old(self)@.len() ==> r is Some && *r.unwrap() == old(self)@[idx as int]
                && final(self)@ == old(self)@.update(idx as int, *final(r.unwrap())),
    {
        if idx < self.frames.len() {
            Some(&mut self.frames[idx])
        } else {
            None
        }
    }

    /// Replaces the frame at `idx`; `false` when there is none.
    pub fn set(&mut self, idx: usize, frame: CallFrame) -> (r: bool)
        ensures
            r == (idx < old(self)@.len()),
            r ==> final(self)@ == old(self)@.update(idx as int, frame),
            !r ==> final(self)@ == old(self)@,
    {
        if idx < self.frames.len() {
            self.frames.set(idx, frame);
            true
        } else {
            false
        }
    }

    pub fn clear(&mut self)
        ensures
            final(self)@ == Seq::<CallFrame>::empty(),
    {
        self.frames.clear();
    }
}

impl Default for CallStack {
    fn default() -> (r: Self)
        ensures
            r@ == Seq::<CallFrame>::empty(),
    {
        Self::new()
    }
}

/// An upvalue: open while it refers to a live slot (by index into the value stack), closed
/// once it holds its own copy.
#[derive(Clone, Copy, Debug, PartialEq, Eq)]
pub struct Upvalue {
    pub slot: u32,
    pub closed: bool,
    pub closed_value: i64,
    pub open_index: Option<usize>,
}

/// Value an upvalue reads: its own copy when closed, the referenced slot when open (zero
/// when it refers to no live slot).
pub open spec fn uv_value(u: Upvalue, slots: Seq<i64>) -> i64 {
    if u.closed {
        u.closed_value
    } else {
        match u.open_index {
            None => 0,
            Some(i) => if i < slots.len() { slots[i as int] } else { 0 },
        }
    }
}

/// Closing an open upvalue copies the slot's value into it and detaches it.
pub open spec fn uv_close(u: Upvalue, slots: Seq<i64>) -> Upvalue {
    if !u.closed && u.open_index is Some {
        Upvalue { closed_value: uv_value(u, slots), closed: true, open_index: None, ..u }
    } else {
        u
    }
}

/// Writing through an upvalue: into its copy when closed, into the slot when open.
pub open spec fn uv_store(u: Upvalue, slots: Seq<i64>, v: i64) -> (Upvalue, Seq<i64>) {
    if u.closed {
        (Upvalue { closed_value: v, ..u }, slots)
    } else {
        match u.open_index {
            Some(i) => if i < slots.len() { (u, slots.update(i as int, v)) } else { (u, slots) },
            None => (u, slots),
        }
    }
}

/// Closes every upvalue from position `start` on.
pub open spec fn close_from_spec(ups: Seq<Upvalue>, slots: Seq<i64>, start: int) -> Seq<Upvalue> {
    Seq::new(ups.len(), |i: int| if i >= start { uv_close(ups[i], slots) } else { ups[i] })
}

impl Upvalue {
    pub fn open(slot: u32, index: usize) -> (r: Self)
        ensures
            r == (Upvalue { slot, closed: false, closed_value: 0, open_index: Some(index) }),
    {
        Upvalue { slot, closed: false, closed_value: 0, open_index: Some(index) }
    }

    pub fn close(&mut self, slots: &[i64])
        ensures
            *final(self) == uv_close(*old(self), slots@),
    {
        if !self.closed {
            match self.open_index {
                Some(_) => {
                    self.closed_value = self.get(slots);
                    self.closed = true;
                    self.open_index = None;
                },
                None => {},
            }
        }
    }

    pub fn get(&self, slots: &[i64]) -> (r: i64)
        ensures
            r == uv_value(*self, slots@),
    {
        if self.closed {
            self.closed_value
        } else {
            match self.open_index {
                None => 0,
                Some(i) => if i < slots.len() { slots[i] } else { 0 },
            }
        }
    }

    pub fn set(&mut self, slots: &mut Vec<i64>, v: i64)
        ensures
            (*final(self), final(slots)@) == uv_store(*old(self), old(slots)@, v),
    {
        if self.closed {
            self.closed_value = v;
        } else {
            match self.open_index {
                Some(i) => {
                    if i < slots.len() {
                        slots.set(i, v);
                    }
                },
                None => {},
            }
        }
    }
}

/// Value slots and operand stack of an activation, with its call stack and upvalues.
pub struct FrameStack {
    pub slots: Vec<i64>,
    pub base: u32,
    pub calls: CallStack,
    pub upvalues: Vec<Upvalue>,
}

/// Window base after moving by `delta`, clamped at zero (kept as its low 32 bits).
pub open spec fn windowed(base: u32, delta: i16) -> u32 {
    let b = base as int + delta as int;
    (if b < 0 { 0 } else { b }) as u32
}

impl FrameStack {
    pub fn new(frame_size: u32) -> (r: Self)
        ensures
            r.slots@ == Seq::new(frame_size as nat, |i: int| 0i64),
            r.base == 0,
            r.calls@ == Seq::<CallFrame>::empty(),
            r.upvalues@ == Seq::<Upvalue>::empty(),
    {
        let mut slots: Vec<i64> = Vec::new();
        let mut i: u32 = 0;
        while i < frame_size
            invariant
                i <= frame_size,
                slots@ == Seq::new(i as nat, |k: int| 0i64),
            decreases frame_size - i,
        {
            slots.push(0);
            i += 1;
            assert(slots@ =~= Seq::new(i as nat, |k: int| 0i64));
        }
        FrameStack { slots, base: 0, calls: CallStack::new(), upvalues: Vec::new() }
    }

    pub fn window(&mut self, delta: i16)
        ensures
            final(self).base == windowed(old(self).base, delta),
            final(self).slots == old(self).slots,
            final(self).calls == old(self).calls,
            final(self).upvalues == old(self).upvalues,
    {
        let b: i64 = self.base as i64 + delta as i64;
        self.base = (if b < 0 { 0 } else { b }) as u32;
    }

    /// Grows the value slots with zeros to at least `need`.
    pub fn ensure_slots(&mut self, need: usize)
        ensures
            old(self).slots@.len() >= need ==> final(self).slots@ == old(self).slots@,
            old(self).slots@.len() < need ==> final(self).slots@ == old(self).slots@
                + Seq::new((need - old(self).slots@.len()) as nat, |i: int| 0i64),
            final(self).base == old(self).base,
            final(self).calls == old(self).calls,
            final(self).upvalues == old(self).upvalues,
    {
        let start = self.slots.len();
        if start < need {
            let ghost orig = self.slots@;
            let mut k = start;
            while k < need
                invariant
                    start <= k <= need,
                    start == orig.len(),
                    self.slots@ == orig + Seq::new((k - start) as nat, |i: int| 0i64),
                    self.base == old(self).base,
                    self.calls == old(self).calls,
                    self.upvalues == old(self).upvalues,
                decreases need - k,
            {
                self.slots.push(0);
                k += 1;
                assert(self.slots@ =~= orig + Seq::new((k - start) as nat, |i: int| 0i64));
            }
        }
    }

    pub fn push_value(&mut self, v: i64)
        ensures
            final(self).slots@ == old(self).slots@.push(v),
            final(self).base == old(self).base,
            final(self).calls == old(self).calls,
            final(self).upvalues == old(self).upvalues,
    {
        self.slots.push(v);
    }

    /// Pops the top value, zero when the stack is empty.
    pub fn pop_value(&mut self) -> (r: i64)
        ensures
            old(self).slots@.len() == 0 ==> r == 0 && final(self).slots@ == old(self).slots@,
            old(self).slots@.len() > 0 ==> r == old(self).slots@.last() && final(self).slots@ == old(self).slots@.drop_last(),
            final(self).base == old(self).base,
            final(self).calls == old(self).calls,
            final(self).upvalues == old(self).upvalues,
    {
        match self.slots.pop() {
            Some(v) => v,
            None => 0,
        }
    }

    /// Opens an upvalue on the slot `base + slot`; its index among the upvalues.
    pub fn open_upvalue(&mut self, slot: u32) -> (r: Result<usize>)
        requires
            old(self).base + slot <= u32::MAX,
        ensures
            ({
                let idx = old(self).base as int + slot as int;
                if idx >= old(self).slots@.len() {
                    r == Err::<usize, Error>(Error::EffectiveSlotOutOfRange { pc: 0, eff: (old(self).base + slot) as u32 })
                        && final(self).upvalues@ == old(self).upvalues@
                } else {
                    (r matches Ok(i) && i == old(self).upvalues@.len())
                        && final(self).upvalues@ == old(self).upvalues@.push(
                            Upvalue { slot, closed: false, closed_value: 0, open_index: Some(idx as usize) })
                }
            }),
            final(self).slots == old(self).slots,
            final(self).base == old(self).base,
            final(self).calls == old(self).calls,
    {
        let eff: u32 = self.base + slot;
        let idx: usize = eff as usize;
        if idx >= self.slots.len() {
            return Err(Error::EffectiveSlotOutOfRange { pc: 0, eff });
        }
        let uv = Upvalue::open(slot, idx);
        self.upvalues.push(uv);
        Ok(self.upvalues.len() - 1)
    }

    pub fn close_upvalues(&mut self)
        ensures
            final(self).upvalues@ == close_from_spec(old(self).upvalues@, old(self).slots@, 0),
            final(self).slots == old(self).slots,
            final(self).base == old(self).base,
            final(self).calls == old(self).calls,
    {
        self.close_from(0);
    }

    pub fn close_from(&mut self, start: usize)
        ensures
            final(self).upvalues@ == close_from_spec(old(self).upvalues@, old(self).slots@, start as int),
            final(self).slots == old(self).slots,
            final(self).base == old(self).base,
            final(self).calls == old(self).calls,
    {
        let mut i = start;
        let ghost orig = self.upvalues@;
        if i > self.upvalues.len() {
            i = self.upvalues.len();
        }
        while i < self.upvalues.len()
            invariant
                self.upvalues@.len() == orig.len(),
                i <= orig.len(),
                i < orig.len() ==> start <= i,
                self.slots == old(self).slots,
                self.base == old(self).base,
                self.calls == old(self).calls,
                orig == old(self).upvalues@,
                forall|j: int| 0 <= j < orig.len() ==> #[trigger] self.upvalues@[j] == if start <= j < i {
                    uv_close(orig[j], old(self).slots@)
                } else {
                    orig[j]
                },
            decreases orig.len() - i,
        {
            let mut u = self.upvalues[i];
            u.close(self.slots.as_slice());
            self.upvalues.set(i, u);
            i += 1;
        }
        assert(self.upvalues@ =~= close_from_spec(orig, old(self).slots@, start as int));
    }
}

} // verus!
