//! Execution of verified bytecode: a budgeted interpreter over a value stack, call frames,
//! upvalues, an intern pool and an object table.
use vstd::prelude::*;
use crate::bytecode;
use crate::error::{Error, Result};
use crate::intern::{InternId, InternPool, spec_intern, spec_intern_id, spec_compactions_after};
use crate::module::{Function, Module, FnModel};
use crate::runtime::frame::{CallFrame, FrameStack, Upvalue, uv_value, uv_store, close_from_spec, windowed};
use crate::text::{dec_nat, push_dec};
use crate::value::Obj;
use crate::bytes::byte_len;

verus! {

/// Abstract machine state: what an execution reads and changes.
pub struct Mach {
    pub slots: Seq<i64>,
    pub base: u32,
    pub calls: Seq<CallFrame>,
    pub upvalues: Seq<Upvalue>,
    pub entries: Seq<Seq<u8>>,
    pub compactions: u32,
    pub cached: Option<InternId>,
    pub objects: Seq<Obj>,
}

/// Interpreter state. Objects created by `NEWARR` live in `objects`; the value stack holds
/// their index as a handle.
pub struct ExecState {
    pub stack: FrameStack,
    pub pool: InternPool,
    pub cached_intern_id: Option<InternId>,
    pub objects: Vec<Obj>,
}

impl View for ExecState {
    type V = Mach;

    open spec fn view(&self) -> Mach {
        Mach {
            slots: self.stack.slots@,
            base: self.stack.base,
            calls: self.stack.calls@,
            upvalues: self.stack.upvalues@,
            entries: self.pool.spec_entries(),
            compactions: self.pool.spec_compact_count(),
            cached: self.cached_intern_id,
            objects: self.objects@,
        }
    }
}

impl ExecState {
    pub open spec fn wf(&self) -> bool {
        self.pool.wf()
    }

    pub fn new(frame_size: u32) -> (r: Self)
        ensures
            r.wf(),
            r@ == initial_mach(frame_size),
    {
        ExecState {
            stack: FrameStack::new(frame_size),
            pool: InternPool::new(),
            cached_intern_id: None,
            objects: Vec::new(),
        }
    }
}

/// State of a fresh interpreter whose frame has `frame_size` zeroed slots.
pub open spec fn initial_mach(frame_size: u32) -> Mach {
    Mach {
        slots: Seq::new(frame_size as nat, |i: int| 0i64),
        base: 0,
        calls: Seq::empty(),
        upvalues: Seq::empty(),
        entries: Seq::empty(),
        compactions: 0,
        cached: None,
        objects: Seq::empty(),
    }
}

/// The byte at `i`, if the code has one there.
pub open spec fn byte_at(code: Seq<u8>, i: int) -> Option<u8> {
    if 0 <= i < code.len() { Some(code[i]) } else { None }
}

/// The little-endian 16-bit operand after the opcode at `pc`.
pub open spec fn operand16(code: Seq<u8>, pc: int) -> Option<nat> {
    match (byte_at(code, pc + 1), byte_at(code, pc + 2)) {
        (Some(lo), Some(hi)) => Some(lo as nat + 256 * (hi as nat)),
        _ => None,
    }
}

/// Top of the value stack and the stack without it; zero and the stack unchanged when empty.
pub open spec fn pop_or_zero(slots: Seq<i64>) -> (i64, Seq<i64>) {
    if slots.len() == 0 { (0, slots) } else { (slots.last(), slots.drop_last()) }
}

/// Call stack without its top frame.
pub open spec fn pop_frame(calls: Seq<CallFrame>) -> Seq<CallFrame> {
    if calls.len() == 0 { calls } else { calls.drop_last() }
}

/// Bytes interned by `INTERN idx`: the function's string, or `k<idx>` when it has none.
pub open spec fn intern_key(strings: Seq<Seq<char>>, idx: nat) -> Seq<u8> {
    if idx < strings.len() {
        vstd::utf8::encode_utf8(strings[idx as int])
    } else {
        vstd::utf8::encode_utf8(seq!['k'] + dec_nat(idx))
    }
}

/// First byte of the cached intern entry, zero when there is none.
pub open spec fn cached_first_byte(entries: Seq<Seq<u8>>, cached: Option<InternId>) -> i64 {
    match cached {
        Some(id) => if (id.0 as int) < entries.len() && entries[id.0 as int].len() > 0 {
            entries[id.0 as int][0] as i64
        } else {
            0
        },
        None => 0,
    }
}

/// Object table entry that `NEWARR` allocates.
pub open spec fn new_array_obj() -> Obj {
    Obj { kind: 0xA1, mark: 0 }
}

/// One instruction other than `CALL` at `pc < code.len()`: the next state and either the next
/// pc (`Ok(Some)`), the end of the function (`Ok(None)`), or an error.
pub open spec fn spec_step(f: FnModel, s: Mach, pc: int) -> (Mach, Result<Option<usize>>) {
    let code = f.code;
    let op = code[pc];
    if op == bytecode::NOP {
        (s, Ok(Some((pc + 1) as usize)))
    } else if op == bytecode::RET {
        (Mach { upvalues: close_from_spec(s.upvalues, s.slots, 0), calls: pop_frame(s.calls), ..s }, Ok(None))
    } else if op == bytecode::PUSH8 {
        match byte_at(code, pc + 1) {
            None => (s, Err(Error::TruncatedInstr { pc: pc as usize })),
            Some(b) => (Mach { slots: s.slots.push((b as i8) as i64), ..s }, Ok(Some((pc + 2) as usize))),
        }
    } else if op == bytecode::WINDOW {
        match byte_at(code, pc + 1) {
            None => (s, Err(Error::TruncatedInstr { pc: pc as usize })),
            Some(b) => (Mach { base: windowed(s.base, (b as i8) as i16), ..s }, Ok(Some((pc + 2) as usize))),
        }
    } else if op == bytecode::LOADLOCAL {
        match byte_at(code, pc + 1) {
            None => (s, Err(Error::TruncatedInstr { pc: pc as usize })),
            Some(b) => {
                let eff = s.base + b;
                if eff >= s.slots.len() {
                    (s, Err(Error::EffectiveSlotOutOfRange { pc: pc as usize, eff: eff as u32 }))
                } else {
                    (Mach { slots: s.slots.push(s.slots[eff]), ..s }, Ok(Some((pc + 3) as usize)))
                }
            },
        }
    } else if op == bytecode::STORELOCAL {
        match byte_at(code, pc + 1) {
            None => (s, Err(Error::TruncatedInstr { pc: pc as usize })),
            Some(b) => {
                let (v, rest) = pop_or_zero(s.slots);
                let eff = s.base + b;
                if eff >= rest.len() {
                    (Mach { slots: rest, ..s }, Err(Error::EffectiveSlotOutOfRange { pc: pc as usize, eff: eff as u32 }))
                } else {
                    (Mach { slots: rest.update(eff, v), ..s }, Ok(Some((pc + 3) as usize)))
                }
            },
        }
    } else if op == bytecode::SJMP {
        match byte_at(code, pc + 1) {
            None => (s, Err(Error::TruncatedInstr { pc: pc as usize })),
            Some(b) => {
                let target = pc + 2 + (b as i8);
                if target < 0 { (s, Ok(None)) } else { (s, Ok(Some(target as usize))) }
            },
        }
    } else if op == bytecode::LOADK {
        match operand16(code, pc) {
            None => (s, Err(Error::TruncatedInstr { pc: pc as usize })),
            Some(idx) => if idx >= f.consts.len() {
                (s, Err(Error::VerifyFailed("constant index out of range")))
            } else {
                (Mach { slots: s.slots.push(f.consts[idx as int]), ..s }, Ok(Some((pc + 3) as usize)))
            },
        }
    } else if op == bytecode::INTERN {
        match operand16(code, pc) {
            None => (s, Err(Error::TruncatedInstr { pc: pc as usize })),
            Some(idx) => if s.entries.len() >= u32::MAX {
                (s, Err(Error::VerifyFailed("intern pool full")))
            } else {
                let key = intern_key(f.strings, idx);
                let id = spec_intern_id(s.entries, key);
                (Mach {
                    slots: s.slots.push(id as i64),
                    entries: spec_intern(s.entries, key),
                    compactions: spec_compactions_after(s.entries, s.compactions, key),
                    cached: if s.cached is None { Some(InternId(id)) } else { s.cached },
                    ..s
                }, Ok(Some((pc + 3) as usize)))
            },
        }
    } else if op == bytecode::STRCMP {
        let rest = pop_or_zero(s.slots).1;
        (Mach { slots: rest.push(cached_first_byte(s.entries, s.cached)), ..s }, Ok(Some((pc + 1) as usize)))
    } else if op == bytecode::TAIL {
        match operand16(code, pc) {
            None => (s, Err(Error::TruncatedInstr { pc: pc as usize })),
            Some(_) => (s, Ok(None)),
        }
    } else if op == bytecode::THROW {
        (s, Err(Error::Thrown))
    } else if op == bytecode::OPENUPVAL {
        match byte_at(code, pc + 1) {
            None => (s, Err(Error::TruncatedInstr { pc: pc as usize })),
            Some(b) => {
                let eff = s.base + b;
                if eff > u32::MAX || eff >= s.slots.len() {
                    (s, Err(Error::EffectiveSlotOutOfRange { pc: 0, eff: eff as u32 }))
                } else {
                    (Mach {
                        upvalues: s.upvalues.push(
                            Upvalue { slot: b as u32, closed: false, closed_value: 0, open_index: Some(eff as usize) }),
                        ..s
                    }, Ok(Some((pc + 2) as usize)))
                }
            },
        }
    } else if op == bytecode::CLOSE {
        match byte_at(code, pc + 1) {
            None => (s, Err(Error::TruncatedInstr { pc: pc as usize })),
            Some(b) => (Mach { upvalues: close_from_spec(s.upvalues, s.slots, b as int), ..s },
                Ok(Some((pc + 2) as usize))),
        }
    } else if op == bytecode::GETUPVAL {
        match byte_at(code, pc + 1) {
            None => (s, Err(Error::TruncatedInstr { pc: pc as usize })),
            Some(b) => if b >= s.upvalues.len() {
                (s, Err(Error::BadUpvalue { idx: b as u16 }))
            } else {
                (Mach { slots: s.slots.push(uv_value(s.upvalues[b as int], s.slots)), ..s },
                    Ok(Some((pc + 2) as usize)))
            },
        }
    } else if op == bytecode::SETUPVAL {
        match byte_at(code, pc + 1) {
            None => (s, Err(Error::TruncatedInstr { pc: pc as usize })),
            Some(b) => {
                let (v, rest) = pop_or_zero(s.slots);
                if b >= s.upvalues.len() {
                    (Mach { slots: rest, ..s }, Err(Error::BadUpvalue { idx: b as u16 }))
                } else {
                    let (u, sl) = uv_store(s.upvalues[b as int], rest, v);
                    (Mach { slots: sl, upvalues: s.upvalues.update(b as int, u), ..s }, Ok(Some((pc + 2) as usize)))
                }
            },
        }
    } else if op == bytecode::GETFIELD {
        let (h, rest) = pop_or_zero(s.slots);
        if 0 <= h < s.objects.len() {
            (Mach { slots: rest.push(s.objects[h as int].kind as i64), ..s }, Ok(Some((pc + 4) as usize)))
        } else {
            (Mach { slots: rest, ..s }, Err(Error::UntypedFieldAccess { block: pc as usize }))
        }
    } else if op == bytecode::NEWARR {
        (Mach {
            slots: s.slots.push(s.objects.len() as i64),
            objects: s.objects.push(new_array_obj()),
            ..s
        }, Ok(Some((pc + 4) as usize)))
    } else {
        (s, Err(Error::UnknownOpcode { pc: pc as usize, op }))
    }
}

/// The operand byte after the opcode at `pc`.
fn operand8(code: &Vec<u8>, pc: usize) -> (r: Result<u8>)
    requires
        pc < code@.len(),
        code@.len() <= isize::MAX,
    ensures
        r == (match byte_at(code@, pc + 1) {
            None => Err(Error::TruncatedInstr { pc }),
            Some(b) => Ok(b),
        }),
{
    if pc + 1 < code.len() { Ok(code[pc + 1]) } else { Err(Error::TruncatedInstr { pc }) }
}

/// The little-endian 16-bit operand after the opcode at `pc`.
fn operand16_at(code: &Vec<u8>, pc: usize) -> (r: Result<usize>)
    requires
        pc < code@.len(),
        code@.len() <= isize::MAX,
    ensures
        r == (match operand16(code@, pc as int) {
            None => Err(Error::TruncatedInstr { pc }),
            Some(v) => Ok(v as usize),
        }),
{
    if pc + 2 < code.len() {
        let lo = code[pc + 1] as usize;
        let hi = code[pc + 2] as usize;
        Ok(lo + 256 * hi)
    } else {
        Err(Error::TruncatedInstr { pc })
    }
}

/// `NOP`, `PUSH8`, `WINDOW`, `LOADLOCAL`, `STORELOCAL`, `SJMP`, `LOADK`.
fn step_stack(f: &Function, st: &mut ExecState, pc: usize) -> (r: Result<Option<usize>>)
    requires
        old(st).wf(),
        pc < f.code@.len(),
        f.code@.len() <= isize::MAX,
        f.code@[pc as int] == bytecode::NOP || f.code@[pc as int] == bytecode::PUSH8
            || f.code@[pc as int] == bytecode::WINDOW || f.code@[pc as int] == bytecode::LOADLOCAL
            || f.code@[pc as int] == bytecode::STORELOCAL || f.code@[pc as int] == bytecode::SJMP
            || f.code@[pc as int] == bytecode::LOADK,
    ensures
        final(st).wf(),
        (final(st)@, r) == spec_step(f@, old(st)@, pc as int),
{
    let op = f.code[pc];
    if op == bytecode::NOP {
        return Ok(Some(pc + 1));
    }
    if op == bytecode::LOADK {
        let idx = match operand16_at(&f.code, pc) {
            Ok(v) => v,
            Err(e) => return Err(e),
        };
        if idx >= f.consts.len() {
            return Err(Error::VerifyFailed("constant index out of range"));
        }
        st.stack.push_value(f.consts[idx]);
        return Ok(Some(pc + 3));
    }
    let b = match operand8(&f.code, pc) {
        Ok(b) => b,
        Err(e) => return Err(e),
    };
    if op == bytecode::PUSH8 {
        st.stack.push_value((b as i8) as i64);
        Ok(Some(pc + 2))
    } else if op == bytecode::WINDOW {
        st.stack.window((b as i8) as i16);
        Ok(Some(pc + 2))
    } else if op == bytecode::LOADLOCAL {
        let eff: u64 = st.stack.base as u64 + b as u64;
        if eff >= st.stack.slots.len() as u64 {
            return Err(Error::EffectiveSlotOutOfRange { pc, eff: eff as u32 });
        }
        let v = st.stack.slots[eff as usize];
        st.stack.push_value(v);
        Ok(Some(pc + 3))
    } else if op == bytecode::STORELOCAL {
        let v = st.stack.pop_value();
        let eff: u64 = st.stack.base as u64 + b as u64;
        if eff >= st.stack.slots.len() as u64 {
            return Err(Error::EffectiveSlotOutOfRange { pc, eff: eff as u32 });
        }
        st.stack.slots.set(eff as usize, v);
        Ok(Some(pc + 3))
    } else {
        let off = b as i8;
        if off >= 0 {
            Ok(Some(pc + 2 + off as usize))
        } else {
            let back = (0 - (off as i16)) as usize;
            if pc + 2 >= back { Ok(Some(pc + 2 - back)) } else { Ok(None) }
        }
    }
}

/// `INTERN` and `STRCMP`.
fn step_intern(f: &Function, st: &mut ExecState, pc: usize) -> (r: Result<Option<usize>>)
    requires
        old(st).wf(),
        pc < f.code@.len(),
        f.code@.len() <= isize::MAX,
        f.code@[pc as int] == bytecode::INTERN || f.code@[pc as int] == bytecode::STRCMP,
    ensures
        final(st).wf(),
        (final(st)@, r) == spec_step(f@, old(st)@, pc as int),
{
    let op = f.code[pc];
    if op == bytecode::STRCMP {
        let _rhs = st.stack.pop_value();
        let b: i64 = match st.cached_intern_id {
            Some(id) => match st.pool.resolve(id) {
                Some(bytes) => if bytes.len() > 0 { bytes[0] as i64 } else { 0 },
                None => 0,
            },
            None => 0,
        };
        st.stack.push_value(b);
        return Ok(Some(pc + 1));
    }
    let idx = match operand16_at(&f.code, pc) {
        Ok(v) => v,
        Err(e) => return Err(e),
    };
    if st.pool.len() >= 0xFFFF_FFFFusize {
        return Err(Error::VerifyFailed("intern pool full"));
    }
    let id = if idx < f.string_pool.len() {
        let bytes = f.string_pool[idx].as_str().as_bytes();
        assert(bytes@ == intern_key(f@.strings, idx as nat));
        st.pool.intern(bytes)
    } else {
        let mut name = String::new();
        name.append("k");
        push_dec(&mut name, idx as u64);
        proof {
            reveal_strlit("k");
            assert(name@ =~= seq!['k'] + dec_nat(idx as nat));
        }
        st.pool.intern(name.as_str().as_bytes())
    };
    if st.cached_intern_id.is_none() {
        st.cached_intern_id = Some(id);
    }
    st.stack.push_value(id.0 as i64);
    Ok(Some(pc + 3))
}

/// `OPENUPVAL`, `CLOSE`, `GETUPVAL`, `SETUPVAL`.
fn step_upvalue(f: &Function, st: &mut ExecState, pc: usize) -> (r: Result<Option<usize>>)
    requires
        old(st).wf(),
        pc < f.code@.len(),
        f.code@.len() <= isize::MAX,
        f.code@[pc as int] == bytecode::OPENUPVAL || f.code@[pc as int] == bytecode::CLOSE
            || f.code@[pc as int] == bytecode::GETUPVAL || f.code@[pc as int] == bytecode::SETUPVAL,
    ensures
        final(st).wf(),
        (final(st)@, r) == spec_step(f@, old(st)@, pc as int),
{
    let op = f.code[pc];
    let b = match operand8(&f.code, pc) {
        Ok(b) => b,
        Err(e) => return Err(e),
    };
    if op == bytecode::OPENUPVAL {
        let eff: u64 = st.stack.base as u64 + b as u64;
        if eff > 0xFFFF_FFFFu64 {
            return Err(Error::EffectiveSlotOutOfRange { pc: 0, eff: eff as u32 });
        }
        match st.stack.open_upvalue(b as u32) {
            Ok(_) => Ok(Some(pc + 2)),
            Err(e) => Err(e),
        }
    } else if op == bytecode::CLOSE {
        st.stack.close_from(b as usize);
        Ok(Some(pc + 2))
    } else if op == bytecode::GETUPVAL {
        if (b as usize) >= st.stack.upvalues.len() {
            return Err(Error::BadUpvalue { idx: b as u16 });
        }
        let u = st.stack.upvalues[b as usize];
        let v = u.get(st.stack.slots.as_slice());
        st.stack.push_value(v);
        Ok(Some(pc + 2))
    } else {
        let v = st.stack.pop_value();
        if (b as usize) >= st.stack.upvalues.len() {
            return Err(Error::BadUpvalue { idx: b as u16 });
        }
        let mut u = st.stack.upvalues[b as usize];
        u.set(&mut st.stack.slots, v);
        st.stack.upvalues.set(b as usize, u);
        Ok(Some(pc + 2))
    }
}

/// `GETFIELD` and `NEWARR`.
fn step_object(f: &Function, st: &mut ExecState, pc: usize) -> (r: Result<Option<usize>>)
    requires
        old(st).wf(),
        pc < f.code@.len(),
        f.code@.len() <= isize::MAX,
        f.code@[pc as int] == bytecode::GETFIELD || f.code@[pc as int] == bytecode::NEWARR,
    ensures
        final(st).wf(),
        (final(st)@, r) == spec_step(f@, old(st)@, pc as int),
{
    let op = f.code[pc];
    if op == bytecode::GETFIELD {
        let h = st.stack.pop_value();
        if h >= 0 && (h as u64) < (st.objects.len() as u64) {
            let kind = st.objects[h as usize].kind;
            st.stack.push_value(kind as i64);
            Ok(Some(pc + 4))
        } else {
            Err(Error::UntypedFieldAccess { block: pc })
        }
    } else {
        let n = st.objects.len();
        st.objects.push(Obj { kind: 0xA1, mark: 0 });
        st.stack.push_value(n as i64);
        Ok(Some(pc + 4))
    }
}

/// Any instruction but `CALL`.
fn step(f: &Function, st: &mut ExecState, pc: usize) -> (r: Result<Option<usize>>)
    requires
        old(st).wf(),
        pc < f.code@.len(),
        f.code@.len() <= isize::MAX,
        f.code@[pc as int] != bytecode::CALL,
    ensures
        final(st).wf(),
        (final(st)@, r) == spec_step(f@, old(st)@, pc as int),
{
    let op = f.code[pc];
    if op == bytecode::NOP || op == bytecode::PUSH8 || op == bytecode::WINDOW || op == bytecode::LOADLOCAL
        || op == bytecode::STORELOCAL || op == bytecode::SJMP || op == bytecode::LOADK {
        step_stack(f, st, pc)
    } else if op == bytecode::INTERN || op == bytecode::STRCMP {
        step_intern(f, st, pc)
    } else if op == bytecode::OPENUPVAL || op == bytecode::CLOSE || op == bytecode::GETUPVAL
        || op == bytecode::SETUPVAL {
        step_upvalue(f, st, pc)
    } else if op == bytecode::GETFIELD || op == bytecode::NEWARR {
        step_object(f, st, pc)
    } else if op == bytecode::RET {
        st.stack.close_upvalues();
        let _ = st.stack.calls.pop();
        Ok(None)
    } else if op == bytecode::TAIL {
        match operand16_at(&f.code, pc) {
            Ok(_) => Ok(None),
            Err(e) => Err(e),
        }
    } else if op == bytecode::THROW {
        Err(Error::Thrown)
    } else {
        Err(Error::UnknownOpcode { pc, op })
    }
}

/// How a run ended, the state it left, and the step budget it left unused.
pub struct Outcome {
    pub result: Result<()>,
    pub mach: Mach,
    pub fuel: nat,
}

/// Mathematical content of an optional module.
pub open spec fn module_view(module: Option<&Module>) -> Option<Seq<FnModel>> {
    match module {
        Some(m) => Some(m@),
        None => None,
    }
}

/// The function a `CALL idx` reaches, if the module has it.
pub open spec fn callee_of(module: Option<Seq<FnModel>>, idx: nat) -> Option<FnModel> {
    match module {
        Some(fs) => if idx < fs.len() { Some(fs[idx as int]) } else { None },
        None => None,
    }
}

/// Running `f` from its first instruction on a new call frame, with `fuel` steps.
pub open spec fn spec_run(fuel: nat, module: Option<Seq<FnModel>>, f: FnModel, s: Mach) -> Outcome
    decreases fuel, 1nat,
{
    spec_exec_from(fuel, module, f, Mach { calls: s.calls.push(CallFrame::spec_new(0, 0, s.base)), ..s }, 0)
}

/// Running `f` from `pc` with `fuel` steps. Each instruction costs a step; a run that has
/// instructions left and no steps fails with `CallDepth`. `CALL` pushes a frame, runs the
/// callee when the module has it (its error ends the caller too), and pops the frame.
pub open spec fn spec_exec_from(fuel: nat, module: Option<Seq<FnModel>>, f: FnModel, s: Mach, pc: nat) -> Outcome
    decreases fuel, 0nat,
{
    if pc >= f.code.len() {
        Outcome { result: Ok(()), mach: s, fuel }
    } else if fuel == 0 {
        Outcome { result: Err(Error::CallDepth { depth: s.calls.len() as usize }), mach: s, fuel: 0 }
    } else if f.code[pc as int] == bytecode::CALL {
        match operand16(f.code, pc as int) {
            None => Outcome { result: Err(Error::TruncatedInstr { pc: pc as usize }), mach: s, fuel: (fuel - 1) as nat },
            Some(idx) => {
                let s1 = Mach { calls: s.calls.push(CallFrame::spec_new(idx as u32, (pc + 3) as usize, s.base)), ..s };
                let inner = match callee_of(module, idx) {
                    Some(g) => spec_run((fuel - 1) as nat, module, g, s1),
                    None => Outcome { result: Ok(()), mach: s1, fuel: (fuel - 1) as nat },
                };
                if inner.result is Err {
                    inner
                } else {
                    let rest: nat = if inner.fuel < fuel - 1 { inner.fuel } else { (fuel - 1) as nat };
                    spec_exec_from(rest, module, f, Mach { calls: pop_frame(inner.mach.calls), ..inner.mach }, pc + 3)
                }
            },
        }
    } else {
        let (s2, r) = spec_step(f, s, pc as int);
        match r {
            Ok(Some(n)) => spec_exec_from((fuel - 1) as nat, module, f, s2, n as nat),
            Ok(None) => Outcome { result: Ok(()), mach: s2, fuel: (fuel - 1) as nat },
            Err(e) => Outcome { result: Err(e), mach: s2, fuel: (fuel - 1) as nat },
        }
    }
}

/// `PUSH8 b` pushes the immediate byte read as a signed 8-bit value (so bytes 128..=255
/// push negative numbers), goes on two bytes later, and changes nothing else.
pub proof fn law_push8_pushes_signed_byte(f: FnModel, s: Mach, pc: int)
    requires
        0 <= pc,
        pc + 1 < f.code.len(),
        f.code[pc] == bytecode::PUSH8,
        pc + 2 <= usize::MAX,
    ensures
        spec_step(f, s, pc).1 == Ok::<Option<usize>, Error>(Some((pc + 2) as usize)),
        spec_step(f, s, pc).0.slots.len() == s.slots.len() + 1,
        spec_step(f, s, pc).0.slots.drop_last() == s.slots,
        spec_step(f, s, pc).0.slots.last() as int
            == (if f.code[pc + 1] < 128 { f.code[pc + 1] as int } else { f.code[pc + 1] as int - 256 }),
        spec_step(f, s, pc).0 == (Mach { slots: spec_step(f, s, pc).0.slots, ..s }),
{
    let b = f.code[pc + 1];
    let v = (b as i8) as i64;
    assert(v as int == (if b < 128 { b as int } else { b as int - 256 })) by (bit_vector)
        requires
            v == (b as i8) as i64,
    ;
    assert(s.slots.push(v).drop_last() =~= s.slots);
}

/// Running `push8 b; ret` ends normally with the signed value of `b` on top of the stack,
/// which is otherwise as before.
pub proof fn law_push8_ret_leaves_signed_byte(fuel: nat, module: Option<Seq<FnModel>>, f: FnModel, s: Mach, b: u8)
    requires
        f.code == seq![bytecode::PUSH8, b, bytecode::RET],
        fuel >= 2,
    ensures
        spec_run(fuel, module, f, s).result == Ok::<(), Error>(()),
        spec_run(fuel, module, f, s).mach.slots == s.slots.push((if b < 128 { b as int } else { b as int - 256 }) as i64),
{
    let s0 = Mach { calls: s.calls.push(CallFrame::spec_new(0, 0, s.base)), ..s };
    law_push8_pushes_signed_byte(f, s0, 0);
    let s1 = spec_step(f, s0, 0).0;
    assert(spec_exec_from(fuel, module, f, s0, 0) == spec_exec_from((fuel - 1) as nat, module, f, s1, 2));
    assert(spec_step(f, s1, 2).1 == Ok::<Option<usize>, Error>(None));
    assert(spec_step(f, s1, 2).0.slots == s1.slots);
    assert(s1.slots == s.slots.push(s1.slots.last())) by {
        assert(s1.slots =~= s1.slots.drop_last().push(s1.slots.last()));
    }
}

/// `LOADLOCAL b` pushes a copy of the slot `base + b` when it exists, and goes on three
/// bytes later; past the end of the value stack it fails and changes nothing.
pub proof fn law_loadlocal_copies_slot(f: FnModel, s: Mach, pc: int)
    requires
        0 <= pc,
        pc + 1 < f.code.len(),
        f.code[pc] == bytecode::LOADLOCAL,
        pc + 3 <= usize::MAX,
    ensures
        ({
            let e = s.base + f.code[pc + 1];
            let (s2, r) = spec_step(f, s, pc);
            &&& e < s.slots.len() ==> r == Ok::<Option<usize>, Error>(Some((pc + 3) as usize))
                && s2 == (Mach { slots: s.slots.push(s.slots[e]), ..s })
            &&& e >= s.slots.len() ==> r is Err && s2 == s
        }),
{
}

/// `STORELOCAL b` pops the top value into the slot `base + b` of what remains, leaving the
/// other slots alone; a following `LOADLOCAL b` pushes the stored value back.
pub proof fn law_storelocal_then_loadlocal(f: FnModel, s: Mach, pc: int, q: int)
    requires
        0 <= pc,
        pc + 1 < f.code.len(),
        f.code[pc] == bytecode::STORELOCAL,
        0 <= q,
        q + 1 < f.code.len(),
        f.code[q] == bytecode::LOADLOCAL,
        f.code[q + 1] == f.code[pc + 1],
        q + 3 <= usize::MAX,
        pc + 3 <= usize::MAX,
        s.slots.len() > 0,
        s.base + f.code[pc + 1] < s.slots.len() - 1,
    ensures
        ({
            let e = s.base + f.code[pc + 1];
            let (s2, r) = spec_step(f, s, pc);
            &&& r == Ok::<Option<usize>, Error>(Some((pc + 3) as usize))
            &&& s2.slots.len() == s.slots.len() - 1
            &&& s2.slots[e] == s.slots.last()
            &&& forall|j: int| 0 <= j < s2.slots.len() && j != e ==> #[trigger] s2.slots[j] == s.slots[j]
            &&& s2 == (Mach { slots: s2.slots, ..s })
            &&& spec_step(f, s2, q).0.slots == s2.slots.push(s.slots.last())
        }),
{
}

/// `SJMP b` moves to `pc + 2` plus `b` read as a signed byte (ending the function when that
/// is negative) and changes no state.
pub proof fn law_sjmp_target(f: FnModel, s: Mach, pc: int)
    requires
        0 <= pc,
        pc + 1 < f.code.len(),
        f.code[pc] == bytecode::SJMP,
        pc + 2 + 127 <= usize::MAX,
    ensures
        ({
            let b = f.code[pc + 1];
            let t = pc + 2 + (if b < 128 { b as int } else { b as int - 256 });
            &&& spec_step(f, s, pc).0 == s
            &&& t >= 0 ==> spec_step(f, s, pc).1 == Ok::<Option<usize>, Error>(Some(t as usize))
            &&& t < 0 ==> spec_step(f, s, pc).1 == Ok::<Option<usize>, Error>(None)
        }),
{
    let b = f.code[pc + 1];
    assert((b as i8) as int == (if b < 128 { b as int } else { b as int - 256 })) by (bit_vector);
}

/// `LOADK i` pushes constant `i` when it exists and fails otherwise; `NOP` only moves on;
/// `THROW` fails with `Thrown`; `RET` ends the function and leaves the value stack alone.
pub proof fn law_simple_steps(f: FnModel, s: Mach, pc: int)
    requires
        0 <= pc < f.code.len(),
        pc + 3 <= usize::MAX,
    ensures
        f.code[pc] == bytecode::LOADK && pc + 2 < f.code.len() ==> ({
            let i = f.code[pc + 1] as int + 256 * (f.code[pc + 2] as int);
            &&& i < f.consts.len() ==> spec_step(f, s, pc) == (Mach { slots: s.slots.push(f.consts[i]), ..s },
                Ok::<Option<usize>, Error>(Some((pc + 3) as usize)))
            &&& i >= f.consts.len() ==> spec_step(f, s, pc).1 is Err
        }),
        f.code[pc] == bytecode::NOP ==> spec_step(f, s, pc) == (s, Ok::<Option<usize>, Error>(Some((pc + 1) as usize))),
        f.code[pc] == bytecode::THROW ==> spec_step(f, s, pc) == (s, Err::<Option<usize>, Error>(Error::Thrown)),
        f.code[pc] == bytecode::RET ==> spec_step(f, s, pc).1 == Ok::<Option<usize>, Error>(None)
            && spec_step(f, s, pc).0.slots == s.slots,
{
}

/// `NEWARR` pushes a handle to a new object of the array kind; `GETFIELD` on that handle
/// replaces it with the object's kind.
pub proof fn law_newarr_then_getfield(f: FnModel, s: Mach, pc: int, q: int)
    requires
        0 <= pc < f.code.len(),
        0 <= q < f.code.len(),
        f.code[pc] == bytecode::NEWARR,
        f.code[q] == bytecode::GETFIELD,
        pc + 4 <= usize::MAX,
        q + 4 <= usize::MAX,
        s.objects.len() < i64::MAX,
    ensures
        ({
            let (s2, r) = spec_step(f, s, pc);
            &&& r == Ok::<Option<usize>, Error>(Some((pc + 4) as usize))
            &&& s2.slots == s.slots.push(s.objects.len() as i64)
            &&& s2.objects == s.objects.push(new_array_obj())
            &&& spec_step(f, s2, q).1 == Ok::<Option<usize>, Error>(Some((q + 4) as usize))
            &&& spec_step(f, s2, q).0.slots == s.slots.push(0xA1i64)
        }),
{
    let s2 = spec_step(f, s, pc).0;
    assert(s2.slots.drop_last() =~= s.slots);
}

/// `SETUPVAL b` pops the top value and writes it through upvalue `b`; a following
/// `GETUPVAL b` reads it back, when the upvalue is closed or refers to a slot that remains.
pub proof fn law_setupval_then_getupval(f: FnModel, s: Mach, pc: int, q: int)
    requires
        0 <= pc,
        pc + 1 < f.code.len(),
        0 <= q,
        q + 1 < f.code.len(),
        f.code[pc] == bytecode::SETUPVAL,
        f.code[q] == bytecode::GETUPVAL,
        f.code[q + 1] == f.code[pc + 1],
        pc + 2 <= usize::MAX,
        q + 2 <= usize::MAX,
        s.slots.len() > 0,
        (f.code[pc + 1] as int) < s.upvalues.len(),
        s.upvalues[f.code[pc + 1] as int].closed
            || (s.upvalues[f.code[pc + 1] as int].open_index matches Some(i) && i < s.slots.len() - 1),
    ensures
        ({
            let (s2, r) = spec_step(f, s, pc);
            &&& r == Ok::<Option<usize>, Error>(Some((pc + 2) as usize))
            &&& spec_step(f, s2, q).1 == Ok::<Option<usize>, Error>(Some((q + 2) as usize))
            &&& spec_step(f, s2, q).0.slots.last() == s.slots.last()
        }),
{
}

/// `OPENUPVAL b` adds an open upvalue on the slot `base + b`; reading it with `GETUPVAL`
/// pushes that slot's value.
pub proof fn law_openupval_reads_slot(f: FnModel, s: Mach, pc: int, q: int)
    requires
        0 <= pc,
        pc + 1 < f.code.len(),
        0 <= q,
        q + 1 < f.code.len(),
        f.code[pc] == bytecode::OPENUPVAL,
        f.code[q] == bytecode::GETUPVAL,
        f.code[q + 1] as int == s.upvalues.len(),
        pc + 2 <= usize::MAX,
        q + 2 <= usize::MAX,
        s.base + f.code[pc + 1] < s.slots.len(),
        s.base + f.code[pc + 1] <= u32::MAX,
    ensures
        ({
            let (s2, r) = spec_step(f, s, pc);
            &&& r == Ok::<Option<usize>, Error>(Some((pc + 2) as usize))
            &&& s2.upvalues.len() == s.upvalues.len() + 1
            &&& s2.slots == s.slots
            &&& spec_step(f, s2, q).0.slots == s.slots.push(s.slots[s.base + f.code[pc + 1]])
        }),
{
}

/// `WINDOW b` moves the frame base by `b` read as a signed byte, stopping at zero; `TAIL`
/// ends the function; `GETFIELD` on a value that is no object handle fails after popping
/// it; `STRCMP` replaces the top value by the first byte of the cached interned string;
/// `RET` ends the function, closes every upvalue on the value it reads and pops the call
/// frame.
pub proof fn law_frame_and_exit_steps(f: FnModel, s: Mach, pc: int)
    requires
        0 <= pc < f.code.len(),
        pc + 4 <= usize::MAX,
    ensures
        f.code[pc] == bytecode::WINDOW && pc + 1 < f.code.len() ==> ({
            let b = f.code[pc + 1];
            let nb = s.base as int + (if b < 128 { b as int } else { b as int - 256 });
            spec_step(f, s, pc) == (Mach { base: (if nb < 0 { 0 } else { nb }) as u32, ..s },
                Ok::<Option<usize>, Error>(Some((pc + 2) as usize)))
        }),
        f.code[pc] == bytecode::TAIL && pc + 2 < f.code.len() ==> spec_step(f, s, pc) == (s, Ok::<Option<usize>, Error>(None)),
        f.code[pc] == bytecode::GETFIELD && s.slots.len() > 0 && !(0 <= s.slots.last() < s.objects.len())
            ==> spec_step(f, s, pc) == (Mach { slots: s.slots.drop_last(), ..s },
                Err::<Option<usize>, Error>(Error::UntypedFieldAccess { block: pc as usize })),
        f.code[pc] == bytecode::STRCMP && s.slots.len() > 0 ==> spec_step(f, s, pc)
            == (Mach { slots: s.slots.drop_last().push(cached_first_byte(s.entries, s.cached)), ..s },
                Ok::<Option<usize>, Error>(Some((pc + 1) as usize))),
        f.code[pc] == bytecode::RET ==> ({
            let s2 = spec_step(f, s, pc).0;
            &&& s2.calls == (if s.calls.len() == 0 { s.calls } else { s.calls.drop_last() })
            &&& s2.slots == s.slots
            &&& s2.upvalues.len() == s.upvalues.len()
            &&& forall|k: int| 0 <= k < s.upvalues.len() ==> (#[trigger] s2.upvalues[k]).closed
                    == (s.upvalues[k].closed || s.upvalues[k].open_index is Some)
                && uv_value(s2.upvalues[k], s2.slots) == uv_value(s.upvalues[k], s.slots)
        }),
{
    if f.code[pc] == bytecode::WINDOW && pc + 1 < f.code.len() {
        let b = f.code[pc + 1];
        assert(((b as i8) as i16) as int == (if b < 128 { b as int } else { b as int - 256 })) by (bit_vector);
    }
}

/// `INTERN i` interns the function's string `i` (or `k<i>` when it has none) and pushes its
/// id: without a hash collision, the pushed id names exactly those bytes in the pool, an
/// already interned string keeps its id, and the first interned id is remembered for
/// `STRCMP`.
pub proof fn law_intern_pushes_its_id(f: FnModel, s: Mach, pc: int)
    requires
        0 <= pc,
        pc + 2 < f.code.len(),
        f.code[pc] == bytecode::INTERN,
        pc + 3 <= usize::MAX,
        s.entries.len() < u32::MAX,
        crate::intern::hashes_distinct(s.entries),
        crate::intern::no_collision(s.entries,
            intern_key(f.strings, f.code[pc + 1] as nat + 256 * (f.code[pc + 2] as nat))),
    ensures
        ({
            let key = intern_key(f.strings, f.code[pc + 1] as nat + 256 * (f.code[pc + 2] as nat));
            let (s2, r) = spec_step(f, s, pc);
            let id = s2.slots.last();
            &&& r == Ok::<Option<usize>, Error>(Some((pc + 3) as usize))
            &&& s2.slots.drop_last() == s.slots
            &&& 0 <= id < s2.entries.len()
            &&& s2.entries[id as int] == key
            &&& forall|j: int| 0 <= j < s.entries.len() ==> #[trigger] s2.entries[j] == s.entries[j]
            &&& s.entries.contains(key) ==> s2.entries == s.entries
            &&& s2.cached == (if s.cached is None { Some(InternId(id as u32)) } else { s.cached })
        }),
{
    let key = intern_key(f.strings, f.code[pc + 1] as nat + 256 * (f.code[pc + 2] as nat));
    crate::intern::law_intern_without_collision(s.entries, key);
    let s2 = spec_step(f, s, pc).0;
    assert(s2.slots.drop_last() =~= s.slots);
}

/// A `CALL i` costs one step and leaves the call stack as it found it: when the module has
/// no function `i`, execution simply goes on three bytes later with the same state; when
/// the callee fails, the caller fails with the same error; a run out of steps fails with
/// `CallDepth`; and reaching the end of the code ends the run normally with the state as is.
pub proof fn law_call_and_run_edges(fuel: nat, module: Option<Seq<FnModel>>, f: FnModel, s: Mach, pc: nat)
    requires
        pc + 3 <= usize::MAX,
    ensures
        pc >= f.code.len() ==> spec_exec_from(fuel, module, f, s, pc) == (Outcome { result: Ok(()), mach: s, fuel }),
        pc < f.code.len() && fuel == 0 ==> spec_exec_from(fuel, module, f, s, pc).result
            == Err::<(), Error>(Error::CallDepth { depth: s.calls.len() as usize }),
        pc + 2 < f.code.len() && fuel > 0 && f.code[pc as int] == bytecode::CALL ==> ({
            let i = f.code[pc + 1int] as nat + 256 * (f.code[pc + 2int] as nat);
            &&& callee_of(module, i) is None ==> spec_exec_from(fuel, module, f, s, pc)
                == spec_exec_from((fuel - 1) as nat, module, f, s, pc + 3)
            &&& callee_of(module, i) matches Some(g) ==> {
                let inner = spec_run((fuel - 1) as nat,
                    module, g, Mach { calls: s.calls.push(CallFrame::spec_new(i as u32, (pc + 3) as usize, s.base)), ..s });
                inner.result is Err ==> spec_exec_from(fuel, module, f, s, pc).result == inner.result
            }
        }),
{
    if pc + 2 < f.code.len() && fuel > 0 && f.code[pc as int] == bytecode::CALL {
        let i = f.code[pc + 1int] as nat + 256 * (f.code[pc + 2int] as nat);
        let s1 = Mach { calls: s.calls.push(CallFrame::spec_new(i as u32, (pc + 3) as usize, s.base)), ..s };
        assert(pop_frame(s1.calls) == s.calls) by {
            assert(s1.calls.drop_last() =~= s.calls);
        }
        assert(Mach { calls: pop_frame(s1.calls), ..s1 } == s);
    }
}

/// `CLOSE b` closes the upvalues from position `b` on, each keeping the value it reads,
/// leaves the earlier upvalues and the value stack alone, and moves on two bytes.
pub proof fn law_close_from(f: FnModel, s: Mach, pc: int)
    requires
        0 <= pc,
        pc + 1 < f.code.len(),
        f.code[pc] == bytecode::CLOSE,
        pc + 2 <= usize::MAX,
    ensures
        ({
            let b = f.code[pc + 1] as int;
            let (s2, r) = spec_step(f, s, pc);
            &&& r == Ok::<Option<usize>, Error>(Some((pc + 2) as usize))
            &&& s2.slots == s.slots
            &&& s2.upvalues.len() == s.upvalues.len()
            &&& forall|k: int| 0 <= k < s.upvalues.len() ==> {
                &&& k < b ==> #[trigger] s2.upvalues[k] == s.upvalues[k]
                &&& k >= b ==> s2.upvalues[k].closed == (s.upvalues[k].closed || s.upvalues[k].open_index is Some)
                &&& uv_value(s2.upvalues[k], s2.slots) == uv_value(s.upvalues[k], s.slots)
            }
        }),
{
}

/// Runs `f` with a budget of `fuel` steps; returns the result and the unused budget.
fn run_fuelled(f: &Function, module: Option<&Module>, st: &mut ExecState, fuel: u64) -> (r: (Result<()>, u64))
    requires
        old(st).wf(),
    ensures
        final(st).wf(),
        ({
            let o = spec_run(fuel as nat, module_view(module), f@, old(st)@);
            r.0 == o.result && final(st)@ == o.mach && r.1 == o.fuel
        }),
    decreases fuel,
{
    let ghost mv = module_view(module);
    let n = byte_len(f.code.as_slice());
    let _ = st.stack.calls.push(CallFrame::new(0, 0, st.stack.base));
    let mut pc: usize = 0;
    let mut left: u64 = fuel;
    loop
        invariant
            st.wf(),
            left <= fuel,
            n == f.code@.len(),
            n <= isize::MAX,
            mv == module_view(module),
            spec_exec_from(left as nat, mv, f@, st@, pc as nat) == spec_run(fuel as nat, mv, f@, old(st)@),
        decreases left,
    {
        if pc >= n {
            return (Ok(()), left);
        }
        if left == 0 {
            return (Err(Error::CallDepth { depth: st.stack.calls.depth() }), 0);
        }
        left = left - 1;
        let op = f.code[pc];
        if op == bytecode::CALL {
            let idx = match operand16_at(&f.code, pc) {
                Ok(v) => v,
                Err(e) => return (Err(e), left),
            };
            let child = CallFrame::new(idx as u32, pc + 3, st.stack.base);
            let _ = st.stack.calls.push(child);
            match module {
                Some(m) => match m.get(idx) {
                    Some(callee) => {
                        proof {
                            assert(callee_of(mv, idx as nat) == Some(callee@));
                        }
                        let (res, rest) = run_fuelled(callee, module, st, left);
                        match res {
                            Ok(()) => {},
                            Err(e) => return (Err(e), rest),
                        }
                        left = if rest < left { rest } else { left };
                    },
                    None => {},
                },
                None => {},
            }
            let _ = st.stack.calls.pop();
            pc = pc + 3;
        } else {
            match step(f, st, pc) {
                Ok(Some(next)) => {
                    pc = next;
                },
                Ok(None) => return (Ok(()), left),
                Err(e) => return (Err(e), left),
            }
        }
    }
}

/// Runs `f` on `st` with a new call frame: `RET` or the end of the code ends it, `TAIL` returns
/// at once, `THROW` fails with `Thrown`. The step budget is `u64::MAX` instructions.
pub fn run_function_state(f: &Function, module: Option<&Module>, st: &mut ExecState) -> (r: Result<()>)
    requires
        old(st).wf(),
    ensures
        final(st).wf(),
        r == spec_run(u64::MAX as nat, module_view(module), f@, old(st)@).result,
        final(st)@ == spec_run(u64::MAX as nat, module_view(module), f@, old(st)@).mach,
{
    let (r, _) = run_fuelled(f, module, st, 0xFFFF_FFFF_FFFF_FFFFu64);
    r
}

/// Values of the upvalues, read against the current slots.
pub fn harvest_upvalues(st: &ExecState) -> (r: Vec<i64>)
    ensures
        r@ == Seq::new(st.stack.upvalues@.len(), |i: int| uv_value(st.stack.upvalues@[i], st.stack.slots@)),
{
    let mut out: Vec<i64> = Vec::new();
    let mut i: usize = 0;
    while i < st.stack.upvalues.len()
        invariant
            i <= st.stack.upvalues@.len(),
            out@ == Seq::new(i as nat, |k: int| uv_value(st.stack.upvalues@[k], st.stack.slots@)),
        decreases st.stack.upvalues@.len() - i,
    {
        let v = st.stack.upvalues[i].get(st.stack.slots.as_slice());
        out.push(v);
        i += 1;
        assert(out@ =~= Seq::new(i as nat, |k: int| uv_value(st.stack.upvalues@[k], st.stack.slots@)));
    }
    out
}

/// State a run leaves: a thrown run releases the value slots.
pub open spec fn after_run(o: Outcome) -> Mach {
    if o.result == Err::<(), Error>(Error::Thrown) { Mach { slots: Seq::empty(), ..o.mach } } else { o.mach }
}

/// Runs `f` and, when it throws, releases the value slots before reporting `Thrown`.
pub fn run_with_state(f: &Function, module: Option<&Module>, st: &mut ExecState) -> (r: Result<()>)
    requires
        old(st).wf(),
    ensures
        final(st).wf(),
        r == spec_run(u64::MAX as nat, module_view(module), f@, old(st)@).result,
        final(st)@ == after_run(spec_run(u64::MAX as nat, module_view(module), f@, old(st)@)),
{
    match run_function_state(f, module, st) {
        Err(Error::Thrown) => {
            st.stack.slots.clear();
            let _ = harvest_upvalues(st);
            Err(Error::Thrown)
        },
        other => other,
    }
}

/// Pool content and compaction count after interning each of `items` into a new pool.
pub open spec fn preload(items: Seq<Seq<u8>>) -> (Seq<Seq<u8>>, u32)
    decreases items.len(),
{
    if items.len() == 0 {
        (Seq::empty(), 0)
    } else {
        let (e, c) = preload(items.drop_last());
        (spec_intern(e, items.last()), spec_compactions_after(e, c, items.last()))
    }
}

/// Starting state of `run_function`: a frame of at least 64 slots and the function's strings
/// already interned.
pub open spec fn preloaded_mach(f: FnModel) -> Mach {
    let p = preload(crate::encode::utf8_items(f.strings));
    Mach {
        entries: p.0,
        compactions: p.1,
        ..initial_mach(if f.frame_size > 64 { f.frame_size } else { 64 })
    }
}

/// Runs a lone function on a fresh state with its strings interned first.
pub fn run_function(f: &Function) -> (r: Result<()>)
    requires
        f@.strings.len() < u32::MAX,
    ensures
        r == spec_run(u64::MAX as nat, None, f@, preloaded_mach(f@)).result,
{
    let size = if f.frame_size > 64 { f.frame_size } else { 64 };
    let mut st = ExecState::new(size);
    let ghost items = crate::encode::utf8_items(f@.strings);
    let mut i: usize = 0;
    while i < f.string_pool.len()
        invariant
            st.wf(),
            i <= f.string_pool@.len(),
            f.string_pool@.len() < u32::MAX,
            items == crate::encode::utf8_items(f@.strings),
            st.pool.spec_entries().len() <= i,
            st@ == (Mach {
                entries: preload(items.subrange(0, i as int)).0,
                compactions: preload(items.subrange(0, i as int)).1,
                ..initial_mach(size)
            }),
        decreases f.string_pool@.len() - i,
    {
        let b = f.string_pool[i].as_str().as_bytes();
        let _ = st.pool.intern(b);
        proof {
            assert(items[i as int] == b@);
            assert(items.subrange(0, i + 1).drop_last() =~= items.subrange(0, i as int));
        }
        i += 1;
    }
    assert(items.subrange(0, i as int) =~= items);
    run_function_state(f, None, &mut st)
}

/// Runs the module's entry function (the first) on a fresh state sized by its frame.
pub fn run_module(m: &Module) -> (r: Result<()>)
    ensures
        m@.len() == 0 ==> r == Err::<(), Error>(Error::VerifyFailed("no entry")),
        m@.len() > 0 ==> r == spec_run(u64::MAX as nat, Some(m@), m@[0], initial_mach(m@[0].frame_size)).result,
{
    let entry = match m.entry() {
        Some(e) => e,
        None => return Err(Error::VerifyFailed("no entry")),
    };
    let mut st = ExecState::new(entry.frame_size);
    run_with_state(entry, Some(m), &mut st)
}

/// Runs a lone function on a fresh state sized by its frame; no strings are pre-interned.
pub fn run_safe(f: &Function) -> (r: Result<()>)
    ensures
        r == spec_run(u64::MAX as nat, None, f@, initial_mach(f.frame_size)).result,
{
    let mut st = ExecState::new(f.frame_size);
    run_with_state(f, None, &mut st)
}

/// Same as `run_module`.
pub fn run_module_safe(m: &Module) -> (r: Result<()>)
    ensures
        m@.len() == 0 ==> r == Err::<(), Error>(Error::VerifyFailed("no entry")),
        m@.len() > 0 ==> r == spec_run(u64::MAX as nat, Some(m@), m@[0], initial_mach(m@[0].frame_size)).result,
{
    run_module(m)
}

} // verus!
