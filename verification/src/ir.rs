//! A lowered, instruction-per-entry view of bytecode for analyses.
use vstd::prelude::*;
use crate::bytecode;
use crate::bytecode::{lenient_len, lenient_instr_len};
use crate::module::Function;
use crate::bytecode::spec_instr_len;
use crate::decode::{Decoded, decoded_of, spec_decode_all, spec_decode_from};

verus! {

#[derive(Clone, Copy, Debug, PartialEq, Eq, Structural)]
pub enum IrOp {
    Nop,
    Push(i8),
    Window(i8),
    Jump { rel: i8, from: usize },
    LoadK(u16),
    LoadLocal(u16),
    StoreLocal(u16),
    Intern(u16),
    StrCmp,
    Call(u16),
    Tail(u16),
    Close,
    GetUp(u16),
    SetUp(u16),
    Throw,
    OpenUp(u16),
    NewArr(u32),
    GetField(u32),
    Ret,
    Raw(u8),
}

#[derive(Clone, Copy, Debug, PartialEq, Eq, Structural)]
pub struct IrInst {
    pub pc: usize,
    pub op: IrOp,
}

/// The byte at `i`, zero past the end.
pub open spec fn byte_or_zero(code: Seq<u8>, i: int) -> u8 {
    if 0 <= i < code.len() { code[i] } else { 0 }
}

/// Little-endian 16-bit operand after `pc`, missing bytes read as zero.
pub open spec fn spec_read_u16(code: Seq<u8>, pc: int) -> u16 {
    (byte_or_zero(code, pc + 1) as int + 256 * (byte_or_zero(code, pc + 2) as int)) as u16
}

/// Little-endian 24-bit operand after `pc`, missing bytes read as zero.
pub open spec fn spec_read_u24(code: Seq<u8>, pc: int) -> u32 {
    (byte_or_zero(code, pc + 1) as int + 256 * (byte_or_zero(code, pc + 2) as int)
        + 65536 * (byte_or_zero(code, pc + 3) as int)) as u32
}

/// Lowered form of the instruction at `pc` (an opcode missing its operand is `Raw`).
pub open spec fn lower_op(code: Seq<u8>, pc: int) -> IrOp {
    let opc = code[pc];
    let has1 = pc + 1 < code.len();
    if opc == bytecode::NOP { IrOp::Nop }
    else if opc == bytecode::PUSH8 && has1 { IrOp::Push(code[pc + 1] as i8) }
    else if opc == bytecode::WINDOW && has1 { IrOp::Window(code[pc + 1] as i8) }
    else if opc == bytecode::SJMP && has1 { IrOp::Jump { rel: code[pc + 1] as i8, from: pc as usize } }
    else if opc == bytecode::LOADK { IrOp::LoadK(spec_read_u16(code, pc)) }
    else if opc == bytecode::LOADLOCAL { IrOp::LoadLocal(spec_read_u16(code, pc)) }
    else if opc == bytecode::STORELOCAL { IrOp::StoreLocal(spec_read_u16(code, pc)) }
    else if opc == bytecode::INTERN { IrOp::Intern(spec_read_u16(code, pc)) }
    else if opc == bytecode::STRCMP { IrOp::StrCmp }
    else if opc == bytecode::CALL { IrOp::Call(spec_read_u16(code, pc)) }
    else if opc == bytecode::TAIL { IrOp::Tail(spec_read_u16(code, pc)) }
    else if opc == bytecode::CLOSE { IrOp::Close }
    else if opc == bytecode::GETUPVAL { IrOp::GetUp(spec_read_u16(code, pc)) }
    else if opc == bytecode::SETUPVAL { IrOp::SetUp(spec_read_u16(code, pc)) }
    else if opc == bytecode::THROW { IrOp::Throw }
    else if opc == bytecode::OPENUPVAL { IrOp::OpenUp(byte_or_zero(code, pc + 1) as u16) }
    else if opc == bytecode::NEWARR { IrOp::NewArr(spec_read_u24(code, pc)) }
    else if opc == bytecode::GETFIELD { IrOp::GetField(spec_read_u24(code, pc)) }
    else if opc == bytecode::RET { IrOp::Ret }
    else { IrOp::Raw(opc) }
}

/// Lowered instructions from `pc` on, walking unknown opcodes as one byte.
pub open spec fn lower_from(code: Seq<u8>, pc: nat) -> Seq<IrInst>
    decreases code.len() - pc,
{
    if pc >= code.len() {
        Seq::empty()
    } else {
        let next = pc + lenient_len(code[pc as int]);
        let here = seq![IrInst { pc: pc as usize, op: lower_op(code, pc as int) }];
        if next >= code.len() { here } else { here + lower_from(code, next) }
    }
}

fn byte_at_or_zero(code: &[u8], i: usize) -> (r: u8)
    ensures
        r == byte_or_zero(code@, i as int),
{
    if i < code.len() { code[i] } else { 0 }
}

fn read_u16(code: &[u8], pc: usize) -> (r: u16)
    requires
        pc + 2 <= usize::MAX,
    ensures
        r == spec_read_u16(code@, pc as int),
{
    let lo = byte_at_or_zero(code, pc + 1) as u16;
    let hi = byte_at_or_zero(code, pc + 2) as u16;
    lo + 256 * hi
}

pub fn read_u24(code: &[u8], pc: usize) -> (r: u32)
    requires
        pc + 3 <= usize::MAX,
    ensures
        r == spec_read_u24(code@, pc as int),
{
    let a = byte_at_or_zero(code, pc + 1) as u32;
    let b = byte_at_or_zero(code, pc + 2) as u32;
    let c = byte_at_or_zero(code, pc + 3) as u32;
    a + 256 * b + 65536 * c
}

fn lower_at(code: &[u8], pc: usize) -> (r: IrOp)
    requires
        pc < code@.len(),
        code@.len() <= isize::MAX,
    ensures
        r == lower_op(code@, pc as int),
{
    let opc = code[pc];
    let has1 = pc + 1 < code.len();
    if opc == bytecode::NOP { IrOp::Nop }
    else if opc == bytecode::PUSH8 && has1 { IrOp::Push(code[pc + 1] as i8) }
    else if opc == bytecode::WINDOW && has1 { IrOp::Window(code[pc + 1] as i8) }
    else if opc == bytecode::SJMP && has1 { IrOp::Jump { rel: code[pc + 1] as i8, from: pc } }
    else if opc == bytecode::LOADK { IrOp::LoadK(read_u16(code, pc)) }
    else if opc == bytecode::LOADLOCAL { IrOp::LoadLocal(read_u16(code, pc)) }
    else if opc == bytecode::STORELOCAL { IrOp::StoreLocal(read_u16(code, pc)) }
    else if opc == bytecode::INTERN { IrOp::Intern(read_u16(code, pc)) }
    else if opc == bytecode::STRCMP { IrOp::StrCmp }
    else if opc == bytecode::CALL { IrOp::Call(read_u16(code, pc)) }
    else if opc == bytecode::TAIL { IrOp::Tail(read_u16(code, pc)) }
    else if opc == bytecode::CLOSE { IrOp::Close }
    else if opc == bytecode::GETUPVAL { IrOp::GetUp(read_u16(code, pc)) }
    else if opc == bytecode::SETUPVAL { IrOp::SetUp(read_u16(code, pc)) }
    else if opc == bytecode::THROW { IrOp::Throw }
    else if opc == bytecode::OPENUPVAL { IrOp::OpenUp(byte_at_or_zero(code, pc + 1) as u16) }
    else if opc == bytecode::NEWARR { IrOp::NewArr(read_u24(code, pc)) }
    else if opc == bytecode::GETFIELD { IrOp::GetField(read_u24(code, pc)) }
    else if opc == bytecode::RET { IrOp::Ret }
    else { IrOp::Raw(opc) }
}

/// One entry per instruction, in code order.
pub fn lower(f: &Function) -> (r: Vec<IrInst>)
    ensures
        r@ == lower_from(f.code@, 0),
{
    let code = f.code.as_slice();
    let n = crate::bytes::byte_len(code);
    let mut out: Vec<IrInst> = Vec::new();
    let mut pc: usize = 0;
    while pc < n
        invariant
            n == code@.len(),
            n <= isize::MAX,
            pc <= n + 3,
            out@ + lower_from(code@, pc as nat) == lower_from(code@, 0),
        decreases n + 3 - pc,
    {
        let ghost before = out@;
        let op = lower_at(code, pc);
        out.push(IrInst { pc, op });
        let next = pc + lenient_instr_len(code[pc]);
        proof {
            if next < n {
                assert(out@ + lower_from(code@, next as nat) =~= before + lower_from(code@, pc as nat));
            } else {
                assert(out@ =~= before + lower_from(code@, pc as nat));
            }
        }
        pc = next;
    }
    assert(out@ + lower_from(code@, pc as nat) =~= out@);
    out
}

/// Number of entries satisfying `p`.
pub open spec fn count_where(ir: Seq<IrInst>, p: spec_fn(IrOp) -> bool) -> nat
    decreases ir.len(),
{
    if ir.len() == 0 { 0 } else { count_where(ir.drop_last(), p) + if p(ir.last().op) { 1nat } else { 0nat } }
}

pub open spec fn is_call(op: IrOp) -> bool {
    op is Call || op is Tail
}

pub open spec fn is_throw(op: IrOp) -> bool {
    op is Throw
}

/// Number of calls and tail calls.
pub open spec fn call_count(ir: Seq<IrInst>) -> nat {
    count_where(ir, |op: IrOp| is_call(op))
}

/// Number of throws.
pub open spec fn throw_count(ir: Seq<IrInst>) -> nat {
    count_where(ir, |op: IrOp| is_throw(op))
}

/// Number of calls and tail calls.
pub fn count_calls(ir: &[IrInst]) -> (r: usize)
    ensures
        r == call_count(ir@),
{
    let mut n: usize = 0;
    let mut i: usize = 0;
    assert(ir@.subrange(0, 0) =~= Seq::<IrInst>::empty());
    while i < ir.len()
        invariant
            i <= ir@.len(),
            n <= i,
            n == count_where(ir@.subrange(0, i as int), |op: IrOp| is_call(op)),
        decreases ir@.len() - i,
    {
        assert(ir@.subrange(0, i + 1).drop_last() =~= ir@.subrange(0, i as int));
        match ir[i].op {
            IrOp::Call(_) | IrOp::Tail(_) => n += 1,
            _ => {},
        }
        i += 1;
    }
    assert(ir@.subrange(0, i as int) =~= ir@);
    n
}

/// Number of throws.
pub fn count_throws(ir: &[IrInst]) -> (r: usize)
    ensures
        r == throw_count(ir@),
{
    let mut n: usize = 0;
    let mut i: usize = 0;
    assert(ir@.subrange(0, 0) =~= Seq::<IrInst>::empty());
    while i < ir.len()
        invariant
            i <= ir@.len(),
            n <= i,
            n == count_where(ir@.subrange(0, i as int), |op: IrOp| is_throw(op)),
        decreases ir@.len() - i,
    {
        assert(ir@.subrange(0, i + 1).drop_last() =~= ir@.subrange(0, i as int));
        match ir[i].op {
            IrOp::Throw => n += 1,
            _ => {},
        }
        i += 1;
    }
    assert(ir@.subrange(0, i as int) =~= ir@);
    n
}

/// (pc, delta) of each window adjustment, in order.
pub open spec fn window_list(ir: Seq<IrInst>) -> Seq<(usize, i8)>
    decreases ir.len(),
{
    if ir.len() == 0 {
        Seq::empty()
    } else {
        match ir.last().op {
            IrOp::Window(d) => window_list(ir.drop_last()).push((ir.last().pc, d)),
            _ => window_list(ir.drop_last()),
        }
    }
}

/// The window adjustments.
pub fn windows(ir: &[IrInst]) -> (r: Vec<(usize, i8)>)
    ensures
        r@ == window_list(ir@),
{
    let mut out: Vec<(usize, i8)> = Vec::new();
    let mut i: usize = 0;
    assert(ir@.subrange(0, 0) =~= Seq::<IrInst>::empty());
    while i < ir.len()
        invariant
            i <= ir@.len(),
            out@ == window_list(ir@.subrange(0, i as int)),
        decreases ir@.len() - i,
    {
        assert(ir@.subrange(0, i + 1).drop_last() =~= ir@.subrange(0, i as int));
        match ir[i].op {
            IrOp::Window(d) => out.push((ir[i].pc, d)),
            _ => {},
        }
        i += 1;
    }
    assert(ir@.subrange(0, i as int) =~= ir@);
    out
}


/// Whether a lowered instruction at `pc` agrees with the decoded one: the same operation
/// and operands, except that `close` keeps no operand and the upvalue operands of
/// `getupval` and `setupval`, read as 16 bits, agree with the decoded byte in their low byte.
pub open spec fn ir_matches(ir: IrOp, d: Decoded, pc: usize) -> bool {
    match d {
        Decoded::Nop => ir == IrOp::Nop,
        Decoded::Push8(v) => ir == IrOp::Push(v),
        Decoded::Window(v) => ir == IrOp::Window(v),
        Decoded::Sjmp(v) => ir == (IrOp::Jump { rel: v, from: pc }),
        Decoded::LoadK(v) => ir == IrOp::LoadK(v),
        Decoded::LoadLocal(v) => ir == IrOp::LoadLocal(v),
        Decoded::StoreLocal(v) => ir == IrOp::StoreLocal(v),
        Decoded::Intern(v) => ir == IrOp::Intern(v),
        Decoded::StrCmp => ir == IrOp::StrCmp,
        Decoded::Call(v) => ir == IrOp::Call(v),
        Decoded::Tail(v) => ir == IrOp::Tail(v),
        Decoded::Close(_) => ir == IrOp::Close,
        Decoded::GetUp(b) => ir matches IrOp::GetUp(x) && x % 256 == b,
        Decoded::SetUp(b) => ir matches IrOp::SetUp(x) && x % 256 == b,
        Decoded::Throw => ir == IrOp::Throw,
        Decoded::OpenUp(b) => ir == IrOp::OpenUp(b as u16),
        Decoded::NewArr(v) => ir == IrOp::NewArr(v),
        Decoded::GetField(v) => ir == IrOp::GetField(v),
        Decoded::Ret => ir == IrOp::Ret,
        Decoded::Unknown(op) => ir == IrOp::Raw(op),
    }
}

proof fn lemma_low_byte(b1: u8, b2: u8)
    ensures
        ((b1 as int + 256 * (b2 as int)) as u16) % 256 == b1,
{
    assert(b1 as int + 256 * (b2 as int) < 65536);
    assert((b1 as int + 256 * (b2 as int)) % 256 == b1) by (nonlinear_arith)
        requires
            b1 < 256,
    ;
}

proof fn lemma_lower_from_decode(code: Seq<u8>, pc: nat)
    requires
        spec_decode_from(code, pc) is Ok,
        code.len() <= usize::MAX,
    ensures
        lower_from(code, pc).len() == (spec_decode_from(code, pc)->Ok_0).len(),
        forall|i: int| 0 <= i < lower_from(code, pc).len() ==> {
            &&& (#[trigger] lower_from(code, pc)[i]).pc == (spec_decode_from(code, pc)->Ok_0)[i].0
            &&& ir_matches(lower_from(code, pc)[i].op, (spec_decode_from(code, pc)->Ok_0)[i].1,
                (spec_decode_from(code, pc)->Ok_0)[i].0)
        },
    decreases code.len() - pc,
{
    if pc < code.len() {
        let op = code[pc as int];
        let len = spec_instr_len(op).unwrap();
        lemma_lower_from_decode(code, pc + len);
        let rest = spec_decode_from(code, pc + len)->Ok_0;
        let l = spec_decode_from(code, pc)->Ok_0;
        let d = decoded_of(code, pc as int);
        let here = IrInst { pc: pc as usize, op: lower_op(code, pc as int) };
        let lr = lower_from(code, pc + len);
        assert(lower_from(code, pc) =~= seq![here] + lr);
        assert(l == seq![(pc as usize, d)] + rest);
        let p = pc as int;
        if op == bytecode::GETUPVAL || op == bytecode::SETUPVAL {
            lemma_low_byte(byte_or_zero(code, p + 1), byte_or_zero(code, p + 2));
        }
        assert(ir_matches(here.op, d, pc as usize));
        assert forall|i: int| 0 <= i < lower_from(code, pc).len() implies {
            &&& (#[trigger] lower_from(code, pc)[i]).pc == l[i].0
            &&& ir_matches(lower_from(code, pc)[i].op, l[i].1, l[i].0)
        } by {
            if i > 0 {
                assert(lower_from(code, pc)[i] == lr[i - 1]);
                assert(l[i] == rest[i - 1]);
            }
        }
    }
}

/// Number of entries of a decoded listing whose instruction satisfies `p`.
pub open spec fn decoded_count(list: Seq<(usize, Decoded)>, p: spec_fn(Decoded) -> bool) -> nat
    decreases list.len(),
{
    if list.len() == 0 { 0 } else { decoded_count(list.drop_last(), p) + if p(list.last().1) { 1nat } else { 0nat } }
}

/// A decoded call or tail call.
pub open spec fn is_decoded_call(d: Decoded) -> bool {
    d is Call || d is Tail
}

/// A decoded throw.
pub open spec fn is_decoded_throw(d: Decoded) -> bool {
    d is Throw
}

proof fn lemma_counts_agree(a: Seq<IrInst>, b: Seq<(usize, Decoded)>, p: spec_fn(IrOp) -> bool, q: spec_fn(Decoded) -> bool)
    requires
        a.len() == b.len(),
        forall|i: int| 0 <= i < a.len() ==> p(#[trigger] a[i].op) == q(b[i].1),
    ensures
        count_where(a, p) == decoded_count(b, q),
    decreases a.len(),
{
    if a.len() > 0 {
        let a1 = a.drop_last();
        let b1 = b.drop_last();
        assert forall|i: int| 0 <= i < a1.len() implies p(#[trigger] a1[i].op) == q(b1[i].1) by {
            assert(a1[i] == a[i] && b1[i] == b[i]);
        }
        lemma_counts_agree(a1, b1, p, q);
        assert(p(a[a.len() - 1].op) == q(b[b.len() - 1].1));
    }
}

/// Lowering code that decodes gives one entry per decoded instruction, at the same offset,
/// agreeing with it as `ir_matches` states; in particular a lowered jump stands exactly
/// where a `sjmp` was decoded, and the lowered code has as many calls (and tail calls) and
/// throws as the decoded code.
pub proof fn law_lower_matches_decode(code: Seq<u8>)
    requires
        spec_decode_all(code) is Ok,
        code.len() <= usize::MAX,
    ensures
        lower_from(code, 0).len() == (spec_decode_all(code)->Ok_0).len(),
        forall|i: int| 0 <= i < lower_from(code, 0).len() ==> {
            &&& (#[trigger] lower_from(code, 0)[i]).pc == (spec_decode_all(code)->Ok_0)[i].0
            &&& ir_matches(lower_from(code, 0)[i].op, (spec_decode_all(code)->Ok_0)[i].1,
                (spec_decode_all(code)->Ok_0)[i].0)
            &&& ((spec_decode_all(code)->Ok_0)[i].1 is Sjmp <==> lower_from(code, 0)[i].op is Jump)
        },
        call_count(lower_from(code, 0)) == decoded_count(spec_decode_all(code)->Ok_0, |d: Decoded| is_decoded_call(d)),
        throw_count(lower_from(code, 0)) == decoded_count(spec_decode_all(code)->Ok_0, |d: Decoded| is_decoded_throw(d)),
{
    lemma_lower_from_decode(code, 0);
    let ir = lower_from(code, 0);
    let l = spec_decode_all(code)->Ok_0;
    assert forall|i: int| 0 <= i < ir.len() implies
        (l[i].1 is Sjmp <==> (#[trigger] ir[i]).op is Jump)
        && is_call(ir[i].op) == is_decoded_call(l[i].1)
        && is_throw(ir[i].op) == is_decoded_throw(l[i].1) by {
        assert(ir_matches(ir[i].op, l[i].1, l[i].0));
    }
    lemma_counts_agree(ir, l, |op: IrOp| is_call(op), |d: Decoded| is_decoded_call(d));
    lemma_counts_agree(ir, l, |op: IrOp| is_throw(op), |d: Decoded| is_decoded_throw(d));
}
} // verus!
