//! Opcode set and instruction sizing.
use vstd::prelude::*;
use crate::error::Error;

verus! {

pub const NOP: u8 = 0x00;
pub const PUSH8: u8 = 0x01;
pub const WINDOW: u8 = 0x02;
pub const SJMP: u8 = 0x20;
pub const LOADK: u8 = 0x30;
pub const LOADLOCAL: u8 = 0x31;
pub const STORELOCAL: u8 = 0x32;
pub const INTERN: u8 = 0x33;
pub const STRCMP: u8 = 0x34;
pub const CALL: u8 = 0x35;
pub const TAIL: u8 = 0x36;
pub const CLOSE: u8 = 0x37;
pub const GETUPVAL: u8 = 0x38;
pub const SETUPVAL: u8 = 0x39;
pub const THROW: u8 = 0x3A;
pub const OPENUPVAL: u8 = 0x3B;
pub const NEWARR: u8 = 0x40;
pub const GETFIELD: u8 = 0x41;
pub const RET: u8 = 0xFF;

/// Encoded length of an instruction by opcode, `None` for an unknown opcode.
pub open spec fn spec_instr_len(op: u8) -> Option<nat> {
    if op == NOP || op == RET || op == STRCMP || op == THROW {
        Some(1)
    } else if op == PUSH8 || op == WINDOW || op == SJMP || op == CLOSE || op == GETUPVAL
        || op == SETUPVAL || op == OPENUPVAL {
        Some(2)
    } else if op == LOADK || op == LOADLOCAL || op == STORELOCAL || op == INTERN || op == CALL
        || op == TAIL {
        Some(3)
    } else if op == NEWARR || op == GETFIELD {
        Some(4)
    } else {
        None
    }
}


/// Canonical mnemonic of an opcode; empty for an unknown opcode.
pub open spec fn mnemonic(op: u8) -> Seq<char> {
    if op == NOP { "nop"@ }
    else if op == PUSH8 { "push8"@ }
    else if op == WINDOW { "window"@ }
    else if op == SJMP { "sjmp"@ }
    else if op == LOADK { "loadk"@ }
    else if op == LOADLOCAL { "loadlocal"@ }
    else if op == STORELOCAL { "storelocal"@ }
    else if op == INTERN { "intern"@ }
    else if op == STRCMP { "strcmp"@ }
    else if op == CALL { "call"@ }
    else if op == TAIL { "tail"@ }
    else if op == CLOSE { "close"@ }
    else if op == GETUPVAL { "getupval"@ }
    else if op == SETUPVAL { "setupval"@ }
    else if op == THROW { "throw"@ }
    else if op == OPENUPVAL { "openupval"@ }
    else if op == NEWARR { "newarr"@ }
    else if op == GETFIELD { "getfield"@ }
    else if op == RET { "ret"@ }
    else { Seq::empty() }
}

/// Net operand-stack effect recorded for an opcode.
pub open spec fn spec_stack_effect(op: u8) -> i8 {
    if op == PUSH8 || op == LOADK || op == LOADLOCAL || op == INTERN || op == GETUPVAL || op == NEWARR {
        1i8
    } else if op == STORELOCAL || op == SETUPVAL {
        -1i8
    } else {
        0i8
    }
}

/// Whether an opcode transfers control.
pub open spec fn spec_is_control(op: u8) -> bool {
    op == SJMP || op == CALL || op == TAIL || op == THROW || op == RET
}

pub fn instr_len(op: u8) -> (r: Option<usize>)
    ensures
        r matches Some(n) ==> spec_instr_len(op) == Some(n as nat),
        r is None <==> spec_instr_len(op) is None,
{
    match op {
        NOP | RET | STRCMP | THROW => Some(1),
        PUSH8 | WINDOW | SJMP | CLOSE | GETUPVAL | SETUPVAL | OPENUPVAL => Some(2),
        LOADK | LOADLOCAL | STORELOCAL | INTERN | CALL | TAIL => Some(3),
        NEWARR | GETFIELD => Some(4),
        _ => None,
    }
}

pub fn is_control(op: u8) -> (r: bool)
    ensures
        r == spec_is_control(op),
{
    matches!(op, SJMP | CALL | TAIL | THROW | RET)
}

pub fn name(op: u8) -> (r: Option<&'static str>)
    ensures
        r is Some <==> spec_instr_len(op) is Some,
        r matches Some(s) ==> s@ == mnemonic(op),
{
    match op {
        NOP => Some("nop"),
        PUSH8 => Some("push8"),
        WINDOW => Some("window"),
        SJMP => Some("sjmp"),
        LOADK => Some("loadk"),
        LOADLOCAL => Some("loadlocal"),
        STORELOCAL => Some("storelocal"),
        INTERN => Some("intern"),
        STRCMP => Some("strcmp"),
        CALL => Some("call"),
        TAIL => Some("tail"),
        CLOSE => Some("close"),
        GETUPVAL => Some("getupval"),
        SETUPVAL => Some("setupval"),
        THROW => Some("throw"),
        OPENUPVAL => Some("openupval"),
        NEWARR => Some("newarr"),
        GETFIELD => Some("getfield"),
        RET => Some("ret"),
        _ => None,
    }
}

pub fn stack_effect(op: u8) -> (r: i8)
    ensures
        r == spec_stack_effect(op),
{
    match op {
        PUSH8 | LOADK | LOADLOCAL | INTERN | GETUPVAL | NEWARR => 1,
        STORELOCAL | SETUPVAL => -1,
        _ => 0,
    }
}


/// Instruction starts visited by stepping from `pc` by instruction length, as
/// (offset, opcode); stops with an error at the first unknown opcode. A final
/// instruction may run past the end.
pub open spec fn spec_walk(code: Seq<u8>, pc: nat) -> Result<Seq<(usize, u8)>, Error>
    decreases code.len() - pc,
{
    if pc >= code.len() {
        Ok(Seq::empty())
    } else {
        let op = code[pc as int];
        match spec_instr_len(op) {
            None => Err(Error::UnknownOpcode { pc: pc as usize, op }),
            Some(len) => if pc + len >= code.len() {
                Ok(seq![(pc as usize, op)])
            } else {
                match spec_walk(code, pc + len) {
                    Err(e) => Err(e),
                    Ok(rest) => Ok(seq![(pc as usize, op)] + rest),
                }
            },
        }
    }
}

/// Like `spec_walk`, but an unknown opcode counts as a one-byte instruction.
pub open spec fn spec_lenient_walk(code: Seq<u8>, pc: nat) -> Seq<(usize, u8)>
    decreases code.len() - pc,
{
    if pc >= code.len() {
        Seq::empty()
    } else {
        let op = code[pc as int];
        let len: nat = match spec_instr_len(op) {
            None => 1,
            Some(l) => l,
        };
        if pc + len >= code.len() {
            seq![(pc as usize, op)]
        } else {
            seq![(pc as usize, op)] + spec_lenient_walk(code, pc + len)
        }
    }
}

/// Length used by lenient walks: the instruction length, or one byte for an unknown opcode.
pub open spec fn lenient_len(op: u8) -> nat {
    match spec_instr_len(op) {
        None => 1,
        Some(l) => l,
    }
}

/// Runtime length of an instruction with unknown opcodes taken as one byte.
pub fn lenient_instr_len(op: u8) -> (r: usize)
    ensures
        r == lenient_len(op),
        1 <= r <= 4,
{
    match instr_len(op) {
        Some(l) => l,
        None => 1,
    }
}

/// Number of entries of a walk whose opcode is `op`.
pub open spec fn count_op(walk: Seq<(usize, u8)>, op: u8) -> nat
    decreases walk.len(),
{
    if walk.len() == 0 {
        0
    } else {
        count_op(walk.drop_last(), op) + if walk.last().1 == op { 1nat } else { 0nat }
    }
}

/// A count never exceeds the walk's length.
pub proof fn lemma_count_op_bound(walk: Seq<(usize, u8)>, op: u8)
    ensures
        count_op(walk, op) <= walk.len(),
    decreases walk.len(),
{
    if walk.len() > 0 {
        lemma_count_op_bound(walk.drop_last(), op);
    }
}

/// Offsets of the entries of a walk whose opcode is `op`, in order.
pub open spec fn pcs_of_op(walk: Seq<(usize, u8)>, op: u8) -> Seq<usize>
    decreases walk.len(),
{
    if walk.len() == 0 {
        Seq::empty()
    } else if walk.last().1 == op {
        pcs_of_op(walk.drop_last(), op).push(walk.last().0)
    } else {
        pcs_of_op(walk.drop_last(), op)
    }
}


/// The lenient walk of `code` from its start, as (offset, opcode) pairs.
pub fn lenient_walk(code: &[u8]) -> (r: Vec<(usize, u8)>)
    ensures
        r@ == spec_lenient_walk(code@, 0),
{
    let n = crate::bytes::byte_len(code);
    let mut out: Vec<(usize, u8)> = Vec::new();
    let mut pc: usize = 0;
    while pc < n
        invariant
            n == code@.len(),
            n <= isize::MAX,
            pc <= n + 3,
            out@ + spec_lenient_walk(code@, pc as nat) == spec_lenient_walk(code@, 0),
        decreases n + 3 - pc,
    {
        let ghost before = out@;
        let op = code[pc];
        out.push((pc, op));
        let next = pc + lenient_instr_len(op);
        proof {
            if next < n {
                assert(out@ + spec_lenient_walk(code@, next as nat) =~= before + spec_lenient_walk(code@, pc as nat));
            } else {
                assert(out@ =~= before + spec_lenient_walk(code@, pc as nat));
            }
        }
        pc = next;
    }
    assert(out@ + spec_lenient_walk(code@, pc as nat) =~= out@);
    out
}

/// An entry names an offset at or after `pc`, inside the code, and the opcode found there.
pub open spec fn walk_entry_in(code: Seq<u8>, pc: nat, e: (usize, u8)) -> bool {
    pc <= e.0 < code.len() && e.1 == code[e.0 as int]
}

/// Every entry of a lenient walk from `pc` is an instruction start found at or after `pc`.
pub proof fn lemma_lenient_walk_entries(code: Seq<u8>, pc: nat)
    requires
        code.len() <= usize::MAX,
    ensures
        forall|i: int| 0 <= i < spec_lenient_walk(code, pc).len()
            ==> walk_entry_in(code, pc, #[trigger] spec_lenient_walk(code, pc)[i]),
    decreases code.len() - pc,
{
    if pc < code.len() {
        let len = lenient_len(code[pc as int]);
        let w = spec_lenient_walk(code, pc);
        assert(len >= 1);
        if pc + len < code.len() {
            lemma_lenient_walk_entries(code, pc + len);
            let rest = spec_lenient_walk(code, pc + len);
            assert(w == seq![(pc as usize, code[pc as int])] + rest);
            assert forall|i: int| 0 <= i < w.len() implies walk_entry_in(code, pc, #[trigger] w[i]) by {
                if i > 0 {
                    assert(w[i] == rest[i - 1]);
                    assert(walk_entry_in(code, pc + len, rest[i - 1]));
                } else {
                    assert(w[0] == (pc as usize, code[pc as int]));
                }
            }
        } else {
            assert(w == seq![(pc as usize, code[pc as int])]);
            assert forall|i: int| 0 <= i < w.len() implies walk_entry_in(code, pc, #[trigger] w[i]) by {
                assert(w[0] == (pc as usize, code[pc as int]));
            }
        }
    }
}

} // verus!
