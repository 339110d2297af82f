//! Canonical ISA metadata used by the disassembler, the CFG builder and validation.
use vstd::prelude::*;
use crate::bytecode;
use crate::bytecode::{spec_instr_len, mnemonic};
use crate::text::{hex, pad_right, dec_nat, dec_signed, push_hex, push_padded_right, push_dec, push_signed};

verus! {

#[derive(Clone, Copy, Debug, PartialEq, Eq)]
pub struct OpInfo {
    pub name: &'static str,
    pub opcode: u8,
    pub len: usize,
    pub stack_delta: i8,
    pub is_branch: bool,
    pub doc: &'static str,
}

/// Opcodes of the table, in table order.
pub open spec fn table_opcodes() -> Seq<u8> {
    seq![
        0x00u8, 0x01, 0x02, 0x20, 0x30, 0x31, 0x32, 0x33, 0x34, 0x35, 0x36, 0x37, 0x38, 0x39,
        0x3A, 0x3B, 0x40, 0x41, 0xFF,
    ]
}

/// Whether the table has an entry for `op`: exactly the opcodes the runtime sizes.
pub open spec fn in_table(op: u8) -> bool {
    spec_instr_len(op) is Some
}

/// Stack delta recorded by the table for `op`.
pub open spec fn table_delta(op: u8) -> i8 {
    if op == bytecode::PUSH8 || op == bytecode::LOADK || op == bytecode::LOADLOCAL
        || op == bytecode::INTERN || op == bytecode::GETUPVAL || op == bytecode::NEWARR {
        1i8
    } else if op == bytecode::STORELOCAL || op == bytecode::SETUPVAL {
        -1i8
    } else {
        0i8
    }
}

/// The ISA table and the runtime stack-effect function agree: for every
/// opcode, the table's stack delta is the opcode's net stack effect.
pub proof fn law_table_delta_is_stack_effect(op: u8)
    ensures
        table_delta(op) == bytecode::spec_stack_effect(op),
{
}

/// Whether the table marks `op` as ending a basic block.
pub open spec fn table_branch(op: u8) -> bool {
    op == bytecode::SJMP || op == bytecode::TAIL || op == bytecode::THROW || op == bytecode::RET
}

/// Documentation line of an opcode in the table.
pub open spec fn table_doc(op: u8) -> Seq<char> {
    if op == bytecode::NOP { "no operation"@ }
    else if op == bytecode::PUSH8 { "push immediate i8"@ }
    else if op == bytecode::WINDOW { "adjust local window base"@ }
    else if op == bytecode::SJMP { "short relative jump"@ }
    else if op == bytecode::LOADK { "load constant by index"@ }
    else if op == bytecode::LOADLOCAL { "load local at window+slot"@ }
    else if op == bytecode::STORELOCAL { "store local at window+slot"@ }
    else if op == bytecode::INTERN { "intern string pool entry"@ }
    else if op == bytecode::STRCMP { "compare against cached intern"@ }
    else if op == bytecode::CALL { "call function by index"@ }
    else if op == bytecode::TAIL { "tail-call function"@ }
    else if op == bytecode::CLOSE { "close open upvalues"@ }
    else if op == bytecode::GETUPVAL { "read upvalue"@ }
    else if op == bytecode::SETUPVAL { "write upvalue"@ }
    else if op == bytecode::THROW { "throw / unwind"@ }
    else if op == bytecode::OPENUPVAL { "capture local as open upvalue"@ }
    else if op == bytecode::NEWARR { "allocate array-like object"@ }
    else if op == bytecode::GETFIELD { "field load from reference"@ }
    else if op == bytecode::RET { "return from frame"@ }
    else { Seq::empty() }
}

/// The table entry of `op`, field by field.
pub open spec fn entry_matches(info: OpInfo, op: u8) -> bool {
    &&& info.opcode == op
    &&& info.name@ == mnemonic(op)
    &&& spec_instr_len(op) == Some(info.len as nat)
    &&& info.stack_delta == table_delta(op)
    &&& info.is_branch == table_branch(op)
    &&& info.doc@ == table_doc(op)
}

fn entry(name: &'static str, opcode: u8, len: usize, stack_delta: i8, is_branch: bool, doc: &'static str) -> (r: OpInfo)
    ensures
        r == (OpInfo { name, opcode, len, stack_delta, is_branch, doc }),
{
    OpInfo { name, opcode, len, stack_delta, is_branch, doc }
}

/// Table entry of an opcode; `None` for opcodes outside the ISA.
pub fn lookup(op: u8) -> (r: Option<OpInfo>)
    ensures
        r is Some <==> in_table(op),
        r matches Some(info) ==> entry_matches(info, op),
{
    match op {
        0x00 => Some(entry("nop", 0x00, 1, 0, false, "no operation")),
        0x01 => Some(entry("push8", 0x01, 2, 1, false, "push immediate i8")),
        0x02 => Some(entry("window", 0x02, 2, 0, false, "adjust local window base")),
        0x20 => Some(entry("sjmp", 0x20, 2, 0, true, "short relative jump")),
        0x30 => Some(entry("loadk", 0x30, 3, 1, false, "load constant by index")),
        0x31 => Some(entry("loadlocal", 0x31, 3, 1, false, "load local at window+slot")),
        0x32 => Some(entry("storelocal", 0x32, 3, -1, false, "store local at window+slot")),
        0x33 => Some(entry("intern", 0x33, 3, 1, false, "intern string pool entry")),
        0x34 => Some(entry("strcmp", 0x34, 1, 0, false, "compare against cached intern")),
        0x35 => Some(entry("call", 0x35, 3, 0, false, "call function by index")),
        0x36 => Some(entry("tail", 0x36, 3, 0, true, "tail-call function")),
        0x37 => Some(entry("close", 0x37, 2, 0, false, "close open upvalues")),
        0x38 => Some(entry("getupval", 0x38, 2, 1, false, "read upvalue")),
        0x39 => Some(entry("setupval", 0x39, 2, -1, false, "write upvalue")),
        0x3A => Some(entry("throw", 0x3A, 1, 0, true, "throw / unwind")),
        0x3B => Some(entry("openupval", 0x3B, 2, 0, false, "capture local as open upvalue")),
        0x40 => Some(entry("newarr", 0x40, 4, 1, false, "allocate array-like object")),
        0x41 => Some(entry("getfield", 0x41, 4, 0, false, "field load from reference")),
        0xFF => Some(entry("ret", 0xFF, 1, 0, true, "return from frame")),
        _ => None,
    }
}

/// The whole table, in table order.
pub fn ops() -> (r: Vec<OpInfo>)
    ensures
        r@.len() == table_opcodes().len(),
        forall|i: int| 0 <= i < r@.len() ==> entry_matches(#[trigger] r@[i], table_opcodes()[i]),
{
    let codes: [u8; 19] = [
        0x00, 0x01, 0x02, 0x20, 0x30, 0x31, 0x32, 0x33, 0x34, 0x35, 0x36, 0x37, 0x38, 0x39,
        0x3A, 0x3B, 0x40, 0x41, 0xFF,
    ];
    assert(codes@ =~= table_opcodes());
    let mut out: Vec<OpInfo> = Vec::new();
    let mut i: usize = 0;
    while i < 19
        invariant
            i <= 19,
            codes@ == table_opcodes(),
            out@.len() == i,
            forall|j: int| 0 <= j < i ==> entry_matches(#[trigger] out@[j], table_opcodes()[j]),
        decreases 19 - i,
    {
        let op = codes[i];
        match lookup(op) {
            Some(info) => out.push(info),
            None => {
                assert(false);
            },
        }
        i += 1;
    }
    out
}

pub fn name_of(op: u8) -> (r: Option<&'static str>)
    ensures
        r is Some <==> in_table(op),
        r matches Some(s) ==> s@ == mnemonic(op),
{
    match lookup(op) {
        Some(info) => Some(info.name),
        None => None,
    }
}

/// Whether every table entry's length agrees with the runtime instruction sizing.
pub fn validate_against_bytecode_table() -> (r: bool)
    ensures
        r,
{
    let table = ops();
    let mut i: usize = 0;
    while i < table.len()
        invariant
            i <= table@.len(),
            table@.len() == table_opcodes().len(),
            forall|j: int| 0 <= j < table@.len() ==> entry_matches(#[trigger] table@[j], table_opcodes()[j]),
        decreases table@.len() - i,
    {
        let info = table[i];
        match bytecode::instr_len(info.opcode) {
            Some(l) => {
                if l != info.len {
                    return false;
                }
            },
            None => return false,
        }
        i += 1;
    }
    true
}

/// Operand depth after running the table's stack deltas over `code` from `pc`,
/// starting at `depth`; `None` on an opcode outside the table or a negative depth.
pub open spec fn spec_stack_prefix(code: Seq<u8>, pc: nat, depth: int) -> Option<int>
    decreases code.len() - pc,
{
    if pc >= code.len() {
        Some(depth)
    } else if !in_table(code[pc as int]) {
        None
    } else {
        let d = depth + table_delta(code[pc as int]);
        let next = pc + spec_instr_len(code[pc as int]).unwrap();
        if d < 0 {
            None
        } else if next >= code.len() {
            Some(d)
        } else {
            spec_stack_prefix(code, next, d)
        }
    }
}

pub fn stack_effect_prefix(code: &[u8]) -> (r: Option<i32>)
    requires
        code@.len() < 0x7fff_ffff,
    ensures
        r matches Some(d) ==> spec_stack_prefix(code@, 0, 0) == Some(d as int),
        r is None ==> spec_stack_prefix(code@, 0, 0) is None,
{
    let mut depth: i32 = 0;
    let mut pc: usize = 0;
    while pc < code.len()
        invariant
            pc <= code@.len(),
            code@.len() < 0x7fff_ffff,
            0 <= depth <= pc,
            spec_stack_prefix(code@, 0, 0) == spec_stack_prefix(code@, pc as nat, depth as int),
        decreases code@.len() - pc,
    {
        let op = code[pc];
        let info = match lookup(op) {
            Some(i) => i,
            None => return None,
        };
        let d: i64 = depth as i64 + info.stack_delta as i64;
        if d < 0 {
            return None;
        }
        let next = match pc.checked_add(info.len) {
            Some(n) => n,
            None => return None,
        };
        if next >= code.len() {
            return Some(d as i32);
        }
        depth = d as i32;
        pc = next;
    }
    Some(depth)
}

/// One rendered line of the table description.
pub open spec fn describe_line(op: u8) -> Seq<char> {
    "0x"@ + hex(op as nat, 2, true) + " "@ + pad_right(mnemonic(op), 12) + " len="@
        + dec_nat(spec_instr_len(op).unwrap()) + " delta="@ + dec_signed(table_delta(op) as int)
        + " branch="@ + (if table_branch(op) { "true"@ } else { "false"@ }) + " — "@
        + table_doc(op) + "\n"@
}

/// Concatenated description lines for the first `n` table entries.
pub open spec fn describe_prefix(n: nat) -> Seq<char>
    decreases n,
{
    if n == 0 {
        Seq::empty()
    } else {
        describe_prefix((n - 1) as nat) + describe_line(table_opcodes()[n - 1])
    }
}

fn push_describe_line(out: &mut String, info: OpInfo)
    requires
        entry_matches(info, info.opcode),
    ensures
        final(out)@ == old(out)@ + describe_line(info.opcode),
{
    out.append("0x");
    push_hex(out, info.opcode as u64, 2, true);
    out.append(" ");
    push_padded_right(out, info.name, 12);
    out.append(" len=");
    push_dec(out, info.len as u64);
    out.append(" delta=");
    push_signed(out, info.stack_delta as i64);
    out.append(" branch=");
    out.append(if info.is_branch { "true" } else { "false" });
    out.append(" — ");
    out.append(info.doc);
    out.append("\n");
    assert(final(out)@ =~= old(out)@ + describe_line(info.opcode));
}

pub fn describe_all() -> (r: String)
    ensures
        r@ == describe_prefix(table_opcodes().len()),
{
    let table = ops();
    let mut out = String::new();
    let mut i: usize = 0;
    while i < table.len()
        invariant
            i <= table@.len(),
            table@.len() == table_opcodes().len(),
            forall|j: int| 0 <= j < table@.len() ==> entry_matches(#[trigger] table@[j], table_opcodes()[j]),
            out@ == describe_prefix(i as nat),
        decreases table@.len() - i,
    {
        let info = table[i];
        push_describe_line(&mut out, info);
        i += 1;
    }
    out
}

} // verus!
