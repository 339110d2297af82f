//! Instruction decoder and encoder for bytecode streams.
use vstd::prelude::*;
use crate::bytecode;
use crate::bytecode::spec_instr_len;
use crate::error::{Error, Result};
use crate::isa;
use crate::text::{dec_int, dec_nat, dec_signed, hex, push_dec, push_hex, push_int, push_signed};
use crate::bytes::{byte_len, bytes_eq};
use crate::bytecode::{spec_walk, count_op};

verus! {

#[derive(Clone, Copy, Debug, PartialEq, Eq)]
pub enum Decoded {
    Nop,
    Push8(i8),
    Window(i8),
    Sjmp(i8),
    LoadK(u16),
    LoadLocal(u16),
    StoreLocal(u16),
    Intern(u16),
    StrCmp,
    Call(u16),
    Tail(u16),
    Close(u8),
    GetUp(u8),
    SetUp(u8),
    Throw,
    OpenUp(u8),
    NewArr(u32),
    GetField(u32),
    Ret,
    Unknown(u8),
}

/// Little-endian 16-bit operand following the opcode at `pc`.
pub open spec fn operand_u16(code: Seq<u8>, pc: int) -> u16 {
    (code[pc + 1] as int + 256 * (code[pc + 2] as int)) as u16
}

/// Little-endian 24-bit operand following the opcode at `pc`.
pub open spec fn operand_u24(code: Seq<u8>, pc: int) -> u32 {
    (code[pc + 1] as int + 256 * (code[pc + 2] as int) + 65536 * (code[pc + 3] as int)) as u32
}

/// The instruction whose (known) opcode sits at `pc`, with its operand bytes present.
pub open spec fn decoded_of(code: Seq<u8>, pc: int) -> Decoded {
    let op = code[pc];
    if op == bytecode::NOP { Decoded::Nop }
    else if op == bytecode::PUSH8 { Decoded::Push8(code[pc + 1] as i8) }
    else if op == bytecode::WINDOW { Decoded::Window(code[pc + 1] as i8) }
    else if op == bytecode::SJMP { Decoded::Sjmp(code[pc + 1] as i8) }
    else if op == bytecode::LOADK { Decoded::LoadK(operand_u16(code, pc)) }
    else if op == bytecode::LOADLOCAL { Decoded::LoadLocal(operand_u16(code, pc)) }
    else if op == bytecode::STORELOCAL { Decoded::StoreLocal(operand_u16(code, pc)) }
    else if op == bytecode::INTERN { Decoded::Intern(operand_u16(code, pc)) }
    else if op == bytecode::STRCMP { Decoded::StrCmp }
    else if op == bytecode::CALL { Decoded::Call(operand_u16(code, pc)) }
    else if op == bytecode::TAIL { Decoded::Tail(operand_u16(code, pc)) }
    else if op == bytecode::CLOSE { Decoded::Close(code[pc + 1]) }
    else if op == bytecode::GETUPVAL { Decoded::GetUp(code[pc + 1]) }
    else if op == bytecode::SETUPVAL { Decoded::SetUp(code[pc + 1]) }
    else if op == bytecode::THROW { Decoded::Throw }
    else if op == bytecode::OPENUPVAL { Decoded::OpenUp(code[pc + 1]) }
    else if op == bytecode::NEWARR { Decoded::NewArr(operand_u24(code, pc)) }
    else if op == bytecode::GETFIELD { Decoded::GetField(operand_u24(code, pc)) }
    else if op == bytecode::RET { Decoded::Ret }
    else { Decoded::Unknown(op) }
}

/// Decoding of the instruction at `pc`: the instruction and its length, or why it fails.
pub open spec fn spec_decode_at(code: Seq<u8>, pc: usize) -> Result<(Decoded, usize)> {
    if pc >= code.len() {
        Err(Error::TruncatedInstr { pc })
    } else {
        let op = code[pc as int];
        match spec_instr_len(op) {
            None => Err(Error::UnknownOpcode { pc, op }),
            Some(len) => if pc + len > code.len() {
                Err(Error::TruncatedInstr { pc })
            } else {
                Ok((decoded_of(code, pc as int), len as usize))
            },
        }
    }
}

/// Byte encoding of one instruction.
pub open spec fn spec_encode(d: Decoded) -> Seq<u8> {
    match d {
        Decoded::Nop => seq![bytecode::NOP],
        Decoded::Push8(v) => seq![bytecode::PUSH8, v as u8],
        Decoded::Window(v) => seq![bytecode::WINDOW, v as u8],
        Decoded::Sjmp(v) => seq![bytecode::SJMP, v as u8],
        Decoded::LoadK(v) => seq![bytecode::LOADK, (v % 256) as u8, (v / 256) as u8],
        Decoded::LoadLocal(v) => seq![bytecode::LOADLOCAL, (v % 256) as u8, (v / 256) as u8],
        Decoded::StoreLocal(v) => seq![bytecode::STORELOCAL, (v % 256) as u8, (v / 256) as u8],
        Decoded::Intern(v) => seq![bytecode::INTERN, (v % 256) as u8, (v / 256) as u8],
        Decoded::StrCmp => seq![bytecode::STRCMP],
        Decoded::Call(v) => seq![bytecode::CALL, (v % 256) as u8, (v / 256) as u8],
        Decoded::Tail(v) => seq![bytecode::TAIL, (v % 256) as u8, (v / 256) as u8],
        Decoded::Close(v) => seq![bytecode::CLOSE, v],
        Decoded::GetUp(v) => seq![bytecode::GETUPVAL, v],
        Decoded::SetUp(v) => seq![bytecode::SETUPVAL, v],
        Decoded::Throw => seq![bytecode::THROW],
        Decoded::OpenUp(v) => seq![bytecode::OPENUPVAL, v],
        Decoded::NewArr(v) => seq![bytecode::NEWARR, (v % 256) as u8, ((v / 256) % 256) as u8, ((v / 65536) % 256) as u8],
        Decoded::GetField(v) => seq![bytecode::GETFIELD, (v % 256) as u8, ((v / 256) % 256) as u8, ((v / 65536) % 256) as u8],
        Decoded::Ret => seq![bytecode::RET],
        Decoded::Unknown(op) => seq![op],
    }
}

/// Encoding of a sequence of instructions, concatenated.
pub open spec fn spec_encode_all(ds: Seq<Decoded>) -> Seq<u8>
    decreases ds.len(),
{
    if ds.len() == 0 {
        Seq::empty()
    } else {
        spec_encode_all(ds.drop_last()) + spec_encode(ds.last())
    }
}

/// Decoding of every instruction from `pc` to the end, tagged with its offset.
pub open spec fn spec_decode_from(code: Seq<u8>, pc: nat) -> Result<Seq<(usize, Decoded)>>
    decreases code.len() - pc,
{
    if pc >= code.len() {
        Ok(Seq::empty())
    } else {
        match spec_instr_len(code[pc as int]) {
            None => Err(Error::UnknownOpcode { pc: pc as usize, op: code[pc as int] }),
            Some(len) => if pc + len > code.len() {
                Err(Error::TruncatedInstr { pc: pc as usize })
            } else {
                match spec_decode_from(code, pc + len) {
                    Err(e) => Err(e),
                    Ok(rest) => Ok(seq![(pc as usize, decoded_of(code, pc as int))] + rest),
                }
            },
        }
    }
}

/// Decoding of a whole code buffer.
pub open spec fn spec_decode_all(code: Seq<u8>) -> Result<Seq<(usize, Decoded)>> {
    spec_decode_from(code, 0)
}

/// The instructions of a decoded listing, without offsets.
pub open spec fn ops_of(list: Seq<(usize, Decoded)>) -> Seq<Decoded> {
    list.map_values(|e: (usize, Decoded)| e.1)
}

/// Whether an instruction has a known opcode, so that it decodes back to itself.
pub open spec fn is_known(d: Decoded) -> bool {
    !(d is Unknown)
}

pub fn decode_at(code: &[u8], pc: usize) -> (r: Result<(Decoded, usize)>)
    ensures
        r == spec_decode_at(code@, pc),
{
    if pc >= code.len() {
        return Err(Error::TruncatedInstr { pc });
    }
    let op = code[pc];
    let len = match bytecode::instr_len(op) {
        Some(l) => l,
        None => return Err(Error::UnknownOpcode { pc, op }),
    };
    if len > code.len() - pc {
        return Err(Error::TruncatedInstr { pc });
    }
    let d = match op {
        bytecode::NOP => Decoded::Nop,
        bytecode::PUSH8 => Decoded::Push8(code[pc + 1] as i8),
        bytecode::WINDOW => Decoded::Window(code[pc + 1] as i8),
        bytecode::SJMP => Decoded::Sjmp(code[pc + 1] as i8),
        bytecode::LOADK => Decoded::LoadK(read_u16(code, pc)),
        bytecode::LOADLOCAL => Decoded::LoadLocal(read_u16(code, pc)),
        bytecode::STORELOCAL => Decoded::StoreLocal(read_u16(code, pc)),
        bytecode::INTERN => Decoded::Intern(read_u16(code, pc)),
        bytecode::STRCMP => Decoded::StrCmp,
        bytecode::CALL => Decoded::Call(read_u16(code, pc)),
        bytecode::TAIL => Decoded::Tail(read_u16(code, pc)),
        bytecode::CLOSE => Decoded::Close(code[pc + 1]),
        bytecode::GETUPVAL => Decoded::GetUp(code[pc + 1]),
        bytecode::SETUPVAL => Decoded::SetUp(code[pc + 1]),
        bytecode::THROW => Decoded::Throw,
        bytecode::OPENUPVAL => Decoded::OpenUp(code[pc + 1]),
        bytecode::NEWARR => Decoded::NewArr(read_u24(code, pc)),
        bytecode::GETFIELD => Decoded::GetField(read_u24(code, pc)),
        bytecode::RET => Decoded::Ret,
        other => Decoded::Unknown(other),
    };
    Ok((d, len))
}

fn read_u16(code: &[u8], pc: usize) -> (r: u16)
    requires
        pc + 2 < code.len(),
    ensures
        r == operand_u16(code@, pc as int),
{
    code[pc + 1] as u16 + 256 * (code[pc + 2] as u16)
}

fn read_u24(code: &[u8], pc: usize) -> (r: u32)
    requires
        pc + 3 < code.len(),
    ensures
        r == operand_u24(code@, pc as int),
{
    code[pc + 1] as u32 + 256 * (code[pc + 2] as u32) + 65536 * (code[pc + 3] as u32)
}

pub fn decode_all(code: &[u8]) -> (r: Result<Vec<(usize, Decoded)>>)
    ensures
        r matches Ok(v) ==> spec_decode_all(code@) == Ok::<Seq<(usize, Decoded)>, Error>(v@),
        r matches Err(e) ==> spec_decode_all(code@) == Err::<Seq<(usize, Decoded)>, Error>(e),
{
    let mut out: Vec<(usize, Decoded)> = Vec::new();
    let mut pc: usize = 0;
    while pc < code.len()
        invariant
            pc <= code@.len(),
            spec_decode_from(code@, 0) matches Ok(all) ==> spec_decode_from(code@, pc as nat) matches Ok(rest)
                && all == out@ + rest,
            spec_decode_from(code@, 0) is Err ==> spec_decode_from(code@, pc as nat) == spec_decode_from(code@, 0),
            spec_decode_from(code@, 0) is Ok ==> spec_decode_from(code@, pc as nat) is Ok,
            spec_decode_from(code@, pc as nat) is Ok ==> spec_decode_from(code@, 0) is Ok,
        decreases code@.len() - pc,
    {
        let (d, len) = decode_at(code, pc)?;
        proof {
            if let Ok(rest) = spec_decode_from(code@, (pc + len) as nat) {
                assert(spec_decode_from(code@, pc as nat) == Ok::<Seq<(usize, Decoded)>, Error>(seq![(pc, d)] + rest));
                if let Ok(all) = spec_decode_from(code@, 0) {
                    assert(all == out@.push((pc, d)) + rest);
                }
            }
        }
        out.push((pc, d));
        pc += len;
    }
    proof {
        if let Ok(all) = spec_decode_from(code@, 0) {
            assert(all == out@);
        }
    }
    Ok(out)
}

fn encode_u16(op: u8, v: u16) -> (r: Vec<u8>)
    ensures
        r@ == seq![op, (v % 256) as u8, (v / 256) as u8],
{
    let r = vec![op, (v % 256) as u8, (v / 256) as u8];
    assert(r@ =~= seq![op, (v % 256) as u8, (v / 256) as u8]);
    r
}

fn encode_u24(op: u8, v: u32) -> (r: Vec<u8>)
    ensures
        r@ == seq![op, (v % 256) as u8, ((v / 256) % 256) as u8, ((v / 65536) % 256) as u8],
{
    let r = vec![op, (v % 256) as u8, ((v / 256) % 256) as u8, ((v / 65536) % 256) as u8];
    assert(r@ =~= seq![op, (v % 256) as u8, ((v / 256) % 256) as u8, ((v / 65536) % 256) as u8]);
    r
}

fn bytes1(a: u8) -> (r: Vec<u8>)
    ensures
        r@ == seq![a],
{
    let r = vec![a];
    assert(r@ =~= seq![a]);
    r
}

fn bytes2(a: u8, b: u8) -> (r: Vec<u8>)
    ensures
        r@ == seq![a, b],
{
    let r = vec![a, b];
    assert(r@ =~= seq![a, b]);
    r
}

pub fn encode(d: &Decoded) -> (r: Vec<u8>)
    ensures
        r@ == spec_encode(*d),
{
    match *d {
        Decoded::Nop => bytes1(bytecode::NOP),
        Decoded::Push8(v) => bytes2(bytecode::PUSH8, v as u8),
        Decoded::Window(v) => bytes2(bytecode::WINDOW, v as u8),
        Decoded::Sjmp(v) => bytes2(bytecode::SJMP, v as u8),
        Decoded::LoadK(v) => encode_u16(bytecode::LOADK, v),
        Decoded::LoadLocal(v) => encode_u16(bytecode::LOADLOCAL, v),
        Decoded::StoreLocal(v) => encode_u16(bytecode::STORELOCAL, v),
        Decoded::Intern(v) => encode_u16(bytecode::INTERN, v),
        Decoded::StrCmp => bytes1(bytecode::STRCMP),
        Decoded::Call(v) => encode_u16(bytecode::CALL, v),
        Decoded::Tail(v) => encode_u16(bytecode::TAIL, v),
        Decoded::Close(v) => bytes2(bytecode::CLOSE, v),
        Decoded::GetUp(v) => bytes2(bytecode::GETUPVAL, v),
        Decoded::SetUp(v) => bytes2(bytecode::SETUPVAL, v),
        Decoded::Throw => bytes1(bytecode::THROW),
        Decoded::OpenUp(v) => bytes2(bytecode::OPENUPVAL, v),
        Decoded::NewArr(v) => encode_u24(bytecode::NEWARR, v),
        Decoded::GetField(v) => encode_u24(bytecode::GETFIELD, v),
        Decoded::Ret => bytes1(bytecode::RET),
        Decoded::Unknown(op) => bytes1(op),
    }
}

pub fn encode_all(ops: &[Decoded]) -> (r: Vec<u8>)
    ensures
        r@ == spec_encode_all(ops@),
{
    let mut out: Vec<u8> = Vec::new();
    let mut i: usize = 0;
    while i < ops.len()
        invariant
            i <= ops@.len(),
            out@ == spec_encode_all(ops@.subrange(0, i as int)),
        decreases ops@.len() - i,
    {
        let mut e = encode(&ops[i]);
        let ghost before = out@;
        out.append(&mut e);
        proof {
            assert(ops@.subrange(0, i + 1).drop_last() =~= ops@.subrange(0, i as int));
        }
        i += 1;
    }
    assert(ops@.subrange(0, ops@.len() as int) =~= ops@);
    out
}


/// Whether an instruction re-decodes to itself after encoding: a known opcode, and a
/// 24-bit operand that fits in the three bytes it is encoded in.
pub open spec fn is_encodable(d: Decoded) -> bool {
    match d {
        Decoded::Unknown(_) => false,
        Decoded::NewArr(v) => v < 0x100_0000,
        Decoded::GetField(v) => v < 0x100_0000,
        _ => true,
    }
}

proof fn lemma_byte_casts()
    ensures
        forall|b: u8| #[trigger] ((b as i8) as u8) == b,
        forall|v: i8| #[trigger] ((v as u8) as i8) == v,
{
    assert(forall|b: u8| #[trigger] ((b as i8) as u8) == b) by (bit_vector);
    assert(forall|v: i8| #[trigger] ((v as u8) as i8) == v) by (bit_vector);
}

/// Encoding the decoding of a well-formed instruction gives back its bytes.
pub proof fn lemma_encode_decoded(code: Seq<u8>, pc: int, len: nat)
    requires
        0 <= pc < code.len(),
        spec_instr_len(code[pc]) == Some(len),
        pc + len <= code.len(),
    ensures
        spec_encode(decoded_of(code, pc)) == code.subrange(pc, pc + len),
{
    lemma_byte_casts();
    let b1 = if pc + 1 < code.len() { code[pc + 1] } else { 0 };
    let b2 = if pc + 2 < code.len() { code[pc + 2] } else { 0 };
    let b3 = if pc + 3 < code.len() { code[pc + 3] } else { 0 };
    assert((b1 as int + 256 * (b2 as int)) as u16 % 256 == b1);
    assert((b1 as int + 256 * (b2 as int)) as u16 / 256 == b2);
    let w = (b1 as int + 256 * (b2 as int) + 65536 * (b3 as int)) as u32;
    assert(w % 256 == b1);
    assert((w / 256) % 256 == b2);
    assert((w / 65536) % 256 == b3);
    assert(spec_encode(decoded_of(code, pc)) =~= code.subrange(pc, pc + len));
}

/// Decoding the encoding of an encodable instruction, wherever it sits, gives it back.
proof fn lemma_decode_encoded(a: Seq<u8>, d: Decoded, rest: Seq<u8>)
    requires
        is_encodable(d),
    ensures
        spec_instr_len(spec_encode(d)[0]) == Some(spec_encode(d).len()),
        decoded_of(a + spec_encode(d) + rest, a.len() as int) == d,
{
    lemma_byte_casts();
    let code = a + spec_encode(d) + rest;
    let pc = a.len() as int;
    match d {
        Decoded::LoadK(v) => {
            assert(code[pc + 1] == (v % 256) as u8 && code[pc + 2] == (v / 256) as u8);
        },
        Decoded::LoadLocal(v) => {
            assert(code[pc + 1] == (v % 256) as u8 && code[pc + 2] == (v / 256) as u8);
        },
        Decoded::StoreLocal(v) => {
            assert(code[pc + 1] == (v % 256) as u8 && code[pc + 2] == (v / 256) as u8);
        },
        Decoded::Intern(v) => {
            assert(code[pc + 1] == (v % 256) as u8 && code[pc + 2] == (v / 256) as u8);
        },
        Decoded::Call(v) => {
            assert(code[pc + 1] == (v % 256) as u8 && code[pc + 2] == (v / 256) as u8);
        },
        Decoded::Tail(v) => {
            assert(code[pc + 1] == (v % 256) as u8 && code[pc + 2] == (v / 256) as u8);
        },
        Decoded::NewArr(v) => {
            assert(code[pc + 1] == (v % 256) as u8 && code[pc + 2] == ((v / 256) % 256) as u8
                && code[pc + 3] == ((v / 65536) % 256) as u8);
        },
        Decoded::GetField(v) => {
            assert(code[pc + 1] == (v % 256) as u8 && code[pc + 2] == ((v / 256) % 256) as u8
                && code[pc + 3] == ((v / 65536) % 256) as u8);
        },
        Decoded::Push8(v) => {
            assert(code[pc + 1] == v as u8);
        },
        Decoded::Window(v) => {
            assert(code[pc + 1] == v as u8);
        },
        Decoded::Sjmp(v) => {
            assert(code[pc + 1] == v as u8);
        },
        Decoded::Close(v) => {
            assert(code[pc + 1] == v);
        },
        Decoded::GetUp(v) => {
            assert(code[pc + 1] == v);
        },
        Decoded::SetUp(v) => {
            assert(code[pc + 1] == v);
        },
        Decoded::OpenUp(v) => {
            assert(code[pc + 1] == v);
        },
        _ => {
            assert(code[pc] == spec_encode(d)[0]);
        },
    }
}

/// Encoding a listing is encoding its first instruction, then the rest.
pub proof fn lemma_encode_all_cons(d: Decoded, ds: Seq<Decoded>)
    ensures
        spec_encode_all(seq![d] + ds) == spec_encode(d) + spec_encode_all(ds),
    decreases ds.len(),
{
    if ds.len() == 0 {
        assert(seq![d] + ds =~= seq![d]);
        assert(seq![d].drop_last() =~= Seq::<Decoded>::empty());
        assert(spec_encode_all(Seq::<Decoded>::empty()) == Seq::<u8>::empty());
        assert(spec_encode_all(seq![d]) =~= spec_encode(d));
    } else {
        lemma_encode_all_cons(d, ds.drop_last());
        assert((seq![d] + ds).drop_last() =~= seq![d] + ds.drop_last());
        assert(spec_encode_all(seq![d] + ds) =~= spec_encode(d) + spec_encode_all(ds));
    }
}

proof fn lemma_decode_from_encodes(code: Seq<u8>, pc: nat)
    requires
        spec_decode_from(code, pc) is Ok,
        pc <= code.len(),
    ensures
        spec_encode_all(ops_of(spec_decode_from(code, pc)->Ok_0)) == code.subrange(pc as int, code.len() as int),
    decreases code.len() - pc,
{
    if pc >= code.len() {
        assert(ops_of(spec_decode_from(code, pc)->Ok_0) =~= Seq::<Decoded>::empty());
        assert(code.subrange(pc as int, code.len() as int) =~= Seq::<u8>::empty());
    } else {
        let len = spec_instr_len(code[pc as int]).unwrap();
        lemma_decode_from_encodes(code, pc + len);
        let rest = spec_decode_from(code, pc + len)->Ok_0;
        let d = decoded_of(code, pc as int);
        lemma_encode_decoded(code, pc as int, len);
        assert(ops_of(seq![(pc as usize, d)] + rest) =~= seq![d] + ops_of(rest));
        lemma_encode_all_cons(d, ops_of(rest));
        assert(code.subrange(pc as int, code.len() as int) =~= code.subrange(pc as int, (pc + len) as int)
            + code.subrange((pc + len) as int, code.len() as int));
    }
}

/// Law: whatever decodes re-encodes to the very same bytes.
pub proof fn law_decode_then_encode(code: Seq<u8>)
    requires
        spec_decode_all(code) is Ok,
    ensures
        spec_encode_all(ops_of(spec_decode_all(code)->Ok_0)) == code,
{
    lemma_decode_from_encodes(code, 0);
    assert(code.subrange(0, code.len() as int) =~= code);
}

proof fn lemma_encoded_decodes(a: Seq<u8>, ds: Seq<Decoded>)
    requires
        forall|i: int| 0 <= i < ds.len() ==> is_encodable(#[trigger] ds[i]),
    ensures
        spec_decode_from(a + spec_encode_all(ds), a.len()) is Ok,
        ops_of(spec_decode_from(a + spec_encode_all(ds), a.len())->Ok_0) == ds,
    decreases ds.len(),
{
    let code = a + spec_encode_all(ds);
    if ds.len() == 0 {
        assert(code.len() == a.len());
        assert(ops_of(spec_decode_from(code, a.len())->Ok_0) =~= ds);
    } else {
        let d = ds[0];
        let tail = ds.subrange(1, ds.len() as int);
        assert(ds =~= seq![d] + tail);
        lemma_encode_all_cons(d, tail);
        let e = spec_encode(d);
        let a2 = a + e;
        assert(code =~= a + e + spec_encode_all(tail));
        assert(a2 + spec_encode_all(tail) =~= code);
        lemma_decode_encoded(a, d, spec_encode_all(tail));
        assert(code[a.len() as int] == e[0]);
        assert forall|i: int| 0 <= i < tail.len() implies is_encodable(#[trigger] tail[i]) by {
            assert(tail[i] == ds[i + 1]);
        }
        lemma_encoded_decodes(a2, tail);
        let rest = spec_decode_from(code, a2.len())->Ok_0;
        assert(ops_of(seq![(a.len() as usize, d)] + rest) =~= seq![d] + ops_of(rest));
    }
}

/// Law: encoding a listing of encodable instructions and decoding the bytes gives the listing back.
pub proof fn law_encode_then_decode(ds: Seq<Decoded>)
    requires
        forall|i: int| 0 <= i < ds.len() ==> is_encodable(#[trigger] ds[i]),
    ensures
        spec_decode_all(spec_encode_all(ds)) is Ok,
        ops_of(spec_decode_all(spec_encode_all(ds))->Ok_0) == ds,
{
    lemma_encoded_decodes(Seq::empty(), ds);
    assert(Seq::<u8>::empty() + spec_encode_all(ds) =~= spec_encode_all(ds));
}


/// Whether decoding `code` and re-encoding the instructions reproduces it.
pub fn roundtrip_ok(code: &[u8]) -> (r: bool)
    ensures
        r == (spec_decode_all(code@) is Ok),
{
    match decode_all(code) {
        Ok(decoded) => {
            let mut ops: Vec<Decoded> = Vec::new();
            let mut i: usize = 0;
            while i < decoded.len()
                invariant
                    i <= decoded@.len(),
                    ops@ == ops_of(decoded@.subrange(0, i as int)),
                decreases decoded@.len() - i,
            {
                ops.push(decoded[i].1);
                i += 1;
                assert(ops@ =~= ops_of(decoded@.subrange(0, i as int)));
            }
            assert(decoded@.subrange(0, decoded@.len() as int) =~= decoded@);
            proof {
                law_decode_then_encode(code@);
            }
            let bytes = encode_all(&ops);
            bytes_eq(&bytes, code)
        },
        Err(_) => false,
    }
}

/// Assembly-like text of one instruction.
pub open spec fn spec_describe(d: Decoded) -> Seq<char> {
    match d {
        Decoded::Nop => "nop"@,
        Decoded::Push8(v) => "push8 "@ + dec_int(v as int),
        Decoded::Window(v) => "window "@ + dec_signed(v as int),
        Decoded::Sjmp(v) => "sjmp "@ + dec_signed(v as int),
        Decoded::LoadK(v) => "loadk "@ + dec_nat(v as nat),
        Decoded::LoadLocal(v) => "loadlocal "@ + dec_nat(v as nat),
        Decoded::StoreLocal(v) => "storelocal "@ + dec_nat(v as nat),
        Decoded::Intern(v) => "intern "@ + dec_nat(v as nat),
        Decoded::StrCmp => "strcmp"@,
        Decoded::Call(v) => "call "@ + dec_nat(v as nat),
        Decoded::Tail(v) => "tail "@ + dec_nat(v as nat),
        Decoded::Close(v) => "close "@ + dec_nat(v as nat),
        Decoded::GetUp(v) => "getupval "@ + dec_nat(v as nat),
        Decoded::SetUp(v) => "setupval "@ + dec_nat(v as nat),
        Decoded::Throw => "throw"@,
        Decoded::OpenUp(v) => "openupval "@ + dec_nat(v as nat),
        Decoded::NewArr(v) => "newarr 0x"@ + hex(v as nat, 6, true),
        Decoded::GetField(v) => "getfield 0x"@ + hex(v as nat, 6, true),
        Decoded::Ret => "ret"@,
        Decoded::Unknown(op) => "unknown 0x"@ + hex(op as nat, 2, true),
    }
}

fn text_with_dec(prefix: &str, v: u64) -> (r: String)
    ensures
        r@ == prefix@ + dec_nat(v as nat),
{
    let mut s = String::new();
    s.append(prefix);
    push_dec(&mut s, v);
    r_eq(s)
}

fn r_eq(s: String) -> (r: String)
    ensures
        r@ == s@,
{
    s
}

pub fn describe(d: &Decoded) -> (r: String)
    ensures
        r@ == spec_describe(*d),
{
    let mut s = String::new();
    match *d {
        Decoded::Nop => s.append("nop"),
        Decoded::Push8(v) => {
            s.append("push8 ");
            push_int(&mut s, v as i64);
        },
        Decoded::Window(v) => {
            s.append("window ");
            push_signed(&mut s, v as i64);
        },
        Decoded::Sjmp(v) => {
            s.append("sjmp ");
            push_signed(&mut s, v as i64);
        },
        Decoded::LoadK(v) => return text_with_dec("loadk ", v as u64),
        Decoded::LoadLocal(v) => return text_with_dec("loadlocal ", v as u64),
        Decoded::StoreLocal(v) => return text_with_dec("storelocal ", v as u64),
        Decoded::Intern(v) => return text_with_dec("intern ", v as u64),
        Decoded::StrCmp => s.append("strcmp"),
        Decoded::Call(v) => return text_with_dec("call ", v as u64),
        Decoded::Tail(v) => return text_with_dec("tail ", v as u64),
        Decoded::Close(v) => return text_with_dec("close ", v as u64),
        Decoded::GetUp(v) => return text_with_dec("getupval ", v as u64),
        Decoded::SetUp(v) => return text_with_dec("setupval ", v as u64),
        Decoded::Throw => s.append("throw"),
        Decoded::OpenUp(v) => return text_with_dec("openupval ", v as u64),
        Decoded::NewArr(v) => {
            s.append("newarr 0x");
            push_hex(&mut s, v as u64, 6, true);
        },
        Decoded::GetField(v) => {
            s.append("getfield 0x");
            push_hex(&mut s, v as u64, 6, true);
        },
        Decoded::Ret => s.append("ret"),
        Decoded::Unknown(op) => {
            s.append("unknown 0x");
            push_hex(&mut s, op as u64, 2, true);
        },
    }
    s
}

/// Stack delta of a decoded instruction; an `Unknown` opcode takes the ISA table's delta.
pub open spec fn spec_stack_delta_of(d: Decoded) -> i8 {
    match d {
        Decoded::Push8(_) | Decoded::LoadK(_) | Decoded::LoadLocal(_) | Decoded::Intern(_)
        | Decoded::GetUp(_) | Decoded::NewArr(_) => 1i8,
        Decoded::StoreLocal(_) | Decoded::SetUp(_) => -1i8,
        Decoded::Unknown(op) => if isa::in_table(op) { isa::table_delta(op) } else { 0i8 },
        _ => 0i8,
    }
}

/// The stack delta of a decoded instruction is the ISA table's delta for its opcode.
pub proof fn law_stack_delta_is_table_delta(code: Seq<u8>, pc: int)
    requires
        0 <= pc < code.len(),
        isa::in_table(code[pc]),
    ensures
        spec_stack_delta_of(decoded_of(code, pc)) == isa::table_delta(code[pc]),
{
}

/// Decoding the bytes of one encodable instruction gives it back, with its full length,
/// and the opcode byte sizes the instruction exactly.
pub proof fn law_decode_single(d: Decoded)
    requires
        is_encodable(d),
    ensures
        spec_decode_at(spec_encode(d), 0) == Ok::<(Decoded, usize), Error>((d, spec_encode(d).len() as usize)),
        spec_instr_len(spec_encode(d)[0]) == Some(spec_encode(d).len()),
{
    lemma_decode_encoded(Seq::empty(), d, Seq::empty());
    assert(Seq::<u8>::empty() + spec_encode(d) + Seq::<u8>::empty() =~= spec_encode(d));
}

pub fn stack_delta_of(d: &Decoded) -> (r: i8)
    ensures
        r == spec_stack_delta_of(*d),
{
    match d {
        Decoded::Push8(_) | Decoded::LoadK(_) | Decoded::LoadLocal(_) | Decoded::Intern(_)
        | Decoded::GetUp(_) | Decoded::NewArr(_) => 1,
        Decoded::StoreLocal(_) | Decoded::SetUp(_) => -1,
        Decoded::Unknown(op) => match isa::lookup(*op) {
            Some(i) => i.stack_delta,
            None => 0,
        },
        _ => 0,
    }
}

/// Per-opcode instruction counts over the walk of `code`; fails at the first unknown opcode.
pub fn count_by_opcode(code: &[u8]) -> (r: Result<Vec<usize>>)
    ensures
        r matches Ok(counts) ==> spec_walk(code@, 0) is Ok && counts@.len() == 256
            && forall|o: int| 0 <= o < 256 ==> #[trigger] counts@[o] == count_op(spec_walk(code@, 0)->Ok_0, o as u8),
        r matches Err(e) ==> spec_walk(code@, 0) == Err::<Seq<(usize, u8)>, Error>(e),
{
    let n = byte_len(code);
    let mut counts: Vec<usize> = Vec::new();
    while counts.len() < 256
        invariant
            counts@.len() <= 256,
            forall|o: int| 0 <= o < counts@.len() ==> #[trigger] counts@[o] == 0,
        decreases 256 - counts@.len(),
    {
        counts.push(0);
    }
    let ghost mut walked: Seq<(usize, u8)> = Seq::empty();
    let mut pc: usize = 0;
    while pc < n
        invariant
            n == code@.len(),
            n <= isize::MAX,
            pc <= n + 4,
            walked.len() <= pc,
            counts@.len() == 256,
            forall|o: int| 0 <= o < 256 ==> #[trigger] counts@[o] == count_op(walked, o as u8),
            spec_walk(code@, 0) matches Ok(all) ==> spec_walk(code@, pc as nat) matches Ok(rest) && all == walked + rest,
            spec_walk(code@, 0) is Err ==> spec_walk(code@, pc as nat) == spec_walk(code@, 0),
            spec_walk(code@, 0) is Ok <==> spec_walk(code@, pc as nat) is Ok,
        decreases n + 4 - pc,
    {
        let op = code[pc];
        let len = match bytecode::instr_len(op) {
            Some(l) => l,
            None => return Err(Error::UnknownOpcode { pc, op }),
        };
        proof {
            if let Ok(all) = spec_walk(code@, 0) {
                let rest = spec_walk(code@, pc as nat)->Ok_0;
                if pc + len < n {
                    let rest2 = spec_walk(code@, (pc + len) as nat)->Ok_0;
                    assert(rest == seq![(pc, op)] + rest2);
                    assert(all == walked.push((pc, op)) + rest2);
                } else {
                    assert(all == walked.push((pc, op)));
                }
            }
        }
        let old_count = counts[op as usize];
        proof {
            crate::bytecode::lemma_count_op_bound(walked, op);
        }
        counts.set(op as usize, old_count + 1);
        proof {
            let w2 = walked.push((pc, op));
            assert(w2.drop_last() == walked);
            assert forall|o: int| 0 <= o < 256 implies #[trigger] counts@[o] == count_op(w2, o as u8) by {
                assert(count_op(w2, o as u8) == count_op(walked, o as u8) + if op == o as u8 { 1nat } else { 0nat });
            }
            walked = w2;
        }
        pc += len;
    }
    proof {
        if let Ok(all) = spec_walk(code@, 0) {
            assert(all =~= walked);
        }
    }
    Ok(counts)
}

} // verus!
