//! Textual disassembler for function bodies.
use vstd::prelude::*;
use crate::bytecode;
use crate::bytecode::{lenient_len, lenient_instr_len, lenient_walk, mnemonic, pcs_of_op, spec_lenient_walk, walk_entry_in};
use crate::bytes::append_range;
use crate::ir::byte_or_zero;
use crate::isa;
use crate::isa::in_table;
use crate::module::{FnModel, Function};
use crate::text::{
    dec_int, dec_nat, dec_signed, hex, numeral, pad_left, pad_right, push_dec, push_hex, push_int,
    push_numeral, push_padded_left, push_padded_right, push_signed,
};

verus! {

#[derive(Clone, Debug)]
pub struct Line {
    pub pc: usize,
    pub bytes: Vec<u8>,
    pub text: String,
}

/// Mathematical content of a line.
pub struct LineModel {
    pub pc: usize,
    pub bytes: Seq<u8>,
    pub text: Seq<char>,
}

impl View for Line {
    type V = LineModel;

    open spec fn view(&self) -> LineModel {
        LineModel { pc: self.pc, bytes: self.bytes@, text: self.text@ }
    }
}

/// The mnemonic of an opcode of the instruction set, `???` otherwise.
pub open spec fn op_name(op: u8) -> Seq<char> {
    if in_table(op) { mnemonic(op) } else { "???"@ }
}

/// Opcodes printed with a 16-bit index operand.
pub open spec fn is_index_op(op: u8) -> bool {
    op == bytecode::LOADK || op == bytecode::LOADLOCAL || op == bytecode::STORELOCAL || op == bytecode::INTERN
        || op == bytecode::CALL || op == bytecode::TAIL || op == bytecode::GETUPVAL || op == bytecode::SETUPVAL
        || op == bytecode::OPENUPVAL
}

/// Text of the instruction `op` at `pc` whose bytes present number `len`: the mnemonic,
/// then its operand when the bytes hold one (an index reads the byte after a two-byte
/// instruction as its high half).
pub open spec fn instr_text(code: Seq<u8>, pc: int, op: u8, len: int) -> Seq<char> {
    let name = op_name(op);
    if op == bytecode::PUSH8 && len >= 2 {
        name + " "@ + dec_int(code[pc + 1] as i8 as int)
    } else if op == bytecode::WINDOW && len >= 2 {
        name + " "@ + dec_signed(code[pc + 1] as i8 as int)
    } else if op == bytecode::SJMP && len >= 2 {
        let rel = code[pc + 1] as i8 as int;
        name + " "@ + dec_signed(rel) + " ; -> "@ + dec_int(pc + 2 + rel)
    } else if is_index_op(op) && len >= 2 {
        name + " "@ + dec_nat((code[pc + 1] as int + 256 * (byte_or_zero(code, pc + 2) as int)) as nat)
    } else if (op == bytecode::NEWARR || op == bytecode::GETFIELD) && len >= 4 {
        name + " 0x"@ + hex(
            (code[pc + 1] as int + 256 * (code[pc + 2] as int) + 65536 * (code[pc + 3] as int)) as nat,
            6,
            true,
        )
    } else {
        name
    }
}

/// Number of bytes of the instruction at `pc` that are present.
pub open spec fn present_len(code: Seq<u8>, pc: int, op: u8) -> int {
    if lenient_len(op) <= code.len() - pc { lenient_len(op) as int } else { code.len() - pc }
}

/// The line of the instruction `op` at `pc`.
pub open spec fn line_at(code: Seq<u8>, pc: int, op: u8) -> LineModel {
    let len = present_len(code, pc, op);
    LineModel { pc: pc as usize, bytes: code.subrange(pc, pc + len), text: instr_text(code, pc, op, len) }
}

/// One line per walked instruction, in order.
pub open spec fn code_lines(code: Seq<u8>) -> Seq<LineModel> {
    let w = spec_lenient_walk(code, 0);
    Seq::new(w.len(), |i: int| line_at(code, w[i].0 as int, w[i].1))
}

/// Bytes as two-digit upper-case hex, separated by spaces.
pub open spec fn bytes_hex(b: Seq<u8>) -> Seq<char>
    decreases b.len(),
{
    if b.len() == 0 {
        Seq::empty()
    } else if b.len() == 1 {
        hex(b[0] as nat, 2, true)
    } else {
        bytes_hex(b.drop_last()) + " "@ + hex(b.last() as nat, 2, true)
    }
}

/// A rendered line: offset in hex right-aligned to four, the padded bytes, the text.
pub open spec fn line_text(l: LineModel) -> Seq<char> {
    "  "@ + pad_left(numeral(l.pc as nat, 16, true), 4, ' ') + ": "@ + pad_right(bytes_hex(l.bytes), 12) + "  "@
        + l.text + "\n"@
}

/// The rendered lines, concatenated.
pub open spec fn lines_text(ls: Seq<LineModel>) -> Seq<char>
    decreases ls.len(),
{
    if ls.len() == 0 {
        Seq::empty()
    } else {
        lines_text(ls.drop_last()) + line_text(ls.last())
    }
}

/// A function's listing: a header line, then one line per instruction.
pub open spec fn render_text(f: FnModel) -> Seq<char> {
    "; function "@ + f.name + " locals="@ + dec_nat(f.max_locals as nat) + " frame="@ + dec_nat(f.frame_size as nat)
        + "\n"@ + lines_text(code_lines(f.code))
}

/// The listings of `fs`, separated by newlines.
pub open spec fn render_all(fs: Seq<FnModel>) -> Seq<char>
    decreases fs.len(),
{
    if fs.len() == 0 {
        Seq::empty()
    } else if fs.len() == 1 {
        render_text(fs[0])
    } else {
        render_all(fs.drop_last()) + "\n"@ + render_text(fs.last())
    }
}

/// Bytes held by the characters of a string in UTF-8.
pub open spec fn utf8_len(s: Seq<char>) -> nat {
    vstd::utf8::encode_utf8(s).len()
}

/// Sum of the UTF-8 lengths of the strings.
pub open spec fn pool_bytes(ss: Seq<Seq<char>>) -> nat
    decreases ss.len(),
{
    if ss.len() == 0 {
        0
    } else {
        pool_bytes(ss.drop_last()) + utf8_len(ss.last())
    }
}

/// Code bytes, eight bytes per constant, and the bytes of the string pool.
pub open spec fn approx_bytes(f: FnModel) -> nat {
    f.code.len() + f.consts.len() * 8 + pool_bytes(f.strings)
}

fn name_text(op: u8) -> (r: &'static str)
    ensures
        r@ == op_name(op),
{
    match isa::name_of(op) {
        Some(n) => n,
        None => "???",
    }
}

fn format_instr(code: &[u8], pc: usize, op: u8, len: usize) -> (r: String)
    requires
        pc < code@.len(),
        len >= 1,
        pc + len <= code@.len(),
    ensures
        r@ == instr_text(code@, pc as int, op, len as int),
{
    proof {
        reveal_strlit(" ");
        reveal_strlit(" ; -> ");
        reveal_strlit(" 0x");
    }
    let _ = crate::bytes::byte_len(code);
    let name = name_text(op);
    let mut s = String::new();
    s.append(name);
    if op == bytecode::PUSH8 && len >= 2 {
        s.append(" ");
        push_int(&mut s, code[pc + 1] as i8 as i64);
    } else if op == bytecode::WINDOW && len >= 2 {
        s.append(" ");
        push_signed(&mut s, code[pc + 1] as i8 as i64);
    } else if op == bytecode::SJMP && len >= 2 {
        let rel = code[pc + 1] as i8 as i64;
        s.append(" ");
        push_signed(&mut s, rel);
        s.append(" ; -> ");
        let base: u64 = pc as u64 + 2;
        if rel >= 0 {
            push_dec(&mut s, base + rel as u64);
        } else {
            let mag: u64 = (-rel) as u64;
            if base >= mag {
                push_dec(&mut s, base - mag);
            } else {
                proof {
                    reveal_strlit("-");
                }
                s.append("-");
                push_dec(&mut s, mag - base);
            }
        }
    } else if (op == bytecode::LOADK || op == bytecode::LOADLOCAL || op == bytecode::STORELOCAL || op
        == bytecode::INTERN || op == bytecode::CALL || op == bytecode::TAIL || op == bytecode::GETUPVAL || op
        == bytecode::SETUPVAL || op == bytecode::OPENUPVAL) && len >= 2 {
        let lo = code[pc + 1];
        let hi: u8 = if code.len() - pc > 2 { code[pc + 2] } else { 0 };
        let idx = lo as u16 | ((hi as u16) << 8u16);
        assert(lo as u16 | ((hi as u16) << 8u16) == lo as u16 + 256 * (hi as u16)) by (bit_vector);
        s.append(" ");
        push_dec(&mut s, idx as u64);
    } else if (op == bytecode::NEWARR || op == bytecode::GETFIELD) && len >= 4 {
        let b1 = code[pc + 1];
        let b2 = code[pc + 2];
        let b3 = code[pc + 3];
        let a = b1 as u32 | ((b2 as u32) << 8u32) | ((b3 as u32) << 16u32);
        assert(b1 as u32 | ((b2 as u32) << 8u32) | ((b3 as u32) << 16u32) == b1 as u32 + 256 * (b2 as u32) + 65536
            * (b3 as u32)) by (bit_vector);
        s.append(" 0x");
        push_hex(&mut s, a as u64, 6, true);
    }
    assert(s@ =~= instr_text(code@, pc as int, op, len as int));
    s
}

/// One line per instruction: its offset, the bytes present and its text.
pub fn disassemble_function(f: &Function) -> (r: Vec<Line>)
    ensures
        r@.len() == code_lines(f.code@).len(),
        forall|i: int| 0 <= i < r@.len() ==> (#[trigger] r@[i])@ == code_lines(f.code@)[i],
{
    let code = f.code.as_slice();
    let n = crate::bytes::byte_len(code);
    let walk = lenient_walk(code);
    let ghost w = walk@;
    proof {
        crate::bytecode::lemma_lenient_walk_entries(code@, 0);
    }
    let mut out: Vec<Line> = Vec::new();
    let mut i: usize = 0;
    while i < walk.len()
        invariant
            w == walk@,
            w == spec_lenient_walk(code@, 0),
            code@ == f.code@,
            n == code@.len(),
            forall|k: int| 0 <= k < w.len() ==> walk_entry_in(code@, 0, #[trigger] w[k]),
            i <= w.len(),
            out@.len() == i,
            forall|k: int| 0 <= k < i ==> (#[trigger] out@[k])@ == line_at(code@, w[k].0 as int, w[k].1),
        decreases w.len() - i,
    {
        let (pc, op) = walk[i];
        assert(walk_entry_in(code@, 0, w[i as int]));
        let full = lenient_instr_len(op);
        let len = if full <= n - pc { full } else { n - pc };
        let mut bytes: Vec<u8> = Vec::new();
        append_range(&mut bytes, code, pc, len);
        let text = format_instr(code, pc, op, len);
        out.push(Line { pc, bytes, text });
        i += 1;
    }
    out
}

/// Appends the bytes as two-digit upper-case hex, separated by spaces.
pub fn push_bytes_hex(out: &mut String, b: &[u8])
    ensures
        final(out)@ == old(out)@ + bytes_hex(b@),
{
    proof {
        reveal_strlit(" ");
    }
    let ghost base = out@;
    let mut i: usize = 0;
    assert(b@.subrange(0, 0) =~= Seq::<u8>::empty());
    while i < b.len()
        invariant
            i <= b@.len(),
            out@ == base + bytes_hex(b@.subrange(0, i as int)),
        decreases b@.len() - i,
    {
        assert(b@.subrange(0, i + 1).drop_last() =~= b@.subrange(0, i as int));
        if i > 0 {
            out.append(" ");
        }
        push_hex(out, b[i] as u64, 2, true);
        proof {
            if i == 0 {
                assert(out@ =~= base + bytes_hex(b@.subrange(0, 1)));
            } else {
                assert(out@ =~= base + bytes_hex(b@.subrange(0, i + 1)));
            }
        }
        i += 1;
    }
    assert(b@.subrange(0, i as int) =~= b@);
}

fn push_line(out: &mut String, l: &Line)
    ensures
        final(out)@ == old(out)@ + line_text(l@),
{
    proof {
        reveal_strlit("  ");
        reveal_strlit(": ");
        reveal_strlit("\n");
    }
    out.append("  ");
    let mut pcs = String::new();
    push_numeral(&mut pcs, l.pc as u64, 16, true);
    assert(pcs@ =~= numeral(l.pc as nat, 16, true));
    push_padded_left(out, pcs.as_str(), 4);
    out.append(": ");
    let mut hx = String::new();
    push_bytes_hex(&mut hx, l.bytes.as_slice());
    assert(hx@ =~= bytes_hex(l.bytes@));
    push_padded_right(out, hx.as_str(), 12);
    out.append("  ");
    out.append(l.text.as_str());
    out.append("\n");
    assert(final(out)@ =~= old(out)@ + line_text(l@));
}

/// A header with the function's name, locals and frame size, then a line per instruction.
pub fn render(f: &Function) -> (r: String)
    ensures
        r@ == render_text(f@),
{
    proof {
        reveal_strlit("; function ");
        reveal_strlit(" locals=");
        reveal_strlit(" frame=");
        reveal_strlit("\n");
    }
    let mut s = String::new();
    s.append("; function ");
    s.append(f.name.as_str());
    s.append(" locals=");
    push_dec(&mut s, f.max_locals as u64);
    s.append(" frame=");
    push_dec(&mut s, f.frame_size as u64);
    s.append("\n");
    let lines = disassemble_function(f);
    let ghost ls = code_lines(f.code@);
    let ghost head = s@;
    let mut i: usize = 0;
    assert(ls.subrange(0, 0) =~= Seq::<LineModel>::empty());
    while i < lines.len()
        invariant
            lines@.len() == ls.len(),
            forall|k: int| 0 <= k < lines@.len() ==> (#[trigger] lines@[k])@ == ls[k],
            i <= ls.len(),
            s@ == head + lines_text(ls.subrange(0, i as int)),
        decreases ls.len() - i,
    {
        assert(ls.subrange(0, i + 1).drop_last() =~= ls.subrange(0, i as int));
        assert(lines@[i as int]@ == ls[i as int]);
        push_line(&mut s, &lines[i]);
        i += 1;
        assert(s@ =~= head + lines_text(ls.subrange(0, i as int)));
    }
    assert(ls.subrange(0, i as int) =~= ls);
    assert(s@ =~= render_text(f@));
    s
}

/// The listings of all functions, separated by blank-line newlines.
pub fn render_module(funcs: &[Function]) -> (r: String)
    ensures
        r@ == render_all(funcs@.map_values(|f: Function| f@)),
{
    proof {
        reveal_strlit("\n");
    }
    let ghost fs = funcs@.map_values(|f: Function| f@);
    let mut s = String::new();
    let mut i: usize = 0;
    assert(fs.subrange(0, 0) =~= Seq::<FnModel>::empty());
    while i < funcs.len()
        invariant
            fs == funcs@.map_values(|f: Function| f@),
            i <= funcs@.len(),
            s@ == render_all(fs.subrange(0, i as int)),
        decreases funcs@.len() - i,
    {
        assert(fs.subrange(0, i + 1).drop_last() =~= fs.subrange(0, i as int));
        assert(fs[i as int] == funcs@[i as int]@);
        if i > 0 {
            s.append("\n");
        }
        let part = render(&funcs[i]);
        s.append(part.as_str());
        proof {
            if i == 0 {
                assert(fs.subrange(0, 1) =~= seq![fs[0]]);
            }
        }
        i += 1;
        assert(s@ =~= render_all(fs.subrange(0, i as int)));
    }
    assert(fs.subrange(0, i as int) =~= fs);
    s
}

/// Offsets of the instructions whose opcode is `opcode`, in order.
pub fn find_ops(f: &Function, opcode: u8) -> (r: Vec<usize>)
    ensures
        r@ == pcs_of_op(spec_lenient_walk(f.code@, 0), opcode),
{
    let lines = disassemble_function(f);
    let ghost w = spec_lenient_walk(f.code@, 0);
    let ghost ls = code_lines(f.code@);
    let _ = f.code.len();
    proof {
        crate::bytecode::lemma_lenient_walk_entries(f.code@, 0);
    }
    let mut out: Vec<usize> = Vec::new();
    let mut i: usize = 0;
    assert(w.subrange(0, 0) =~= Seq::<(usize, u8)>::empty());
    while i < lines.len()
        invariant
            lines@.len() == ls.len(),
            ls == code_lines(f.code@),
            w == spec_lenient_walk(f.code@, 0),
            ls.len() == w.len(),
            forall|k: int| 0 <= k < w.len() ==> walk_entry_in(f.code@, 0, #[trigger] w[k]),
            forall|k: int| 0 <= k < lines@.len() ==> (#[trigger] lines@[k])@ == ls[k],
            i <= ls.len(),
            out@ == pcs_of_op(w.subrange(0, i as int), opcode),
        decreases ls.len() - i,
    {
        assert(w.subrange(0, i + 1).drop_last() =~= w.subrange(0, i as int));
        assert(lines@[i as int]@ == ls[i as int]);
        assert(walk_entry_in(f.code@, 0, w[i as int]));
        let l = &lines[i];
        assert(l.bytes@.len() >= 1 && l.bytes@[0] == w[i as int].1);
        if l.bytes.len() > 0 && l.bytes[0] == opcode {
            out.push(l.pc);
        }
        i += 1;
    }
    assert(w.subrange(0, i as int) =~= w);
    out
}

/// Code bytes plus eight per constant plus the bytes of the string pool.
pub fn approx_size(f: &Function) -> (r: usize)
    requires
        approx_bytes(f@) <= usize::MAX,
    ensures
        r == approx_bytes(f@),
{
    let ghost ss = f@.strings;
    let mut total: usize = 0;
    let mut i: usize = 0;
    assert(ss.subrange(0, 0) =~= Seq::<Seq<char>>::empty());
    while i < f.string_pool.len()
        invariant
            ss == f@.strings,
            ss.len() == f.string_pool@.len(),
            approx_bytes(f@) <= usize::MAX,
            i <= ss.len(),
            total == pool_bytes(ss.subrange(0, i as int)),
        decreases ss.len() - i,
    {
        assert(ss.subrange(0, i + 1).drop_last() =~= ss.subrange(0, i as int));
        proof {
            lemma_pool_prefix(ss, i + 1);
        }
        let part = f.string_pool[i].as_str().len();
        assert(ss[i as int] == f.string_pool@[i as int]@);
        total = total + part;
        i += 1;
    }
    assert(ss.subrange(0, i as int) =~= ss);
    f.code.len() + f.consts.len() * 8 + total
}

proof fn lemma_pool_prefix(ss: Seq<Seq<char>>, k: int)
    requires
        0 <= k <= ss.len(),
    ensures
        pool_bytes(ss.subrange(0, k)) <= pool_bytes(ss),
    decreases ss.len() - k,
{
    if k < ss.len() {
        lemma_pool_prefix(ss, k + 1);
        assert(ss.subrange(0, k + 1).drop_last() =~= ss.subrange(0, k));
    } else {
        assert(ss.subrange(0, k) =~= ss);
    }
}


proof fn lemma_walk_follows_decode(code: Seq<u8>, pc: nat)
    requires
        crate::decode::spec_decode_from(code, pc) is Ok,
        code.len() <= usize::MAX,
    ensures
        spec_lenient_walk(code, pc).len() == (crate::decode::spec_decode_from(code, pc)->Ok_0).len(),
        forall|i: int| 0 <= i < spec_lenient_walk(code, pc).len() ==> {
            let e = (crate::decode::spec_decode_from(code, pc)->Ok_0)[i];
            &&& #[trigger] spec_lenient_walk(code, pc)[i] == (e.0, code[e.0 as int])
            &&& e.0 < code.len()
            &&& crate::decode::decoded_of(code, e.0 as int) == e.1
            &&& e.0 + lenient_len(code[e.0 as int]) <= code.len()
            &&& bytecode::spec_instr_len(code[e.0 as int]) is Some
        },
    decreases code.len() - pc,
{
    if pc < code.len() {
        let len = bytecode::spec_instr_len(code[pc as int]).unwrap();
        lemma_walk_follows_decode(code, pc + len);
        let rest = crate::decode::spec_decode_from(code, pc + len)->Ok_0;
        let l = crate::decode::spec_decode_from(code, pc)->Ok_0;
        let w = spec_lenient_walk(code, pc);
        let wr = spec_lenient_walk(code, pc + len);
        assert(w =~= seq![(pc as usize, code[pc as int])] + wr);
        assert(l == seq![(pc as usize, crate::decode::decoded_of(code, pc as int))] + rest);
        assert forall|i: int| 0 <= i < w.len() implies {
            let e = l[i];
            &&& #[trigger] w[i] == (e.0, code[e.0 as int])
            &&& e.0 < code.len()
            &&& crate::decode::decoded_of(code, e.0 as int) == e.1
            &&& e.0 + lenient_len(code[e.0 as int]) <= code.len()
            &&& bytecode::spec_instr_len(code[e.0 as int]) is Some
        } by {
            if i > 0 {
                assert(w[i] == wr[i - 1]);
                assert(l[i] == rest[i - 1]);
            }
        }
    }
}

/// The disassembly of code that decodes has one line per decoded instruction, at its
/// offset, whose bytes are exactly that instruction's encoding and whose text starts with
/// the instruction's mnemonic.
pub proof fn law_listing_follows_decode(code: Seq<u8>)
    requires
        crate::decode::spec_decode_all(code) is Ok,
        code.len() <= usize::MAX,
    ensures
        code_lines(code).len() == (crate::decode::spec_decode_all(code)->Ok_0).len(),
        forall|i: int| 0 <= i < code_lines(code).len() ==> {
            let e = (crate::decode::spec_decode_all(code)->Ok_0)[i];
            let op = code[e.0 as int];
            &&& (#[trigger] code_lines(code)[i]).pc == e.0
            &&& code_lines(code)[i].bytes == crate::decode::spec_encode(e.1)
            &&& code_lines(code)[i].text.len() >= mnemonic(op).len()
            &&& code_lines(code)[i].text.subrange(0, mnemonic(op).len() as int) == mnemonic(op)
        },
{
    lemma_walk_follows_decode(code, 0);
    let l = crate::decode::spec_decode_all(code)->Ok_0;
    let w = spec_lenient_walk(code, 0);
    assert forall|i: int| 0 <= i < code_lines(code).len() implies {
        let e = l[i];
        let op = code[e.0 as int];
        &&& (#[trigger] code_lines(code)[i]).pc == e.0
        &&& code_lines(code)[i].bytes == crate::decode::spec_encode(e.1)
        &&& code_lines(code)[i].text.len() >= mnemonic(op).len()
        &&& code_lines(code)[i].text.subrange(0, mnemonic(op).len() as int) == mnemonic(op)
    } by {
        let e = l[i];
        let op = code[e.0 as int];
        assert(w[i] == (e.0, op));
        let len = bytecode::spec_instr_len(op).unwrap();
        crate::decode::lemma_encode_decoded(code, e.0 as int, len);
        let ln = code_lines(code)[i];
        assert(ln == line_at(code, e.0 as int, op));
        assert(present_len(code, e.0 as int, op) == len);
        let t = ln.text;
        let m = mnemonic(op);
        assert(op_name(op) == m);
        assert(t.len() >= m.len() && t.subrange(0, m.len() as int) =~= m) by {
            let p = e.0 as int;
            if op == bytecode::PUSH8 {
                assert(t == m + (" "@ + dec_int(code[p + 1] as i8 as int)));
            } else if op == bytecode::WINDOW {
                assert(t == m + (" "@ + dec_signed(code[p + 1] as i8 as int)));
            } else if op == bytecode::SJMP {
                let rel = code[p + 1] as i8 as int;
                assert(t == m + (" "@ + dec_signed(rel) + " ; -> "@ + dec_int(p + 2 + rel)));
            } else if is_index_op(op) {
                assert(t == m + (" "@ + dec_nat((code[p + 1] as int + 256 * (byte_or_zero(code, p + 2) as int)) as nat)));
            } else if op == bytecode::NEWARR || op == bytecode::GETFIELD {
                assert(t == m + (" 0x"@ + hex((code[p + 1] as int + 256 * (code[p + 2] as int) + 65536 * (code[p + 3] as int)) as nat, 6, true)));
            } else {
                assert(t == m);
            }
        }
    }
}


/// A complete `push8` prints its operand as a signed byte, and a complete `sjmp` prints its
/// signed displacement and the offset it lands on, `pc + 2` plus that displacement.
pub proof fn law_signed_operands_printed(code: Seq<u8>, pc: int)
    requires
        0 <= pc,
        pc + 1 < code.len(),
    ensures
        ({
            let b = code[pc + 1];
            let v = if b < 128 { b as int } else { b as int - 256 };
            &&& code[pc] == bytecode::PUSH8 ==> line_at(code, pc, code[pc]).text == "push8"@ + " "@ + dec_int(v)
            &&& code[pc] == bytecode::SJMP ==> line_at(code, pc, code[pc]).text
                == "sjmp"@ + " "@ + dec_signed(v) + " ; -> "@ + dec_int(pc + 2 + v)
        }),
{
    let b = code[pc + 1];
    assert((b as i8) as int == (if b < 128 { b as int } else { b as int - 256 })) by (bit_vector);
}

} // verus!
