//! Binary encoding of modules into the container format.
use vstd::prelude::*;
use crate::bytes::{i64_bytes, push_i64, push_u32, u32_bytes};
use crate::module::{FnModel, Function, Module};
use crate::reloc::{encode_tag_jump, Reloc, RelocKind, RelocTable};

verus! {

pub struct Writer {
    buf: Vec<u8>,
    relocs: RelocTable,
}

impl Default for Writer {
    fn default() -> (r: Self)
        ensures
            r.spec_bytes() == Seq::<u8>::empty(),
            r.spec_relocs() == Seq::<Reloc>::empty(),
    {
        Writer { buf: Vec::new(), relocs: RelocTable { entries: Vec::new() } }
    }
}

/// Container magic bytes, "CLVM".
pub open spec fn magic_bytes() -> Seq<u8> {
    seq![0x43u8, 0x4Cu8, 0x56u8, 0x4Du8]
}

/// Code section: 32-bit length (low bits of the byte count), then the code.
pub open spec fn code_section(code: Seq<u8>) -> Seq<u8> {
    u32_bytes(code.len() as u32) + code
}

/// Concatenated little-endian bytes of constants.
pub open spec fn consts_bytes(consts: Seq<i64>) -> Seq<u8>
    decreases consts.len(),
{
    if consts.len() == 0 { Seq::empty() } else { consts_bytes(consts.drop_last()) + i64_bytes(consts.last()) }
}

/// Constant section: count, then each constant.
pub open spec fn consts_section(consts: Seq<i64>) -> Seq<u8> {
    u32_bytes(consts.len() as u32) + consts_bytes(consts)
}

/// Length-prefixed byte records, concatenated.
pub open spec fn records(items: Seq<Seq<u8>>) -> Seq<u8>
    decreases items.len(),
{
    if items.len() == 0 { Seq::empty() } else { records(items.drop_last()) + code_section(items.last()) }
}

/// UTF-8 bytes of each string.
pub open spec fn utf8_items(strings: Seq<Seq<char>>) -> Seq<Seq<u8>> {
    strings.map_values(|s: Seq<char>| vstd::utf8::encode_utf8(s))
}

/// String-pool trailer.
pub open spec fn strings_section(strings: Seq<Seq<char>>) -> Seq<u8> {
    u32_bytes(0xFFFF_FFFFu32) + u32_bytes(strings.len() as u32) + records(utf8_items(strings))
}

/// Extra-functions trailer.
pub open spec fn funcs_section(codes: Seq<Seq<u8>>) -> Seq<u8> {
    u32_bytes(0xFFFF_FFFEu32) + u32_bytes(codes.len() as u32) + records(codes)
}

/// Container for a single function: its code, constants and (if any) strings.
pub open spec fn spec_encode_simple(f: FnModel) -> Seq<u8> {
    magic_bytes() + code_section(f.code) + consts_section(f.consts)
        + if f.strings.len() > 0 { strings_section(f.strings) } else { Seq::empty() }
}

/// Code of every function after the entry.
pub open spec fn extra_codes(fs: Seq<FnModel>) -> Seq<Seq<u8>> {
    fs.subrange(1, fs.len() as int).map_values(|f: FnModel| f.code)
}

/// Container for a module: the entry as for a single function, then the other functions' code.
pub open spec fn spec_encode_module(fs: Seq<FnModel>) -> Seq<u8> {
    spec_encode_simple(fs[0]) + if fs.len() > 1 { funcs_section(extra_codes(fs)) } else { Seq::empty() }
}

impl Writer {
    /// Bytes written so far.
    pub closed spec fn spec_bytes(&self) -> Seq<u8> {
        self.buf@
    }

    /// Relocations noted so far.
    pub closed spec fn spec_relocs(&self) -> Seq<Reloc> {
        self.relocs.entries@
    }

    pub fn bytes(&self) -> (r: &[u8])
        ensures
            r@ == self.spec_bytes(),
    {
        self.buf.as_slice()
    }

    pub fn write_magic(&mut self)
        ensures
            final(self).spec_bytes() == old(self).spec_bytes() + magic_bytes(),
            final(self).spec_relocs() == old(self).spec_relocs(),
    {
        self.buf.push(0x43);
        self.buf.push(0x4C);
        self.buf.push(0x56);
        self.buf.push(0x4D);
        assert(self.buf@ =~= old(self).buf@ + magic_bytes());
    }

    pub fn write_u32(&mut self, v: u32)
        ensures
            final(self).spec_bytes() == old(self).spec_bytes() + u32_bytes(v),
            final(self).spec_relocs() == old(self).spec_relocs(),
    {
        push_u32(&mut self.buf, v);
    }

    pub fn write_i64(&mut self, v: i64)
        ensures
            final(self).spec_bytes() == old(self).spec_bytes() + i64_bytes(v),
            final(self).spec_relocs() == old(self).spec_relocs(),
    {
        push_i64(&mut self.buf, v);
    }

    fn write_raw(&mut self, data: &[u8])
        ensures
            final(self).spec_bytes() == old(self).spec_bytes() + data@,
            final(self).spec_relocs() == old(self).spec_relocs(),
    {
        let mut i: usize = 0;
        while i < data.len()
            invariant
                i <= data@.len(),
                self.buf@ == old(self).buf@ + data@.subrange(0, i as int),
                self.relocs == old(self).relocs,
            decreases data@.len() - i,
        {
            self.buf.push(data[i]);
            i += 1;
            assert(self.buf@ =~= old(self).buf@ + data@.subrange(0, i as int));
        }
        assert(data@.subrange(0, data@.len() as int) =~= data@);
    }

    /// Writes the 32-bit length (low bits of the byte count), then the code.
    pub fn write_code(&mut self, code: &[u8])
        ensures
            final(self).spec_bytes() == old(self).spec_bytes() + code_section(code@),
            final(self).spec_relocs() == old(self).spec_relocs(),
    {
        self.write_u32(code.len() as u32);
        self.write_raw(code);
        assert(self.spec_bytes() =~= old(self).spec_bytes() + code_section(code@));
    }

    pub fn write_consts(&mut self, consts: &[i64])
        ensures
            final(self).spec_bytes() == old(self).spec_bytes() + consts_section(consts@),
            final(self).spec_relocs() == old(self).spec_relocs(),
    {
        self.write_u32(consts.len() as u32);
        let ghost mid = self.spec_bytes();
        let mut i: usize = 0;
        while i < consts.len()
            invariant
                i <= consts@.len(),
                self.spec_bytes() == mid + consts_bytes(consts@.subrange(0, i as int)),
                self.spec_relocs() == old(self).spec_relocs(),
            decreases consts@.len() - i,
        {
            self.write_i64(consts[i]);
            proof {
                assert(consts@.subrange(0, i + 1).drop_last() =~= consts@.subrange(0, i as int));
            }
            i += 1;
            assert(self.spec_bytes() =~= mid + consts_bytes(consts@.subrange(0, i as int)));
        }
        assert(consts@.subrange(0, consts@.len() as int) =~= consts@);
        assert(self.spec_bytes() =~= old(self).spec_bytes() + consts_section(consts@));
    }

    /// Notes a jump relocation and writes its fixup record.
    pub fn note_jump(&mut self, at: usize, target: u32)
        ensures
            final(self).spec_relocs() == old(self).spec_relocs().push(Reloc { at: at as u32, kind: RelocKind::JumpI8, symbol: target }),
            final(self).spec_bytes() == old(self).spec_bytes() + u32_bytes(at as u32) + u32_bytes(target),
    {
        self.relocs.push(at, RelocKind::JumpI8, target);
        let rec = encode_tag_jump(at as u32, target);
        self.write_raw(&rec);
        assert(self.spec_bytes() =~= old(self).spec_bytes() + u32_bytes(at as u32) + u32_bytes(target));
    }

    pub fn write_strings(&mut self, strings: &[String])
        ensures
            final(self).spec_bytes() == old(self).spec_bytes()
                + strings_section(strings@.map_values(|s: String| s@)),
            final(self).spec_relocs() == old(self).spec_relocs(),
    {
        self.write_u32(0xFFFF_FFFF);
        self.write_u32(strings.len() as u32);
        let ghost mid = self.spec_bytes();
        let ghost sv = strings@.map_values(|s: String| s@);
        let mut i: usize = 0;
        while i < strings.len()
            invariant
                i <= strings@.len(),
                sv == strings@.map_values(|s: String| s@),
                self.spec_bytes() == mid + records(utf8_items(sv.subrange(0, i as int))),
                self.spec_relocs() == old(self).spec_relocs(),
            decreases strings@.len() - i,
        {
            let b = strings[i].as_str().as_bytes();
            self.write_code(b);
            proof {
                assert(utf8_items(sv.subrange(0, i + 1)).drop_last() =~= utf8_items(sv.subrange(0, i as int)));
                assert(utf8_items(sv.subrange(0, i + 1)).last() == b@);
            }
            i += 1;
        }
        assert(sv.subrange(0, sv.len() as int) =~= sv);
        assert(self.spec_bytes() =~= old(self).spec_bytes() + strings_section(sv));
    }

    pub fn write_extra_funcs(&mut self, funcs: &[&[u8]])
        ensures
            final(self).spec_bytes() == old(self).spec_bytes()
                + funcs_section(funcs@.map_values(|f: &[u8]| f@)),
            final(self).spec_relocs() == old(self).spec_relocs(),
    {
        self.write_u32(0xFFFF_FFFE);
        self.write_u32(funcs.len() as u32);
        let ghost mid = self.spec_bytes();
        let ghost fv = funcs@.map_values(|f: &[u8]| f@);
        let mut i: usize = 0;
        while i < funcs.len()
            invariant
                i <= funcs@.len(),
                fv == funcs@.map_values(|f: &[u8]| f@),
                self.spec_bytes() == mid + records(fv.subrange(0, i as int)),
                self.spec_relocs() == old(self).spec_relocs(),
            decreases funcs@.len() - i,
        {
            self.write_code(funcs[i]);
            proof {
                assert(fv.subrange(0, i + 1).drop_last() =~= fv.subrange(0, i as int));
            }
            i += 1;
        }
        assert(fv.subrange(0, fv.len() as int) =~= fv);
        assert(self.spec_bytes() =~= old(self).spec_bytes() + funcs_section(fv));
    }

    pub fn reloc_count(&self) -> (r: usize)
        ensures
            r == self.spec_relocs().len(),
    {
        self.relocs.len()
    }
}

pub fn encode_simple(f: &Function) -> (r: Vec<u8>)
    ensures
        r@ == spec_encode_simple(f@),
{
    let mut w = Writer { buf: Vec::new(), relocs: RelocTable { entries: Vec::new() } };
    w.write_magic();
    w.write_code(&f.code);
    w.write_consts(&f.consts);
    if f.string_pool.len() > 0 {
        w.write_strings(&f.string_pool);
    }
    proof {
        assert(f.string_pool@.map_values(|s: String| s@) =~= f@.strings);
    }
    assert(w.buf@ =~= spec_encode_simple(f@));
    w.buf
}

/// Encodes a module: the entry function, then the code of the others.
pub fn encode_module(m: &Module) -> (r: Vec<u8>)
    requires
        m.functions@.len() > 0,
    ensures
        r@ == spec_encode_module(m@),
{
    let entry = &m.functions[0];
    let mut w = Writer { buf: Vec::new(), relocs: RelocTable { entries: Vec::new() } };
    w.write_magic();
    w.write_code(&entry.code);
    w.write_consts(&entry.consts);
    if entry.string_pool.len() > 0 {
        w.write_strings(&entry.string_pool);
    }
    proof {
        assert(entry.string_pool@.map_values(|s: String| s@) =~= entry@.strings);
    }
    assert(w.buf@ =~= spec_encode_simple(m@[0]));
    if m.functions.len() > 1 {
        let mut extras: Vec<&[u8]> = Vec::new();
        let mut i: usize = 1;
        while i < m.functions.len()
            invariant
                1 <= i <= m.functions@.len(),
                extras@.len() == i - 1,
                m@.len() == m.functions@.len(),
                extras@.map_values(|f: &[u8]| f@) == m@.subrange(1, i as int).map_values(|f: FnModel| f.code),
            decreases m.functions@.len() - i,
        {
            let c = m.functions[i].code.as_slice();
            assert(c@ == m@[i as int].code);
            let ghost before = extras@;
            extras.push(c);
            proof {
                let lhs = extras@.map_values(|f: &[u8]| f@);
                let rhs = m@.subrange(1, i + 1).map_values(|f: FnModel| f.code);
                assert(lhs.len() == rhs.len());
                assert forall|j: int| 0 <= j < lhs.len() implies lhs[j] == rhs[j] by {
                    if j < lhs.len() - 1 {
                        assert(extras@[j] == before[j]);
                        assert(before.map_values(|f: &[u8]| f@)[j] == m@.subrange(1, i as int).map_values(|f: FnModel| f.code)[j]);
                    }
                }
                assert(lhs =~= rhs);
            }
            i += 1;
        }
        w.write_extra_funcs(&extras);
    }
    assert(w.buf@ =~= spec_encode_module(m@));
    w.buf
}

} // verus!
