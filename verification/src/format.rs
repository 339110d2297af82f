//! Container format versions, feature flags, header prefixes and section size estimates.
use vstd::prelude::*;
use vstd::string::*;
use crate::error::{Error, Result};
use crate::bytes::{u32_at, u32_bytes, read_u32, push_u32};
use crate::text::{dec_nat, push_dec};

verus! {

pub const MAGIC: [u8; 4] = [0x43, 0x4C, 0x56, 0x4D];
pub const VERSION_1: u16 = 1;
pub const VERSION_2: u16 = 2;

pub const FEATURE_STRINGS: u32 = 1;
pub const FEATURE_MULTI_FUNC: u32 = 2;
pub const FEATURE_UPVALUES: u32 = 4;
pub const FEATURE_DEBUG_MAP: u32 = 8;
pub const FEATURE_RELOCS: u32 = 16;

/// The magic bytes `CLVM`.
pub open spec fn magic_seq() -> Seq<u8> {
    seq![0x43u8, 0x4C, 0x56, 0x4D]
}

/// Little-endian bytes of a 16-bit value.
pub open spec fn le16_bytes(v: u16) -> Seq<u8> {
    seq![(v % 256) as u8, (v / 256) as u8]
}

#[derive(Clone, Copy, Debug, PartialEq, Eq)]
pub struct FormatHeader {
    pub version: u16,
    pub features: u32,
    pub code_len: u32,
    pub const_count: u32,
}

impl FormatHeader {
    /// A version-1 header with no features.
    pub fn v1(code_len: u32, const_count: u32) -> (r: Self)
        ensures
            r == (FormatHeader { version: VERSION_1, features: 0, code_len, const_count }),
    {
        FormatHeader { version: VERSION_1, features: 0, code_len, const_count }
    }

    /// Whether any bit of `feature` is set.
    pub fn has(&self, feature: u32) -> (r: bool)
        ensures
            r == (self.features & feature != 0),
    {
        self.features & feature != 0
    }

    /// Sets the bits of `feature`.
    pub fn enable(&mut self, feature: u32)
        ensures
            *final(self) == (FormatHeader { features: old(self).features | feature, ..*old(self) }),
    {
        self.features = self.features | feature;
    }

    /// Encoded header size: 18 bytes from version 2 on, 8 before.
    pub fn encoded_size(&self) -> (r: usize)
        ensures
            r == spec_encoded_size(self.version),
    {
        if self.version >= VERSION_2 {
            18
        } else {
            8
        }
    }
}

/// Whether the input starts with the magic bytes.
pub open spec fn starts_with_magic(input: Seq<u8>) -> bool {
    input.len() >= 4 && input.subrange(0, 4) == magic_seq()
}

/// Fails unless the input starts with the magic bytes.
pub fn parse_magic(input: &[u8]) -> (r: Result<()>)
    ensures
        input@.len() < 4 ==> r == Err::<(), Error>(Error::Truncated { at: "magic" }),
        input@.len() >= 4 && !starts_with_magic(input@) ==> r == Err::<(), Error>(Error::BadMagic),
        starts_with_magic(input@) ==> r is Ok,
{
    if input.len() < 4 {
        return Err(Error::Truncated { at: "magic" });
    }
    if !(input[0] == 0x43 && input[1] == 0x4C && input[2] == 0x56 && input[3] == 0x4D) {
        assert(!starts_with_magic(input@)) by {
            if starts_with_magic(input@) {
                assert(input@.subrange(0, 4)[0] == input@[0]);
                assert(input@.subrange(0, 4)[1] == input@[1]);
                assert(input@.subrange(0, 4)[2] == input@[2]);
                assert(input@.subrange(0, 4)[3] == input@[3]);
            }
        }
        return Err(Error::BadMagic);
    }
    assert(input@.subrange(0, 4) =~= magic_seq());
    Ok(())
}

/// Version of a container: 2 when the bytes after the magic say so, 1 otherwise (legacy
/// containers store the code length there).
pub open spec fn spec_detect_version(input: Seq<u8>) -> Result<u16> {
    if input.len() < 4 {
        Err(Error::Truncated { at: "magic" })
    } else if !starts_with_magic(input) {
        Err(Error::BadMagic)
    } else if input.len() >= 6 && input[4] as int + 256 * (input[5] as int) == VERSION_2 {
        Ok(VERSION_2)
    } else {
        Ok(VERSION_1)
    }
}

/// Encoded header size of a version.
pub open spec fn spec_encoded_size(version: u16) -> nat {
    if version >= VERSION_2 { 18 } else { 8 }
}

/// Bytes of a version-1 prefix.
pub open spec fn spec_v1_prefix(code_len: u32) -> Seq<u8> {
    magic_seq() + u32_bytes(code_len)
}

/// Bytes of a version-2 prefix.
pub open spec fn spec_v2_prefix(h: FormatHeader) -> Seq<u8> {
    magic_seq() + le16_bytes(h.version) + u32_bytes(h.features) + u32_bytes(h.code_len) + u32_bytes(h.const_count)
}

/// A version-2 prefix is detected as version 2 and is as long as a version-2 header says;
/// a version-1 prefix is as long as a version-1 header says.
pub proof fn law_prefixes_match_headers(h: FormatHeader, code_len: u32, const_count: u32)
    requires
        h.version == VERSION_2,
    ensures
        spec_detect_version(spec_v2_prefix(h)) == Ok::<u16, Error>(VERSION_2),
        spec_v2_prefix(h).len() == spec_encoded_size(h.version) == 18,
        spec_v1_prefix(code_len).len() == spec_encoded_size(VERSION_1) == 8,
{
    let p = spec_v2_prefix(h);
    assert(p.subrange(0, 4) =~= magic_seq());
    assert(p[4] == 2u8 && p[5] == 0u8);
}

pub fn detect_version(input: &[u8]) -> (r: Result<u16>)
    ensures
        r == spec_detect_version(input@),
{
    match parse_magic(input) {
        Ok(()) => {},
        Err(e) => return Err(e),
    }
    if input.len() >= 6 {
        let v: u16 = input[4] as u16 + 256 * (input[5] as u16);
        if v == VERSION_2 {
            return Ok(VERSION_2);
        }
    }
    Ok(VERSION_1)
}

/// Magic bytes and the code length.
pub fn write_v1_prefix(code_len: u32) -> (r: Vec<u8>)
    ensures
        r@ == spec_v1_prefix(code_len),
{
    let mut out: Vec<u8> = Vec::new();
    out.push(0x43);
    out.push(0x4C);
    out.push(0x56);
    out.push(0x4D);
    assert(out@ =~= magic_seq());
    push_u32(&mut out, code_len);
    out
}

/// Magic bytes, then version, features, code length and constant count.
pub fn write_v2_prefix(h: &FormatHeader) -> (r: Vec<u8>)
    ensures
        r@ == spec_v2_prefix(*h),
{
    let mut out: Vec<u8> = Vec::new();
    out.push(0x43);
    out.push(0x4C);
    out.push(0x56);
    out.push(0x4D);
    out.push((h.version % 256) as u8);
    out.push((h.version / 256) as u8);
    assert(out@ =~= magic_seq() + le16_bytes(h.version));
    push_u32(&mut out, h.features);
    push_u32(&mut out, h.code_len);
    push_u32(&mut out, h.const_count);
    out
}

/// Name of a trailer tag.
pub fn section_tag_name(tag: u32) -> (r: &'static str)
    ensures
        r == (if tag == 0xFFFF_FFFF { "strings" } else if tag == 0xFFFF_FFFE { "functions" } else if tag
            == 0xFFFF_FFFD { "debug_map" } else if tag == 0xFFFF_FFFC { "relocs" } else { "jump_fixup" }),
{
    if tag == 0xFFFF_FFFF {
        "strings"
    } else if tag == 0xFFFF_FFFE {
        "functions"
    } else if tag == 0xFFFF_FFFD {
        "debug_map"
    } else if tag == 0xFFFF_FFFC {
        "relocs"
    } else {
        "jump_fixup"
    }
}

/// Whether a tag starts a trailer section or a jump fixup.
pub fn is_trailer_tag(tag: u32) -> (r: bool)
    ensures
        r == (tag == 0xFFFF_FFFF || tag == 0xFFFF_FFFE || tag == 0xFFFF_FFFD || tag == 0xFFFF_FFFC
            || tag < 0x8000_0000),
{
    tag == 0xFFFF_FFFF || tag == 0xFFFF_FFFE || tag == 0xFFFF_FFFD || tag == 0xFFFF_FFFC || tag < 0x8000_0000
}

#[derive(Clone, Debug, Default)]
pub struct SectionStats {
    pub code_bytes: usize,
    pub const_bytes: usize,
    pub string_bytes: usize,
    pub func_bytes: usize,
    pub reloc_count: usize,
}

impl SectionStats {
    /// Bytes of all sections.
    pub fn total(&self) -> (r: usize)
        requires
            self.code_bytes + self.const_bytes + self.string_bytes + self.func_bytes <= usize::MAX,
        ensures
            r == self.code_bytes + self.const_bytes + self.string_bytes + self.func_bytes,
    {
        self.code_bytes + self.const_bytes + self.string_bytes + self.func_bytes
    }

    /// `code=C consts=K strings=S funcs=F relocs=R total=T`.
    pub fn render(&self) -> (r: String)
        requires
            self.code_bytes + self.const_bytes + self.string_bytes + self.func_bytes <= usize::MAX,
        ensures
            r@ == "code="@ + dec_nat(self.code_bytes as nat) + " consts="@ + dec_nat(self.const_bytes as nat)
                + " strings="@ + dec_nat(self.string_bytes as nat) + " funcs="@ + dec_nat(self.func_bytes as nat)
                + " relocs="@ + dec_nat(self.reloc_count as nat) + " total="@
                + dec_nat((self.code_bytes + self.const_bytes + self.string_bytes + self.func_bytes) as nat),
    {
        let mut s = String::new();
        s.append("code=");
        push_dec(&mut s, self.code_bytes as u64);
        s.append(" consts=");
        push_dec(&mut s, self.const_bytes as u64);
        s.append(" strings=");
        push_dec(&mut s, self.string_bytes as u64);
        s.append(" funcs=");
        push_dec(&mut s, self.func_bytes as u64);
        s.append(" relocs=");
        push_dec(&mut s, self.reloc_count as u64);
        s.append(" total=");
        push_dec(&mut s, self.total() as u64);
        s
    }
}

/// Bytes of a constant section with `n` entries.
pub fn estimate_const_bytes(n: usize) -> (r: usize)
    requires
        4 + n * 8 <= usize::MAX,
    ensures
        r == 4 + n * 8,
{
    4 + n * 8
}

/// Encoded sizes of the items, each with its 4-byte length prefix.
pub open spec fn prefixed_total(lens: Seq<nat>) -> nat
    decreases lens.len(),
{
    if lens.len() == 0 { 0 } else { prefixed_total(lens.drop_last()) + 4 + lens.last() }
}

/// Bytes of a string section: its 8-byte header and each string's UTF-8 bytes with a prefix.
pub fn estimate_string_section(strings: &[String]) -> (r: usize)
    requires
        8 + prefixed_total(strings@.map_values(|s: String| vstd::utf8::encode_utf8(s@).len())) <= usize::MAX,
    ensures
        r == 8 + prefixed_total(strings@.map_values(|s: String| vstd::utf8::encode_utf8(s@).len())),
{
    let ghost lens = strings@.map_values(|s: String| vstd::utf8::encode_utf8(s@).len());
    let mut total: usize = 8;
    let mut i: usize = 0;
    assert(lens.subrange(0, 0) =~= Seq::<nat>::empty());
    while i < strings.len()
        invariant
            i <= strings@.len(),
            lens == strings@.map_values(|s: String| vstd::utf8::encode_utf8(s@).len()),
            8 + prefixed_total(lens) <= usize::MAX,
            total == 8 + prefixed_total(lens.subrange(0, i as int)),
        decreases strings@.len() - i,
    {
        assert(lens.subrange(0, i + 1).drop_last() =~= lens.subrange(0, i as int));
        proof {
            lemma_prefixed_total_prefix(lens, i as int + 1);
        }
        let n = strings[i].as_str().len();
        total = total + 4 + n;
        i += 1;
    }
    assert(lens.subrange(0, i as int) =~= lens);
    total
}

/// Bytes of a function section: its 8-byte header and each body with a prefix.
pub fn estimate_func_section(funcs: &[&[u8]]) -> (r: usize)
    requires
        8 + prefixed_total(funcs@.map_values(|f: &[u8]| f@.len())) <= usize::MAX,
    ensures
        r == 8 + prefixed_total(funcs@.map_values(|f: &[u8]| f@.len())),
{
    let ghost lens = funcs@.map_values(|f: &[u8]| f@.len());
    let mut total: usize = 8;
    let mut i: usize = 0;
    assert(lens.subrange(0, 0) =~= Seq::<nat>::empty());
    while i < funcs.len()
        invariant
            i <= funcs@.len(),
            lens == funcs@.map_values(|f: &[u8]| f@.len()),
            8 + prefixed_total(lens) <= usize::MAX,
            total == 8 + prefixed_total(lens.subrange(0, i as int)),
        decreases funcs@.len() - i,
    {
        assert(lens.subrange(0, i + 1).drop_last() =~= lens.subrange(0, i as int));
        proof {
            lemma_prefixed_total_prefix(lens, i as int + 1);
        }
        let n = funcs[i].len();
        total = total + 4 + n;
        i += 1;
    }
    assert(lens.subrange(0, i as int) =~= lens);
    total
}

proof fn lemma_prefixed_total_prefix(lens: Seq<nat>, k: int)
    requires
        0 <= k <= lens.len(),
    ensures
        prefixed_total(lens.subrange(0, k)) <= prefixed_total(lens),
    decreases lens.len(),
{
    if k < lens.len() {
        assert(lens.drop_last().subrange(0, k) =~= lens.subrange(0, k));
        lemma_prefixed_total_prefix(lens.drop_last(), k);
    } else {
        assert(lens.subrange(0, k) =~= lens);
    }
}

/// Rejects headers with more than 2^24 code bytes or 2^20 constants, or an unknown version.
pub fn validate_header_sanity(h: &FormatHeader) -> (r: Result<()>)
    ensures
        h.code_len > 0x100_0000 ==> r == Err::<(), Error>(Error::VerifyFailed("code too large")),
        h.code_len <= 0x100_0000 && h.const_count > 0x10_0000 ==> r == Err::<(), Error>(Error::VerifyFailed("too many consts")),
        h.code_len <= 0x100_0000 && h.const_count <= 0x10_0000 && h.version != VERSION_1 && h.version != VERSION_2
            ==> r == Err::<(), Error>(Error::VerifyFailed("unsupported version")),
        h.code_len <= 0x100_0000 && h.const_count <= 0x10_0000 && (h.version == VERSION_1 || h.version == VERSION_2)
            ==> r is Ok,
{
    if h.code_len > 0x100_0000 {
        return Err(Error::VerifyFailed("code too large"));
    }
    if h.const_count > 0x10_0000 {
        return Err(Error::VerifyFailed("too many consts"));
    }
    if h.version != VERSION_1 && h.version != VERSION_2 {
        return Err(Error::VerifyFailed("unsupported version"));
    }
    Ok(())
}

/// Names of the feature bits set, in bit order.
pub open spec fn feature_names(features: u32) -> Seq<&'static str> {
    (if features & FEATURE_STRINGS != 0 { seq!["strings"] } else { Seq::empty() })
        + (if features & FEATURE_MULTI_FUNC != 0 { seq!["multi_func"] } else { Seq::empty() })
        + (if features & FEATURE_UPVALUES != 0 { seq!["upvalues"] } else { Seq::empty() })
        + (if features & FEATURE_DEBUG_MAP != 0 { seq!["debug_map"] } else { Seq::empty() })
        + (if features & FEATURE_RELOCS != 0 { seq!["relocs"] } else { Seq::empty() })
}

/// Names of the feature bits set.
pub fn feature_list(features: u32) -> (r: Vec<&'static str>)
    ensures
        r@ == feature_names(features),
{
    let mut out: Vec<&'static str> = Vec::new();
    let ghost mut acc: Seq<&'static str> = Seq::empty();
    if features & FEATURE_STRINGS != 0 {
        out.push("strings");
    }
    assert(out@ =~= (if features & FEATURE_STRINGS != 0 { seq!["strings"] } else { Seq::<&'static str>::empty() }));
    let ghost p1 = out@;
    if features & FEATURE_MULTI_FUNC != 0 {
        out.push("multi_func");
    }
    assert(out@ =~= p1 + (if features & FEATURE_MULTI_FUNC != 0 { seq!["multi_func"] } else { Seq::<&'static str>::empty() }));
    let ghost p2 = out@;
    if features & FEATURE_UPVALUES != 0 {
        out.push("upvalues");
    }
    assert(out@ =~= p2 + (if features & FEATURE_UPVALUES != 0 { seq!["upvalues"] } else { Seq::<&'static str>::empty() }));
    let ghost p3 = out@;
    if features & FEATURE_DEBUG_MAP != 0 {
        out.push("debug_map");
    }
    assert(out@ =~= p3 + (if features & FEATURE_DEBUG_MAP != 0 { seq!["debug_map"] } else { Seq::<&'static str>::empty() }));
    let ghost p4 = out@;
    if features & FEATURE_RELOCS != 0 {
        out.push("relocs");
    }
    assert(out@ =~= p4 + (if features & FEATURE_RELOCS != 0 { seq!["relocs"] } else { Seq::<&'static str>::empty() }));
    out
}

} // verus!
