//! Byte-buffer primitives shared by the codecs.
use vstd::prelude::*;

verus! {

/// Length of a byte slice. Wraps `<[u8]>::len`; beyond the length itself it
/// states what the slice documentation guarantees: a slice never spans more
/// than `isize::MAX` bytes.
#[verifier::external_body]
pub(crate) fn byte_len(s: &[u8]) -> (n: usize)
    ensures
        n == s@.len(),
        n <= isize::MAX,
{
    s.len()
}

/// Whether two byte slices hold the same bytes.
pub fn bytes_eq(a: &[u8], b: &[u8]) -> (r: bool)
    ensures
        r == (a@ == b@),
{
    if a.len() != b.len() {
        return false;
    }
    let mut i: usize = 0;
    while i < a.len()
        invariant
            i <= a@.len(),
            a@.len() == b@.len(),
            forall|j: int| 0 <= j < i ==> a@[j] == b@[j],
        decreases a@.len() - i,
    {
        if a[i] != b[i] {
            return false;
        }
        i += 1;
    }
    assert(a@ =~= b@);
    true
}

/// Appends the bytes of `data`.
pub fn append_bytes(out: &mut Vec<u8>, data: &[u8])
    ensures
        final(out)@ == old(out)@ + data@,
{
    let mut i: usize = 0;
    while i < data.len()
        invariant
            i <= data@.len(),
            out@ == old(out)@ + data@.subrange(0, i as int),
        decreases data@.len() - i,
    {
        out.push(data[i]);
        i += 1;
        assert(out@ =~= old(out)@ + data@.subrange(0, i as int));
    }
    assert(data@.subrange(0, data@.len() as int) =~= data@);
}

/// Appends `src[start..start + len]`.
pub fn append_range(out: &mut Vec<u8>, src: &[u8], start: usize, len: usize)
    requires
        start + len <= src@.len(),
    ensures
        final(out)@ == old(out)@ + src@.subrange(start as int, start + len),
{
    let n = src.len();
    let mut j: usize = 0;
    while j < len
        invariant
            j <= len,
            start + len <= src@.len(),
            n == src@.len(),
            out@ == old(out)@ + src@.subrange(start as int, start + j),
        decreases len - j,
    {
        out.push(src[start + j]);
        j += 1;
        assert(out@ =~= old(out)@ + src@.subrange(start as int, start + j));
    }
}

/// Little-endian 32-bit value of four bytes.
pub open spec fn le_u32(b0: u8, b1: u8, b2: u8, b3: u8) -> u32 {
    (b0 as int + 256 * (b1 as int) + 65536 * (b2 as int) + 16777216 * (b3 as int)) as u32
}

/// Little-endian 32-bit value read at `off`.
pub open spec fn u32_at(s: Seq<u8>, off: int) -> u32 {
    le_u32(s[off], s[off + 1], s[off + 2], s[off + 3])
}

/// Little-endian bytes of a 32-bit value.
pub open spec fn u32_bytes(v: u32) -> Seq<u8> {
    seq![(v % 256) as u8, ((v / 256) % 256) as u8, ((v / 65536) % 256) as u8, (v / 16777216) as u8]
}

/// Reads a little-endian `u32` at `off`.
pub fn read_u32(s: &[u8], off: usize) -> (r: u32)
    requires
        off + 4 <= s@.len(),
    ensures
        r == u32_at(s@, off as int),
{
    s[off] as u32 + 256 * (s[off + 1] as u32) + 65536 * (s[off + 2] as u32) + 16777216 * (s[off + 3] as u32)
}

/// Appends the little-endian bytes of `v`.
pub fn push_u32(out: &mut Vec<u8>, v: u32)
    ensures
        final(out)@ == old(out)@ + u32_bytes(v),
{
    out.push((v % 256) as u8);
    out.push(((v / 256) % 256) as u8);
    out.push(((v / 65536) % 256) as u8);
    out.push((v / 16777216) as u8);
    assert(final(out)@ =~= old(out)@ + u32_bytes(v));
}

/// Little-endian 64-bit signed value read at `off`.
pub open spec fn i64_at(s: Seq<u8>, off: int) -> i64 {
    (s[off] as int + 0x100 * (s[off + 1] as int) + 0x1_0000 * (s[off + 2] as int)
        + 0x100_0000 * (s[off + 3] as int) + 0x1_0000_0000 * (s[off + 4] as int)
        + 0x100_0000_0000 * (s[off + 5] as int) + 0x1_0000_0000_0000 * (s[off + 6] as int)
        + 0x100_0000_0000_0000 * (s[off + 7] as int)) as u64 as i64
}

/// Reads a little-endian `i64` at `off`.
pub fn read_i64(s: &[u8], off: usize) -> (r: i64)
    requires
        off + 8 <= s@.len(),
    ensures
        r == i64_at(s@, off as int),
{
    let v: u64 = s[off] as u64 + 0x100 * (s[off + 1] as u64) + 0x1_0000 * (s[off + 2] as u64)
        + 0x100_0000 * (s[off + 3] as u64) + 0x1_0000_0000 * (s[off + 4] as u64)
        + 0x100_0000_0000 * (s[off + 5] as u64) + 0x1_0000_0000_0000 * (s[off + 6] as u64)
        + 0x100_0000_0000_0000 * (s[off + 7] as u64);
    v as i64
}

/// Little-endian bytes of a 64-bit signed value (its two's-complement bits).
pub open spec fn i64_bytes(v: i64) -> Seq<u8> {
    let u = v as u64;
    seq![
        (u & 0xff) as u8,
        ((u >> 8u64) & 0xff) as u8,
        ((u >> 16u64) & 0xff) as u8,
        ((u >> 24u64) & 0xff) as u8,
        ((u >> 32u64) & 0xff) as u8,
        ((u >> 40u64) & 0xff) as u8,
        ((u >> 48u64) & 0xff) as u8,
        ((u >> 56u64) & 0xff) as u8,
    ]
}

/// Appends the little-endian bytes of `v`.
pub fn push_i64(out: &mut Vec<u8>, v: i64)
    ensures
        final(out)@ == old(out)@ + i64_bytes(v),
{
    let u = v as u64;
    out.push((u & 0xff) as u8);
    out.push(((u >> 8u64) & 0xff) as u8);
    out.push(((u >> 16u64) & 0xff) as u8);
    out.push(((u >> 24u64) & 0xff) as u8);
    out.push(((u >> 32u64) & 0xff) as u8);
    out.push(((u >> 40u64) & 0xff) as u8);
    out.push(((u >> 48u64) & 0xff) as u8);
    out.push(((u >> 56u64) & 0xff) as u8);
    assert(final(out)@ =~= old(out)@ + i64_bytes(v));
}

/// Reading back the bytes of a 32-bit value gives the value.
pub proof fn lemma_u32_roundtrip(v: u32)
    ensures
        u32_at(u32_bytes(v), 0) == v,
{
    let b = u32_bytes(v);
    assert((v % 256) as u8 as int + 256 * (((v / 256) % 256) as u8 as int) + 65536 * (((v / 65536) % 256) as u8 as int)
        + 16777216 * ((v / 16777216) as u8 as int) == v as int) by (bit_vector);
}

/// Reading back the bytes of a 64-bit value gives the value.
pub proof fn lemma_i64_roundtrip(v: i64)
    ensures
        i64_at(i64_bytes(v), 0) == v,
{
    let u = v as u64;
    let b0 = (u & 0xff) as u8;
    let b1 = ((u >> 8u64) & 0xff) as u8;
    let b2 = ((u >> 16u64) & 0xff) as u8;
    let b3 = ((u >> 24u64) & 0xff) as u8;
    let b4 = ((u >> 32u64) & 0xff) as u8;
    let b5 = ((u >> 40u64) & 0xff) as u8;
    let b6 = ((u >> 48u64) & 0xff) as u8;
    let b7 = ((u >> 56u64) & 0xff) as u8;
    assert((b0 as int + 0x100 * (b1 as int) + 0x1_0000 * (b2 as int) + 0x100_0000 * (b3 as int)
        + 0x1_0000_0000 * (b4 as int) + 0x100_0000_0000 * (b5 as int) + 0x1_0000_0000_0000 * (b6 as int)
        + 0x100_0000_0000_0000 * (b7 as int)) as u64 as i64 == v) by (bit_vector)
        requires
            u == v as u64,
            b0 == (u & 0xff) as u8,
            b1 == ((u >> 8u64) & 0xff) as u8,
            b2 == ((u >> 16u64) & 0xff) as u8,
            b3 == ((u >> 24u64) & 0xff) as u8,
            b4 == ((u >> 32u64) & 0xff) as u8,
            b5 == ((u >> 40u64) & 0xff) as u8,
            b6 == ((u >> 48u64) & 0xff) as u8,
            b7 == ((u >> 56u64) & 0xff) as u8,
    ;
}

} // verus!
