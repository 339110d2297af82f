//! Constant-pool helpers: hashing, merging, encoding and small transforms of `i64` lists.
use vstd::prelude::*;
use vstd::string::*;
use crate::intern::{InternPool, fnv1a};
use crate::bytes::{u32_at, u32_bytes, i64_at, i64_bytes, read_u32, read_i64, push_u32, push_i64, byte_len};

verus! {

/// 64-bit FNV-1a hash of a string's UTF-8 bytes.
pub fn hash_string(s: &str) -> (r: u64)
    ensures
        r == fnv1a(s.spec_bytes()),
{
    InternPool::hash_bytes(s.as_bytes())
}

/// `a` followed by the values of `b` it lacks, in order (later duplicates of `b` skipped).
pub open spec fn merged(a: Seq<i64>, b: Seq<i64>) -> Seq<i64>
    decreases b.len(),
{
    if b.len() == 0 {
        a
    } else {
        let m = merged(a, b.drop_last());
        if m.contains(b.last()) { m } else { m.push(b.last()) }
    }
}

pub fn merge_pools(a: &[i64], b: &[i64]) -> (r: Vec<i64>)
    ensures
        r@ == merged(a@, b@),
{
    let mut out: Vec<i64> = Vec::new();
    let mut i: usize = 0;
    while i < a.len()
        invariant
            i <= a@.len(),
            out@ == a@.subrange(0, i as int),
        decreases a@.len() - i,
    {
        out.push(a[i]);
        i += 1;
        assert(out@ =~= a@.subrange(0, i as int));
    }
    assert(a@.subrange(0, a@.len() as int) =~= a@);
    let mut j: usize = 0;
    assert(b@.subrange(0, 0) =~= Seq::<i64>::empty());
    while j < b.len()
        invariant
            j <= b@.len(),
            out@ == merged(a@, b@.subrange(0, j as int)),
        decreases b@.len() - j,
    {
        assert(b@.subrange(0, j + 1).drop_last() =~= b@.subrange(0, j as int));
        let v = b[j];
        let mut k: usize = 0;
        let mut found = false;
        while k < out.len()
            invariant
                k <= out@.len(),
                found == exists|t: int| 0 <= t < k && out@[t] == v,
            decreases out@.len() - k,
        {
            if out[k] == v {
                found = true;
            }
            k += 1;
        }
        if !found {
            out.push(v);
        }
        j += 1;
    }
    assert(b@.subrange(0, j as int) =~= b@);
    out
}

/// The `i64` bytes of each value, in order.
pub open spec fn values_bytes(vals: Seq<i64>) -> Seq<u8>
    decreases vals.len(),
{
    if vals.len() == 0 { Seq::empty() } else { values_bytes(vals.drop_last()) + i64_bytes(vals.last()) }
}

/// Encoding of a pool: its length as `u32`, then each value.
pub open spec fn pool_bytes(vals: Seq<i64>) -> Seq<u8> {
    u32_bytes(vals.len() as u32) + values_bytes(vals)
}

pub fn encode_pool(vals: &[i64]) -> (r: Vec<u8>)
    ensures
        r@ == pool_bytes(vals@),
{
    let mut out: Vec<u8> = Vec::new();
    push_u32(&mut out, vals.len() as u32);
    let ghost head = out@;
    let mut i: usize = 0;
    assert(vals@.subrange(0, 0) =~= Seq::<i64>::empty());
    assert(head + values_bytes(Seq::<i64>::empty()) =~= head);
    while i < vals.len()
        invariant
            i <= vals@.len(),
            out@ == head + values_bytes(vals@.subrange(0, i as int)),
        decreases vals@.len() - i,
    {
        push_i64(&mut out, vals[i]);
        assert(vals@.subrange(0, i + 1).drop_last() =~= vals@.subrange(0, i as int));
        i += 1;
        assert(out@ =~= head + values_bytes(vals@.subrange(0, i as int)));
    }
    assert(vals@.subrange(0, i as int) =~= vals@);
    out
}

/// The pool a buffer holds: the count, then that many values, when they are all there
/// (bytes after them are ignored).
pub open spec fn spec_decode_pool(buf: Seq<u8>) -> Option<Seq<i64>> {
    if buf.len() < 4 {
        None
    } else {
        let n = u32_at(buf, 0) as int;
        if 4 + 8 * n > buf.len() {
            None
        } else {
            Some(Seq::new(n as nat, |k: int| i64_at(buf, 4 + 8 * k)))
        }
    }
}

pub fn decode_pool(buf: &[u8]) -> (r: Option<Vec<i64>>)
    ensures
        match spec_decode_pool(buf@) {
            Some(v) => r matches Some(x) && x@ == v,
            None => r is None,
        },
{
    let len = byte_len(buf);
    if len < 4 {
        return None;
    }
    let n = read_u32(buf, 0) as usize;
    let mut out: Vec<i64> = Vec::new();
    let mut off: usize = 4;
    let mut k: usize = 0;
    while k < n
        invariant
            k <= n,
            len == buf@.len(),
            len <= isize::MAX,
            n == u32_at(buf@, 0),
            off == 4 + 8 * k,
            off <= len,
            out@ == Seq::new(k as nat, |j: int| i64_at(buf@, 4 + 8 * j)),
        decreases n - k,
    {
        if off + 8 > len {
            assert(4 + 8 * (n as int) > len) by (nonlinear_arith)
                requires
                    off == 4 + 8 * k,
                    off + 8 > len,
                    k < n,
            ;
            return None;
        }
        out.push(read_i64(buf, off));
        off = off + 8;
        k += 1;
        assert(out@ =~= Seq::new(k as nat, |j: int| i64_at(buf@, 4 + 8 * j)));
    }
    Some(out)
}

proof fn lemma_values_bytes(vals: Seq<i64>, k: int)
    requires
        0 <= k < vals.len(),
    ensures
        values_bytes(vals).len() == 8 * vals.len(),
        values_bytes(vals).subrange(8 * k, 8 * k + 8) == i64_bytes(vals[k]),
    decreases vals.len(),
{
    let p = vals.drop_last();
    if k < vals.len() - 1 {
        lemma_values_bytes(p, k);
        assert(values_bytes(vals).subrange(8 * k, 8 * k + 8) =~= values_bytes(p).subrange(8 * k, 8 * k + 8));
    } else {
        if p.len() > 0 {
            lemma_values_bytes(p, 0);
        }
        assert(values_bytes(p).len() == 8 * p.len());
        assert(values_bytes(vals).subrange(8 * k, 8 * k + 8) =~= i64_bytes(vals.last()));
    }
}

proof fn lemma_values_bytes_len(vals: Seq<i64>)
    ensures
        values_bytes(vals).len() == 8 * vals.len(),
    decreases vals.len(),
{
    if vals.len() > 0 {
        lemma_values_bytes_len(vals.drop_last());
    }
}

/// Decoding an encoded pool gives the pool back.
pub proof fn law_pool_roundtrip(vals: Seq<i64>)
    requires
        vals.len() <= u32::MAX,
    ensures
        spec_decode_pool(pool_bytes(vals)) == Some(vals),
{
    let buf = pool_bytes(vals);
    lemma_values_bytes_len(vals);
    crate::bytes::lemma_u32_roundtrip(vals.len() as u32);
    assert(buf.subrange(0, 4) =~= u32_bytes(vals.len() as u32));
    assert(u32_at(buf, 0) == u32_at(u32_bytes(vals.len() as u32), 0));
    assert forall|k: int| 0 <= k < vals.len() implies #[trigger] i64_at(buf, 4 + 8 * k) == vals[k] by {
        lemma_values_bytes(vals, k);
        crate::bytes::lemma_i64_roundtrip(vals[k]);
        let b = i64_bytes(vals[k]);
        assert(buf.subrange(4 + 8 * k, 4 + 8 * k + 8) =~= b);
        assert(i64_at(buf, 4 + 8 * k) == i64_at(b, 0));
    }
    assert(Seq::new(vals.len(), |k: int| i64_at(buf, 4 + 8 * k)) =~= vals);
}

/// `h` rotated left by 13 bits.
pub open spec fn rotl13(h: u64) -> u64 {
    (h << 13u64) | (h >> 51u64)
}

/// Fingerprint of the first values: xor in each value, rotate and multiply (wrapping).
pub open spec fn fingerprint_of(vals: Seq<i64>) -> u64
    decreases vals.len(),
{
    if vals.len() == 0 {
        0
    } else {
        let h = fingerprint_of(vals.drop_last()) ^ (vals.last() as u64);
        ((rotl13(h) as nat * 0x9E3779B97F4A7C15nat) % 0x1_0000_0000_0000_0000nat) as u64
    }
}

pub fn fingerprint(vals: &[i64]) -> (r: u64)
    ensures
        r == fingerprint_of(vals@),
{
    let mut h: u64 = 0;
    let mut i: usize = 0;
    assert(vals@.subrange(0, 0) =~= Seq::<i64>::empty());
    while i < vals.len()
        invariant
            i <= vals@.len(),
            h == fingerprint_of(vals@.subrange(0, i as int)),
        decreases vals@.len() - i,
    {
        assert(vals@.subrange(0, i + 1).drop_last() =~= vals@.subrange(0, i as int));
        h = h ^ (vals[i] as u64);
        h = ((h << 13u64) | (h >> 51u64)).wrapping_mul(0x9E3779B97F4A7C15);
        i += 1;
    }
    assert(vals@.subrange(0, i as int) =~= vals@);
    h
}

/// The values whose sign is `neg` (negative when true, non-negative when false), in order.
pub open spec fn with_sign(vals: Seq<i64>, neg: bool) -> Seq<i64>
    decreases vals.len(),
{
    if vals.len() == 0 {
        Seq::empty()
    } else if (vals.last() < 0) == neg {
        with_sign(vals.drop_last(), neg).push(vals.last())
    } else {
        with_sign(vals.drop_last(), neg)
    }
}

/// The non-negative values and the negative ones, each in order.
pub fn split_tagged(vals: &[i64]) -> (r: (Vec<i64>, Vec<i64>))
    ensures
        r.0@ == with_sign(vals@, false),
        r.1@ == with_sign(vals@, true),
{
    let mut pos: Vec<i64> = Vec::new();
    let mut neg: Vec<i64> = Vec::new();
    let mut i: usize = 0;
    assert(vals@.subrange(0, 0) =~= Seq::<i64>::empty());
    while i < vals.len()
        invariant
            i <= vals@.len(),
            pos@ == with_sign(vals@.subrange(0, i as int), false),
            neg@ == with_sign(vals@.subrange(0, i as int), true),
        decreases vals@.len() - i,
    {
        let ghost pre = vals@.subrange(0, i as int);
        assert(vals@.subrange(0, i + 1).drop_last() =~= pre);
        if vals[i] >= 0 {
            pos.push(vals[i]);
        } else {
            neg.push(vals[i]);
        }
        i += 1;
    }
    assert(vals@.subrange(0, i as int) =~= vals@);
    (pos, neg)
}

/// Every `stride`-th value from the first (all values when `stride` is zero).
pub open spec fn resampled(vals: Seq<i64>, stride: nat) -> Seq<i64> {
    if stride == 0 {
        vals
    } else {
        Seq::new(((vals.len() + stride - 1) / (stride as int)) as nat, |k: int| vals[k * stride])
    }
}

pub fn resample(vals: &[i64], stride: usize) -> (r: Vec<i64>)
    ensures
        r@ == resampled(vals@, stride as nat),
{
    let mut out: Vec<i64> = Vec::new();
    if stride == 0 {
        let mut i: usize = 0;
        while i < vals.len()
            invariant
                i <= vals@.len(),
                out@ == vals@.subrange(0, i as int),
            decreases vals@.len() - i,
        {
            out.push(vals[i]);
            i += 1;
            assert(out@ =~= vals@.subrange(0, i as int));
        }
        assert(vals@.subrange(0, vals@.len() as int) =~= vals@);
        return out;
    }
    let n = vals.len();
    let mut i: usize = 0;
    let mut k: usize = 0;
    while i < n
        invariant
            n == vals@.len(),
            stride > 0,
            i == k * stride,
            k <= n,
            out@ == Seq::new(k as nat, |j: int| vals@[j * stride]),
            i <= n + stride,
            (k as int - 1) * stride < n || k == 0,
        decreases n - k,
    {
        out.push(vals[i]);
        assert(out@ =~= Seq::new((k + 1) as nat, |j: int| vals@[j * stride]));
        assert((k + 1) * stride == k * stride + stride) by (nonlinear_arith);
        assert(k < n) by (nonlinear_arith)
            requires
                i == k * stride,
                i < n,
                stride > 0,
        ;
        k += 1;
        if n - i <= stride {
            i = n;
            proof {
                assert(k * stride >= n) by (nonlinear_arith)
                    requires
                        k * stride == (k - 1) * stride + stride,
                        (k - 1) * stride + stride >= n,
                ;
            }
            assert((n + stride - 1) / (stride as int) == k) by (nonlinear_arith)
                requires
                    k * stride >= n,
                    (k - 1) * stride < n,
                    stride > 0,
            ;
            return out;
        }
        i = i + stride;
    }
    assert((n + stride - 1) / (stride as int) == k) by (nonlinear_arith)
        requires
            k * stride >= n,
            k == 0 || (k - 1) * stride < n,
            stride > 0,
    ;
    out
}

/// `v` clamped to the `i16` range.
pub fn saturate_i16(v: i64) -> (r: i16)
    ensures
        r == (if v > i16::MAX { i16::MAX } else if v < i16::MIN { i16::MIN } else { v as i16 }),
{
    if v > 32767 {
        i16::MAX
    } else if v < -32768 {
        i16::MIN
    } else {
        v as i16
    }
}

/// Alternates the values of `a` and `b` while both last, then appends the rest of the
/// longer one.
pub open spec fn interleaved(a: Seq<i64>, b: Seq<i64>) -> Seq<i64>
    decreases a.len() + b.len(),
{
    if a.len() == 0 {
        b
    } else if b.len() == 0 {
        a
    } else {
        seq![a[0], b[0]] + interleaved(a.drop_first(), b.drop_first())
    }
}

pub fn interleave(a: &[i64], b: &[i64]) -> (r: Vec<i64>)
    ensures
        r@ == interleaved(a@, b@),
{
    let mut out: Vec<i64> = Vec::new();
    let mut i: usize = 0;
    let mut j: usize = 0;
    assert(a@.subrange(0, a@.len() as int) =~= a@);
    assert(b@.subrange(0, b@.len() as int) =~= b@);
    assert(out@ + interleaved(a@, b@) =~= interleaved(a@, b@));
    while i < a.len() || j < b.len()
        invariant
            i <= a@.len(),
            j <= b@.len(),
            i == j || (i > j && j == b@.len()) || (j > i && i == a@.len()),
            out@ + interleaved(a@.subrange(i as int, a@.len() as int), b@.subrange(j as int, b@.len() as int))
                == interleaved(a@, b@),
        decreases a@.len() + b@.len() - i - j,
    {
        let ghost ra = a@.subrange(i as int, a@.len() as int);
        let ghost rb = b@.subrange(j as int, b@.len() as int);
        let ghost before = out@;
        if i < a.len() && j < b.len() {
            out.push(a[i]);
            out.push(b[j]);
            i += 1;
            j += 1;
            assert(ra.drop_first() =~= a@.subrange(i as int, a@.len() as int));
            assert(rb.drop_first() =~= b@.subrange(j as int, b@.len() as int));
            assert(out@ =~= before + seq![ra[0], rb[0]]);
        } else if i < a.len() {
            out.push(a[i]);
            i += 1;
            assert(rb.len() == 0);
            assert(ra.drop_first() =~= a@.subrange(i as int, a@.len() as int));
            assert(interleaved(ra, rb) == ra);
            assert(interleaved(ra.drop_first(), rb) == ra.drop_first());
            assert(before + ra =~= out@ + ra.drop_first());
        } else {
            out.push(b[j]);
            j += 1;
            assert(ra.len() == 0);
            assert(rb.drop_first() =~= b@.subrange(j as int, b@.len() as int));
            assert(before + rb =~= out@ + rb.drop_first());
        }
    }
    assert(a@.subrange(i as int, a@.len() as int) =~= Seq::<i64>::empty());
    assert(b@.subrange(j as int, b@.len() as int) =~= Seq::<i64>::empty());
    assert(out@ + Seq::<i64>::empty() =~= out@);
    out
}

/// Differences of consecutive values (the first against zero), wrapping.
pub open spec fn deltas(vals: Seq<i64>) -> Seq<i64> {
    Seq::new(vals.len(), |i: int| if i == 0 { vals[0].wrapping_sub(0) } else { vals[i].wrapping_sub(vals[i - 1]) })
}

/// Running sums from zero, wrapping.
pub open spec fn running_sums(ds: Seq<i64>) -> Seq<i64>
    decreases ds.len(),
{
    if ds.len() == 0 {
        Seq::empty()
    } else {
        let p = running_sums(ds.drop_last());
        let prev: i64 = if p.len() == 0 { 0 } else { p.last() };
        p.push(prev.wrapping_add(ds.last()))
    }
}

pub fn delta_encode(vals: &[i64]) -> (r: Vec<i64>)
    ensures
        r@ == deltas(vals@),
{
    let mut out: Vec<i64> = Vec::new();
    let mut prev: i64 = 0;
    let mut i: usize = 0;
    while i < vals.len()
        invariant
            i <= vals@.len(),
            prev == (if i == 0 { 0i64 } else { vals@[i - 1] }),
            out@ == deltas(vals@).subrange(0, i as int),
        decreases vals@.len() - i,
    {
        out.push(vals[i].wrapping_sub(prev));
        prev = vals[i];
        i += 1;
        assert(out@ =~= deltas(vals@).subrange(0, i as int));
    }
    assert(deltas(vals@).subrange(0, i as int) =~= deltas(vals@));
    out
}

pub fn delta_decode(ds: &[i64]) -> (r: Vec<i64>)
    ensures
        r@ == running_sums(ds@),
{
    let mut out: Vec<i64> = Vec::new();
    let mut acc: i64 = 0;
    let mut i: usize = 0;
    assert(ds@.subrange(0, 0) =~= Seq::<i64>::empty());
    while i < ds.len()
        invariant
            i <= ds@.len(),
            out@ == running_sums(ds@.subrange(0, i as int)),
            acc == (if i == 0 { 0i64 } else { out@.last() }),
            out@.len() == i,
        decreases ds@.len() - i,
    {
        assert(ds@.subrange(0, i + 1).drop_last() =~= ds@.subrange(0, i as int));
        acc = acc.wrapping_add(ds[i]);
        out.push(acc);
        i += 1;
    }
    assert(ds@.subrange(0, i as int) =~= ds@);
    out
}

proof fn lemma_running_sums_len(ds: Seq<i64>)
    ensures
        running_sums(ds).len() == ds.len(),
    decreases ds.len(),
{
    if ds.len() > 0 {
        lemma_running_sums_len(ds.drop_last());
    }
}

/// Decoding the deltas of a list gives the list back.
pub proof fn law_delta_roundtrip(vals: Seq<i64>)
    ensures
        running_sums(deltas(vals)) == vals,
    decreases vals.len(),
{
    if vals.len() > 0 {
        let p = vals.drop_last();
        law_delta_roundtrip(p);
        assert(deltas(vals).drop_last() =~= deltas(p));
        lemma_running_sums_len(deltas(p));
        let last = vals.last();
        let prev: i64 = if p.len() == 0 { 0 } else { p.last() };
        let d = deltas(vals).last();
        assert(d == last.wrapping_sub(prev));
        assert(prev.wrapping_add(last.wrapping_sub(prev)) == last) by (bit_vector);
        assert(running_sums(deltas(vals)) =~= vals);
    }
}

/// Encoding the running sums of a list of deltas gives the deltas back.
pub proof fn law_delta_roundtrip_sums(ds: Seq<i64>)
    ensures
        deltas(running_sums(ds)) == ds,
    decreases ds.len(),
{
    if ds.len() > 0 {
        let q = ds.drop_last();
        law_delta_roundtrip_sums(q);
        lemma_running_sums_len(q);
        lemma_running_sums_len(ds);
        let p = running_sums(q);
        let prev: i64 = if p.len() == 0 { 0 } else { p.last() };
        let d: i64 = ds.last();
        let x = prev.wrapping_add(d);
        let r = running_sums(ds);
        assert(r == p.push(x));
        assert(x.wrapping_sub(prev) == d) by (bit_vector)
            requires
                x == prev.wrapping_add(d),
        ;
        assert forall|i: int| 0 <= i < ds.len() implies #[trigger] deltas(r)[i] == ds[i] by {
            if i < q.len() {
                assert(deltas(p)[i] == q[i]);
                if i > 0 {
                    assert(r[i - 1] == p[i - 1]);
                }
                assert(r[i] == p[i]);
            } else if i > 0 {
                assert(r[i - 1] == p.last());
            }
        }
        assert(deltas(r) =~= ds);
    }
}

/// `c` rotated left by 3 bits.
pub open spec fn rotl3(c: u32) -> u32 {
    (c << 3u32) | (c >> 29u32)
}

/// Checksum of the first values: add each value's low 32 bits (wrapping), then rotate.
pub open spec fn checksum_of(vals: Seq<i64>) -> u32
    decreases vals.len(),
{
    if vals.len() == 0 {
        0
    } else {
        rotl3(((checksum_of(vals.drop_last()) as int + (vals.last() as u32) as int) % 0x1_0000_0000) as u32)
    }
}

pub fn checksum32(vals: &[i64]) -> (r: u32)
    ensures
        r == checksum_of(vals@),
{
    let mut c: u32 = 0;
    let mut i: usize = 0;
    assert(vals@.subrange(0, 0) =~= Seq::<i64>::empty());
    while i < vals.len()
        invariant
            i <= vals@.len(),
            c == checksum_of(vals@.subrange(0, i as int)),
        decreases vals@.len() - i,
    {
        assert(vals@.subrange(0, i + 1).drop_last() =~= vals@.subrange(0, i as int));
        let s: u64 = c as u64 + (vals[i] as u32) as u64;
        c = (s % 0x1_0000_0000) as u32;
        c = (c << 3u32) | (c >> 29u32);
        i += 1;
    }
    assert(vals@.subrange(0, i as int) =~= vals@);
    c
}

/// Whether the values increase strictly.
pub open spec fn strictly_increasing(s: Seq<i64>) -> bool {
    forall|i: int, j: int| 0 <= i < j < s.len() ==> s[i] < s[j]
}

/// Sorts the values and drops duplicates.
pub fn sort_unique(vals: &mut Vec<i64>)
    ensures
        strictly_increasing(final(vals)@),
        forall|x: i64| final(vals)@.contains(x) <==> old(vals)@.contains(x),
{
    let mut out: Vec<i64> = Vec::new();
    let mut i: usize = 0;
    while i < vals.len()
        invariant
            i <= vals@.len(),
            vals@ == old(vals)@,
            strictly_increasing(out@),
            forall|x: i64| out@.contains(x) <==> vals@.subrange(0, i as int).contains(x),
        decreases vals@.len() - i,
    {
        let v = vals[i];
        let mut k: usize = 0;
        while k < out.len() && out[k] < v
            invariant
                k <= out@.len(),
                forall|t: int| 0 <= t < k ==> out@[t] < v,
            decreases out@.len() - k,
        {
            k += 1;
        }
        let ghost before = out@;
        let ghost pre = vals@.subrange(0, i as int);
        assert(vals@.subrange(0, i + 1) =~= pre.push(v));
        if k < out.len() && out[k] == v {
            assert forall|x: i64| out@.contains(x) <==> vals@.subrange(0, i + 1).contains(x) by {
                if x == v {
                    assert(out@[k as int] == v);
                    assert(vals@.subrange(0, i + 1)[i as int] == v);
                }
                if vals@.subrange(0, i + 1).contains(x) && x != v {
                    let t = choose|t: int| 0 <= t < i + 1 && #[trigger] vals@.subrange(0, i + 1)[t] == x;
                    assert(pre[t] == x);
                }
                if pre.contains(x) {
                    let t = choose|t: int| 0 <= t < pre.len() && pre[t] == x;
                    assert(vals@.subrange(0, i + 1)[t] == x);
                }
            }
        } else {
            out.insert(k, v);
            assert(out@ =~= before.subrange(0, k as int).push(v) + before.subrange(k as int, before.len() as int));
            assert(strictly_increasing(out@)) by {
                assert forall|a: int, b: int| 0 <= a < b < out@.len() implies out@[a] < out@[b] by {
                    if b == k {
                        assert(out@[a] == before[a]);
                    } else if a == k {
                        assert(out@[b] == before[b - 1]);
                        assert(before[k as int] >= v);
                        if b - 1 > k {
                            assert(before[k as int] < before[b - 1]);
                        }
                    } else {
                        let aa = if a < k { a } else { a - 1 };
                        let bb = if b < k { b } else { b - 1 };
                        assert(out@[a] == before[aa]);
                        assert(out@[b] == before[bb]);
                    }
                }
            }
            assert forall|x: i64| out@.contains(x) <==> vals@.subrange(0, i + 1).contains(x) by {
                if out@.contains(x) {
                    let t = choose|t: int| 0 <= t < out@.len() && out@[t] == x;
                    if t != k {
                        let tt = if t < k { t } else { t - 1 };
                        assert(before[tt] == x);
                        assert(before.contains(x));
                        let u = choose|u: int| 0 <= u < pre.len() && pre[u] == x;
                        assert(vals@.subrange(0, i + 1)[u] == x);
                    } else {
                        assert(vals@.subrange(0, i + 1)[i as int] == x);
                    }
                }
                if vals@.subrange(0, i + 1).contains(x) {
                    let t = choose|t: int| 0 <= t < i + 1 && #[trigger] vals@.subrange(0, i + 1)[t] == x;
                    if t < i {
                        assert(pre[t] == x);
                        assert(pre.contains(x));
                        assert(before.contains(x));
                        let u = choose|u: int| 0 <= u < before.len() && before[u] == x;
                        let uu = if u < k { u } else { u + 1 };
                        assert(out@[uu] == x);
                    } else {
                        assert(out@[k as int] == x);
                    }
                }
            }
        }
        i += 1;
    }
    assert(vals@.subrange(0, i as int) =~= vals@);
    *vals = out;
}

/// Sum of the values `s[i..i + k]`.
pub open spec fn range_sum(s: Seq<i64>, i: int, k: nat) -> int
    decreases k,
{
    if k == 0 { 0 } else { range_sum(s, i, (k - 1) as nat) + s[i + k - 1] }
}

/// Sums of every window of `w` consecutive values, in order.
pub fn window_sums(vals: &[i64], w: usize) -> (r: Vec<i64>)
    requires
        w == 0 || vals@.len() == 0 || w <= vals@.len(),
        forall|i: int, k: nat| 0 <= i <= vals@.len() - w && k <= w ==> i64::MIN <= #[trigger] range_sum(vals@, i, k) <= i64::MAX,
    ensures
        w == 0 || vals@.len() == 0 ==> r@.len() == 0,
        w > 0 && vals@.len() > 0 ==> r@ == Seq::new((vals@.len() - w + 1) as nat, |i: int| range_sum(vals@, i, w as nat) as i64),
{
    let mut out: Vec<i64> = Vec::new();
    if w == 0 || vals.len() == 0 {
        return out;
    }
    let last = vals.len() - w;
    let mut i: usize = 0;
    while i <= last
        invariant
            w > 0,
            w <= vals@.len(),
            vals@.len() <= usize::MAX,
            last == vals@.len() - w,
            i <= last + 1,
            forall|i: int, k: nat| 0 <= i <= vals@.len() - w && k <= w ==> i64::MIN <= #[trigger] range_sum(vals@, i, k) <= i64::MAX,
            out@ == Seq::new(i as nat, |t: int| range_sum(vals@, t, w as nat) as i64),
        decreases last + 1 - i,
    {
        let mut acc: i64 = 0;
        let mut k: usize = 0;
        while k < w
            invariant
                k <= w,
                i <= last,
                w > 0,
                w <= vals@.len(),
                vals@.len() <= usize::MAX,
                last == vals@.len() - w,
                forall|i: int, k: nat| 0 <= i <= vals@.len() - w && k <= w ==> i64::MIN <= #[trigger] range_sum(vals@, i, k) <= i64::MAX,
                acc == range_sum(vals@, i as int, k as nat),
            decreases w - k,
        {
            assert(i64::MIN <= range_sum(vals@, i as int, (k + 1) as nat) <= i64::MAX);
            acc = acc + vals[i + k];
            k += 1;
        }
        out.push(acc);
        i += 1;
        assert(out@ =~= Seq::new(i as nat, |t: int| range_sum(vals@, t, w as nat) as i64));
    }
    out
}

/// Packing state after some values: output bytes, pending bits and their count.
pub open spec fn drain(out: Seq<u8>, acc: u32, bits: u32) -> (Seq<u8>, u32, u32)
    decreases bits,
{
    if bits >= 8 { drain(out.push((acc & 0xff) as u8), acc >> 8u32, (bits - 8) as u32) } else { (out, acc, bits) }
}

/// Packing state after the values: each contributes its low 7 bits, least significant
/// first; whole bytes are emitted as they fill.
pub open spec fn pack_state(vals: Seq<u8>) -> (Seq<u8>, u32, u32)
    decreases vals.len(),
{
    if vals.len() == 0 {
        (Seq::empty(), 0, 0)
    } else {
        let (out, acc, bits) = pack_state(vals.drop_last());
        drain(out, acc | (((vals.last() as u32) & 0x7f) << bits), (bits + 7) as u32)
    }
}

/// Packed bytes: the emitted bytes, then the pending bits when there are any.
pub open spec fn packed_u7(vals: Seq<u8>) -> Seq<u8> {
    let (out, acc, bits) = pack_state(vals);
    if bits > 0 { out.push(acc as u8) } else { out }
}

proof fn lemma_drain_bounds(out: Seq<u8>, acc: u32, bits: u32)
    requires
        bits < 15,
        acc < (1u32 << bits),
    ensures
        drain(out, acc, bits).2 < 8,
        drain(out, acc, bits).1 < (1u32 << drain(out, acc, bits).2),
    decreases bits,
{
    if bits >= 8 {
        assert((acc >> 8u32) < (1u32 << ((bits - 8) as u32))) by (bit_vector)
            requires
                bits < 15,
                bits >= 8,
                acc < (1u32 << bits),
        ;
        lemma_drain_bounds(out.push((acc & 0xff) as u8), acc >> 8u32, (bits - 8) as u32);
    }
}

proof fn lemma_pack_bounds(vals: Seq<u8>)
    ensures
        pack_state(vals).2 < 8,
        pack_state(vals).1 < (1u32 << pack_state(vals).2),
    decreases vals.len(),
{
    if vals.len() == 0 {
        assert(0u32 < (1u32 << 0u32)) by (bit_vector);
    } else {
        lemma_pack_bounds(vals.drop_last());
        let (out, acc, bits) = pack_state(vals.drop_last());
        let v = vals.last();
        let acc2 = acc | (((v as u32) & 0x7f) << bits);
        assert(acc2 < (1u32 << ((bits + 7) as u32))) by (bit_vector)
            requires
                bits < 8,
                acc < (1u32 << bits),
                acc2 == acc | (((v as u32) & 0x7f) << bits),
        ;
        lemma_drain_bounds(out, acc2, (bits + 7) as u32);
    }
}

/// Packs the low 7 bits of each value, least significant first.
pub fn bit_pack_u7(vals: &[u8]) -> (r: Vec<u8>)
    ensures
        r@ == packed_u7(vals@),
{
    let mut out: Vec<u8> = Vec::new();
    let mut acc: u32 = 0;
    let mut bits: u32 = 0;
    let mut i: usize = 0;
    assert(vals@.subrange(0, 0) =~= Seq::<u8>::empty());
    assert(0u32 < (1u32 << 0u32)) by (bit_vector);
    while i < vals.len()
        invariant
            i <= vals@.len(),
            (out@, acc, bits) == pack_state(vals@.subrange(0, i as int)),
            bits < 8,
            acc < (1u32 << bits),
        decreases vals@.len() - i,
    {
        assert(vals@.subrange(0, i + 1).drop_last() =~= vals@.subrange(0, i as int));
        proof {
            lemma_pack_bounds(vals@.subrange(0, i + 1));
        }
        let v = vals[i];
        acc = acc | (((v as u32) & 0x7f) << bits);
        bits = bits + 7;
        let ghost target = drain(out@, acc, bits);
        while bits >= 8
            invariant
                drain(out@, acc, bits) == target,
                bits < 15,
            decreases bits,
        {
            out.push((acc & 0xff) as u8);
            acc = acc >> 8u32;
            bits = bits - 8;
        }
        i += 1;
    }
    assert(vals@.subrange(0, i as int) =~= vals@);
    if bits > 0 {
        out.push(acc as u8);
    }
    out
}

} // verus!
