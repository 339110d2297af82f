//! Object-graph blobs: a header, then nodes that are registered as they are read.
//!
//! Blob format (little-endian):
//!   magic u32 = 0x44534552 ("DSER"), count u32,
//!   then per node: kind u32, mark u32, flags u32, child_count u16, pad u16,
//!   a checksum u32 equal to kind ^ mark when flags & 1 != 0, and child_count u32 child ids.
use vstd::prelude::*;
use crate::error::{Error, Result};
use crate::heap::{self, Registry};
use crate::value::Obj;
use crate::bytes::{u32_at, u32_bytes, read_u32, push_u32, byte_len, append_bytes};
use crate::text::{dec_nat, hex, push_dec, push_hex};

verus! {

pub const MAGIC: u32 = 0x4453_4552;

/// Little-endian 16-bit value read at `off`.
pub open spec fn u16_at(s: Seq<u8>, off: int) -> u16 {
    (s[off] as int + 256 * (s[off + 1] as int)) as u16
}

/// Little-endian bytes of a 16-bit value.
pub open spec fn u16_bytes(v: u16) -> Seq<u8> {
    seq![(v % 256) as u8, (v / 256) as u8]
}

/// Whether a node's flags ask for a checksum.
pub open spec fn spec_needs_checksum(flags: u32) -> bool {
    flags & 1 != 0
}

/// The registry's `register` applied `n` times to the generation counter.
pub open spec fn generation_after(g: u32, n: nat) -> u32
    decreases n,
{
    if n == 0 { g } else { generation_after(g, (n - 1) as nat).wrapping_add(1) }
}

/// Reads `remaining` nodes from `off`: the objects registered (one per node that passed the
/// checks made before registration) and how reading ended.
pub open spec fn read_nodes(input: Seq<u8>, off: nat, remaining: nat, acc: Seq<Obj>) -> (Seq<Obj>, Result<()>)
    decreases remaining,
{
    if remaining == 0 {
        (acc, Ok(()))
    } else if off + 16 > input.len() {
        (acc, Err(Error::DeserFailed("truncated node")))
    } else {
        let kind = u32_at(input, off as int);
        let mark = u32_at(input, off + 4int);
        let flags = u32_at(input, off + 8int);
        let children = u16_at(input, off + 12int);
        let after_header = off + 16;
        if kind == 0 || kind == 0xFFFF_FFFE {
            (acc, Err(Error::DeserFailed("reserved kind")))
        } else if children > 64 {
            (acc, Err(Error::DeserFailed("child_count")))
        } else {
            let acc2 = acc.push(Obj { kind, mark: 0 });
            if mark > 0x00FF_FFFF {
                (acc2, Err(Error::DeserFailed("mark out of range")))
            } else if spec_needs_checksum(flags) && after_header + 4 > input.len() {
                (acc2, Err(Error::DeserFailed("missing checksum")))
            } else if spec_needs_checksum(flags) && u32_at(input, after_header as int) != kind ^ mark {
                (acc2, Err(Error::DeserFailed("checksum")))
            } else {
                let body = after_header + if spec_needs_checksum(flags) { 4nat } else { 0nat };
                if body + (children as nat) * 4 > input.len() {
                    (acc2, Err(Error::DeserFailed("truncated children")))
                } else {
                    read_nodes(input, body + (children as nat) * 4, (remaining - 1) as nat, acc2)
                }
            }
        }
    }
}

/// A node whose flags have bit 0 set and whose checksum word differs from `kind ^ mark`
/// stops reading with the `checksum` error, once its kind, child count and mark have passed
/// their checks; the node itself has been registered (with mark 0) by then.
pub proof fn law_bad_checksum_rejected(input: Seq<u8>, off: nat, remaining: nat, acc: Seq<Obj>)
    requires
        remaining > 0,
        off + 20 <= input.len(),
        u32_at(input, off as int) != 0,
        u32_at(input, off as int) != 0xFFFF_FFFEu32,
        u16_at(input, off + 12int) <= 64,
        u32_at(input, off + 4int) <= 0x00FF_FFFFu32,
        u32_at(input, off + 8int) % 2 == 1,
        u32_at(input, off + 16int) != u32_at(input, off as int) ^ u32_at(input, off + 4int),
    ensures
        read_nodes(input, off, remaining, acc) == (acc.push(Obj { kind: u32_at(input, off as int), mark: 0 }),
            Err::<(), Error>(Error::DeserFailed("checksum"))),
{
    let flags = u32_at(input, off + 8int);
    assert(flags & 1 != 0) by (bit_vector)
        requires
            flags % 2 == 1,
    ;
}

/// The checks on one node, in order: a reserved kind (0 or `0xFFFFFFFE`) is refused before
/// anything is registered, so is a child count above 64; otherwise the node is registered
/// (with mark 0) and a mark above `0xFFFFFF` is then refused; a node whose flags have bit 0
/// clear carries no checksum, and reading goes on right after its children; a node whose
/// checksum is `kind ^ mark` goes on after the checksum and its children.
pub proof fn law_node_checks(input: Seq<u8>, off: nat, remaining: nat, acc: Seq<Obj>)
    requires
        remaining > 0,
        off + 16 <= input.len(),
    ensures
        ({
            let kind = u32_at(input, off as int);
            let mark = u32_at(input, off + 4int);
            let flags = u32_at(input, off + 8int);
            let children = u16_at(input, off + 12int) as nat;
            let reg = acc.push(Obj { kind, mark: 0 });
            let r = read_nodes(input, off, remaining, acc);
            &&& (kind == 0 || kind == 0xFFFF_FFFEu32) ==> r == (acc, Err::<(), Error>(Error::DeserFailed("reserved kind")))
            &&& (kind != 0 && kind != 0xFFFF_FFFEu32 && children > 64)
                ==> r == (acc, Err::<(), Error>(Error::DeserFailed("child_count")))
            &&& (kind != 0 && kind != 0xFFFF_FFFEu32 && children <= 64 && mark > 0x00FF_FFFFu32)
                ==> r == (reg, Err::<(), Error>(Error::DeserFailed("mark out of range")))
            &&& (kind != 0 && kind != 0xFFFF_FFFEu32 && children <= 64 && mark <= 0x00FF_FFFFu32
                && flags % 2 == 0 && off + 16 + 4 * children <= input.len())
                ==> r == read_nodes(input, off + 16 + 4 * children, (remaining - 1) as nat, reg)
            &&& (kind != 0 && kind != 0xFFFF_FFFEu32 && children <= 64 && mark <= 0x00FF_FFFFu32
                && flags % 2 == 1 && off + 20 + 4 * children <= input.len()
                && u32_at(input, off + 16int) == kind ^ mark)
                ==> r == read_nodes(input, off + 20 + 4 * children, (remaining - 1) as nat, reg)
        }),
{
    let flags = u32_at(input, off + 8int);
    assert((flags & 1 != 0) == (flags % 2 == 1)) by (bit_vector);
}

/// A blob whose first node asks for a checksum and carries a wrong one is refused with the
/// `checksum` error, after that node is registered.
pub proof fn law_blob_bad_checksum(input: Seq<u8>)
    requires
        input.len() >= 28,
        u32_at(input, 0) == MAGIC,
        1 <= u32_at(input, 4) <= 4096,
        u32_at(input, 8) != 0,
        u32_at(input, 8) != 0xFFFF_FFFEu32,
        u32_at(input, 12) <= 0x00FF_FFFFu32,
        u32_at(input, 16) % 2 == 1,
        u16_at(input, 20) <= 64,
        u32_at(input, 24) != u32_at(input, 8) ^ u32_at(input, 12),
    ensures
        spec_deserialize(input) == (seq![Obj { kind: u32_at(input, 8), mark: 0 }],
            Err::<(), Error>(Error::DeserFailed("checksum"))),
{
    law_bad_checksum_rejected(input, 8, u32_at(input, 4) as nat, Seq::empty());
    assert(Seq::<Obj>::empty().push(Obj { kind: u32_at(input, 8), mark: 0 }) =~= seq![Obj { kind: u32_at(input, 8), mark: 0 }]);
}

/// Objects a blob registers and how reading it ends.
pub open spec fn spec_deserialize(input: Seq<u8>) -> (Seq<Obj>, Result<()>) {
    if input.len() < 8 {
        (Seq::empty(), Err(Error::DeserFailed("short header")))
    } else if u32_at(input, 0) != MAGIC {
        (Seq::empty(), Err(Error::DeserFailed("bad magic")))
    } else if u32_at(input, 4) > 4096 {
        (Seq::empty(), Err(Error::DeserFailed("too many nodes")))
    } else {
        read_nodes(input, 8, u32_at(input, 4) as nat, Seq::empty())
    }
}

/// Registry slots for a list of objects.
pub open spec fn as_slots(objs: Seq<Obj>) -> Seq<Option<Obj>> {
    objs.map_values(|o: Obj| Some(o))
}

/// Reads a blob into `reg`. Each node that passes the kind and child-count checks is
/// registered before its mark, checksum and children are checked; a node that fails a later
/// check stays registered, and reading stops with that error.
pub fn deserialize_into(input: &[u8], reg: &mut Registry) -> (r: Result<()>)
    requires
        old(reg).wf(),
    ensures
        final(reg).wf(),
        r == spec_deserialize(input@).1,
        final(reg).spec_slots() == old(reg).spec_slots() + as_slots(spec_deserialize(input@).0),
        final(reg).spec_generation() == generation_after(old(reg).spec_generation(),
            spec_deserialize(input@).0.len()),
{
    let n = byte_len(input);
    assert(old(reg).spec_slots() + as_slots(Seq::<Obj>::empty()) =~= old(reg).spec_slots());
    if n < 8 {
        return Err(Error::DeserFailed("short header"));
    }
    let magic = read_u32(input, 0);
    if magic != MAGIC {
        return Err(Error::DeserFailed("bad magic"));
    }
    let count = read_u32(input, 4);
    if count > 4096 {
        return Err(Error::DeserFailed("too many nodes"));
    }
    let ghost slots0 = reg.spec_slots();
    let ghost gen0 = reg.spec_generation();
    let ghost mut acc: Seq<Obj> = Seq::empty();
    let mut off: usize = 8;
    let mut left: u32 = count;
    while left > 0
        invariant
            n == input@.len(),
            n <= isize::MAX,
            off <= n,
            reg.wf(),
            reg.spec_slots() == slots0 + as_slots(acc),
            reg.spec_generation() == generation_after(gen0, acc.len()),
            slots0 == old(reg).spec_slots(),
            gen0 == old(reg).spec_generation(),
            read_nodes(input@, off as nat, left as nat, acc) == spec_deserialize(input@),
        decreases left,
    {
        if off + 16 > n {
            return Err(Error::DeserFailed("truncated node"));
        }
        let kind = read_u32(input, off);
        let mark = read_u32(input, off + 4);
        let flags = read_u32(input, off + 8);
        let children: u16 = (input[off + 12] as u16) + 256 * (input[off + 13] as u16);
        assert(children == u16_at(input@, off + 12));
        off = off + 16;
        match heap::validate_kind(kind) {
            Ok(()) => {},
            Err(e) => return Err(e),
        }
        if children > 64 {
            return Err(Error::DeserFailed("child_count"));
        }
        let obj = heap::alloc_obj(kind);
        let _idx = reg.register(obj);
        proof {
            let o = Obj { kind, mark: 0 };
            assert(as_slots(acc.push(o)) =~= as_slots(acc).push(Some(o)));
            acc = acc.push(o);
        }
        match heap::validate_mark(mark) {
            Ok(()) => {},
            Err(e) => return Err(e),
        }
        if flags & 1 != 0 {
            if off + 4 > n {
                return Err(Error::DeserFailed("missing checksum"));
            }
            let ck = read_u32(input, off);
            off = off + 4;
            if ck != (kind ^ mark) {
                return Err(Error::DeserFailed("checksum"));
            }
        }
        let need = children as usize * 4;
        if off + need > n {
            return Err(Error::DeserFailed("truncated children"));
        }
        off = off + need;
        left = left - 1;
    }
    Ok(())
}

/// Reads a blob into a fresh registry, which is then dropped.
pub fn deserialize_and_drop(input: &[u8]) -> (r: Result<()>)
    ensures
        r == spec_deserialize(input@).1,
{
    let mut reg = Registry::new();
    deserialize_into(input, &mut reg)
}

/// Header bytes plus 16 bytes per node (the node count saturates).
pub fn estimate_size(count: usize) -> (r: usize)
    requires
        heap::sat_mul(count as int, 16) + 8 <= usize::MAX,
    ensures
        r == 8 + count * 16,
{
    8 + heap::mul_saturating(count, 16)
}

/// The bytes of the node list `children`, each as a `u32`.
pub open spec fn children_bytes(children: Seq<u32>) -> Seq<u8>
    decreases children.len(),
{
    if children.len() == 0 {
        Seq::empty()
    } else {
        children_bytes(children.drop_last()) + u32_bytes(children.last())
    }
}

/// Encoding of one node.
pub open spec fn node_bytes(kind: u32, mark: u32, flags: u32, children: Seq<u32>) -> Seq<u8> {
    u32_bytes(kind) + u32_bytes(mark) + u32_bytes(flags) + u16_bytes(children.len() as u16) + u16_bytes(0)
        + (if spec_needs_checksum(flags) { u32_bytes(kind ^ mark) } else { Seq::empty() })
        + children_bytes(children)
}

/// Encodes one node; the child count is kept in 16 bits.
pub fn build_node(kind: u32, mark: u32, flags: u32, children: &[u32]) -> (r: Vec<u8>)
    ensures
        r@ == node_bytes(kind, mark, flags, children@),
{
    let mut out: Vec<u8> = Vec::new();
    push_u32(&mut out, kind);
    push_u32(&mut out, mark);
    push_u32(&mut out, flags);
    let cnt = children.len() as u16;
    out.push((cnt % 256) as u8);
    out.push((cnt / 256) as u8);
    out.push(0);
    out.push(0);
    if flags & 1 != 0 {
        push_u32(&mut out, kind ^ mark);
    }
    let ghost head = out@;
    let mut i: usize = 0;
    assert(children@.subrange(0, 0) =~= Seq::<u32>::empty());
    assert(head + children_bytes(Seq::<u32>::empty()) =~= head);
    while i < children.len()
        invariant
            i <= children@.len(),
            out@ == head + children_bytes(children@.subrange(0, i as int)),
        decreases children@.len() - i,
    {
        push_u32(&mut out, children[i]);
        assert(children@.subrange(0, i + 1).drop_last() =~= children@.subrange(0, i as int));
        i += 1;
        assert(out@ =~= head + children_bytes(children@.subrange(0, i as int)));
    }
    assert(children@.subrange(0, i as int) =~= children@);
    assert(out@ =~= node_bytes(kind, mark, flags, children@));
    out
}

/// Concatenation of the nodes' bytes.
pub open spec fn concat_nodes(nodes: Seq<Seq<u8>>) -> Seq<u8>
    decreases nodes.len(),
{
    if nodes.len() == 0 { Seq::empty() } else { concat_nodes(nodes.drop_last()) + nodes.last() }
}

/// Encoding of a blob; the node count is kept in 32 bits.
pub open spec fn blob_bytes(nodes: Seq<Seq<u8>>) -> Seq<u8> {
    u32_bytes(MAGIC) + u32_bytes(nodes.len() as u32) + concat_nodes(nodes)
}

/// Encodes a blob from encoded nodes.
pub fn build_blob(nodes: &[Vec<u8>]) -> (r: Vec<u8>)
    ensures
        r@ == blob_bytes(nodes@.map_values(|v: Vec<u8>| v@)),
{
    let ghost nv = nodes@.map_values(|v: Vec<u8>| v@);
    let mut out: Vec<u8> = Vec::new();
    push_u32(&mut out, MAGIC);
    push_u32(&mut out, nodes.len() as u32);
    let ghost head = out@;
    let mut i: usize = 0;
    assert(nv.subrange(0, 0) =~= Seq::<Seq<u8>>::empty());
    assert(head + concat_nodes(Seq::<Seq<u8>>::empty()) =~= head);
    while i < nodes.len()
        invariant
            i <= nodes@.len(),
            nv == nodes@.map_values(|v: Vec<u8>| v@),
            out@ == head + concat_nodes(nv.subrange(0, i as int)),
        decreases nodes@.len() - i,
    {
        append_bytes(&mut out, nodes[i].as_slice());
        assert(nv.subrange(0, i + 1).drop_last() =~= nv.subrange(0, i as int));
        i += 1;
        assert(out@ =~= head + concat_nodes(nv.subrange(0, i as int)));
    }
    assert(nv.subrange(0, i as int) =~= nv);
    out
}

/// Whether a blob starts with the magic number.
pub fn peek_magic(input: &[u8]) -> (r: bool)
    ensures
        r == (input@.len() >= 4 && u32_at(input@, 0) == MAGIC),
{
    input.len() >= 4 && read_u32(input, 0) == MAGIC
}

/// The node count a blob declares, when it has a full header with the magic number.
pub fn declared_count(input: &[u8]) -> (r: Option<u32>)
    ensures
        r == (if input@.len() >= 8 && u32_at(input@, 0) == MAGIC { Some(u32_at(input@, 4)) } else { None }),
{
    if input.len() < 8 || !peek_magic(input) {
        return None;
    }
    Some(read_u32(input, 4))
}

/// Smallest blob size for `count` nodes.
pub fn estimate_min_bytes(count: usize) -> (r: usize)
    requires
        8 + count * 16 <= usize::MAX,
    ensures
        r == 8 + count * 16,
{
    8 + count * 16
}

/// The checksum a node with these fields carries.
pub fn checksum_expected(kind: u32, mark: u32) -> (r: u32)
    ensures
        r == kind ^ mark,
{
    kind ^ mark
}

/// Whether a node's flags ask for a checksum.
pub fn flags_need_checksum(flags: u32) -> (r: bool)
    ensures
        r == spec_needs_checksum(flags),
{
    flags & 1 != 0
}

/// `kind=K mark=M flags=0xF children=C`, with the flags in upper-case hex.
pub open spec fn node_text(kind: u32, mark: u32, flags: u32, children: u16) -> Seq<char> {
    "kind="@ + dec_nat(kind as nat) + " mark="@ + dec_nat(mark as nat) + " flags=0x"@ + hex(flags as nat, 0, true)
        + " children="@ + dec_nat(children as nat)
}

pub fn describe_node(kind: u32, mark: u32, flags: u32, children: u16) -> (r: String)
    ensures
        r@ == node_text(kind, mark, flags, children),
{
    let mut out = String::new();
    out.append("kind=");
    push_dec(&mut out, kind as u64);
    out.append(" mark=");
    push_dec(&mut out, mark as u64);
    out.append(" flags=0x");
    push_hex(&mut out, flags as u64, 0, true);
    out.append(" children=");
    push_dec(&mut out, children as u64);
    out
}


/// A node the reader accepts: an unreserved kind, a mark within 24 bits, at most 64 children.
pub open spec fn node_ok(n: (u32, u32, u32, Seq<u32>)) -> bool {
    n.0 != 0 && n.0 != 0xFFFF_FFFE && n.1 <= 0x00FF_FFFF && n.3.len() <= 64
}

/// The encodings of the nodes (kind, mark, flags, children).
pub open spec fn encode_nodes(nodes: Seq<(u32, u32, u32, Seq<u32>)>) -> Seq<Seq<u8>> {
    nodes.map_values(|n: (u32, u32, u32, Seq<u32>)| node_bytes(n.0, n.1, n.2, n.3))
}

/// The objects the nodes register: their kinds, unmarked.
pub open spec fn node_objs(nodes: Seq<(u32, u32, u32, Seq<u32>)>) -> Seq<Obj> {
    nodes.map_values(|n: (u32, u32, u32, Seq<u32>)| Obj { kind: n.0, mark: 0 })
}

proof fn lemma_u32_in(input: Seq<u8>, off: int, v: u32)
    requires
        0 <= off,
        off + 4 <= input.len(),
        input.subrange(off, off + 4) == u32_bytes(v),
    ensures
        u32_at(input, off) == v,
{
    crate::bytes::lemma_u32_roundtrip(v);
    let b = u32_bytes(v);
    assert(input[off] == b[0] && input[off + 1] == b[1] && input[off + 2] == b[2] && input[off + 3] == b[3]) by {
        assert(input.subrange(off, off + 4)[0] == input[off]);
        assert(input.subrange(off, off + 4)[1] == input[off + 1]);
        assert(input.subrange(off, off + 4)[2] == input[off + 2]);
        assert(input.subrange(off, off + 4)[3] == input[off + 3]);
    }
}

proof fn lemma_children_len(c: Seq<u32>)
    ensures
        children_bytes(c).len() == 4 * c.len(),
    decreases c.len(),
{
    if c.len() > 0 {
        lemma_children_len(c.drop_last());
    }
}

proof fn lemma_concat_first(s: Seq<Seq<u8>>)
    requires
        s.len() > 0,
    ensures
        concat_nodes(s) == s[0] + concat_nodes(s.drop_first()),
    decreases s.len(),
{
    if s.len() == 1 {
        assert(s.drop_last() =~= Seq::<Seq<u8>>::empty());
        assert(s.drop_first() =~= Seq::<Seq<u8>>::empty());
        assert(concat_nodes(s) =~= s[0] + concat_nodes(s.drop_first()));
    } else {
        lemma_concat_first(s.drop_last());
        assert(s.drop_first().drop_last() =~= s.drop_last().drop_first());
        assert(s.drop_last()[0] == s[0]);
        assert(s.drop_first().last() == s.last());
        assert(concat_nodes(s) =~= s[0] + concat_nodes(s.drop_first()));
    }
}

proof fn lemma_read_one(input: Seq<u8>, off: nat, n: (u32, u32, u32, Seq<u32>), count: nat, acc: Seq<Obj>)
    requires
        node_ok(n),
        count >= 1,
        off + node_bytes(n.0, n.1, n.2, n.3).len() <= input.len(),
        input.subrange(off as int, off + node_bytes(n.0, n.1, n.2, n.3).len() as int) == node_bytes(n.0, n.1, n.2, n.3),
    ensures
        read_nodes(input, off, count, acc) == read_nodes(
            input,
            off + node_bytes(n.0, n.1, n.2, n.3).len(),
            (count - 1) as nat,
            acc.push(Obj { kind: n.0, mark: 0 }),
        ),
{
    let (kind, mark, flags, children) = n;
    let enc = node_bytes(kind, mark, flags, children);
    let cs = spec_needs_checksum(flags);
    let cnt = children.len() as u16;
    lemma_children_len(children);
    let ck: Seq<u8> = if cs { u32_bytes(kind ^ mark) } else { Seq::empty() };
    assert(enc =~= u32_bytes(kind) + u32_bytes(mark) + u32_bytes(flags) + u16_bytes(cnt) + u16_bytes(0) + ck
        + children_bytes(children));
    let o = off as int;
    assert(input.subrange(o, o + 4) =~= enc.subrange(0, 4));
    assert(enc.subrange(0, 4) =~= u32_bytes(kind));
    lemma_u32_in(input, o, kind);
    assert(input.subrange(o + 4, o + 8) =~= enc.subrange(4, 8));
    assert(enc.subrange(4, 8) =~= u32_bytes(mark));
    lemma_u32_in(input, o + 4, mark);
    assert(input.subrange(o + 8, o + 12) =~= enc.subrange(8, 12));
    assert(enc.subrange(8, 12) =~= u32_bytes(flags));
    lemma_u32_in(input, o + 8, flags);
    assert(input[o + 12] == enc[12] && input[o + 13] == enc[13]) by {
        assert(input.subrange(o, o + enc.len())[12] == input[o + 12]);
        assert(input.subrange(o, o + enc.len())[13] == input[o + 13]);
    }
    assert(enc[12] == (cnt % 256) as u8 && enc[13] == (cnt / 256) as u8);
    assert(u16_at(input, o + 12) == cnt) by {
        assert((cnt % 256) as u8 as int + 256 * ((cnt / 256) as u8 as int) == cnt as int) by (nonlinear_arith)
            requires
                cnt <= 64,
        ;
    }
    if cs {
        assert(input.subrange(o + 16, o + 20) =~= enc.subrange(16, 20));
        assert(enc.subrange(16, 20) =~= u32_bytes(kind ^ mark));
        lemma_u32_in(input, o + 16, kind ^ mark);
    }
}

proof fn lemma_read_all(input: Seq<u8>, off: nat, nodes: Seq<(u32, u32, u32, Seq<u32>)>, acc: Seq<Obj>)
    requires
        forall|i: int| 0 <= i < nodes.len() ==> node_ok(#[trigger] nodes[i]),
        off + concat_nodes(encode_nodes(nodes)).len() <= input.len(),
        input.subrange(off as int, off + concat_nodes(encode_nodes(nodes)).len() as int) == concat_nodes(encode_nodes(nodes)),
    ensures
        read_nodes(input, off, nodes.len(), acc) == (acc + node_objs(nodes), Ok::<(), Error>(())),
    decreases nodes.len(),
{
    if nodes.len() == 0 {
        assert(acc + node_objs(nodes) =~= acc);
    } else {
        let encs = encode_nodes(nodes);
        let n0 = nodes[0];
        let e0 = node_bytes(n0.0, n0.1, n0.2, n0.3);
        let rest = nodes.drop_first();
        assert(encs.drop_first() =~= encode_nodes(rest));
        lemma_concat_first(encs);
        assert(encs[0] == e0);
        let all = concat_nodes(encs);
        let tail = concat_nodes(encode_nodes(rest));
        assert(all == e0 + tail);
        assert(input.subrange(off as int, (off + e0.len()) as int) =~= all.subrange(0, e0.len() as int));
        assert(all.subrange(0, e0.len() as int) =~= e0);
        assert(node_ok(nodes[0]));
        lemma_read_one(input, off, n0, nodes.len(), acc);
        assert(input.subrange((off + e0.len()) as int, (off + e0.len() + tail.len()) as int) =~= all.subrange(
            e0.len() as int,
            all.len() as int,
        ));
        assert(all.subrange(e0.len() as int, all.len() as int) =~= tail);
        assert forall|i: int| 0 <= i < rest.len() implies node_ok(#[trigger] rest[i]) by {
            assert(rest[i] == nodes[i + 1]);
        }
        lemma_read_all(input, off + e0.len(), rest, acc.push(Obj { kind: n0.0, mark: 0 }));
        assert(acc.push(Obj { kind: n0.0, mark: 0 }) + node_objs(rest) =~= acc + node_objs(nodes));
    }
}

/// Reading a blob built from accepted nodes registers one unmarked object per node, of the
/// node's kind, and succeeds.
pub proof fn law_blob_roundtrip(nodes: Seq<(u32, u32, u32, Seq<u32>)>)
    requires
        nodes.len() <= 4096,
        forall|i: int| 0 <= i < nodes.len() ==> node_ok(#[trigger] nodes[i]),
    ensures
        spec_deserialize(blob_bytes(encode_nodes(nodes))) == (node_objs(nodes), Ok::<(), Error>(())),
{
    let encs = encode_nodes(nodes);
    let blob = blob_bytes(encs);
    let body = concat_nodes(encs);
    assert(blob.subrange(0, 4) =~= u32_bytes(MAGIC));
    lemma_u32_in(blob, 0, MAGIC);
    assert(blob.subrange(4, 8) =~= u32_bytes(encs.len() as u32));
    lemma_u32_in(blob, 4, encs.len() as u32);
    assert(blob.subrange(8, (8 + body.len()) as int) =~= body);
    lemma_read_all(blob, 8, nodes, Seq::empty());
    assert(Seq::<Obj>::empty() + node_objs(nodes) =~= node_objs(nodes));
}

} // verus!
