//! String intern pool keyed by a 64-bit FNV-1a hash.
use vstd::prelude::*;
use std::collections::HashMap;
use crate::error::{Error, Result};
use crate::module::{Module, FnModel};
use crate::bytes::{i64_bytes, u32_bytes, push_i64, push_u32};
use crate::encode::utf8_items;
use vstd::string::*;

verus! {

broadcast use vstd::std_specs::hash::group_hash_axioms;

#[derive(Clone, Copy, Debug, PartialEq, Eq, Hash)]
pub struct InternId(pub u32);

#[derive(Clone, Copy, Debug)]
struct Entry {
    offset: usize,
    len: usize,
    hash: u64,
}

#[derive(Debug)]
pub struct InternPool {
    arena: Vec<u8>,
    entries: Vec<Entry>,
    index: HashMap<u64, InternId>,
    compact_count: u32,
}

/// 64-bit FNV-1a hash of a byte string.
pub open spec fn fnv1a(data: Seq<u8>) -> u64
    decreases data.len(),
{
    if data.len() == 0 {
        0xcbf29ce484222325u64
    } else {
        (fnv1a(data.drop_last()) ^ (data.last() as u64)).wrapping_mul(0x100000001b3u64)
    }
}

/// Whether some entry of `entries` hashes like `data`.
pub open spec fn has_hash(entries: Seq<Seq<u8>>, h: u64) -> bool {
    exists|i: int| 0 <= i < entries.len() && fnv1a(entries[i]) == h
}

/// Id that interning `data` yields: the entry hashing alike, else the next free id.
pub open spec fn spec_intern_id(entries: Seq<Seq<u8>>, data: Seq<u8>) -> u32 {
    if has_hash(entries, fnv1a(data)) {
        (choose|i: int| 0 <= i < entries.len() && fnv1a(entries[i]) == fnv1a(data)) as u32
    } else {
        entries.len() as u32
    }
}

/// Compaction counter after interning `data`: a new entry into a non-empty pool compacts it.
pub open spec fn spec_compactions_after(entries: Seq<Seq<u8>>, count: u32, data: Seq<u8>) -> u32 {
    if !has_hash(entries, fnv1a(data)) && entries.len() > 0 { count.wrapping_add(1) } else { count }
}

impl InternPool {
    /// Bytes of each entry, by id.
    pub closed spec fn spec_entries(&self) -> Seq<Seq<u8>> {
        Seq::new(self.entries@.len(), |i: int| self.arena@.subrange(
            self.entries@[i].offset as int, self.entries@[i].offset + self.entries@[i].len))
    }

    /// Number of compactions performed.
    pub closed spec fn spec_compact_count(&self) -> u32 {
        self.compact_count
    }

    /// Entries lie within the arena, hash distinctly, and the index maps each entry's
    /// hash to its id.
    pub closed spec fn wf(&self) -> bool {
        &&& self.entries@.len() <= u32::MAX
        &&& forall|i: int| 0 <= i < self.entries@.len() ==> {
            &&& #[trigger] self.entries@[i].offset + self.entries@[i].len <= self.arena@.len()
            &&& self.entries@[i].hash == fnv1a(self.spec_entries()[i])
        }
        &&& forall|i: int, j: int| 0 <= i < j < self.entries@.len() ==> #[trigger] self.entries@[i].hash
            != #[trigger] self.entries@[j].hash
        &&& forall|h: u64| #[trigger] self.index@.contains_key(h) <==> exists|i: int| 0 <= i < self.entries@.len()
            && self.entries@[i].hash == h
        &&& forall|i: int| 0 <= i < self.entries@.len() ==> #[trigger] self.index@[self.entries@[i].hash] == InternId(i as u32)
    }
}

impl InternPool {
    /// Distinct entries of a well-formed pool hash distinctly.
    pub proof fn lemma_distinct_hashes(p: &InternPool)
        requires
            p.wf(),
        ensures
            forall|i: int, j: int| 0 <= i < p.spec_entries().len() && 0 <= j < p.spec_entries().len()
                && #[trigger] fnv1a(p.spec_entries()[i]) == #[trigger] fnv1a(p.spec_entries()[j]) ==> i == j,
    {
        assert forall|i: int, j: int| 0 <= i < p.spec_entries().len() && 0 <= j < p.spec_entries().len()
            && #[trigger] fnv1a(p.spec_entries()[i]) == #[trigger] fnv1a(p.spec_entries()[j]) implies i == j by {
            assert(p.entries@[i].hash == fnv1a(p.spec_entries()[i]));
            assert(p.entries@[j].hash == fnv1a(p.spec_entries()[j]));
            if i < j {
                assert(p.entries@[i].hash != p.entries@[j].hash);
            } else if j < i {
                assert(p.entries@[j].hash != p.entries@[i].hash);
            }
        }
    }

    pub fn new() -> (r: Self)
        ensures
            r.wf(),
            r.spec_entries() == Seq::<Seq<u8>>::empty(),
            r.spec_compact_count() == 0,
    {
        let r = InternPool { arena: Vec::new(), entries: Vec::new(), index: HashMap::new(), compact_count: 0 };
        assert(r.spec_entries() =~= Seq::<Seq<u8>>::empty());
        r
    }

    pub fn len(&self) -> (r: usize)
        requires
            self.wf(),
        ensures
            r == self.spec_entries().len(),
    {
        self.entries.len()
    }

    pub fn is_empty(&self) -> (r: bool)
        ensures
            r == (self.spec_entries().len() == 0),
    {
        self.entries.len() == 0
    }

    pub fn compact_count(&self) -> (r: u32)
        ensures
            r == self.spec_compact_count(),
    {
        self.compact_count
    }

    /// 64-bit FNV-1a hash.
    pub fn hash_bytes(data: &[u8]) -> (r: u64)
        ensures
            r == fnv1a(data@),
    {
        let mut h: u64 = 0xcbf29ce484222325;
        let mut i: usize = 0;
        while i < data.len()
            invariant
                i <= data@.len(),
                h == fnv1a(data@.subrange(0, i as int)),
            decreases data@.len() - i,
        {
            proof {
                assert(data@.subrange(0, i + 1).drop_last() =~= data@.subrange(0, i as int));
            }
            h = (h ^ (data[i] as u64)).wrapping_mul(0x100000001b3);
            i += 1;
        }
        assert(data@.subrange(0, data@.len() as int) =~= data@);
        h
    }

    /// Id of `data`: the existing entry with the same hash, or a new entry (after a compaction
    /// when the pool is not empty).
    pub fn intern(&mut self, data: &[u8]) -> (id: InternId)
        requires
            old(self).wf(),
            old(self).spec_entries().len() < u32::MAX,
        ensures
            final(self).wf(),
            has_hash(old(self).spec_entries(), fnv1a(data@)) ==> {
                &&& final(self).spec_entries() == old(self).spec_entries()
                &&& final(self).spec_compact_count() == old(self).spec_compact_count()
                &&& id.0 < old(self).spec_entries().len()
                &&& fnv1a(old(self).spec_entries()[id.0 as int]) == fnv1a(data@)
            },
            !has_hash(old(self).spec_entries(), fnv1a(data@)) ==> {
                &&& final(self).spec_entries() == old(self).spec_entries().push(data@)
                &&& id.0 == old(self).spec_entries().len()
                &&& final(self).spec_compact_count() == if old(self).spec_entries().len() > 0 {
                    old(self).spec_compact_count().wrapping_add(1)
                } else {
                    old(self).spec_compact_count()
                }
            },
            id.0 == spec_intern_id(old(self).spec_entries(), data@),
            final(self).spec_entries() == spec_intern(old(self).spec_entries(), data@),
            final(self).spec_compact_count() == spec_compactions_after(old(self).spec_entries(),
                old(self).spec_compact_count(), data@),
    {
        proof { Self::lemma_distinct_hashes(self); }
        let hash = Self::hash_bytes(data);
        match self.index.get(&hash) {
            Some(id) => {
                let r = *id;
                proof {
                    let i = choose|i: int| 0 <= i < self.entries@.len() && self.entries@[i].hash == hash;
                    assert(self.index@[self.entries@[i].hash] == InternId(i as u32));
                    assert(self.entries@[i].offset + self.entries@[i].len <= self.arena@.len());
                    assert(fnv1a(self.spec_entries()[i]) == hash);
                    assert(has_hash(old(self).spec_entries(), fnv1a(data@)));
                }
                return r;
            },
            None => {},
        }
        proof {
            assert forall|i: int| 0 <= i < self.spec_entries().len() implies fnv1a(#[trigger] self.spec_entries()[i]) != hash by {
                assert(self.entries@[i].offset + self.entries@[i].len <= self.arena@.len());
                if fnv1a(self.spec_entries()[i]) == hash {
                    assert(self.index@.contains_key(self.entries@[i].hash));
                }
            }
        }
        if self.entries.len() > 0 {
            self.compact();
        }
        let ghost before = self.spec_entries();
        let ghost mid_arena = self.arena@;
        let ghost old_entries = self.entries@;
        let ghost old_index = self.index@;
        let offset = self.arena.len();
        crate::bytes::append_bytes(&mut self.arena, data);
        let _total = self.arena.len();
        let id = InternId(self.entries.len() as u32);
        self.entries.push(Entry { offset, len: data.len(), hash });
        self.index.insert(hash, id);
        proof {
            assert forall|i: int| 0 <= i < self.entries@.len() implies #[trigger] self.index@[self.entries@[i].hash] == InternId(i as u32) by {
                if i < before.len() {
                    assert(old_entries[i] == self.entries@[i]);
                    assert(old_index[old_entries[i].hash] == InternId(i as u32));
                    assert(old_entries[i].offset + old_entries[i].len <= mid_arena.len());
                }
            }
            assert forall|i: int| 0 <= i < self.entries@.len() implies {
                &&& #[trigger] self.entries@[i].offset + self.entries@[i].len <= self.arena@.len()
                &&& self.entries@[i].hash == fnv1a(self.spec_entries()[i])
            } by {
                if i < before.len() {
                    assert(old_entries[i] == self.entries@[i]);
                    assert(old_entries[i].offset + old_entries[i].len <= mid_arena.len());
                    assert(self.arena@.subrange(self.entries@[i].offset as int, self.entries@[i].offset + self.entries@[i].len)
                        =~= before[i]);
                } else {
                    assert(self.spec_entries()[i] =~= data@);
                }
            }
            assert forall|i: int, j: int| 0 <= i < j < self.entries@.len() implies #[trigger] self.entries@[i].hash
                != #[trigger] self.entries@[j].hash by {
                if j == before.len() {
                    assert(old_entries[i].offset + old_entries[i].len <= mid_arena.len());
                    assert(old_index.contains_key(old_entries[i].hash));
                }
            }
            assert forall|i: int| 0 <= i < before.len() implies #[trigger] self.spec_entries()[i] == before[i] by {
                assert(self.arena@.subrange(self.entries@[i].offset as int, self.entries@[i].offset + self.entries@[i].len)
                    =~= before[i]);
            }
            assert(self.spec_entries()[before.len() as int] =~= data@);
            assert(self.spec_entries() =~= before.push(data@));
            assert(!has_hash(old(self).spec_entries(), fnv1a(data@))) by {
                if has_hash(old(self).spec_entries(), fnv1a(data@)) {
                    let i = choose|i: int| 0 <= i < old(self).spec_entries().len() && fnv1a(old(self).spec_entries()[i]) == fnv1a(data@);
                    assert(before[i] == old(self).spec_entries()[i]);
                }
            }
            assert forall|h: u64| #[trigger] self.index@.contains_key(h) <==> exists|i: int| 0 <= i < self.entries@.len()
                && self.entries@[i].hash == h by {
                if h == hash {
                    assert(self.entries@[before.len() as int].hash == h);
                }
                if h != hash && old_index.contains_key(h) {
                    let i = choose|i: int| 0 <= i < old_entries.len() && old_entries[i].hash == h;
                    assert(self.entries@[i] == old_entries[i]);
                }
                if exists|i: int| 0 <= i < self.entries@.len() && self.entries@[i].hash == h {
                    let i = choose|i: int| 0 <= i < self.entries@.len() && self.entries@[i].hash == h;
                    if i < before.len() {
                        assert(self.entries@[i] == old_entries[i]);
                    }
                }
            }
        }
        id
    }
}

impl InternPool {
    /// Rebuilds the arena, entries and index in id order; the content is unchanged and the
    /// compaction counter advances (wrapping).
    pub fn compact(&mut self)
        requires
            old(self).wf(),
        ensures
            final(self).wf(),
            final(self).spec_entries() == old(self).spec_entries(),
            final(self).spec_compact_count() == old(self).spec_compact_count().wrapping_add(1),
    {
        let mut new_arena: Vec<u8> = Vec::new();
        let mut new_entries: Vec<Entry> = Vec::new();
        let mut new_index: HashMap<u64, InternId> = HashMap::new();
        let alen = self.arena.len();
        let mut k: usize = 0;
        while k < self.entries.len()
            invariant
                self.wf(),
                self == old(self),
                alen == self.arena@.len(),
                k <= self.entries@.len(),
                new_entries@.len() == k,
                forall|i: int| 0 <= i < k ==> {
                    &&& #[trigger] new_entries@[i].offset + new_entries@[i].len <= new_arena@.len()
                    &&& new_entries@[i].hash == self.entries@[i].hash
                    &&& new_arena@.subrange(new_entries@[i].offset as int, new_entries@[i].offset + new_entries@[i].len)
                        == self.spec_entries()[i]
                },
                forall|h: u64| #[trigger] new_index@.contains_key(h) <==> exists|i: int| 0 <= i < k
                    && self.entries@[i].hash == h,
                forall|i: int| 0 <= i < k ==> #[trigger] new_index@[new_entries@[i].hash] == InternId(i as u32),
            decreases self.entries@.len() - k,
        {
            let e = self.entries[k];
            proof {
                assert(self.entries@[k as int].offset + self.entries@[k as int].len <= self.arena@.len());
            }
            let offset = new_arena.len();
            let ghost arena_before = new_arena@;
            crate::bytes::append_range(&mut new_arena, self.arena.as_slice(), e.offset, e.len);
            let ghost prev_entries = new_entries@;
            let ghost prev_index = new_index@;
            new_entries.push(Entry { offset, len: e.len, hash: e.hash });
            new_index.insert(e.hash, InternId(k as u32));
            proof {
                assert forall|i: int| 0 <= i < k + 1 implies {
                    &&& #[trigger] new_entries@[i].offset + new_entries@[i].len <= new_arena@.len()
                    &&& new_entries@[i].hash == self.entries@[i].hash
                    &&& new_arena@.subrange(new_entries@[i].offset as int, new_entries@[i].offset + new_entries@[i].len)
                        == self.spec_entries()[i]
                } by {
                    if i < k {
                        assert(new_entries@[i] == prev_entries[i]);
                        assert(new_arena@.subrange(new_entries@[i].offset as int, new_entries@[i].offset + new_entries@[i].len)
                            =~= arena_before.subrange(new_entries@[i].offset as int, new_entries@[i].offset + new_entries@[i].len));
                    } else {
                        assert(new_arena@.subrange(offset as int, offset + e.len) =~= self.spec_entries()[i]);
                    }
                }
                assert forall|i: int| 0 <= i < k + 1 implies #[trigger] new_index@[new_entries@[i].hash] == InternId(i as u32) by {
                    if i < k {
                        assert(new_entries@[i] == prev_entries[i]);
                        assert(prev_index[prev_entries[i].hash] == InternId(i as u32));
                        assert(prev_entries[i].offset + prev_entries[i].len <= arena_before.len());
                        assert(prev_entries[i].hash == self.entries@[i].hash);
                        assert(self.entries@[i].hash != self.entries@[k as int].hash);
                        assert(new_index@ == prev_index.insert(e.hash, InternId(k as u32)));
                        assert(new_index@[prev_entries[i].hash] == prev_index[prev_entries[i].hash]);
                    } else {
                        assert(new_entries@[i].hash == e.hash);
                    }
                }
                assert forall|h: u64| #[trigger] new_index@.contains_key(h) <==> exists|i: int| 0 <= i < k + 1
                    && self.entries@[i].hash == h by {
                    if h == e.hash {
                        assert(self.entries@[k as int].hash == h);
                    }
                    if exists|i: int| 0 <= i < k + 1 && self.entries@[i].hash == h {
                        let i = choose|i: int| 0 <= i < k + 1 && self.entries@[i].hash == h;
                        if i < k {
                            assert(prev_index.contains_key(h));
                        }
                    }
                }
            }
            k += 1;
        }
        let ghost old_entries_view = self.spec_entries();
        let ghost old_list = self.entries@;
        proof {
            assert forall|i: int| 0 <= i < old_list.len() implies #[trigger] new_entries@[i].hash == old_list[i].hash by {
                assert(new_entries@[i].offset + new_entries@[i].len <= new_arena@.len());
            }
        }
        self.arena = new_arena;
        self.entries = new_entries;
        self.index = new_index;
        self.compact_count = self.compact_count.wrapping_add(1);
        proof {
            assert forall|i: int| 0 <= i < self.entries@.len() implies #[trigger] self.spec_entries()[i] == old_entries_view[i] by {
                assert(self.entries@[i].offset + self.entries@[i].len <= self.arena@.len());
            }
            assert(self.spec_entries() =~= old_entries_view);
            assert forall|i: int| 0 <= i < self.entries@.len() implies #[trigger] self.index@[self.entries@[i].hash] == InternId(i as u32) by {
            }
            assert forall|i: int| 0 <= i < self.entries@.len() implies {
                &&& #[trigger] self.entries@[i].offset + self.entries@[i].len <= self.arena@.len()
                &&& self.entries@[i].hash == fnv1a(self.spec_entries()[i])
            } by {
                assert(old_list[i].offset + old_list[i].len <= old(self).arena@.len());
                assert(self.entries@[i].hash == old_list[i].hash);
            }
            assert forall|i: int, j: int| 0 <= i < j < self.entries@.len() implies #[trigger] self.entries@[i].hash
                != #[trigger] self.entries@[j].hash by {
                assert(self.entries@[i].hash == old_list[i].hash);
                assert(self.entries@[j].hash == old_list[j].hash);
            }
            assert forall|h: u64| #[trigger] self.index@.contains_key(h) <==> exists|i: int| 0 <= i < self.entries@.len()
                && self.entries@[i].hash == h by {
                if exists|i: int| 0 <= i < self.entries@.len() && self.entries@[i].hash == h {
                    let i = choose|i: int| 0 <= i < self.entries@.len() && self.entries@[i].hash == h;
                    assert(self.entries@[i].hash == old_list[i].hash);
                }
                if self.index@.contains_key(h) {
                    let i = choose|i: int| 0 <= i < old_list.len() && old_list[i].hash == h;
                    assert(self.entries@[i].hash == old_list[i].hash);
                }
            }
        }
    }
}

/// Text of a byte string. Wraps `std::str::from_utf8`: `Some` exactly for valid UTF-8,
/// holding its characters.
#[verifier::external_body]
fn utf8_str(b: &[u8]) -> (r: Option<&str>)
    ensures
        r is Some <==> vstd::utf8::valid_utf8(b@),
        r matches Some(s) ==> s@ == vstd::utf8::decode_utf8(b@),
{
    std::str::from_utf8(b).ok()
}

/// Number of slots of the hash index. Wraps `HashMap::capacity`; how many slots the
/// allocator gave is not stated.
#[verifier::external_body]
fn index_capacity(m: &HashMap<u64, InternId>) -> (r: usize)
{
    m.capacity()
}

impl InternPool {
    pub fn intern_str(&mut self, s: &str) -> (id: InternId)
        requires
            old(self).wf(),
            old(self).spec_entries().len() < u32::MAX,
        ensures
            final(self).wf(),
            final(self).spec_entries() == spec_intern(old(self).spec_entries(), s.spec_bytes()),
            has_hash(old(self).spec_entries(), fnv1a(s.spec_bytes())) ==> id.0 < old(self).spec_entries().len()
                && fnv1a(old(self).spec_entries()[id.0 as int]) == fnv1a(s.spec_bytes()),
            !has_hash(old(self).spec_entries(), fnv1a(s.spec_bytes())) ==> id.0 == old(self).spec_entries().len(),
    {
        self.intern(s.as_bytes())
    }

    /// Bytes of an entry.
    pub fn resolve(&self, id: InternId) -> (r: Option<&[u8]>)
        requires
            self.wf(),
        ensures
            (id.0 as int) < self.spec_entries().len() ==> (r matches Some(b) && b@ == self.spec_entries()[id.0 as int]),
            (id.0 as int) >= self.spec_entries().len() ==> r is None,
    {
        if (id.0 as usize) >= self.entries.len() {
            return None;
        }
        let e = self.entries[id.0 as usize];
        proof {
            assert(self.entries@[id.0 as int].offset + self.entries@[id.0 as int].len <= self.arena@.len());
        }
        let _n = self.arena.len();
        Some(vstd::slice::slice_subrange(self.arena.as_slice(), e.offset, e.offset + e.len))
    }

    /// Text of an entry, when it is valid UTF-8.
    pub fn resolve_str(&self, id: InternId) -> (r: Option<&str>)
        requires
            self.wf(),
        ensures
            r matches Some(s) ==> (id.0 as int) < self.spec_entries().len()
                && vstd::utf8::valid_utf8(self.spec_entries()[id.0 as int])
                && s@ == vstd::utf8::decode_utf8(self.spec_entries()[id.0 as int]),
            r is None ==> (id.0 as int) >= self.spec_entries().len()
                || !vstd::utf8::valid_utf8(self.spec_entries()[id.0 as int]),
    {
        match self.resolve(id) {
            Some(b) => utf8_str(b),
            None => None,
        }
    }

    pub fn force_compact(&mut self)
        requires
            old(self).wf(),
        ensures
            final(self).wf(),
            final(self).spec_entries() == old(self).spec_entries(),
            final(self).spec_compact_count() == old(self).spec_compact_count().wrapping_add(1),
    {
        self.compact();
    }

    /// (entries, arena bytes, compactions).
    pub fn stats(&self) -> (r: (usize, usize, u32))
        requires
            self.wf(),
        ensures
            r.0 == self.spec_entries().len(),
            r.1 == self.spec_arena_len(),
            r.2 == self.spec_compact_count(),
    {
        (self.entries.len(), self.arena.len(), self.compact_count)
    }

    /// Bytes held by the arena.
    pub closed spec fn spec_arena_len(&self) -> nat {
        self.arena@.len()
    }

    /// Bytes of one entry record.
    pub closed spec fn entry_bytes() -> nat {
        vstd::layout::size_of::<Entry>()
    }

    /// Arena bytes, plus the entry records, plus sixteen bytes per slot of the hash index
    /// (whose slot count the allocator decides), saturating at `usize::MAX`.
    pub fn estimate_bytes(&self) -> (r: usize)
        ensures
            exists|cap: nat| r == crate::heap::sat_add(
                crate::heap::sat_add(self.spec_arena_len() as int, crate::heap::sat_mul(
                    self.spec_entries().len() as int,
                    Self::entry_bytes() as int,
                )),
                crate::heap::sat_mul(cap as int, 16),
            ),
    {
        let records = crate::heap::mul_saturating(self.entries.len(), core::mem::size_of::<Entry>());
        let cap = index_capacity(&self.index);
        let slots = crate::heap::mul_saturating(cap, 16);
        let r = crate::heap::add_saturating(crate::heap::add_saturating(self.arena.len(), records), slots);
        assert(r == crate::heap::sat_add(
            crate::heap::sat_add(self.spec_arena_len() as int, crate::heap::sat_mul(
                self.spec_entries().len() as int,
                Self::entry_bytes() as int,
            )),
            crate::heap::sat_mul(cap as nat as int, 16),
        ));
        r
    }

    pub fn contains_hash(&self, hash: u64) -> (r: bool)
        requires
            self.wf(),
        ensures
            r == has_hash(self.spec_entries(), hash),
    {
        let r = self.index.contains_key(&hash);
        proof {
            if r {
                let i = choose|i: int| 0 <= i < self.entries@.len() && self.entries@[i].hash == hash;
                assert(self.entries@[i].offset + self.entries@[i].len <= self.arena@.len());
            }
            if has_hash(self.spec_entries(), hash) {
                let i = choose|i: int| 0 <= i < self.spec_entries().len() && fnv1a(self.spec_entries()[i]) == hash;
                assert(self.entries@[i].offset + self.entries@[i].len <= self.arena@.len());
            }
        }
        r
    }

    /// Hash of every entry, by id.
    pub fn dump_hashes(&self) -> (r: Vec<u64>)
        requires
            self.wf(),
        ensures
            r@ == self.spec_entries().map_values(|b: Seq<u8>| fnv1a(b)),
    {
        let mut out: Vec<u64> = Vec::new();
        let mut i: usize = 0;
        while i < self.entries.len()
            invariant
                self.wf(),
                i <= self.entries@.len(),
                out@ == self.spec_entries().subrange(0, i as int).map_values(|b: Seq<u8>| fnv1a(b)),
            decreases self.entries@.len() - i,
        {
            proof {
                assert(self.entries@[i as int].offset + self.entries@[i as int].len <= self.arena@.len());
            }
            out.push(self.entries[i].hash);
            i += 1;
            assert(out@ =~= self.spec_entries().subrange(0, i as int).map_values(|b: Seq<u8>| fnv1a(b)));
        }
        assert(self.spec_entries().subrange(0, i as int) =~= self.spec_entries());
        out
    }
}

impl Default for InternPool {
    fn default() -> (r: Self)
        ensures
            r.wf(),
            r.spec_entries() == Seq::<Seq<u8>>::empty(),
            r.spec_compact_count() == 0,
    {
        Self::new()
    }
}

/// Pool content after interning `data`: unchanged when an entry already hashes alike.
pub open spec fn spec_intern(entries: Seq<Seq<u8>>, data: Seq<u8>) -> Seq<Seq<u8>> {
    if has_hash(entries, fnv1a(data)) { entries } else { entries.push(data) }
}

/// No two entries hash alike (what a well-formed pool keeps).
pub open spec fn hashes_distinct(entries: Seq<Seq<u8>>) -> bool {
    forall|i: int, j: int| 0 <= i < entries.len() && 0 <= j < entries.len()
        && #[trigger] fnv1a(entries[i]) == #[trigger] fnv1a(entries[j]) ==> i == j
}

/// No entry other than `data` itself hashes like `data`.
pub open spec fn no_collision(entries: Seq<Seq<u8>>, data: Seq<u8>) -> bool {
    forall|i: int| 0 <= i < entries.len() && #[trigger] fnv1a(entries[i]) == fnv1a(data) ==> entries[i] == data
}

/// Interning without a hash collision: the id resolves to the bytes interned; bytes already
/// present keep their earlier id and leave the pool unchanged, new bytes get the next id;
/// every earlier id still resolves to the same bytes, so distinct bytes have distinct ids;
/// and interning the same bytes again gives the same id and changes nothing.
pub proof fn law_intern_without_collision(entries: Seq<Seq<u8>>, data: Seq<u8>)
    requires
        hashes_distinct(entries),
        no_collision(entries, data),
        entries.len() < u32::MAX,
    ensures
        (spec_intern_id(entries, data) as int) < spec_intern(entries, data).len(),
        spec_intern(entries, data)[spec_intern_id(entries, data) as int] == data,
        entries.contains(data) ==> spec_intern(entries, data) == entries,
        !entries.contains(data) ==> spec_intern(entries, data) == entries.push(data)
            && spec_intern_id(entries, data) == entries.len(),
        forall|i: int| 0 <= i < entries.len() ==> #[trigger] spec_intern(entries, data)[i] == entries[i],
        forall|i: int| 0 <= i < entries.len() && entries[i] != data ==> i != spec_intern_id(entries, data),
        hashes_distinct(spec_intern(entries, data)),
        spec_intern_id(spec_intern(entries, data), data) == spec_intern_id(entries, data),
        spec_intern(spec_intern(entries, data), data) == spec_intern(entries, data),
{
    let h = fnv1a(data);
    let es2 = spec_intern(entries, data);
    if has_hash(entries, h) {
        let i = choose|i: int| 0 <= i < entries.len() && fnv1a(entries[i]) == h;
        assert(entries[i] == data);
        assert(entries.contains(data));
        assert(es2 == entries);
    } else {
        if entries.contains(data) {
            let j = choose|j: int| 0 <= j < entries.len() && entries[j] == data;
            assert(fnv1a(entries[j]) == h);
        }
        assert(es2 == entries.push(data));
        assert forall|i: int, j: int| 0 <= i < es2.len() && 0 <= j < es2.len()
            && #[trigger] fnv1a(es2[i]) == #[trigger] fnv1a(es2[j]) implies i == j by {
            if i < entries.len() && j < entries.len() {
                assert(es2[i] == entries[i] && es2[j] == entries[j]);
            } else if i < entries.len() {
                assert(es2[i] == entries[i]);
                assert(fnv1a(entries[i]) == h);
            } else if j < entries.len() {
                assert(es2[j] == entries[j]);
                assert(fnv1a(entries[j]) == h);
            }
        }
        assert(es2[entries.len() as int] == data);
        assert(has_hash(es2, h)) by {
            assert(fnv1a(es2[entries.len() as int]) == h);
        }
    }
    let id = spec_intern_id(entries, data);
    assert(has_hash(es2, h)) by {
        assert(fnv1a(es2[id as int]) == h);
    }
    let k = choose|k: int| 0 <= k < es2.len() && fnv1a(es2[k]) == h;
    assert(fnv1a(es2[k]) == fnv1a(es2[id as int]));
}

/// Pool content after interning each of `items` in turn.
pub open spec fn spec_intern_all(entries: Seq<Seq<u8>>, items: Seq<Seq<u8>>) -> Seq<Seq<u8>>
    decreases items.len(),
{
    if items.len() == 0 {
        entries
    } else {
        spec_intern(spec_intern_all(entries, items.drop_last()), items.last())
    }
}

/// Link-time keys of a function: each constant's bytes followed by its index, then its strings.
pub open spec fn fn_link_items(f: FnModel) -> Seq<Seq<u8>> {
    Seq::new(f.consts.len(), |i: int| i64_bytes(f.consts[i]) + u32_bytes(i as u32)) + utf8_items(f.strings)
}

/// Link-time keys of a module, function by function.
pub open spec fn link_items(fs: Seq<FnModel>) -> Seq<Seq<u8>>
    decreases fs.len(),
{
    if fs.len() == 0 { Seq::empty() } else { link_items(fs.drop_last()) + fn_link_items(fs.last()) }
}

proof fn lemma_intern_all_len(entries: Seq<Seq<u8>>, items: Seq<Seq<u8>>)
    ensures
        spec_intern_all(entries, items).len() <= entries.len() + items.len(),
    decreases items.len(),
{
    if items.len() > 0 {
        lemma_intern_all_len(entries, items.drop_last());
    }
}

proof fn lemma_intern_all_push(entries: Seq<Seq<u8>>, items: Seq<Seq<u8>>, x: Seq<u8>)
    ensures
        spec_intern_all(entries, items.push(x)) == spec_intern(spec_intern_all(entries, items), x),
{
    assert(items.push(x).drop_last() =~= items);
}

fn intern_checked(pool: &mut InternPool, data: &[u8], ghost_items: Ghost<Seq<Seq<u8>>>)
    requires
        old(pool).wf(),
        old(pool).spec_entries() == spec_intern_all(Seq::empty(), ghost_items@),
        ghost_items@.len() + 1 < u32::MAX,
    ensures
        final(pool).wf(),
        final(pool).spec_entries() == spec_intern_all(Seq::empty(), ghost_items@.push(data@)),
{
    proof {
        lemma_intern_all_len(Seq::empty(), ghost_items@);
        lemma_intern_all_push(Seq::empty(), ghost_items@, data@);
    }
    let _ = pool.intern(data);
}

/// Interns every constant (its bytes and index) and string of every function.
pub fn link_module(m: &Module) -> (r: Result<InternPool>)
    requires
        link_items(m@).len() + 1 < u32::MAX,
    ensures
        r matches Ok(pool) ==> pool.wf() && pool.spec_entries() == spec_intern_all(Seq::empty(), link_items(m@))
            && pool.spec_entries().len() <= 65536,
        r is Err <==> spec_intern_all(Seq::empty(), link_items(m@)).len() > 65536,
        r matches Err(e) ==> e == Error::VerifyFailed("intern overflow"),
{
    let mut pool = InternPool::new();
    let ghost mut items: Seq<Seq<u8>> = Seq::empty();
    let mut fi: usize = 0;
    while fi < m.functions.len()
        invariant
            fi <= m.functions@.len(),
            pool.wf(),
            items == link_items(m@.subrange(0, fi as int)),
            pool.spec_entries() == spec_intern_all(Seq::empty(), items),
            link_items(m@).len() + 1 < u32::MAX,
        decreases m.functions@.len() - fi,
    {
        let f = &m.functions[fi];
        let ghost start = items;
        proof {
            lemma_link_items_prefix(m@, fi as int + 1);
        }
        let mut i: usize = 0;
        while i < f.consts.len()
            invariant
                i <= f.consts@.len(),
                pool.wf(),
                items == start + fn_link_items(f@).subrange(0, i as int),
                pool.spec_entries() == spec_intern_all(Seq::empty(), items),
                start + fn_link_items(f@) == link_items(m@.subrange(0, fi + 1)),
                link_items(m@.subrange(0, fi + 1)).len() <= link_items(m@).len(),
                link_items(m@).len() + 1 < u32::MAX,
            decreases f.consts@.len() - i,
        {
            let mut buf: Vec<u8> = Vec::new();
            push_i64(&mut buf, f.consts[i]);
            push_u32(&mut buf, i as u32);
            intern_checked(&mut pool, buf.as_slice(), Ghost(items));
            proof {
                assert(fn_link_items(f@)[i as int] == buf@);
                assert(fn_link_items(f@).subrange(0, i + 1) =~= fn_link_items(f@).subrange(0, i as int).push(buf@));
                items = items.push(buf@);
            }
            i += 1;
        }
        let mut j: usize = 0;
        while j < f.string_pool.len()
            invariant
                j <= f.string_pool@.len(),
                pool.wf(),
                items == start + fn_link_items(f@).subrange(0, f.consts@.len() + j),
                pool.spec_entries() == spec_intern_all(Seq::empty(), items),
                start + fn_link_items(f@) == link_items(m@.subrange(0, fi + 1)),
                link_items(m@.subrange(0, fi + 1)).len() <= link_items(m@).len(),
                link_items(m@).len() + 1 < u32::MAX,
            decreases f.string_pool@.len() - j,
        {
            let b = f.string_pool[j].as_str().as_bytes();
            intern_checked(&mut pool, b, Ghost(items));
            proof {
                assert(fn_link_items(f@)[f.consts@.len() + j] == b@);
                assert(fn_link_items(f@).subrange(0, f.consts@.len() + j + 1)
                    =~= fn_link_items(f@).subrange(0, f.consts@.len() + j).push(b@));
                items = items.push(b@);
            }
            j += 1;
        }
        proof {
            assert(fn_link_items(f@).subrange(0, f.consts@.len() + j) =~= fn_link_items(f@));
        }
        fi += 1;
    }
    assert(m@.subrange(0, m@.len() as int) =~= m@);
    if pool.len() > 65536 {
        return Err(Error::VerifyFailed("intern overflow"));
    }
    Ok(pool)
}

proof fn lemma_link_items_prefix(fs: Seq<FnModel>, k: int)
    requires
        0 < k <= fs.len(),
    ensures
        link_items(fs.subrange(0, k)) == link_items(fs.subrange(0, k - 1)) + fn_link_items(fs[k - 1]),
        link_items(fs.subrange(0, k)).len() <= link_items(fs).len(),
    decreases fs.len(),
{
    assert(fs.subrange(0, k).drop_last() =~= fs.subrange(0, k - 1));
    if k < fs.len() {
        lemma_link_items_prefix(fs.drop_last(), k);
        assert(fs.drop_last().subrange(0, k) =~= fs.subrange(0, k));
        assert(fs.drop_last().subrange(0, k - 1) =~= fs.subrange(0, k - 1));
    } else {
        assert(fs.subrange(0, k) =~= fs);
    }
}

pub fn link_module_unit(m: &Module) -> (r: Result<()>)
    requires
        link_items(m@).len() + 1 < u32::MAX,
    ensures
        r is Err <==> spec_intern_all(Seq::empty(), link_items(m@)).len() > 65536,
        r matches Err(e) ==> e == Error::VerifyFailed("intern overflow"),
{
    let _ = link_module(m)?;
    Ok(())
}

} // verus!
