//! Object registry for deserialized and runtime objects: registration hands an object to
//! the registry, which keeps it until it is swept or unregistered.
use vstd::prelude::*;
use std::collections::HashMap;
use crate::error::{Error, Result};
use crate::value::Obj;

verus! {

broadcast use vstd::std_specs::hash::group_hash_axioms;

#[derive(Debug)]
pub struct Registry {
    /// Registered objects; an unregistered object leaves an empty slot.
    slots: Vec<Option<Obj>>,
    /// Last slot registered for each kind.
    by_kind: HashMap<u32, usize>,
    generation: u32,
}

/// Index of the last occupied slot holding an object of `kind`.
pub open spec fn last_of_kind(slots: Seq<Option<Obj>>, kind: u32) -> Option<usize>
    decreases slots.len(),
{
    if slots.len() == 0 {
        None
    } else if slots.last() matches Some(o) && o.kind == kind {
        Some((slots.len() - 1) as usize)
    } else {
        last_of_kind(slots.drop_last(), kind)
    }
}

/// The slot the kind index names is the last occupied slot holding that kind: it holds an
/// object of the kind and no later slot does; and when no slot is named, no occupied slot
/// holds the kind.
pub proof fn law_last_of_kind(slots: Seq<Option<Obj>>, kind: u32)
    requires
        slots.len() <= usize::MAX + 1,
    ensures
        last_of_kind(slots, kind) matches Some(i) ==> (i as int) < slots.len()
            && (slots[i as int] matches Some(o) && o.kind == kind)
            && forall|j: int| i < j < slots.len() ==> !(#[trigger] slots[j] matches Some(o) && o.kind == kind),
        last_of_kind(slots, kind) is None ==> forall|j: int| 0 <= j < slots.len()
            ==> !(#[trigger] slots[j] matches Some(o) && o.kind == kind),
    decreases slots.len(),
{
    if slots.len() > 0 {
        let p = slots.drop_last();
        law_last_of_kind(p, kind);
        assert forall|j: int| 0 <= j < p.len() implies #[trigger] slots[j] == p[j] by {}
    }
}

/// Number of occupied slots.
pub open spec fn live_count(slots: Seq<Option<Obj>>) -> nat
    decreases slots.len(),
{
    if slots.len() == 0 {
        0
    } else {
        live_count(slots.drop_last()) + if slots.last() is Some { 1nat } else { 0nat }
    }
}

/// The occupied slots whose mark is `keep`, in order.
pub open spec fn kept(slots: Seq<Option<Obj>>, keep: u32) -> Seq<Option<Obj>>
    decreases slots.len(),
{
    if slots.len() == 0 {
        Seq::empty()
    } else if slots.last() matches Some(o) && o.mark == keep {
        kept(slots.drop_last(), keep).push(slots.last())
    } else {
        kept(slots.drop_last(), keep)
    }
}

/// Sweeping keeps exactly the occupied slots whose mark is `keep`: every slot kept holds an
/// object so marked, every such object of the registry is kept, and nothing is added.
pub proof fn law_sweep_keeps_marked(slots: Seq<Option<Obj>>, keep: u32)
    ensures
        kept(slots, keep).len() <= slots.len(),
        forall|i: int| 0 <= i < kept(slots, keep).len() ==> (#[trigger] kept(slots, keep)[i] matches Some(o) && o.mark == keep)
            && slots.contains(kept(slots, keep)[i]),
        forall|j: int| 0 <= j < slots.len() && (#[trigger] slots[j] matches Some(o) && o.mark == keep)
            ==> kept(slots, keep).contains(slots[j]),
    decreases slots.len(),
{
    if slots.len() > 0 {
        let p = slots.drop_last();
        law_sweep_keeps_marked(p, keep);
        let kp = kept(p, keep);
        let k = kept(slots, keep);
        assert forall|i: int| 0 <= i < k.len() implies (#[trigger] k[i] matches Some(o) && o.mark == keep)
            && slots.contains(k[i]) by {
            if i < kp.len() {
                assert(k[i] == kp[i]);
                let j = choose|j: int| 0 <= j < p.len() && p[j] == kp[i];
                assert(slots[j] == p[j]);
            } else {
                assert(k[i] == slots.last());
                assert(slots[slots.len() - 1] == slots.last());
            }
        }
        assert forall|j: int| 0 <= j < slots.len() && (#[trigger] slots[j] matches Some(o) && o.mark == keep)
            implies k.contains(slots[j]) by {
            if j < p.len() {
                assert(slots[j] == p[j]);
                let t = choose|t: int| 0 <= t < kp.len() && kp[t] == p[j];
                assert(k[t] == kp[t]);
            } else {
                assert(k[k.len() - 1] == slots[j]);
            }
        }
    }
}

/// Every occupied slot with its mark set to `mark`.
pub open spec fn all_marked(slots: Seq<Option<Obj>>, mark: u32) -> Seq<Option<Obj>> {
    Seq::new(slots.len(), |i: int| match slots[i] {
        Some(o) => Some(Obj { mark, ..o }),
        None => None,
    })
}

impl Registry {
    /// The slots, in registration order.
    pub closed spec fn spec_slots(&self) -> Seq<Option<Obj>> {
        self.slots@
    }

    /// Registrations so far (wrapping).
    pub closed spec fn spec_generation(&self) -> u32 {
        self.generation
    }

    /// The kind index names, for each kind, its last occupied slot.
    pub closed spec fn wf(&self) -> bool {
        forall|k: u32| #[trigger] self.by_kind@.contains_key(k) == (last_of_kind(self.slots@, k) is Some)
            && (self.by_kind@.contains_key(k) ==> self.by_kind@[k] == last_of_kind(self.slots@, k)->0)
    }

    pub fn new() -> (r: Self)
        ensures
            r.wf(),
            r.spec_slots() == Seq::<Option<Obj>>::empty(),
            r.spec_generation() == 0,
    {
        Registry { slots: Vec::new(), by_kind: HashMap::new(), generation: 0 }
    }

    pub fn len(&self) -> (r: usize)
        ensures
            r == self.spec_slots().len(),
    {
        self.slots.len()
    }

    pub fn is_empty(&self) -> (r: bool)
        ensures
            r == (self.spec_slots().len() == 0),
    {
        self.slots.len() == 0
    }

    pub fn generation(&self) -> (r: u32)
        ensures
            r == self.spec_generation(),
    {
        self.generation
    }

    /// A new object of `kind`, unmarked.
    pub fn alloc_obj(kind: u32) -> (r: Box<Obj>)
        ensures
            *r == (Obj { kind, mark: 0 }),
    {
        Box::new(Obj { kind, mark: 0 })
    }

    /// Takes `obj` into a new slot; its index.
    pub fn register(&mut self, obj: Box<Obj>) -> (r: usize)
        requires
            old(self).wf(),
        ensures
            final(self).wf(),
            r == old(self).spec_slots().len(),
            final(self).spec_slots() == old(self).spec_slots().push(Some(*obj)),
            final(self).spec_generation() == old(self).spec_generation().wrapping_add(1),
    {
        let o = *obj;
        let idx = self.slots.len();
        let ghost before = self.slots@;
        self.slots.push(Some(o));
        self.by_kind.insert(o.kind, idx);
        self.generation = self.generation.wrapping_add(1);
        proof {
            assert(self.slots@.drop_last() =~= before);
            assert forall|k: u32| #[trigger] self.by_kind@.contains_key(k) == (last_of_kind(self.slots@, k) is Some)
                && (self.by_kind@.contains_key(k) ==> self.by_kind@[k] == last_of_kind(self.slots@, k)->0) by {
                if k != o.kind {
                    assert(old(self).by_kind@.contains_key(k) == (last_of_kind(before, k) is Some));
                }
            }
        }
        idx
    }

    /// The object in slot `idx`, if any.
    pub fn get(&self, idx: usize) -> (r: Option<&Obj>)
        ensures
            r is Some <==> idx < self.spec_slots().len() && self.spec_slots()[idx as int] is Some,
            r matches Some(o) ==> self.spec_slots()[idx as int] == Some(*o),
    {
        if idx < self.slots.len() {
            match &self.slots[idx] {
                Some(o) => Some(o),
                None => None,
            }
        } else {
            None
        }
    }

    /// The object in an occupied slot, to update in place; `None` when the slot is missing
    /// or empty. The kind index is not touched: it stays right as long as the object keeps
    /// its kind.
    pub fn get_mut(&mut self, idx: usize) -> (r: Option<&mut Obj>)
        requires
            old(self).wf(),
        ensures
            r is Some <==> idx < old(self).spec_slots().len() && old(self).spec_slots()[idx as int] is Some,
            r is None ==> final(self).spec_slots() == old(self).spec_slots() && final(self).wf(),
            r is Some ==> Some(*r.unwrap()) == old(self).spec_slots()[idx as int]
                && final(self).spec_slots() == old(self).spec_slots().update(idx as int, Some(*final(r.unwrap()))),
            r is Some && (*final(r.unwrap())).kind == (*r.unwrap()).kind ==> final(self).wf(),
            final(self).spec_generation() == old(self).spec_generation(),
    {
        if idx >= self.slots.len() {
            return None;
        }
        if self.slots[idx].is_none() {
            return None;
        }
        proof {
            let o = self.slots@[idx as int]->Some_0;
            assert forall|o2: Obj| o2.kind == o.kind implies forall|k: u32|
                #[trigger] last_of_kind(self.slots@.update(idx as int, Some(o2)), k) == last_of_kind(self.slots@, k) by {
                assert forall|k: u32| #[trigger] last_of_kind(self.slots@.update(idx as int, Some(o2)), k)
                    == last_of_kind(self.slots@, k) by {
                    lemma_last_of_kind_same_kind(self.slots@, idx as int, o2, k);
                }
            }
        }
        self.slots[idx].as_mut()
    }

    /// Replaces the object in an occupied slot; `false` (and no change) when the slot is
    /// missing or empty.
    pub fn set(&mut self, idx: usize, obj: Obj) -> (r: bool)
        requires
            old(self).wf(),
        ensures
            final(self).wf(),
            r == (idx < old(self).spec_slots().len() && old(self).spec_slots()[idx as int] is Some),
            r ==> final(self).spec_slots() == old(self).spec_slots().update(idx as int, Some(obj)),
            !r ==> final(self).spec_slots() == old(self).spec_slots(),
            final(self).spec_generation() == old(self).spec_generation(),
    {
        if idx >= self.slots.len() {
            return false;
        }
        if self.slots[idx].is_none() {
            return false;
        }
        self.slots.set(idx, Some(obj));
        self.rebuild_index();
        true
    }

    /// Last slot holding an object of `kind`.
    pub fn find_kind(&self, kind: u32) -> (r: Option<usize>)
        requires
            self.wf(),
        ensures
            r == last_of_kind(self.spec_slots(), kind),
    {
        match self.by_kind.get(&kind) {
            Some(i) => Some(*i),
            None => None,
        }
    }

    /// Sets the mark of every registered object.
    pub fn mark_all(&mut self, mark: u32)
        requires
            old(self).wf(),
        ensures
            final(self).wf(),
            final(self).spec_slots() == all_marked(old(self).spec_slots(), mark),
            final(self).spec_generation() == old(self).spec_generation(),
    {
        let ghost orig = self.slots@;
        let mut i: usize = 0;
        while i < self.slots.len()
            invariant
                i <= self.slots@.len(),
                self.slots@.len() == orig.len(),
                orig == old(self).slots@,
                self.generation == old(self).generation,
                forall|j: int| 0 <= j < orig.len() ==> #[trigger] self.slots@[j] == if j < i {
                    all_marked(orig, mark)[j]
                } else {
                    orig[j]
                },
            decreases orig.len() - i,
        {
            match self.slots[i] {
                Some(o) => {
                    self.slots.set(i, Some(Obj { kind: o.kind, mark }));
                },
                None => {},
            }
            i += 1;
        }
        assert(self.slots@ =~= all_marked(orig, mark));
        self.rebuild_index();
    }

    /// Drops every object whose mark is not `keep`, and the empty slots; the others keep
    /// their order.
    pub fn sweep_unmarked(&mut self, keep: u32)
        requires
            old(self).wf(),
        ensures
            final(self).wf(),
            final(self).spec_slots() == kept(old(self).spec_slots(), keep),
            final(self).spec_generation() == old(self).spec_generation(),
    {
        let ghost orig = self.slots@;
        let mut out: Vec<Option<Obj>> = Vec::new();
        let mut i: usize = 0;
        assert(orig.subrange(0, 0) =~= Seq::<Option<Obj>>::empty());
        while i < self.slots.len()
            invariant
                i <= self.slots@.len(),
                self.slots@ == orig,
                out@ == kept(orig.subrange(0, i as int), keep),
            decreases orig.len() - i,
        {
            assert(orig.subrange(0, i + 1).drop_last() =~= orig.subrange(0, i as int));
            match self.slots[i] {
                Some(o) => {
                    if o.mark == keep {
                        out.push(Some(o));
                    }
                },
                None => {},
            }
            i += 1;
        }
        assert(orig.subrange(0, i as int) =~= orig);
        self.slots = out;
        self.rebuild_index();
    }

    /// Recomputes the kind index from the slots.
    fn rebuild_index(&mut self)
        ensures
            final(self).wf(),
            final(self).slots == old(self).slots,
            final(self).generation == old(self).generation,
    {
        self.by_kind.clear();
        let mut i: usize = 0;
        assert(self.slots@.subrange(0, 0) =~= Seq::<Option<Obj>>::empty());
        while i < self.slots.len()
            invariant
                i <= self.slots@.len(),
                self.slots == old(self).slots,
                self.generation == old(self).generation,
                forall|k: u32| #[trigger] self.by_kind@.contains_key(k)
                    == (last_of_kind(self.slots@.subrange(0, i as int), k) is Some)
                    && (self.by_kind@.contains_key(k) ==> self.by_kind@[k]
                    == last_of_kind(self.slots@.subrange(0, i as int), k)->0),
            decreases self.slots@.len() - i,
        {
            let ghost pre = self.slots@.subrange(0, i as int);
            assert(self.slots@.subrange(0, i + 1).drop_last() =~= pre);
            match self.slots[i] {
                Some(o) => {
                    self.by_kind.insert(o.kind, i);
                },
                None => {},
            }
            i += 1;
        }
        assert(self.slots@.subrange(0, i as int) =~= self.slots@);
    }

    /// Takes the object out of slot `idx`, leaving the slot empty.
    pub fn unregister(&mut self, idx: usize) -> (r: Option<Box<Obj>>)
        requires
            old(self).wf(),
        ensures
            final(self).wf(),
            final(self).spec_generation() == old(self).spec_generation(),
            match (if idx < old(self).spec_slots().len() { old(self).spec_slots()[idx as int] } else { None }) {
                Some(o) => r matches Some(b) && *b == o
                    && final(self).spec_slots() == old(self).spec_slots().update(idx as int, None),
                None => r is None && final(self).spec_slots() == old(self).spec_slots(),
            },
    {
        if idx >= self.slots.len() {
            return None;
        }
        match self.slots[idx] {
            None => None,
            Some(o) => {
                self.slots.set(idx, None);
                self.rebuild_index();
                Some(Box::new(o))
            },
        }
    }

    /// (occupied slots, registrations).
    pub fn stats(&self) -> (r: (usize, u32))
        ensures
            r.0 == live_count(self.spec_slots()),
            r.1 == self.spec_generation(),
    {
        let mut n: usize = 0;
        let mut i: usize = 0;
        assert(self.slots@.subrange(0, 0) =~= Seq::<Option<Obj>>::empty());
        while i < self.slots.len()
            invariant
                i <= self.slots@.len(),
                n == live_count(self.slots@.subrange(0, i as int)),
                n <= i,
            decreases self.slots@.len() - i,
        {
            assert(self.slots@.subrange(0, i + 1).drop_last() =~= self.slots@.subrange(0, i as int));
            if self.slots[i].is_some() {
                n += 1;
            }
            i += 1;
        }
        assert(self.slots@.subrange(0, i as int) =~= self.slots@);
        (n, self.generation)
    }
}

impl Default for Registry {
    fn default() -> (r: Self)
        ensures
            r.wf(),
            r.spec_slots() == Seq::<Option<Obj>>::empty(),
            r.spec_generation() == 0,
    {
        Self::new()
    }
}

/// A new object of `kind`, unmarked.
pub fn alloc_obj(kind: u32) -> (r: Box<Obj>)
    ensures
        *r == (Obj { kind, mark: 0 }),
{
    Registry::alloc_obj(kind)
}

/// Kinds 0 and 0xFFFF_FFFE are reserved.
pub fn validate_kind(kind: u32) -> (r: Result<()>)
    ensures
        (kind == 0 || kind == 0xFFFF_FFFE) ==> r == Err::<(), Error>(Error::DeserFailed("reserved kind")),
        !(kind == 0 || kind == 0xFFFF_FFFE) ==> r is Ok,
{
    if kind == 0 || kind == 0xFFFF_FFFE {
        return Err(Error::DeserFailed("reserved kind"));
    }
    Ok(())
}

/// Marks fit in 24 bits.
pub fn validate_mark(mark: u32) -> (r: Result<()>)
    ensures
        mark > 0x00FF_FFFF ==> r == Err::<(), Error>(Error::DeserFailed("mark out of range")),
        mark <= 0x00FF_FFFF ==> r is Ok,
{
    if mark > 0x00FF_FFFF {
        return Err(Error::DeserFailed("mark out of range"));
    }
    Ok(())
}

/// Size class of a kind: 1 for 1..=15, 2 for 16..=255, 3 for 256..=0xFFFF, 4 otherwise.
pub fn kind_class(kind: u32) -> (r: u8)
    ensures
        r == (if 1 <= kind <= 15 { 1u8 } else if 16 <= kind <= 255 { 2u8 } else if 256 <= kind <= 0xFFFF { 3u8 } else { 4u8 }),
{
    if 1 <= kind && kind <= 15 {
        1
    } else if 16 <= kind && kind <= 255 {
        2
    } else if 256 <= kind && kind <= 0xFFFF {
        3
    } else {
        4
    }
}

/// `a * b`, or `usize::MAX` when that does not fit.
pub open spec fn sat_mul(a: int, b: int) -> int {
    if a * b > usize::MAX { usize::MAX as int } else { a * b }
}

/// `a + b`, or `usize::MAX` when that does not fit.
pub open spec fn sat_add(a: int, b: int) -> int {
    if a + b > usize::MAX { usize::MAX as int } else { a + b }
}

/// Bytes estimated for `n_nodes` objects with `avg_children` 8-byte edges each (saturating).
pub fn estimate_graph_bytes(n_nodes: usize, avg_children: usize) -> (r: usize)
    ensures
        r == sat_add(sat_mul(n_nodes as int, vstd::layout::size_of::<Obj>() as int),
            sat_mul(sat_mul(n_nodes as int, avg_children as int), 8)),
{
    let obj = std::mem::size_of::<Obj>();
    let a = mul_saturating(n_nodes, obj);
    let b = mul_saturating(mul_saturating(n_nodes, avg_children), 8);
    add_saturating(a, b)
}

/// `a * b`, saturating at `usize::MAX`.
pub fn mul_saturating(a: usize, b: usize) -> (r: usize)
    ensures
        r == sat_mul(a as int, b as int),
{
    match a.checked_mul(b) {
        Some(v) => v,
        None => usize::MAX,
    }
}

/// `a + b`, saturating at `usize::MAX`.
pub fn add_saturating(a: usize, b: usize) -> (r: usize)
    ensures
        r == sat_add(a as int, b as int),
{
    match a.checked_add(b) {
        Some(v) => v,
        None => usize::MAX,
    }
}


/// Replacing an object by one of the same kind leaves the last slot of every kind as it was.
proof fn lemma_last_of_kind_same_kind(slots: Seq<Option<Obj>>, i: int, o2: Obj, k: u32)
    requires
        0 <= i < slots.len(),
        slots[i] matches Some(o) && o.kind == o2.kind,
    ensures
        last_of_kind(slots.update(i, Some(o2)), k) == last_of_kind(slots, k),
    decreases slots.len(),
{
    let u = slots.update(i, Some(o2));
    if i == slots.len() - 1 {
        assert(u.drop_last() =~= slots.drop_last());
    } else {
        assert(u.drop_last() =~= slots.drop_last().update(i, Some(o2)));
        assert(u.last() == slots.last());
        lemma_last_of_kind_same_kind(slots.drop_last(), i, o2, k);
    }
}
} // verus!
