//! Bump arena for transient analysis artifacts: zero-filled byte runs carved from chunks.
use vstd::prelude::*;

verus! {

/// Chunks of zeroed bytes, each with the capacity it was opened with.
pub struct Arena {
    chunks: Vec<Vec<u8>>,
    caps: Vec<usize>,
    chunk_size: usize,
}

/// Mathematical content of an arena: bytes used and capacity of each chunk, and the
/// capacity given to new chunks.
pub struct ArenaModel {
    pub used: Seq<nat>,
    pub caps: Seq<usize>,
    pub chunk_size: usize,
}

/// Sum of the entries.
pub open spec fn total(s: Seq<nat>) -> nat
    decreases s.len(),
{
    if s.len() == 0 {
        0
    } else {
        total(s.drop_last()) + s.last()
    }
}

/// Whether `n` more bytes fit in the last chunk.
pub open spec fn fits_last(a: ArenaModel, n: nat) -> bool {
    a.used.len() > 0 && a.used.last() + n <= a.caps.last()
}

/// The arena after allocating `n` bytes: in the last chunk when they fit, else in a new
/// chunk of capacity `max(chunk_size, n)`.
pub open spec fn after_alloc(a: ArenaModel, n: nat) -> ArenaModel {
    if fits_last(a, n) {
        ArenaModel { used: a.used.update(a.used.len() - 1, a.used.last() + n), ..a }
    } else {
        ArenaModel {
            used: a.used.push(n),
            caps: a.caps.push(if a.chunk_size >= n { a.chunk_size } else { n as usize }),
            ..a
        }
    }
}

/// Where an allocation of `n` bytes lands: (chunk, offset).
pub open spec fn alloc_site(a: ArenaModel, n: nat) -> (usize, usize) {
    if fits_last(a, n) {
        ((a.used.len() - 1) as usize, a.used.last() as usize)
    } else {
        (a.used.len() as usize, 0)
    }
}

/// Allocation carves a fresh run: the `n` bytes land in a chunk at an offset where nothing
/// was handed out before (the end of what that chunk already used, or a new chunk), fit
/// within that chunk's capacity, and the total handed out grows by exactly `n`; no other
/// chunk changes.
pub proof fn law_alloc_fresh_run(a: ArenaModel, n: nat)
    requires
        a.used.len() == a.caps.len(),
        forall|i: int| 0 <= i < a.used.len() ==> #[trigger] a.used[i] <= a.caps[i],
        n <= usize::MAX,
        a.used.len() < usize::MAX,
    ensures
        ({
            let (c, o) = alloc_site(a, n);
            let b = after_alloc(a, n);
            &&& b.used.len() == b.caps.len()
            &&& (c as int) < b.used.len()
            &&& b.used[c as int] == o + n
            &&& b.used[c as int] <= b.caps[c as int]
            &&& (c as int) < a.used.len() ==> o == a.used[c as int]
            &&& (c as int) == a.used.len() ==> o == 0
            &&& forall|i: int| 0 <= i < a.used.len() && i != c ==> #[trigger] b.used[i] == a.used[i]
            &&& total(b.used) == total(a.used) + n
        }),
{
    let b = after_alloc(a, n);
    if fits_last(a, n) {
        let k = a.used.len() - 1;
        assert(b.used.drop_last() =~= a.used.drop_last());
    } else {
        assert(b.used.drop_last() =~= a.used);
    }
}

impl View for Arena {
    type V = ArenaModel;

    closed spec fn view(&self) -> ArenaModel {
        ArenaModel {
            used: self.chunks@.map_values(|c: Vec<u8>| c@.len()),
            caps: self.caps@,
            chunk_size: self.chunk_size,
        }
    }
}

impl Arena {
    /// Chunks and capacities correspond, and every byte handed out is zero.
    pub closed spec fn wf(&self) -> bool {
        &&& self.chunks@.len() == self.caps@.len()
        &&& forall|i: int, j: int| 0 <= i < self.chunks@.len() && 0 <= j < self.chunks@[i]@.len()
            ==> #[trigger] self.chunks@[i]@[j] == 0u8
    }

    /// An arena with one empty chunk of capacity `chunk_size`.
    pub fn with_chunk(chunk_size: usize) -> (r: Self)
        ensures
            r.wf(),
            r@.used == seq![0nat],
            r@.caps == seq![chunk_size],
            r@.chunk_size == chunk_size,
    {
        let mut chunks: Vec<Vec<u8>> = Vec::new();
        chunks.push(Vec::new());
        let mut caps: Vec<usize> = Vec::new();
        caps.push(chunk_size);
        let r = Arena { chunks, caps, chunk_size };
        assert(r@.used =~= seq![0nat]);
        assert(r@.caps =~= seq![chunk_size]);
        r
    }

    /// Carves `n` zeroed bytes: from the last chunk when they fit, else from a new chunk of
    /// capacity `max(chunk_size, n)`; returns (chunk, offset) of the run.
    pub fn alloc_bytes(&mut self, n: usize) -> (r: (usize, usize))
        requires
            old(self).wf(),
            old(self)@.used.len() > 0 ==> old(self)@.used.last() + n <= usize::MAX,
        ensures
            final(self).wf(),
            final(self)@ == after_alloc(old(self)@, n as nat),
            r == alloc_site(old(self)@, n as nat),
    {
        let ghost a = self@;
        let k = self.chunks.len();
        let need_new = if k == 0 {
            true
        } else {
            self.chunks[k - 1].len() + n > self.caps[k - 1]
        };
        if need_new {
            let cap = if self.chunk_size >= n { self.chunk_size } else { n };
            self.chunks.push(Vec::new());
            self.caps.push(cap);
            proof {
                let c = self.chunks@;
                assert forall|i: int, j: int| 0 <= i < c.len() && 0 <= j < c[i]@.len() implies #[trigger] c[i]@[j]
                    == 0u8 by {
                    assert(i < k);
                    assert(c[i] == old(self).chunks@[i]);
                }
            }
        }
        let last = self.chunks.len() - 1;
        let ghost cs = self.chunks@;
        assert(forall|j: int| 0 <= j < cs[last as int]@.len() ==> #[trigger] cs[last as int]@[j] == 0u8);
        let mut chunk = self.chunks.pop().unwrap();
        assert(chunk == cs[last as int]);
        let start = chunk.len();
        let mut t: usize = 0;
        while t < n
            invariant
                t <= n,
                chunk@.len() == start + t,
                forall|j: int| 0 <= j < chunk@.len() ==> chunk@[j] == 0u8,
            decreases n - t,
        {
            chunk.push(0);
            t += 1;
        }
        let ghost before = self.chunks@;
        self.chunks.push(chunk);
        proof {
            let c = self.chunks@;
            assert forall|i: int, j: int| 0 <= i < c.len() && 0 <= j < c[i]@.len() implies #[trigger] c[i]@[j]
                == 0u8 by {
                if i < before.len() {
                    assert(c[i] == before[i]);
                }
            }
            assert(self@.used =~= after_alloc(a, n as nat).used);
            assert(self@.caps =~= after_alloc(a, n as nat).caps);
        }
        (last, start)
    }

    /// Empties every chunk and keeps only the first (opening one if there is none).
    pub fn reset(&mut self)
        requires
            old(self).wf(),
        ensures
            final(self).wf(),
            final(self)@.chunk_size == old(self)@.chunk_size,
            old(self)@.caps.len() > 0 ==> final(self)@.caps == seq![old(self)@.caps[0]],
            old(self)@.caps.len() == 0 ==> final(self)@.caps == seq![old(self)@.chunk_size],
            final(self)@.used == seq![0nat],
    {
        if self.chunks.len() == 0 {
            self.chunks.push(Vec::new());
            self.caps.push(self.chunk_size);
        } else {
            let first_cap = self.caps[0];
            self.chunks = Vec::new();
            self.chunks.push(Vec::new());
            self.caps = Vec::new();
            self.caps.push(first_cap);
        }
        assert(self@.used =~= seq![0nat]);
        proof {
            if old(self)@.caps.len() > 0 {
                assert(self@.caps =~= seq![old(self)@.caps[0]]);
            } else {
                assert(self@.caps =~= seq![old(self)@.chunk_size]);
            }
        }
    }

    /// Bytes handed out since the last reset.
    pub fn used(&self) -> (r: usize)
        requires
            total(self@.used) <= usize::MAX,
        ensures
            r == total(self@.used),
    {
        let ghost u = self@.used;
        let mut sum: usize = 0;
        let mut i: usize = 0;
        assert(u.subrange(0, 0) =~= Seq::<nat>::empty());
        while i < self.chunks.len()
            invariant
                u == self.chunks@.map_values(|c: Vec<u8>| c@.len()),
                total(u) <= usize::MAX,
                i <= u.len(),
                sum == total(u.subrange(0, i as int)),
            decreases u.len() - i,
        {
            assert(u.subrange(0, i + 1).drop_last() =~= u.subrange(0, i as int));
            proof {
                lemma_total_prefix(u, i + 1);
            }
            sum = sum + self.chunks[i].len();
            i += 1;
        }
        assert(u.subrange(0, i as int) =~= u);
        sum
    }
}

impl Default for Arena {
    fn default() -> (r: Self)
        ensures
            r.wf(),
            r@.used == seq![0nat],
            r@.caps == seq![4096usize],
            r@.chunk_size == 4096,
    {
        Arena::with_chunk(4096)
    }
}

proof fn lemma_total_prefix(s: Seq<nat>, k: int)
    requires
        0 <= k <= s.len(),
    ensures
        total(s.subrange(0, k)) <= total(s),
    decreases s.len() - k,
{
    if k < s.len() {
        lemma_total_prefix(s, k + 1);
        assert(s.subrange(0, k + 1).drop_last() =~= s.subrange(0, k));
    } else {
        assert(s.subrange(0, k) =~= s);
    }
}

} // verus!
