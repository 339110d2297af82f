//! Relocation records for jump lowering and multi-function linking.
use vstd::prelude::*;
use crate::bytes::u32_bytes;

verus! {

#[derive(Clone, Copy, Debug, PartialEq, Eq)]
pub enum RelocKind {
    JumpI8,
    FuncIndex,
    ConstIndex,
    StringIndex,
}

#[derive(Clone, Copy, Debug)]
pub struct Reloc {
    pub at: u32,
    pub kind: RelocKind,
    pub symbol: u32,
}

#[derive(Clone, Debug, Default)]
pub struct RelocTable {
    pub entries: Vec<Reloc>,
}

impl RelocTable {
    /// Records a relocation; the offset is kept as its low 32 bits.
    pub fn push(&mut self, at: usize, kind: RelocKind, symbol: u32)
        ensures
            final(self).entries@ == old(self).entries@.push(Reloc { at: at as u32, kind, symbol }),
    {
        self.entries.push(Reloc { at: at as u32, kind, symbol });
    }

    /// The jump relocations, in order.
    pub fn jumps(&self) -> (r: Vec<Reloc>)
        ensures
            r@ == self.entries@.filter(|e: Reloc| e.kind == RelocKind::JumpI8),
    {
        let mut out: Vec<Reloc> = Vec::new();
        let mut i: usize = 0;
        while i < self.entries.len()
            invariant
                i <= self.entries@.len(),
                out@ == self.entries@.subrange(0, i as int).filter(|e: Reloc| e.kind == RelocKind::JumpI8),
            decreases self.entries@.len() - i,
        {
            let e = self.entries[i];
            proof {
                reveal_with_fuel(Seq::filter, 1);
                assert(self.entries@.subrange(0, i + 1).drop_last() =~= self.entries@.subrange(0, i as int));
            }
            if matches!(e.kind, RelocKind::JumpI8) {
                out.push(e);
            }
            i += 1;
        }
        assert(self.entries@.subrange(0, self.entries@.len() as int) =~= self.entries@);
        out
    }

    pub fn len(&self) -> (r: usize)
        ensures
            r == self.entries@.len(),
    {
        self.entries.len()
    }

    pub fn is_empty(&self) -> (r: bool)
        ensures
            r == (self.entries@.len() == 0),
    {
        self.entries.len() == 0
    }
}

/// Jump-fixup trailer record: the offset, then the absolute target, little-endian.
pub fn encode_tag_jump(at: u32, target: u32) -> (r: [u8; 8])
    ensures
        r@ == u32_bytes(at) + u32_bytes(target),
{
    let r = [
        (at % 256) as u8,
        ((at / 256) % 256) as u8,
        ((at / 65536) % 256) as u8,
        (at / 16777216) as u8,
        (target % 256) as u8,
        ((target / 256) % 256) as u8,
        ((target / 65536) % 256) as u8,
        (target / 16777216) as u8,
    ];
    assert(r@ =~= u32_bytes(at) + u32_bytes(target));
    r
}

} // verus!
