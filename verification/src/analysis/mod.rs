//! Block-level scoring analyses over a function's control-flow graph.
use vstd::prelude::*;
use crate::cfg;
use crate::cfg::{BlockModel, blocks_view, spec_blocks};
use crate::module::{Function, strings_view};
use crate::text::{dec_int, dec_nat, list_text, push_dec, push_int, push_usize_list};

pub mod escape;
pub mod folding;

verus! {

/// Bytes covered by a block, zero when its range is inverted.
pub open spec fn block_span(b: BlockModel) -> int {
    if b.start <= b.end { b.end - b.start } else { 0 }
}

/// `x` clamped to the range of `i32`.
pub open spec fn clamp_i32(x: int) -> i32 {
    if x > i32::MAX {
        i32::MAX
    } else if x < i32::MIN {
        i32::MIN
    } else {
        x as i32
    }
}

/// Whether one plus the edge count of every block fits in an `i32`.
pub open spec fn edge_counts_fit(g: Seq<BlockModel>) -> bool {
    forall|b: int| 0 <= b < g.len() ==> 1 + (#[trigger] g[b]).succs.len() + g[b].preds.len() <= i32::MAX
}

/// Weight of a block: its span (wrapped to 32 bits) times one plus its edge count, saturated.
pub open spec fn block_weight(b: BlockModel) -> i32 {
    clamp_i32((block_span(b) as i32) * (1 + b.succs.len() + b.preds.len()))
}

/// Weight of each block, in block order.
pub open spec fn weights_of(g: Seq<BlockModel>) -> Seq<i32> {
    Seq::new(g.len(), |i: int| block_weight(g[i]))
}

/// Whether entry `a` comes before entry `b` in a ranking: heavier first, then lower index.
pub open spec fn ranks_before(a: (usize, i32), b: (usize, i32)) -> bool {
    a.1 > b.1 || (a.1 == b.1 && a.0 < b.0)
}

/// `r` lists each (index, weight) of `w` once, heaviest first, equal weights by index.
pub open spec fn is_ranking(w: Seq<i32>, r: Seq<(usize, i32)>) -> bool {
    &&& r.len() == w.len()
    &&& forall|i: int| 0 <= i < r.len() ==> (#[trigger] r[i]).0 < w.len() && r[i].1 == w[r[i].0 as int]
    &&& forall|i: int, j: int| 0 <= i < j < r.len() ==> ranks_before(#[trigger] r[i], #[trigger] r[j])
}

/// Indices of the first `k` entries of a ranking (all of them when there are fewer).
pub open spec fn first_indices(r: Seq<(usize, i32)>, k: nat) -> Seq<usize> {
    Seq::new(if k < r.len() { k } else { r.len() }, |i: int| r[i].0)
}

/// `nblocks * base + code_len + offset` in wrapping 64-bit arithmetic.
pub open spec fn metric_value(nblocks: nat, code_len: nat, base: i64, offset: i64) -> i64 {
    (nblocks as i64).wrapping_mul(base).wrapping_add(code_len as i64).wrapping_add(offset)
}

/// One-line summary: `<name> score=<s> notes=<n> hot=[..]`.
pub open spec fn summary_text(name: Seq<char>, score: int, nnotes: nat, hot: Seq<usize>) -> Seq<char> {
    name + " score="@ + dec_int(score) + " notes="@ + dec_nat(nnotes) + " hot="@ + list_text(hot)
}

/// The note lines of an explanation, each as `  - <note>` and a newline.
pub open spec fn note_lines(notes: Seq<Seq<char>>) -> Seq<char>
    decreases notes.len(),
{
    if notes.len() == 0 {
        Seq::empty()
    } else {
        note_lines(notes.drop_last()) + "  - "@ + notes.last() + "\n"@
    }
}

/// Multi-line explanation: `<name> total=<s>` then one line per note.
pub open spec fn explain_text(name: Seq<char>, score: int, notes: Seq<Seq<char>>) -> Seq<char> {
    name + " total="@ + dec_int(score) + "\n"@ + note_lines(notes)
}

/// `a * b`, saturated to the range of `i32`.
pub fn sat_mul_i32(a: i32, b: i32) -> (r: i32)
    ensures
        r == clamp_i32(a * b),
{
    assert(-0x4000_0000_0000_0000 <= (a as int) * (b as int) <= 0x4000_0000_0000_0000) by (nonlinear_arith)
        requires
            -0x8000_0000 <= a < 0x8000_0000,
            -0x8000_0000 <= b < 0x8000_0000,
    ;
    let p: i64 = (a as i64) * (b as i64);
    if p > 0x7fff_ffff {
        i32::MAX
    } else if p < -0x8000_0000 {
        i32::MIN
    } else {
        p as i32
    }
}

/// Weight of each block of the function's graph, in block order.
pub fn weights_of_blocks(f: &Function) -> (r: Vec<i32>)
    requires
        edge_counts_fit(spec_blocks(f.code@)),
    ensures
        r@ == weights_of(spec_blocks(f.code@)),
{
    let g = cfg::build(f);
    let ghost gm = spec_blocks(f.code@);
    let mut out: Vec<i32> = Vec::new();
    let mut i: usize = 0;
    while i < g.blocks.len()
        invariant
            blocks_view(g.blocks@) == gm,
            edge_counts_fit(gm),
            i <= g.blocks@.len(),
            out@.len() == i,
            forall|j: int| 0 <= j < i ==> out@[j] == block_weight(gm[j]),
        decreases g.blocks@.len() - i,
    {
        let b = &g.blocks[i];
        assert(gm[i as int] == b@);
        let span = b.end.saturating_sub(b.start);
        let edges: i32 = 1 + b.succs.len() as i32 + b.preds.len() as i32;
        out.push(sat_mul_i32(span as i32, edges));
        i += 1;
    }
    assert(out@ =~= weights_of(gm));
    out
}

/// Every (index, weight) of `w`, heaviest first; equal weights keep index order.
pub fn rank_weights(w: &Vec<i32>) -> (r: Vec<(usize, i32)>)
    ensures
        is_ranking(w@, r@),
{
    let mut out: Vec<(usize, i32)> = Vec::new();
    let mut i: usize = 0;
    while i < w.len()
        invariant
            i <= w@.len(),
            out@.len() == i,
            forall|k: int| 0 <= k < out@.len() ==> (#[trigger] out@[k]).0 < i && out@[k].1 == w@[out@[k].0 as int],
            forall|a: int, b: int| 0 <= a < b < out@.len() ==> ranks_before(#[trigger] out@[a], #[trigger] out@[b]),
        decreases w@.len() - i,
    {
        let wi = w[i];
        let mut p: usize = 0;
        while p < out.len() && out[p].1 >= wi
            invariant
                p <= out@.len(),
                forall|k: int| 0 <= k < p ==> (#[trigger] out@[k]).1 >= wi,
            decreases out@.len() - p,
        {
            p += 1;
        }
        let ghost old_out = out@;
        proof {
            assert forall|k: int| p <= k < old_out.len() implies (#[trigger] old_out[k]).1 < wi by {
                if k > p {
                    assert(ranks_before(old_out[p as int], old_out[k]));
                }
            }
        }
        out.insert(p, (i, wi));
        proof {
            let s = out@;
            assert(s.len() == old_out.len() + 1);
            assert forall|k: int| 0 <= k < s.len() implies (#[trigger] s[k]).0 < i + 1 && s[k].1 == w@[s[k].0 as int] by {
                if k < p {
                    assert(s[k] == old_out[k]);
                } else if k > p {
                    assert(s[k] == old_out[k - 1]);
                }
            }
            assert forall|a: int, b: int| 0 <= a < b < s.len() implies ranks_before(#[trigger] s[a], #[trigger] s[b]) by {
                if b < p {
                    assert(s[a] == old_out[a] && s[b] == old_out[b]);
                } else if b == p {
                    assert(s[a] == old_out[a]);
                } else if a < p {
                    assert(s[a] == old_out[a] && s[b] == old_out[b - 1]);
                    assert(ranks_before(old_out[a], old_out[b - 1]));
                } else if a == p {
                    assert(s[b] == old_out[b - 1]);
                } else {
                    assert(s[a] == old_out[a - 1] && s[b] == old_out[b - 1]);
                    assert(ranks_before(old_out[a - 1], old_out[b - 1]));
                }
            }
        }
        i += 1;
    }
    out
}

/// The indices of the first `k` entries of `ranked`.
pub fn take_indices(ranked: &Vec<(usize, i32)>, k: usize) -> (r: Vec<usize>)
    ensures
        r@ == first_indices(ranked@, k as nat),
{
    let n = if k < ranked.len() { k } else { ranked.len() };
    let mut out: Vec<usize> = Vec::new();
    let mut i: usize = 0;
    while i < n
        invariant
            n <= ranked@.len(),
            n == (if k < ranked@.len() { k as nat } else { ranked@.len() }),
            i <= n,
            out@.len() == i,
            forall|j: int| 0 <= j < i ==> out@[j] == ranked@[j].0,
        decreases n - i,
    {
        out.push(ranked[i].0);
        i += 1;
    }
    assert(out@ =~= first_indices(ranked@, k as nat));
    out
}

/// `nblocks * base + code_len + offset` over the function's graph, wrapping.
pub fn metric_of(f: &Function, base: i64, offset: i64) -> (r: i64)
    ensures
        r == metric_value(spec_blocks(f.code@).len(), f.code@.len(), base, offset),
{
    let g = cfg::build(f);
    assert(blocks_view(g.blocks@).len() == g.blocks@.len());
    (g.blocks.len() as i64).wrapping_mul(base).wrapping_add(f.code.len() as i64).wrapping_add(offset)
}

/// Renders `<name> score=<s> notes=<n> hot=[..]`.
pub fn render_summary(name: &str, score: i32, nnotes: usize, hot: &Vec<usize>) -> (r: String)
    ensures
        r@ == summary_text(name@, score as int, nnotes as nat, hot@),
{
    let mut s = String::new();
    s.append(name);
    s.append(" score=");
    push_int(&mut s, score as i64);
    s.append(" notes=");
    push_dec(&mut s, nnotes as u64);
    s.append(" hot=");
    push_usize_list(&mut s, hot.as_slice());
    s
}

/// Renders `<name> total=<s>` and a line per note.
pub fn render_explain(name: &str, score: i32, notes: &Vec<String>) -> (r: String)
    ensures
        r@ == explain_text(name@, score as int, strings_view(notes@)),
{
    let mut s = String::new();
    s.append(name);
    s.append(" total=");
    push_int(&mut s, score as i64);
    s.append("\n");
    let ghost head = s@;
    let mut i: usize = 0;
    assert(strings_view(notes@).subrange(0, 0) =~= Seq::<Seq<char>>::empty());
    while i < notes.len()
        invariant
            i <= notes@.len(),
            s@ == head + note_lines(strings_view(notes@).subrange(0, i as int)),
        decreases notes@.len() - i,
    {
        let ghost sv = strings_view(notes@);
        assert(sv.subrange(0, i + 1).drop_last() =~= sv.subrange(0, i as int));
        assert(sv.subrange(0, i + 1).last() == notes@[i as int]@);
        s.append("  - ");
        s.append(notes[i].as_str());
        s.append("\n");
        i += 1;
        assert(s@ =~= head + note_lines(sv.subrange(0, i as int)));
    }
    assert(strings_view(notes@).subrange(0, i as int) =~= strings_view(notes@));
    s
}

} // verus!
