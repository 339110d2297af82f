//! Escape analysis for stack allocation: scores a function by how wide its frame is.
use vstd::prelude::*;
use crate::analysis::{
    edge_counts_fit, explain_text, first_indices, is_ranking, metric_of, metric_value, rank_weights,
    render_explain, render_summary, summary_text, take_indices, weights_of, weights_of_blocks,
};
use crate::cfg;
use crate::cfg::{blocks_view, spec_blocks};
use crate::module::{FnModel, Function, strings_view};

verus! {

#[derive(Clone, Debug, Default)]
pub struct EscapeReport {
    pub score: i32,
    pub notes: Vec<String>,
    pub hot_blocks: Vec<usize>,
}

/// The frame size read as a signed 32-bit value, divided by four and rounded toward zero.
pub open spec fn frame_quarter(frame_size: u32) -> int {
    if frame_size <= 0x7fff_ffff {
        frame_size as int / 4
    } else {
        -((0x1_0000_0000 - frame_size) / 4)
    }
}

/// What each block adds to the score: twice the local count plus a quarter of the frame.
pub open spec fn per_block(f: FnModel) -> int {
    2 * f.max_locals + frame_quarter(f.frame_size)
}

/// Number of blocks of the function's graph.
pub open spec fn block_count(f: FnModel) -> nat {
    spec_blocks(f.code).len()
}

/// The escape score: every block adds `per_block`.
pub open spec fn escape_score(f: FnModel) -> int {
    block_count(f) * per_block(f)
}

/// Whether the score fits in an `i32` (so no running total overflows).
pub open spec fn escape_fits(f: FnModel) -> bool {
    i32::MIN <= escape_score(f) <= i32::MAX
}

/// A frame with more than four locals is wide; each block of such a function is noted.
pub open spec fn escape_notes(f: FnModel) -> Seq<Seq<char>> {
    if f.max_locals > 4 {
        Seq::new(block_count(f), |i: int| "escape: wide frame"@)
    } else {
        Seq::empty()
    }
}

/// The blocks noted, in order.
pub open spec fn escape_hot(f: FnModel) -> Seq<usize> {
    if f.max_locals > 4 {
        Seq::new(block_count(f), |i: int| i as usize)
    } else {
        Seq::empty()
    }
}

/// The report of `analyze`.
pub open spec fn report_matches(r: EscapeReport, f: FnModel) -> bool {
    &&& r.score == escape_score(f)
    &&& strings_view(r.notes@) == escape_notes(f)
    &&& r.hot_blocks@ == escape_hot(f)
}

proof fn lemma_partial_between(i: int, n: int, c: int)
    requires
        0 <= i <= n,
    ensures
        (c >= 0 ==> 0 <= i * c <= n * c),
        (c < 0 ==> n * c <= i * c <= 0),
{
    assert(c >= 0 ==> 0 <= i * c <= n * c) by (nonlinear_arith)
        requires
            0 <= i <= n,
    ;
    assert(c < 0 ==> n * c <= i * c <= 0) by (nonlinear_arith)
        requires
            0 <= i <= n,
    ;
}

/// Scores the function: each block adds twice the local count plus a quarter of the
/// frame size; wide frames (more than four locals) note every block.
pub fn analyze(f: &Function) -> (r: EscapeReport)
    requires
        escape_fits(f@),
    ensures
        report_matches(r, f@),
{
    let g = cfg::build(f);
    let ghost n = block_count(f@);
    assert(blocks_view(g.blocks@).len() == g.blocks@.len());
    let locals = f.max_locals as i32;
    let quarter: i32 = if f.frame_size <= 0x7fff_ffff {
        (f.frame_size / 4) as i32
    } else {
        let m: u32 = (u32::MAX - f.frame_size) + 1;
        -((m / 4) as i32)
    };
    let per = locals * 2 + quarter;
    assert(per == per_block(f@));
    let mut score: i32 = 0;
    let mut notes: Vec<String> = Vec::new();
    let mut hot_blocks: Vec<usize> = Vec::new();
    let mut bi: usize = 0;
    while bi < g.blocks.len()
        invariant
            g.blocks@.len() == n,
            n == block_count(f@),
            escape_fits(f@),
            per == per_block(f@),
            locals == f.max_locals,
            bi <= n,
            score == bi * per,
            locals > 4 ==> strings_view(notes@) == Seq::new(bi as nat, |i: int| "escape: wide frame"@),
            locals > 4 ==> hot_blocks@ == Seq::new(bi as nat, |i: int| i as usize),
            locals <= 4 ==> notes@.len() == 0 && hot_blocks@.len() == 0,
        decreases n - bi,
    {
        proof {
            lemma_partial_between(bi + 1, n as int, per as int);
            assert((bi + 1) * (per as int) == bi * (per as int) + per) by (nonlinear_arith);
            assert(escape_score(f@) == (n as int) * (per as int));
            assert(i32::MIN <= (bi + 1) * (per as int) <= i32::MAX);
        }
        score = score + per;
        if locals > 4 {
            let note = String::from_str("escape: wide frame");
            let ghost sv = strings_view(notes@);
            notes.push(note);
            hot_blocks.push(bi);
            assert(strings_view(notes@) == sv.push("escape: wide frame"@));
            assert(strings_view(notes@) =~= Seq::new((bi + 1) as nat, |i: int| "escape: wide frame"@));
            assert(hot_blocks@ =~= Seq::new((bi + 1) as nat, |i: int| i as usize));
        }
        bi += 1;
    }
    let r = EscapeReport { score, notes, hot_blocks };
    proof {
        if locals <= 4 {
            assert(strings_view(r.notes@) =~= escape_notes(f@));
            assert(r.hot_blocks@ =~= escape_hot(f@));
        }
    }
    r
}

/// Whether the score exceeds twelve.
pub fn is_profitable(f: &Function) -> (r: bool)
    requires
        escape_fits(f@),
    ensures
        r == (escape_score(f@) > 12),
{
    analyze(f).score > 12
}

/// `escape score=<s> notes=<n> hot=[..]`.
pub fn summarize(f: &Function) -> (r: String)
    requires
        escape_fits(f@),
    ensures
        r@ == summary_text("escape"@, escape_score(f@), escape_notes(f@).len(), escape_hot(f@)),
{
    let r = analyze(f);
    assert(r.notes@.len() == strings_view(r.notes@).len());
    render_summary("escape", r.score, r.notes.len(), &r.hot_blocks)
}

pub fn metric_0(f: &Function) -> (r: i64)
    ensures
        r == metric_value(block_count(f@), f.code@.len(), 18, 25),
{
    metric_of(f, 18, 25)
}

pub fn metric_1(f: &Function) -> (r: i64)
    ensures
        r == metric_value(block_count(f@), f.code@.len(), 35, 26),
{
    metric_of(f, 35, 26)
}

pub fn metric_2(f: &Function) -> (r: i64)
    ensures
        r == metric_value(block_count(f@), f.code@.len(), 52, 29),
{
    metric_of(f, 52, 29)
}

pub fn metric_3(f: &Function) -> (r: i64)
    ensures
        r == metric_value(block_count(f@), f.code@.len(), 69, 34),
{
    metric_of(f, 69, 34)
}

pub fn metric_4(f: &Function) -> (r: i64)
    ensures
        r == metric_value(block_count(f@), f.code@.len(), 86, 41),
{
    metric_of(f, 86, 41)
}

pub fn metric_5(f: &Function) -> (r: i64)
    ensures
        r == metric_value(block_count(f@), f.code@.len(), 103, 50),
{
    metric_of(f, 103, 50)
}

pub fn metric_6(f: &Function) -> (r: i64)
    ensures
        r == metric_value(block_count(f@), f.code@.len(), 120, 61),
{
    metric_of(f, 120, 61)
}

pub fn metric_7(f: &Function) -> (r: i64)
    ensures
        r == metric_value(block_count(f@), f.code@.len(), 137, 74),
{
    metric_of(f, 137, 74)
}

pub fn metric_8(f: &Function) -> (r: i64)
    ensures
        r == metric_value(block_count(f@), f.code@.len(), 154, 89),
{
    metric_of(f, 154, 89)
}

pub fn metric_9(f: &Function) -> (r: i64)
    ensures
        r == metric_value(block_count(f@), f.code@.len(), 171, 106),
{
    metric_of(f, 171, 106)
}

/// Weight of each block: span times one plus its edge count, saturated.
pub fn block_weights(f: &Function) -> (r: Vec<i32>)
    requires
        edge_counts_fit(spec_blocks(f.code@)),
    ensures
        r@ == weights_of(spec_blocks(f.code@)),
{
    weights_of_blocks(f)
}

/// (block, weight) pairs, heaviest first; equal weights keep block order.
pub fn rank_blocks(f: &Function) -> (r: Vec<(usize, i32)>)
    requires
        edge_counts_fit(spec_blocks(f.code@)),
    ensures
        is_ranking(weights_of(spec_blocks(f.code@)), r@),
{
    let w = block_weights(f);
    rank_weights(&w)
}

/// The `k` heaviest blocks, in rank order.
pub fn top_k(f: &Function, k: usize) -> (r: Vec<usize>)
    requires
        edge_counts_fit(spec_blocks(f.code@)),
    ensures
        exists|rk: Seq<(usize, i32)>| is_ranking(weights_of(spec_blocks(f.code@)), rk)
            && r@ == first_indices(rk, k as nat),
{
    let ranked = rank_blocks(f);
    take_indices(&ranked, k)
}

/// Difference of the two functions' scores.
pub fn compare(a: &Function, b: &Function) -> (r: i32)
    requires
        escape_fits(a@),
        escape_fits(b@),
        i32::MIN <= escape_score(a@) - escape_score(b@) <= i32::MAX,
    ensures
        r == escape_score(a@) - escape_score(b@),
{
    analyze(a).score - analyze(b).score
}

/// The score of each function, in order.
pub fn batch_scores(fs: &[&Function]) -> (r: Vec<i32>)
    requires
        forall|i: int| 0 <= i < fs@.len() ==> escape_fits((#[trigger] fs@[i])@),
    ensures
        r@.len() == fs@.len(),
        forall|i: int| 0 <= i < fs@.len() ==> r@[i] == escape_score((#[trigger] fs@[i])@),
{
    let mut out: Vec<i32> = Vec::new();
    let mut i: usize = 0;
    while i < fs.len()
        invariant
            i <= fs@.len(),
            forall|j: int| 0 <= j < fs@.len() ==> escape_fits((#[trigger] fs@[j])@),
            out@.len() == i,
            forall|j: int| 0 <= j < i ==> out@[j] == escape_score((#[trigger] fs@[j])@),
        decreases fs@.len() - i,
    {
        out.push(analyze(fs[i]).score);
        i += 1;
    }
    out
}

/// `escape total=<s>` and a line per note.
pub fn explain(f: &Function) -> (r: String)
    requires
        escape_fits(f@),
    ensures
        r@ == explain_text("escape"@, escape_score(f@), escape_notes(f@)),
{
    let r = analyze(f);
    render_explain("escape", r.score, &r.notes)
}

} // verus!
