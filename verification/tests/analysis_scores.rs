use cellvm::analysis::{escape, folding};
use cellvm::module::Function;

fn func(code: Vec<u8>, locals: u16, frame: u32) -> Function {
    Function {
        code,
        max_locals: locals,
        frame_size: frame,
        consts: vec![],
        string_pool: vec![],
        upvalues: vec![],
        name: "f".to_string(),
    }
}

fn straight() -> Function {
    // push8 5; push8 6; ret
    func(vec![0x01, 5, 0x01, 6, 0xFF], 6, 16)
}

fn two_blocks() -> Function {
    // push8 1; sjmp +0; push8 2; ret
    func(vec![0x01, 1, 0x20, 0x00, 0x01, 2, 0xFF], 2, 8)
}

#[test]
fn escape_scores_wide_frame() {
    let r = escape::analyze(&straight());
    assert_eq!(r.score, 16);
    assert_eq!(r.notes, vec!["escape: wide frame".to_string()]);
    assert_eq!(r.hot_blocks, vec![0]);
    assert!(escape::is_profitable(&straight()));
}

#[test]
fn escape_summary_and_explain() {
    assert_eq!(escape::summarize(&straight()), "escape score=16 notes=1 hot=[0]");
    assert_eq!(escape::explain(&straight()), "escape total=16\n  - escape: wide frame\n");
}

#[test]
fn escape_narrow_frame_has_no_notes() {
    let f = two_blocks();
    let r = escape::analyze(&f);
    // two blocks, each 2 * 2 + 8 / 4 = 6
    assert_eq!(r.score, 12);
    assert!(r.notes.is_empty());
    assert!(!escape::is_profitable(&f));
    assert_eq!(escape::summarize(&f), "escape score=12 notes=0 hot=[]");
}

#[test]
fn escape_negative_frame_quarter() {
    // frame size 0xFFFF_FFF0 reads as -16 in 32 bits; a quarter is -4
    let f = func(vec![0xFF], 0, 0xFFFF_FFF0);
    assert_eq!(escape::analyze(&f).score, -4);
}

#[test]
fn escape_metrics() {
    let f = straight();
    assert_eq!(escape::metric_0(&f), 18 + 5 + 25);
    assert_eq!(escape::metric_9(&f), 171 + 5 + 106);
    assert_eq!(escape::compare(&straight(), &two_blocks()), 4);
    assert_eq!(escape::batch_scores(&[&straight(), &two_blocks()]), vec![16, 12]);
}

#[test]
fn block_weights_and_ranking() {
    let f = two_blocks();
    assert_eq!(escape::block_weights(&f), vec![8, 6]);
    assert_eq!(escape::rank_blocks(&f), vec![(0, 8), (1, 6)]);
    assert_eq!(escape::top_k(&f, 1), vec![0]);
    assert_eq!(escape::top_k(&f, 5), vec![0, 1]);
}

#[test]
fn ranking_breaks_ties_by_block_order() {
    // sjmp +0 splits the code into a first block of two bytes and a second of two bytes
    let f = func(vec![0x20, 0x00, 0x00, 0xFF], 0, 0);
    // block 0: span 2, one successor; block 1: span 2, one predecessor
    assert_eq!(folding::block_weights(&f), vec![4, 4]);
    assert_eq!(folding::rank_blocks(&f), vec![(0, 4), (1, 4)]);
}

#[test]
fn folding_counts_immediates() {
    let r = folding::analyze(&straight());
    // two immediate loads: one block scoring 2 * 3 + 5
    assert_eq!(r.score, 11);
    assert!(r.notes.is_empty());
    assert_eq!(folding::summarize(&straight()), "folding score=11 notes=0 hot=[]");
}

#[test]
fn folding_notes_imm_heavy_blocks() {
    // push8 1; push8 2; push8 3; ret
    let f = func(vec![0x01, 1, 0x01, 2, 0x01, 3, 0xFF], 0, 0);
    let r = folding::analyze(&f);
    assert_eq!(r.score, 3 * 3 + 7);
    assert_eq!(r.notes, vec!["folding: block 0 imm-heavy".to_string()]);
    assert_eq!(r.hot_blocks, vec![0]);
    assert_eq!(folding::explain(&f), "folding total=16\n  - folding: block 0 imm-heavy\n");
    assert_eq!(folding::metric_0(&f), 21 + 7 + 39);
}
