use cellvm::assembler;
use cellvm::bitvec::BitSet;
use cellvm::builtins::BuiltinRegistry;
use cellvm::bytecode;
use cellvm::cfg::build;
use cellvm::decode::{self, Decoded};
use cellvm::error::Error;
use cellvm::intern::InternPool;
use cellvm::ir;
use cellvm::loader;
use cellvm::module::Function;
use cellvm::optimize::peephole;
use cellvm::constpool;
use cellvm::format::{detect_version, write_v1_prefix, write_v2_prefix, FormatHeader, VERSION_2};
use cellvm::mirror;

fn func(code: Vec<u8>) -> Function {
    Function {
        code,
        max_locals: 4,
        frame_size: 16,
        consts: vec![],
        string_pool: vec![],
        upvalues: vec![],
        name: "t".to_string(),
    }
}

#[test]
fn single_instruction_decodes_back() {
    let samples = vec![
        Decoded::Nop,
        Decoded::Push8(-5),
        Decoded::Sjmp(3),
        Decoded::LoadK(0x1234),
        Decoded::GetUp(9),
        Decoded::NewArr(0xABCDEF),
        Decoded::GetField(7),
        Decoded::Ret,
    ];
    for d in samples {
        let b = decode::encode(&d);
        assert_eq!(decode::decode_at(&b, 0), Ok((d, b.len())));
        assert_eq!(bytecode::instr_len(b[0]), Some(b.len()));
    }
}

#[test]
fn lowered_short_jump_lands_on_target() {
    let mut code = vec![0x00, 0x00, 0x00, 0x00, 0xFF];
    let b = loader::build_boundaries(&code).unwrap();
    assert_eq!(loader::try_lower_short_jump(&mut code, 0, 4, &b), Ok(()));
    assert_eq!(code[0], bytecode::SJMP);
    assert_eq!(loader::sjmp_runtime_target(0, code[1] as i8), 4);
    assert_eq!(&code[2..], &[0x00, 0x00, 0xFF]);

    let mut far = vec![0x00; 300];
    let b = loader::build_boundaries(&far).unwrap();
    let before = far.clone();
    assert_eq!(loader::try_lower_short_jump(&mut far, 0, 200, &b), Err(Error::OffsetTruncation { rel: 198 }));
    assert_eq!(far, before);
}

#[test]
fn blocks_partition_the_code() {
    // push8 1; sjmp +2; nop; nop; loadlocal 0; ret
    let f = func(vec![0x01, 1, 0x20, 2, 0x00, 0x00, 0x31, 0, 0, 0xFF]);
    let g = build(&f);
    assert!(!g.blocks.is_empty());
    assert_eq!(g.entry, 0);
    assert_eq!(g.blocks[0].start, 0);
    assert_eq!(g.blocks.last().unwrap().end, f.code.len());
    for (i, b) in g.blocks.iter().enumerate() {
        assert_eq!(b.id, i);
        assert!(b.start < b.end);
        if i + 1 < g.blocks.len() {
            assert_eq!(b.end, g.blocks[i + 1].start);
        }
        for &s in &b.succs {
            assert!(s < g.blocks.len());
            assert!(g.blocks[s].preds.contains(&i));
        }
        for &p in &b.preds {
            assert!(g.blocks[p].succs.contains(&i));
        }
    }
    assert!(build(&func(vec![])).blocks.is_empty());
}

#[test]
fn union_is_per_member() {
    let mut a = BitSet::with_len(70);
    a.set(3);
    a.set(66);
    let mut b = BitSet::with_len(70);
    b.set(5);
    b.set(66);
    let old = a.copy();
    assert!(a.union_with(&b));
    for i in 0..70 {
        assert_eq!(a.get(i), old.get(i) || b.get(i));
    }
    assert_eq!(a.len(), 70);
    assert_eq!(a.iter_ones(), vec![3, 5, 66]);
}

#[test]
fn first_registration_wins() {
    let mut r = BuiltinRegistry::standard();
    let n = r.len();
    r.register("add", 7);
    assert_eq!(r.len(), n);
    assert_eq!(r.lookup("add"), Some((4, 2)));
    r.register("fresh", 3);
    assert_eq!(r.len(), n + 1);
    assert_eq!(r.lookup("fresh"), Some((n, 3)));
    let names = r.names();
    for i in 0..names.len() {
        for j in i + 1..names.len() {
            assert_ne!(names[i], names[j]);
        }
    }
}

#[test]
fn interning_resolves_to_its_bytes() {
    let mut p = InternPool::new();
    let a = p.intern(b"alpha");
    let b = p.intern(b"beta");
    assert_ne!(a, b);
    assert_eq!(p.resolve(a), Some(&b"alpha"[..]));
    assert_eq!(p.resolve(b), Some(&b"beta"[..]));
    let n = p.len();
    assert_eq!(p.intern(b"alpha"), a);
    assert_eq!(p.len(), n);
    assert_eq!(p.resolve(a), Some(&b"alpha"[..]));
}

#[test]
fn stripping_nops_is_exact_and_idempotent() {
    // nop; push8 7; nop; loadk 1; nop; ret
    let code = vec![0x00, 0x01, 7, 0x00, 0x30, 1, 0, 0x00, 0xFF];
    let (out, st) = peephole::strip_nops(&code);
    assert_eq!(st.nops_removed, 3);
    assert_eq!(out.len() + st.nops_removed, code.len());
    let ops: Vec<Decoded> = decode::decode_all(&code).unwrap().into_iter().map(|(_, d)| d).collect();
    let kept: Vec<Decoded> = ops.into_iter().filter(|d| *d != Decoded::Nop).collect();
    let back: Vec<Decoded> = decode::decode_all(&out).unwrap().into_iter().map(|(_, d)| d).collect();
    assert_eq!(back, kept);
    let (again, st2) = peephole::strip_nops(&out);
    assert_eq!(again, out);
    assert_eq!(st2.nops_removed, 0);
}

#[test]
fn lowering_follows_decoding() {
    // push8 1; getupval 2; loadlocal 3; sjmp -2; newarr 5; ret
    let code = vec![0x01, 1, 0x38, 2, 0x31, 3, 0, 0x20, 0xFE, 0x40, 5, 0, 0, 0xFF];
    let l = ir::lower(&func(code.clone()));
    let d = decode::decode_all(&code).unwrap();
    assert_eq!(l.len(), d.len());
    for (inst, (pc, _)) in l.iter().zip(d.iter()) {
        assert_eq!(inst.pc, *pc);
    }
    assert_eq!(l[0].op, ir::IrOp::Push(1));
    assert_eq!(l[2].op, ir::IrOp::LoadLocal(3));
    assert_eq!(l[3].op, ir::IrOp::Jump { rel: -2, from: 7 });
    assert_eq!(l[4].op, ir::IrOp::NewArr(5));
    match l[1].op {
        ir::IrOp::GetUp(x) => assert_eq!(x % 256, 2),
        other => panic!("unexpected {:?}", other),
    }
}

#[test]
fn size_estimate_matches_assembly() {
    let text = "# demo\n.locals 2\nstart:\n  push8 1\n  sjmp end   # forward\nmid:\n  loadk 99\n  getfield\n  sjmp start\nend:\n  ret\n";
    let m = assembler::assemble(text).unwrap();
    let code = &m.functions[0].code;
    assert_eq!(assembler::estimate_assembled_size(text), code.len());
    // sjmp end at offset 2 lands on `end` (offset 13); sjmp start at 11 lands on 0.
    assert_eq!(code[2], bytecode::SJMP);
    assert_eq!(2 + 2 + (code[3] as i8) as i64, 13);
    assert_eq!(code[11], bytecode::SJMP);
    assert_eq!(11 + 2 + (code[12] as i8) as i64, 0);
}

#[test]
fn equal_functions_share_a_fingerprint() {
    let a = Function { consts: vec![3, -4], string_pool: vec!["s".to_string()], ..func(vec![0x01, 2, 0xFF]) };
    let mut b = a.clone();
    b.name = "other".to_string();
    assert!(mirror::functions_equal(&a, &b));
    assert_eq!(mirror::function_fingerprint(&a), mirror::function_fingerprint(&b));
}

#[test]
fn deltas_round_trip_both_ways() {
    let vals = vec![5, i64::MAX, i64::MIN, -1, 0];
    assert_eq!(constpool::delta_decode(&constpool::delta_encode(&vals)), vals);
    let ds = vec![i64::MAX, 1, -3, i64::MIN];
    assert_eq!(constpool::delta_encode(&constpool::delta_decode(&ds)), ds);
}

#[test]
fn prefixes_match_their_headers() {
    let h = FormatHeader { version: VERSION_2, features: 3, code_len: 10, const_count: 2 };
    let p2 = write_v2_prefix(&h);
    assert_eq!(detect_version(&p2), Ok(VERSION_2));
    assert_eq!(p2.len(), h.encoded_size());
    assert_eq!(p2.len(), 18);
    let p1 = write_v1_prefix(300);
    assert_eq!(p1.len(), FormatHeader::v1(300, 1).encoded_size());
    assert_eq!(p1.len(), 8);
}

#[test]
fn lowering_keeps_calls_and_throws() {
    // call 1; tail 2; throw; sjmp 0; ret
    let code = vec![0x35, 1, 0, 0x36, 2, 0, 0x3A, 0x20, 0, 0xFF];
    let l = ir::lower(&func(code.clone()));
    let d = decode::decode_all(&code).unwrap();
    let calls = d.iter().filter(|(_, x)| matches!(x, Decoded::Call(_) | Decoded::Tail(_))).count();
    let throws = d.iter().filter(|(_, x)| matches!(x, Decoded::Throw)).count();
    assert_eq!(ir::count_calls(&l), calls);
    assert_eq!(ir::count_throws(&l), throws);
    for (inst, (_, x)) in l.iter().zip(d.iter()) {
        assert_eq!(matches!(x, Decoded::Sjmp(_)), matches!(inst.op, ir::IrOp::Jump { .. }));
    }
}
