use cellvm::assembler;
use cellvm::builder;
use cellvm::cfg::{build, has_cycle, reachable, summarize};
use cellvm::constpool;
use cellvm::decode::{self, Decoded};
use cellvm::encode;
use cellvm::error::Error;
use cellvm::exec;
use cellvm::intern::InternPool;
use cellvm::interval::Interval;
use cellvm::loader;
use cellvm::module::{Function, Module};

fn func(code: Vec<u8>) -> Function {
    Function {
        code,
        max_locals: 4,
        frame_size: 16,
        consts: vec![],
        string_pool: vec![],
        upvalues: vec![],
        name: "main".to_string(),
    }
}

#[test]
fn decode_then_encode_reproduces_code() {
    let code = vec![0x01, 5, 0x31, 1, 0, 0x20, 0xFE, 0x41, 1, 2, 3, 0xFF];
    let listing = decode::decode_all(&code).unwrap();
    let ops: Vec<Decoded> = listing.iter().map(|(_, d)| *d).collect();
    assert_eq!(ops[0], Decoded::Push8(5));
    assert_eq!(ops[1], Decoded::LoadLocal(1));
    assert_eq!(decode::encode_all(&ops), code);
    assert!(decode::roundtrip_ok(&code));
}

#[test]
fn encode_then_decode_reproduces_instructions() {
    let ops = vec![Decoded::Window(-2), Decoded::Call(300), Decoded::GetField(0x010203), Decoded::Ret];
    let code = decode::encode_all(&ops);
    let back: Vec<Decoded> = decode::decode_all(&code).unwrap().into_iter().map(|(_, d)| d).collect();
    assert_eq!(back, ops);
}

#[test]
fn decode_reports_unknown_opcode() {
    assert_eq!(decode::decode_all(&[0x01, 1, 0x99]).err(), Some(Error::UnknownOpcode { pc: 2, op: 0x99 }));
}

#[test]
fn load_of_encoded_module() {
    let f = Function { consts: vec![-1, 1 << 40], string_pool: vec!["hi".to_string()], ..func(vec![0x01, 1, 0xFF]) };
    let bytes = encode::encode_module(&Module { functions: vec![f.clone()] });
    let m = loader::load_module(&bytes).unwrap();
    assert_eq!(m.functions.len(), 1);
    assert_eq!(m.functions[0].code, f.code);
    assert_eq!(m.functions[0].consts, f.consts);
    assert_eq!(m.functions[0].string_pool, f.string_pool);
}

#[test]
fn loader_rejects_bad_magic() {
    assert!(loader::load_module(b"XXXX\x00\x00\x00\x00").is_err());
    assert!(!loader::peek_magic(b"XX"));
}

#[test]
fn interning_is_idempotent_and_survives_compaction() {
    let mut p = InternPool::new();
    let a = p.intern(b"alpha");
    let b = p.intern(b"beta");
    assert_eq!(p.intern(b"alpha"), a);
    assert_ne!(a, b);
    assert_eq!(p.len(), 2);
    p.compact();
    assert_eq!(p.resolve(a), Some(&b"alpha"[..]));
    assert_eq!(p.resolve_str(b), Some("beta"));
    // inserting a new entry into a non-empty pool compacts it first
    assert_eq!(p.compact_count(), 2);
}

#[test]
fn pool_and_delta_roundtrips() {
    let vals = vec![1, -2, i64::MAX, i64::MIN];
    assert_eq!(constpool::decode_pool(&constpool::encode_pool(&vals)), Some(vals.clone()));
    assert_eq!(constpool::delta_decode(&constpool::delta_encode(&vals)), vals);
    assert_eq!(constpool::decode_pool(&[1, 0]), None);
}

#[test]
fn interval_lattice_on_values() {
    let a = Interval::point(1);
    let b = Interval::point(5);
    let c = Interval::point(-3);
    assert_eq!(a.join(b), b.join(a));
    assert_eq!(a.join(b).join(c), a.join(b.join(c)));
    assert_eq!(a.join(a), a);
    assert_eq!(a.join(b), Interval { lo: 1, hi: 5 });
    assert!(a.join(b).contains(3));
    assert_eq!(a.meet(b), None);
    assert_eq!(a.join(b).meet(Interval { lo: 4, hi: 9 }), Some(Interval { lo: 4, hi: 5 }));
}

#[test]
fn cfg_reachability_and_cycles() {
    // push8 1; sjmp -4 (back to 0); ret
    let f = func(vec![0x01, 1, 0x20, 0xFC, 0xFF]);
    let g = build(&f);
    assert_eq!(g.blocks.len(), 2);
    assert_eq!(g.blocks[0].succs, vec![0]);
    assert!(has_cycle(&g));
    assert_eq!(reachable(&g).into_iter().collect::<Vec<_>>(), vec![0]);
    assert_eq!(summarize(&g), "cfg blocks=2 reachable=1 cyclic=true");
    assert!(build(&func(vec![])).blocks.is_empty());
}

#[test]
fn builder_countdown_bytes() {
    let m = builder::countdown_module(3);
    assert_eq!(
        m.functions[0].code,
        vec![0x01, 3, 0x32, 0, 0, 0x31, 0, 0, 0x01, 0, 0x02, 0, 0x31, 0, 0, 0x01, 1, 0x32, 0, 0, 0x20, 2, 0x20, 237, 0xFF]
    );
    assert_eq!(builder::hello_module().functions[0].code, vec![0x01, 1, 0xFF]);
}

#[test]
fn assembler_resolves_labels() {
    let m = assembler::assemble("push8 3\nloop:\nsjmp loop # back\nret\n").unwrap();
    let f = &m.functions[0];
    assert_eq!(f.code, vec![0x01, 3, 0x20, 0xFE, 0xFF]);
    assert_eq!((f.max_locals, f.frame_size), (4, 64));
    assert_eq!(f.name, "main");
}

#[test]
fn assembler_errors() {
    assert_eq!(assembler::assemble("sjmp nowhere").err(), Some(Error::VerifyFailed("missing label")));
    assert_eq!(assembler::assemble("push8 x").err(), Some(Error::VerifyFailed("push8 parse")));
    match assembler::assemble("nop\nbogus 1") {
        Err(Error::VerifyFailed(m)) => assert_eq!(m, "asm unknown bogus @ 1"),
        other => panic!("unexpected {:?}", other),
    }
}

#[test]
fn execution_outcomes() {
    assert_eq!(exec::run_function(&func(vec![0x01, 1, 0xFF])), Ok(()));
    assert_eq!(exec::run_function(&func(vec![0x3A])), Err(Error::Thrown));
    assert_eq!(exec::run_module(&builder::hello_module()), Ok(()));
}

fn container(code: &[u8], trailer: &[u8]) -> Vec<u8> {
    let mut v = b"CLVM".to_vec();
    v.extend_from_slice(&(code.len() as u32).to_le_bytes());
    v.extend_from_slice(code);
    v.extend_from_slice(&0u32.to_le_bytes());
    v.extend_from_slice(trailer);
    v
}

#[test]
fn loader_rejects_unknown_opcode() {
    let input = b"CLVM\x01\x00\x00\x00\xEE\x00\x00\x00\x00";
    assert_eq!(loader::load_module(input).err(), Some(Error::UnknownOpcode { pc: 0, op: 0xEE }));
    let later = container(&[0x01, 7, 0x99, 0xFF], &[]);
    assert_eq!(loader::load_module(&later).err(), Some(Error::UnknownOpcode { pc: 2, op: 0x99 }));
}

#[test]
fn loader_rejects_truncated_instruction() {
    let input = container(&[0x00, 0x30, 0x01], &[]);
    assert_eq!(loader::load_module(&input).err(), Some(Error::TruncatedInstr { pc: 1 }));
}

#[test]
fn loader_reads_the_count_before_walking_the_code() {
    assert_eq!(loader::load_module(b"CLVM\x01\x00\x00\x00\xEE").err(), Some(Error::Truncated { at: "nconst" }));
    let mut short = container(&[0xEE], &[]);
    short[9] = 1;
    assert_eq!(loader::load_module(&short).err(), Some(Error::Truncated { at: "const" }));
}

#[test]
fn loader_stops_at_short_trailers() {
    let code = [0x01, 1, 0xFF];
    let stops: Vec<Vec<u8>> = vec![
        vec![0xFF, 0xFF],
        vec![0xFF, 0xFF, 0xFF, 0xFF, 1],
        vec![0xFE, 0xFF, 0xFF, 0xFF],
        vec![0, 0, 0, 0, 9],
    ];
    for trailer in stops {
        let m = loader::load_module(&container(&code, &trailer)).unwrap();
        assert_eq!(m.functions.len(), 1);
        assert_eq!(m.functions[0].code, code.to_vec());
    }
    let cut = container(&code, &[0xFE, 0xFF, 0xFF, 0xFF, 2, 0, 0, 0, 1, 0, 0, 0, 0xFF, 3, 0, 0, 0, 0xFF]);
    let m = loader::load_module(&cut).unwrap();
    assert_eq!(m.functions.len(), 2);
    assert_eq!(m.functions[1].code, vec![0xFF]);
    let bad_string = container(&code, &[0xFF, 0xFF, 0xFF, 0xFF, 1, 0, 0, 0, 5, 0, 0, 0, b'a']);
    assert_eq!(loader::load_module(&bad_string).err(), Some(Error::Truncated { at: "string body" }));
}
