use cellvm::assembler;
use cellvm::constpool;
use cellvm::decode::{self, Decoded};
use cellvm::deser;
use cellvm::error::Error;
use cellvm::heap::{self, Registry};
use cellvm::intern::{self, InternPool};
use cellvm::interp;
use cellvm::interval::{self, Interval};
use cellvm::ir;
use cellvm::loader;
use cellvm::module::{Function, Module};

fn func(code: Vec<u8>) -> Function {
    Function {
        code,
        max_locals: 4,
        frame_size: 16,
        consts: vec![3],
        string_pool: vec![],
        upvalues: vec![],
        name: "main".to_string(),
    }
}

#[test]
fn constpool_helpers() {
    assert_eq!(constpool::merge_pools(&[1, 2], &[2, 3, 3]), vec![1, 2, 3]);
    assert_eq!(constpool::split_tagged(&[1, -1, 0, -5]), (vec![1, 0], vec![-1, -5]));
    assert_eq!(constpool::resample(&[1, 2, 3, 4, 5], 2), vec![1, 3, 5]);
    assert_eq!(constpool::resample(&[1, 2], 0), vec![1, 2]);
    assert_eq!(constpool::saturate_i16(40000), i16::MAX);
    assert_eq!(constpool::saturate_i16(-40000), i16::MIN);
    assert_eq!(constpool::saturate_i16(-7), -7);
    assert_eq!(constpool::interleave(&[1, 2, 3], &[9]), vec![1, 9, 2, 3]);
    assert_eq!(constpool::window_sums(&[1, 2, 3, 4], 2), vec![3, 5, 7]);
    assert_eq!(constpool::window_sums(&[1, 2], 0), Vec::<i64>::new());
    let mut v = vec![3, 1, 3, 2, 1];
    constpool::sort_unique(&mut v);
    assert_eq!(v, vec![1, 2, 3]);
    assert_eq!(constpool::bit_pack_u7(&[0x7f, 0x01]), vec![0xff, 0x00]);
    assert_eq!(constpool::checksum32(&[1]), 8);
    assert_eq!(constpool::fingerprint(&[]), 0);
    assert_eq!(constpool::hash_string(""), 0xcbf29ce484222325);
}

#[test]
fn interval_arithmetic() {
    let a = Interval { lo: 1, hi: 2 };
    let b = Interval { lo: 10, hi: 20 };
    assert_eq!(a.add(b), Interval { lo: 11, hi: 22 });
    assert_eq!(interval::from_push8(-3), Interval::point(-3));
    let t = Interval::top();
    assert!(t.contains(0));
    let w = a.widen(Interval { lo: 0, hi: 2 });
    assert!(w.contains(0) && w.contains(2));
}

#[test]
fn straight_line_interpretation() {
    // push8 1; push8 2; storelocal 0; ret
    let f = func(vec![0x01, 1, 0x01, 2, 0x32, 0, 0, 0xFF]);
    assert_eq!(interp::stack_height_trace(&f), Ok(vec![(0, 0), (2, 1), (4, 2), (7, 1)]));
    assert_eq!(interp::max_stack_height(&f), Ok(2));
    assert_eq!(interp::count_returns(&f), Ok(1));
    assert_eq!(interp::has_loops(&f), Ok(false));
    assert_eq!(interp::summarize_function(&f), Ok("main code=8 max_stack=2 returns=1 loops=false".to_string()));
    let looping = func(vec![0x01, 1, 0x20, 0xFC, 0xFF]);
    assert_eq!(interp::has_loops(&looping), Ok(true));
    let under = func(vec![0x32, 0, 0]);
    assert_eq!(interp::max_stack_height(&under), Err(Error::VerifyFailed("neg depth")));
}

#[test]
fn lowering() {
    // push8 1; call 2; window -1; throw
    let f = func(vec![0x01, 1, 0x35, 2, 0, 0x02, 0xFF, 0x3A]);
    let l = ir::lower(&f);
    assert_eq!(l.len(), 4);
    assert_eq!(ir::count_calls(&l), 1);
    assert_eq!(ir::count_throws(&l), 1);
    assert_eq!(ir::windows(&l), vec![(5, -1)]);
    assert_eq!(ir::read_u24(&[0x41, 1, 2, 3], 0), 0x030201);
}

#[test]
fn decoding_helpers() {
    assert_eq!(decode::decode_at(&[0x30, 5, 1], 0), Ok((Decoded::LoadK(261), 3)));
    assert_eq!(decode::decode_at(&[0x30, 5], 0), Err(Error::TruncatedInstr { pc: 0 }));
    assert_eq!(decode::stack_delta_of(&Decoded::Push8(1)), 1);
    let counts = decode::count_by_opcode(&[0x01, 1, 0x01, 2, 0xFF]).unwrap();
    assert_eq!(counts[0x01], 2);
    assert_eq!(counts[0xFF], 1);
    assert_eq!(decode::encode(&Decoded::Sjmp(-2)), vec![0x20, 0xFE]);
}

#[test]
fn registry_lifecycle() {
    let mut r = Registry::new();
    let a = r.register(Registry::alloc_obj(5));
    let b = r.register(heap::alloc_obj(7));
    assert_eq!((a, b), (0, 1));
    assert_eq!(r.generation(), 2);
    assert_eq!(r.find_kind(7), Some(1));
    r.mark_all(9);
    assert_eq!(r.get(0).map(|o| o.mark), Some(9));
    assert!(r.unregister(0).is_some());
    assert!(r.get(0).is_none());
    assert_eq!(heap::validate_kind(0), Err(Error::DeserFailed("reserved kind")));
    assert_eq!(heap::validate_mark(0x0100_0000), Err(Error::DeserFailed("mark out of range")));
    assert_eq!(heap::kind_class(15), 1);
    assert_eq!(heap::kind_class(16), 2);
    assert_eq!(heap::kind_class(0x10000), 4);
}

#[test]
fn blob_helpers() {
    assert_eq!(deser::estimate_size(2), 40);
    let blob = deser::build_blob(&[]);
    assert!(deser::peek_magic(&blob));
    assert_eq!(deser::declared_count(&blob), Some(0));
    assert_eq!(deser::checksum_expected(6, 3), 5);
    assert!(deser::flags_need_checksum(3));
    assert!(!deser::flags_need_checksum(2));
    let bad = deser::build_node(0, 0, 0, &[]);
    let blob2 = deser::build_blob(&[bad]);
    assert_eq!(deser::deserialize_and_drop(&blob2), Err(Error::DeserFailed("reserved kind")));
}

#[test]
fn loader_helpers() {
    let m = Module { functions: vec![func(vec![0x01, 1, 0xFF]), func(vec![0xFF])] };
    assert_eq!(loader::module_code_bytes(&m), 4);
    assert_eq!(loader::module_const_count(&m), 2);
    assert_eq!(loader::count_opcodes(&[0x01, 1, 0xFF]), Ok(2));
    assert_eq!(loader::count_opcodes(&[0x99]), Err(Error::UnknownOpcode { pc: 0, op: 0x99 }));
    assert_eq!(loader::find_opcode_pcs(&[0x01, 1, 0x01, 2, 0xFF], 0x01), Ok(vec![0, 2]));
    assert_eq!(loader::code_section_len(b"CLVM\x05\x00\x00\x00"), Ok(5));
    assert_eq!(loader::code_section_len(b"CLVM"), Err(Error::BadMagic));
    let mut unnamed = Module { functions: vec![Function { name: String::new(), ..func(vec![0xFF]) }] };
    loader::sanitize_function_names(&mut unnamed);
    assert_eq!(unnamed.functions[0].name, "fn0");
}

#[test]
fn intern_pool_helpers() {
    let mut p = InternPool::new();
    let id = p.intern_str("abc");
    assert_eq!(p.resolve_str(id), Some("abc"));
    assert!(p.contains_hash(InternPool::hash_bytes(b"abc")));
    assert_eq!(p.dump_hashes(), vec![InternPool::hash_bytes(b"abc")]);
    assert_eq!(p.stats(), (1, 3, 0));
    assert!(p.estimate_bytes() >= 3);
    p.force_compact();
    assert_eq!(p.stats(), (1, 3, 1));
    let m = Module { functions: vec![Function { string_pool: vec!["s".to_string()], ..func(vec![0xFF]) }] };
    let linked = intern::link_module(&m).unwrap();
    assert_eq!(linked.len(), 2);
    assert_eq!(intern::link_module_unit(&m), Ok(()));
}

#[test]
fn assembler_helpers() {
    let m = assembler::assemble(".locals 2\n.frame 8\nloadk 7\nloadk 7\nret").unwrap();
    let f = &m.functions[0];
    assert_eq!((f.max_locals, f.frame_size), (2, 8));
    assert_eq!(f.consts, vec![7]);
    assert_eq!(f.code, vec![0x30, 0, 0, 0x30, 0, 0, 0xFF]);
    assert_eq!(assembler::disassemble(f), "0000: loadk 00 00\n0003: loadk 00 00\n0006: ret\n");
    assert!(assembler::validate_asm_text("nop").is_ok());
    assert!(assembler::list_mnemonics().contains(&"push8"));
    let multi = assembler::assemble_multi(".fn a\nret\n.fn b\nnop\nret\n").unwrap();
    assert_eq!(multi.functions.len(), 2);
    assert_eq!(multi.functions[1].name, "b");
    assert_eq!(multi.functions[1].code, vec![0x00, 0xFF]);
}

#[test]
fn registry_updates_in_place() {
    let mut r = Registry::new();
    r.register(heap::alloc_obj(5));
    r.register(heap::alloc_obj(7));
    r.get_mut(1).unwrap().mark = 3;
    assert_eq!(r.get(1).map(|o| (o.kind, o.mark)), Some((7, 3)));
    assert_eq!(r.find_kind(7), Some(1));
    assert!(r.get_mut(2).is_none());
    assert!(r.unregister(0).is_some());
    assert!(r.get_mut(0).is_none());
}
