use cellvm::abi::{self, FrameLayout};
use cellvm::bytecode;
use cellvm::catalog;
use cellvm::error::Error;
use cellvm::format::{FormatHeader, SectionStats};
use cellvm::isa;
use cellvm::limits::{self, Limits};

#[test]
fn header_codec() {
    let mut h = FormatHeader::v1(10, 2);
    assert_eq!(h.encoded_size(), 8);
    assert!(!h.has(cellvm::format::FEATURE_STRINGS));
    h.enable(cellvm::format::FEATURE_STRINGS);
    assert!(h.has(cellvm::format::FEATURE_STRINGS));
    assert_eq!(cellvm::format::write_v1_prefix(10), vec![b'C', b'L', b'V', b'M', 10, 0, 0, 0]);
    let v2 = FormatHeader { version: 2, features: 3, code_len: 1, const_count: 0 };
    assert_eq!(v2.encoded_size(), 18);
    let bytes = cellvm::format::write_v2_prefix(&v2);
    assert_eq!(bytes.len(), 18);
    assert_eq!(cellvm::format::detect_version(&bytes), Ok(2));
    assert_eq!(cellvm::format::detect_version(b"CLVM\x0a\x00"), Ok(1));
    assert_eq!(cellvm::format::parse_magic(b"CLV"), Err(Error::Truncated { at: "magic" }));
    assert_eq!(cellvm::format::parse_magic(b"CLVX"), Err(Error::BadMagic));
}

#[test]
fn section_tags_and_features() {
    assert_eq!(cellvm::format::section_tag_name(0xFFFF_FFFF), "strings");
    assert_eq!(cellvm::format::section_tag_name(0xFFFF_FFFC), "relocs");
    assert_eq!(cellvm::format::section_tag_name(7), "jump_fixup");
    assert!(cellvm::format::is_trailer_tag(5));
    assert!(!cellvm::format::is_trailer_tag(0x9000_0000));
    assert_eq!(cellvm::format::feature_list(0b10101), vec!["strings", "upvalues", "relocs"]);
    let st = SectionStats { code_bytes: 3, const_bytes: 4, string_bytes: 5, func_bytes: 6, reloc_count: 9 };
    assert_eq!(st.total(), 18);
    assert_eq!(st.render(), "code=3 consts=4 strings=5 funcs=6 relocs=9 total=18");
    assert_eq!(cellvm::format::estimate_const_bytes(3), 28);
    assert_eq!(cellvm::format::estimate_string_section(&["ab".to_string()]), 14);
    assert_eq!(cellvm::format::estimate_func_section(&[&[1u8, 2][..]]), 14);
    assert_eq!(
        cellvm::format::validate_header_sanity(&FormatHeader { version: 3, features: 0, code_len: 0, const_count: 0 }),
        Err(Error::VerifyFailed("unsupported version"))
    );
    assert_eq!(cellvm::format::validate_header_sanity(&FormatHeader::v1(1 << 25, 0)), Err(Error::VerifyFailed("code too large")));
}

#[test]
fn limits_checks() {
    let p = Limits::production();
    assert!(p.check_code_len(1 << 20));
    assert!(!p.check_code_len((1 << 20) + 1));
    assert!(p.check_frame(4, 16));
    assert!(!p.check_frame(17, 16));
    let t = Limits::tiny();
    assert_eq!(limits::clamp_call_depth(100, &t), 32);
    assert_eq!(limits::clamp_frame(40, 10, &t), (16, 16));
    assert_eq!(limits::budget_remaining(5, 3), 0);
    assert_eq!(limits::budget_remaining(3, 5), 2);
    assert!(limits::exceeds(6, 5));
    assert_eq!(
        Limits::fuzzing().render(),
        "limits code=65536 consts=4096 strings=1024 funcs=64 depth=128 locals=64 frame=512 intern=262144 deser=1024"
    );
}

#[test]
fn frame_layout() {
    let l = FrameLayout::new(6, 10);
    assert_eq!(l.arg_slots, 4);
    assert_eq!(l.spill_base, 4);
    assert!(l.slot_ok(4, 5));
    assert!(!l.slot_ok(5, 5));
    assert_eq!(l.window_ok(3, -3), Some(0));
    assert_eq!(l.window_ok(3, -4), None);
    assert_eq!(l.window_ok(3, 7), None);
    assert_eq!(abi::align_up(13, 8), 16);
    assert_eq!(abi::align_up(16, 8), 16);
    assert_eq!(abi::word_bytes(), 8);
    assert_eq!(abi::shadow_stack_bytes(3), 96);
    assert_eq!(abi::shadow_stack_bytes(usize::MAX), usize::MAX);
}

#[test]
fn instruction_tables() {
    assert_eq!(bytecode::instr_len(bytecode::GETFIELD), Some(4));
    assert_eq!(bytecode::instr_len(0x99), None);
    assert_eq!(bytecode::name(bytecode::SJMP), Some("sjmp"));
    assert_eq!(bytecode::stack_effect(bytecode::STORELOCAL), -1);
    assert_eq!(bytecode::stack_effect(bytecode::STRCMP), 0);
    for info in isa::ops() {
        assert_eq!(bytecode::stack_effect(info.opcode), info.stack_delta);
    }
    assert!(bytecode::is_control(bytecode::RET));
    assert!(!bytecode::is_control(bytecode::NOP));
    assert_eq!(isa::name_of(0x3B), Some("openupval"));
    assert_eq!(isa::name_of(0x50), None);
    assert_eq!(isa::ops().len(), 19);
    assert!(isa::lookup(bytecode::RET).unwrap().is_branch);
}

#[test]
fn catalog_lookup() {
    let all = catalog::all_entries();
    assert_eq!(all.len(), 30);
    assert_eq!(all[29].name, "atomic_cas");
    let e = catalog::lookup_name("compare_lt").unwrap();
    assert_eq!(e.id, 5);
    assert!(catalog::lookup_name("nope").is_none());
    let text = catalog::render_catalog();
    assert!(text.starts_with("00 arithmetic_add   in=0 out=1 pure=true \u{2014} integer addition on stack tops\n"));
    assert_eq!(text.lines().count(), 30);
}
