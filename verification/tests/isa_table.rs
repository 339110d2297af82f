use cellvm::isa::validate_against_bytecode_table;

#[test]
fn table_matches_bytecode() {
    assert!(validate_against_bytecode_table());
}
