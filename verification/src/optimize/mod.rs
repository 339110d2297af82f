//! Bytecode-level optimization planners: constant folding, dead code and peephole rewrites.
pub mod constfold;
pub mod deadcode;
pub mod peephole;
