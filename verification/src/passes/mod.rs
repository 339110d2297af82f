//! Analysis passes over whole modules: opcode coverage, metric vectors and normalization.
pub mod coverage;
pub mod metrics;
pub mod normalize;
