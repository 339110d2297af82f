//! Pipeline entry points: options for a load-and-run, and deserializer teardown.
use vstd::prelude::*;
use crate::deser;
use crate::deser::spec_deserialize;
use crate::error::Result;

verus! {

#[derive(Clone, Copy, Debug, Default)]
pub struct LoadRunOpts {
    pub run_exec: bool,
}

/// Deserializes a heap blob into a fresh registry and drops it, reporting only success.
pub fn deser_teardown(blob: &[u8]) -> (r: Result<()>)
    ensures
        r == spec_deserialize(blob@).1,
{
    deser::deserialize_and_drop(blob)
}

} // verus!
