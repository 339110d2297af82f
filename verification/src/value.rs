//! Heap object header shared by the registry, the collector and the interpreter.
use vstd::prelude::*;

verus! {

#[derive(Clone, Copy, Debug, PartialEq, Eq)]
pub struct Obj {
    pub kind: u32,
    pub mark: u32,
}

} // verus!
