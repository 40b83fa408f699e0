//! Instance lifecycle and host-function binding core of a WebAssembly
//! process runtime: signature interning, code memory, a JIT engine front,
//! compiled modules, host bindings and the per-process linker.
use vstd::prelude::*;

pub mod code_memory;
pub mod engine;
pub mod host;
pub mod linker;
pub mod module;
pub mod serial;
pub mod signature;

verus! {

} // verus!
