//! What a decoded module declares, the compiled module, and the instances
//! made from it, each with its own linear memory.
use vstd::prelude::*;
use crate::code_memory::CodeSlice;
use crate::signature::{FuncType, FuncTypeView, SigId};

verus! {

/// Size of a Wasm page, in bytes.
pub const WASM_PAGE_SIZE: usize = 65536;

/// The largest number of pages a 32-bit linear memory can have.
pub const MAX_WASM_PAGES: u32 = 65536;

/// Declared page bounds of a linear memory.
#[derive(Clone, Copy, Debug, PartialEq, Eq)]
pub struct MemoryPlan {
    pub minimum: u32,
    pub maximum: Option<u32>,
}

/// Declared element bounds of a table.
#[derive(Clone, Copy, Debug, PartialEq, Eq)]
pub struct TablePlan {
    pub minimum: u32,
    pub maximum: Option<u32>,
}

/// An imported function: its namespace and name, as the UTF-8 bytes the
/// binary holds, and its declared signature.
#[derive(Debug)]
pub struct FunctionImport {
    pub namespace: Vec<u8>,
    pub name: Vec<u8>,
    pub signature: usize,
}

/// The structure of a decoded module.
#[derive(Debug)]
pub struct ModuleInfo {
    pub signatures: Vec<FuncType>,
    pub imports: Vec<FunctionImport>,
    /// The signature index of each local function.
    pub functions: Vec<usize>,
    pub memories: Vec<MemoryPlan>,
    pub tables: Vec<TablePlan>,
}

impl ModuleInfo {
    pub open spec fn signature_views(&self) -> Seq<FuncTypeView> {
        self.signatures@.map_values(|f: FuncType| f@)
    }
}

/// Whether a pair of bounds is consistent and within `limit`.
pub open spec fn bounds_ok(minimum: u32, maximum: Option<u32>, limit: u32) -> bool {
    &&& minimum <= limit
    &&& maximum matches Some(m) ==> minimum <= m && m <= limit
}

/// Whether a decoded module is consistent: every signature reference is in
/// range and every memory and table has sound bounds.
pub open spec fn module_valid(info: &ModuleInfo) -> bool {
    &&& forall|i: int| 0 <= i < info.functions@.len() ==> #[trigger] info.functions@[i] < info.signatures@.len()
    &&& forall|i: int| 0 <= i < info.imports@.len() ==> #[trigger] info.imports@[i].signature < info.signatures@.len()
    &&& forall|i: int| 0 <= i < info.memories@.len() ==>
        bounds_ok((#[trigger] info.memories@[i]).minimum, info.memories@[i].maximum, MAX_WASM_PAGES)
    &&& forall|i: int| 0 <= i < info.tables@.len() ==>
        bounds_ok((#[trigger] info.tables@[i]).minimum, info.tables@[i].maximum, u32::MAX)
}

fn check_bounds(minimum: u32, maximum: Option<u32>, limit: u32) -> (r: bool)
    ensures
        r == bounds_ok(minimum, maximum, limit),
{
    match maximum {
        Some(m) => minimum <= m && m <= limit,
        None => minimum <= limit,
    }
}

/// Whether a decoded module is consistent.
pub fn check_module(info: &ModuleInfo) -> (r: bool)
    ensures
        r == module_valid(info),
{
    let mut i: usize = 0;
    while i < info.functions.len()
        invariant
            i <= info.functions@.len(),
            forall|j: int| 0 <= j < i ==> #[trigger] info.functions@[j] < info.signatures@.len(),
        decreases info.functions@.len() - i,
    {
        if info.functions[i] >= info.signatures.len() {
            return false;
        }
        i = i + 1;
    }
    let mut i: usize = 0;
    while i < info.imports.len()
        invariant
            i <= info.imports@.len(),
            forall|j: int| 0 <= j < i ==> #[trigger] info.imports@[j].signature < info.signatures@.len(),
        decreases info.imports@.len() - i,
    {
        if info.imports[i].signature >= info.signatures.len() {
            return false;
        }
        i = i + 1;
    }
    let mut i: usize = 0;
    while i < info.memories.len()
        invariant
            i <= info.memories@.len(),
            forall|j: int| 0 <= j < i ==>
                bounds_ok((#[trigger] info.memories@[j]).minimum, info.memories@[j].maximum, MAX_WASM_PAGES),
        decreases info.memories@.len() - i,
    {
        if !check_bounds(info.memories[i].minimum, info.memories[i].maximum, MAX_WASM_PAGES) {
            return false;
        }
        i = i + 1;
    }
    let mut i: usize = 0;
    while i < info.tables.len()
        invariant
            i <= info.tables@.len(),
            forall|j: int| 0 <= j < i ==>
                bounds_ok((#[trigger] info.tables@[j]).minimum, info.tables@[j].maximum, u32::MAX),
        decreases info.tables@.len() - i,
    {
        if !check_bounds(info.tables[i].minimum, info.tables[i].maximum, u32::MAX) {
            return false;
        }
        i = i + 1;
    }
    true
}

/// A validated and compiled module. Immutable once built; shared by every
/// instance made from it.
pub struct CompiledModule {
    /// Identity of the engine that compiled it.
    pub engine: u64,
    pub info: ModuleInfo,
    /// Where each local function's code was placed.
    pub functions: Vec<CodeSlice>,
    /// The interned index of each declared signature.
    pub signature_ids: Vec<SigId>,
}

/// Whether a memory of `minimum` pages can be created.
pub open spec fn memory_size_ok(minimum: u32) -> bool {
    minimum <= MAX_WASM_PAGES && minimum as nat * (WASM_PAGE_SIZE as nat) <= usize::MAX
}

/// All-zero bytes of a fresh memory of `pages` pages.
pub open spec fn zeroed(pages: nat) -> Seq<u8> {
    Seq::new(pages * (WASM_PAGE_SIZE as nat), |i: int| 0u8)
}

/// A linear memory owned by one instance.
pub struct LinearMemory {
    bytes: Vec<u8>,
    maximum: Option<u32>,
}

impl View for LinearMemory {
    type V = Seq<u8>;

    closed spec fn view(&self) -> Seq<u8> {
        self.bytes@
    }
}

impl LinearMemory {
    pub closed spec fn maximum_pages(&self) -> Option<u32> {
        self.maximum
    }

    /// A fresh, zero-filled memory of `minimum` pages, or `None` when that
    /// exceeds the pages a 32-bit memory can have or the address space.
    pub fn new(minimum: u32, maximum: Option<u32>) -> (r: Option<LinearMemory>)
        ensures
            r is None <==> !memory_size_ok(minimum),
            r matches Some(m) ==> m@ == zeroed(minimum as nat) && m.maximum_pages() == maximum,
    {
        if minimum > MAX_WASM_PAGES {
            return None;
        }
        match (minimum as usize).checked_mul(WASM_PAGE_SIZE) {
            None => None,
            Some(len) => {
                let bytes: Vec<u8> = vec![0u8; len];
                assert(bytes@ =~= zeroed(minimum as nat));
                Some(LinearMemory { bytes, maximum })
            },
        }
    }

    /// The declared maximum, in pages.
    pub fn maximum(&self) -> (r: Option<u32>)
        ensures
            r == self.maximum_pages(),
    {
        self.maximum
    }

    /// Size in bytes.
    pub fn len(&self) -> (r: usize)
        ensures
            r == self@.len(),
    {
        self.bytes.len()
    }

    /// The byte at `offset`, or `None` when it is out of bounds.
    pub fn read(&self, offset: usize) -> (r: Option<u8>)
        ensures
            r == (if offset < self@.len() { Some(self@[offset as int]) } else { None::<u8> }),
    {
        if offset < self.bytes.len() {
            Some(self.bytes[offset])
        } else {
            None
        }
    }

    /// Stores `value` at `offset`; returns `false` and changes nothing when
    /// the offset is out of bounds.
    pub fn write(&mut self, offset: usize, value: u8) -> (r: bool)
        ensures
            r == (offset < old(self)@.len()),
            final(self).maximum_pages() == old(self).maximum_pages(),
            final(self)@ == (if r { old(self)@.update(offset as int, value) } else { old(self)@ }),
    {
        if offset < self.bytes.len() {
            self.bytes.set(offset, value);
            true
        } else {
            false
        }
    }

    /// Stores `v` little-endian at `offset`; returns `false` and changes
    /// nothing when the four bytes do not fit.
    pub fn write_u32(&mut self, offset: usize, v: u32) -> (r: bool)
        ensures
            r == (offset as nat + 4 <= old(self)@.len()),
            final(self).maximum_pages() == old(self).maximum_pages(),
            r ==> final(self)@ == old(self)@.subrange(0, offset as int) + le_bytes(v)
                + old(self)@.subrange(offset as int + 4, old(self)@.len() as int),
            !r ==> final(self)@ == old(self)@,
    {
        if offset > self.bytes.len() || self.bytes.len() - offset < 4 {
            return false;
        }
        let ghost before = self@;
        self.bytes.set(offset, (v % 256) as u8);
        self.bytes.set(offset + 1, ((v / 256) % 256) as u8);
        self.bytes.set(offset + 2, ((v / 65536) % 256) as u8);
        self.bytes.set(offset + 3, (v / 16777216) as u8);
        assert(self@ =~= before.subrange(0, offset as int) + le_bytes(v)
            + before.subrange(offset as int + 4, before.len() as int));
        true
    }

    /// The little-endian `u32` at `offset`, or `None` when the four bytes
    /// are out of bounds.
    pub fn read_u32(&self, offset: usize) -> (r: Option<u32>)
        ensures
            r is None <==> offset as nat + 4 > self@.len(),
            r matches Some(v) ==> le_bytes(v) == self@.subrange(offset as int, offset as int + 4),
    {
        if offset > self.bytes.len() || self.bytes.len() - offset < 4 {
            return None;
        }
        let b0 = self.bytes[offset] as u32;
        let b1 = self.bytes[offset + 1] as u32;
        let b2 = self.bytes[offset + 2] as u32;
        let b3 = self.bytes[offset + 3] as u32;
        assert(b0 < 256 && b1 < 256 && b2 < 256 && b3 < 256);
        let v: u32 = b0 | (b1 << 8u32) | (b2 << 16u32) | (b3 << 24u32);
        assert(v % 256 == b0 && (v / 256) % 256 == b1 && (v / 65536) % 256 == b2 && v / 16777216 == b3) by (bit_vector)
            requires
                b0 < 256 && b1 < 256 && b2 < 256 && b3 < 256,
                v == b0 | (b1 << 8u32) | (b2 << 16u32) | (b3 << 24u32);
        assert(le_bytes(v) =~= self@.subrange(offset as int, offset as int + 4));
        Some(v)
    }
}

/// The four little-endian bytes of `v`.
pub open spec fn le_bytes(v: u32) -> Seq<u8> {
    seq![(v % 256) as u8, ((v / 256) % 256) as u8, ((v / 65536) % 256) as u8, (v / 16777216) as u8]
}

/// A live instance: its own memories, and the code it shares with its module.
pub struct Instance {
    pub engine: u64,
    pub memories: Vec<LinearMemory>,
    pub functions: Vec<CodeSlice>,
}

} // verus!
