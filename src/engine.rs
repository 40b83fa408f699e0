//! The JIT engine: owns the signature registry, the code memory and the
//! trampoline table, compiles modules into code memory and instantiates them.
use vstd::prelude::*;
use crate::code_memory::{CodeMemory, CodeMemoryView, CodeSlice, total_reservation, total_reserved, all_published};
use crate::module::{
    check_module, memory_size_ok, module_valid, zeroed, CompiledModule, Instance, LinearMemory, ModuleInfo,
    WASM_PAGE_SIZE,
};
use crate::serial::{decode_module, decodes, module_to_words, module_view, serialized, words_to_bytes};
use crate::signature::{
    all_distinct, position_of, register_spec, FuncType, FuncTypeView, SigId, SignatureRegistry,
};

verus! {

/// Why a compilation failed.
#[derive(Debug)]
pub enum CompileError {
    /// The decoded module is inconsistent.
    Validation(String),
    /// The back end's output does not fit the module.
    Backend(String),
    /// Code memory is exhausted.
    Resource(String),
}

/// Why an instantiation failed.
#[derive(Clone, Copy, Debug, PartialEq, Eq, Structural)]
pub enum InstantiationError {
    /// The module was compiled by another engine.
    ForeignModule,
    /// The number of resolved imports differs from the number declared.
    ImportCount,
    /// The resolved import at this position has another signature.
    ImportSignature(usize),
    /// A memory is larger than the engine allows.
    MemoryTooLarge(usize),
}

/// Why a serialized module could not be read back.
#[derive(Clone, Copy, Debug, PartialEq, Eq, Structural)]
pub enum DeserializeError {
    /// The bytes are not a serialized module of this format version.
    Format,
    /// The module was serialized by another engine.
    ForeignEngine,
}

/// Limits the engine applies to instances.
#[derive(Clone, Copy, Debug, PartialEq, Eq, Structural)]
pub struct Tunables {
    /// The largest initial size of a linear memory, in pages.
    pub static_memory_bound: u32,
    /// Size of the guard region after a static memory, in bytes.
    pub static_memory_offset_guard_size: u64,
}

/// The distinct signatures of `sigs`, in order of first occurrence.
pub open spec fn dedup_spec(sigs: Seq<FuncTypeView>) -> Seq<FuncTypeView>
    decreases sigs.len(),
{
    if sigs.len() == 0 {
        Seq::empty()
    } else {
        let p = dedup_spec(sigs.drop_last());
        if p.contains(sigs.last()) {
            p
        } else {
            p.push(sigs.last())
        }
    }
}

/// Whether `s` is interned and already has a trampoline.
pub open spec fn has_trampoline(reg: Seq<FuncTypeView>, tramp: Seq<Option<CodeSlice>>, s: FuncTypeView) -> bool {
    &&& reg.contains(s)
    &&& position_of(reg, s) < tramp.len()
    &&& tramp[position_of(reg, s)] is Some
}

/// The signatures of `sigs` that still need a trampoline, in order.
pub open spec fn needed_spec(
    reg: Seq<FuncTypeView>,
    tramp: Seq<Option<CodeSlice>>,
    sigs: Seq<FuncTypeView>,
) -> Seq<FuncTypeView>
    decreases sigs.len(),
{
    if sigs.len() == 0 {
        Seq::empty()
    } else {
        let p = needed_spec(reg, tramp, sigs.drop_last());
        if has_trampoline(reg, tramp, sigs.last()) {
            p
        } else {
            p.push(sigs.last())
        }
    }
}

/// The registry after interning each of `sigs` in turn.
pub open spec fn register_all(reg: Seq<FuncTypeView>, sigs: Seq<FuncTypeView>) -> Seq<FuncTypeView>
    decreases sigs.len(),
{
    if sigs.len() == 0 {
        reg
    } else {
        register_spec(register_all(reg, sigs.drop_last()), sigs.last()).0
    }
}

pub proof fn lemma_dedup_distinct(sigs: Seq<FuncTypeView>)
    ensures
        all_distinct(dedup_spec(sigs)),
    decreases sigs.len(),
{
    if sigs.len() > 0 {
        lemma_dedup_distinct(sigs.drop_last());
    }
}

proof fn lemma_position_stable(reg0: Seq<FuncTypeView>, reg: Seq<FuncTypeView>, s: FuncTypeView)
    requires
        reg0.len() <= reg.len(),
        reg.subrange(0, reg0.len() as int) == reg0,
        all_distinct(reg),
        reg0.contains(s),
    ensures
        reg.contains(s),
        position_of(reg, s) == position_of(reg0, s),
{
    let p = position_of(reg0, s);
    assert(reg0[p] == s);
    assert(reg[p] == reg0[p]);
    assert(reg.contains(s));
    let q = position_of(reg, s);
    assert(reg[q] == s);
}


proof fn lemma_dedup_contains(sigs: Seq<FuncTypeView>, x: FuncTypeView)
    ensures
        dedup_spec(sigs).contains(x) <==> sigs.contains(x),
    decreases sigs.len(),
{
    if sigs.len() > 0 {
        let d = sigs.drop_last();
        lemma_dedup_contains(d, x);
        if sigs.contains(x) {
            let i = choose|i: int| 0 <= i < sigs.len() && sigs[i] == x;
            if i < d.len() {
                assert(d[i] == x);
            }
        }
        if d.contains(x) {
            let i = choose|i: int| 0 <= i < d.len() && d[i] == x;
            assert(sigs[i] == x);
        }
        let p = dedup_spec(d);
        if !p.contains(sigs.last()) {
            assert(p.push(sigs.last())[p.len() as int] == sigs.last());
            if p.contains(x) {
                let i = choose|i: int| 0 <= i < p.len() && p[i] == x;
                assert(p.push(sigs.last())[i] == x);
            }
            if p.push(sigs.last()).contains(x) && x != sigs.last() {
                let i = choose|i: int| 0 <= i < p.len() + 1 && p.push(sigs.last())[i] == x;
                assert(p[i] == x);
            }
            if x == sigs.last() {
                assert(sigs[sigs.len() - 1] == x);
            }
        } else if x == sigs.last() {
            assert(sigs[sigs.len() - 1] == x);
        }
    }
}

proof fn lemma_needed_prefix(
    reg: Seq<FuncTypeView>,
    tramp: Seq<Option<CodeSlice>>,
    sigs: Seq<FuncTypeView>,
    k: int,
)
    requires
        0 <= k <= sigs.len(),
    ensures
        needed_spec(reg, tramp, dedup_spec(sigs.subrange(0, k))).len()
            <= needed_spec(reg, tramp, dedup_spec(sigs)).len(),
        needed_spec(reg, tramp, dedup_spec(sigs.subrange(0, k)))
            == needed_spec(reg, tramp, dedup_spec(sigs)).subrange(
                0, needed_spec(reg, tramp, dedup_spec(sigs.subrange(0, k))).len() as int),
    decreases sigs.len(),
{
    let nk = needed_spec(reg, tramp, dedup_spec(sigs.subrange(0, k)));
    if k == sigs.len() {
        assert(sigs.subrange(0, k) =~= sigs);
        assert(nk.subrange(0, nk.len() as int) =~= nk);
    } else {
        let d = sigs.drop_last();
        assert(d.subrange(0, k) =~= sigs.subrange(0, k));
        lemma_needed_prefix(reg, tramp, d, k);
        let p = dedup_spec(d);
        let nd = needed_spec(reg, tramp, p);
        if !p.contains(sigs.last()) {
            assert(p.push(sigs.last()).drop_last() =~= p);
            let n = needed_spec(reg, tramp, p.push(sigs.last()));
            assert(n.subrange(0, nk.len() as int) =~= nd.subrange(0, nk.len() as int));
        }
    }
}

proof fn lemma_needed_within(reg: Seq<FuncTypeView>, tramp: Seq<Option<CodeSlice>>, sigs: Seq<FuncTypeView>, x: FuncTypeView)
    requires
        needed_spec(reg, tramp, sigs).contains(x),
    ensures
        sigs.contains(x),
    decreases sigs.len(),
{
    if sigs.len() > 0 {
        let d = sigs.drop_last();
        let p = needed_spec(reg, tramp, d);
        let i = choose|i: int| 0 <= i < needed_spec(reg, tramp, sigs).len() && needed_spec(reg, tramp, sigs)[i] == x;
        if i < p.len() {
            assert(p[i] == x);
            lemma_needed_within(reg, tramp, d, x);
            let j = choose|j: int| 0 <= j < d.len() && d[j] == x;
            assert(sigs[j] == x);
        } else {
            assert(x == sigs.last());
            assert(sigs[sigs.len() - 1] == x);
        }
    }
}

fn contains_signature(v: &Vec<FuncType>, s: &FuncType) -> (r: bool)
    ensures
        r == v@.map_values(|f: FuncType| f@).contains(s@),
{
    let ghost vs = v@.map_values(|f: FuncType| f@);
    let mut i: usize = 0;
    while i < v.len()
        invariant
            i <= v@.len(),
            vs == v@.map_values(|f: FuncType| f@),
            forall|j: int| 0 <= j < i ==> vs[j] != s@,
        decreases v@.len() - i,
    {
        if v[i].same_as(s) {
            assert(vs[i as int] == s@);
            return true;
        }
        i = i + 1;
    }
    false
}

/// The distinct signatures of `sigs` in order of first occurrence.
pub fn unique_signatures(sigs: &Vec<FuncType>) -> (r: Vec<FuncType>)
    ensures
        r@.map_values(|f: FuncType| f@) == dedup_spec(sigs@.map_values(|f: FuncType| f@)),
        all_distinct(r@.map_values(|f: FuncType| f@)),
{
    proof {
        lemma_dedup_distinct(sigs@.map_values(|f: FuncType| f@));
    }
    let ghost all = sigs@.map_values(|f: FuncType| f@);
    let mut r: Vec<FuncType> = Vec::new();
    let mut i: usize = 0;
    while i < sigs.len()
        invariant
            i <= sigs@.len(),
            all == sigs@.map_values(|f: FuncType| f@),
            r@.map_values(|f: FuncType| f@) == dedup_spec(all.subrange(0, i as int)),
        decreases sigs@.len() - i,
    {
        let ghost pre = r@.map_values(|f: FuncType| f@);
        assert(all.subrange(0, i as int + 1).drop_last() =~= all.subrange(0, i as int));
        if !contains_signature(&r, &sigs[i]) {
            r.push(sigs[i].duplicate());
            assert(r@.map_values(|f: FuncType| f@) =~= pre.push(all[i as int]));
        }
        i = i + 1;
    }
    assert(all.subrange(0, sigs@.len() as int) =~= all);
    r
}

/// Whether the `i`-th resolved import has the signature the module declares for it.
pub open spec fn import_matches(info: &ModuleInfo, resolved: Seq<FuncTypeView>, i: int) -> bool {
    &&& info.imports@[i].signature < info.signatures@.len()
    &&& resolved[i] == info.signatures@[info.imports@[i].signature as int]@
}

/// Whether a memory of `minimum` pages may be created under `bound`.
pub open spec fn memory_fits(minimum: u32, bound: u32) -> bool {
    minimum <= bound && memory_size_ok(minimum)
}

/// The outcome of instantiating `module` on an engine with identity `id`
/// and tunables `tunables`, given the signatures of the resolved imports;
/// `Ok` carries nothing, the instance itself is described by `instantiate`.
pub open spec fn instantiate_outcome(id: u64, tunables: Tunables, module: &CompiledModule, resolved: Seq<FuncTypeView>)
    -> Result<(), InstantiationError>
{
    if module.engine != id {
        Err(InstantiationError::ForeignModule)
    } else if resolved.len() != module.info.imports@.len() {
        Err(InstantiationError::ImportCount)
    } else if exists|i: int| 0 <= i < resolved.len() && !import_matches(&module.info, resolved, i) {
        let i = choose|i: int| 0 <= i < resolved.len() && !import_matches(&module.info, resolved, i)
            && forall|j: int| 0 <= j < i ==> import_matches(&module.info, resolved, j);
        Err(InstantiationError::ImportSignature(i as usize))
    } else if exists|i: int| 0 <= i < module.info.memories@.len()
        && !memory_fits(module.info.memories@[i].minimum, tunables.static_memory_bound) {
        let i = choose|i: int| 0 <= i < module.info.memories@.len()
            && !memory_fits(module.info.memories@[i].minimum, tunables.static_memory_bound)
            && forall|j: int| 0 <= j < i ==> memory_fits(module.info.memories@[j].minimum, tunables.static_memory_bound);
        Err(InstantiationError::MemoryTooLarge(i as usize))
    } else {
        Ok(())
    }
}

/// When every import matches and memory `k` is the first that does not fit,
/// instantiation fails on memory `k`.
proof fn lemma_first_large_memory(id: u64, tunables: Tunables, module: &CompiledModule, rv: Seq<FuncTypeView>, k: int)
    requires
        module.engine == id,
        rv.len() == module.info.imports@.len(),
        forall|j: int| 0 <= j < rv.len() ==> import_matches(&module.info, rv, j),
        0 <= k < module.info.memories@.len(),
        k <= usize::MAX,
        !memory_fits(module.info.memories@[k].minimum, tunables.static_memory_bound),
        forall|j: int| 0 <= j < k ==> memory_fits(module.info.memories@[j].minimum, tunables.static_memory_bound),
    ensures
        instantiate_outcome(id, tunables, module, rv)
            == Err::<(), InstantiationError>(InstantiationError::MemoryTooLarge(k as usize)),
{
    let b = tunables.static_memory_bound;
    let ms = module.info.memories@;
    assert(!(exists|c: int| 0 <= c < rv.len() && !import_matches(&module.info, rv, c)));
    assert(0 <= k < ms.len() && !memory_fits(ms[k].minimum, b)
        && forall|j: int| 0 <= j < k ==> memory_fits(ms[j].minimum, b));
    let c = choose|c: int| 0 <= c < ms.len() && !memory_fits(ms[c].minimum, b)
        && forall|j: int| 0 <= j < c ==> memory_fits(ms[j].minimum, b);
    if c < k {
        assert(memory_fits(ms[c].minimum, b));
    }
    if c > k {
        assert(memory_fits(ms[k].minimum, b));
    }
    assert(c == k);
    assert(exists|c: int| 0 <= c < ms.len() && !memory_fits(ms[c].minimum, b));
}

/// The engine's state as seen from outside.
pub struct EngineView {
    pub id: u64,
    pub tunables: Tunables,
    pub registry: Seq<FuncTypeView>,
    pub trampolines: Seq<Option<CodeSlice>>,
    pub code: CodeMemoryView,
}

/// A JIT engine. Modules compiled by it can only be instantiated by it.
pub struct JITEngine {
    id: u64,
    tunables: Tunables,
    signatures: SignatureRegistry,
    code_memory: CodeMemory,
    /// The trampoline of each interned signature, by index.
    trampolines: Vec<Option<CodeSlice>>,
}

impl View for JITEngine {
    type V = EngineView;

    closed spec fn view(&self) -> EngineView {
        EngineView {
            id: self.id,
            tunables: self.tunables,
            registry: self.signatures@,
            trampolines: self.trampolines@,
            code: self.code_memory@,
        }
    }
}

impl JITEngine {
    /// The registry holds each signature once, every interned signature has
    /// a trampoline slot, and code memory is well formed.
    pub closed spec fn wf(&self) -> bool {
        &&& self.signatures.wf()
        &&& self.code_memory.wf()
        &&& self.trampolines@.len() == self.signatures@.len()
        &&& forall|p: int| 0 <= p < self.trampolines@.len() && (#[trigger] self.trampolines@[p]) is Some
            ==> self.trampolines@[p]->Some_0.region < self.code_memory@.regions.len()
    }

    pub proof fn lemma_wf(&self)
        requires
            self.wf(),
        ensures
            all_distinct(self@.registry),
            self@.trampolines.len() == self@.registry.len(),
            crate::code_memory::code_memory_wf(self@.code),
            forall|p: int| 0 <= p < self@.trampolines.len() && (#[trigger] self@.trampolines[p]) is Some
                ==> self@.trampolines[p]->Some_0.region < self@.code.regions.len(),
    {
    }

    /// A fresh engine with identity `id`, which may place up to
    /// `code_capacity` bytes of code. Modules are told apart from those of
    /// other engines by this identity alone, so `id` must differ from that
    /// of every other engine in the process.
    pub fn new(id: u64, tunables: Tunables, code_capacity: usize) -> (r: JITEngine)
        ensures
            r.wf(),
            r@.id == id,
            r@.tunables == tunables,
            r@.registry.len() == 0,
            r@.code.regions.len() == 0,
            r@.code.reserved == 0,
            r@.code.capacity == code_capacity,
    {
        let r = JITEngine {
            id,
            tunables,
            signatures: SignatureRegistry::new(),
            code_memory: CodeMemory::new(code_capacity),
            trampolines: Vec::new(),
        };
        r
    }

    pub fn id(&self) -> (r: u64)
        ensures
            r == self@.id,
    {
        self.id
    }

    pub fn tunables(&self) -> (r: Tunables)
        ensures
            r == self@.tunables,
    {
        self.tunables
    }

    /// The engine's signature registry.
    pub fn signatures(&self) -> (r: &SignatureRegistry)
        ensures
            r@ == self@.registry,
    {
        &self.signatures
    }

    /// Interns a signature.
    pub fn register_signature(&mut self, func_type: &FuncType) -> (r: SigId)
        requires
            old(self).wf(),
        ensures
            final(self).wf(),
            (final(self)@.registry, r.index as int) == register_spec(old(self)@.registry, func_type@),
            final(self)@.id == old(self)@.id,
            final(self)@.tunables == old(self)@.tunables,
            final(self)@.code == old(self)@.code,
            final(self)@.trampolines.subrange(0, old(self)@.trampolines.len() as int) == old(self)@.trampolines,
            forall|i: int| old(self)@.trampolines.len() <= i < final(self)@.trampolines.len()
                ==> #[trigger] final(self)@.trampolines[i] is None,
    {
        let r = self.signatures.register(func_type);
        if self.trampolines.len() < self.signatures.len() {
            let ghost before = self.trampolines@;
            self.trampolines.push(None);
            assert(self.trampolines@.subrange(0, before.len() as int) =~= before);
        } else {
            assert(self.trampolines@.subrange(0, self.trampolines@.len() as int) =~= self.trampolines@);
        }
        r
    }

    /// The signature interned under `id`, if any.
    pub fn lookup_signature(&self, id: SigId) -> (r: Option<FuncType>)
        ensures
            r matches Some(f) ==> crate::signature::lookup_spec(self@.registry, id.index as int) == Some(f@),
            r is None <==> crate::signature::lookup_spec(self@.registry, id.index as int) is None,
    {
        self.signatures.lookup(id)
    }

    /// The trampoline registered for `id`, if any.
    pub fn trampoline(&self, id: SigId) -> (r: Option<CodeSlice>)
        ensures
            r == (if id.index < self@.trampolines.len() { self@.trampolines[id.index as int] } else { None }),
    {
        if id.index < self.trampolines.len() {
            self.trampolines[id.index]
        } else {
            None
        }
    }

    /// Checks a decoded module.
    pub fn validate(&self, info: &ModuleInfo) -> (r: Result<(), CompileError>)
        ensures
            r is Ok <==> module_valid(info),
            r is Err ==> r matches Err(CompileError::Validation(_)),
    {
        if check_module(info) {
            Ok(())
        } else {
            Err(CompileError::Validation(String::from_str("invalid module")))
        }
    }

    /// Compiles a decoded module. `functions` is the back end's code for each
    /// local function, `trampolines` its code for each signature that
    /// `trampolines_to_compile` lists, in that order. Function bodies are
    /// copied into code memory, every declared signature is interned, a
    /// trampoline is installed for each signature that lacked one (existing
    /// ones are reused), and code memory is published.
    pub fn compile(&mut self, info: ModuleInfo, functions: &Vec<Vec<u8>>, trampolines: &Vec<Vec<u8>>)
        -> (r: Result<CompiledModule, CompileError>)
        requires
            old(self).wf(),
        ensures
            final(self).wf(),
            final(self)@.id == old(self)@.id,
            final(self)@.tunables == old(self)@.tunables,
            final(self)@.code.capacity == old(self)@.code.capacity,
            r matches Err(CompileError::Validation(_)) <==> !module_valid(&info),
            r matches Err(CompileError::Backend(_)) <==> module_valid(&info) && (
                functions@.len() != info.functions@.len()
                || trampolines@.len() != needed_spec(old(self)@.registry, old(self)@.trampolines, dedup_spec(info.signature_views())).len()),
            r matches Err(CompileError::Resource(_)) <==> module_valid(&info)
                && functions@.len() == info.functions@.len()
                && trampolines@.len() == needed_spec(old(self)@.registry, old(self)@.trampolines, dedup_spec(info.signature_views())).len()
                && old(self)@.code.reserved + total_reserved(functions@, functions@.len() as int)
                    + total_reserved(trampolines@, trampolines@.len() as int) > old(self)@.code.capacity,
            r is Err ==> final(self)@ == old(self)@,
            r matches Ok(m) ==> {
                let needed = needed_spec(old(self)@.registry, old(self)@.trampolines, dedup_spec(info.signature_views()));
                &&& forall|j: int| 0 <= j < needed.len() ==> {
                    &&& final(self)@.registry.contains(#[trigger] needed[j])
                    &&& final(self)@.trampolines[position_of(final(self)@.registry, needed[j])] is Some
                    &&& final(self)@.trampolines[position_of(final(self)@.registry, needed[j])]->Some_0.region
                        == old(self)@.code.regions.len() + functions@.len() + j
                    &&& final(self)@.trampolines[position_of(final(self)@.registry, needed[j])]->Some_0.len
                        == trampolines@[j]@.len()
                }
                &&& forall|p: int| 0 <= p < final(self)@.trampolines.len()
                    && (#[trigger] final(self)@.trampolines[p]) is Some
                    && !(p < old(self)@.trampolines.len() && old(self)@.trampolines[p] is Some)
                    ==> exists|j: int| 0 <= j < needed.len() && p == position_of(final(self)@.registry, needed[j])
                &&& final(self)@.code.reserved == old(self)@.code.reserved
                    + total_reserved(functions@, functions@.len() as int)
                    + total_reserved(trampolines@, trampolines@.len() as int)
                &&& forall|i: int| 0 <= i < old(self)@.code.regions.len() ==>
                    (#[trigger] final(self)@.code.regions[i]).bytes == old(self)@.code.regions[i].bytes
                &&& forall|k: int| 0 <= k < m.signature_ids@.len() ==> {
                    let s = final(self)@.trampolines[(#[trigger] m.signature_ids@[k]).index as int]->Some_0;
                    s.region < final(self)@.code.regions.len() && final(self)@.code.regions[s.region as int].executable
                }
                &&& m.engine == old(self)@.id
                &&& m.info == info
                &&& all_published(final(self)@.code)
                &&& final(self)@.registry == register_all(old(self)@.registry, info.signature_views())
                &&& final(self)@.code.regions.len() == old(self)@.code.regions.len() + functions@.len() + trampolines@.len()
                &&& m.functions@.len() == functions@.len()
                &&& forall|i: int| 0 <= i < functions@.len() ==> {
                    &&& (#[trigger] m.functions@[i]).region == old(self)@.code.regions.len() + i
                    &&& m.functions@[i].len == functions@[i]@.len()
                    &&& final(self)@.code.regions[old(self)@.code.regions.len() + i].bytes == functions@[i]@
                }
                &&& m.signature_ids@.len() == info.signatures@.len()
                &&& forall|k: int| 0 <= k < info.signatures@.len() ==> {
                    &&& (#[trigger] m.signature_ids@[k]).index < final(self)@.registry.len()
                    &&& final(self)@.registry[m.signature_ids@[k].index as int] == info.signatures@[k]@
                    &&& final(self)@.trampolines[m.signature_ids@[k].index as int] is Some
                }
                &&& forall|p: int| 0 <= p < old(self)@.trampolines.len() && old(self)@.trampolines[p] is Some
                    ==> #[trigger] final(self)@.trampolines[p] == old(self)@.trampolines[p]
                &&& forall|p: int| 0 <= p < final(self)@.trampolines.len() && final(self)@.trampolines[p] is Some
                    && !(p < old(self)@.trampolines.len() && old(self)@.trampolines[p] is Some)
                    ==> old(self)@.code.regions.len() + functions@.len() <= (#[trigger] final(self)@.trampolines[p])->Some_0.region
                        < final(self)@.code.regions.len()
            },
    {
        if !check_module(&info) {
            return Err(CompileError::Validation(String::from_str("invalid module")));
        }
        if functions.len() != info.functions.len() {
            return Err(CompileError::Backend(String::from_str("function count differs from the module")));
        }
        let needed = self.trampolines_to_compile(&info);
        if trampolines.len() != needed.len() {
            return Err(CompileError::Backend(String::from_str("trampoline count differs from the module")));
        }
        let ghost start = self@;
        let room = self.code_memory.room();
        let nf = match total_reservation(functions, room) {
            Some(n) => n,
            None => {
                return Err(CompileError::Resource(String::from_str("out of code memory for functions")));
            },
        };
        if total_reservation(trampolines, room - nf).is_none() {
            return Err(CompileError::Resource(String::from_str("out of code memory for trampolines")));
        }
        let fslices = match self.code_memory.allocate_functions(functions) {
            Ok(s) => s,
            Err(e) => {
                assert(false);
                return Err(CompileError::Resource(e));
            },
        };
        let ghost code_a = self@.code;
        let tslices = match self.code_memory.allocate_functions(trampolines) {
            Ok(s) => s,
            Err(e) => {
                assert(false);
                return Err(CompileError::Resource(e));
            },
        };
        proof {
            assert forall|i: int| 0 <= i < start.code.regions.len() implies
                #[trigger] self@.code.regions[i] == start.code.regions[i] by {
                assert(code_a.regions.subrange(0, start.code.regions.len() as int)[i] == start.code.regions[i]);
                assert(self@.code.regions.subrange(0, code_a.regions.len() as int)[i] == code_a.regions[i]);
            }
        }
        proof {
            assert forall|i: int| 0 <= i < functions@.len() implies
                #[trigger] self@.code.regions[start.code.regions.len() + i].bytes == functions@[i]@ by {
                assert(fslices@[i].region == start.code.regions.len() + i);
                assert(self@.code.regions.subrange(0, code_a.regions.len() as int)[start.code.regions.len() + i]
                    == code_a.regions[start.code.regions.len() + i]);
            }
        }
        let ghost reg0 = start.registry;
        let ghost tr0 = start.trampolines;
        let ghost sv = info.signature_views();
        let ghost code1 = self@.code;
        let ghost tbase = start.code.regions.len() + functions@.len();
        let ghost nn = needed_spec(reg0, tr0, dedup_spec(sv));
        proof {
            lemma_needed_prefix(reg0, tr0, sv, sv.len() as int);
            assert(sv.subrange(0, 0) =~= Seq::<FuncTypeView>::empty());
            assert(self@.registry.subrange(0, reg0.len() as int) =~= reg0);
        }
        let mut ids: Vec<SigId> = Vec::new();
        let mut t: usize = 0;
        let mut k: usize = 0;
        while k < info.signatures.len()
            invariant
                self.wf(),
                self@.id == start.id,
                self@.tunables == start.tunables,
                self@.code == code1,
                sv == info.signature_views(),
                k <= sv.len(),
                tslices@.len() == trampolines@.len(),
                trampolines@.len() == needed_spec(reg0, tr0, dedup_spec(sv)).len(),
                forall|i: int| 0 <= i < tslices@.len() ==> (#[trigger] tslices@[i]).region == tbase + i
                    && tslices@[i].len == trampolines@[i]@.len(),
                nn == needed_spec(reg0, tr0, dedup_spec(sv)),
                forall|j: int| 0 <= j < t ==> self@.registry.contains(#[trigger] nn[j])
                    && self@.trampolines[position_of(self@.registry, nn[j])] == Some(tslices@[j]),
                forall|p: int| 0 <= p < self@.trampolines.len() && (#[trigger] self@.trampolines[p]) is Some
                    && !(p < tr0.len() && tr0[p] is Some) ==>
                    exists|j: int| 0 <= j < t && p == position_of(self@.registry, nn[j]),
                tbase + trampolines@.len() == code1.regions.len(),
                t <= tslices@.len(),
                forall|i: int| 0 <= i < functions@.len() ==>
                    #[trigger] code1.regions[start.code.regions.len() + i].bytes == functions@[i]@,
                self@.registry == register_all(reg0, sv.subrange(0, k as int)),
                reg0.len() <= self@.registry.len(),
                self@.registry.subrange(0, reg0.len() as int) == reg0,
                tr0.len() == reg0.len(),
                forall|p: int| reg0.len() <= p < self@.registry.len() ==>
                    sv.subrange(0, k as int).contains(#[trigger] self@.registry[p]),
                t == needed_spec(reg0, tr0, dedup_spec(sv.subrange(0, k as int))).len(),
                ids@.len() == k,
                forall|j: int| 0 <= j < k ==> {
                    &&& (#[trigger] ids@[j]).index < self@.registry.len()
                    &&& self@.registry[ids@[j].index as int] == sv[j]
                    &&& self@.trampolines[ids@[j].index as int] is Some
                },
                forall|p: int| 0 <= p < tr0.len() && tr0[p] is Some ==> #[trigger] self@.trampolines[p] == tr0[p],
                forall|p: int| 0 <= p < self@.trampolines.len() && self@.trampolines[p] is Some
                    && !(p < tr0.len() && tr0[p] is Some) ==> {
                        &&& sv.subrange(0, k as int).contains(self@.registry[p])
                        &&& tbase <= (#[trigger] self@.trampolines[p])->Some_0.region < tbase + t
                    },
            decreases sv.len() - k,
        {
            let ghost u = sv[k as int];
            let ghost pre = sv.subrange(0, k as int);
            let ghost reg = self@.registry;
            let ghost tr = self@.trampolines;
            proof {
                assert(sv.subrange(0, k as int + 1).drop_last() =~= pre);
                assert(sv.subrange(0, k as int + 1).last() == u);
                lemma_dedup_contains(pre, u);
                lemma_needed_prefix(reg0, tr0, sv, k as int + 1);
            }
            let id = self.register_signature(&info.signatures[k]);
            let ghost reg2 = self@.registry;
            proof {
                assert(reg2 == register_all(reg0, sv.subrange(0, k as int + 1)));
                assert(reg2.subrange(0, reg.len() as int) =~= reg) by {
                    if !reg.contains(u) {
                        assert(reg2 =~= reg.push(u));
                    }
                }
                assert(reg2.subrange(0, reg0.len() as int) =~= reg0) by {
                    assert forall|p: int| 0 <= p < reg0.len() implies reg2[p] == reg0[p] by {
                        assert(reg2.subrange(0, reg.len() as int)[p] == reg[p]);
                        assert(reg.subrange(0, reg0.len() as int)[p] == reg0[p]);
                    }
                }
                assert(reg2[id.index as int] == u) by {
                    if reg.contains(u) {
                        let q = position_of(reg, u);
                        assert(reg[q] == u);
                    } else {
                        assert(reg2 =~= reg.push(u));
                    }
                }
            }
            let ghost tr2 = self@.trampolines;
            let cur = self.trampolines[id.index];
            proof {
                assert(tr2.subrange(0, tr.len() as int) == tr);
                assert forall|p: int| 0 <= p < tr.len() implies #[trigger] tr2[p] == tr[p] by {
                    assert(tr2.subrange(0, tr.len() as int)[p] == tr[p]);
                }
                assert(all_distinct(reg2));
                let q = position_of(reg2, u);
                assert(reg2.contains(u)) by {
                    assert(reg2[id.index as int] == u);
                }
                assert(reg2[q] == u);
                assert(q == id.index);
                if pre.contains(u) {
                    let j = choose|j: int| 0 <= j < pre.len() && pre[j] == u;
                    assert(reg[ids@[j].index as int] == u);
                    assert(reg2[ids@[j].index as int] == u);
                    assert(ids@[j].index == id.index);
                    assert(cur is Some);
                } else {
                    if has_trampoline(reg0, tr0, u) {
                        lemma_position_stable(reg0, reg2, u);
                        assert(tr[q] == tr0[q]);
                        assert(cur is Some);
                    } else {
                        if cur is Some {
                            let p = id.index as int;
                            if p < tr.len() {
                                assert(tr[p] is Some);
                                if p < tr0.len() && tr0[p] is Some {
                                    assert(reg0[p] == reg2[p]);
                                    assert(reg0.contains(u));
                                    let q0 = position_of(reg0, u);
                                    assert(reg0[q0] == u);
                                    assert(q0 == p);
                                    assert(false);
                                } else {
                                    assert(reg[p] == reg2[p]);
                                    assert(pre.contains(reg[p]));
                                    assert(false);
                                }
                            }
                        }
                        assert(cur is None);
                    }
                }
                let d = dedup_spec(pre);
                let pre1 = sv.subrange(0, k as int + 1);
                if pre.contains(u) {
                    assert(dedup_spec(pre1) == d);
                } else {
                    assert(dedup_spec(pre1) == d.push(u));
                    assert(d.push(u).drop_last() =~= d);
                    assert(d.push(u).last() == u);
                }
                assert(needed_spec(reg0, tr0, dedup_spec(pre1)).len() == t + if cur is None { 1int } else { 0int });
                lemma_needed_prefix(reg0, tr0, sv, k as int);
                assert forall|j: int| 0 <= j < t implies pre.contains(#[trigger] nn[j]) by {
                    let nk = needed_spec(reg0, tr0, d);
                    assert(nk[j] == nn[j]);
                    assert(nk.contains(nn[j]));
                    lemma_needed_within(reg0, tr0, d, nn[j]);
                    lemma_dedup_contains(pre, nn[j]);
                }
                if cur is None {
                    assert(!pre.contains(u));
                    let nk1 = needed_spec(reg0, tr0, dedup_spec(pre1));
                    assert(nk1 == needed_spec(reg0, tr0, d).push(u));
                    assert(nk1[t as int] == u);
                    assert(nn[t as int] == nk1[t as int]);
                }
                assert forall|j: int| 0 <= j < t implies position_of(reg2, #[trigger] nn[j]) == position_of(reg, nn[j])
                    && reg2.contains(nn[j]) && position_of(reg, nn[j]) < tr.len() by {
                    lemma_position_stable(reg, reg2, nn[j]);
                    assert(reg[position_of(reg, nn[j])] == nn[j]);
                }
            }
            let ghost tr_before_set = self@.trampolines;
            let ghost old_t = t;
            if cur.is_none() {
                assert(t < tslices.len());
                self.trampolines.set(id.index, Some(tslices[t]));
                t = t + 1;
            }
            ids.push(id);
            proof {
                let pre1 = sv.subrange(0, k as int + 1);
                assert(pre1.contains(u)) by {
                    assert(pre1[k as int] == u);
                }
                assert forall|x: FuncTypeView| pre.contains(x) implies pre1.contains(x) by {
                    let i = choose|i: int| 0 <= i < pre.len() && pre[i] == x;
                    assert(pre1[i] == x);
                }
                assert forall|p: int| reg0.len() <= p < self@.registry.len() implies
                    pre1.contains(#[trigger] self@.registry[p]) by {
                    if p < reg.len() {
                        assert(reg2.subrange(0, reg.len() as int)[p] == reg[p]);
                        assert(pre.contains(reg[p]));
                    } else {
                        assert(reg2 =~= reg.push(u));
                    }
                }
                assert forall|j: int| 0 <= j < k + 1 implies {
                    &&& (#[trigger] ids@[j]).index < self@.registry.len()
                    &&& self@.registry[ids@[j].index as int] == sv[j]
                    &&& self@.trampolines[ids@[j].index as int] is Some
                } by {
                    if j < k {
                        assert(reg2.subrange(0, reg.len() as int)[ids@[j].index as int] == reg[ids@[j].index as int]);
                    }
                }
                assert forall|j: int| 0 <= j < t implies self@.registry.contains(#[trigger] nn[j])
                    && self@.trampolines[position_of(self@.registry, nn[j])] == Some(tslices@[j]) by {
                    if cur is None && j == t - 1 {
                        assert(nn[j] == u);
                        assert(position_of(reg2, u) == id.index);
                    } else {
                        let q = position_of(reg, nn[j]);
                        assert(tr[q] == Some(tslices@[j]));
                        assert(tr2[q] == tr[q]);
                        if cur is None {
                            assert(pre.contains(nn[j]));
                            assert(nn[j] != u);
                            assert(reg2[q] == nn[j]) by {
                                assert(reg[q] == nn[j]);
                                assert(reg2.subrange(0, reg.len() as int)[q] == reg[q]);
                            }
                            assert(q != id.index);
                        }
                    }
                }
                assert forall|p: int| 0 <= p < self@.trampolines.len() && (#[trigger] self@.trampolines[p]) is Some
                    && !(p < tr0.len() && tr0[p] is Some) implies
                    exists|j: int| 0 <= j < t && p == position_of(self@.registry, nn[j]) by {
                    if cur is None && p == id.index {
                        assert(nn[t - 1] == u);
                        assert(position_of(reg2, u) == id.index);
                        assert(0 <= t - 1 < t && p == position_of(self@.registry, nn[t - 1]));
                    } else {
                        assert(self@.trampolines[p] == tr2[p]);
                        if p < tr.len() {
                            assert(tr2[p] == tr[p]);
                            assert(tr[p] is Some);
                            let j = choose|j: int| 0 <= j < old_t && p == position_of(reg, nn[j]);
                            assert(position_of(reg2, nn[j]) == position_of(reg, nn[j]));
                            assert(0 <= j < t && p == position_of(self@.registry, nn[j]));
                        } else {
                            assert(tr2[p] is None);
                        }
                    }
                }
                assert forall|p: int| 0 <= p < self@.trampolines.len() && self@.trampolines[p] is Some
                    && !(p < tr0.len() && tr0[p] is Some) implies {
                        &&& pre1.contains(self@.registry[p])
                        &&& tbase <= (#[trigger] self@.trampolines[p])->Some_0.region < tbase + t
                    } by {
                    if p != id.index {
                        assert(self@.trampolines[p] == tr2[p]);
                        if p < tr.len() {
                            assert(tr2[p] == tr[p]);
                            assert(reg2.subrange(0, reg.len() as int)[p] == reg[p]);
                        } else {
                            assert(tr2[p] is None);
                        }
                    }
                }
            }
            k = k + 1;
        }
        proof {
            assert(sv.subrange(0, sv.len() as int) =~= sv);
            assert(t == nn.len());
        }
        let ghost tr_end = self@.trampolines;
        let ghost reg_end = self@.registry;
        proof {
            assert forall|p: int| 0 <= p < tr0.len() && tr0[p] is Some implies #[trigger] tr_end[p] == tr0[p] by {
            }
        }
        self.code_memory.publish();
        assert(self@.trampolines == tr_end);
        assert(self@.registry == reg_end);
        proof {
            assert forall|i: int| 0 <= i < functions@.len() implies
                self@.code.regions[start.code.regions.len() + i].bytes == functions@[i]@ by {
                assert(code1.regions[start.code.regions.len() + i].bytes == functions@[i]@);
            }
            assert(self@.registry == register_all(reg0, sv));
            assert(self@.code.regions.len() == code1.regions.len());
            assert(all_published(self@.code));
            assert(fslices@.len() == functions@.len());
            assert forall|i: int| 0 <= i < functions@.len() implies {
                &&& (#[trigger] fslices@[i]).region == start.code.regions.len() + i
                &&& fslices@[i].len == functions@[i]@.len()
                &&& self@.code.regions[start.code.regions.len() + i].bytes == functions@[i]@
            } by {
                assert(code1.regions[start.code.regions.len() + i].bytes == functions@[i]@);
            }
            assert forall|kk: int| 0 <= kk < info.signatures@.len() implies {
                &&& (#[trigger] ids@[kk]).index < self@.registry.len()
                &&& self@.registry[ids@[kk].index as int] == info.signatures@[kk]@
                &&& self@.trampolines[ids@[kk].index as int] is Some
            } by {
                assert(sv[kk] == info.signatures@[kk]@);
            }
            assert(self@.code.regions.len() == start.code.regions.len() + functions@.len() + trampolines@.len());
            assert forall|p: int| 0 <= p < tr0.len() && tr0[p] is Some implies
                #[trigger] self@.trampolines[p] == tr0[p] by {
                assert(tr_end[p] == tr0[p]);
            }
            assert forall|p: int| 0 <= p < self@.trampolines.len() && self@.trampolines[p] is Some
                && !(p < tr0.len() && tr0[p] is Some) implies
                start.code.regions.len() + functions@.len() <= (#[trigger] self@.trampolines[p])->Some_0.region
                    < self@.code.regions.len() by {
            }
        }
        Ok(CompiledModule { engine: self.id, info, functions: fslices, signature_ids: ids })
    }

    /// Instantiates a module compiled by this engine. `resolved` holds the
    /// signature of what each import was resolved to, in import order. Each
    /// instance receives fresh zeroed memories and shares only the code.
    pub fn instantiate(&self, module: &CompiledModule, resolved: &Vec<FuncType>) -> (r: Result<Instance, InstantiationError>)
        ensures
            match r {
                Ok(_) => instantiate_outcome(self@.id, self@.tunables, module, resolved@.map_values(|f: FuncType| f@)) is Ok,
                Err(e) => instantiate_outcome(self@.id, self@.tunables, module, resolved@.map_values(|f: FuncType| f@)) == Err::<(), InstantiationError>(e),
            },
            r matches Ok(inst) ==> {
                &&& inst.engine == self@.id
                &&& inst.functions@ == module.functions@
                &&& inst.memories@.len() == module.info.memories@.len()
                &&& forall|i: int| 0 <= i < inst.memories@.len() ==> {
                    &&& (#[trigger] inst.memories@[i])@ == zeroed(module.info.memories@[i].minimum as nat)
                    &&& inst.memories@[i].maximum_pages() == module.info.memories@[i].maximum
                }
            },
    {
        let ghost rv = resolved@.map_values(|f: FuncType| f@);
        if module.engine != self.id {
            return Err(InstantiationError::ForeignModule);
        }
        if resolved.len() != module.info.imports.len() {
            return Err(InstantiationError::ImportCount);
        }
        let mut i: usize = 0;
        while i < resolved.len()
            invariant
                module.engine == self@.id,
                i <= resolved@.len(),
                rv == resolved@.map_values(|f: FuncType| f@),
                resolved@.len() == module.info.imports@.len(),
                forall|j: int| 0 <= j < i ==> import_matches(&module.info, rv, j),
            decreases resolved@.len() - i,
        {
            let s = module.info.imports[i].signature;
            if s >= module.info.signatures.len() || !resolved[i].same_as(&module.info.signatures[s]) {
                proof {
                    let k = i as int;
                    assert(!import_matches(&module.info, rv, k));
                    assert(0 <= k < rv.len() && !import_matches(&module.info, rv, k)
                        && forall|j: int| 0 <= j < k ==> import_matches(&module.info, rv, j));
                    let c = choose|c: int| 0 <= c < rv.len() && !import_matches(&module.info, rv, c)
                        && forall|j: int| 0 <= j < c ==> import_matches(&module.info, rv, j);
                    if c < k {
                        assert(import_matches(&module.info, rv, c));
                    }
                    if c > k {
                        assert(import_matches(&module.info, rv, k));
                    }
                    assert(c == k);
                    assert(exists|c: int| 0 <= c < rv.len() && !import_matches(&module.info, rv, c));
                    assert(instantiate_outcome(self@.id, self@.tunables, module, rv)
                        == Err::<(), InstantiationError>(InstantiationError::ImportSignature(i)));
                }
                return Err(InstantiationError::ImportSignature(i));
            }
            i = i + 1;
        }
        let mut memories: Vec<LinearMemory> = Vec::new();
        let mut m: usize = 0;
        while m < module.info.memories.len()
            invariant
                module.engine == self@.id,
                rv == resolved@.map_values(|f: FuncType| f@),
                resolved@.len() == module.info.imports@.len(),
                m <= module.info.memories@.len(),
                forall|j: int| 0 <= j < rv.len() ==> import_matches(&module.info, rv, j),
                forall|j: int| 0 <= j < m ==> memory_fits(module.info.memories@[j].minimum, self@.tunables.static_memory_bound),
                memories@.len() == m,
                forall|j: int| 0 <= j < m ==> {
                    &&& (#[trigger] memories@[j])@ == zeroed(module.info.memories@[j].minimum as nat)
                    &&& memories@[j].maximum_pages() == module.info.memories@[j].maximum
                },
            decreases module.info.memories@.len() - m,
        {
            let plan = module.info.memories[m];
            if plan.minimum > self.tunables.static_memory_bound {
                proof {
                    lemma_first_large_memory(self@.id, self@.tunables, module, rv, m as int);
                }
                return Err(InstantiationError::MemoryTooLarge(m));
            }
            match LinearMemory::new(plan.minimum, plan.maximum) {
                Some(mem) => {
                    memories.push(mem);
                },
                None => {
                    proof {
                        lemma_first_large_memory(self@.id, self@.tunables, module, rv, m as int);
                    }
                    return Err(InstantiationError::MemoryTooLarge(m));
                },
            }
            m = m + 1;
        }
        let mut functions: Vec<CodeSlice> = Vec::new();
        let mut f: usize = 0;
        while f < module.functions.len()
            invariant
                f <= module.functions@.len(),
                functions@ == module.functions@.subrange(0, f as int),
            decreases module.functions@.len() - f,
        {
            functions.push(module.functions[f]);
            f = f + 1;
        }
        assert(functions@ =~= module.functions@);
        Ok(Instance { engine: self.id, memories, functions })
    }

    /// The self-describing bytes of a compiled module.
    pub fn serialize(&self, module: &CompiledModule) -> (r: Vec<u8>)
        ensures
            r@ == serialized(module_view(module)),
    {
        words_to_bytes(&module_to_words(module))
    }

    /// Reads back a module serialized by this engine. Bytes that describe a
    /// module of this engine give that module; a module of another engine
    /// is refused.
    pub fn deserialize(&self, bytes: &Vec<u8>) -> (r: Result<CompiledModule, DeserializeError>)
        ensures
            r matches Ok(m) ==> m.engine == self@.id,
            decodes(bytes@) is None ==> r == Err::<CompiledModule, DeserializeError>(DeserializeError::Format),
            decodes(bytes@) matches Some(g) ==> if g.engine == self@.id {
                r matches Ok(m) && module_view(&m) == g
            } else {
                r == Err::<CompiledModule, DeserializeError>(DeserializeError::ForeignEngine)
            },
    {
        match decode_module(bytes) {
            None => Err(DeserializeError::Format),
            Some(m) => {
                if m.engine != self.id {
                    Err(DeserializeError::ForeignEngine)
                } else {
                    Ok(m)
                }
            },
        }
    }

    /// The distinct signatures of `info` that have no trampoline yet, in
    /// order of first occurrence: what the back end must compile.
    pub fn trampolines_to_compile(&self, info: &ModuleInfo) -> (r: Vec<FuncType>)
        requires
            self.wf(),
        ensures
            r@.map_values(|f: FuncType| f@)
                == needed_spec(self@.registry, self@.trampolines, dedup_spec(info.signature_views())),
    {
        let unique = unique_signatures(&info.signatures);
        let ghost us = unique@.map_values(|f: FuncType| f@);
        let ghost reg = self@.registry;
        let ghost tr = self@.trampolines;
        let mut r: Vec<FuncType> = Vec::new();
        let mut i: usize = 0;
        while i < unique.len()
            invariant
                self.wf(),
                reg == self@.registry,
                tr == self@.trampolines,
                i <= unique@.len(),
                us == unique@.map_values(|f: FuncType| f@),
                r@.map_values(|f: FuncType| f@) == needed_spec(reg, tr, us.subrange(0, i as int)),
            decreases unique@.len() - i,
        {
            let ghost pre = r@.map_values(|f: FuncType| f@);
            assert(us.subrange(0, i as int + 1).drop_last() =~= us.subrange(0, i as int));
            assert(us.subrange(0, i as int + 1).last() == us[i as int]);
            let present = match self.signatures.find(&unique[i]) {
                Some(id) => id.index < self.trampolines.len() && self.trampolines[id.index].is_some(),
                None => false,
            };
            if !present {
                r.push(unique[i].duplicate());
                assert(r@.map_values(|f: FuncType| f@) =~= pre.push(us[i as int]));
            }
            i = i + 1;
        }
        assert(us.subrange(0, unique@.len() as int) =~= us);
        r
    }
}

} // verus!
