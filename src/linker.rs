//! The per-process linker: a fresh linker, a linear memory and an
//! environment for one instance, with every host capability bound.
use vstd::prelude::*;
use crate::host::{bindings, provided, Capability, DefinitionView, Extern, ExternView, Linker, ProcessEnvironment};
use crate::module::{memory_size_ok, zeroed, LinearMemory};
use crate::signature::{FuncType, FuncTypeView};

verus! {

/// Where an instance's linear memory comes from.
#[derive(Clone, Copy, Debug, PartialEq, Eq, Structural)]
pub enum MemoryChoice {
    /// Share a memory that already exists (not supported yet).
    Existing,
    /// Allocate a fresh memory with the module's bounds.
    New,
}

/// Why a process could not be linked or instantiated.
#[derive(Clone, Copy, Debug, PartialEq, Eq, Structural)]
pub enum LinkError {
    /// The requested path is not implemented.
    Unsupported,
    /// The module's memory is larger than a 32-bit memory or the address space allows.
    Memory,
    /// The import at this position is provided by no definition.
    Unresolved(usize),
}

/// Feature flags and limits of the shared engine.
#[derive(Clone, Copy, Debug, PartialEq, Eq, Structural)]
pub struct Config {
    pub wasm_threads: bool,
    pub wasm_simd: bool,
    pub wasm_reference_types: bool,
    /// Guard region after a static memory, in bytes.
    pub static_memory_guard_size: u64,
}

/// The engine every process shares.
#[derive(Clone, Copy, Debug, PartialEq, Eq, Structural)]
pub struct Engine {
    pub config: Config,
}

/// Guard size of static memories: 8 MiB.
pub const STATIC_MEMORY_GUARD_SIZE: u64 = 8388608;

/// The configuration fixed for the shared engine.
pub open spec fn engine_config() -> Config {
    Config {
        wasm_threads: true,
        wasm_simd: true,
        wasm_reference_types: true,
        static_memory_guard_size: 8388608u64,
    }
}

/// The shared engine. Every call yields the same configuration, so all
/// processes run on one engine setup.
pub fn engine() -> (r: Engine)
    ensures
        r.config == engine_config(),
{
    Engine {
        config: Config {
            wasm_threads: true,
            wasm_simd: true,
            wasm_reference_types: true,
            static_memory_guard_size: STATIC_MEMORY_GUARD_SIZE,
        },
    }
}

/// A host function a module imports.
#[derive(Debug)]
pub struct ImportedFunction {
    pub namespace: String,
    pub name: String,
    pub signature: FuncType,
}

/// A loaded module as processes see it: its identity, its declared memory
/// bounds and the host functions it imports.
#[derive(Debug)]
pub struct LunaticModule {
    pub id: u64,
    pub min_memory: u32,
    pub max_memory: Option<u32>,
    pub imports: Vec<ImportedFunction>,
}

/// The definitions a process's linker holds: its memory under
/// `lunatic`/`memory`, then each capability's functions in order.
pub open spec fn process_definitions(caps: Seq<Capability>, env: ProcessEnvironment) -> Seq<DefinitionView>
    decreases caps.len(),
{
    if caps.len() == 0 {
        seq![DefinitionView { namespace: "lunatic"@, name: "memory"@, item: ExternView::Memory }]
    } else {
        process_definitions(caps.drop_last(), env) + bindings(&caps.last(), env)
    }
}

/// Whether the module's `i`-th import is provided by `defs`.
pub open spec fn import_resolved(m: &LunaticModule, defs: Seq<DefinitionView>, i: int) -> bool {
    provided(defs, m.imports@[i].namespace@, m.imports@[i].name@, m.imports@[i].signature@)
}

/// Builds a linker for one instance of a module.
pub struct LunaticLinker {
    linker: Linker,
    module: LunaticModule,
    memory: LinearMemory,
    environment: ProcessEnvironment,
}

/// A linked process: its own memory and its environment.
pub struct LunaticInstance {
    pub memory: LinearMemory,
    pub environment: ProcessEnvironment,
}

impl LunaticLinker {
    pub closed spec fn definitions(&self) -> Seq<DefinitionView> {
        self.linker@
    }

    pub closed spec fn module(&self) -> &LunaticModule {
        &self.module
    }

    pub closed spec fn memory(&self) -> Seq<u8> {
        self.memory@
    }

    pub closed spec fn memory_maximum(&self) -> Option<u32> {
        self.memory.maximum_pages()
    }

    pub closed spec fn environment(&self) -> ProcessEnvironment {
        self.environment
    }

    /// A linker for one instance of `module`: a fresh memory with the
    /// module's bounds under `lunatic`/`memory`, an environment carrying the
    /// module and `yielder_ptr`, and every capability bound against it.
    pub fn new(module: LunaticModule, yielder_ptr: usize, memory: MemoryChoice, capabilities: &Vec<Capability>)
        -> (r: Result<LunaticLinker, LinkError>)
        ensures
            r == Err::<LunaticLinker, LinkError>(LinkError::Unsupported) <==> memory == MemoryChoice::Existing,
            r == Err::<LunaticLinker, LinkError>(LinkError::Memory) <==> memory == MemoryChoice::New
                && !memory_size_ok(module.min_memory),
            memory == MemoryChoice::New && memory_size_ok(module.min_memory) ==> r is Ok,
            r matches Ok(l) ==> {
                &&& l.memory_maximum() == module.max_memory
                &&& l.module() == module
                &&& l.environment() == (ProcessEnvironment { module: module.id, yielder: yielder_ptr })
                &&& l.memory() == zeroed(module.min_memory as nat)
                &&& l.definitions() == process_definitions(capabilities@, l.environment())
            },
    {
        let mem = match memory {
            MemoryChoice::Existing => {
                return Err(LinkError::Unsupported);
            },
            MemoryChoice::New => match LinearMemory::new(module.min_memory, module.max_memory) {
                Some(m) => m,
                None => {
                    return Err(LinkError::Memory);
                },
            },
        };
        let environment = ProcessEnvironment { module: module.id, yielder: yielder_ptr };
        let mut linker = Linker::new();
        linker.define(String::from_str("lunatic"), String::from_str("memory"), Extern::Memory);
        proof {
            reveal_strlit("lunatic");
            reveal_strlit("memory");
            assert(linker@ =~= process_definitions(capabilities@.subrange(0, 0), environment));
        }
        let mut i: usize = 0;
        while i < capabilities.len()
            invariant
                i <= capabilities@.len(),
                linker@ == process_definitions(capabilities@.subrange(0, i as int), environment),
            decreases capabilities@.len() - i,
        {
            capabilities[i].add_to_linker(environment, &mut linker);
            assert(capabilities@.subrange(0, i as int + 1).drop_last() =~= capabilities@.subrange(0, i as int));
            i = i + 1;
        }
        assert(capabilities@.subrange(0, capabilities@.len() as int) =~= capabilities@);
        Ok(LunaticLinker { linker, module, memory: mem, environment })
    }

    /// Instantiates the module, consuming the linker: each linker serves
    /// exactly one instance. Fails at the first import no definition provides.
    pub fn instance(self) -> (r: Result<LunaticInstance, LinkError>)
        ensures
            r matches Err(e) ==> e matches LinkError::Unresolved(i) && 0 <= i < self.module().imports@.len()
                && !import_resolved(self.module(), self.definitions(), i as int)
                && forall|j: int| 0 <= j < i ==> import_resolved(self.module(), self.definitions(), j),
            r is Ok <==> forall|j: int| 0 <= j < self.module().imports@.len()
                ==> import_resolved(self.module(), self.definitions(), j),
            r matches Ok(inst) ==> inst.memory@ == self.memory() && inst.environment == self.environment()
                && inst.memory.maximum_pages() == self.memory_maximum(),
    {
        let mut i: usize = 0;
        while i < self.module.imports.len()
            invariant
                i <= self.module.imports@.len(),
                forall|j: int| 0 <= j < i ==> import_resolved(&self.module, self.linker@, j),
            decreases self.module.imports@.len() - i,
        {
            let imp = &self.module.imports[i];
            if !self.linker.provides(&imp.namespace, &imp.name, &imp.signature) {
                assert(!import_resolved(&self.module, self.linker@, i as int));
                assert(!import_resolved(self.module(), self.definitions(), i as int));
                return Err(LinkError::Unresolved(i));
            }
            i = i + 1;
        }
        Ok(LunaticInstance { memory: self.memory, environment: self.environment })
    }
}

} // verus!
