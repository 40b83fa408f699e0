//! The host-function binding protocol: a capability declares typed host
//! functions under a namespace, and binds them, by one protocol, into the
//! linker of either supported back end.
use vstd::prelude::*;
use crate::signature::{FuncType, FuncTypeView, ValType};

verus! {

/// A kind that a host function may take or return.
#[derive(Clone, Copy, Debug, PartialEq, Eq, Structural)]
pub enum HostKind {
    I8,
    U8,
    I16,
    U16,
    I32,
    U32,
    I64,
    U64,
    F32,
    F64,
    /// A host value passed to Wasm as a `u32` handle.
    Custom,
    /// A pointer and a length into the instance's memory.
    Slice,
}

/// The Wasm values that carry one host kind.
pub open spec fn wire(k: HostKind) -> Seq<ValType> {
    match k {
        HostKind::I64 | HostKind::U64 => seq![ValType::I64],
        HostKind::F32 => seq![ValType::F32],
        HostKind::F64 => seq![ValType::F64],
        HostKind::Slice => seq![ValType::I32, ValType::I32],
        _ => seq![ValType::I32],
    }
}

/// The Wasm values that carry a sequence of host kinds, in order.
pub open spec fn lower(kinds: Seq<HostKind>) -> Seq<ValType>
    decreases kinds.len(),
{
    if kinds.len() == 0 {
        Seq::empty()
    } else {
        lower(kinds.drop_last()) + wire(kinds.last())
    }
}

/// The Wasm values that carry each of `kinds`, in order.
pub fn lower_kinds(kinds: &Vec<HostKind>) -> (r: Vec<ValType>)
    ensures
        r@ == lower(kinds@),
{
    let mut r: Vec<ValType> = Vec::new();
    let mut i: usize = 0;
    while i < kinds.len()
        invariant
            i <= kinds@.len(),
            r@ == lower(kinds@.subrange(0, i as int)),
        decreases kinds@.len() - i,
    {
        let ghost pre = r@;
        assert(kinds@.subrange(0, i as int + 1).drop_last() =~= kinds@.subrange(0, i as int));
        match kinds[i] {
            HostKind::I64 | HostKind::U64 => r.push(ValType::I64),
            HostKind::F32 => r.push(ValType::F32),
            HostKind::F64 => r.push(ValType::F64),
            HostKind::Slice => {
                r.push(ValType::I32);
                r.push(ValType::I32);
            },
            _ => r.push(ValType::I32),
        }
        assert(r@ =~= pre + wire(kinds@[i as int]));
        i = i + 1;
    }
    assert(kinds@.subrange(0, kinds@.len() as int) =~= kinds@);
    r
}

/// A host function as a capability declares it.
#[derive(Debug)]
pub struct HostFunction {
    pub name: String,
    pub params: Vec<HostKind>,
    pub results: Vec<HostKind>,
}

/// The Wasm signature under which a host function is bound.
pub open spec fn host_signature(f: &HostFunction) -> FuncTypeView {
    FuncTypeView { params: lower(f.params@), results: lower(f.results@) }
}

impl HostFunction {
    /// The Wasm signature under which this function is bound.
    pub fn signature(&self) -> (r: FuncType)
        ensures
            r@ == host_signature(self),
    {
        FuncType::new(lower_kinds(&self.params), lower_kinds(&self.results))
    }
}

/// What a host callback is bound with: the module it serves and the
/// scheduler token used to park the process.
#[derive(Clone, Copy, Debug, PartialEq, Eq, Structural)]
pub struct ProcessEnvironment {
    pub module: u64,
    pub yielder: usize,
}

/// An item a linker can provide to an instance.
#[derive(Debug)]
pub enum Extern {
    Func(FuncType, ProcessEnvironment),
    Memory,
}

pub enum ExternView {
    Func(FuncTypeView, ProcessEnvironment),
    Memory,
}

impl View for Extern {
    type V = ExternView;

    open spec fn view(&self) -> ExternView {
        match self {
            Extern::Func(f, e) => ExternView::Func(f@, *e),
            Extern::Memory => ExternView::Memory,
        }
    }
}

/// One definition of a linker: an item under a namespace and a name.
pub struct DefinitionView {
    pub namespace: Seq<char>,
    pub name: Seq<char>,
    pub item: ExternView,
}

/// A capability: host functions exposed under one namespace.
#[derive(Debug)]
pub struct Capability {
    pub namespace: String,
    pub functions: Vec<HostFunction>,
}

/// The definitions binding `cap` with environment `env` adds, in declaration order.
pub open spec fn bindings(cap: &Capability, env: ProcessEnvironment) -> Seq<DefinitionView> {
    Seq::new(
        cap.functions@.len(),
        |i: int| DefinitionView {
            namespace: cap.namespace@,
            name: cap.functions@[i].name@,
            item: ExternView::Func(host_signature(&cap.functions@[i]), env),
        },
    )
}

/// A linker of the first back end: definitions in the order they were made.
pub struct Linker {
    definitions: Vec<(String, String, Extern)>,
}

/// A linker of the second back end: exports in the order they were added.
pub struct WasmerLinker {
    exports: Vec<(String, String, Extern)>,
}

pub open spec fn entry_view(e: (String, String, Extern)) -> DefinitionView {
    DefinitionView { namespace: e.0@, name: e.1@, item: e.2@ }
}

impl View for Linker {
    type V = Seq<DefinitionView>;

    closed spec fn view(&self) -> Seq<DefinitionView> {
        self.definitions@.map_values(|e: (String, String, Extern)| entry_view(e))
    }
}

impl View for WasmerLinker {
    type V = Seq<DefinitionView>;

    closed spec fn view(&self) -> Seq<DefinitionView> {
        self.exports@.map_values(|e: (String, String, Extern)| entry_view(e))
    }
}

impl Linker {
    pub fn new() -> (r: Linker)
        ensures
            r@ == Seq::<DefinitionView>::empty(),
    {
        let r = Linker { definitions: Vec::new() };
        assert(r@ =~= Seq::<DefinitionView>::empty());
        r
    }

    pub fn define(&mut self, namespace: String, name: String, item: Extern)
        ensures
            final(self)@ == old(self)@.push(DefinitionView { namespace: namespace@, name: name@, item: item@ }),
    {
        let ghost before = self@;
        self.definitions.push((namespace, name, item));
        assert(self@ =~= before.push(DefinitionView { namespace: namespace@, name: name@, item: item@ }));
    }

    pub fn len(&self) -> (r: usize)
        ensures
            r == self@.len(),
    {
        self.definitions.len()
    }

    /// The `i`-th definition, if there is one.
    pub fn entry(&self, i: usize) -> (r: Option<&(String, String, Extern)>)
        ensures
            r is None <==> i >= self@.len(),
            r matches Some(e) ==> entry_view(*e) == self@[i as int],
    {
        if i < self.definitions.len() {
            Some(&self.definitions[i])
        } else {
            None
        }
    }

    /// Whether some definition provides a function named `namespace`/`name`
    /// with exactly the signature `sig`.
    pub fn provides(&self, namespace: &String, name: &String, sig: &FuncType) -> (r: bool)
        ensures
            r == provided(self@, namespace@, name@, sig@),
    {
        let mut i: usize = 0;
        while i < self.definitions.len()
            invariant
                i <= self@.len(),
                forall|j: int| 0 <= j < i ==> !provides_at(self@, j, namespace@, name@, sig@),
            decreases self@.len() - i,
        {
            let e = &self.definitions[i];
            let hit = match &e.2 {
                Extern::Func(f, _) => e.0 == *namespace && e.1 == *name && f.same_as(sig),
                Extern::Memory => false,
            };
            assert(hit == provides_at(self@, i as int, namespace@, name@, sig@));
            if hit {
                return true;
            }
            i = i + 1;
        }
        false
    }
}

/// Whether the `j`-th definition provides a function `namespace`/`name` of signature `sig`.
pub open spec fn provides_at(defs: Seq<DefinitionView>, j: int, namespace: Seq<char>, name: Seq<char>, sig: FuncTypeView) -> bool {
    &&& defs[j].namespace == namespace
    &&& defs[j].name == name
    &&& defs[j].item matches ExternView::Func(f, _) && f == sig
}

/// Whether some definition provides a function `namespace`/`name` of signature `sig`.
pub open spec fn provided(defs: Seq<DefinitionView>, namespace: Seq<char>, name: Seq<char>, sig: FuncTypeView) -> bool {
    exists|j: int| 0 <= j < defs.len() && provides_at(defs, j, namespace, name, sig)
}

impl WasmerLinker {
    pub fn new() -> (r: WasmerLinker)
        ensures
            r@ == Seq::<DefinitionView>::empty(),
    {
        let r = WasmerLinker { exports: Vec::new() };
        assert(r@ =~= Seq::<DefinitionView>::empty());
        r
    }

    pub fn len(&self) -> (r: usize)
        ensures
            r == self@.len(),
    {
        self.exports.len()
    }

    /// The `i`-th export, if there is one.
    pub fn entry(&self, i: usize) -> (r: Option<&(String, String, Extern)>)
        ensures
            r is None <==> i >= self@.len(),
            r matches Some(e) ==> entry_view(*e) == self@[i as int],
    {
        if i < self.exports.len() {
            Some(&self.exports[i])
        } else {
            None
        }
    }

    pub fn add(&mut self, namespace: String, name: String, item: Extern)
        ensures
            final(self)@ == old(self)@.push(DefinitionView { namespace: namespace@, name: name@, item: item@ }),
    {
        let ghost before = self@;
        self.exports.push((namespace, name, item));
        assert(self@ =~= before.push(DefinitionView { namespace: namespace@, name: name@, item: item@ }));
    }
}

/// A back end's linker, as the binding protocol sees it.
pub trait BackendLinker {
    spec fn definitions(&self) -> Seq<DefinitionView>;

    fn register(&mut self, namespace: String, name: String, item: Extern)
        ensures
            final(self).definitions() == old(self).definitions().push(
                DefinitionView { namespace: namespace@, name: name@, item: item@ },
            );
}

impl BackendLinker for Linker {
    open spec fn definitions(&self) -> Seq<DefinitionView> {
        self@
    }

    fn register(&mut self, namespace: String, name: String, item: Extern) {
        self.define(namespace, name, item);
    }
}

impl BackendLinker for WasmerLinker {
    open spec fn definitions(&self) -> Seq<DefinitionView> {
        self@
    }

    fn register(&mut self, namespace: String, name: String, item: Extern) {
        self.add(namespace, name, item);
    }
}

impl Capability {
    /// Binds every declared function, under this capability's namespace,
    /// into any back end's linker.
    pub fn bind<L: BackendLinker>(&self, env: ProcessEnvironment, linker: &mut L)
        ensures
            final(linker).definitions() == old(linker).definitions() + bindings(self, env),
    {
        let ghost start = linker.definitions();
        let mut i: usize = 0;
        while i < self.functions.len()
            invariant
                i <= self.functions@.len(),
                linker.definitions() == start + bindings(self, env).subrange(0, i as int),
            decreases self.functions@.len() - i,
        {
            let f = &self.functions[i];
            let ghost pre = linker.definitions();
            linker.register(self.namespace.clone(), f.name.clone(), Extern::Func(f.signature(), env));
            assert(bindings(self, env).subrange(0, i as int + 1)
                =~= bindings(self, env).subrange(0, i as int).push(bindings(self, env)[i as int]));
            i = i + 1;
        }
        assert(bindings(self, env).subrange(0, self.functions@.len() as int) =~= bindings(self, env));
    }

    /// Binds every declared function into a linker of the first back end.
    pub fn add_to_linker(&self, env: ProcessEnvironment, linker: &mut Linker)
        ensures
            final(linker)@ == old(linker)@ + bindings(self, env),
    {
        self.bind(env, linker);
    }

    /// Binds every declared function into a linker of the second back end.
    pub fn add_to_wasmer_linker(&self, env: ProcessEnvironment, linker: &mut WasmerLinker)
        ensures
            final(linker)@ == old(linker)@ + bindings(self, env),
    {
        self.bind(env, linker);
    }
}

/// Binding is back-end neutral: binding the same capability with the same
/// environment into linkers of the two back ends that agreed before leaves
/// them agreeing on every definition.
pub proof fn lemma_binding_backend_neutral(
    cap: &Capability,
    env: ProcessEnvironment,
    before_first: Seq<DefinitionView>,
    before_second: Seq<DefinitionView>,
    after_first: Seq<DefinitionView>,
    after_second: Seq<DefinitionView>,
)
    requires
        before_first == before_second,
        after_first == before_first + bindings(cap, env),
        after_second == before_second + bindings(cap, env),
    ensures
        after_first == after_second,
{
}

/// A trap raised by a host function: aborts the current Wasm call.
#[derive(Debug)]
pub struct Trap {
    pub message: String,
}

/// Host values of a custom kind, handed to Wasm as `u32` indices into a
/// per-instance table.
pub struct HandleTable<T> {
    values: Vec<T>,
}

impl<T: Copy> HandleTable<T> {
    pub closed spec fn values(&self) -> Seq<T> {
        self.values@
    }

    pub fn new() -> (r: HandleTable<T>)
        ensures
            r.values() == Seq::<T>::empty(),
    {
        HandleTable { values: Vec::new() }
    }

    pub fn len(&self) -> (r: usize)
        ensures
            r == self.values().len(),
    {
        self.values.len()
    }

    /// Converts a host value for Wasm: stores it and returns its index. Traps,
    /// changing nothing, when no further index fits in a `u32`.
    pub fn to_u32(&mut self, value: T) -> (r: Result<u32, Trap>)
        ensures
            r is Err <==> old(self).values().len() > u32::MAX,
            r is Err ==> final(self).values() == old(self).values(),
            r matches Ok(i) ==> i == old(self).values().len() && final(self).values() == old(self).values().push(value),
    {
        let n = self.values.len();
        if n > 4294967295 {
            return Err(Trap { message: String::from_str("handle table is full") });
        }
        self.values.push(value);
        Ok(n as u32)
    }

    /// Converts a Wasm index back to the host value it names. The state is
    /// left as it was, whether the conversion succeeds or traps.
    pub fn from_u32(&mut self, index: u32) -> (r: Result<T, Trap>)
        ensures
            final(self).values() == old(self).values(),
            r is Err <==> index >= old(self).values().len(),
            r matches Ok(v) ==> v == old(self).values()[index as int],
    {
        if (index as usize) < self.values.len() {
            Ok(self.values[index as usize])
        } else {
            Err(Trap { message: String::from_str("handle not found") })
        }
    }
}

} // verus!
