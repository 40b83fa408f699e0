//! Wasm function types and the registry that interns them.
use vstd::prelude::*;

verus! {

/// A Wasm value type.
#[derive(Clone, Copy, Debug, PartialEq, Eq, Structural)]
pub enum ValType {
    I32,
    I64,
    F32,
    F64,
    V128,
    ExternRef,
    FuncRef,
}

/// The mathematical value of a function type: parameter and result kinds.
pub struct FuncTypeView {
    pub params: Seq<ValType>,
    pub results: Seq<ValType>,
}

/// A Wasm function type.
#[derive(Debug)]
pub struct FuncType {
    pub params: Vec<ValType>,
    pub results: Vec<ValType>,
}

impl View for FuncType {
    type V = FuncTypeView;

    open spec fn view(&self) -> FuncTypeView {
        FuncTypeView { params: self.params@, results: self.results@ }
    }
}

fn copy_kinds(v: &Vec<ValType>) -> (r: Vec<ValType>)
    ensures
        r@ == v@,
{
    let mut r: Vec<ValType> = Vec::new();
    let mut i: usize = 0;
    while i < v.len()
        invariant
            i <= v@.len(),
            r@ == v@.subrange(0, i as int),
        decreases v@.len() - i,
    {
        r.push(v[i]);
        i = i + 1;
    }
    assert(r@ =~= v@);
    r
}

fn same_kinds(a: &Vec<ValType>, b: &Vec<ValType>) -> (r: bool)
    ensures
        r == (a@ == b@),
{
    if a.len() != b.len() {
        return false;
    }
    let mut i: usize = 0;
    while i < a.len()
        invariant
            i <= a@.len(),
            a@.len() == b@.len(),
            forall|j: int| 0 <= j < i ==> a@[j] == b@[j],
        decreases a@.len() - i,
    {
        if a[i] != b[i] {
            return false;
        }
        i = i + 1;
    }
    assert(a@ =~= b@);
    true
}

impl FuncType {
    pub fn new(params: Vec<ValType>, results: Vec<ValType>) -> (r: FuncType)
        ensures
            r@.params == params@,
            r@.results == results@,
    {
        FuncType { params, results }
    }

    /// A copy of this function type.
    pub fn duplicate(&self) -> (r: FuncType)
        ensures
            r@ == self@,
    {
        FuncType { params: copy_kinds(&self.params), results: copy_kinds(&self.results) }
    }

    /// Whether two function types have the same parameters and results.
    pub fn same_as(&self, other: &FuncType) -> (r: bool)
        ensures
            r == (self@ == other@),
    {
        same_kinds(&self.params, &other.params) && same_kinds(&self.results, &other.results)
    }
}

/// An interned signature index, shared by every module of one engine.
#[derive(Clone, Copy, Debug, PartialEq, Eq, Structural)]
pub struct SigId {
    pub index: usize,
}

/// Whether no signature occurs twice.
pub open spec fn all_distinct(sigs: Seq<FuncTypeView>) -> bool {
    forall|i: int, j: int| 0 <= i < sigs.len() && 0 <= j < sigs.len() && i != j ==> sigs[i] != sigs[j]
}

/// The position of an interned signature.
pub open spec fn position_of(sigs: Seq<FuncTypeView>, s: FuncTypeView) -> int {
    choose|i: int| 0 <= i < sigs.len() && sigs[i] == s
}

/// Registering `s`: the new table and the index handed out. A signature
/// already present keeps its index; a new one is appended, so indices are
/// dense and never reused.
pub open spec fn register_spec(sigs: Seq<FuncTypeView>, s: FuncTypeView) -> (Seq<FuncTypeView>, int) {
    if sigs.contains(s) {
        (sigs, position_of(sigs, s))
    } else {
        (sigs.push(s), sigs.len() as int)
    }
}

/// Looking up an index: the signature interned under it, if any.
pub open spec fn lookup_spec(sigs: Seq<FuncTypeView>, index: int) -> Option<FuncTypeView> {
    if 0 <= index < sigs.len() {
        Some(sigs[index])
    } else {
        None
    }
}

/// Interns function types; equal types receive equal indices.
pub struct SignatureRegistry {
    sigs: Vec<FuncType>,
}

impl View for SignatureRegistry {
    type V = Seq<FuncTypeView>;

    closed spec fn view(&self) -> Seq<FuncTypeView> {
        self.sigs@.map_values(|f: FuncType| f@)
    }
}

impl SignatureRegistry {
    pub open spec fn wf(&self) -> bool {
        all_distinct(self@)
    }

    pub fn new() -> (r: SignatureRegistry)
        ensures
            r.wf(),
            r@ == Seq::<FuncTypeView>::empty(),
    {
        let r = SignatureRegistry { sigs: Vec::new() };
        assert(r@ =~= Seq::<FuncTypeView>::empty());
        r
    }

    pub fn len(&self) -> (r: usize)
        ensures
            r == self@.len(),
    {
        self.sigs.len()
    }

    /// Interns `s` and returns its index.
    pub fn register(&mut self, s: &FuncType) -> (r: SigId)
        requires
            old(self).wf(),
        ensures
            final(self).wf(),
            (final(self)@, r.index as int) == register_spec(old(self)@, s@),
    {
        let mut i: usize = 0;
        while i < self.sigs.len()
            invariant
                i <= self@.len(),
                self.wf(),
                forall|j: int| 0 <= j < i ==> self@[j] != s@,
            decreases self@.len() - i,
        {
            if self.sigs[i].same_as(s) {
                assert(self@[i as int] == s@);
                assert(self@.contains(s@));
                let ghost p = position_of(self@, s@);
                assert(self@[p] == s@ && self@[i as int] == s@);
                return SigId { index: i };
            }
            i = i + 1;
        }
        assert(!self@.contains(s@));
        let ghost before = self@;
        let index = self.sigs.len();
        self.sigs.push(s.duplicate());
        assert(self@ =~= before.push(s@));
        SigId { index }
    }

    /// The index under which `s` is interned, if it is.
    pub fn find(&self, s: &FuncType) -> (r: Option<SigId>)
        requires
            self.wf(),
        ensures
            r is None <==> !self@.contains(s@),
            r matches Some(id) ==> id.index == position_of(self@, s@) && self@[id.index as int] == s@,
    {
        let mut i: usize = 0;
        while i < self.sigs.len()
            invariant
                self.wf(),
                i <= self@.len(),
                forall|j: int| 0 <= j < i ==> self@[j] != s@,
            decreases self@.len() - i,
        {
            if self.sigs[i].same_as(s) {
                assert(self@[i as int] == s@);
                assert(self@.contains(s@));
                let ghost p = position_of(self@, s@);
                assert(self@[p] == s@);
                return Some(SigId { index: i });
            }
            i = i + 1;
        }
        None
    }

    /// The signature interned under `id`, or `None` when none was.
    pub fn lookup(&self, id: SigId) -> (r: Option<FuncType>)
        ensures
            r matches Some(f) ==> lookup_spec(self@, id.index as int) == Some(f@),
            r is None <==> lookup_spec(self@, id.index as int) is None,
    {
        if id.index < self.sigs.len() {
            Some(self.sigs[id.index].duplicate())
        } else {
            None
        }
    }
}

/// Registering a signature and looking its index up gives the signature back,
/// and registering it a second time hands out the same index and leaves the
/// registry as it was.
pub proof fn lemma_register_lookup(sigs: Seq<FuncTypeView>, s: FuncTypeView)
    requires
        all_distinct(sigs),
    ensures
        lookup_spec(register_spec(sigs, s).0, register_spec(sigs, s).1) == Some(s),
        register_spec(register_spec(sigs, s).0, s) == register_spec(sigs, s),
{
    let (t, i) = register_spec(sigs, s);
    if sigs.contains(s) {
        let p = position_of(sigs, s);
        assert(sigs[p] == s);
    } else {
        assert(t[sigs.len() as int] == s);
        assert(t.contains(s));
        let q = position_of(t, s);
        assert(t[q] == s);
        if q != sigs.len() {
            assert(sigs[q] == s);
            assert(sigs.contains(s));
        }
    }
}

} // verus!
