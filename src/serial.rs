//! The serialized form of a compiled module: a header, then every part of
//! the module as length-prefixed runs of 64-bit words, each stored as eight
//! little-endian bytes.
use vstd::prelude::*;
use crate::code_memory::CodeSlice;
use crate::module::{CompiledModule, FunctionImport, MemoryPlan, ModuleInfo, TablePlan};
use crate::signature::{FuncType, FuncTypeView, SigId, ValType};

verus! {

/// First word of every serialized module.
pub const MAGIC: u64 = 0x4c554e4154494331;

/// Version of the serialized layout; blobs of another version are refused.
pub const FORMAT_VERSION: u64 = 1;

pub open spec fn tag(v: ValType) -> u64 {
    match v {
        ValType::I32 => 0,
        ValType::I64 => 1,
        ValType::F32 => 2,
        ValType::F64 => 3,
        ValType::V128 => 4,
        ValType::ExternRef => 5,
        ValType::FuncRef => 6,
    }
}

fn tag_of(v: ValType) -> (r: u64)
    ensures
        r == tag(v),
{
    match v {
        ValType::I32 => 0,
        ValType::I64 => 1,
        ValType::F32 => 2,
        ValType::F64 => 3,
        ValType::V128 => 4,
        ValType::ExternRef => 5,
        ValType::FuncRef => 6,
    }
}

fn from_tag(t: u64) -> (r: Option<ValType>)
    ensures
        forall|v: ValType| t == tag(v) ==> r == Some(v),
{
    if t == 0 {
        Some(ValType::I32)
    } else if t == 1 {
        Some(ValType::I64)
    } else if t == 2 {
        Some(ValType::F32)
    } else if t == 3 {
        Some(ValType::F64)
    } else if t == 4 {
        Some(ValType::V128)
    } else if t == 5 {
        Some(ValType::ExternRef)
    } else if t == 6 {
        Some(ValType::FuncRef)
    } else {
        None
    }
}

/// A function import as plain values.
pub struct ImportView {
    pub namespace: Seq<u8>,
    pub name: Seq<u8>,
    pub signature: usize,
}

impl View for FunctionImport {
    type V = ImportView;

    open spec fn view(&self) -> ImportView {
        ImportView { namespace: self.namespace@, name: self.name@, signature: self.signature }
    }
}

/// A compiled module as plain values.
pub struct ModuleView {
    pub engine: u64,
    pub signatures: Seq<FuncTypeView>,
    pub imports: Seq<ImportView>,
    pub functions: Seq<usize>,
    pub memories: Seq<MemoryPlan>,
    pub tables: Seq<TablePlan>,
    pub code: Seq<CodeSlice>,
    pub signature_ids: Seq<SigId>,
}

pub open spec fn module_view(m: &CompiledModule) -> ModuleView {
    ModuleView {
        engine: m.engine,
        signatures: m.info.signatures@.map_values(|f: FuncType| f@),
        imports: m.info.imports@.map_values(|i: FunctionImport| i@),
        functions: m.info.functions@,
        memories: m.info.memories@,
        tables: m.info.tables@,
        code: m.functions@,
        signature_ids: m.signature_ids@,
    }
}

/// The words of each item of `xs`, one after the other.
pub open spec fn items<A>(xs: Seq<A>, f: spec_fn(A) -> Seq<u64>) -> Seq<u64>
    decreases xs.len(),
{
    if xs.len() == 0 {
        Seq::empty()
    } else {
        items(xs.drop_last(), f) + f(xs.last())
    }
}

/// A count, then the words of each item.
pub open spec fn list<A>(xs: Seq<A>, f: spec_fn(A) -> Seq<u64>) -> Seq<u64> {
    seq![xs.len() as u64] + items(xs, f)
}

pub open spec fn kind_words(v: ValType) -> Seq<u64> {
    seq![tag(v)]
}

pub open spec fn byte_words(b: u8) -> Seq<u64> {
    seq![b as u64]
}

pub open spec fn usize_words(u: usize) -> Seq<u64> {
    seq![u as u64]
}

pub open spec fn sig_words(f: FuncTypeView) -> Seq<u64> {
    list(f.params, kind_item()) + list(f.results, kind_item())
}

pub open spec fn import_words(i: ImportView) -> Seq<u64> {
    list(i.namespace, byte_item()) + (list(i.name, byte_item()) + usize_words(i.signature))
}

pub open spec fn bounds_words(minimum: u32, maximum: Option<u32>) -> Seq<u64> {
    match maximum {
        Some(m) => seq![minimum as u64, 1, m as u64],
        None => seq![minimum as u64, 0, 0],
    }
}

pub open spec fn memory_words(p: MemoryPlan) -> Seq<u64> {
    bounds_words(p.minimum, p.maximum)
}

pub open spec fn table_words(p: TablePlan) -> Seq<u64> {
    bounds_words(p.minimum, p.maximum)
}

pub open spec fn slice_words(c: CodeSlice) -> Seq<u64> {
    seq![c.region as u64, c.len as u64]
}

pub open spec fn id_words(s: SigId) -> Seq<u64> {
    seq![s.index as u64]
}

pub open spec fn kind_item() -> spec_fn(ValType) -> Seq<u64> {
    |x: ValType| kind_words(x)
}

pub open spec fn byte_item() -> spec_fn(u8) -> Seq<u64> {
    |x: u8| byte_words(x)
}

pub open spec fn usize_item() -> spec_fn(usize) -> Seq<u64> {
    |x: usize| usize_words(x)
}

pub open spec fn sig_item() -> spec_fn(FuncTypeView) -> Seq<u64> {
    |x: FuncTypeView| sig_words(x)
}

pub open spec fn import_item() -> spec_fn(ImportView) -> Seq<u64> {
    |x: ImportView| import_words(x)
}

pub open spec fn memory_item() -> spec_fn(MemoryPlan) -> Seq<u64> {
    |x: MemoryPlan| memory_words(x)
}

pub open spec fn table_item() -> spec_fn(TablePlan) -> Seq<u64> {
    |x: TablePlan| table_words(x)
}

pub open spec fn slice_item() -> spec_fn(CodeSlice) -> Seq<u64> {
    |x: CodeSlice| slice_words(x)
}

pub open spec fn id_item() -> spec_fn(SigId) -> Seq<u64> {
    |x: SigId| id_words(x)
}

/// The words of a serialized module.
pub open spec fn module_words(m: ModuleView) -> Seq<u64> {
    seq![MAGIC, FORMAT_VERSION, m.engine]
        + (list(m.signatures, sig_item())
        + (list(m.imports, import_item())
        + (list(m.functions, usize_item())
        + (list(m.memories, memory_item())
        + (list(m.tables, table_item())
        + (list(m.code, slice_item())
        + list(m.signature_ids, id_item())))))))
}

/// Byte `k` (little-endian) of `w`.
pub open spec fn byte_of(w: u64, k: int) -> u8 {
    ((w >> (8 * k) as u64) & 0xff) as u8
}

/// Each word as eight little-endian bytes.
pub open spec fn word_bytes(ws: Seq<u64>) -> Seq<u8> {
    Seq::new(ws.len() * 8, |i: int| byte_of(ws[i / 8], i % 8))
}

/// The serialized form of a module.
pub open spec fn serialized(m: ModuleView) -> Seq<u8> {
    word_bytes(module_words(m))
}

/// Whether `w` holds `x` starting at `pos`.
pub open spec fn holds_at(w: Seq<u64>, pos: int, x: Seq<u64>) -> bool {
    &&& 0 <= pos
    &&& pos + x.len() <= w.len()
    &&& w.subrange(pos, pos + x.len()) == x
}

proof fn lemma_holds_split(w: Seq<u64>, pos: int, x: Seq<u64>, y: Seq<u64>)
    requires
        holds_at(w, pos, x + y),
    ensures
        holds_at(w, pos, x),
        holds_at(w, pos + x.len(), y),
{
    let xy = x + y;
    assert(xy.subrange(0, x.len() as int) =~= x);
    assert(xy.subrange(x.len() as int, xy.len() as int) =~= y);
    assert(w.subrange(pos, pos + x.len()) =~= w.subrange(pos, pos + xy.len()).subrange(0, x.len() as int));
    assert(w.subrange(pos + x.len(), pos + x.len() + y.len())
        =~= w.subrange(pos, pos + xy.len()).subrange(x.len() as int, xy.len() as int));
}

proof fn lemma_items_prefix<A>(xs: Seq<A>, f: spec_fn(A) -> Seq<u64>, j: int)
    requires
        0 <= j <= xs.len(),
    ensures
        items(xs.subrange(0, j), f).len() <= items(xs, f).len(),
        items(xs, f).subrange(0, items(xs.subrange(0, j), f).len() as int) == items(xs.subrange(0, j), f),
    decreases xs.len(),
{
    if j == xs.len() {
        assert(xs.subrange(0, j) =~= xs);
        assert(items(xs, f).subrange(0, items(xs, f).len() as int) =~= items(xs, f));
    } else {
        let d = xs.drop_last();
        assert(d.subrange(0, j) =~= xs.subrange(0, j));
        lemma_items_prefix(d, f, j);
        let p = items(xs.subrange(0, j), f);
        assert(items(xs, f).subrange(0, p.len() as int) =~= items(d, f).subrange(0, p.len() as int));
    }
}

/// Where item `i` of a list that `w` holds at `pos` starts, and that it is there.
proof fn lemma_item_at<A>(w: Seq<u64>, pos: int, xs: Seq<A>, f: spec_fn(A) -> Seq<u64>, i: int)
    requires
        holds_at(w, pos, items(xs, f)),
        0 <= i < xs.len(),
    ensures
        holds_at(w, pos + items(xs.subrange(0, i), f).len(), f(xs[i])),
        items(xs.subrange(0, i + 1), f) == items(xs.subrange(0, i), f) + f(xs[i]),
{
    let s1 = xs.subrange(0, i + 1);
    assert(s1.drop_last() =~= xs.subrange(0, i));
    lemma_items_prefix(xs, f, i + 1);
    let p = items(s1, f);
    assert(w.subrange(pos, pos + p.len()) =~= items(xs, f).subrange(0, p.len() as int));
    lemma_holds_split(w, pos, items(xs.subrange(0, i), f), f(xs[i]));
}

proof fn lemma_items_step<A>(xs: Seq<A>, f: spec_fn(A) -> Seq<u64>, i: int)
    requires
        0 <= i < xs.len(),
    ensures
        items(xs.subrange(0, i + 1), f) == items(xs.subrange(0, i), f) + f(xs[i]),
{
    assert(xs.subrange(0, i + 1).drop_last() =~= xs.subrange(0, i));
    assert(xs.subrange(0, i + 1).last() == xs[i]);
}

proof fn lemma_items_whole<A>(xs: Seq<A>, f: spec_fn(A) -> Seq<u64>)
    ensures
        items(xs.subrange(0, xs.len() as int), f) == items(xs, f),
{
    assert(xs.subrange(0, xs.len() as int) =~= xs);
}

// ---- writing ----

fn push_kinds(out: &mut Vec<u64>, s: &Vec<ValType>)
    ensures
        final(out)@ == old(out)@ + list(s@, kind_item()),
{
    let ghost f = kind_item();
    out.push(s.len() as u64);
    let ghost base = out@;
    let mut i: usize = 0;
    while i < s.len()
        invariant
            f == kind_item(),
            i <= s@.len(),
            out@ == base + items(s@.subrange(0, i as int), f),
        decreases s@.len() - i,
    {
        assert(s@.subrange(0, i as int + 1).drop_last() =~= s@.subrange(0, i as int));
        out.push(tag_of(s[i]));
        i = i + 1;
    }
    proof { lemma_items_whole(s@, f); }
}

fn push_bytes(out: &mut Vec<u64>, s: &Vec<u8>)
    ensures
        final(out)@ == old(out)@ + list(s@, byte_item()),
{
    let ghost f = byte_item();
    out.push(s.len() as u64);
    let ghost base = out@;
    let mut i: usize = 0;
    while i < s.len()
        invariant
            f == byte_item(),
            i <= s@.len(),
            out@ == base + items(s@.subrange(0, i as int), f),
        decreases s@.len() - i,
    {
        assert(s@.subrange(0, i as int + 1).drop_last() =~= s@.subrange(0, i as int));
        out.push(s[i] as u64);
        i = i + 1;
    }
    proof { lemma_items_whole(s@, f); }
}

fn push_bounds(out: &mut Vec<u64>, minimum: u32, maximum: Option<u32>)
    ensures
        final(out)@ == old(out)@ + bounds_words(minimum, maximum),
{
    out.push(minimum as u64);
    match maximum {
        Some(m) => {
            out.push(1);
            out.push(m as u64);
        },
        None => {
            out.push(0);
            out.push(0);
        },
    }
}

fn push_signatures(out: &mut Vec<u64>, xs: &Vec<FuncType>)
    ensures
        final(out)@ == old(out)@ + list(xs@.map_values(|f: FuncType| f@), sig_item()),
{
    let ghost v = xs@.map_values(|f: FuncType| f@);
    let ghost f = sig_item();
    out.push(xs.len() as u64);
    let ghost b = out@;
    let mut i: usize = 0;
    while i < xs.len()
        invariant
            f == sig_item(),
            v == xs@.map_values(|f: FuncType| f@),
            i <= v.len(),
            out@ == b + items(v.subrange(0, i as int), f),
        decreases v.len() - i,
    {
        let ghost prev = out@;
        proof {
            lemma_items_step(v, f, i as int);
        }
        push_kinds(out, &xs[i].params);
        push_kinds(out, &xs[i].results);
        assert(out@ =~= prev + f(v[i as int]));
        assert(out@ =~= b + items(v.subrange(0, i as int + 1), f));
        i = i + 1;
    }
    proof {
        lemma_items_whole(v, f);
    }
    assert(out@ =~= old(out)@ + list(v, f));
}

fn push_imports(out: &mut Vec<u64>, xs: &Vec<FunctionImport>)
    ensures
        final(out)@ == old(out)@ + list(xs@.map_values(|x: FunctionImport| x@), import_item()),
{
    let ghost v = xs@.map_values(|x: FunctionImport| x@);
    let ghost f = import_item();
    out.push(xs.len() as u64);
    let ghost b = out@;
    let mut i: usize = 0;
    while i < xs.len()
        invariant
            f == import_item(),
            v == xs@.map_values(|x: FunctionImport| x@),
            i <= v.len(),
            out@ == b + items(v.subrange(0, i as int), f),
        decreases v.len() - i,
    {
        let ghost prev = out@;
        proof {
            lemma_items_step(v, f, i as int);
        }
        push_bytes(out, &xs[i].namespace);
        push_bytes(out, &xs[i].name);
        out.push(xs[i].signature as u64);
        assert(out@ =~= prev + f(v[i as int]));
        assert(out@ =~= b + items(v.subrange(0, i as int + 1), f));
        i = i + 1;
    }
    proof {
        lemma_items_whole(v, f);
    }
    assert(out@ =~= old(out)@ + list(v, f));
}

fn push_indices(out: &mut Vec<u64>, xs: &Vec<usize>)
    ensures
        final(out)@ == old(out)@ + list(xs@, usize_item()),
{
    let ghost v = xs@;
    let ghost f = usize_item();
    out.push(xs.len() as u64);
    let ghost b = out@;
    let mut i: usize = 0;
    while i < xs.len()
        invariant
            f == usize_item(),
            v == xs@,
            i <= v.len(),
            out@ == b + items(v.subrange(0, i as int), f),
        decreases v.len() - i,
    {
        let ghost prev = out@;
        proof {
            lemma_items_step(v, f, i as int);
        }
        out.push(xs[i] as u64);
        assert(out@ =~= prev + f(v[i as int]));
        assert(out@ =~= b + items(v.subrange(0, i as int + 1), f));
        i = i + 1;
    }
    proof {
        lemma_items_whole(v, f);
    }
    assert(out@ =~= old(out)@ + list(v, f));
}

fn push_memories(out: &mut Vec<u64>, xs: &Vec<MemoryPlan>)
    ensures
        final(out)@ == old(out)@ + list(xs@, memory_item()),
{
    let ghost v = xs@;
    let ghost f = memory_item();
    out.push(xs.len() as u64);
    let ghost b = out@;
    let mut i: usize = 0;
    while i < xs.len()
        invariant
            f == memory_item(),
            v == xs@,
            i <= v.len(),
            out@ == b + items(v.subrange(0, i as int), f),
        decreases v.len() - i,
    {
        let ghost prev = out@;
        proof {
            lemma_items_step(v, f, i as int);
        }
        push_bounds(out, xs[i].minimum, xs[i].maximum);
        assert(out@ =~= prev + f(v[i as int]));
        assert(out@ =~= b + items(v.subrange(0, i as int + 1), f));
        i = i + 1;
    }
    proof {
        lemma_items_whole(v, f);
    }
    assert(out@ =~= old(out)@ + list(v, f));
}

fn push_tables(out: &mut Vec<u64>, xs: &Vec<TablePlan>)
    ensures
        final(out)@ == old(out)@ + list(xs@, table_item()),
{
    let ghost v = xs@;
    let ghost f = table_item();
    out.push(xs.len() as u64);
    let ghost b = out@;
    let mut i: usize = 0;
    while i < xs.len()
        invariant
            f == table_item(),
            v == xs@,
            i <= v.len(),
            out@ == b + items(v.subrange(0, i as int), f),
        decreases v.len() - i,
    {
        let ghost prev = out@;
        proof {
            lemma_items_step(v, f, i as int);
        }
        push_bounds(out, xs[i].minimum, xs[i].maximum);
        assert(out@ =~= prev + f(v[i as int]));
        assert(out@ =~= b + items(v.subrange(0, i as int + 1), f));
        i = i + 1;
    }
    proof {
        lemma_items_whole(v, f);
    }
    assert(out@ =~= old(out)@ + list(v, f));
}

fn push_slices(out: &mut Vec<u64>, xs: &Vec<CodeSlice>)
    ensures
        final(out)@ == old(out)@ + list(xs@, slice_item()),
{
    let ghost v = xs@;
    let ghost f = slice_item();
    out.push(xs.len() as u64);
    let ghost b = out@;
    let mut i: usize = 0;
    while i < xs.len()
        invariant
            f == slice_item(),
            v == xs@,
            i <= v.len(),
            out@ == b + items(v.subrange(0, i as int), f),
        decreases v.len() - i,
    {
        let ghost prev = out@;
        proof {
            lemma_items_step(v, f, i as int);
        }
        out.push(xs[i].region as u64);
        out.push(xs[i].len as u64);
        assert(out@ =~= prev + f(v[i as int]));
        assert(out@ =~= b + items(v.subrange(0, i as int + 1), f));
        i = i + 1;
    }
    proof {
        lemma_items_whole(v, f);
    }
    assert(out@ =~= old(out)@ + list(v, f));
}

fn push_ids(out: &mut Vec<u64>, xs: &Vec<SigId>)
    ensures
        final(out)@ == old(out)@ + list(xs@, id_item()),
{
    let ghost v = xs@;
    let ghost f = id_item();
    out.push(xs.len() as u64);
    let ghost b = out@;
    let mut i: usize = 0;
    while i < xs.len()
        invariant
            f == id_item(),
            v == xs@,
            i <= v.len(),
            out@ == b + items(v.subrange(0, i as int), f),
        decreases v.len() - i,
    {
        let ghost prev = out@;
        proof {
            lemma_items_step(v, f, i as int);
        }
        out.push(xs[i].index as u64);
        assert(out@ =~= prev + f(v[i as int]));
        assert(out@ =~= b + items(v.subrange(0, i as int + 1), f));
        i = i + 1;
    }
    proof {
        lemma_items_whole(v, f);
    }
    assert(out@ =~= old(out)@ + list(v, f));
}

/// The words of a serialized module.
pub fn module_to_words(m: &CompiledModule) -> (r: Vec<u64>)
    ensures
        r@ == module_words(module_view(m)),
{
    let mut out: Vec<u64> = Vec::new();
    out.push(MAGIC);
    out.push(FORMAT_VERSION);
    out.push(m.engine);
    push_signatures(&mut out, &m.info.signatures);
    push_imports(&mut out, &m.info.imports);
    push_indices(&mut out, &m.info.functions);
    push_memories(&mut out, &m.info.memories);
    push_tables(&mut out, &m.info.tables);
    push_slices(&mut out, &m.functions);
    push_ids(&mut out, &m.signature_ids);
    assert(out@ =~= module_words(module_view(m)));
    out
}

// ---- reading ----

proof fn lemma_items_len<A>(xs: Seq<A>, f: spec_fn(A) -> Seq<u64>)
    requires
        forall|x: A| 1 <= #[trigger] f(x).len(),
    ensures
        xs.len() <= items(xs, f).len(),
    decreases xs.len(),
{
    if xs.len() > 0 {
        lemma_items_len(xs.drop_last(), f);
        assert(1 <= f(xs.last()).len());
    }
}

proof fn lemma_list_head<A>(w: Seq<u64>, pos: int, xs: Seq<A>, f: spec_fn(A) -> Seq<u64>)
    requires
        holds_at(w, pos, list(xs, f)),
    ensures
        w[pos] == xs.len() as u64,
        holds_at(w, pos + 1, items(xs, f)),
{
    lemma_holds_split(w, pos, seq![xs.len() as u64], items(xs, f));
    assert(w.subrange(pos, pos + 1)[0] == w[pos]);
}

proof fn lemma_word_at(w: Seq<u64>, pos: int, x: u64)
    requires
        holds_at(w, pos, seq![x]),
    ensures
        w[pos] == x,
{
    assert(w.subrange(pos, pos + 1)[0] == w[pos]);
}

fn parse_kinds(w: &Vec<u64>, pos: usize, Ghost(g): Ghost<Seq<ValType>>) -> (r: Option<(Vec<ValType>, usize)>)
    ensures
        holds_at(w@, pos as int, list(g, kind_item())) ==> (r matches Some((v, p)) && v@ == g
            && p == pos + list(g, kind_item()).len()),
        r matches Some((_, p)) ==> pos <= p <= w@.len(),
{
    let ghost ok = holds_at(w@, pos as int, list(g, kind_item()));
    let ghost f = kind_item();
    proof {
        if ok {
            lemma_list_head(w@, pos as int, g, f);
            lemma_items_len(g, f);
            assert(g.subrange(0, 0) =~= Seq::<_>::empty());
        }
    }
    if pos >= w.len() {
        return None;
    }
    let n = w[pos];
    if n > (w.len() - pos - 1) as u64 {
        return None;
    }
    let n = n as usize;
    let mut v: Vec<ValType> = Vec::new();
    let mut p: usize = pos + 1;
    let mut i: usize = 0;
    while i < n
        invariant
            f == kind_item(),
            ok == holds_at(w@, pos as int, list(g, kind_item())),
            n <= w@.len() - pos - 1,
            i <= n,
            p == pos + 1 + i,
            ok ==> holds_at(w@, pos as int + 1, items(g, f)),
            ok ==> n == g.len() && v@ == g.subrange(0, i as int) && p == pos + 1 + items(g.subrange(0, i as int), f).len(),
        decreases n - i,
    {
        if p >= w.len() {
            return None;
        }
        proof {
            if ok {
                lemma_item_at(w@, pos as int + 1, g, f, i as int);
                assert(f(g[i as int]) == kind_words(g[i as int]));
                lemma_word_at(w@, p as int, tag(g[i as int]));
                assert(w@[p as int] == tag(g[i as int]));
            }
        }
        match from_tag(w[p]) {
            Some(t) => {
                v.push(t);
            },
            None => {
                return None;
            },
        }
        proof {
            if ok {
                assert(v@ =~= g.subrange(0, i as int + 1));
            }
        }
        p = p + 1;
        i = i + 1;
    }
    proof {
        if ok {
            lemma_items_whole(g, f);
            assert(v@ =~= g);
        }
    }
    Some((v, p))
}

fn parse_bytes(w: &Vec<u64>, pos: usize, Ghost(g): Ghost<Seq<u8>>) -> (r: Option<(Vec<u8>, usize)>)
    ensures
        holds_at(w@, pos as int, list(g, byte_item())) ==> (r matches Some((v, p)) && v@ == g
            && p == pos + list(g, byte_item()).len()),
        r matches Some((_, p)) ==> pos <= p <= w@.len(),
{
    let ghost ok = holds_at(w@, pos as int, list(g, byte_item()));
    let ghost f = byte_item();
    proof {
        if ok {
            lemma_list_head(w@, pos as int, g, f);
            lemma_items_len(g, f);
            assert(g.subrange(0, 0) =~= Seq::<_>::empty());
        }
    }
    if pos >= w.len() {
        return None;
    }
    let n = w[pos];
    if n > (w.len() - pos - 1) as u64 {
        return None;
    }
    let n = n as usize;
    let mut v: Vec<u8> = Vec::new();
    let mut p: usize = pos + 1;
    let mut i: usize = 0;
    while i < n
        invariant
            f == byte_item(),
            ok == holds_at(w@, pos as int, list(g, byte_item())),
            n <= w@.len() - pos - 1,
            i <= n,
            p == pos + 1 + i,
            ok ==> holds_at(w@, pos as int + 1, items(g, f)),
            ok ==> n == g.len() && v@ == g.subrange(0, i as int) && p == pos + 1 + items(g.subrange(0, i as int), f).len(),
        decreases n - i,
    {
        if p >= w.len() {
            return None;
        }
        proof {
            if ok {
                lemma_item_at(w@, pos as int + 1, g, f, i as int);
                assert(f(g[i as int]) == byte_words(g[i as int]));
                lemma_word_at(w@, p as int, g[i as int] as u64);
                assert(w@[p as int] == g[i as int] as u64);
            }
        }
        let x = w[p];
        if x > 255 {
            return None;
        }
        v.push(x as u8);
        proof {
            if ok {
                assert(v@ =~= g.subrange(0, i as int + 1));
            }
        }
        p = p + 1;
        i = i + 1;
    }
    proof {
        if ok {
            lemma_items_whole(g, f);
            assert(v@ =~= g);
        }
    }
    Some((v, p))
}

fn parse_bounds(w: &Vec<u64>, pos: usize, Ghost(gmin): Ghost<u32>, Ghost(gmax): Ghost<Option<u32>>)
    -> (r: Option<(u32, Option<u32>, usize)>)
    ensures
        holds_at(w@, pos as int, bounds_words(gmin, gmax)) ==> (r matches Some((a, b, p)) && a == gmin && b == gmax && p == pos + 3),
        r matches Some((_, _, p)) ==> pos <= p <= w@.len(),
{
    let ghost ok = holds_at(w@, pos as int, bounds_words(gmin, gmax));
    proof {
        if ok {
            let x = bounds_words(gmin, gmax);
            assert(w@.subrange(pos as int, pos as int + 3)[0] == w@[pos as int]);
            assert(w@.subrange(pos as int, pos as int + 3)[1] == w@[pos as int + 1]);
            assert(w@.subrange(pos as int, pos as int + 3)[2] == w@[pos as int + 2]);
        }
    }
    if pos > w.len() || w.len() - pos < 3 {
        return None;
    }
    let a = w[pos];
    let flag = w[pos + 1];
    let c = w[pos + 2];
    if a > 4294967295 || c > 4294967295 {
        return None;
    }
    if flag == 0 {
        if c != 0 {
            return None;
        }
        Some((a as u32, None, pos + 3))
    } else if flag == 1 {
        Some((a as u32, Some(c as u32), pos + 3))
    } else {
        None
    }
}

fn parse_word(w: &Vec<u64>, pos: usize, Ghost(g): Ghost<u64>) -> (r: Option<(u64, usize)>)
    ensures
        holds_at(w@, pos as int, seq![g]) ==> (r matches Some((x, p)) && x == g && p == pos + 1),
        r matches Some((_, p)) ==> pos <= p <= w@.len(),
{
    proof {
        if holds_at(w@, pos as int, seq![g]) {
            lemma_word_at(w@, pos as int, g);
        }
    }
    if pos >= w.len() {
        return None;
    }
    Some((w[pos], pos + 1))
}

fn parse_sig(w: &Vec<u64>, pos: usize, Ghost(g): Ghost<FuncTypeView>) -> (r: Option<(FuncType, usize)>)
    ensures
        holds_at(w@, pos as int, sig_words(g)) ==> (r matches Some((f, p)) && f@ == g && p == pos + sig_words(g).len()),
        r matches Some((_, p)) ==> pos <= p <= w@.len(),
{
    proof {
        if holds_at(w@, pos as int, sig_words(g)) {
            lemma_holds_split(w@, pos as int, list(g.params, kind_item()), list(g.results, kind_item()));
        }
    }
    match parse_kinds(w, pos, Ghost(g.params)) {
        None => None,
        Some((a, p1)) => match parse_kinds(w, p1, Ghost(g.results)) {
            None => None,
            Some((b, p2)) => Some((FuncType::new(a, b), p2)),
        },
    }
}

fn parse_import(w: &Vec<u64>, pos: usize, Ghost(g): Ghost<ImportView>) -> (r: Option<(FunctionImport, usize)>)
    ensures
        holds_at(w@, pos as int, import_words(g)) ==> (r matches Some((x, p)) && x@ == g && p == pos + import_words(g).len()),
        r matches Some((_, p)) ==> pos <= p <= w@.len(),
{
    let ghost ns = list(g.namespace, byte_item());
    let ghost nm = list(g.name, byte_item());
    proof {
        if holds_at(w@, pos as int, import_words(g)) {
            lemma_holds_split(w@, pos as int, ns, nm + usize_words(g.signature));
            lemma_holds_split(w@, pos as int + ns.len(), nm, usize_words(g.signature));
        }
        assert((g.signature as u64) as usize == g.signature);
    }
    match parse_bytes(w, pos, Ghost(g.namespace)) {
        None => None,
        Some((a, p1)) => match parse_bytes(w, p1, Ghost(g.name)) {
            None => None,
            Some((b, p2)) => match parse_word(w, p2, Ghost(g.signature as u64)) {
                None => None,
                Some((c, p3)) => Some((FunctionImport { namespace: a, name: b, signature: c as usize }, p3)),
            },
        },
    }
}

fn parse_slice(w: &Vec<u64>, pos: usize, Ghost(g): Ghost<CodeSlice>) -> (r: Option<(CodeSlice, usize)>)
    ensures
        holds_at(w@, pos as int, slice_words(g)) ==> (r matches Some((x, p)) && x == g && p == pos + 2),
        r matches Some((_, p)) ==> pos <= p <= w@.len(),
{
    proof {
        if holds_at(w@, pos as int, slice_words(g)) {
            assert(slice_words(g) =~= seq![g.region as u64] + seq![g.len as u64]);
            lemma_holds_split(w@, pos as int, seq![g.region as u64], seq![g.len as u64]);
        }
        assert((g.region as u64) as usize == g.region);
        assert((g.len as u64) as usize == g.len);
    }
    match parse_word(w, pos, Ghost(g.region as u64)) {
        None => None,
        Some((a, p1)) => match parse_word(w, p1, Ghost(g.len as u64)) {
            None => None,
            Some((b, p2)) => {
                let c = CodeSlice { region: a as usize, len: b as usize };
                proof {
                    if holds_at(w@, pos as int, slice_words(g)) {
                        assert(c == g);
                    }
                }
                Some((c, p2))
            },
        },
    }
}

fn parse_signatures(w: &Vec<u64>, pos: usize, Ghost(g): Ghost<Seq<FuncTypeView>>) -> (r: Option<(Vec<FuncType>, usize)>)
    ensures
        holds_at(w@, pos as int, list(g, sig_item())) ==> (r matches Some((v, p)) && v@.map_values(|f: FuncType| f@) == g
            && p == pos + list(g, sig_item()).len()),
        r matches Some((_, p)) ==> pos <= p <= w@.len(),
{
    let ghost ok = holds_at(w@, pos as int, list(g, sig_item()));
    let ghost f = sig_item();
    proof {
        if ok {
            lemma_list_head(w@, pos as int, g, f);
            lemma_items_len(g, f);
            assert(g.subrange(0, 0) =~= Seq::<FuncTypeView>::empty());
        }
    }
    if pos >= w.len() {
        return None;
    }
    let n = w[pos];
    if n > (w.len() - pos - 1) as u64 {
        return None;
    }
    let n = n as usize;
    let mut v: Vec<FuncType> = Vec::new();
    let mut p: usize = pos + 1;
    let mut i: usize = 0;
    while i < n
        invariant
            f == sig_item(),
            ok == holds_at(w@, pos as int, list(g, sig_item())),
            n <= w@.len() - pos - 1,
            i <= n,
            pos + 1 <= p <= w@.len(),
            ok ==> holds_at(w@, pos as int + 1, items(g, f)),
            ok ==> n == g.len() && v@.map_values(|f: FuncType| f@) == g.subrange(0, i as int)
                && p == pos + 1 + items(g.subrange(0, i as int), f).len(),
        decreases n - i,
    {
        proof {
            if ok {
                lemma_item_at(w@, pos as int + 1, g, f, i as int);
                assert(f(g[i as int]) == sig_words(g[i as int]));
            }
        }
        match parse_sig(w, p, Ghost(g[i as int])) {
            Some((x, q)) => {
                let ghost before = v@;
                v.push(x);
                proof {
                    if ok {
                        assert(v@.map_values(|f: FuncType| f@) =~= g.subrange(0, i as int + 1));
                    }
                }
                p = q;
            },
            _ => {
                return None;
            },
        }
        i = i + 1;
    }
    proof {
        if ok {
            lemma_items_whole(g, f);
            assert(v@.map_values(|f: FuncType| f@) =~= g);
        }
    }
    Some((v, p))
}

fn parse_imports(w: &Vec<u64>, pos: usize, Ghost(g): Ghost<Seq<ImportView>>) -> (r: Option<(Vec<FunctionImport>, usize)>)
    ensures
        holds_at(w@, pos as int, list(g, import_item())) ==> (r matches Some((v, p)) && v@.map_values(|x: FunctionImport| x@) == g
            && p == pos + list(g, import_item()).len()),
        r matches Some((_, p)) ==> pos <= p <= w@.len(),
{
    let ghost ok = holds_at(w@, pos as int, list(g, import_item()));
    let ghost f = import_item();
    proof {
        if ok {
            lemma_list_head(w@, pos as int, g, f);
            lemma_items_len(g, f);
            assert(g.subrange(0, 0) =~= Seq::<ImportView>::empty());
        }
    }
    if pos >= w.len() {
        return None;
    }
    let n = w[pos];
    if n > (w.len() - pos - 1) as u64 {
        return None;
    }
    let n = n as usize;
    let mut v: Vec<FunctionImport> = Vec::new();
    let mut p: usize = pos + 1;
    let mut i: usize = 0;
    while i < n
        invariant
            f == import_item(),
            ok == holds_at(w@, pos as int, list(g, import_item())),
            n <= w@.len() - pos - 1,
            i <= n,
            pos + 1 <= p <= w@.len(),
            ok ==> holds_at(w@, pos as int + 1, items(g, f)),
            ok ==> n == g.len() && v@.map_values(|x: FunctionImport| x@) == g.subrange(0, i as int)
                && p == pos + 1 + items(g.subrange(0, i as int), f).len(),
        decreases n - i,
    {
        proof {
            if ok {
                lemma_item_at(w@, pos as int + 1, g, f, i as int);
                assert(f(g[i as int]) == import_words(g[i as int]));
            }
        }
        match parse_import(w, p, Ghost(g[i as int])) {
            Some((x, q)) => {
                let ghost before = v@;
                v.push(x);
                proof {
                    if ok {
                        assert(v@.map_values(|x: FunctionImport| x@) =~= g.subrange(0, i as int + 1));
                    }
                }
                p = q;
            },
            _ => {
                return None;
            },
        }
        i = i + 1;
    }
    proof {
        if ok {
            lemma_items_whole(g, f);
            assert(v@.map_values(|x: FunctionImport| x@) =~= g);
        }
    }
    Some((v, p))
}

fn parse_indices(w: &Vec<u64>, pos: usize, Ghost(g): Ghost<Seq<usize>>) -> (r: Option<(Vec<usize>, usize)>)
    ensures
        holds_at(w@, pos as int, list(g, usize_item())) ==> (r matches Some((v, p)) && v@ == g
            && p == pos + list(g, usize_item()).len()),
        r matches Some((_, p)) ==> pos <= p <= w@.len(),
{
    let ghost ok = holds_at(w@, pos as int, list(g, usize_item()));
    let ghost f = usize_item();
    proof {
        if ok {
            lemma_list_head(w@, pos as int, g, f);
            lemma_items_len(g, f);
            assert(g.subrange(0, 0) =~= Seq::<usize>::empty());
        }
    }
    if pos >= w.len() {
        return None;
    }
    let n = w[pos];
    if n > (w.len() - pos - 1) as u64 {
        return None;
    }
    let n = n as usize;
    let mut v: Vec<usize> = Vec::new();
    let mut p: usize = pos + 1;
    let mut i: usize = 0;
    while i < n
        invariant
            f == usize_item(),
            ok == holds_at(w@, pos as int, list(g, usize_item())),
            n <= w@.len() - pos - 1,
            i <= n,
            pos + 1 <= p <= w@.len(),
            ok ==> holds_at(w@, pos as int + 1, items(g, f)),
            ok ==> n == g.len() && v@ == g.subrange(0, i as int)
                && p == pos + 1 + items(g.subrange(0, i as int), f).len(),
        decreases n - i,
    {
        proof {
            if ok {
                lemma_item_at(w@, pos as int + 1, g, f, i as int);
                assert(f(g[i as int]) == usize_words(g[i as int]));
                assert((g[i as int] as u64) as usize == g[i as int]);
            }
        }
        match parse_word(w, p, Ghost(g[i as int] as u64)) {
            Some((x, q)) => {
                let ghost before = v@;
                v.push(x as usize);
                proof {
                    if ok {
                        assert(v@ =~= g.subrange(0, i as int + 1));
                    }
                }
                p = q;
            },
            _ => {
                return None;
            },
        }
        i = i + 1;
    }
    proof {
        if ok {
            lemma_items_whole(g, f);
            assert(v@ =~= g);
        }
    }
    Some((v, p))
}

fn parse_memories(w: &Vec<u64>, pos: usize, Ghost(g): Ghost<Seq<MemoryPlan>>) -> (r: Option<(Vec<MemoryPlan>, usize)>)
    ensures
        holds_at(w@, pos as int, list(g, memory_item())) ==> (r matches Some((v, p)) && v@ == g
            && p == pos + list(g, memory_item()).len()),
        r matches Some((_, p)) ==> pos <= p <= w@.len(),
{
    let ghost ok = holds_at(w@, pos as int, list(g, memory_item()));
    let ghost f = memory_item();
    proof {
        if ok {
            lemma_list_head(w@, pos as int, g, f);
            lemma_items_len(g, f);
            assert(g.subrange(0, 0) =~= Seq::<MemoryPlan>::empty());
        }
    }
    if pos >= w.len() {
        return None;
    }
    let n = w[pos];
    if n > (w.len() - pos - 1) as u64 {
        return None;
    }
    let n = n as usize;
    let mut v: Vec<MemoryPlan> = Vec::new();
    let mut p: usize = pos + 1;
    let mut i: usize = 0;
    while i < n
        invariant
            f == memory_item(),
            ok == holds_at(w@, pos as int, list(g, memory_item())),
            n <= w@.len() - pos - 1,
            i <= n,
            pos + 1 <= p <= w@.len(),
            ok ==> holds_at(w@, pos as int + 1, items(g, f)),
            ok ==> n == g.len() && v@ == g.subrange(0, i as int)
                && p == pos + 1 + items(g.subrange(0, i as int), f).len(),
        decreases n - i,
    {
        proof {
            if ok {
                lemma_item_at(w@, pos as int + 1, g, f, i as int);
                assert(f(g[i as int]) == memory_words(g[i as int]));
                assert(memory_words(g[i as int]).len() == 3);
            }
        }
        match parse_bounds(w, p, Ghost(g[i as int].minimum), Ghost(g[i as int].maximum)) {
            Some((a, b, q)) => {
                let x = (a, b);
                let ghost before = v@;
                v.push(MemoryPlan { minimum: x.0, maximum: x.1 });
                proof {
                    if ok {
                        assert(v@ =~= g.subrange(0, i as int + 1));
                    }
                }
                p = q;
            },
            _ => {
                return None;
            },
        }
        i = i + 1;
    }
    proof {
        if ok {
            lemma_items_whole(g, f);
            assert(v@ =~= g);
        }
    }
    Some((v, p))
}

fn parse_tables(w: &Vec<u64>, pos: usize, Ghost(g): Ghost<Seq<TablePlan>>) -> (r: Option<(Vec<TablePlan>, usize)>)
    ensures
        holds_at(w@, pos as int, list(g, table_item())) ==> (r matches Some((v, p)) && v@ == g
            && p == pos + list(g, table_item()).len()),
        r matches Some((_, p)) ==> pos <= p <= w@.len(),
{
    let ghost ok = holds_at(w@, pos as int, list(g, table_item()));
    let ghost f = table_item();
    proof {
        if ok {
            lemma_list_head(w@, pos as int, g, f);
            lemma_items_len(g, f);
            assert(g.subrange(0, 0) =~= Seq::<TablePlan>::empty());
        }
    }
    if pos >= w.len() {
        return None;
    }
    let n = w[pos];
    if n > (w.len() - pos - 1) as u64 {
        return None;
    }
    let n = n as usize;
    let mut v: Vec<TablePlan> = Vec::new();
    let mut p: usize = pos + 1;
    let mut i: usize = 0;
    while i < n
        invariant
            f == table_item(),
            ok == holds_at(w@, pos as int, list(g, table_item())),
            n <= w@.len() - pos - 1,
            i <= n,
            pos + 1 <= p <= w@.len(),
            ok ==> holds_at(w@, pos as int + 1, items(g, f)),
            ok ==> n == g.len() && v@ == g.subrange(0, i as int)
                && p == pos + 1 + items(g.subrange(0, i as int), f).len(),
        decreases n - i,
    {
        proof {
            if ok {
                lemma_item_at(w@, pos as int + 1, g, f, i as int);
                assert(f(g[i as int]) == table_words(g[i as int]));
                assert(table_words(g[i as int]).len() == 3);
            }
        }
        match parse_bounds(w, p, Ghost(g[i as int].minimum), Ghost(g[i as int].maximum)) {
            Some((a, b, q)) => {
                let x = (a, b);
                let ghost before = v@;
                v.push(TablePlan { minimum: x.0, maximum: x.1 });
                proof {
                    if ok {
                        assert(v@ =~= g.subrange(0, i as int + 1));
                    }
                }
                p = q;
            },
            _ => {
                return None;
            },
        }
        i = i + 1;
    }
    proof {
        if ok {
            lemma_items_whole(g, f);
            assert(v@ =~= g);
        }
    }
    Some((v, p))
}

fn parse_slices(w: &Vec<u64>, pos: usize, Ghost(g): Ghost<Seq<CodeSlice>>) -> (r: Option<(Vec<CodeSlice>, usize)>)
    ensures
        holds_at(w@, pos as int, list(g, slice_item())) ==> (r matches Some((v, p)) && v@ == g
            && p == pos + list(g, slice_item()).len()),
        r matches Some((_, p)) ==> pos <= p <= w@.len(),
{
    let ghost ok = holds_at(w@, pos as int, list(g, slice_item()));
    let ghost f = slice_item();
    proof {
        if ok {
            lemma_list_head(w@, pos as int, g, f);
            lemma_items_len(g, f);
            assert(g.subrange(0, 0) =~= Seq::<CodeSlice>::empty());
        }
    }
    if pos >= w.len() {
        return None;
    }
    let n = w[pos];
    if n > (w.len() - pos - 1) as u64 {
        return None;
    }
    let n = n as usize;
    let mut v: Vec<CodeSlice> = Vec::new();
    let mut p: usize = pos + 1;
    let mut i: usize = 0;
    while i < n
        invariant
            f == slice_item(),
            ok == holds_at(w@, pos as int, list(g, slice_item())),
            n <= w@.len() - pos - 1,
            i <= n,
            pos + 1 <= p <= w@.len(),
            ok ==> holds_at(w@, pos as int + 1, items(g, f)),
            ok ==> n == g.len() && v@ == g.subrange(0, i as int)
                && p == pos + 1 + items(g.subrange(0, i as int), f).len(),
        decreases n - i,
    {
        proof {
            if ok {
                lemma_item_at(w@, pos as int + 1, g, f, i as int);
                assert(f(g[i as int]) == slice_words(g[i as int]));
            }
        }
        match parse_slice(w, p, Ghost(g[i as int])) {
            Some((x, q)) => {
                let ghost before = v@;
                v.push(x);
                proof {
                    if ok {
                        assert(v@ =~= g.subrange(0, i as int + 1));
                    }
                }
                p = q;
            },
            _ => {
                return None;
            },
        }
        i = i + 1;
    }
    proof {
        if ok {
            lemma_items_whole(g, f);
            assert(v@ =~= g);
        }
    }
    Some((v, p))
}

fn parse_ids(w: &Vec<u64>, pos: usize, Ghost(g): Ghost<Seq<SigId>>) -> (r: Option<(Vec<SigId>, usize)>)
    ensures
        holds_at(w@, pos as int, list(g, id_item())) ==> (r matches Some((v, p)) && v@ == g
            && p == pos + list(g, id_item()).len()),
        r matches Some((_, p)) ==> pos <= p <= w@.len(),
{
    let ghost ok = holds_at(w@, pos as int, list(g, id_item()));
    let ghost f = id_item();
    proof {
        if ok {
            lemma_list_head(w@, pos as int, g, f);
            lemma_items_len(g, f);
            assert(g.subrange(0, 0) =~= Seq::<SigId>::empty());
        }
    }
    if pos >= w.len() {
        return None;
    }
    let n = w[pos];
    if n > (w.len() - pos - 1) as u64 {
        return None;
    }
    let n = n as usize;
    let mut v: Vec<SigId> = Vec::new();
    let mut p: usize = pos + 1;
    let mut i: usize = 0;
    while i < n
        invariant
            f == id_item(),
            ok == holds_at(w@, pos as int, list(g, id_item())),
            n <= w@.len() - pos - 1,
            i <= n,
            pos + 1 <= p <= w@.len(),
            ok ==> holds_at(w@, pos as int + 1, items(g, f)),
            ok ==> n == g.len() && v@ == g.subrange(0, i as int)
                && p == pos + 1 + items(g.subrange(0, i as int), f).len(),
        decreases n - i,
    {
        proof {
            if ok {
                lemma_item_at(w@, pos as int + 1, g, f, i as int);
                assert(f(g[i as int]) == id_words(g[i as int]));
                assert((g[i as int].index as u64) as usize == g[i as int].index);
            }
        }
        match parse_word(w, p, Ghost(g[i as int].index as u64)) {
            Some((x, q)) => {
                let ghost before = v@;
                v.push(SigId { index: x as usize });
                proof {
                    if ok {
                        assert(v@ =~= g.subrange(0, i as int + 1));
                    }
                }
                p = q;
            },
            _ => {
                return None;
            },
        }
        i = i + 1;
    }
    proof {
        if ok {
            lemma_items_whole(g, f);
            assert(v@ =~= g);
        }
    }
    Some((v, p))
}

/// Reads a module back from its words. Returns the module that `g` describes
/// whenever `w` holds exactly the words of `g`.
fn parse_module_words(w: &Vec<u64>, Ghost(g): Ghost<ModuleView>) -> (r: Option<CompiledModule>)
    ensures
        w@ == module_words(g) ==> (r matches Some(m) && module_view(&m) == g),
{
    let ghost ok = w@ == module_words(g);
    let ghost l1 = list(g.signatures, sig_item());
    let ghost l2 = list(g.imports, import_item());
    let ghost l3 = list(g.functions, usize_item());
    let ghost l4 = list(g.memories, memory_item());
    let ghost l5 = list(g.tables, table_item());
    let ghost l6 = list(g.code, slice_item());
    let ghost l7 = list(g.signature_ids, id_item());
    let ghost h = seq![MAGIC, FORMAT_VERSION, g.engine];
    proof {
        if ok {
            assert(w@.subrange(0, w@.len() as int) =~= w@);
            lemma_holds_split(w@, 0, h, l1 + (l2 + (l3 + (l4 + (l5 + (l6 + l7))))));
            lemma_holds_split(w@, 3, l1, l2 + (l3 + (l4 + (l5 + (l6 + l7)))));
            let p2: int = 3int + l1.len();
            lemma_holds_split(w@, p2, l2, l3 + (l4 + (l5 + (l6 + l7))));
            let p3: int = p2 + l2.len();
            lemma_holds_split(w@, p3, l3, l4 + (l5 + (l6 + l7)));
            let p4: int = p3 + l3.len();
            lemma_holds_split(w@, p4, l4, l5 + (l6 + l7));
            let p5: int = p4 + l4.len();
            lemma_holds_split(w@, p5, l5, l6 + l7);
            let p6: int = p5 + l5.len();
            lemma_holds_split(w@, p6, l6, l7);
            assert(w@[0] == MAGIC && w@[1] == FORMAT_VERSION && w@[2] == g.engine) by {
                assert(w@.subrange(0, 3) == h);
                assert(w@.subrange(0, 3)[0] == w@[0]);
                assert(w@.subrange(0, 3)[1] == w@[1]);
                assert(w@.subrange(0, 3)[2] == w@[2]);
            }
        }
    }
    if w.len() < 3 || w[0] != MAGIC || w[1] != FORMAT_VERSION {
        return None;
    }
    let engine = w[2];
    let (signatures, p) = match parse_signatures(w, 3, Ghost(g.signatures)) {
        Some(x) => x,
        None => {
            return None;
        },
    };
    let (imports, p) = match parse_imports(w, p, Ghost(g.imports)) {
        Some(x) => x,
        None => {
            return None;
        },
    };
    let (functions, p) = match parse_indices(w, p, Ghost(g.functions)) {
        Some(x) => x,
        None => {
            return None;
        },
    };
    let (memories, p) = match parse_memories(w, p, Ghost(g.memories)) {
        Some(x) => x,
        None => {
            return None;
        },
    };
    let (tables, p) = match parse_tables(w, p, Ghost(g.tables)) {
        Some(x) => x,
        None => {
            return None;
        },
    };
    let (code, p) = match parse_slices(w, p, Ghost(g.code)) {
        Some(x) => x,
        None => {
            return None;
        },
    };
    let (signature_ids, p) = match parse_ids(w, p, Ghost(g.signature_ids)) {
        Some(x) => x,
        None => {
            return None;
        },
    };
    if p != w.len() {
        return None;
    }
    let m = CompiledModule {
        engine,
        info: ModuleInfo { signatures, imports, functions, memories, tables },
        functions: code,
        signature_ids,
    };
    proof {
        if ok {
            assert(module_view(&m) == g);
        }
    }
    Some(m)
}

/// The eight little-endian bytes of each word.
pub fn words_to_bytes(w: &Vec<u64>) -> (r: Vec<u8>)
    ensures
        r@ == word_bytes(w@),
{
    let mut out: Vec<u8> = Vec::new();
    let mut j: usize = 0;
    while j < w.len()
        invariant
            j <= w@.len(),
            out@.len() == 8 * j,
            forall|i: int| 0 <= i < 8 * j ==> #[trigger] out@[i] == byte_of(w@[i / 8], i % 8),
        decreases w@.len() - j,
    {
        let x = w[j];
        let mut k: u64 = 0;
        while k < 8
            invariant
                j < w@.len(),
                x == w@[j as int],
                k <= 8,
                out@.len() == 8 * j + k,
                forall|i: int| 0 <= i < 8 * j + k ==> #[trigger] out@[i] == byte_of(w@[i / 8], i % 8),
            decreases 8 - k,
        {
            let ghost before = out@;
            out.push(((x >> (8 * k)) & 0xff) as u8);
            proof {
                let i = 8 * j + k;
                assert(i / 8 == j && i % 8 == k) by (nonlinear_arith)
                    requires i == 8 * j + k, 0 <= k < 8;
                assert forall|t: int| 0 <= t < 8 * j + k + 1 implies #[trigger] out@[t] == byte_of(w@[t / 8], t % 8) by {
                    if t < 8 * j + k {
                        assert(out@[t] == before[t]);
                    }
                }
            }
            k = k + 1;
        }
        j = j + 1;
    }
    assert(out@ =~= word_bytes(w@));
    out
}

/// The words whose bytes `b` holds, or `None` when its length is not a
/// whole number of words.
pub fn bytes_to_words(b: &Vec<u8>) -> (r: Option<Vec<u64>>)
    ensures
        r is None <==> b@.len() % 8 != 0,
        r matches Some(w) ==> word_bytes(w@) == b@,
{
    if b.len() % 8 != 0 {
        return None;
    }
    let len = b.len();
    let n = len / 8;
    let mut out: Vec<u64> = Vec::new();
    let mut j: usize = 0;
    while j < n
        invariant
            n * 8 == b@.len(),
            b@.len() == len,
            j <= n,
            out@.len() == j,
            forall|i: int| 0 <= i < 8 * j ==> b@[i] == #[trigger] byte_of(out@[i / 8], i % 8),
        decreases n - j,
    {
        let ghost before = out@;
        assert(8 * j + 7 < n * 8) by (nonlinear_arith)
            requires j < n;
        let b0 = b[8 * j] as u64;
        let b1 = b[8 * j + 1] as u64;
        let b2 = b[8 * j + 2] as u64;
        let b3 = b[8 * j + 3] as u64;
        let b4 = b[8 * j + 4] as u64;
        let b5 = b[8 * j + 5] as u64;
        let b6 = b[8 * j + 6] as u64;
        let b7 = b[8 * j + 7] as u64;
        let x: u64 = b0 | (b1 << 8u64) | (b2 << 16u64) | (b3 << 24u64) | (b4 << 32u64) | (b5 << 40u64)
            | (b6 << 48u64) | (b7 << 56u64);
        assert(
            ((x >> 0u64) & 0xff) == b0 && ((x >> 8u64) & 0xff) == b1 && ((x >> 16u64) & 0xff) == b2
            && ((x >> 24u64) & 0xff) == b3 && ((x >> 32u64) & 0xff) == b4 && ((x >> 40u64) & 0xff) == b5
            && ((x >> 48u64) & 0xff) == b6 && ((x >> 56u64) & 0xff) == b7
        ) by (bit_vector)
            requires
                b0 < 256 && b1 < 256 && b2 < 256 && b3 < 256 && b4 < 256 && b5 < 256 && b6 < 256 && b7 < 256,
                x == b0 | (b1 << 8u64) | (b2 << 16u64) | (b3 << 24u64) | (b4 << 32u64) | (b5 << 40u64)
                    | (b6 << 48u64) | (b7 << 56u64);
        out.push(x);
        proof {
            assert forall|i: int| 0 <= i < 8 * (j + 1) implies b@[i] == #[trigger] byte_of(out@[i / 8], i % 8) by {
                if i < 8 * j {
                    assert(i / 8 < j) by (nonlinear_arith)
                        requires 0 <= i < 8 * j;
                    assert(out@[i / 8] == before[i / 8]);
                } else {
                    let k = i - 8 * j;
                    assert(i / 8 == j && i % 8 == k) by (nonlinear_arith)
                        requires i == 8 * j + k, 0 <= k < 8;
                    assert(out@[j as int] == x);
                    assert(byte_of(x, k) == ((x >> (8 * k) as u64) & 0xff) as u8);
                }
            }
        }
        j = j + 1;
    }
    assert(word_bytes(out@) =~= b@);
    Some(out)
}

/// Whether every count of the module fits in a word.
pub open spec fn fits(m: ModuleView) -> bool {
    &&& m.signatures.len() <= u64::MAX
    &&& forall|i: int| 0 <= i < m.signatures.len() ==>
        (#[trigger] m.signatures[i]).params.len() <= u64::MAX && m.signatures[i].results.len() <= u64::MAX
    &&& m.imports.len() <= u64::MAX
    &&& forall|i: int| 0 <= i < m.imports.len() ==>
        (#[trigger] m.imports[i]).namespace.len() <= u64::MAX && m.imports[i].name.len() <= u64::MAX
    &&& m.functions.len() <= u64::MAX
    &&& m.memories.len() <= u64::MAX
    &&& m.tables.len() <= u64::MAX
    &&& m.code.len() <= u64::MAX
    &&& m.signature_ids.len() <= u64::MAX
}

/// The module a byte string describes, if it describes one.
pub open spec fn decodes(b: Seq<u8>) -> Option<ModuleView> {
    if exists|m: ModuleView| fits(m) && serialized(m) == b {
        Some(choose|m: ModuleView| fits(m) && serialized(m) == b)
    } else {
        None
    }
}

/// Every module held in memory has counts that fit in a word.
pub proof fn lemma_module_fits(m: &CompiledModule)
    ensures
        fits(module_view(m)),
{
    let v = module_view(m);
    assert(m.info.signatures.len() == m.info.signatures@.len());
    assert(m.info.imports.len() == m.info.imports@.len());
    assert(m.info.functions.len() == m.info.functions@.len());
    assert(m.info.memories.len() == m.info.memories@.len());
    assert(m.info.tables.len() == m.info.tables@.len());
    assert(m.functions.len() == m.functions@.len());
    assert(m.signature_ids.len() == m.signature_ids@.len());
    assert forall|i: int| 0 <= i < v.signatures.len() implies
        (#[trigger] v.signatures[i]).params.len() <= u64::MAX && v.signatures[i].results.len() <= u64::MAX by {
        assert(v.signatures[i] == m.info.signatures@[i]@);
        assert(m.info.signatures@[i].params.len() == m.info.signatures@[i].params@.len());
        assert(m.info.signatures@[i].results.len() == m.info.signatures@[i].results@.len());
    }
    assert forall|i: int| 0 <= i < v.imports.len() implies
        (#[trigger] v.imports[i]).namespace.len() <= u64::MAX && v.imports[i].name.len() <= u64::MAX by {
        assert(v.imports[i] == m.info.imports@[i]@);
        assert(m.info.imports@[i].namespace.len() == m.info.imports@[i].namespace@.len());
        assert(m.info.imports@[i].name.len() == m.info.imports@[i].name@.len());
    }
}

fn same_bytes(a: &Vec<u8>, b: &Vec<u8>) -> (r: bool)
    ensures
        r == (a@ == b@),
{
    if a.len() != b.len() {
        return false;
    }
    let mut i: usize = 0;
    while i < a.len()
        invariant
            i <= a@.len(),
            a@.len() == b@.len(),
            forall|j: int| 0 <= j < i ==> a@[j] == b@[j],
        decreases a@.len() - i,
    {
        if a[i] != b[i] {
            return false;
        }
        i = i + 1;
    }
    assert(a@ =~= b@);
    true
}

/// Reads a module back from bytes: `Some` with the module that the bytes
/// describe whenever they describe one, and `None` whenever they describe none.
pub fn decode_module(b: &Vec<u8>) -> (r: Option<CompiledModule>)
    ensures
        decodes(b@) matches Some(g) ==> (r matches Some(m) && module_view(&m) == g),
        decodes(b@) is None ==> r is None,
{
    match parse_module_bytes(b) {
        None => None,
        Some(m) => {
            let again = words_to_bytes(&module_to_words(&m));
            if same_bytes(&again, b) {
                proof {
                    lemma_module_fits(&m);
                    assert(fits(module_view(&m)) && serialized(module_view(&m)) == b@);
                }
                Some(m)
            } else {
                None
            }
        },
    }
}

fn parse_module_bytes(b: &Vec<u8>) -> (r: Option<CompiledModule>)
    ensures
        decodes(b@) matches Some(g) ==> (r matches Some(m) && module_view(&m) == g),
{
    let ghost g = match decodes(b@) {
        Some(g) => g,
        None => arbitrary(),
    };
    match bytes_to_words(b) {
        None => {
            proof {
                if decodes(b@) is Some {
                    assert(serialized(g).len() % 8 == 0) by {
                        assert(serialized(g).len() == module_words(g).len() * 8);
                    }
                }
            }
            None
        },
        Some(w) => {
            proof {
                if decodes(b@) is Some {
                    lemma_word_bytes_injective(w@, module_words(g));
                }
            }
            parse_module_words(&w, Ghost(g))
        },
    }
}

/// Distinct word strings have distinct bytes.
pub proof fn lemma_word_bytes_injective(a: Seq<u64>, b: Seq<u64>)
    requires
        word_bytes(a) == word_bytes(b),
    ensures
        a == b,
{
    assert(a.len() == b.len()) by {
        assert(word_bytes(a).len() == a.len() * 8);
        assert(word_bytes(b).len() == b.len() * 8);
    }
    assert forall|j: int| 0 <= j < a.len() implies a[j] == b[j] by {
        assert forall|k: int| 0 <= k < 8 implies byte_of(a[j], k) == byte_of(b[j], k) by {
            let i = 8 * j + k;
            assert(i / 8 == j && i % 8 == k) by (nonlinear_arith)
                requires i == 8 * j + k, 0 <= k < 8;
            assert(0 <= i < a.len() * 8) by (nonlinear_arith)
                requires i == 8 * j + k, 0 <= k < 8, 0 <= j < a.len();
            assert(word_bytes(a)[i] == byte_of(a[i / 8], i % 8));
            assert(word_bytes(b)[i] == byte_of(b[i / 8], i % 8));
            assert(word_bytes(a)[i] == word_bytes(b)[i]);
        }
        lemma_bytes_determine_word(a[j], b[j]);
    }
    assert(a =~= b);
}

proof fn lemma_bytes_determine_word(x: u64, y: u64)
    requires
        forall|k: int| 0 <= k < 8 ==> byte_of(x, k) == byte_of(y, k),
    ensures
        x == y,
{
    assert(byte_of(x, 0) == byte_of(y, 0));
    assert(byte_of(x, 1) == byte_of(y, 1));
    assert(byte_of(x, 2) == byte_of(y, 2));
    assert(byte_of(x, 3) == byte_of(y, 3));
    assert(byte_of(x, 4) == byte_of(y, 4));
    assert(byte_of(x, 5) == byte_of(y, 5));
    assert(byte_of(x, 6) == byte_of(y, 6));
    assert(byte_of(x, 7) == byte_of(y, 7));
    assert(x == y) by (bit_vector)
        requires
            ((x >> 0u64) & 0xff) as u8 == ((y >> 0u64) & 0xff) as u8,
            ((x >> 8u64) & 0xff) as u8 == ((y >> 8u64) & 0xff) as u8,
            ((x >> 16u64) & 0xff) as u8 == ((y >> 16u64) & 0xff) as u8,
            ((x >> 24u64) & 0xff) as u8 == ((y >> 24u64) & 0xff) as u8,
            ((x >> 32u64) & 0xff) as u8 == ((y >> 32u64) & 0xff) as u8,
            ((x >> 40u64) & 0xff) as u8 == ((y >> 40u64) & 0xff) as u8,
            ((x >> 48u64) & 0xff) as u8 == ((y >> 48u64) & 0xff) as u8,
            ((x >> 56u64) & 0xff) as u8 == ((y >> 56u64) & 0xff) as u8;
}

// ---- the encoding determines the module ----

/// `f` never encodes two admissible items so that one encoding, followed
/// by anything, reads as the other.
pub open spec fn prefix_free<A>(f: spec_fn(A) -> Seq<u64>, ok: spec_fn(A) -> bool) -> bool {
    forall|a: A, b: A, s: Seq<u64>, t: Seq<u64>|
        ok(a) && ok(b) && #[trigger] (f(a) + s) == #[trigger] (f(b) + t) ==> a == b && s == t
}

proof fn lemma_items_injective<A>(
    xs: Seq<A>,
    ys: Seq<A>,
    r1: Seq<u64>,
    r2: Seq<u64>,
    f: spec_fn(A) -> Seq<u64>,
    ok: spec_fn(A) -> bool,
)
    requires
        xs.len() == ys.len(),
        items(xs, f) + r1 == items(ys, f) + r2,
        prefix_free(f, ok),
        forall|i: int| 0 <= i < xs.len() ==> ok(#[trigger] xs[i]),
        forall|i: int| 0 <= i < ys.len() ==> ok(#[trigger] ys[i]),
    ensures
        xs == ys,
        r1 == r2,
    decreases xs.len(),
{
    if xs.len() == 0 {
        assert(items(xs, f) + r1 =~= r1);
        assert(items(ys, f) + r2 =~= r2);
        assert(xs =~= ys);
    } else {
        let xd = xs.drop_last();
        let yd = ys.drop_last();
        let xl = xs.last();
        let yl = ys.last();
        assert(items(xs, f) + r1 =~= items(xd, f) + (f(xl) + r1));
        assert(items(ys, f) + r2 =~= items(yd, f) + (f(yl) + r2));
        assert forall|i: int| 0 <= i < xd.len() implies ok(#[trigger] xd[i]) by {
            assert(xd[i] == xs[i]);
        }
        assert forall|i: int| 0 <= i < yd.len() implies ok(#[trigger] yd[i]) by {
            assert(yd[i] == ys[i]);
        }
        lemma_items_injective(xd, yd, f(xl) + r1, f(yl) + r2, f, ok);
        assert(ok(xs[xs.len() - 1]));
        assert(ok(ys[ys.len() - 1]));
        assert(xl == yl && r1 == r2);
        assert(xs =~= xd.push(xl));
        assert(ys =~= yd.push(yl));
    }
}

proof fn lemma_list_injective<A>(
    xs: Seq<A>,
    ys: Seq<A>,
    r1: Seq<u64>,
    r2: Seq<u64>,
    f: spec_fn(A) -> Seq<u64>,
    ok: spec_fn(A) -> bool,
)
    requires
        xs.len() <= u64::MAX,
        ys.len() <= u64::MAX,
        list(xs, f) + r1 == list(ys, f) + r2,
        prefix_free(f, ok),
        forall|i: int| 0 <= i < xs.len() ==> ok(#[trigger] xs[i]),
        forall|i: int| 0 <= i < ys.len() ==> ok(#[trigger] ys[i]),
    ensures
        xs == ys,
        r1 == r2,
{
    let a = list(xs, f) + r1;
    let b = list(ys, f) + r2;
    assert(a[0] == xs.len() as u64);
    assert(b[0] == ys.len() as u64);
    assert(a.subrange(1, a.len() as int) =~= items(xs, f) + r1);
    assert(b.subrange(1, b.len() as int) =~= items(ys, f) + r2);
    lemma_items_injective(xs, ys, r1, r2, f, ok);
}

pub open spec fn any_kind() -> spec_fn(ValType) -> bool {
    |v: ValType| true
}

pub open spec fn any_byte() -> spec_fn(u8) -> bool {
    |v: u8| true
}

pub open spec fn any_index() -> spec_fn(usize) -> bool {
    |v: usize| true
}

pub open spec fn any_memory() -> spec_fn(MemoryPlan) -> bool {
    |v: MemoryPlan| true
}

pub open spec fn any_table() -> spec_fn(TablePlan) -> bool {
    |v: TablePlan| true
}

pub open spec fn any_slice() -> spec_fn(CodeSlice) -> bool {
    |v: CodeSlice| true
}

pub open spec fn any_id() -> spec_fn(SigId) -> bool {
    |v: SigId| true
}

pub open spec fn sig_fits() -> spec_fn(FuncTypeView) -> bool {
    |f: FuncTypeView| f.params.len() <= u64::MAX && f.results.len() <= u64::MAX
}

pub open spec fn import_fits() -> spec_fn(ImportView) -> bool {
    |i: ImportView| i.namespace.len() <= u64::MAX && i.name.len() <= u64::MAX
}

proof fn lemma_head(x: Seq<u64>, s: Seq<u64>, y: Seq<u64>, t: Seq<u64>, k: int)
    requires
        x + s == y + t,
        x.len() == k,
        y.len() == k,
    ensures
        x == y,
        s == t,
{
    assert(x =~= (x + s).subrange(0, k));
    assert(y =~= (y + t).subrange(0, k));
    assert(s =~= (x + s).subrange(k, (x + s).len() as int));
    assert(t =~= (y + t).subrange(k, (y + t).len() as int));
}

proof fn lemma_prefix_free_words()
    ensures
        prefix_free(kind_item(), any_kind()),
        prefix_free(byte_item(), any_byte()),
        prefix_free(usize_item(), any_index()),
        prefix_free(memory_item(), any_memory()),
        prefix_free(table_item(), any_table()),
        prefix_free(slice_item(), any_slice()),
        prefix_free(id_item(), any_id()),
{
    assert forall|a: ValType, b: ValType, s: Seq<u64>, t: Seq<u64>|
        any_kind()(a) && any_kind()(b) && #[trigger] (kind_item()(a) + s) == #[trigger] (kind_item()(b) + t)
        implies a == b && s == t by {
        lemma_head(kind_words(a), s, kind_words(b), t, 1);
        assert(kind_words(a)[0] == kind_words(b)[0]);
    }
    assert forall|a: u8, b: u8, s: Seq<u64>, t: Seq<u64>|
        any_byte()(a) && any_byte()(b) && #[trigger] (byte_item()(a) + s) == #[trigger] (byte_item()(b) + t)
        implies a == b && s == t by {
        lemma_head(byte_words(a), s, byte_words(b), t, 1);
        assert(byte_words(a)[0] == byte_words(b)[0]);
    }
    assert forall|a: usize, b: usize, s: Seq<u64>, t: Seq<u64>|
        any_index()(a) && any_index()(b) && #[trigger] (usize_item()(a) + s) == #[trigger] (usize_item()(b) + t)
        implies a == b && s == t by {
        lemma_head(usize_words(a), s, usize_words(b), t, 1);
        assert(usize_words(a)[0] == usize_words(b)[0]);
    }
    assert forall|a: MemoryPlan, b: MemoryPlan, s: Seq<u64>, t: Seq<u64>|
        any_memory()(a) && any_memory()(b) && #[trigger] (memory_item()(a) + s) == #[trigger] (memory_item()(b) + t)
        implies a == b && s == t by {
        lemma_head(memory_words(a), s, memory_words(b), t, 3);
        let x = memory_words(a);
        let y = memory_words(b);
        assert(x[0] == y[0] && x[1] == y[1] && x[2] == y[2]);
    }
    assert forall|a: TablePlan, b: TablePlan, s: Seq<u64>, t: Seq<u64>|
        any_table()(a) && any_table()(b) && #[trigger] (table_item()(a) + s) == #[trigger] (table_item()(b) + t)
        implies a == b && s == t by {
        lemma_head(table_words(a), s, table_words(b), t, 3);
        let x = table_words(a);
        let y = table_words(b);
        assert(x[0] == y[0] && x[1] == y[1] && x[2] == y[2]);
    }
    assert forall|a: CodeSlice, b: CodeSlice, s: Seq<u64>, t: Seq<u64>|
        any_slice()(a) && any_slice()(b) && #[trigger] (slice_item()(a) + s) == #[trigger] (slice_item()(b) + t)
        implies a == b && s == t by {
        lemma_head(slice_words(a), s, slice_words(b), t, 2);
        assert(slice_words(a)[0] == slice_words(b)[0] && slice_words(a)[1] == slice_words(b)[1]);
    }
    assert forall|a: SigId, b: SigId, s: Seq<u64>, t: Seq<u64>|
        any_id()(a) && any_id()(b) && #[trigger] (id_item()(a) + s) == #[trigger] (id_item()(b) + t)
        implies a == b && s == t by {
        lemma_head(id_words(a), s, id_words(b), t, 1);
        assert(id_words(a)[0] == id_words(b)[0]);
    }
}

proof fn lemma_prefix_free_nested()
    ensures
        prefix_free(sig_item(), sig_fits()),
        prefix_free(import_item(), import_fits()),
{
    lemma_prefix_free_words();
    assert forall|a: FuncTypeView, b: FuncTypeView, s: Seq<u64>, t: Seq<u64>|
        sig_fits()(a) && sig_fits()(b) && #[trigger] (sig_item()(a) + s) == #[trigger] (sig_item()(b) + t)
        implies a == b && s == t by {
        let pa = list(a.params, kind_item());
        let ra = list(a.results, kind_item());
        let pb = list(b.params, kind_item());
        let rb = list(b.results, kind_item());
        assert(sig_item()(a) + s =~= pa + (ra + s));
        assert(sig_item()(b) + t =~= pb + (rb + t));
        lemma_list_injective(a.params, b.params, ra + s, rb + t, kind_item(), any_kind());
        lemma_list_injective(a.results, b.results, s, t, kind_item(), any_kind());
    }
    assert forall|a: ImportView, b: ImportView, s: Seq<u64>, t: Seq<u64>|
        import_fits()(a) && import_fits()(b) && #[trigger] (import_item()(a) + s) == #[trigger] (import_item()(b) + t)
        implies a == b && s == t by {
        let na = list(a.namespace, byte_item());
        let ma = list(a.name, byte_item());
        let nb = list(b.namespace, byte_item());
        let mb = list(b.name, byte_item());
        assert(import_item()(a) + s =~= na + (ma + (usize_words(a.signature) + s)));
        assert(import_item()(b) + t =~= nb + (mb + (usize_words(b.signature) + t)));
        lemma_list_injective(a.namespace, b.namespace, ma + (usize_words(a.signature) + s),
            mb + (usize_words(b.signature) + t), byte_item(), any_byte());
        lemma_list_injective(a.name, b.name, usize_words(a.signature) + s, usize_words(b.signature) + t,
            byte_item(), any_byte());
        lemma_head(usize_words(a.signature), s, usize_words(b.signature), t, 1);
        assert(usize_words(a.signature)[0] == usize_words(b.signature)[0]);
    }
}

/// Two modules whose counts fit in a word have the same words only if they
/// are the same module.
pub proof fn lemma_module_words_injective(m1: ModuleView, m2: ModuleView)
    requires
        fits(m1),
        fits(m2),
        module_words(m1) == module_words(m2),
    ensures
        m1 == m2,
{
    lemma_prefix_free_words();
    lemma_prefix_free_nested();
    let e: Seq<u64> = Seq::empty();
    let a = list(m1.signatures, sig_item());
    let b = list(m1.imports, import_item());
    let c = list(m1.functions, usize_item());
    let d = list(m1.memories, memory_item());
    let f = list(m1.tables, table_item());
    let g = list(m1.code, slice_item());
    let h = list(m1.signature_ids, id_item());
    let a2 = list(m2.signatures, sig_item());
    let b2 = list(m2.imports, import_item());
    let c2 = list(m2.functions, usize_item());
    let d2 = list(m2.memories, memory_item());
    let f2 = list(m2.tables, table_item());
    let g2 = list(m2.code, slice_item());
    let h2 = list(m2.signature_ids, id_item());
    lemma_head(seq![MAGIC, FORMAT_VERSION, m1.engine], a + (b + (c + (d + (f + (g + h))))),
        seq![MAGIC, FORMAT_VERSION, m2.engine], a2 + (b2 + (c2 + (d2 + (f2 + (g2 + h2))))), 3);
    assert(seq![MAGIC, FORMAT_VERSION, m1.engine][2] == seq![MAGIC, FORMAT_VERSION, m2.engine][2]);
    assert forall|i: int| 0 <= i < m1.signatures.len() implies sig_fits()(#[trigger] m1.signatures[i]) by {}
    assert forall|i: int| 0 <= i < m2.signatures.len() implies sig_fits()(#[trigger] m2.signatures[i]) by {}
    lemma_list_injective(m1.signatures, m2.signatures, b + (c + (d + (f + (g + h)))), b2 + (c2 + (d2 + (f2 + (g2 + h2)))),
        sig_item(), sig_fits());
    assert forall|i: int| 0 <= i < m1.imports.len() implies import_fits()(#[trigger] m1.imports[i]) by {}
    assert forall|i: int| 0 <= i < m2.imports.len() implies import_fits()(#[trigger] m2.imports[i]) by {}
    lemma_list_injective(m1.imports, m2.imports, c + (d + (f + (g + h))), c2 + (d2 + (f2 + (g2 + h2))),
        import_item(), import_fits());
    lemma_list_injective(m1.functions, m2.functions, d + (f + (g + h)), d2 + (f2 + (g2 + h2)), usize_item(), any_index());
    lemma_list_injective(m1.memories, m2.memories, f + (g + h), f2 + (g2 + h2), memory_item(), any_memory());
    lemma_list_injective(m1.tables, m2.tables, g + h, g2 + h2, table_item(), any_table());
    assert(h + e =~= h);
    assert(h2 + e =~= h2);
    lemma_list_injective(m1.code, m2.code, h, h2, slice_item(), any_slice());
    assert(h == h + e);
    lemma_list_injective(m1.signature_ids, m2.signature_ids, e, e, id_item(), any_id());
}

/// Serializing a module and reading the bytes back gives the same module.
pub proof fn lemma_serialize_round_trip(m: ModuleView)
    requires
        fits(m),
    ensures
        decodes(serialized(m)) == Some(m),
{
    assert(fits(m) && serialized(m) == serialized(m));
    let c = choose|c: ModuleView| fits(c) && serialized(c) == serialized(m);
    lemma_word_bytes_injective(module_words(c), module_words(m));
    lemma_module_words_injective(c, m);
}

/// Every compiled module reads back from its serialized bytes as itself.
pub proof fn lemma_compiled_round_trip(m: &CompiledModule)
    ensures
        decodes(serialized(module_view(m))) == Some(module_view(m)),
{
    lemma_module_fits(m);
    lemma_serialize_round_trip(module_view(m));
}

} // verus!
