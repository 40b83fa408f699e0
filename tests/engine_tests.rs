use lunatic_vm::code_memory::{CodeMemory, PAGE_SIZE};
use lunatic_vm::engine::{unique_signatures, CompileError, InstantiationError, JITEngine, Tunables};
use lunatic_vm::module::{FunctionImport, MemoryPlan, ModuleInfo, TablePlan};
use lunatic_vm::signature::{FuncType, SigId, SignatureRegistry, ValType};

fn sig(params: &[ValType], results: &[ValType]) -> FuncType {
    FuncType::new(params.to_vec(), results.to_vec())
}

fn tunables() -> Tunables {
    Tunables { static_memory_bound: 1024, static_memory_offset_guard_size: 8 * 1024 * 1024 }
}

fn module(signatures: Vec<FuncType>, functions: Vec<usize>, memories: Vec<MemoryPlan>) -> ModuleInfo {
    ModuleInfo { signatures, imports: Vec::new(), functions, memories, tables: Vec::new() }
}

#[test]
fn register_then_lookup_gives_signature_back() {
    let mut reg = SignatureRegistry::new();
    let s = sig(&[ValType::I32, ValType::I64], &[ValType::I32]);
    let id = reg.register(&s);
    let back = reg.lookup(id).unwrap();
    assert!(back.same_as(&s));
    let again = reg.register(&s);
    assert_eq!(id, again);
    assert_eq!(reg.len(), 1);
}

#[test]
fn register_distinct_signatures_gets_dense_ids() {
    let mut reg = SignatureRegistry::new();
    let a = reg.register(&sig(&[], &[]));
    let b = reg.register(&sig(&[ValType::F64], &[]));
    let c = reg.register(&sig(&[], &[]));
    assert_eq!(a, SigId { index: 0 });
    assert_eq!(b, SigId { index: 1 });
    assert_eq!(c, a);
}

#[test]
fn lookup_unknown_id_is_absent() {
    let reg = SignatureRegistry::new();
    assert!(reg.lookup(SigId { index: 3 }).is_none());
}

#[test]
fn code_memory_regions_are_never_writable_and_executable() {
    let mut cm = CodeMemory::new(4 * PAGE_SIZE);
    let slices = cm.allocate_functions(&vec![vec![1u8, 2, 3], vec![4u8]]).unwrap();
    assert_eq!(slices.len(), 2);
    assert_eq!(slices[0].len, 3);
    assert_eq!(slices[1].region, 1);
    for s in &slices {
        assert!(cm.is_writable(*s));
        assert!(!cm.is_executable(*s));
    }
    cm.publish();
    for s in &slices {
        assert!(!cm.is_writable(*s));
        assert!(cm.is_executable(*s));
    }
    cm.publish();
    for s in &slices {
        assert!(cm.is_executable(*s) && !cm.is_writable(*s));
    }
}

#[test]
fn code_memory_exhaustion_is_reported() {
    let mut cm = CodeMemory::new(PAGE_SIZE);
    assert!(cm.allocate_functions(&vec![vec![0u8; 10], vec![0u8; 10]]).is_err());
    // nothing was allocated: a single body still fits
    let one = cm.allocate_for_function(&vec![0u8; PAGE_SIZE]).unwrap();
    assert_eq!(one.region, 0);
    assert!(cm.allocate_for_function(&vec![0u8; 1]).is_err());
}

#[test]
fn two_functions_of_one_signature_get_one_trampoline() {
    let mut engine = JITEngine::new(1, tunables(), 64 * PAGE_SIZE);
    let s = sig(&[ValType::I32], &[ValType::I32]);
    let info = module(vec![s.duplicate(), s.duplicate()], vec![0, 1], Vec::new());
    let needed = engine.trampolines_to_compile(&info);
    assert_eq!(needed.len(), 1);
    let m = engine
        .compile(info, &vec![vec![0xC3u8], vec![0x90u8, 0xC3]], &vec![vec![0xCCu8]])
        .unwrap();
    assert_eq!(m.functions.len(), 2);
    assert_eq!(m.signature_ids[0], m.signature_ids[1]);
    let t = engine.trampoline(m.signature_ids[0]).unwrap();
    assert_eq!(t.region, 2);
    assert!(engine.lookup_signature(m.signature_ids[0]).unwrap().same_as(&s));
}

#[test]
fn later_compilations_reuse_trampolines() {
    let mut engine = JITEngine::new(1, tunables(), 64 * PAGE_SIZE);
    let s = sig(&[], &[ValType::I64]);
    let first = engine.compile(module(vec![s.duplicate()], vec![0], Vec::new()), &vec![vec![1u8]], &vec![vec![2u8]]).unwrap();
    let before = engine.trampoline(first.signature_ids[0]).unwrap();
    let info = module(vec![s.duplicate(), sig(&[ValType::F32], &[])], vec![0, 1], Vec::new());
    let needed = engine.trampolines_to_compile(&info);
    assert_eq!(needed.len(), 1);
    assert!(needed[0].same_as(&sig(&[ValType::F32], &[])));
    let second = engine.compile(info, &vec![vec![3u8], vec![4u8]], &vec![vec![5u8]]).unwrap();
    assert_eq!(second.signature_ids[0], first.signature_ids[0]);
    assert_eq!(engine.trampoline(second.signature_ids[0]).unwrap(), before);
    assert!(engine.trampoline(second.signature_ids[1]).is_some());
}

#[test]
fn unique_signatures_keep_first_occurrence_order() {
    let a = sig(&[ValType::I32], &[]);
    let b = sig(&[], &[ValType::I32]);
    let u = unique_signatures(&vec![b.duplicate(), a.duplicate(), b.duplicate(), a.duplicate()]);
    assert_eq!(u.len(), 2);
    assert!(u[0].same_as(&b));
    assert!(u[1].same_as(&a));
}

#[test]
fn invalid_module_is_a_compile_error() {
    let mut engine = JITEngine::new(1, tunables(), 64 * PAGE_SIZE);
    let info = module(vec![sig(&[], &[])], vec![1], Vec::new());
    assert!(engine.validate(&info).is_err());
    match engine.compile(info, &vec![vec![1u8]], &vec![vec![2u8]]) {
        Err(CompileError::Validation(_)) => {}
        other => panic!("unexpected: {:?}", other.is_ok()),
    }
    let bad_memory = module(Vec::new(), Vec::new(), vec![MemoryPlan { minimum: 4, maximum: Some(2) }]);
    assert!(engine.validate(&bad_memory).is_err());
    let mut bad_table = module(Vec::new(), Vec::new(), Vec::new());
    bad_table.tables.push(TablePlan { minimum: 3, maximum: Some(1) });
    assert!(engine.validate(&bad_table).is_err());
}

#[test]
fn back_end_output_must_match_the_module() {
    let mut engine = JITEngine::new(1, tunables(), 64 * PAGE_SIZE);
    let info = module(vec![sig(&[], &[])], vec![0], Vec::new());
    match engine.compile(info, &vec![vec![1u8]], &Vec::new()) {
        Err(CompileError::Backend(_)) => {}
        _ => panic!("expected a back-end error"),
    }
}

#[test]
fn compile_without_code_memory_is_resource_exhausted() {
    let mut engine = JITEngine::new(1, tunables(), PAGE_SIZE);
    let info = module(vec![sig(&[], &[])], vec![0], Vec::new());
    match engine.compile(info, &vec![vec![1u8]], &vec![vec![2u8]]) {
        Err(CompileError::Resource(_)) => {}
        _ => panic!("expected resource exhaustion"),
    }
}

#[test]
fn instances_get_independent_zeroed_memories() {
    let mut engine = JITEngine::new(7, tunables(), 64 * PAGE_SIZE);
    let info = module(Vec::new(), Vec::new(), vec![MemoryPlan { minimum: 16, maximum: Some(32) }]);
    let m = engine.compile(info, &Vec::new(), &Vec::new()).unwrap();
    let mut first = engine.instantiate(&m, &Vec::new()).unwrap();
    assert_eq!(first.memories[0].len(), 16 * 65536);
    assert!(first.memories[0].write(0, 0xAB));
    assert_eq!(first.memories[0].read(0), Some(0xAB));
    let second = engine.instantiate(&m, &Vec::new()).unwrap();
    assert_eq!(second.memories[0].read(0), Some(0));
    assert_eq!(first.memories[0].read(0), Some(0xAB));
}

#[test]
fn a_thousand_instances_each_pass_the_memory_check() {
    let mut engine = JITEngine::new(7, tunables(), 64 * PAGE_SIZE);
    let info = module(Vec::new(), Vec::new(), vec![MemoryPlan { minimum: 16, maximum: Some(32) }]);
    let m = engine.compile(info, &Vec::new(), &Vec::new()).unwrap();
    for _ in 0..1000 {
        let mut inst = engine.instantiate(&m, &Vec::new()).unwrap();
        assert_eq!(inst.memories[0].read(0), Some(0));
        assert!(inst.memories[0].write(0, 0xAB));
        assert_eq!(inst.memories[0].read(0), Some(0xAB));
    }
}

#[test]
fn module_of_another_engine_is_refused() {
    let mut a = JITEngine::new(1, tunables(), 64 * PAGE_SIZE);
    let b = JITEngine::new(2, tunables(), 64 * PAGE_SIZE);
    let m = a.compile(module(Vec::new(), Vec::new(), Vec::new()), &Vec::new(), &Vec::new()).unwrap();
    assert!(matches!(b.instantiate(&m, &Vec::new()), Err(InstantiationError::ForeignModule)));
    assert!(a.instantiate(&m, &Vec::new()).is_ok());
}

#[test]
fn imports_are_signature_checked() {
    let mut engine = JITEngine::new(1, tunables(), 64 * PAGE_SIZE);
    let s = sig(&[ValType::I32], &[]);
    let mut info = module(vec![s.duplicate()], Vec::new(), Vec::new());
    info.imports.push(FunctionImport { namespace: b"env".to_vec(), name: b"f".to_vec(), signature: 0 });
    let m = engine.compile(info, &Vec::new(), &vec![vec![1u8]]).unwrap();
    assert!(matches!(engine.instantiate(&m, &Vec::new()), Err(InstantiationError::ImportCount)));
    assert!(matches!(
        engine.instantiate(&m, &vec![sig(&[ValType::I64], &[])]),
        Err(InstantiationError::ImportSignature(0))
    ));
    assert!(engine.instantiate(&m, &vec![s.duplicate()]).is_ok());
}

#[test]
fn memory_above_the_bound_is_refused() {
    let mut engine = JITEngine::new(1, Tunables { static_memory_bound: 8, static_memory_offset_guard_size: 0 }, 64 * PAGE_SIZE);
    let info = module(Vec::new(), Vec::new(), vec![MemoryPlan { minimum: 1, maximum: None }, MemoryPlan { minimum: 9, maximum: None }]);
    let m = engine.compile(info, &Vec::new(), &Vec::new()).unwrap();
    assert!(matches!(engine.instantiate(&m, &Vec::new()), Err(InstantiationError::MemoryTooLarge(1))));
    assert_eq!(engine.tunables().static_memory_bound, 8);
    assert_eq!(engine.id(), 1);
}

fn sample_module(engine: &mut JITEngine) -> lunatic_vm::module::CompiledModule {
    let s = sig(&[ValType::I32, ValType::F64], &[ValType::I64]);
    let mut info = module(
        vec![s.duplicate(), sig(&[], &[])],
        vec![0, 1, 0],
        vec![MemoryPlan { minimum: 1, maximum: Some(4) }],
    );
    info.tables.push(TablePlan { minimum: 2, maximum: None });
    info.imports.push(FunctionImport { namespace: b"lunatic".to_vec(), name: b"spawn".to_vec(), signature: 1 });
    engine
        .compile(info, &vec![vec![1u8], vec![2u8, 3], vec![4u8]], &vec![vec![9u8], vec![8u8]])
        .unwrap()
}

#[test]
fn serialized_module_reads_back_as_itself() {
    let mut engine = JITEngine::new(11, tunables(), 64 * PAGE_SIZE);
    let m = sample_module(&mut engine);
    let bytes = engine.serialize(&m);
    assert_eq!(bytes.len() % 8, 0);
    let back = engine.deserialize(&bytes).unwrap();
    assert_eq!(back.engine, m.engine);
    assert_eq!(back.functions, m.functions);
    assert_eq!(back.signature_ids, m.signature_ids);
    assert_eq!(back.info.functions, m.info.functions);
    assert_eq!(back.info.memories, m.info.memories);
    assert_eq!(back.info.tables, m.info.tables);
    assert_eq!(back.info.imports[0].name, b"spawn".to_vec());
    assert!(back.info.signatures[0].same_as(&m.info.signatures[0]));
    assert_eq!(engine.serialize(&back), bytes);
    assert!(engine.instantiate(&back, &vec![sig(&[], &[])]).is_ok());
}

#[test]
fn serialized_module_of_another_engine_is_refused() {
    let mut a = JITEngine::new(11, tunables(), 64 * PAGE_SIZE);
    let b = JITEngine::new(12, tunables(), 64 * PAGE_SIZE);
    let m = sample_module(&mut a);
    let bytes = a.serialize(&m);
    assert!(matches!(b.deserialize(&bytes), Err(lunatic_vm::engine::DeserializeError::ForeignEngine)));
}

#[test]
fn corrupt_bytes_are_a_deserialize_error() {
    let mut engine = JITEngine::new(11, tunables(), 64 * PAGE_SIZE);
    let m = sample_module(&mut engine);
    let mut bytes = engine.serialize(&m);
    bytes.pop();
    assert!(matches!(engine.deserialize(&bytes), Err(lunatic_vm::engine::DeserializeError::Format)));
    let mut bytes = engine.serialize(&m);
    bytes[8] ^= 0xFF;
    assert!(matches!(engine.deserialize(&bytes), Err(lunatic_vm::engine::DeserializeError::Format)));
    assert!(matches!(engine.deserialize(&Vec::new()), Err(lunatic_vm::engine::DeserializeError::Format)));
}

#[test]
fn each_new_signature_gets_its_own_trampoline_body() {
    let mut engine = JITEngine::new(3, tunables(), 64 * PAGE_SIZE);
    let a = sig(&[ValType::I32], &[]);
    let b = sig(&[], &[ValType::F32]);
    let info = module(vec![a.duplicate(), b.duplicate(), a.duplicate()], vec![0, 1, 2], Vec::new());
    let needed = engine.trampolines_to_compile(&info);
    assert_eq!(needed.len(), 2);
    assert!(needed[0].same_as(&a) && needed[1].same_as(&b));
    let m = engine
        .compile(info, &vec![vec![1u8], vec![2u8], vec![3u8]], &vec![vec![7u8, 7], vec![8u8, 8, 8]])
        .unwrap();
    let ta = engine.trampoline(m.signature_ids[0]).unwrap();
    let tb = engine.trampoline(m.signature_ids[1]).unwrap();
    assert_eq!((ta.region, ta.len), (3, 2));
    assert_eq!((tb.region, tb.len), (4, 3));
    assert_eq!(engine.trampoline(m.signature_ids[2]), Some(ta));
    assert_eq!(engine.signatures().len(), 2);
}

#[test]
fn failed_compile_leaves_the_engine_unchanged() {
    let mut engine = JITEngine::new(3, tunables(), 2 * PAGE_SIZE);
    let info = module(vec![sig(&[], &[])], vec![0], Vec::new());
    match engine.compile(info, &vec![vec![1u8; PAGE_SIZE]], &vec![vec![2u8; PAGE_SIZE + 1]]) {
        Err(CompileError::Resource(_)) => {}
        _ => panic!("expected resource exhaustion"),
    }
    assert_eq!(engine.signatures().len(), 0);
    let info = module(vec![sig(&[], &[])], vec![0], Vec::new());
    let m = engine.compile(info, &vec![vec![1u8; PAGE_SIZE]], &vec![vec![2u8; PAGE_SIZE]]).unwrap();
    assert_eq!(m.functions[0].region, 0);
    assert_eq!(engine.trampoline(m.signature_ids[0]).unwrap().region, 1);
}
