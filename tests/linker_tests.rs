use lunatic_vm::host::{Capability, Extern, HandleTable, HostFunction, HostKind, Linker, ProcessEnvironment, WasmerLinker};
use lunatic_vm::linker::{engine, LinkError, ImportedFunction, LunaticLinker, LunaticModule, MemoryChoice};
use lunatic_vm::signature::{FuncType, ValType};

fn host_fn(name: &str, params: &[HostKind], results: &[HostKind]) -> HostFunction {
    HostFunction { name: name.to_string(), params: params.to_vec(), results: results.to_vec() }
}

fn array_state() -> Capability {
    Capability {
        namespace: "env".to_string(),
        functions: vec![
            host_fn("create", &[HostKind::I32], &[HostKind::Custom]),
            host_fn("value", &[HostKind::Custom], &[HostKind::I32]),
            host_fn("add", &[HostKind::Custom, HostKind::Custom], &[HostKind::Custom]),
            host_fn("sum", &[], &[HostKind::I32]),
        ],
    }
}

fn lunatic_module(imports: Vec<ImportedFunction>) -> LunaticModule {
    LunaticModule { id: 3, min_memory: 16, max_memory: Some(32), imports }
}

#[test]
fn shared_engine_has_fixed_features() {
    let e = engine();
    assert!(e.config.wasm_threads && e.config.wasm_simd && e.config.wasm_reference_types);
    assert_eq!(e.config.static_memory_guard_size, 8 * 1024 * 1024);
    assert_eq!(engine(), e);
}

#[test]
fn host_signatures_lower_to_wasm_values() {
    let f = host_fn("read", &[HostKind::Slice, HostKind::U8, HostKind::U64], &[HostKind::Custom, HostKind::F64]);
    let s = f.signature();
    assert_eq!(s.params, vec![ValType::I32, ValType::I32, ValType::I32, ValType::I64]);
    assert_eq!(s.results, vec![ValType::I32, ValType::F64]);
}

#[test]
fn both_back_ends_receive_the_same_bindings() {
    let cap = array_state();
    let env = ProcessEnvironment { module: 1, yielder: 99 };
    let mut first = Linker::new();
    let mut second = WasmerLinker::new();
    cap.add_to_linker(env, &mut first);
    cap.add_to_wasmer_linker(env, &mut second);
    assert_eq!(first.len(), 4);
    assert_eq!(second.len(), 4);
    for i in 0..4 {
        let a = first.entry(i).unwrap();
        let b = second.entry(i).unwrap();
        assert_eq!(a.0, "env");
        assert_eq!(a.0, b.0);
        assert_eq!(a.1, b.1);
        match (&a.2, &b.2) {
            (Extern::Func(fa, ea), Extern::Func(fb, eb)) => {
                assert!(fa.same_as(fb));
                assert_eq!(ea, eb);
                assert_eq!(*ea, env);
            }
            _ => panic!("expected functions"),
        }
    }
    assert_eq!(first.entry(1).unwrap().1, "value");
}

#[test]
fn custom_type_return_is_stored_in_memory() {
    // return_7() -> MyNumber, converted by value to its u32 form, stored at offset 0
    let mut linker = LunaticLinker::new(lunatic_module(Vec::new()), 0, MemoryChoice::New, &Vec::new()).unwrap().instance().unwrap();
    let seven: i32 = 7;
    assert!(linker.memory.write_u32(0, seven as u32));
    assert_eq!(linker.memory.read_u32(0), Some(7));
    assert_eq!(linker.memory.read(0), Some(7));
    assert_eq!(linker.memory.read(1), Some(0));
}

#[test]
fn mutable_state_round_trips_handles() {
    let mut table: HandleTable<i32> = HandleTable::new();
    let handle = table.to_u32(42).unwrap();
    assert_eq!(handle, 0);
    assert_eq!(table.from_u32(handle).unwrap(), 42);
    let other = table.to_u32(8).unwrap();
    let sum = table.from_u32(handle).unwrap() + table.from_u32(other).unwrap();
    assert_eq!(sum, 50);
}

#[test]
fn out_of_range_handle_traps_without_changing_state() {
    let mut table: HandleTable<i32> = HandleTable::new();
    table.to_u32(42).unwrap();
    let err = table.from_u32(5).unwrap_err();
    assert_eq!(err.message, "handle not found");
    assert_eq!(table.len(), 1);
    assert_eq!(table.from_u32(0).unwrap(), 42);
}

#[test]
fn existing_memory_is_unsupported() {
    let r = LunaticLinker::new(lunatic_module(Vec::new()), 0, MemoryChoice::Existing, &Vec::new());
    assert!(matches!(r, Err(LinkError::Unsupported)));
}

#[test]
fn oversized_memory_is_refused() {
    let m = LunaticModule { id: 1, min_memory: u32::MAX, max_memory: None, imports: Vec::new() };
    let r = LunaticLinker::new(m, 0, MemoryChoice::New, &Vec::new());
    assert!(matches!(r, Err(LinkError::Memory)));
}

#[test]
fn linker_resolves_imports_against_bound_capabilities() {
    let imports = vec![
        ImportedFunction { namespace: "env".to_string(), name: "create".to_string(), signature: FuncType::new(vec![ValType::I32], vec![ValType::I32]) },
        ImportedFunction { namespace: "env".to_string(), name: "sum".to_string(), signature: FuncType::new(vec![], vec![ValType::I32]) },
    ];
    let caps = vec![array_state()];
    let inst = LunaticLinker::new(lunatic_module(imports), 5, MemoryChoice::New, &caps).unwrap().instance().unwrap();
    assert_eq!(inst.environment, ProcessEnvironment { module: 3, yielder: 5 });
    assert_eq!(inst.memory.len(), 16 * 65536);
}

#[test]
fn unresolved_import_fails_instantiation() {
    let imports = vec![
        ImportedFunction { namespace: "env".to_string(), name: "sum".to_string(), signature: FuncType::new(vec![], vec![ValType::I32]) },
        ImportedFunction { namespace: "env".to_string(), name: "sum".to_string(), signature: FuncType::new(vec![], vec![ValType::I64]) },
    ];
    let caps = vec![array_state()];
    let r = LunaticLinker::new(lunatic_module(imports), 0, MemoryChoice::New, &caps).unwrap().instance();
    assert!(matches!(r, Err(LinkError::Unresolved(1))));
}

#[test]
fn memory_import_is_defined_first() {
    let caps = vec![array_state()];
    let imports = vec![ImportedFunction { namespace: "lunatic".to_string(), name: "memory".to_string(), signature: FuncType::new(vec![], vec![]) }];
    let r = LunaticLinker::new(lunatic_module(imports), 0, MemoryChoice::New, &caps).unwrap().instance();
    assert!(matches!(r, Err(LinkError::Unresolved(0))));
}

#[test]
fn linker_memory_keeps_the_declared_maximum() {
    let inst = LunaticLinker::new(lunatic_module(Vec::new()), 0, MemoryChoice::New, &Vec::new()).unwrap().instance().unwrap();
    assert_eq!(inst.memory.maximum(), Some(32));
    let m = LunaticModule { id: 4, min_memory: 1, max_memory: None, imports: Vec::new() };
    let inst = LunaticLinker::new(m, 0, MemoryChoice::New, &Vec::new()).unwrap().instance().unwrap();
    assert_eq!(inst.memory.maximum(), None);
    assert_eq!(inst.memory.len(), 65536);
}
