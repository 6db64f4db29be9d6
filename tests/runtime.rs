use mun_runtime::{
    resolve_call, DispatchTable, FileEvent, FunctionInfo, FunctionSignature, InvokeError,
    ModuleInfo, Runtime, RuntimeBuilder, RuntimeError, RuntimeOptions, TypeTag, DEFAULT_DELAY_MS,
};

fn func(path: &str, params: Vec<TypeTag>, ret: TypeTag, address: u64) -> FunctionInfo {
    FunctionInfo {
        path: path.to_string(),
        address,
        signature: FunctionSignature { params, ret },
    }
}

fn module(path: &str, functions: Vec<FunctionInfo>, imports: &[&str], deps: &[&str]) -> ModuleInfo {
    ModuleInfo {
        path: path.to_string(),
        functions,
        imports: imports.iter().map(|s| s.to_string()).collect(),
        dependencies: deps.iter().map(|s| s.to_string()).collect(),
    }
}

fn s(x: &str) -> String {
    x.to_string()
}

fn chain_store() -> Vec<ModuleInfo> {
    vec![
        module("/m/a.so", vec![func("a::main", vec![], TypeTag::Int, 1)], &["b::helper"], &["/m/b.so"]),
        module("/m/b.so", vec![func("b::helper", vec![TypeTag::Int], TypeTag::Int, 2)], &[], &["/m/c.so"]),
        module("/m/c.so", vec![func("c::leaf", vec![], TypeTag::Unit, 3), func("c::other", vec![TypeTag::Bool], TypeTag::Bool, 4)], &[], &[]),
    ]
}

#[test]
fn load_of_missing_path_fails_and_tracks_nothing_new() {
    let store = chain_store();
    let mut rt = Runtime::empty();
    let before = rt.assembly_count();
    let r = rt.add_assembly(&s("/m/missing.so"), &store);
    assert!(matches!(r, Err(RuntimeError::LoadFailed(ref p)) if p == "/m/missing.so"));
    assert_eq!(rt.assembly_count(), before);
}

#[test]
fn spawn_of_missing_entry_fails() {
    let store: Vec<ModuleInfo> = Vec::new();
    let r = RuntimeBuilder::new(s("/m/none.so")).spawn(&store);
    assert!(matches!(r, Err(RuntimeError::LoadFailed(_))));
}

#[test]
fn second_load_of_same_path_is_refused_and_changes_nothing() {
    let store = vec![module("/m/c.so", vec![func("c::leaf", vec![], TypeTag::Unit, 3)], &[], &[])];
    let mut rt = Runtime::empty();
    assert!(rt.add_assembly(&s("/m/c.so"), &store).is_ok());
    let count = rt.assembly_count();
    let addr = rt.get_function_info(&s("c::leaf")).unwrap().address;
    let entries = rt.function_count();
    let r = rt.add_assembly(&s("/m/c.so"), &store);
    assert_eq!(rt.function_count(), entries);
    assert!(matches!(r, Err(RuntimeError::AlreadyLoaded(ref p)) if p == "/m/c.so"));
    assert_eq!(rt.assembly_count(), count);
    assert_eq!(rt.get_function_info(&s("c::leaf")).unwrap().address, addr);
}

#[test]
fn dependency_chain_loads_every_module() {
    let store = chain_store();
    let rt = RuntimeBuilder::new(s("/m/a.so")).spawn(&store).unwrap();
    assert_eq!(rt.assembly_count(), 3);
    assert_eq!(rt.function_count(), 4);
    for p in ["/m/a.so", "/m/b.so", "/m/c.so"] {
        assert!(rt.is_tracked(&s(p)));
    }
    for f in ["a::main", "b::helper", "c::leaf", "c::other"] {
        assert!(rt.get_function_info(&s(f)).is_some());
    }
    let order: Vec<String> = rt.assemblies().iter().map(|a| a.info.path.clone()).collect();
    assert_eq!(order, vec![s("/m/c.so"), s("/m/b.so"), s("/m/a.so")]);
}

#[test]
fn circular_dependency_is_refused_and_rolled_back() {
    let store = vec![
        module("/m/x.so", vec![func("x::f", vec![], TypeTag::Int, 1)], &[], &["/m/y.so"]),
        module("/m/y.so", vec![func("y::f", vec![], TypeTag::Int, 2)], &[], &["/m/x.so"]),
    ];
    let mut rt = Runtime::empty();
    let r = rt.add_assembly(&s("/m/x.so"), &store);
    assert!(matches!(r, Err(RuntimeError::CircularDependency(ref p)) if p == "/m/x.so"));
    assert_eq!(rt.assembly_count(), 0);
    assert!(rt.get_function_info(&s("x::f")).is_none());
    assert!(rt.get_function_info(&s("y::f")).is_none());
}

#[test]
fn missing_import_is_a_link_error() {
    let store = vec![module("/m/a.so", vec![func("a::main", vec![], TypeTag::Int, 1)], &["z::gone"], &[])];
    let mut rt = Runtime::empty();
    let r = rt.add_assembly(&s("/m/a.so"), &store);
    assert!(matches!(r, Err(RuntimeError::LinkFailed(ref m, ref i)) if m == "/m/a.so" && i == "z::gone"));
    assert!(rt.get_function_info(&s("a::main")).is_none());
}

#[test]
fn failed_dependency_rolls_back_the_whole_load() {
    let store = vec![
        module("/m/a.so", vec![func("a::main", vec![], TypeTag::Int, 1)], &[], &["/m/b.so", "/m/gone.so"]),
        module("/m/b.so", vec![func("b::f", vec![], TypeTag::Int, 2)], &[], &[]),
    ];
    let mut rt = Runtime::empty();
    let r = rt.add_assembly(&s("/m/a.so"), &store);
    assert!(matches!(r, Err(RuntimeError::LoadFailed(ref p)) if p == "/m/gone.so"));
    assert_eq!(rt.assembly_count(), 0);
    assert!(rt.get_function_info(&s("b::f")).is_none());
}

#[test]
fn update_with_no_events_returns_false() {
    let store = chain_store();
    let mut rt = RuntimeBuilder::new(s("/m/c.so")).spawn(&store).unwrap();
    assert!(!rt.update(&store));
}

#[test]
fn update_skips_unmatched_event_and_applies_one_reload_per_call() {
    let store = chain_store();
    let mut rt = RuntimeBuilder::new(s("/m/c.so")).spawn(&store).unwrap();
    rt.push_event(FileEvent::Write(s("/m/unrelated.txt")));
    rt.push_event(FileEvent::Write(s("/m/c.so")));
    rt.push_event(FileEvent::Rename(s("/m/tmp"), s("/m/c.so")));
    assert!(rt.update(&store));
    assert_eq!(rt.pending_events(), 1);
    assert!(rt.update(&store));
    assert_eq!(rt.pending_events(), 0);
    assert!(!rt.update(&store));
}

#[test]
fn failed_reload_keeps_old_state_and_consumes_event() {
    let store = chain_store();
    let mut rt = RuntimeBuilder::new(s("/m/c.so")).spawn(&store).unwrap();
    rt.push_event(FileEvent::Create(s("/m/c.so")));
    let empty: Vec<ModuleInfo> = Vec::new();
    assert!(!rt.update(&empty));
    assert_eq!(rt.pending_events(), 0);
    assert_eq!(rt.get_function_info(&s("c::leaf")).unwrap().address, 3);
}

#[test]
fn remove_and_chmod_events_do_not_reload() {
    let store = chain_store();
    let mut rt = RuntimeBuilder::new(s("/m/c.so")).spawn(&store).unwrap();
    rt.push_event(FileEvent::Remove(s("/m/c.so")));
    rt.push_event(FileEvent::Chmod(s("/m/c.so")));
    rt.push_event(FileEvent::Rescan);
    assert!(!rt.update(&store));
}

#[test]
fn reload_with_same_functions_keeps_paths_and_signatures() {
    let store = chain_store();
    let mut rt = RuntimeBuilder::new(s("/m/c.so")).spawn(&store).unwrap();
    let new_store = vec![module("/m/c.so", vec![func("c::leaf", vec![], TypeTag::Unit, 30), func("c::other", vec![TypeTag::Bool], TypeTag::Bool, 40)], &[], &[])];
    rt.push_event(FileEvent::Write(s("/m/c.so")));
    let entries = rt.function_count();
    assert!(rt.update(&new_store));
    assert_eq!(rt.function_count(), entries);
    let leaf = rt.get_function_info(&s("c::leaf")).unwrap();
    assert_eq!(leaf.address, 30);
    assert_eq!(leaf.signature.params, Vec::<TypeTag>::new());
    assert_eq!(leaf.signature.ret, TypeTag::Unit);
    let other = rt.get_function_info(&s("c::other")).unwrap();
    assert_eq!(other.signature.params, vec![TypeTag::Bool]);
    assert_eq!(other.address, 40);
}

#[test]
fn reload_adds_and_removes_exactly_the_changed_paths() {
    let store = chain_store();
    let mut rt = RuntimeBuilder::new(s("/m/c.so")).spawn(&store).unwrap();
    let new_store = vec![module("/m/c.so", vec![func("c::leaf", vec![], TypeTag::Unit, 3), func("c::fresh", vec![], TypeTag::Int, 5)], &[], &[])];
    rt.push_event(FileEvent::Write(s("/m/c.so")));
    assert!(rt.update(&new_store));
    assert!(rt.get_function_info(&s("c::leaf")).is_some());
    assert!(rt.get_function_info(&s("c::fresh")).is_some());
    assert!(rt.get_function_info(&s("c::other")).is_none());
    assert_eq!(rt.function_count(), 2);
}

#[test]
fn call_with_matching_types_resolves_to_address() {
    let store = chain_store();
    let rt = RuntimeBuilder::new(s("/m/a.so")).spawn(&store).unwrap();
    let r = rt.resolve_call(&s("b::helper"), &vec![TypeTag::Int], TypeTag::Int);
    assert_eq!(r.unwrap(), 2);
}

#[test]
fn call_with_mismatched_argument_names_index_and_types() {
    let store = chain_store();
    let rt = RuntimeBuilder::new(s("/m/a.so")).spawn(&store).unwrap();
    let r = rt.resolve_call(&s("b::helper"), &vec![TypeTag::Float], TypeTag::Int);
    assert!(matches!(r, Err(InvokeError::ArgumentType(0, TypeTag::Int, TypeTag::Float))));
}

#[test]
fn call_errors_for_missing_path_count_and_return_type() {
    let store = chain_store();
    let rt = RuntimeBuilder::new(s("/m/a.so")).spawn(&store).unwrap();
    assert!(matches!(rt.resolve_call(&s("no::such"), &vec![], TypeTag::Int), Err(InvokeError::NotFound(ref p)) if p == "no::such"));
    assert!(matches!(rt.resolve_call(&s("b::helper"), &vec![], TypeTag::Int), Err(InvokeError::ArgumentCount(1, 0))));
    assert!(matches!(rt.resolve_call(&s("b::helper"), &vec![TypeTag::Int], TypeTag::Bool), Err(InvokeError::ReturnType(TypeTag::Int, TypeTag::Bool))));
}

#[test]
fn second_argument_mismatch_is_reported_at_its_index() {
    let mut table = DispatchTable::new();
    table.insert(&s("f"), func("f", vec![TypeTag::Int, TypeTag::Bool], TypeTag::Unit, 9));
    let r = resolve_call(&table, &s("f"), &vec![TypeTag::Int, TypeTag::Struct], TypeTag::Unit);
    assert!(matches!(r, Err(InvokeError::ArgumentType(1, TypeTag::Bool, TypeTag::Struct))));
}

#[test]
fn retried_call_succeeds_after_reload_fixes_signature() {
    let store = vec![module("/m/c.so", vec![func("c::f", vec![TypeTag::Bool], TypeTag::Int, 7)], &[], &[])];
    let mut rt = RuntimeBuilder::new(s("/m/c.so")).spawn(&store).unwrap();
    let args = vec![TypeTag::Int];
    assert!(rt.resolve_call(&s("c::f"), &args, TypeTag::Int).is_err());
    let fixed = vec![module("/m/c.so", vec![func("c::f", vec![TypeTag::Int], TypeTag::Int, 8)], &[], &[])];
    rt.push_event(FileEvent::Write(s("/m/c.so")));
    assert!(rt.update(&fixed));
    assert_eq!(rt.resolve_call(&s("c::f"), &args, TypeTag::Int).unwrap(), 8);
}

#[test]
fn dispatch_table_insert_get_remove() {
    let mut table = DispatchTable::new();
    assert!(table.get(&s("p")).is_none());
    assert!(table.insert(&s("p"), func("p", vec![], TypeTag::Unit, 1)).is_none());
    let prev = table.insert(&s("p"), func("p", vec![], TypeTag::Unit, 2)).unwrap();
    assert_eq!(prev.address, 1);
    assert_eq!(table.get(&s("p")).unwrap().address, 2);
    assert!(table.contains(&s("p")));
    assert_eq!(table.len(), 1);
    assert_eq!(table.remove(&s("p")).unwrap().address, 2);
    assert!(table.remove(&s("p")).is_none());
    assert!(!table.contains(&s("p")));
    assert_eq!(table.len(), 0);
}

#[test]
fn builder_defaults_and_delay() {
    let mut b = RuntimeBuilder::new(s("/m/a.so"));
    assert_eq!(b.options.delay_ms, DEFAULT_DELAY_MS);
    assert_eq!(b.options.delay_ms, 10);
    b.set_delay(250);
    assert_eq!(b.options.delay_ms, 250);
    assert_eq!(b.options.library_path, "/m/a.so");
    let opts = RuntimeOptions { library_path: s("/m/c.so"), delay_ms: 5 };
    assert!(Runtime::new(opts, &chain_store()).is_ok());
}

#[test]
fn module_may_import_its_own_functions() {
    let store = vec![module("/m/a.so", vec![func("a::f", vec![], TypeTag::Int, 1)], &["a::f"], &[])];
    let mut rt = Runtime::empty();
    assert!(rt.add_assembly(&s("/m/a.so"), &store).is_ok());
    assert!(rt.is_tracked(&s("/m/a.so")));
}

#[test]
fn shared_dependency_loaded_twice_is_refused() {
    let store = vec![
        module("/m/a.so", vec![], &[], &["/m/b.so", "/m/c.so"]),
        module("/m/b.so", vec![], &[], &["/m/d.so"]),
        module("/m/c.so", vec![], &[], &["/m/d.so"]),
        module("/m/d.so", vec![func("d::f", vec![], TypeTag::Unit, 1)], &[], &[]),
    ];
    let mut rt = Runtime::empty();
    let r = rt.add_assembly(&s("/m/a.so"), &store);
    assert!(matches!(r, Err(RuntimeError::AlreadyLoaded(ref p)) if p == "/m/d.so"));
    assert_eq!(rt.assembly_count(), 0);
    assert_eq!(rt.function_count(), 0);
}

#[test]
fn default_table_is_empty() {
    let table = DispatchTable::default();
    assert_eq!(table.len(), 0);
}
