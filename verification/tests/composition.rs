use fajar_wasi_p2::component::{ComponentBuilder, ComponentFuncType, ComponentTypeKind, ComponentValType, ExportKind};
use fajar_wasi_p2::composition::{
    ComponentAdapter, ComponentInstance, ComponentLinker, CompositionError, ExportDef, ImportChecker, SizeReport,
    VirtualFs, WasiTarget, WitRegistry, WorkspaceConfig, WorkspaceMember,
};

// ── W9.1: Component Instantiation ──

#[test]
fn w9_1_component_instance_creation_and_run() {
    let mut instance = ComponentInstance::new(
        "test-component",
        vec![0x00, 0x61, 0x73, 0x6D],
        Vec::new(),
    );
    assert_eq!(instance.name(), "test-component");
    assert!(!instance.has_executed());

    let code = instance.run().unwrap();
    assert_eq!(code, 0);
    assert!(instance.has_executed());
}

#[test]
fn w9_1_component_instance_double_run_fails() {
    let mut instance = ComponentInstance::new("double", vec![0x00], Vec::new());
    instance.run().unwrap();
    let err = instance.run().unwrap_err();
    assert_eq!(
        err,
        CompositionError::AlreadyExecuted {
            component: "double".into()
        }
    );
}

#[test]
fn w9_1_component_instance_with_exports() {
    let mut instance = ComponentInstance::new("server", vec![], Vec::new());
    instance.add_export(ExportDef {
        name: "handle-request".into(),
        kind: ExportKind::Func,
        params: vec!["request".into()],
        result: Some("response".into()),
    });
    assert!(instance.get_export("handle-request").is_some());
    assert!(instance.get_export("nonexistent").is_none());
}

#[test]
fn w9_1_component_instance_with_custom_return_value() {
    let mut instance = ComponentInstance::new("erroring", vec![], Vec::new());
    instance.set_return_value(42);
    let code = instance.run().unwrap();
    assert_eq!(code, 42);
}

// ── W9.2: Component Linker ──

#[test]
fn w9_2_linker_registers_and_links_components() {
    let mut linker = ComponentLinker::new();

    // Provider: exports "process"
    let mut provider = ComponentInstance::new("processor", vec![], Vec::new());
    provider.add_export(ExportDef {
        name: "process".into(),
        kind: ExportKind::Func,
        params: vec!["data".into()],
        result: Some("result".into()),
    });

    // Consumer: imports "process"
    let mut imports: Vec<(String, String)> = Vec::new();
    imports.push(("process".into(), "processor".into()));
    let consumer = ComponentInstance::new("app", vec![], imports);

    linker.register(provider);
    linker.register(consumer);

    linker
        .link("processor", "process", "app", "process")
        .unwrap();
    assert_eq!(linker.links().len(), 1);
    assert_eq!(linker.instance_count(), 2);
}

#[test]
fn w9_2_linker_missing_export_fails() {
    let mut linker = ComponentLinker::new();
    let provider = ComponentInstance::new("empty", vec![], Vec::new());
    let mut imports: Vec<(String, String)> = Vec::new();
    imports.push(("needed".into(), "empty".into()));
    let consumer = ComponentInstance::new("needy", vec![], imports);

    linker.register(provider);
    linker.register(consumer);

    let err = linker
        .link("empty", "not-here", "needy", "needed")
        .unwrap_err();
    match err {
        CompositionError::MissingExport { component, .. } => {
            assert_eq!(component, "empty");
        }
        other => panic!("expected MissingExport, got: {other:?}"),
    }
}

#[test]
fn w9_2_linker_check_all_imports() {
    let mut linker = ComponentLinker::new();

    let mut imports: Vec<(String, String)> = Vec::new();
    imports.push(("wasi:io/streams".into(), "host".into()));
    imports.push(("wasi:filesystem/types".into(), "host".into()));
    let consumer = ComponentInstance::new("app", vec![], imports);
    linker.register(consumer);

    let unsatisfied = linker.check_all_imports();
    assert_eq!(unsatisfied.len(), 2);
}

// ── W9.3: Virtual Filesystem ──

#[test]
fn w9_3_virtual_fs_preload_and_read() {
    let mut vfs = VirtualFs::new();
    vfs.preload_file("src/main.fj", b"fn main() { println(\"hello\") }")
        .unwrap();

    let root = vfs.inner_mut().open_root();
    let stat = vfs.inner().stat_at(root, "src/main.fj").unwrap();
    assert_eq!(stat.size, 30);
}

#[test]
fn w9_3_virtual_fs_mounts_and_read_only() {
    let mut vfs = VirtualFs::new();
    vfs.mount("/app", "application root");
    vfs.mount("/tmp", "temporary files");
    vfs.set_read_only(true);

    assert!(vfs.is_read_only());
    assert_eq!(vfs.mounts().len(), 2);
}

// ── W9.4: Build Target ──

#[test]
fn w9_4_wasi_target_parsing_and_properties() {
    assert_eq!(
        WasiTarget::from_triple("wasm32-wasi"),
        Some(WasiTarget::WasmWasiP1)
    );
    assert_eq!(
        WasiTarget::from_triple("wasm32-wasi-p2"),
        Some(WasiTarget::WasmWasiP2)
    );
    assert_eq!(
        WasiTarget::from_triple("wasm32-wasip2"),
        Some(WasiTarget::WasmWasiP2)
    );
    assert_eq!(WasiTarget::from_triple("x86_64-linux"), None);

    let p2 = WasiTarget::WasmWasiP2;
    assert!(p2.is_component());
    assert_eq!(p2.output_extension(), "component.wasm");
    assert_eq!(p2.triple(), "wasm32-wasi-p2");
    assert_eq!(p2.to_string(), "wasm32-wasi-p2");

    let p1 = WasiTarget::WasmWasiP1;
    assert!(!p1.is_component());
    assert_eq!(p1.output_extension(), "wasm");
}

// ── W9.5: Component Adapter ──

#[test]
fn w9_5_adapter_wraps_p1_module_into_p2_component() {
    // Minimal valid P1 module: magic + version
    let p1_bytes = vec![0x00, 0x61, 0x73, 0x6D, 0x01, 0x00, 0x00, 0x00];
    let adapter = ComponentAdapter::new(p1_bytes);

    assert!(adapter.import_map().iter().any(|(k, _)| k == "fd_read"));
    assert!(adapter.import_map().iter().any(|(k, _)| k == "fd_write"));
    assert!(adapter.import_map().iter().any(|(k, _)| k == "proc_exit"));
    assert!(adapter.export_map().iter().any(|(k, _)| k == "_start"));

    let component_binary = adapter.adapt();
    // Component magic: \0asm with layer 0x0d
    assert_eq!(&component_binary[0..4], b"\x00asm");
    assert_eq!(component_binary[4], 0x0D);
    assert!(component_binary.len() > 8);
}

#[test]
fn w9_5_adapter_custom_mappings() {
    let mut adapter = ComponentAdapter::new(vec![0x00, 0x61, 0x73, 0x6D]);
    adapter.add_import_mapping("custom_import", "wasi:custom/iface.op");
    adapter.add_export_mapping("custom_export", "wasi:custom/iface.result");

    assert_eq!(
        adapter.import_map().iter().find(|(k, _)| k == "custom_import").map(|(_, v)| v),
        Some(&"wasi:custom/iface.op".to_string())
    );
    assert_eq!(
        adapter.export_map().iter().find(|(k, _)| k == "custom_export").map(|(_, v)| v),
        Some(&"wasi:custom/iface.result".to_string())
    );
}

// ── W9.6: Workspace ──

#[test]
fn w9_6_workspace_validation_and_build_order() {
    let mut ws = WorkspaceConfig::new("my-workspace");
    ws.add_member(WorkspaceMember {
        name: "core-lib".into(),
        source_dir: "core".into(),
        target: WasiTarget::WasmWasiP2,
        depends_on: vec![],
        features: vec![],
    });
    ws.add_member(WorkspaceMember {
        name: "app".into(),
        source_dir: "app".into(),
        target: WasiTarget::WasmWasiP2,
        depends_on: vec!["core-lib".into()],
        features: vec![],
    });
    ws.add_member(WorkspaceMember {
        name: "cli".into(),
        source_dir: "cli".into(),
        target: WasiTarget::WasmWasiP1,
        depends_on: vec!["core-lib".into()],
        features: vec![],
    });

    ws.validate().unwrap();
    let order = ws.build_order().unwrap();
    assert_eq!(order[0], "core-lib");
    assert!(order.contains(&"app".to_string()));
    assert!(order.contains(&"cli".to_string()));
}

#[test]
fn w9_6_workspace_cycle_detection() {
    let mut ws = WorkspaceConfig::new("cyclic");
    ws.add_member(WorkspaceMember {
        name: "a".into(),
        source_dir: "a".into(),
        target: WasiTarget::WasmWasiP2,
        depends_on: vec!["b".into()],
        features: vec![],
    });
    ws.add_member(WorkspaceMember {
        name: "b".into(),
        source_dir: "b".into(),
        target: WasiTarget::WasmWasiP2,
        depends_on: vec!["a".into()],
        features: vec![],
    });

    let err = ws.validate().unwrap_err();
    match err {
        CompositionError::CycleDetected { .. } => {} // expected
        other => panic!("expected CycleDetected, got: {other:?}"),
    }
}

#[test]
fn w9_6_workspace_duplicate_member_fails() {
    let mut ws = WorkspaceConfig::new("dupes");
    ws.add_member(WorkspaceMember {
        name: "a".into(),
        source_dir: "a1".into(),
        target: WasiTarget::WasmWasiP2,
        depends_on: vec![],
        features: vec![],
    });
    ws.add_member(WorkspaceMember {
        name: "a".into(),
        source_dir: "a2".into(),
        target: WasiTarget::WasmWasiP2,
        depends_on: vec![],
        features: vec![],
    });

    let err = ws.validate().unwrap_err();
    match err {
        CompositionError::WorkspaceError { detail } => {
            assert!(detail.contains("duplicate"));
        }
        other => panic!("expected WorkspaceError, got: {other:?}"),
    }
}

// ── W9.7: Import Checker ──

#[test]
fn w9_7_import_checker_all_satisfied() {
    let mut checker = ImportChecker::new();
    checker.require("wasi:io/streams", "I/O streams", false);
    checker.require("wasi:filesystem/types", "filesystem ops", false);
    checker.require("wasi:logging/log", "logging (optional)", true);

    checker.provide("wasi:io/streams", "host");
    checker.provide("wasi:filesystem/types", "host");

    let result = checker.check();
    assert!(result.satisfied);
    assert_eq!(result.missing.len(), 0);
    assert_eq!(result.missing_optional.len(), 1);
    assert_eq!(result.satisfied_imports.len(), 2);
}

#[test]
fn w9_7_import_checker_missing_required() {
    let mut checker = ImportChecker::new();
    checker.require("wasi:io/streams", "I/O streams", false);
    checker.require("wasi:filesystem/types", "filesystem ops", false);

    checker.provide("wasi:io/streams", "host");
    // wasi:filesystem/types NOT provided

    let result = checker.check();
    assert!(!result.satisfied);
    assert_eq!(result.missing.len(), 1);
    assert_eq!(result.missing[0].interface_name, "wasi:filesystem/types");
}

// ── W9.8: WIT Registry ──

#[test]
fn w9_8_wit_registry_standard_resolution() {
    let reg = WitRegistry::with_standard_wasi();

    let streams = reg.resolve("wasi:io/streams@0.2.0").unwrap();
    assert!(streams.functions.contains(&"read".to_string()));
    assert!(streams.functions.contains(&"write".to_string()));

    let fs = reg.resolve("wasi:filesystem/types@0.2.0").unwrap();
    assert!(fs.functions.contains(&"open-at".to_string()));

    // Unknown interface fails
    let err = reg.resolve("wasi:unknown/iface@0.2.0").unwrap_err();
    match err {
        CompositionError::RegistryError { .. } => {}
        other => panic!("expected RegistryError, got: {other:?}"),
    }
}

#[test]
fn w9_8_wit_registry_flexible_resolution() {
    let reg = WitRegistry::with_standard_wasi();

    // Without version should still resolve
    let entry = reg.resolve_flexible("wasi:io/streams").unwrap();
    assert_eq!(entry.version, "0.2.0");

    // With matching version works too
    let entry = reg.resolve_flexible("wasi:io/streams@0.2.0").unwrap();
    assert_eq!(entry.path, "wasi:io/streams@0.2.0");
}

#[test]
fn w9_8_wit_registry_lists_all_interfaces() {
    let reg = WitRegistry::with_standard_wasi();
    let interfaces = reg.list_interfaces();
    assert!(interfaces.len() >= 10);
    assert!(interfaces.contains(&"wasi:io/streams@0.2.0"));
    assert!(interfaces.contains(&"wasi:cli/exit@0.2.0"));
    assert!(interfaces.contains(&"wasi:http/types@0.2.0"));
}

// ── W9.9: Size Report ──

#[test]
fn w9_9_size_report_on_built_component() {
    let mut builder = ComponentBuilder::new();
    builder.set_core_module(vec![0x00, 0x61, 0x73, 0x6D, 0x01, 0x00, 0x00, 0x00]);
    let idx = builder.add_type(ComponentTypeKind::Func(ComponentFuncType {
        name: "run".into(),
        params: vec![],
        result: Some(ComponentValType::U32),
    }));
    builder.add_export("run", ExportKind::Func, idx);
    let binary = builder.build();

    let report = SizeReport::analyze(&binary).unwrap();
    assert!(report.total_bytes > 0);
    assert!(report.section_count() > 0);
    assert!(report.core_module_bytes > 0);

    // Display works
    let display = report.to_string();
    assert!(display.contains("Component Size Report"));
    assert!(display.contains("Total:"));
}

#[test]
fn w9_9_size_report_too_short_binary() {
    let err = SizeReport::analyze(&[0x00, 0x01]).unwrap_err();
    match err {
        CompositionError::OptimizationError { detail } => {
            assert!(detail.contains("too short"));
        }
        other => panic!("expected OptimizationError, got: {other:?}"),
    }
}

// ── W9.10: Integration / Comprehensive ──

#[test]
fn w9_10_full_composition_workflow() {
    // 1. Build two components via ComponentBuilder
    let mut lib_builder = ComponentBuilder::new();
    let lib_type = lib_builder.add_type(ComponentTypeKind::Func(ComponentFuncType {
        name: "compute".into(),
        params: vec![("x".into(), ComponentValType::S32)],
        result: Some(ComponentValType::S32),
    }));
    lib_builder.add_export("compute", ExportKind::Func, lib_type);
    let lib_binary = lib_builder.build();

    let mut app_builder = ComponentBuilder::new();
    let app_import_type = app_builder.add_type(ComponentTypeKind::Func(ComponentFuncType {
        name: "compute".into(),
        params: vec![("x".into(), ComponentValType::S32)],
        result: Some(ComponentValType::S32),
    }));
    app_builder.add_import("compute", app_import_type);
    let app_binary = app_builder.build();

    // 2. Create instances
    let mut lib_instance = ComponentInstance::new("lib", lib_binary, Vec::new());
    lib_instance.add_export(ExportDef {
        name: "compute".into(),
        kind: ExportKind::Func,
        params: vec!["x: s32".into()],
        result: Some("s32".into()),
    });

    let mut app_imports: Vec<(String, String)> = Vec::new();
    app_imports.push(("compute".into(), "lib".into()));
    let app_instance = ComponentInstance::new("app", app_binary, app_imports);

    // 3. Link them
    let mut linker = ComponentLinker::new();
    linker.register(lib_instance);
    linker.register(app_instance);
    linker.link("lib", "compute", "app", "compute").unwrap();

    // 4. Verify all imports satisfied
    let unsatisfied = linker.check_all_imports();
    assert!(unsatisfied.is_empty());

    // 5. Run the app
    let app = linker.get_instance_mut("app").unwrap();
    let code = app.run().unwrap();
    assert_eq!(code, 0);
}

#[test]
fn w9_10_adapter_then_link_workflow() {
    // Wrap a P1 module in P2, then analyze its size
    let p1_bytes = vec![0x00, 0x61, 0x73, 0x6D, 0x01, 0x00, 0x00, 0x00];
    let adapter = ComponentAdapter::new(p1_bytes);
    let component_binary = adapter.adapt();

    // Analyze size
    let report = SizeReport::analyze(&component_binary).unwrap();
    assert!(report.total_bytes > 8);
    assert!(report.core_module_bytes > 0);
    assert!(report.section_count() >= 3); // core module + types + imports + exports

    // The adapted component should have component magic
    assert_eq!(&component_binary[0..4], b"\x00asm");
    assert_eq!(component_binary[4], 0x0D);
}

#[test]
fn w9_10_workspace_build_with_virtual_fs() {
    // Set up workspace
    let mut ws = WorkspaceConfig::new("embedded-ai");
    ws.add_member(WorkspaceMember {
        name: "inference".into(),
        source_dir: "inference/src".into(),
        target: WasiTarget::WasmWasiP2,
        depends_on: vec![],
        features: vec!["simd".into()],
    });
    ws.add_member(WorkspaceMember {
        name: "gateway".into(),
        source_dir: "gateway/src".into(),
        target: WasiTarget::WasmWasiP2,
        depends_on: vec!["inference".into()],
        features: vec!["http".into()],
    });

    let order = ws.build_order().unwrap();
    assert_eq!(order, vec!["inference", "gateway"]);

    // Set up virtual filesystem with source files
    let mut vfs = VirtualFs::new();
    vfs.mount("/workspace", "workspace root");
    vfs.preload_file(
        "inference/src/main.fj",
        b"@device fn infer(x: Tensor) -> Tensor { x }",
    )
    .unwrap();
    vfs.preload_file(
        "gateway/src/main.fj",
        b"fn handle(req: Request) -> Response { ok(200) }",
    )
    .unwrap();

    let root = vfs.inner_mut().open_root();
    let stat = vfs.inner().stat_at(root, "inference/src/main.fj").unwrap();
    assert!(stat.size > 0);
}

#[test]
fn w9_10_import_checker_with_registry() {
    let reg = WitRegistry::with_standard_wasi();
    let mut checker = ImportChecker::new();

    // Require interfaces that exist in registry
    checker.require("wasi:io/streams@0.2.0", "I/O streams", false);
    checker.require("wasi:cli/exit@0.2.0", "process exit", false);

    // Provide all via registry lookup
    for req_name in ["wasi:io/streams@0.2.0", "wasi:cli/exit@0.2.0"] {
        if reg.resolve(req_name).is_ok() {
            checker.provide(req_name, "wasi-host");
        }
    }

    let result = checker.check();
    assert!(result.satisfied);
    assert_eq!(result.satisfied_imports.len(), 2);
}

#[test]
fn w9_10_composition_error_display() {
    let errors = vec![
        CompositionError::MissingImport {
            component: "app".into(),
            import_name: "wasi:io/streams".into(),
        },
        CompositionError::MissingExport {
            component: "lib".into(),
            export_name: "compute".into(),
        },
        CompositionError::TypeMismatch {
            detail: "expected u32 got s32".into(),
        },
        CompositionError::CycleDetected {
            components: vec!["a".into(), "b".into()],
        },
        CompositionError::WorkspaceError {
            detail: "bad config".into(),
        },
        CompositionError::RegistryError {
            detail: "not found".into(),
        },
        CompositionError::OptimizationError {
            detail: "too short".into(),
        },
    ];
    for err in &errors {
        let s = err.to_string();
        assert!(!s.is_empty());
    }
}

fn member(name: &str, deps: &[&str]) -> WorkspaceMember {
    WorkspaceMember {
        name: name.into(),
        source_dir: name.into(),
        target: WasiTarget::WasmWasiP2,
        depends_on: deps.iter().map(|d| d.to_string()).collect(),
        features: vec![],
    }
}

#[test]
fn workspace_unknown_dependency_message() {
    let mut ws = WorkspaceConfig::new("w");
    ws.add_member(member("a", &["ghost"]));
    match ws.validate().unwrap_err() {
        CompositionError::WorkspaceError { detail } => {
            assert_eq!(detail, "member 'a' depends on 'ghost' which does not exist in workspace");
        }
        other => panic!("unexpected {other:?}"),
    }
    assert!(ws.build_order().is_err());
}

#[test]
fn workspace_duplicate_message_is_exact() {
    let mut ws = WorkspaceConfig::new("w");
    ws.add_member(member("x", &[]));
    ws.add_member(member("y", &[]));
    ws.add_member(member("x", &[]));
    assert_eq!(
        ws.validate().unwrap_err(),
        CompositionError::WorkspaceError { detail: "duplicate member name: 'x'".into() }
    );
}

#[test]
fn workspace_build_order_respects_dependencies() {
    let mut ws = WorkspaceConfig::new("w");
    ws.add_member(member("top", &["mid", "base"]));
    ws.add_member(member("mid", &["base"]));
    ws.add_member(member("base", &[]));
    ws.add_member(member("side", &[]));
    let order = ws.build_order().unwrap();
    assert_eq!(order, vec!["base", "side", "mid", "top"]);
}

#[test]
fn workspace_self_dependency_is_a_cycle() {
    let mut ws = WorkspaceConfig::new("w");
    ws.add_member(member("solo", &["solo"]));
    match ws.build_order().unwrap_err() {
        CompositionError::CycleDetected { components } => assert!(components.contains(&"solo".to_string())),
        other => panic!("unexpected {other:?}"),
    }
}

#[test]
fn workspace_empty_is_valid() {
    let ws = WorkspaceConfig::new("none");
    assert!(ws.validate().is_ok());
    assert!(ws.build_order().unwrap().is_empty());
}

#[test]
fn linker_unknown_consumer_is_missing_import() {
    let mut linker = ComponentLinker::new();
    let mut provider = ComponentInstance::new("p", vec![], Vec::new());
    provider.add_export(ExportDef { name: "f".into(), kind: ExportKind::Func, params: vec![], result: None });
    linker.register(provider);
    assert_eq!(
        linker.link("p", "f", "nobody", "f").unwrap_err(),
        CompositionError::MissingImport { component: "nobody".into(), import_name: "f".into() }
    );
    assert!(linker.links().is_empty());
}

#[test]
fn registry_flexible_unknown_path_fails() {
    let reg = WitRegistry::with_standard_wasi();
    assert!(reg.resolve_flexible("wasi:nothing/here@1.0.0").is_err());
    let entry = reg.resolve_flexible("wasi:io/streams@9.9.9").unwrap();
    assert_eq!(entry.path, "wasi:io/streams@0.2.0");
}

#[test]
fn registry_lists_interfaces_sorted() {
    let reg = WitRegistry::with_standard_wasi();
    let list = reg.list_interfaces();
    assert_eq!(list.len(), reg.interface_count());
    for w in list.windows(2) {
        assert!(w[0] < w[1]);
    }
}

#[test]
fn size_report_counts_custom_sections_as_strippable() {
    // header, then a custom section of 3 bytes and a type section of 2 bytes
    let bin = vec![0x00, 0x61, 0x73, 0x6D, 0x0D, 0x00, 0x01, 0x00, 0x0B, 0x03, 1, 2, 3, 0x01, 0x02, 9, 9];
    let report = SizeReport::analyze(&bin).unwrap();
    assert_eq!(report.total_bytes, 17);
    assert_eq!(report.stripped_bytes, 14);
    assert_eq!(report.strip_savings(), 3);
    assert_eq!(report.section_count(), 2);
    assert_eq!(report.type_section_bytes, 2);
    assert_eq!(report.sections[0].name, "custom");
    let text = report.to_string();
    assert!(text.contains("Debug savings:   3 bytes"));
    assert!(text.contains("[0b] custom"));
}

#[test]
fn virtual_fs_preload_nested_then_read_size() {
    let mut vfs = VirtualFs::new();
    vfs.preload_file("a/b/c.txt", b"xyz").unwrap();
    let root = vfs.inner_mut().open_root();
    assert_eq!(vfs.inner().stat_at(root, "a/b/c.txt").unwrap().size, 3);
}

#[test]
fn wasi_target_display_p1() {
    assert_eq!(WasiTarget::WasmWasiP1.to_string(), "wasm32-wasi");
    assert_eq!(WasiTarget::from_triple("wasm32-wasip1"), None);
}

#[test]
fn preload_replaces_existing_contents() {
    let mut vfs = VirtualFs::new();
    vfs.preload_file("a.txt", b"hello").unwrap();
    vfs.preload_file("a.txt", b"hi").unwrap();
    let root = vfs.inner_mut().open_root();
    let stat = vfs.inner().stat_at(root, "a.txt").unwrap();
    assert_eq!(stat.size, 2);
}

#[test]
fn build_order_reports_the_validation_error() {
    let mut ws = WorkspaceConfig::new("cyclic");
    for (n, d) in [("a", "b"), ("b", "c"), ("c", "a")] {
        ws.add_member(WorkspaceMember {
            name: n.into(),
            source_dir: n.into(),
            target: WasiTarget::WasmWasiP2,
            depends_on: vec![d.into()],
            features: vec![],
        });
    }
    let v = ws.validate().unwrap_err();
    assert_eq!(ws.build_order().unwrap_err(), v);
    assert!(matches!(v, CompositionError::CycleDetected { .. }));
}
