use fajar_wasi_p2::component::{
    build_component_from_world, cabi_realloc, encode_val_type, lift_list_u32, lift_list_u8, lift_string,
    lower_list_u8, lower_string, validate_component, wit_func_to_component, wit_type_to_component,
    CanonicalValue, ComponentBuilder, ComponentFuncType, ComponentTypeKind, ComponentValType, ExportKind,
    LinearMemory, PostReturnTracker, lower_list_u32, read_leb128, encode_component_type,
};
use fajar_wasi_p2::wit_parser::{parse_wit, WitFuncDef, WitParam, WitPrimitive, WitTypeRef};

// ── W2.1: Component section emitter ──

#[test]
fn w2_1_component_magic_bytes() {
    let mut builder = ComponentBuilder::new();
    let bytes = builder.build();
    assert_eq!(&bytes[0..4], b"\x00asm");
    assert_eq!(bytes[4], 0x0D); // component layer
}

#[test]
fn w2_1_component_with_core_module() {
    let mut builder = ComponentBuilder::new();
    // Minimal wasm module: magic + version + empty
    let core = vec![0x00, 0x61, 0x73, 0x6D, 0x01, 0x00, 0x00, 0x00];
    builder.set_core_module(core);
    let bytes = builder.build();
    assert!(bytes.len() > 8);
    let report = validate_component(&bytes).unwrap();
    assert!(report.magic_valid);
    assert!(report.has_core_module);
}

// ── W2.2: Type encoding ──

#[test]
fn w2_2_encode_primitive_types() {
    let ty = wit_type_to_component(&WitTypeRef::Primitive(WitPrimitive::U32));
    assert_eq!(ty, ComponentValType::U32);
    assert_eq!(ty.to_string(), "u32");
}

#[test]
fn w2_2_types_round_trip() {
    let types = vec![
        ComponentValType::Bool,
        ComponentValType::U8,
        ComponentValType::U64,
        ComponentValType::F64,
        ComponentValType::String_,
        ComponentValType::List(Box::new(ComponentValType::U8)),
        ComponentValType::Option_(Box::new(ComponentValType::String_)),
        ComponentValType::Result_ {
            ok: Some(Box::new(ComponentValType::U32)),
            err: Some(Box::new(ComponentValType::String_)),
        },
    ];

    // Encode and verify display round-trips
    for ty in &types {
        let display = ty.to_string();
        assert!(!display.is_empty(), "type should have display: {ty:?}");
    }

    // Encode to bytes and verify non-empty
    for ty in &types {
        let mut bytes = Vec::new();
        encode_val_type(&mut bytes, ty);
        assert!(
            !bytes.is_empty(),
            "encoded type should be non-empty: {ty:?}"
        );
    }
}

// ── W2.3: Import section ──

#[test]
fn w2_3_component_with_imports() {
    let mut builder = ComponentBuilder::new();
    let idx = builder.add_type(ComponentTypeKind::Instance(Vec::new()));
    builder.add_import("wasi:filesystem/types", idx);
    let bytes = builder.build();
    let report = validate_component(&bytes).unwrap();
    assert!(report.has_import_section);
    assert!(report.has_type_section);
    assert_eq!(builder.import_count(), 1);
}

// ── W2.4: Export section ──

#[test]
fn w2_4_component_with_export() {
    let mut builder = ComponentBuilder::new();
    let ft = ComponentFuncType {
        name: "run".into(),
        params: Vec::new(),
        result: Some(ComponentValType::Result_ {
            ok: None,
            err: None,
        }),
    };
    let idx = builder.add_type(ComponentTypeKind::Func(ft));
    builder.add_export("run", ExportKind::Func, idx);
    let bytes = builder.build();
    let report = validate_component(&bytes).unwrap();
    assert!(report.has_export_section);
    assert_eq!(builder.export_count(), 1);
}

// ── W2.5: Canonical ABI lifting (string → memory) ──

#[test]
fn w2_5_lower_string() {
    let mut mem = LinearMemory::new(1);
    let val = lower_string(&mut mem, "Hello, WASI!");
    if let CanonicalValue::String { ptr, len } = val {
        assert_eq!(len, 12);
        let lifted = lift_string(&mem, ptr, len).unwrap();
        assert_eq!(lifted, "Hello, WASI!");
    } else {
        panic!("expected String");
    }
}

#[test]
fn w2_5_lower_list_u8() {
    let mut mem = LinearMemory::new(1);
    let data = vec![1u8, 2, 3, 4, 5];
    let val = lower_list_u8(&mut mem, &data);
    if let CanonicalValue::List { ptr, len } = val {
        assert_eq!(len, 5);
        let lifted = lift_list_u8(&mem, ptr, len);
        assert_eq!(lifted, data);
    } else {
        panic!("expected List");
    }
}

// ── W2.6: Canonical ABI lowering (memory → values) ──

#[test]
fn w2_6_lift_string_from_memory() {
    let mut mem = LinearMemory::new(1);
    let text = "Fajar Lang WASI";
    let ptr = mem.allocate(text.len() as u32, 1);
    mem.write_bytes(ptr, text.as_bytes());
    let lifted = lift_string(&mem, ptr, text.len() as u32).unwrap();
    assert_eq!(lifted, text);
}

#[test]
fn w2_6_lift_u32_list() {
    let mut mem = LinearMemory::new(1);
    let values = vec![10u32, 20, 30, 40];
    let ptr = mem.allocate(16, 4);
    for (i, &v) in values.iter().enumerate() {
        mem.write_u32(ptr + (i as u32) * 4, v);
    }
    let lifted = lift_list_u32(&mem, ptr, 4);
    assert_eq!(lifted, values);
}

// ── W2.7: cabi_realloc ──

#[test]
fn w2_7_cabi_realloc_allocates() {
    let mut mem = LinearMemory::new(1);
    let ptr1 = cabi_realloc(&mut mem, 0, 0, 1, 100);
    assert!(ptr1 > 0);
    let ptr2 = cabi_realloc(&mut mem, 0, 0, 4, 200);
    assert!(ptr2 >= ptr1 + 100);
    // Aligned to 4 bytes
    assert_eq!(ptr2 % 4, 0);
}

#[test]
fn w2_7_host_allocates_in_guest() {
    let mut mem = LinearMemory::new(1);
    // Simulate host allocating a string buffer in guest memory
    let ptr = cabi_realloc(&mut mem, 0, 0, 1, 64);
    mem.write_bytes(ptr, b"Hello from host");
    let result = lift_string(&mem, ptr, 15).unwrap();
    assert_eq!(result, "Hello from host");
}

// ── W2.8: Post-return cleanup ──

#[test]
fn w2_8_post_return_tracking() {
    let mut tracker = PostReturnTracker::new();
    assert_eq!(tracker.pending_count(), 0);

    tracker.register(100, 64);
    tracker.register(200, 128);
    assert_eq!(tracker.pending_count(), 2);

    let cleaned = tracker.drain();
    assert_eq!(cleaned.len(), 2);
    assert_eq!(cleaned[0], (100, 64));
    assert_eq!(cleaned[1], (200, 128));
    assert_eq!(tracker.pending_count(), 0);
}

#[test]
fn w2_8_no_memory_leaks() {
    let mut mem = LinearMemory::new(1);
    let mut tracker = PostReturnTracker::new();

    // Simulate function call that returns a string
    let val = lower_string(&mut mem, "response data");
    if let CanonicalValue::String { ptr, len } = val {
        tracker.register(ptr, len);
    }

    // Post-return: all allocations tracked
    let cleanup = tracker.drain();
    assert_eq!(cleanup.len(), 1);
}

// ── W2.9: Component validation ──

#[test]
fn w2_9_validate_valid_component() {
    let mut builder = ComponentBuilder::new();
    builder.add_type(ComponentTypeKind::Func(ComponentFuncType {
        name: "run".into(),
        params: Vec::new(),
        result: None,
    }));
    builder.add_export("run", ExportKind::Func, 0);
    let bytes = builder.build();
    let report = validate_component(&bytes).unwrap();
    assert!(report.valid);
    assert!(report.magic_valid);
    assert!(report.version_valid);
}

#[test]
fn w2_9_reject_invalid_magic() {
    let bytes = vec![0xFF, 0xFF, 0xFF, 0xFF, 0x0D, 0x00, 0x01, 0x00];
    let err = validate_component(&bytes).unwrap_err();
    assert!(err.message.contains("invalid magic"));
}

#[test]
fn w2_9_reject_too_short() {
    let bytes = vec![0x00, 0x61, 0x73];
    let err = validate_component(&bytes).unwrap_err();
    assert!(err.message.contains("too short"));
}

#[test]
fn w2_9_reject_wrong_layer() {
    let bytes = vec![0x00, 0x61, 0x73, 0x6D, 0x01, 0x00, 0x00, 0x00];
    let err = validate_component(&bytes).unwrap_err();
    assert!(err.message.contains("expected component layer"));
}

// ── W2.10: Full integration tests ──

#[test]
fn w2_10_build_wasi_cli_component() {
    let src = r#"
package wasi:cli@0.2.0;

world command {
import wasi:io/streams@0.2.0;
import wasi:filesystem/types@0.2.0;
export run: func() -> result;
}
"#;
    let doc = parse_wit(src).unwrap();
    let world = &doc.worlds[0];
    let mut builder = build_component_from_world(world);
    let bytes = builder.build();
    let report = validate_component(&bytes).unwrap();
    assert!(report.valid);
    assert!(report.has_type_section);
    assert!(report.has_import_section);
    assert!(report.has_export_section);
    assert_eq!(builder.import_count(), 2);
    assert_eq!(builder.export_count(), 1);
}

#[test]
fn w2_10_canonical_abi_string_roundtrip() {
    let mut mem = LinearMemory::new(1);
    let long_string = "x".repeat(1000);
    let test_strings = vec![
        "Hello, World!",
        "",
        "Fajar Lang 🚀",
        "WASI Preview 2 Component Model",
        long_string.as_str(),
    ];
    for s in &test_strings {
        let val = lower_string(&mut mem, s);
        if let CanonicalValue::String { ptr, len } = val {
            let lifted = lift_string(&mem, ptr, len).unwrap();
            assert_eq!(&lifted, s);
        }
    }
}

#[test]
fn w2_10_component_validation_report_display() {
    let mut builder = ComponentBuilder::new();
    let core = vec![0x00, 0x61, 0x73, 0x6D, 0x01, 0x00, 0x00, 0x00];
    builder.set_core_module(core);
    builder.add_type(ComponentTypeKind::Func(ComponentFuncType {
        name: "test".into(),
        params: vec![("x".into(), ComponentValType::U32)],
        result: Some(ComponentValType::String_),
    }));
    builder.add_import("wasi:io/streams", 0);
    builder.add_export("run", ExportKind::Func, 0);
    let bytes = builder.build();

    let report = validate_component(&bytes).unwrap();
    assert!(report.valid);
    assert!(report.has_core_module);
    assert!(report.has_type_section);
    assert!(report.has_import_section);
    assert!(report.has_export_section);
    assert!(report.section_count >= 4);

    let display = report.to_string();
    assert!(display.contains("Valid: true"));
}

#[test]
fn w2_10_memory_allocation_alignment() {
    let mut mem = LinearMemory::new(1);
    let p1 = mem.allocate(3, 1); // 3 bytes, align 1
    let p2 = mem.allocate(4, 4); // 4 bytes, align 4
    let p3 = mem.allocate(8, 8); // 8 bytes, align 8

    assert_eq!(p2 % 4, 0, "p2 should be 4-byte aligned");
    assert_eq!(p3 % 8, 0, "p3 should be 8-byte aligned");
    assert!(p2 > p1);
    assert!(p3 > p2);
}

#[test]
fn w2_10_wit_func_to_component_type() {
    let func = WitFuncDef {
        name: "handle".into(),
        doc: None,
        params: vec![WitParam {
            name: "req".into(),
            ty: WitTypeRef::Named("request".into()),
        }],
        result: Some(WitTypeRef::Result {
            ok: Some(Box::new(WitTypeRef::Named("response".into()))),
            err: Some(Box::new(WitTypeRef::Primitive(WitPrimitive::String_))),
        }),
        is_static: false,
        is_constructor: false,
    };

    let ct = wit_func_to_component(&func);
    assert_eq!(ct.name, "handle");
    assert_eq!(ct.params.len(), 1);
    assert!(ct.result.is_some());
}

// ── V14 H3.9: WASI Component Size Benchmark ────────────────

#[test]
fn v14_h3_9_minimal_component_size() {
    let mut builder = ComponentBuilder::new();
    let func_type = ComponentFuncType {
        name: "run".into(),
        params: vec![],
        result: None,
    };
    let type_idx = builder.add_type(ComponentTypeKind::Func(func_type));
    builder.add_export("run", ExportKind::Func, type_idx);
    let bytes = builder.build();
    // Minimal component: valid WASM magic + component sections
    assert!(bytes.len() >= 8, "component must have WASM header");
    assert_eq!(&bytes[0..4], b"\0asm", "must start with WASM magic");
    // Minimal component should be small (< 1KB)
    assert!(
        bytes.len() < 1024,
        "minimal component should be <1KB, got {} bytes",
        bytes.len()
    );
}

#[test]
fn v14_h3_9_component_with_imports_size() {
    let mut builder = ComponentBuilder::new();
    let func_type = ComponentFuncType {
        name: "log".into(),
        params: vec![("msg".into(), ComponentValType::String_)],
        result: None,
    };
    let type_idx = builder.add_type(ComponentTypeKind::Func(func_type));
    builder.add_import("wasi:cli/stdout", type_idx);
    builder.add_export("run", ExportKind::Func, type_idx);
    let bytes = builder.build();
    assert!(bytes.len() >= 8);
    // Component with imports should still be small
    assert!(
        bytes.len() < 2048,
        "component with 1 import should be <2KB, got {} bytes",
        bytes.len()
    );
}

// ── further cases ──

#[test]
fn cm_leb128_encoding_and_reading() {
    let mut out = Vec::new();
    encode_val_type(&mut out, &ComponentValType::Own(300));
    assert_eq!(out, vec![0x69, 0xAC, 0x02]);
    assert_eq!(read_leb128(&out[1..]), (300, 2));
    assert_eq!(read_leb128(&[0xFF, 0xFF, 0xFF, 0xFF, 0x0F]), (u32::MAX, 5));
    assert_eq!(read_leb128(&[]), (0, 0));
}

#[test]
fn cm_type_texts() {
    let r = ComponentValType::Result_ {
        ok: Some(Box::new(ComponentValType::U32)),
        err: Some(Box::new(ComponentValType::String_)),
    };
    assert_eq!(r.to_string(), "result<u32, string>");
    let r2 = ComponentValType::Result_ { ok: None, err: Some(Box::new(ComponentValType::U8)) };
    assert_eq!(r2.to_string(), "result<_, u8>");
    assert_eq!(ComponentValType::Result_ { ok: None, err: None }.to_string(), "result");
    let rec = ComponentValType::Record(vec![
        ("x".to_string(), ComponentValType::S32),
        ("y".to_string(), ComponentValType::List(Box::new(ComponentValType::Char))),
    ]);
    assert_eq!(rec.to_string(), "record { x: s32, y: list<char> }");
    let var = ComponentValType::Variant(vec![
        ("none".to_string(), None),
        ("some".to_string(), Some(ComponentValType::U64)),
    ]);
    assert_eq!(var.to_string(), "variant { none, some(u64) }");
    let fl = ComponentValType::Flags(vec!["a".to_string(), "b".to_string()]);
    assert_eq!(fl.to_string(), "flags { a, b }");
    assert_eq!(ComponentValType::Own(3).to_string(), "own<3>");
    assert_eq!(ComponentValType::TypeRef(7).to_string(), "type-ref(7)");
    let tup = ComponentValType::Tuple(vec![ComponentValType::Bool, ComponentValType::F64]);
    assert_eq!(tup.to_string(), "tuple<bool, f64>");
}

#[test]
fn cm_component_type_bytes() {
    let mut out = Vec::new();
    let ft = ComponentFuncType {
        name: "f".to_string(),
        params: vec![("a".to_string(), ComponentValType::U8)],
        result: None,
    };
    encode_component_type(&mut out, &ComponentTypeKind::Func(ft));
    assert_eq!(out, vec![0x40, 1, b'f', 1, 1, b'a', 0x7E, 0x00]);
}

#[test]
fn cm_wrong_layer_message() {
    let bytes = vec![0x00, 0x61, 0x73, 0x6D, 0x01, 0x00, 0x00, 0x00];
    let err = validate_component(&bytes).unwrap_err();
    assert_eq!(err.message, "expected component layer 0x0d, got 0x01");
    assert_eq!(err.to_string(), "component validation error: expected component layer 0x0d, got 0x01");
}

#[test]
fn cm_report_text() {
    let mut builder = ComponentBuilder::new();
    builder.add_type(ComponentTypeKind::Component);
    let bytes = builder.build();
    assert_eq!(builder.bytes(), &bytes[..]);
    let report = validate_component(&bytes).unwrap();
    assert_eq!(report.section_count, 1);
    assert_eq!(
        report.to_string(),
        format!(
            "Component Validation Report\n  Valid: true\n  Size: {} bytes\n  Sections: 1\n  Core module: false\n  Types: true\n  Imports: false\n  Exports: false\n",
            bytes.len()
        )
    );
}

#[test]
fn cm_u32_list_roundtrip_and_u64() {
    let mut mem = LinearMemory::new(1);
    mem.allocate(3, 1);
    let values = vec![7u32, 0xDEADBEEF, 0];
    let val = lower_list_u32(&mut mem, &values);
    if let CanonicalValue::List { ptr, len } = val {
        assert_eq!(ptr % 4, 0);
        assert_eq!(lift_list_u32(&mem, ptr, len), values);
    } else {
        panic!("expected List");
    }
    mem.write_u64(100, 0x0102_0304_0506_0708);
    assert_eq!(mem.read_u64(100), 0x0102_0304_0506_0708);
    assert_eq!(mem.read_bytes(100, 2), vec![0x08, 0x07]);
    // out of range: no write, reads give nothing
    mem.write_bytes(65535, &[1, 2]);
    assert_eq!(mem.read_bytes(65535, 2), Vec::<u8>::new());
    assert_eq!(mem.read_u32(65534), 0);
    assert_eq!(mem.capacity(), 65536);
}

#[test]
fn cm_invalid_utf8_lifts_to_none() {
    let mut mem = LinearMemory::new(1);
    let p = mem.allocate(2, 1);
    mem.write_bytes(p, &[0xFF, 0xFE]);
    assert_eq!(lift_string(&mem, p, 2), None);
    assert_eq!(lift_string(&mem, 65535, 10), None);
}
