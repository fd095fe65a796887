use fajar_wasi_p2::wit_parser::{
    parse_wit, WitPrimitive, WitRecordField, WitTypeRef, WitVariantCase,
};
use fajar_wasi_p2::wit_types::{
    map_primitive, wit_to_pascal_case, wit_to_snake_case, FajarType, FlagSet, WitTypeMapper,
};
// ── W1.3: All 15 primitive types mapped ──

#[test]
fn w1_3_map_all_primitives() {
    assert_eq!(map_primitive(&WitPrimitive::U8), FajarType::UInt(8));
    assert_eq!(map_primitive(&WitPrimitive::U16), FajarType::UInt(16));
    assert_eq!(map_primitive(&WitPrimitive::U32), FajarType::UInt(32));
    assert_eq!(map_primitive(&WitPrimitive::U64), FajarType::UInt(64));
    assert_eq!(map_primitive(&WitPrimitive::S8), FajarType::Int(8));
    assert_eq!(map_primitive(&WitPrimitive::S16), FajarType::Int(16));
    assert_eq!(map_primitive(&WitPrimitive::S32), FajarType::Int(32));
    assert_eq!(map_primitive(&WitPrimitive::S64), FajarType::Int(64));
    assert_eq!(map_primitive(&WitPrimitive::F32), FajarType::Float(32));
    assert_eq!(map_primitive(&WitPrimitive::F64), FajarType::Float(64));
    assert_eq!(map_primitive(&WitPrimitive::Bool), FajarType::Bool);
    assert_eq!(map_primitive(&WitPrimitive::Char), FajarType::Char);
    assert_eq!(map_primitive(&WitPrimitive::String_), FajarType::Str);
}

#[test]
fn w1_3_map_list_type() {
    let mapper = WitTypeMapper::new();
    let ty = mapper.map_type_ref(&WitTypeRef::List(Box::new(WitTypeRef::Primitive(
        WitPrimitive::U8,
    ))));
    assert_eq!(ty, FajarType::Array(Box::new(FajarType::UInt(8))));
    assert_eq!(ty.to_string(), "Array<u8>");
}

#[test]
fn w1_3_map_option_string() {
    let mapper = WitTypeMapper::new();
    let ty = mapper.map_type_ref(&WitTypeRef::Option(Box::new(WitTypeRef::Primitive(
        WitPrimitive::String_,
    ))));
    assert_eq!(ty, FajarType::Option(Box::new(FajarType::Str)));
    assert_eq!(ty.to_string(), "Option<str>");
}

#[test]
fn w1_3_map_result_type() {
    let mapper = WitTypeMapper::new();
    let ty = mapper.map_type_ref(&WitTypeRef::Result {
        ok: Some(Box::new(WitTypeRef::Primitive(WitPrimitive::U32))),
        err: Some(Box::new(WitTypeRef::Primitive(WitPrimitive::String_))),
    });
    assert_eq!(
        ty,
        FajarType::Result {
            ok: Some(Box::new(FajarType::UInt(32))),
            err: Some(Box::new(FajarType::Str)),
        }
    );
}

// ── W1.4: Record fields accessible ──

#[test]
fn w1_4_record_field_mapping() {
    let src = r#"
interface geo {
record point {
    x: f64,
    y: f64,
}
}
"#;
    let doc = parse_wit(src).unwrap();
    let mut mapper = WitTypeMapper::new();
    mapper.register_document(&doc);

    let ty = mapper.get_type("point").unwrap();
    assert_eq!(ty, &FajarType::Struct("Point".into()));
}

#[test]
fn w1_4_record_field_names_snake_case() {
    let fields = vec![
        WitRecordField {
            name: "file-name".into(),
            ty: WitTypeRef::Primitive(WitPrimitive::String_),
            doc: None,
        },
        WitRecordField {
            name: "byte-count".into(),
            ty: WitTypeRef::Primitive(WitPrimitive::U64),
            doc: None,
        },
    ];
    let mapper = WitTypeMapper::new();
    let mapped = mapper.map_record_fields(&fields);
    assert_eq!(mapped[0].0, "file_name");
    assert_eq!(mapped[0].1, FajarType::Str);
    assert_eq!(mapped[1].0, "byte_count");
    assert_eq!(mapped[1].1, FajarType::UInt(64));
}

// ── W1.5: Variant matching ──

#[test]
fn w1_5_variant_case_mapping() {
    let cases = vec![
        WitVariantCase {
            name: "timeout".into(),
            ty: None,
            doc: None,
        },
        WitVariantCase {
            name: "refused".into(),
            ty: Some(WitTypeRef::Primitive(WitPrimitive::String_)),
            doc: None,
        },
        WitVariantCase {
            name: "other-error".into(),
            ty: Some(WitTypeRef::Primitive(WitPrimitive::U32)),
            doc: None,
        },
    ];
    let mapper = WitTypeMapper::new();
    let mapped = mapper.map_variant_cases(&cases);
    assert_eq!(mapped[0].0, "Timeout");
    assert!(mapped[0].1.is_none());
    assert_eq!(mapped[1].0, "Refused");
    assert_eq!(mapped[1].1, Some(FajarType::Str));
    assert_eq!(mapped[2].0, "OtherError");
    assert_eq!(mapped[2].1, Some(FajarType::UInt(32)));
}

// ── W1.6: Flags operations ──

#[test]
fn w1_6_flags_set_contains() {
    let mut flags = FlagSet::new(
        "Permissions",
        vec!["read".into(), "write".into(), "exec".into()],
    );
    assert!(!flags.contains("read"));
    assert!(flags.set("read"));
    assert!(flags.contains("read"));
    assert!(!flags.contains("write"));
    assert!(flags.set("write"));
    assert!(flags.contains("write"));
}

#[test]
fn w1_6_flags_union_and_intersection() {
    let mut a = FlagSet::new("Perm", vec!["read".into(), "write".into(), "exec".into()]);
    let mut b = FlagSet::new("Perm", vec!["read".into(), "write".into(), "exec".into()]);
    a.set("read");
    a.set("exec");
    b.set("read");
    b.set("write");

    let union = a.union(&b);
    assert!(union.contains("read"));
    assert!(union.contains("write"));
    assert!(union.contains("exec"));

    let inter = a.intersection(&b);
    assert!(inter.contains("read"));
    assert!(!inter.contains("write"));
    assert!(!inter.contains("exec"));
}

#[test]
fn w1_6_flags_clear() {
    let mut flags = FlagSet::new("Perm", vec!["read".into(), "write".into()]);
    flags.set("read");
    flags.set("write");
    assert!(flags.contains("read"));
    flags.clear("read");
    assert!(!flags.contains("read"));
    assert!(flags.contains("write"));
}

#[test]
fn w1_6_flags_type_mapping() {
    let src = r#"
interface fs {
flags permissions { read, write, exec }
}
"#;
    let doc = parse_wit(src).unwrap();
    let mut mapper = WitTypeMapper::new();
    mapper.register_document(&doc);
    let ty = mapper.get_type("permissions").unwrap();
    if let FajarType::Flags { name, members } = ty {
        assert_eq!(name, "Permissions");
        assert_eq!(members, &["read", "write", "exec"]);
    } else {
        panic!("expected Flags type");
    }
}

// ── W1.7: Resource handle mapping ──

#[test]
fn w1_7_resource_maps_to_handle() {
    let src = r#"
interface streams {
resource input-stream;
}
"#;
    let doc = parse_wit(src).unwrap();
    let mut mapper = WitTypeMapper::new();
    mapper.register_document(&doc);
    let ty = mapper.get_type("input-stream").unwrap();
    assert_eq!(ty, &FajarType::ResourceHandle("InputStream".into()));
    assert_eq!(ty.to_string(), "Handle<InputStream>");
}

// ── W1.8: Tuple/Option/Result mapping ──

#[test]
fn w1_8_option_maps_to_fajar_option() {
    let mapper = WitTypeMapper::new();
    let ty = mapper.map_type_ref(&WitTypeRef::Option(Box::new(WitTypeRef::Primitive(
        WitPrimitive::String_,
    ))));
    assert_eq!(ty.to_string(), "Option<str>");
}

#[test]
fn w1_8_result_maps_to_fajar_result() {
    let mapper = WitTypeMapper::new();
    let ty = mapper.map_type_ref(&WitTypeRef::Result {
        ok: Some(Box::new(WitTypeRef::List(Box::new(WitTypeRef::Primitive(
            WitPrimitive::U8,
        ))))),
        err: Some(Box::new(WitTypeRef::Primitive(WitPrimitive::String_))),
    });
    assert_eq!(ty.to_string(), "Result<Array<u8>, str>");
}

#[test]
fn w1_8_tuple_maps_to_fajar_tuple() {
    let mapper = WitTypeMapper::new();
    let ty = mapper.map_type_ref(&WitTypeRef::Tuple(vec![
        WitTypeRef::Primitive(WitPrimitive::F64),
        WitTypeRef::Primitive(WitPrimitive::F64),
        WitTypeRef::Primitive(WitPrimitive::F64),
    ]));
    assert_eq!(ty.to_string(), "(f64, f64, f64)");
}

// ── W1.9: Use imports resolve ──

#[test]
fn w1_9_use_import_resolves_type() {
    let src = r#"
interface types {
record point {
    x: f64,
    y: f64,
}
}

interface consumer {
use types.{point};
get-point: func() -> point;
}
"#;
    let doc = parse_wit(src).unwrap();
    let mut mapper = WitTypeMapper::new();
    mapper.register_document(&doc);

    // `point` should resolve to the registered struct
    let ty = mapper.get_type("point").unwrap();
    assert_eq!(ty, &FajarType::Struct("Point".into()));
}

#[test]
fn w1_9_use_import_with_alias() {
    let src = r#"
interface types {
record point { x: f64, y: f64 }
}

interface consumer {
use types.{point as pt};
}
"#;
    let doc = parse_wit(src).unwrap();
    let mut mapper = WitTypeMapper::new();
    mapper.register_document(&doc);

    // The alias `pt` should also resolve
    assert!(mapper.imported_name("pt").is_some());
    assert_eq!(mapper.imported_name("pt").unwrap(), "point");
}

// ── Naming convention tests ──

#[test]
fn w1_naming_pascal_case() {
    assert_eq!(wit_to_pascal_case("input-stream"), "InputStream");
    assert_eq!(wit_to_pascal_case("tcp-socket"), "TcpSocket");
    assert_eq!(wit_to_pascal_case("path-flags"), "PathFlags");
    assert_eq!(wit_to_pascal_case("simple"), "Simple");
}

#[test]
fn w1_naming_snake_case() {
    assert_eq!(wit_to_snake_case("file-name"), "file_name");
    assert_eq!(wit_to_snake_case("byte-count"), "byte_count");
    assert_eq!(wit_to_snake_case("simple"), "simple");
}

// ── W1.10: Full integration — map entire WASI HTTP types ──

#[test]
fn w1_10_full_wasi_http_type_mapping() {
    let src = r#"
package wasi:http@0.2.0;

interface types {
record request {
    method: string,
    url: string,
    headers: list<tuple<string, string>>,
    body: option<list<u8>>,
}

record response {
    status: u16,
    headers: list<tuple<string, string>>,
    body: list<u8>,
}

variant error {
    network-error(string),
    timeout,
    dns-error(string),
}

flags method-filter {
    get,
    post,
    put,
    delete,
}

resource connection;
}
"#;
    let doc = parse_wit(src).unwrap();
    let mut mapper = WitTypeMapper::new();
    mapper.register_document(&doc);

    // Check all types were registered
    assert_eq!(
        mapper.get_type("request").unwrap(),
        &FajarType::Struct("Request".into())
    );
    assert_eq!(
        mapper.get_type("response").unwrap(),
        &FajarType::Struct("Response".into())
    );
    assert_eq!(
        mapper.get_type("error").unwrap(),
        &FajarType::Enum("Error".into())
    );
    if let Some(FajarType::Flags { name, members }) = mapper.get_type("method-filter") {
        assert_eq!(name, "MethodFilter");
        assert_eq!(members.len(), 4);
    } else {
        panic!("expected flags");
    }
    assert_eq!(
        mapper.get_type("connection").unwrap(),
        &FajarType::ResourceHandle("Connection".into())
    );

    // Total: 5 types registered
    assert_eq!(mapper.registered_types().len(), 5);
}
