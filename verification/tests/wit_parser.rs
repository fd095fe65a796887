use fajar_wasi_p2::wit_parser::{
    parse_wit, WitInterfaceItem, WitPrimitive, WitTypeDefKind, WitTypeRef,
};
// ── W1.2: Basic parsing ──

#[test]
fn w1_2_parse_empty_document() {
    let doc = parse_wit("").unwrap();
    assert!(doc.package.is_none());
    assert!(doc.interfaces.is_empty());
    assert!(doc.worlds.is_empty());
}

#[test]
fn w1_2_parse_package_declaration() {
    let doc = parse_wit("package wasi:cli@0.2.0;").unwrap();
    let pkg = doc.package.unwrap();
    assert_eq!(pkg.namespace, "wasi");
    assert_eq!(pkg.name, "cli");
    assert_eq!(pkg.version, Some("0.2.0".into()));
}

#[test]
fn w1_2_parse_empty_interface() {
    let doc = parse_wit("interface test {}").unwrap();
    assert_eq!(doc.interfaces.len(), 1);
    assert_eq!(doc.interfaces[0].name, "test");
    assert!(doc.interfaces[0].items.is_empty());
}

#[test]
fn w1_2_parse_interface_with_function() {
    let src = r#"
interface demo {
greet: func(name: string) -> string;
}
"#;
    let doc = parse_wit(src).unwrap();
    assert_eq!(doc.interfaces.len(), 1);
    let iface = &doc.interfaces[0];
    assert_eq!(iface.name, "demo");
    assert_eq!(iface.items.len(), 1);
    if let WitInterfaceItem::Func(f) = &iface.items[0] {
        assert_eq!(f.name, "greet");
        assert_eq!(f.params.len(), 1);
        assert_eq!(f.params[0].name, "name");
        assert_eq!(f.params[0].ty, WitTypeRef::Primitive(WitPrimitive::String_));
        assert_eq!(f.result, Some(WitTypeRef::Primitive(WitPrimitive::String_)));
    } else {
        panic!("expected Func");
    }
}

#[test]
fn w1_2_parse_world_with_imports_exports() {
    let src = r#"
package wasi:cli@0.2.0;

world command {
import wasi:io/streams@0.2.0;
export run: func() -> result;
}
"#;
    let doc = parse_wit(src).unwrap();
    let pkg = doc.package.unwrap();
    assert_eq!(pkg.to_string(), "wasi:cli@0.2.0");

    assert_eq!(doc.worlds.len(), 1);
    let world = &doc.worlds[0];
    assert_eq!(world.name, "command");
    assert_eq!(world.items.len(), 2);
}

// ── W1.3: Type system ──

#[test]
fn w1_3_parse_all_15_primitive_types() {
    let src = r#"
interface types {
t1: func() -> u8;
t2: func() -> u16;
t3: func() -> u32;
t4: func() -> u64;
t5: func() -> s8;
t6: func() -> s16;
t7: func() -> s32;
t8: func() -> s64;
t9: func() -> f32;
t10: func() -> f64;
t11: func() -> bool;
t12: func() -> char;
t13: func() -> string;
t14: func() -> list<u8>;
t15: func() -> option<string>;
}
"#;
    let doc = parse_wit(src).unwrap();
    assert_eq!(doc.interfaces[0].items.len(), 15);
    // Verify first and last
    if let WitInterfaceItem::Func(f) = &doc.interfaces[0].items[0] {
        assert_eq!(f.result, Some(WitTypeRef::Primitive(WitPrimitive::U8)));
    }
    if let WitInterfaceItem::Func(f) = &doc.interfaces[0].items[14] {
        assert_eq!(
            f.result,
            Some(WitTypeRef::Option(Box::new(WitTypeRef::Primitive(
                WitPrimitive::String_
            ))))
        );
    }
}

// ── W1.4: Record types ──

#[test]
fn w1_4_parse_record() {
    let src = r#"
interface geo {
record point {
    x: f64,
    y: f64,
}
}
"#;
    let doc = parse_wit(src).unwrap();
    if let WitInterfaceItem::TypeDef(td) = &doc.interfaces[0].items[0] {
        assert_eq!(td.name, "point");
        if let WitTypeDefKind::Record(fields) = &td.kind {
            assert_eq!(fields.len(), 2);
            assert_eq!(fields[0].name, "x");
            assert_eq!(fields[0].ty, WitTypeRef::Primitive(WitPrimitive::F64));
            assert_eq!(fields[1].name, "y");
        } else {
            panic!("expected Record");
        }
    } else {
        panic!("expected TypeDef");
    }
}

#[test]
fn w1_4_record_fields_accessible() {
    let src = r#"
interface fs {
record filestat {
    device: u64,
    inode: u64,
    filetype: u8,
    nlink: u64,
    size: u64,
}
}
"#;
    let doc = parse_wit(src).unwrap();
    if let WitInterfaceItem::TypeDef(td) = &doc.interfaces[0].items[0] {
        if let WitTypeDefKind::Record(fields) = &td.kind {
            assert_eq!(fields.len(), 5);
            assert_eq!(fields[4].name, "size");
            assert_eq!(fields[4].ty, WitTypeRef::Primitive(WitPrimitive::U64));
        } else {
            panic!("expected Record");
        }
    }
}

// ── W1.5: Variant types ──

#[test]
fn w1_5_parse_variant() {
    let src = r#"
interface errors {
variant error {
    timeout,
    refused(string),
    other(u32),
}
}
"#;
    let doc = parse_wit(src).unwrap();
    if let WitInterfaceItem::TypeDef(td) = &doc.interfaces[0].items[0] {
        assert_eq!(td.name, "error");
        if let WitTypeDefKind::Variant(cases) = &td.kind {
            assert_eq!(cases.len(), 3);
            assert_eq!(cases[0].name, "timeout");
            assert!(cases[0].ty.is_none());
            assert_eq!(cases[1].name, "refused");
            assert_eq!(
                cases[1].ty,
                Some(WitTypeRef::Primitive(WitPrimitive::String_))
            );
            assert_eq!(cases[2].name, "other");
            assert_eq!(cases[2].ty, Some(WitTypeRef::Primitive(WitPrimitive::U32)));
        } else {
            panic!("expected Variant");
        }
    }
}

#[test]
fn w1_5_parse_enum() {
    let src = r#"
interface http {
enum method {
    get,
    post,
    put,
    delete,
}
}
"#;
    let doc = parse_wit(src).unwrap();
    if let WitInterfaceItem::TypeDef(td) = &doc.interfaces[0].items[0] {
        if let WitTypeDefKind::Enum(cases) = &td.kind {
            assert_eq!(cases.len(), 4);
            assert_eq!(cases[0].name, "get");
            assert_eq!(cases[3].name, "delete");
        } else {
            panic!("expected Enum");
        }
    }
}

// ── W1.6: Flags types ──

#[test]
fn w1_6_parse_flags() {
    let src = r#"
interface fs {
flags permissions {
    read,
    write,
    exec,
}
}
"#;
    let doc = parse_wit(src).unwrap();
    if let WitInterfaceItem::TypeDef(td) = &doc.interfaces[0].items[0] {
        assert_eq!(td.name, "permissions");
        if let WitTypeDefKind::Flags(flags) = &td.kind {
            assert_eq!(flags.len(), 3);
            assert_eq!(flags[0], "read");
            assert_eq!(flags[1], "write");
            assert_eq!(flags[2], "exec");
        } else {
            panic!("expected Flags");
        }
    }
}

// ── W1.7: Resource types ──

#[test]
fn w1_7_parse_resource_with_methods() {
    let src = r#"
interface fs {
resource file {
    constructor(path: string);
    read: func(len: u64) -> list<u8>;
    write: func(data: list<u8>) -> u64;
    close: func();
    open: static func(path: string) -> file;
}
}
"#;
    let doc = parse_wit(src).unwrap();
    if let WitInterfaceItem::TypeDef(td) = &doc.interfaces[0].items[0] {
        assert_eq!(td.name, "file");
        if let WitTypeDefKind::Resource(res) = &td.kind {
            assert!(res.constructor.is_some());
            let ctor = res.constructor.as_ref().unwrap();
            assert!(ctor.is_constructor);
            assert_eq!(ctor.params.len(), 1);
            assert_eq!(ctor.params[0].name, "path");

            assert_eq!(res.methods.len(), 3); // read, write, close
            assert_eq!(res.methods[0].name, "read");
            assert_eq!(res.methods[1].name, "write");
            assert_eq!(res.methods[2].name, "close");

            assert_eq!(res.statics.len(), 1); // open
            assert_eq!(res.statics[0].name, "open");
            assert!(res.statics[0].is_static);
        } else {
            panic!("expected Resource");
        }
    }
}

#[test]
fn w1_7_opaque_resource() {
    let src = r#"
interface streams {
resource input-stream;
}
"#;
    let doc = parse_wit(src).unwrap();
    if let WitInterfaceItem::TypeDef(td) = &doc.interfaces[0].items[0] {
        assert_eq!(td.name, "input-stream");
        if let WitTypeDefKind::Resource(res) = &td.kind {
            assert!(res.constructor.is_none());
            assert!(res.methods.is_empty());
            assert!(res.statics.is_empty());
        } else {
            panic!("expected Resource");
        }
    }
}

// ── W1.8: Tuple/Option/Result ──

#[test]
fn w1_8_parse_option_type() {
    let src = r#"
interface test {
get: func() -> option<string>;
}
"#;
    let doc = parse_wit(src).unwrap();
    if let WitInterfaceItem::Func(f) = &doc.interfaces[0].items[0] {
        assert_eq!(
            f.result,
            Some(WitTypeRef::Option(Box::new(WitTypeRef::Primitive(
                WitPrimitive::String_
            ))))
        );
    }
}

#[test]
fn w1_8_parse_result_type() {
    let src = r#"
interface test {
try-read: func() -> result<list<u8>, string>;
}
"#;
    let doc = parse_wit(src).unwrap();
    if let WitInterfaceItem::Func(f) = &doc.interfaces[0].items[0] {
        if let Some(WitTypeRef::Result { ok, err }) = &f.result {
            assert!(ok.is_some());
            assert!(err.is_some());
            assert_eq!(
                **err.as_ref().unwrap(),
                WitTypeRef::Primitive(WitPrimitive::String_)
            );
        } else {
            panic!("expected result type");
        }
    }
}

#[test]
fn w1_8_parse_bare_result() {
    let src = r#"
interface test {
run: func() -> result;
}
"#;
    let doc = parse_wit(src).unwrap();
    if let WitInterfaceItem::Func(f) = &doc.interfaces[0].items[0] {
        assert_eq!(
            f.result,
            Some(WitTypeRef::Result {
                ok: None,
                err: None
            })
        );
    }
}

#[test]
fn w1_8_parse_tuple_type() {
    let src = r#"
interface test {
coords: func() -> tuple<f64, f64, f64>;
}
"#;
    let doc = parse_wit(src).unwrap();
    if let WitInterfaceItem::Func(f) = &doc.interfaces[0].items[0] {
        if let Some(WitTypeRef::Tuple(items)) = &f.result {
            assert_eq!(items.len(), 3);
            assert!(
                items
                    .iter()
                    .all(|t| *t == WitTypeRef::Primitive(WitPrimitive::F64))
            );
        } else {
            panic!("expected tuple");
        }
    }
}

#[test]
fn w1_8_own_and_borrow() {
    let src = r#"
interface test {
take: func(f: own<file>) -> bool;
peek: func(f: borrow<file>) -> string;
}
"#;
    let doc = parse_wit(src).unwrap();
    if let WitInterfaceItem::Func(f) = &doc.interfaces[0].items[0] {
        assert_eq!(
            f.params[0].ty,
            WitTypeRef::Own(Box::new(WitTypeRef::Named("file".into())))
        );
    }
    if let WitInterfaceItem::Func(f) = &doc.interfaces[0].items[1] {
        assert_eq!(
            f.params[0].ty,
            WitTypeRef::Borrow(Box::new(WitTypeRef::Named("file".into())))
        );
    }
}

// ── W1.9: Use imports ──

#[test]
fn w1_9_parse_use_single_name() {
    let src = r#"
interface consumer {
use wasi:filesystem/types.{descriptor};
open: func(d: descriptor) -> bool;
}
"#;
    let doc = parse_wit(src).unwrap();
    if let WitInterfaceItem::Use(u) = &doc.interfaces[0].items[0] {
        assert_eq!(u.from.path, "wasi:filesystem/types");
        assert_eq!(u.names.len(), 1);
        assert_eq!(u.names[0].name, "descriptor");
        assert!(u.names[0].alias.is_none());
    } else {
        panic!("expected Use");
    }
}

#[test]
fn w1_9_parse_use_multiple_names_with_alias() {
    let src = r#"
interface consumer {
use wasi:io/streams.{input-stream, output-stream as out};
}
"#;
    let doc = parse_wit(src).unwrap();
    if let WitInterfaceItem::Use(u) = &doc.interfaces[0].items[0] {
        assert_eq!(u.names.len(), 2);
        assert_eq!(u.names[0].name, "input-stream");
        assert!(u.names[0].alias.is_none());
        assert_eq!(u.names[1].name, "output-stream");
        assert_eq!(u.names[1].alias, Some("out".into()));
    }
}

// ── W1.10: Comprehensive WIT parsing tests ──

#[test]
fn w1_10_parse_wasi_cli_world() {
    let src = r#"
package wasi:cli@0.2.0;

world command {
import wasi:io/streams@0.2.0;
import wasi:filesystem/types@0.2.0;
import wasi:cli/stdin@0.2.0;
import wasi:cli/stdout@0.2.0;
import wasi:clocks/monotonic-clock@0.2.0;
import wasi:random/random@0.2.0;
export run: func() -> result;
}
"#;
    let doc = parse_wit(src).unwrap();
    assert_eq!(doc.package.as_ref().unwrap().namespace, "wasi");
    assert_eq!(doc.worlds.len(), 1);
    let world = &doc.worlds[0];
    assert_eq!(world.name, "command");
    // 6 imports + 1 export = 7 items
    assert_eq!(world.items.len(), 7);
}

#[test]
fn w1_10_parse_wasi_http_world() {
    let src = r#"
package wasi:http@0.2.0;

interface types {
record request {
    method: string,
    url: string,
    headers: list<tuple<string, string>>,
}

record response {
    status: u16,
    headers: list<tuple<string, string>>,
    body: list<u8>,
}

variant error {
    network-error(string),
    timeout,
    dns-error(string),
}
}

interface outgoing-handler {
use types.{request, response, error};
handle: func(req: request) -> result<response, error>;
}

interface incoming-handler {
use types.{request, response};
handle: func(req: request) -> response;
}

world proxy {
import outgoing-handler;
export incoming-handler;
}
"#;
    let doc = parse_wit(src).unwrap();
    assert_eq!(doc.interfaces.len(), 3);
    assert_eq!(doc.worlds.len(), 1);

    // Check types interface
    let types_iface = &doc.interfaces[0];
    assert_eq!(types_iface.name, "types");
    assert_eq!(types_iface.items.len(), 3); // request, response, error

    // Check outgoing-handler has use + func
    let out_iface = &doc.interfaces[1];
    assert_eq!(out_iface.name, "outgoing-handler");
    assert_eq!(out_iface.items.len(), 2); // use + handle

    // Check world
    let world = &doc.worlds[0];
    assert_eq!(world.name, "proxy");
    assert_eq!(world.items.len(), 2);
}

#[test]
fn w1_10_parse_wasi_filesystem_interface() {
    let src = r#"
interface filesystem {
flags path-flags {
    symlink-follow,
    create,
    exclusive,
    truncate,
}

enum filetype {
    unknown,
    block-device,
    character-device,
    directory,
    regular-file,
    symbolic-link,
}

resource descriptor {
    constructor(path: string);
    read-via-stream: func(offset: u64) -> result<own<input-stream>, error>;
    write-via-stream: func(offset: u64) -> result<own<output-stream>, error>;
    stat: func() -> result<filestat, error>;
}

record filestat {
    device: u64,
    inode: u64,
    filetype: filetype,
    size: u64,
}
}
"#;
    let doc = parse_wit(src).unwrap();
    let fs = &doc.interfaces[0];
    assert_eq!(fs.name, "filesystem");
    assert_eq!(fs.items.len(), 4); // flags + enum + resource + record
}

#[test]
fn w1_10_parse_wasi_sockets_interface() {
    let src = r#"
interface sockets {
resource tcp-socket {
    constructor();
    start-connect: func(addr: string, port: u16) -> result;
    finish-connect: func() -> result;
    send: func(data: list<u8>) -> result<u64, string>;
    receive: func(len: u64) -> result<list<u8>, string>;
    shutdown: func() -> result;
}
}
"#;
    let doc = parse_wit(src).unwrap();
    let iface = &doc.interfaces[0];
    if let WitInterfaceItem::TypeDef(td) = &iface.items[0] {
        if let WitTypeDefKind::Resource(res) = &td.kind {
            assert!(res.constructor.is_some());
            assert_eq!(res.methods.len(), 5);
        }
    }
}

#[test]
fn w1_10_type_ref_display() {
    assert_eq!(WitTypeRef::Primitive(WitPrimitive::U32).to_string(), "u32");
    assert_eq!(
        WitTypeRef::List(Box::new(WitTypeRef::Primitive(WitPrimitive::U8))).to_string(),
        "list<u8>"
    );
    assert_eq!(
        WitTypeRef::Option(Box::new(WitTypeRef::Primitive(WitPrimitive::String_))).to_string(),
        "option<string>"
    );
    let result = WitTypeRef::Result {
        ok: Some(Box::new(WitTypeRef::Primitive(WitPrimitive::U32))),
        err: Some(Box::new(WitTypeRef::Primitive(WitPrimitive::String_))),
    };
    assert_eq!(result.to_string(), "result<u32, string>");
    let tuple = WitTypeRef::Tuple(vec![
        WitTypeRef::Primitive(WitPrimitive::F64),
        WitTypeRef::Primitive(WitPrimitive::F64),
    ]);
    assert_eq!(tuple.to_string(), "tuple<f64, f64>");
    assert_eq!(
        WitTypeRef::Own(Box::new(WitTypeRef::Named("file".into()))).to_string(),
        "own<file>"
    );
    assert_eq!(
        WitTypeRef::Borrow(Box::new(WitTypeRef::Named("file".into()))).to_string(),
        "borrow<file>"
    );
}

// ── Parse errors: the message and the offset of the token they point at ──

#[test]
fn parse_error_end_of_file_in_interface() {
    let e = parse_wit("interface test {").unwrap_err();
    assert_eq!(e.message, "unexpected end of file in interface");
    assert_eq!(e.offset, 16);
}

#[test]
fn parse_error_unexpected_token_in_world() {
    let e = parse_wit("world w { interface }").unwrap_err();
    assert_eq!(e.message, "unexpected token in world: `interface`");
    assert_eq!(e.offset, 10);
}

#[test]
fn parse_error_unexpected_top_level_token() {
    let e = parse_wit("func").unwrap_err();
    assert_eq!(e.message, "unexpected top-level token: `func`");
    assert_eq!(e.offset, 0);
}

#[test]
fn parse_error_in_block_header() {
    let e = parse_wit("interface {}").unwrap_err();
    assert_eq!(e.message, "expected identifier, found `{`");
    assert_eq!(e.offset, 10);
}

#[test]
fn parse_error_in_record_field() {
    let e = parse_wit("interface i { record r { a b } }").unwrap_err();
    assert_eq!(e.message, "expected `:`, found `b`");
    assert_eq!(e.offset, 27);
}

#[test]
fn parse_error_unexpected_token_in_resource() {
    let e = parse_wit("interface i { resource r { record } }").unwrap_err();
    assert_eq!(e.message, "unexpected token in resource: `record`");
    assert_eq!(e.offset, 27);
}

#[test]
fn parse_error_package_without_version() {
    let e = parse_wit("package a:b@;").unwrap_err();
    assert_eq!(e.message, "expected version after `@`, found `;`");
    assert_eq!(e.offset, 12);
}

#[test]
fn parse_error_in_use_names() {
    let e = parse_wit("use a.{b c};").unwrap_err();
    assert_eq!(e.message, "expected `}`, found `c`");
    assert_eq!(e.offset, 9);
}
