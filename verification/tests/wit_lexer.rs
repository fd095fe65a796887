use fajar_wasi_p2::wit_lexer::{tokenize_wit, WitTokenKind};


#[test]
fn w1_1_tokenize_empty() {
    let tokens = tokenize_wit("").unwrap();
    assert_eq!(tokens.len(), 1);
    assert_eq!(tokens[0].kind, WitTokenKind::Eof);
}

#[test]
fn w1_1_tokenize_keywords() {
    let src = "package world interface resource use func record enum variant flags type";
    let tokens = tokenize_wit(src).unwrap();
    let kinds: Vec<_> = tokens.iter().map(|t| &t.kind).collect();
    assert_eq!(kinds[0], &WitTokenKind::Package);
    assert_eq!(kinds[1], &WitTokenKind::World);
    assert_eq!(kinds[2], &WitTokenKind::Interface);
    assert_eq!(kinds[3], &WitTokenKind::Resource);
    assert_eq!(kinds[4], &WitTokenKind::Use);
    assert_eq!(kinds[5], &WitTokenKind::Func);
    assert_eq!(kinds[6], &WitTokenKind::Record);
    assert_eq!(kinds[7], &WitTokenKind::Enum);
    assert_eq!(kinds[8], &WitTokenKind::Variant);
    assert_eq!(kinds[9], &WitTokenKind::Flags);
    assert_eq!(kinds[10], &WitTokenKind::Type);
}

#[test]
fn w1_1_tokenize_primitives() {
    let src = "u8 u16 u32 u64 s8 s16 s32 s64 f32 f64 bool char string";
    let tokens = tokenize_wit(src).unwrap();
    assert_eq!(tokens[0].kind, WitTokenKind::U8);
    assert_eq!(tokens[4].kind, WitTokenKind::S8);
    assert_eq!(tokens[10].kind, WitTokenKind::Bool);
    assert_eq!(tokens[11].kind, WitTokenKind::Char);
    assert_eq!(tokens[12].kind, WitTokenKind::StringKw);
}

#[test]
fn w1_1_tokenize_symbols() {
    let src = ": ; , . / @ = -> * { } ( ) < >";
    let tokens = tokenize_wit(src).unwrap();
    assert_eq!(tokens[0].kind, WitTokenKind::Colon);
    assert_eq!(tokens[1].kind, WitTokenKind::Semicolon);
    assert_eq!(tokens[7].kind, WitTokenKind::Arrow);
    assert_eq!(tokens[8].kind, WitTokenKind::Star);
}

#[test]
fn w1_1_tokenize_semver() {
    let src = "0.2.0";
    let tokens = tokenize_wit(src).unwrap();
    assert_eq!(tokens[0].kind, WitTokenKind::SemVer("0.2.0".into()));
}

#[test]
fn w1_1_tokenize_package_decl() {
    let src = "package wasi:cli@0.2.0;";
    let tokens = tokenize_wit(src).unwrap();
    assert_eq!(tokens[0].kind, WitTokenKind::Package);
    assert_eq!(tokens[1].kind, WitTokenKind::Ident("wasi".into()));
    assert_eq!(tokens[2].kind, WitTokenKind::Colon);
    assert_eq!(tokens[3].kind, WitTokenKind::Ident("cli".into()));
    assert_eq!(tokens[4].kind, WitTokenKind::At);
    assert_eq!(tokens[5].kind, WitTokenKind::SemVer("0.2.0".into()));
    assert_eq!(tokens[6].kind, WitTokenKind::Semicolon);
}

#[test]
fn w1_1_tokenize_doc_comments() {
    let src = "/// A doc comment\ninterface test {}";
    let tokens = tokenize_wit(src).unwrap();
    assert!(matches!(&tokens[0].kind, WitTokenKind::DocComment(c) if c == "A doc comment"));
    assert_eq!(tokens[1].kind, WitTokenKind::Interface);
}

#[test]
fn w1_1_tokenize_regular_comments_skipped() {
    let src = "// regular comment\ninterface test {}";
    let tokens = tokenize_wit(src).unwrap();
    // Regular comments are skipped
    assert_eq!(tokens[0].kind, WitTokenKind::Interface);
}

#[test]
fn w1_1_tokenize_wasi_cli_command_world() {
    let src = r#"
package wasi:cli@0.2.0;

world command {
import wasi:io/streams@0.2.0;
import wasi:filesystem/types@0.2.0;
export run: func() -> result;
}
"#;
    let tokens = tokenize_wit(src).unwrap();
    // Should successfully tokenize the entire WASI CLI command world
    assert!(tokens.iter().any(|t| t.kind == WitTokenKind::Package));
    assert!(tokens.iter().any(|t| t.kind == WitTokenKind::World));
    assert!(tokens.iter().any(|t| t.kind == WitTokenKind::Import));
    assert!(tokens.iter().any(|t| t.kind == WitTokenKind::Export));
    assert!(
        tokens
            .iter()
            .any(|t| matches!(&t.kind, WitTokenKind::Ident(s) if s == "command"))
    );
}

#[test]
fn w1_1_tokenize_hyphenated_idents() {
    let src = "input-stream output-stream monotonic-clock";
    let tokens = tokenize_wit(src).unwrap();
    assert_eq!(tokens[0].kind, WitTokenKind::Ident("input-stream".into()));
    assert_eq!(tokens[1].kind, WitTokenKind::Ident("output-stream".into()));
    assert_eq!(
        tokens[2].kind,
        WitTokenKind::Ident("monotonic-clock".into())
    );
}
