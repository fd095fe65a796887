//! WIT parser: a recursive-descent parser for `.wit` files.
//!
//! Produces a `WitDocument` holding interfaces, worlds, type definitions and
//! `use` imports: records, variants, enums, flags, resources, type aliases,
//! tuple/option/result types and `use` imports.
//!
//! What a successful parse returns is specified by the `*_spelled`
//! functions: each says whether a value is what the token stream spells
//! from a given position, and where that spelling ends.

use vstd::prelude::*;
use vstd::string::StringSliceAdditionalSpecFns;
use crate::text::{dec, owned, push_char, push_dec, push_str};
use crate::wit_lexer::{
    kind_text, law_keywords_lex_as_keywords, lemma_lex_ends_with_eof, spec_lex, tokenize_wit, TokenKindView, TokenView,
    WitToken, WitTokenKind, word_kind,
};

verus! {

// ═════════════════════════════════════════════════════════════════════
// AST types
// ═════════════════════════════════════════════════════════════════════

/// A complete WIT document parsed from a `.wit` file.
#[derive(Debug, Clone)]
pub struct WitDocument {
    /// Package declaration (e.g., `wasi:cli@0.2.0`).
    pub package: Option<WitPackage>,
    /// Top-level interfaces.
    pub interfaces: Vec<WitInterfaceDef>,
    /// Top-level worlds.
    pub worlds: Vec<WitWorldDef>,
    /// Top-level `use` imports outside interfaces/worlds.
    pub top_use: Vec<WitUseDecl>,
}

/// Package declaration: `package namespace:name@version;`
#[derive(Debug, Clone, PartialEq)]
pub struct WitPackage {
    /// Namespace (e.g., `wasi`).
    pub namespace: String,
    /// Package name (e.g., `cli`).
    pub name: String,
    /// Optional semver version.
    pub version: Option<String>,
}

/// The text of a package declaration: `namespace:name` and `@version` when present.
pub open spec fn package_text(p: WitPackage) -> Seq<char> {
    p.namespace@ + ":"@ + p.name@ + match p.version {
        Some(v) => "@"@ + v@,
        None => Seq::<char>::empty(),
    }
}

impl WitPackage {
    /// The text of this package declaration.
    pub fn to_string(&self) -> (s: String)
        ensures
            s@ == package_text(*self),
    {
        let mut s = self.namespace.clone();
        push_str(&mut s, ":");
        push_str(&mut s, self.name.as_str());
        match &self.version {
            Some(v) => {
                push_str(&mut s, "@");
                push_str(&mut s, v.as_str());
            },
            None => {},
        }
        proof {
            assert(s@ =~= package_text(*self));
        }
        s
    }
}

/// An interface definition: `interface name { ... }`
#[derive(Debug, Clone)]
pub struct WitInterfaceDef {
    /// Interface name.
    pub name: String,
    /// Doc comment, if any.
    pub doc: Option<String>,
    /// Items inside the interface.
    pub items: Vec<WitInterfaceItem>,
}

/// Items that can appear inside an interface block.
#[derive(Debug, Clone)]
pub enum WitInterfaceItem {
    /// A function definition.
    Func(WitFuncDef),
    /// A type definition (record, enum, variant, flags, resource, type alias).
    TypeDef(WitTypeDef),
    /// A `use` import.
    Use(WitUseDecl),
}

/// A world definition: `world name { ... }`
#[derive(Debug, Clone)]
pub struct WitWorldDef {
    /// World name.
    pub name: String,
    /// Doc comment, if any.
    pub doc: Option<String>,
    /// Items inside the world.
    pub items: Vec<WitWorldItem>,
}

/// Items that can appear inside a world block.
#[derive(Debug, Clone)]
pub enum WitWorldItem {
    /// `import iface-path;` or `import name: func(...) -> ...;`
    Import(WitWorldImport),
    /// `export iface-path;` or `export name: func(...) -> ...;`
    Export(WitWorldExport),
    /// `include other-world;`
    Include(String),
    /// A `use` import.
    Use(WitUseDecl),
    /// Inline type definition.
    TypeDef(WitTypeDef),
}

/// World import: either an interface path or an inline function.
#[derive(Debug, Clone)]
pub enum WitWorldImport {
    /// Import an interface by path (e.g., `wasi:io/streams@0.2.0`).
    InterfacePath(WitExternPath),
    /// Import a named function inline.
    Func { name: String, func: WitFuncDef },
}

/// World export: either an interface path or an inline function.
#[derive(Debug, Clone)]
pub enum WitWorldExport {
    /// Export an interface by path.
    InterfacePath(WitExternPath),
    /// Export a named function inline.
    Func { name: String, func: WitFuncDef },
}

/// External interface path: `namespace:pkg/iface@version`
#[derive(Debug, Clone, PartialEq)]
pub struct WitExternPath {
    /// Full path text (e.g., `wasi:io/streams@0.2.0`).
    pub path: String,
}

impl WitExternPath {
    /// The text of this path.
    pub fn to_string(&self) -> (s: String)
        ensures
            s@ == self.path@,
    {
        self.path.clone()
    }
}

/// A function definition: `name: func(params) -> result`
#[derive(Debug, Clone)]
pub struct WitFuncDef {
    /// Function name.
    pub name: String,
    /// Doc comment, if any.
    pub doc: Option<String>,
    /// Parameters.
    pub params: Vec<WitParam>,
    /// Return type (if any).
    pub result: Option<WitTypeRef>,
    /// Whether this is a static method.
    pub is_static: bool,
    /// Whether this is a constructor.
    pub is_constructor: bool,
}

/// A function parameter: `name: type`
#[derive(Debug, Clone, PartialEq)]
pub struct WitParam {
    /// Parameter name.
    pub name: String,
    /// Parameter type.
    pub ty: WitTypeRef,
}

/// A type definition.
#[derive(Debug, Clone)]
pub struct WitTypeDef {
    /// Type name.
    pub name: String,
    /// Doc comment, if any.
    pub doc: Option<String>,
    /// The type body.
    pub kind: WitTypeDefKind,
}

/// Kinds of type definitions.
#[derive(Debug, Clone)]
pub enum WitTypeDefKind {
    /// `record name { field: type, ... }`
    Record(Vec<WitRecordField>),
    /// `enum name { case1, case2, ... }`
    Enum(Vec<WitEnumCase>),
    /// `variant name { case1(type), case2, ... }`
    Variant(Vec<WitVariantCase>),
    /// `flags name { flag1, flag2, ... }`
    Flags(Vec<String>),
    /// `resource name { ... }`
    Resource(WitResourceDef),
    /// `type alias = other-type;`
    Alias(WitTypeRef),
}

/// A field in a record: `name: type`
#[derive(Debug, Clone, PartialEq)]
pub struct WitRecordField {
    pub name: String,
    pub ty: WitTypeRef,
    pub doc: Option<String>,
}

/// A case in an enum (no payload).
#[derive(Debug, Clone, PartialEq)]
pub struct WitEnumCase {
    pub name: String,
    pub doc: Option<String>,
}

/// A case in a variant (optional payload).
#[derive(Debug, Clone, PartialEq)]
pub struct WitVariantCase {
    pub name: String,
    pub ty: Option<WitTypeRef>,
    pub doc: Option<String>,
}

/// A resource definition with optional methods.
#[derive(Debug, Clone)]
pub struct WitResourceDef {
    /// Constructor, if any.
    pub constructor: Option<WitFuncDef>,
    /// Methods.
    pub methods: Vec<WitFuncDef>,
    /// Static functions.
    pub statics: Vec<WitFuncDef>,
}

/// A `use` declaration: `use iface-path.{name1, name2 as alias}`
#[derive(Debug, Clone, PartialEq)]
pub struct WitUseDecl {
    /// The interface path being imported from.
    pub from: WitExternPath,
    /// Names being imported, with optional aliases.
    pub names: Vec<WitUseName>,
}

/// A single name in a `use` declaration, with optional alias.
#[derive(Debug, Clone, PartialEq)]
pub struct WitUseName {
    /// Original name.
    pub name: String,
    /// Optional alias (`as new-name`).
    pub alias: Option<String>,
}

/// A reference to a type (primitive, generic, named, own, borrow).
#[derive(Debug, PartialEq)]
pub enum WitTypeRef {
    /// Primitive: `u8`, ..., `f64`, `bool`, `char`, `string`.
    Primitive(WitPrimitive),
    /// `list<T>`
    List(Box<WitTypeRef>),
    /// `option<T>`
    Option(Box<WitTypeRef>),
    /// `result<T, E>` or `result<_, E>` or `result<T>` or `result`
    Result { ok: Option<Box<WitTypeRef>>, err: Option<Box<WitTypeRef>> },
    /// `tuple<A, B, C>`
    Tuple(Vec<WitTypeRef>),
    /// `own<T>`
    Own(Box<WitTypeRef>),
    /// `borrow<T>`
    Borrow(Box<WitTypeRef>),
    /// A named type reference (user-defined or imported).
    Named(String),
}

/// WIT primitive types.
#[derive(Debug, Clone, Copy, PartialEq, Eq, Structural)]
pub enum WitPrimitive {
    U8,
    U16,
    U32,
    U64,
    S8,
    S16,
    S32,
    S64,
    F32,
    F64,
    Bool,
    Char,
    String_,
}

/// The WIT name of a primitive type.
pub open spec fn primitive_text(p: WitPrimitive) -> Seq<char> {
    match p {
        WitPrimitive::U8 => "u8"@,
        WitPrimitive::U16 => "u16"@,
        WitPrimitive::U32 => "u32"@,
        WitPrimitive::U64 => "u64"@,
        WitPrimitive::S8 => "s8"@,
        WitPrimitive::S16 => "s16"@,
        WitPrimitive::S32 => "s32"@,
        WitPrimitive::S64 => "s64"@,
        WitPrimitive::F32 => "f32"@,
        WitPrimitive::F64 => "f64"@,
        WitPrimitive::Bool => "bool"@,
        WitPrimitive::Char => "char"@,
        WitPrimitive::String_ => "string"@,
    }
}

/// The token that names a primitive type.
pub open spec fn primitive_token(p: WitPrimitive) -> TokenKindView {
    match p {
        WitPrimitive::U8 => TokenKindView::U8,
        WitPrimitive::U16 => TokenKindView::U16,
        WitPrimitive::U32 => TokenKindView::U32,
        WitPrimitive::U64 => TokenKindView::U64,
        WitPrimitive::S8 => TokenKindView::S8,
        WitPrimitive::S16 => TokenKindView::S16,
        WitPrimitive::S32 => TokenKindView::S32,
        WitPrimitive::S64 => TokenKindView::S64,
        WitPrimitive::F32 => TokenKindView::F32,
        WitPrimitive::F64 => TokenKindView::F64,
        WitPrimitive::Bool => TokenKindView::Bool,
        WitPrimitive::Char => TokenKindView::Char,
        WitPrimitive::String_ => TokenKindView::StringKw,
    }
}

/// A primitive type's WIT name lexes to the token that is parsed as that
/// primitive, and distinct primitives have distinct names and tokens.
pub proof fn law_primitive_name_roundtrip(p: WitPrimitive, q: WitPrimitive)
    ensures
        word_kind(primitive_text(p)) == primitive_token(p),
        type_spelled(seq![primitive_token(p)], 0, WitTypeRef::Primitive(p)) == Some(1int),
        primitive_token(p) == primitive_token(q) ==> p == q,
        primitive_text(p) == primitive_text(q) ==> p == q,
{
    law_keywords_lex_as_keywords();
    if primitive_text(p) == primitive_text(q) {
        assert(word_kind(primitive_text(p)) == word_kind(primitive_text(q)));
    }
}

impl WitPrimitive {
    /// The WIT name of this primitive type.
    pub fn to_string(&self) -> (s: String)
        ensures
            s@ == primitive_text(*self),
    {
        match self {
            WitPrimitive::U8 => owned("u8"),
            WitPrimitive::U16 => owned("u16"),
            WitPrimitive::U32 => owned("u32"),
            WitPrimitive::U64 => owned("u64"),
            WitPrimitive::S8 => owned("s8"),
            WitPrimitive::S16 => owned("s16"),
            WitPrimitive::S32 => owned("s32"),
            WitPrimitive::S64 => owned("s64"),
            WitPrimitive::F32 => owned("f32"),
            WitPrimitive::F64 => owned("f64"),
            WitPrimitive::Bool => owned("bool"),
            WitPrimitive::Char => owned("char"),
            WitPrimitive::String_ => owned("string"),
        }
    }
}

/// The WIT text of a type reference.
pub open spec fn type_text(t: WitTypeRef) -> Seq<char>
    decreases t,
{
    match t {
        WitTypeRef::Primitive(p) => primitive_text(p),
        WitTypeRef::List(inner) => "list<"@ + type_text(*inner) + ">"@,
        WitTypeRef::Option(inner) => "option<"@ + type_text(*inner) + ">"@,
        WitTypeRef::Result { ok, err } => "result"@ + match (ok, err) {
            (Some(o), Some(e)) => "<"@ + type_text(*o) + ", "@ + type_text(*e) + ">"@,
            (Some(o), None) => "<"@ + type_text(*o) + ">"@,
            (None, Some(e)) => "<_, "@ + type_text(*e) + ">"@,
            (None, None) => Seq::<char>::empty(),
        },
        WitTypeRef::Tuple(items) => "tuple<"@ + list_text(items@, 0) + ">"@,
        WitTypeRef::Own(inner) => "own<"@ + type_text(*inner) + ">"@,
        WitTypeRef::Borrow(inner) => "borrow<"@ + type_text(*inner) + ">"@,
        WitTypeRef::Named(n) => n@,
    }
}

/// The texts of `items[i..]`, separated by `", "`.
pub open spec fn list_text(items: Seq<WitTypeRef>, i: int) -> Seq<char>
    decreases items, items.len() - i,
{
    if 0 <= i < items.len() {
        (if i > 0 {
            ", "@
        } else {
            Seq::<char>::empty()
        }) + type_text(items[i]) + list_text(items, i + 1)
    } else {
        Seq::<char>::empty()
    }
}

impl Clone for WitTypeRef {
    fn clone(&self) -> (r: Self)
        decreases self,
    {
        match self {
            WitTypeRef::Primitive(p) => WitTypeRef::Primitive(*p),
            WitTypeRef::List(inner) => WitTypeRef::List(Box::new((**inner).clone())),
            WitTypeRef::Option(inner) => WitTypeRef::Option(Box::new((**inner).clone())),
            WitTypeRef::Result { ok, err } => {
                let ok2 = match ok {
                    Some(o) => Some(Box::new((**o).clone())),
                    None => None,
                };
                let err2 = match err {
                    Some(e) => Some(Box::new((**e).clone())),
                    None => None,
                };
                WitTypeRef::Result { ok: ok2, err: err2 }
            },
            WitTypeRef::Tuple(items) => {
                let mut out: Vec<WitTypeRef> = Vec::new();
                let mut i: usize = 0;
                while i < items.len()
                    invariant
                        i <= items@.len(),
                        *self == WitTypeRef::Tuple(*items),
                    decreases items@.len() - i,
                {
                    proof {
                        assert(decreases_to!(*self => (*self)->Tuple_0));
                        assert(decreases_to!((*self)->Tuple_0 => (*self)->Tuple_0[i as int]));
                    }
                    out.push(items[i].clone());
                    i = i + 1;
                }
                WitTypeRef::Tuple(out)
            },
            WitTypeRef::Own(inner) => WitTypeRef::Own(Box::new((**inner).clone())),
            WitTypeRef::Borrow(inner) => WitTypeRef::Borrow(Box::new((**inner).clone())),
            WitTypeRef::Named(n) => WitTypeRef::Named(n.clone()),
        }
    }
}

impl WitTypeRef {
    /// The WIT text of this type reference.
    pub fn to_string(&self) -> (s: String)
        ensures
            s@ == type_text(*self),
        decreases self,
    {
        let mut s = String::new();
        self.write_to(&mut s);
        assert(s@ =~= type_text(*self));
        s
    }

    fn write_to(&self, s: &mut String)
        ensures
            final(s)@ == old(s)@ + type_text(*self),
        decreases self,
    {
        match self {
            WitTypeRef::Primitive(p) => {
                let t = p.to_string();
                push_str(s, t.as_str());
            },
            WitTypeRef::List(inner) => {
                push_str(s, "list<");
                inner.write_to(s);
                push_str(s, ">");
            },
            WitTypeRef::Option(inner) => {
                push_str(s, "option<");
                inner.write_to(s);
                push_str(s, ">");
            },
            WitTypeRef::Result { ok, err } => {
                push_str(s, "result");
                match (ok, err) {
                    (Some(o), Some(e)) => {
                        push_str(s, "<");
                        o.write_to(s);
                        push_str(s, ", ");
                        e.write_to(s);
                        push_str(s, ">");
                    },
                    (Some(o), None) => {
                        push_str(s, "<");
                        o.write_to(s);
                        push_str(s, ">");
                    },
                    (None, Some(e)) => {
                        push_str(s, "<_, ");
                        e.write_to(s);
                        push_str(s, ">");
                    },
                    (None, None) => {},
                }
            },
            WitTypeRef::Tuple(items) => {
                push_str(s, "tuple<");
                let mut i: usize = 0;
                let ghost before = s@;
                while i < items.len()
                    invariant
                        i <= items@.len(),
                        *self == WitTypeRef::Tuple(*items),
                        before + list_text(items@, 0) == s@ + list_text(items@, i as int),
                    decreases items@.len() - i,
                {
                    proof {
                        assert(decreases_to!(*self => (*self)->Tuple_0));
                        assert(decreases_to!((*self)->Tuple_0 => (*self)->Tuple_0[i as int]));
                    }
                    if i > 0 {
                        push_str(s, ", ");
                    }
                    items[i].write_to(s);
                    i = i + 1;
                }
                push_str(s, ">");
            },
            WitTypeRef::Own(inner) => {
                push_str(s, "own<");
                inner.write_to(s);
                push_str(s, ">");
            },
            WitTypeRef::Borrow(inner) => {
                push_str(s, "borrow<");
                inner.write_to(s);
                push_str(s, ">");
            },
            WitTypeRef::Named(n) => {
                push_str(s, n.as_str());
            },
        }
    }
}


// ═════════════════════════════════════════════════════════════════════
// Parse error
// ═════════════════════════════════════════════════════════════════════

/// Error during WIT parsing.
#[derive(Debug, Clone, PartialEq)]
pub struct WitParseError {
    /// Error message.
    pub message: String,
    /// Byte offset of the token that caused the error.
    pub offset: usize,
}

impl WitParseError {
    /// The text of this error.
    pub fn to_string(&self) -> (s: String)
        ensures
            s@ == "WIT parse error at offset "@ + dec(self.offset as nat) + ": "@ + self.message@,
    {
        let mut s = owned("WIT parse error at offset ");
        push_dec(&mut s, self.offset as u64);
        push_str(&mut s, ": ");
        push_str(&mut s, self.message.as_str());
        s
    }
}

// ═════════════════════════════════════════════════════════════════════
// What a token stream spells
// ═════════════════════════════════════════════════════════════════════

/// The token at index `i`; past either end, `Eof`.
pub open spec fn tok(ks: Seq<TokenKindView>, i: int) -> TokenKindView {
    if 0 <= i < ks.len() {
        ks[i]
    } else {
        TokenKindView::Eof
    }
}

/// Whether `t` is what the tokens spell from `pos`; if so, where the spelling ends.
pub open spec fn type_spelled(ks: Seq<TokenKindView>, pos: int, t: WitTypeRef) -> Option<int>
    decreases t, 1int,
{
    match t {
        WitTypeRef::Primitive(p) => if tok(ks, pos) == primitive_token(p) {
            Some(pos + 1)
        } else {
            None
        },
        WitTypeRef::List(inner) => wrapped_spelled(ks, pos, TokenKindView::List, *inner),
        WitTypeRef::Option(inner) => wrapped_spelled(ks, pos, TokenKindView::Option_, *inner),
        WitTypeRef::Own(inner) => wrapped_spelled(ks, pos, TokenKindView::Own, *inner),
        WitTypeRef::Borrow(inner) => wrapped_spelled(ks, pos, TokenKindView::Borrow, *inner),
        WitTypeRef::Result { ok, err } => if tok(ks, pos) != TokenKindView::Result_ {
            None
        } else if tok(ks, pos + 1) != TokenKindView::LAngle {
            if ok is None && err is None {
                Some(pos + 1)
            } else {
                None
            }
        } else {
            let p = pos + 2;
            let q = match ok {
                None => if tok(ks, p) == TokenKindView::Ident("_"@) {
                    Some(p + 1)
                } else {
                    None
                },
                Some(o) => if tok(ks, p) == TokenKindView::Ident("_"@) {
                    None
                } else {
                    type_spelled(ks, p, *o)
                },
            };
            match q {
                None => None,
                Some(q) => {
                    let r = if tok(ks, q) == TokenKindView::Comma {
                        match err {
                            None => if tok(ks, q + 1) == TokenKindView::Ident("_"@) {
                                Some(q + 2)
                            } else {
                                None
                            },
                            Some(e) => if tok(ks, q + 1) == TokenKindView::Ident("_"@) {
                                None
                            } else {
                                type_spelled(ks, q + 1, *e)
                            },
                        }
                    } else if err is None {
                        Some(q)
                    } else {
                        None
                    };
                    match r {
                        Some(r) => if tok(ks, r) == TokenKindView::RAngle {
                            Some(r + 1)
                        } else {
                            None
                        },
                        None => None,
                    }
                },
            }
        },
        WitTypeRef::Tuple(items) => if tok(ks, pos) == TokenKindView::Tuple_ && tok(ks, pos + 1)
            == TokenKindView::LAngle {
            if tok(ks, pos + 2) == TokenKindView::RAngle {
                if items@.len() == 0 {
                    Some(pos + 3)
                } else {
                    None
                }
            } else {
                match items_spelled(ks, pos + 2, items@) {
                    Some(q) => if tok(ks, q) == TokenKindView::RAngle {
                        Some(q + 1)
                    } else {
                        None
                    },
                    None => None,
                }
            }
        } else {
            None
        },
        WitTypeRef::Named(n) => if tok(ks, pos) == TokenKindView::Ident(n@) {
            Some(pos + 1)
        } else {
            None
        },
    }
}

/// `kw<inner>` spelled from `pos`.
pub open spec fn wrapped_spelled(
    ks: Seq<TokenKindView>,
    pos: int,
    kw: TokenKindView,
    inner: WitTypeRef,
) -> Option<int>
    decreases inner, 2int,
{
    if tok(ks, pos) == kw && tok(ks, pos + 1) == TokenKindView::LAngle {
        match type_spelled(ks, pos + 2, inner) {
            Some(q) => if tok(ks, q) == TokenKindView::RAngle {
                Some(q + 1)
            } else {
                None
            },
            None => None,
        }
    } else {
        None
    }
}

/// A non-empty comma-separated list of types spelled from `pos` (no trailing comma).
pub open spec fn items_spelled(ks: Seq<TokenKindView>, pos: int, items: Seq<WitTypeRef>) -> Option<
    int,
>
    decreases items, 0int,
{
    if items.len() == 0 {
        None
    } else {
        match type_spelled(ks, pos, items[0]) {
            None => None,
            Some(q) => if items.len() == 1 {
                if tok(ks, q) != TokenKindView::Comma {
                    Some(q)
                } else {
                    None
                }
            } else if tok(ks, q) == TokenKindView::Comma {
                items_spelled(ks, q + 1, items.drop_first())
            } else {
                None
            },
        }
    }
}

/// Where a run of consecutive doc comments starting at `i` ends.
pub open spec fn doc_end(ks: Seq<TokenKindView>, i: int) -> int
    decreases ks.len() - i,
{
    if tok(ks, i) is DocComment {
        doc_end(ks, i + 1)
    } else {
        i
    }
}

/// The text of the doc comments starting at `i`, joined by newlines.
pub open spec fn doc_text(ks: Seq<TokenKindView>, i: int) -> Seq<char>
    decreases ks.len() - i,
{
    if tok(ks, i) is DocComment {
        let s = tok(ks, i)->DocComment_0;
        if tok(ks, i + 1) is DocComment {
            s + seq!['\n'] + doc_text(ks, i + 1)
        } else {
            s
        }
    } else {
        Seq::<char>::empty()
    }
}

/// The doc found at `i`: the joined doc comments, or nothing.
pub open spec fn doc_matches(d: Option<String>, ks: Seq<TokenKindView>, i: int) -> bool {
    if tok(ks, i) is DocComment {
        d is Some && d->0@ == doc_text(ks, i)
    } else {
        d is None
    }
}

/// `name: type, ...` (possibly empty) spelled from `p`, ending before `)`.
pub open spec fn params_spelled(ks: Seq<TokenKindView>, p: int, ps: Seq<WitParam>) -> Option<int> {
    if tok(ks, p) == TokenKindView::RParen {
        if ps.len() == 0 {
            Some(p)
        } else {
            None
        }
    } else {
        param_list_spelled(ks, p, ps)
    }
}

/// A non-empty list of parameters separated by commas.
pub open spec fn param_list_spelled(ks: Seq<TokenKindView>, p: int, ps: Seq<WitParam>) -> Option<
    int,
>
    decreases ps.len(),
{
    if ps.len() == 0 {
        None
    } else if tok(ks, p) == TokenKindView::Ident(ps[0].name@) && tok(ks, p + 1)
        == TokenKindView::Colon {
        match type_spelled(ks, p + 2, ps[0].ty) {
            None => None,
            Some(q) => if tok(ks, q) == TokenKindView::Comma {
                param_list_spelled(ks, q + 1, ps.drop_first())
            } else if ps.len() == 1 {
                Some(q)
            } else {
                None
            },
        }
    } else {
        None
    }
}

/// The same as `param_list_spelled`, named apart for use as a trigger.
pub open spec fn param_list_at(ks: Seq<TokenKindView>, p: int, ps: Seq<WitParam>) -> Option<int> {
    param_list_spelled(ks, p, ps)
}

/// `func(params) -> result` spelled from `pos` (the trailing `;` excluded).
pub open spec fn func_sig_spelled(ks: Seq<TokenKindView>, pos: int, f: WitFuncDef) -> Option<int> {
    if tok(ks, pos) == TokenKindView::Func && tok(ks, pos + 1) == TokenKindView::LParen {
        match params_spelled(ks, pos + 2, f.params@) {
            None => None,
            Some(q) => if tok(ks, q) != TokenKindView::RParen {
                None
            } else if tok(ks, q + 1) == TokenKindView::Arrow {
                match f.result {
                    Some(t) => type_spelled(ks, q + 2, t),
                    None => None,
                }
            } else if f.result is None {
                Some(q + 1)
            } else {
                None
            },
        }
    } else {
        None
    }
}

/// `name: [static] func(...) -> ...;` spelled from `pos`, with `doc` attached.
pub open spec fn func_item_spelled(
    ks: Seq<TokenKindView>,
    pos: int,
    f: WitFuncDef,
    doc: Option<String>,
) -> Option<int> {
    if tok(ks, pos) == TokenKindView::Ident(f.name@) && tok(ks, pos + 1) == TokenKindView::Colon
        && f.doc == doc && !f.is_constructor && f.is_static == (tok(ks, pos + 2)
        == TokenKindView::Static) {
        let q = if f.is_static {
            pos + 3
        } else {
            pos + 2
        };
        match func_sig_spelled(ks, q, f) {
            Some(e) => if tok(ks, e) == TokenKindView::Semicolon {
                Some(e + 1)
            } else {
                None
            },
            None => None,
        }
    } else {
        None
    }
}

/// `constructor(params);` spelled from `pos`, with `doc` attached.
pub open spec fn constructor_spelled(
    ks: Seq<TokenKindView>,
    pos: int,
    f: WitFuncDef,
    doc: Option<String>,
) -> Option<int> {
    if tok(ks, pos) == TokenKindView::Constructor && tok(ks, pos + 1) == TokenKindView::LParen
        && f.name@ == "constructor"@ && f.doc == doc && f.result is None && !f.is_static
        && f.is_constructor {
        match params_spelled(ks, pos + 2, f.params@) {
            Some(q) => if tok(ks, q) == TokenKindView::RParen && tok(ks, q + 1)
                == TokenKindView::Semicolon {
                Some(q + 2)
            } else {
                None
            },
            None => None,
        }
    } else {
        None
    }
}

/// The rest of an interface path after `namespace:`, and where it ends.
pub open spec fn extern_path_rest(ks: Seq<TokenKindView>, pos: int, namespace: Seq<char>) -> Option<
    (Seq<char>, int),
> {
    if tok(ks, pos) is Ident {
        let pkg = tok(ks, pos)->Ident_0;
        let p1 = namespace + ":"@ + pkg;
        let (p2, q) = if tok(ks, pos + 1) == TokenKindView::Slash {
            if tok(ks, pos + 2) is Ident {
                (Some(p1 + "/"@ + tok(ks, pos + 2)->Ident_0), pos + 3)
            } else {
                (None, pos + 2)
            }
        } else {
            (Some(p1), pos + 1)
        };
        match p2 {
            None => None,
            Some(p2) => if tok(ks, q) == TokenKindView::At {
                if tok(ks, q + 1) is SemVer {
                    Some((p2 + "@"@ + tok(ks, q + 1)->SemVer_0, q + 2))
                } else {
                    Some((p2, q + 1))
                }
            } else {
                Some((p2, q))
            },
        }
    } else {
        None
    }
}

/// `use path.{names};` spelled from `pos`.
pub open spec fn use_spelled(ks: Seq<TokenKindView>, pos: int, u: WitUseDecl) -> Option<int> {
    if tok(ks, pos) == TokenKindView::Use && tok(ks, pos + 1) is Ident {
        let first = tok(ks, pos + 1)->Ident_0;
        let from = if tok(ks, pos + 2) == TokenKindView::Colon {
            extern_path_rest(ks, pos + 3, first)
        } else {
            Some((first, pos + 2))
        };
        match from {
            None => None,
            Some((path, q)) => if u.from.path@ == path && tok(ks, q) == TokenKindView::Dot && tok(
                ks,
                q + 1,
            ) == TokenKindView::LBrace {
                match use_names_spelled(ks, q + 2, u.names@) {
                    Some(r) => if tok(ks, r) == TokenKindView::Semicolon {
                        Some(r + 1)
                    } else {
                        None
                    },
                    None => None,
                }
            } else {
                None
            },
        }
    } else {
        None
    }
}

/// `name [as alias], ... }` spelled from `p` (the closing brace included).
pub open spec fn use_names_spelled(ks: Seq<TokenKindView>, p: int, names: Seq<WitUseName>) -> Option<
    int,
>
    decreases names.len(),
{
    if tok(ks, p) == TokenKindView::RBrace {
        if names.len() == 0 {
            Some(p + 1)
        } else {
            None
        }
    } else if names.len() == 0 {
        None
    } else {
        let n = names[0];
        if tok(ks, p) != TokenKindView::Ident(n.name@) {
            None
        } else {
            let q = if tok(ks, p + 1) == TokenKindView::Ident("as"@) {
                match n.alias {
                    Some(a) => if tok(ks, p + 2) == TokenKindView::Ident(a@) {
                        Some(p + 3)
                    } else {
                        None
                    },
                    None => None,
                }
            } else if n.alias is None {
                Some(p + 1)
            } else {
                None
            };
            match q {
                None => None,
                Some(q) => if tok(ks, q) == TokenKindView::Comma {
                    use_names_spelled(ks, q + 1, names.drop_first())
                } else if names.len() == 1 && tok(ks, q) == TokenKindView::RBrace {
                    Some(q + 1)
                } else {
                    None
                },
            }
        }
    }
}

/// The same as `use_names_spelled`, named apart for use as a trigger.
pub open spec fn use_names_at(ks: Seq<TokenKindView>, p: int, names: Seq<WitUseName>) -> Option<int> {
    use_names_spelled(ks, p, names)
}

/// `package ns:name[@version];` spelled from `pos`.
pub open spec fn package_spelled(ks: Seq<TokenKindView>, pos: int, p: WitPackage) -> Option<int> {
    if tok(ks, pos) == TokenKindView::Package && tok(ks, pos + 1) == TokenKindView::Ident(
        p.namespace@,
    ) && tok(ks, pos + 2) == TokenKindView::Colon && tok(ks, pos + 3) == TokenKindView::Ident(
        p.name@,
    ) {
        if tok(ks, pos + 4) == TokenKindView::At {
            match p.version {
                Some(v) => if tok(ks, pos + 5) == TokenKindView::SemVer(v@) && tok(ks, pos + 6)
                    == TokenKindView::Semicolon {
                    Some(pos + 7)
                } else {
                    None
                },
                None => None,
            }
        } else if p.version is None && tok(ks, pos + 4) == TokenKindView::Semicolon {
            Some(pos + 5)
        } else {
            None
        }
    } else {
        None
    }
}

/// Record fields spelled from `p`, the closing brace included.
pub open spec fn fields_spelled(ks: Seq<TokenKindView>, p: int, fs: Seq<WitRecordField>) -> Option<
    int,
>
    decreases fs.len(),
{
    let q = doc_end(ks, p);
    if tok(ks, q) == TokenKindView::RBrace {
        if fs.len() == 0 {
            Some(q + 1)
        } else {
            None
        }
    } else if fs.len() == 0 {
        None
    } else {
        let f = fs[0];
        if doc_matches(f.doc, ks, p) && tok(ks, q) == TokenKindView::Ident(f.name@) && tok(
            ks,
            q + 1,
        ) == TokenKindView::Colon {
            match type_spelled(ks, q + 2, f.ty) {
                None => None,
                Some(r) => if tok(ks, r) == TokenKindView::Comma {
                    fields_spelled(ks, r + 1, fs.drop_first())
                } else if fs.len() == 1 && tok(ks, r) == TokenKindView::RBrace {
                    Some(r + 1)
                } else {
                    None
                },
            }
        } else {
            None
        }
    }
}

/// Enum cases spelled from `p`, the closing brace included.
pub open spec fn enum_cases_spelled(ks: Seq<TokenKindView>, p: int, cs: Seq<WitEnumCase>) -> Option<
    int,
>
    decreases cs.len(),
{
    let q = doc_end(ks, p);
    if tok(ks, q) == TokenKindView::RBrace {
        if cs.len() == 0 {
            Some(q + 1)
        } else {
            None
        }
    } else if cs.len() == 0 {
        None
    } else {
        let c = cs[0];
        if doc_matches(c.doc, ks, p) && tok(ks, q) == TokenKindView::Ident(c.name@) {
            if tok(ks, q + 1) == TokenKindView::Comma {
                enum_cases_spelled(ks, q + 2, cs.drop_first())
            } else if cs.len() == 1 && tok(ks, q + 1) == TokenKindView::RBrace {
                Some(q + 2)
            } else {
                None
            }
        } else {
            None
        }
    }
}

/// Variant cases spelled from `p`, the closing brace included.
pub open spec fn variant_cases_spelled(
    ks: Seq<TokenKindView>,
    p: int,
    cs: Seq<WitVariantCase>,
) -> Option<int>
    decreases cs.len(),
{
    let q = doc_end(ks, p);
    if tok(ks, q) == TokenKindView::RBrace {
        if cs.len() == 0 {
            Some(q + 1)
        } else {
            None
        }
    } else if cs.len() == 0 {
        None
    } else {
        let c = cs[0];
        if doc_matches(c.doc, ks, p) && tok(ks, q) == TokenKindView::Ident(c.name@) {
            let r = if tok(ks, q + 1) == TokenKindView::LParen {
                match c.ty {
                    Some(t) => match type_spelled(ks, q + 2, t) {
                        Some(e) => if tok(ks, e) == TokenKindView::RParen {
                            Some(e + 1)
                        } else {
                            None
                        },
                        None => None,
                    },
                    None => None,
                }
            } else if c.ty is None {
                Some(q + 1)
            } else {
                None
            };
            match r {
                None => None,
                Some(r) => if tok(ks, r) == TokenKindView::Comma {
                    variant_cases_spelled(ks, r + 1, cs.drop_first())
                } else if cs.len() == 1 && tok(ks, r) == TokenKindView::RBrace {
                    Some(r + 1)
                } else {
                    None
                },
            }
        } else {
            None
        }
    }
}

/// Flag names spelled from `p`, the closing brace included (doc comments skipped).
pub open spec fn flags_spelled(ks: Seq<TokenKindView>, p: int, fs: Seq<String>) -> Option<int>
    decreases fs.len(),
{
    let q = doc_end(ks, p);
    if tok(ks, q) == TokenKindView::RBrace {
        if fs.len() == 0 {
            Some(q + 1)
        } else {
            None
        }
    } else if fs.len() == 0 {
        None
    } else if tok(ks, q) == TokenKindView::Ident(fs[0]@) {
        if tok(ks, q + 1) == TokenKindView::Comma {
            flags_spelled(ks, q + 2, fs.drop_first())
        } else if fs.len() == 1 && tok(ks, q + 1) == TokenKindView::RBrace {
            Some(q + 2)
        } else {
            None
        }
    } else {
        None
    }
}

/// The same as `fields_spelled`, named apart for use as a trigger.
pub open spec fn fields_at(ks: Seq<TokenKindView>, p: int, xs: Seq<WitRecordField>) -> Option<int> {
    fields_spelled(ks, p, xs)
}

/// The same as `enum_cases_spelled`, named apart for use as a trigger.
pub open spec fn enum_cases_at(ks: Seq<TokenKindView>, p: int, xs: Seq<WitEnumCase>) -> Option<int> {
    enum_cases_spelled(ks, p, xs)
}

/// The same as `variant_cases_spelled`, named apart for use as a trigger.
pub open spec fn variant_cases_at(ks: Seq<TokenKindView>, p: int, xs: Seq<WitVariantCase>) -> Option<int> {
    variant_cases_spelled(ks, p, xs)
}

/// The same as `flags_spelled`, named apart for use as a trigger.
pub open spec fn flags_at(ks: Seq<TokenKindView>, p: int, xs: Seq<String>) -> Option<int> {
    flags_spelled(ks, p, xs)
}

/// A `record`, `enum`, `variant`, `flags` or `type` definition spelled from
/// `pos`, with `doc` attached.
pub open spec fn typedef_spelled(
    ks: Seq<TokenKindView>,
    pos: int,
    td: WitTypeDef,
    doc: Option<String>,
) -> Option<int> {
    if td.doc == doc && tok(ks, pos + 1) == TokenKindView::Ident(td.name@) {
        match td.kind {
            WitTypeDefKind::Record(fs) => if tok(ks, pos) == TokenKindView::Record && tok(
                ks,
                pos + 2,
            ) == TokenKindView::LBrace {
                fields_spelled(ks, pos + 3, fs@)
            } else {
                None
            },
            WitTypeDefKind::Enum(cs) => if tok(ks, pos) == TokenKindView::Enum && tok(ks, pos + 2)
                == TokenKindView::LBrace {
                enum_cases_spelled(ks, pos + 3, cs@)
            } else {
                None
            },
            WitTypeDefKind::Variant(cs) => if tok(ks, pos) == TokenKindView::Variant && tok(
                ks,
                pos + 2,
            ) == TokenKindView::LBrace {
                variant_cases_spelled(ks, pos + 3, cs@)
            } else {
                None
            },
            WitTypeDefKind::Flags(fs) => if tok(ks, pos) == TokenKindView::Flags && tok(
                ks,
                pos + 2,
            ) == TokenKindView::LBrace {
                flags_spelled(ks, pos + 3, fs@)
            } else {
                None
            },
            WitTypeDefKind::Alias(t) => if tok(ks, pos) == TokenKindView::Type && tok(ks, pos + 2)
                == TokenKindView::Equals {
                match type_spelled(ks, pos + 3, t) {
                    Some(e) => if tok(ks, e) == TokenKindView::Semicolon {
                        Some(e + 1)
                    } else {
                        None
                    },
                    None => None,
                }
            } else {
                None
            },
            WitTypeDefKind::Resource(r) => None,
        }
    } else {
        None
    }
}

/// The message for an unexpected token.
pub open spec fn expected_message(expected: Seq<char>, found: TokenKindView) -> Seq<char> {
    "expected `"@ + expected + "`, found `"@ + kind_text(found) + "`"@
}

// ═════════════════════════════════════════════════════════════════════
// Parser
// ═════════════════════════════════════════════════════════════════════

/// Recursive-descent WIT parser.
pub struct WitParser {
    tokens: Vec<WitToken>,
    pos: usize,
}

// ─────────────────────────────────────────────────────────────────────
// The errors the parser reports
// ─────────────────────────────────────────────────────────────────────

/// The error for expecting `k` at `p`: its message and the index of the
/// token whose offset it carries.
pub open spec fn expect_err(ks: Seq<TokenKindView>, p: int, k: TokenKindView) -> (Seq<char>, int) {
    (expected_message(kind_text(k), tok(ks, p)), p)
}

/// The error for expecting an identifier at `p`.
pub open spec fn ident_err(ks: Seq<TokenKindView>, p: int) -> (Seq<char>, int) {
    ("expected identifier, found `"@ + kind_text(tok(ks, p)) + "`"@, p)
}

/// Some type reference is spelled from `p`.
pub open spec fn spells_type(ks: Seq<TokenKindView>, p: int) -> bool {
    exists|t: WitTypeRef| #[trigger] type_spelled(ks, p, t) is Some
}

/// Where the type reference spelled from `p` ends.
pub open spec fn type_end(ks: Seq<TokenKindView>, p: int) -> int {
    type_spelled(ks, p, choose|t: WitTypeRef| #[trigger] type_spelled(ks, p, t) is Some)->0
}

/// A spelled type ends past where it starts, at `type_end`.
pub proof fn lemma_type_end(ks: Seq<TokenKindView>, p: int, t: WitTypeRef)
    requires
        type_spelled(ks, p, t) is Some,
    ensures
        spells_type(ks, p),
        type_end(ks, p) == type_spelled(ks, p, t)->0,
        type_end(ks, p) > p,
{
    let c = choose|t2: WitTypeRef| #[trigger] type_spelled(ks, p, t2) is Some;
    lemma_type_end_unique(ks, p, t, c);
    lemma_type_advances(ks, p, t);
}

proof fn lemma_type_advances(ks: Seq<TokenKindView>, p: int, t: WitTypeRef)
    requires
        type_spelled(ks, p, t) is Some,
    ensures
        type_spelled(ks, p, t)->0 > p,
    decreases t, 1int,
{
    lemma_type_variant(ks, p, t);
    match t {
        WitTypeRef::List(a) => {
            assert(type_spelled(ks, p, t) == wrapped_spelled(ks, p, TokenKindView::List, *a));
            lemma_type_advances(ks, p + 2, *a);
        },
        WitTypeRef::Option(a) => {
            assert(type_spelled(ks, p, t) == wrapped_spelled(ks, p, TokenKindView::Option_, *a));
            lemma_type_advances(ks, p + 2, *a);
        },
        WitTypeRef::Own(a) => {
            assert(type_spelled(ks, p, t) == wrapped_spelled(ks, p, TokenKindView::Own, *a));
            lemma_type_advances(ks, p + 2, *a);
        },
        WitTypeRef::Borrow(a) => {
            assert(type_spelled(ks, p, t) == wrapped_spelled(ks, p, TokenKindView::Borrow, *a));
            lemma_type_advances(ks, p + 2, *a);
        },
        WitTypeRef::Result { ok, err } => {
            if tok(ks, p + 1) == TokenKindView::LAngle {
                if let Some(o) = ok {
                    lemma_type_advances(ks, p + 2, *o);
                }
                let q = if ok is None {
                    p + 3
                } else {
                    type_spelled(ks, p + 2, *ok->0)->0
                };
                if tok(ks, q) == TokenKindView::Comma {
                    if let Some(e) = err {
                        lemma_type_advances(ks, q + 1, *e);
                    }
                }
            }
        },
        WitTypeRef::Tuple(items) => {
            if tok(ks, p + 2) != TokenKindView::RAngle {
                lemma_items_advance(ks, p + 2, items@);
            }
        },
        _ => {},
    }
}

proof fn lemma_items_advance(ks: Seq<TokenKindView>, p: int, s: Seq<WitTypeRef>)
    requires
        items_spelled(ks, p, s) is Some,
    ensures
        items_spelled(ks, p, s)->0 > p,
    decreases s, 0int,
{
    lemma_type_advances(ks, p, s[0]);
    let q = type_spelled(ks, p, s[0])->0;
    if s.len() > 1 {
        lemma_items_advance(ks, q + 1, s.drop_first());
    }
}

/// The error parsing a type reference at `p` reports, if it fails.
pub open spec fn type_err(ks: Seq<TokenKindView>, p: int) -> Option<(Seq<char>, int)>
    decreases ks.len() - p, 0int,
{
    let k = tok(ks, p);
    if is_primitive_token(k) || k is Ident {
        None
    } else if k == TokenKindView::List || k == TokenKindView::Option_ || k == TokenKindView::Own || k
        == TokenKindView::Borrow {
        wrapped_err(ks, p + 1)
    } else if k == TokenKindView::Result_ {
        result_err(ks, p + 1)
    } else if k == TokenKindView::Tuple_ {
        tuple_err(ks, p + 1)
    } else {
        Some(("expected type, found `"@ + kind_text(k) + "`"@, p))
    }
}

/// The error parsing `<T>` at `p` reports, if it fails.
pub open spec fn wrapped_err(ks: Seq<TokenKindView>, p: int) -> Option<(Seq<char>, int)>
    decreases ks.len() - p, 1int,
{
    if tok(ks, p) != TokenKindView::LAngle {
        Some(expect_err(ks, p, TokenKindView::LAngle))
    } else {
        match type_err(ks, p + 1) {
            Some(e) => Some(e),
            None => if spells_type(ks, p + 1) && tok(ks, type_end(ks, p + 1)) != TokenKindView::RAngle {
                Some(expect_err(ks, type_end(ks, p + 1), TokenKindView::RAngle))
            } else {
                None
            },
        }
    }
}

/// The error parsing what follows `result` at `p` reports, if it fails.
pub open spec fn result_err(ks: Seq<TokenKindView>, p: int) -> Option<(Seq<char>, int)>
    decreases ks.len() - p, 1int,
{
    if tok(ks, p) != TokenKindView::LAngle {
        None
    } else {
        let p2 = p + 1;
        let under = tok(ks, p2) == TokenKindView::Ident("_"@);
        let oe = if under {
            None
        } else {
            type_err(ks, p2)
        };
        if oe is Some {
            oe
        } else if !under && !spells_type(ks, p2) {
            None
        } else {
            let q = if under {
                p2 + 1
            } else {
                type_end(ks, p2)
            };
            proof {
                if !under {
                    let t = choose|t: WitTypeRef| #[trigger] type_spelled(ks, p2, t) is Some;
                    lemma_type_end(ks, p2, t);
                }
            }
            if tok(ks, q) == TokenKindView::Comma {
                if tok(ks, q + 1) == TokenKindView::Ident("_"@) {
                    if tok(ks, q + 2) != TokenKindView::RAngle {
                        Some(expect_err(ks, q + 2, TokenKindView::RAngle))
                    } else {
                        None
                    }
                } else {
                    match type_err(ks, q + 1) {
                        Some(e) => Some(e),
                        None => if spells_type(ks, q + 1) && tok(ks, type_end(ks, q + 1)) != TokenKindView::RAngle {
                            Some(expect_err(ks, type_end(ks, q + 1), TokenKindView::RAngle))
                        } else {
                            None
                        },
                    }
                }
            } else if tok(ks, q) != TokenKindView::RAngle {
                Some(expect_err(ks, q, TokenKindView::RAngle))
            } else {
                None
            }
        }
    }
}

/// Parsing the items of a tuple from `p`: where they end, or the error.
pub open spec fn items_res(ks: Seq<TokenKindView>, p: int) -> Result<int, (Seq<char>, int)>
    decreases ks.len() - p, 1int,
{
    match type_err(ks, p) {
        Some(e) => Err(e),
        None => if !spells_type(ks, p) {
            Ok(p)
        } else {
            let q = type_end(ks, p);
            proof {
                let t = choose|t: WitTypeRef| #[trigger] type_spelled(ks, p, t) is Some;
                lemma_type_end(ks, p, t);
            }
            if tok(ks, q) == TokenKindView::Comma {
                items_res(ks, q + 1)
            } else {
                Ok(q)
            }
        },
    }
}

/// The error parsing what follows `tuple` at `p` reports, if it fails.
pub open spec fn tuple_err(ks: Seq<TokenKindView>, p: int) -> Option<(Seq<char>, int)>
    decreases ks.len() - p, 1int,
{
    if tok(ks, p) != TokenKindView::LAngle {
        Some(expect_err(ks, p, TokenKindView::LAngle))
    } else if tok(ks, p + 1) == TokenKindView::RAngle {
        None
    } else {
        match items_res(ks, p + 1) {
            Err(e) => Some(e),
            Ok(q) => if tok(ks, q) != TokenKindView::RAngle {
                Some(expect_err(ks, q, TokenKindView::RAngle))
            } else {
                None
            },
        }
    }
}

/// Parsing `name: type, ...` from `p` (a non-empty list): where it ends,
/// or the error.
pub open spec fn param_items_res(ks: Seq<TokenKindView>, p: int) -> Result<int, (Seq<char>, int)>
    decreases ks.len() - p,
{
    if !(tok(ks, p) is Ident) {
        Err(ident_err(ks, p))
    } else if tok(ks, p + 1) != TokenKindView::Colon {
        Err(expect_err(ks, p + 1, TokenKindView::Colon))
    } else {
        match type_err(ks, p + 2) {
            Some(e) => Err(e),
            None => if !spells_type(ks, p + 2) {
                Ok(p)
            } else {
                let q = type_end(ks, p + 2);
                proof {
                    let t = choose|t: WitTypeRef| #[trigger] type_spelled(ks, p + 2, t) is Some;
                    lemma_type_end(ks, p + 2, t);
                }
                if tok(ks, q) == TokenKindView::Comma {
                    param_items_res(ks, q + 1)
                } else {
                    Ok(q)
                }
            },
        }
    }
}

/// Parsing a parameter list from `p`, up to the `)`: where it ends, or the
/// error.
pub open spec fn params_res(ks: Seq<TokenKindView>, p: int) -> Result<int, (Seq<char>, int)> {
    if tok(ks, p) == TokenKindView::RParen {
        Ok(p)
    } else {
        param_items_res(ks, p)
    }
}

/// Parsing `func(params) -> result` from `p`: where it ends, or the error.
pub open spec fn func_body_res(ks: Seq<TokenKindView>, p: int) -> Result<int, (Seq<char>, int)> {
    if tok(ks, p) != TokenKindView::Func {
        Err(expect_err(ks, p, TokenKindView::Func))
    } else if tok(ks, p + 1) != TokenKindView::LParen {
        Err(expect_err(ks, p + 1, TokenKindView::LParen))
    } else {
        match params_res(ks, p + 2) {
            Err(e) => Err(e),
            Ok(q) => if tok(ks, q) != TokenKindView::RParen {
                Err(expect_err(ks, q, TokenKindView::RParen))
            } else if tok(ks, q + 1) == TokenKindView::Arrow {
                match type_err(ks, q + 2) {
                    Some(e) => Err(e),
                    None => if spells_type(ks, q + 2) {
                        Ok(type_end(ks, q + 2))
                    } else {
                        Ok(q + 2)
                    },
                }
            } else {
                Ok(q + 1)
            },
        }
    }
}

/// Parsing `name: [static] func(...) -> ...;` from `p`: where it ends, or
/// the error.
pub open spec fn func_item_res(ks: Seq<TokenKindView>, p: int) -> Result<int, (Seq<char>, int)> {
    if !(tok(ks, p) is Ident) {
        Err(ident_err(ks, p))
    } else if tok(ks, p + 1) != TokenKindView::Colon {
        Err(expect_err(ks, p + 1, TokenKindView::Colon))
    } else {
        let q = if tok(ks, p + 2) == TokenKindView::Static {
            p + 3
        } else {
            p + 2
        };
        match func_body_res(ks, q) {
            Err(e) => Err(e),
            Ok(e2) => if tok(ks, e2) != TokenKindView::Semicolon {
                Err(expect_err(ks, e2, TokenKindView::Semicolon))
            } else {
                Ok(e2 + 1)
            },
        }
    }
}

/// Parsing `constructor(params);` from `p`: where it ends, or the error.
pub open spec fn constructor_res(ks: Seq<TokenKindView>, p: int) -> Result<int, (Seq<char>, int)> {
    if tok(ks, p) != TokenKindView::Constructor {
        Err(expect_err(ks, p, TokenKindView::Constructor))
    } else if tok(ks, p + 1) != TokenKindView::LParen {
        Err(expect_err(ks, p + 1, TokenKindView::LParen))
    } else {
        match params_res(ks, p + 2) {
            Err(e) => Err(e),
            Ok(q) => if tok(ks, q) != TokenKindView::RParen {
                Err(expect_err(ks, q, TokenKindView::RParen))
            } else if tok(ks, q + 1) != TokenKindView::Semicolon {
                Err(expect_err(ks, q + 1, TokenKindView::Semicolon))
            } else {
                Ok(q + 2)
            },
        }
    }
}

/// A token stream the parser accepts: empty, or ending with `Eof`.
pub open spec fn ends_with_eof(tokens: Seq<WitToken>) -> bool {
    tokens.len() == 0 || tokens.last().kind@ is Eof
}

impl WitParser {
    /// The kinds of the tokens being parsed.
    pub closed spec fn kinds(&self) -> Seq<TokenKindView> {
        self.tokens@.map_values(|t: WitToken| t.kind@)
    }

    /// The index of the current token.
    pub closed spec fn position(&self) -> int {
        self.pos as int
    }

    /// The parser's invariant: the current token exists (unless there are
    /// none) and the stream ends with `Eof`.
    pub closed spec fn wf(&self) -> bool {
        &&& ends_with_eof(self.tokens@)
        &&& (self.tokens@.len() == 0 && self.pos == 0) || self.pos < self.tokens@.len()
    }

    /// The byte offset of the token at index `i`, or 0 past the end.
    pub closed spec fn offset_at(&self, i: int) -> usize {
        if 0 <= i < self.tokens@.len() {
            self.tokens@[i].offset
        } else {
            0
        }
    }

    /// Creates a parser from a token stream (empty, or ending with `Eof`).
    pub fn new(tokens: Vec<WitToken>) -> (p: Self)
        requires
            ends_with_eof(tokens@),
        ensures
            p.wf(),
            p.position() == 0,
            p.kinds() == tokens@.map_values(|t: WitToken| t.kind@),
    {
        WitParser { tokens, pos: 0 }
    }

    fn peek(&self) -> (k: WitTokenKind)
        requires
            self.wf(),
        ensures
            k@ == tok(self.kinds(), self.pos as int),
    {
        if self.pos < self.tokens.len() {
            self.tokens[self.pos].kind.duplicate()
        } else {
            WitTokenKind::Eof
        }
    }

    fn offset(&self) -> (o: usize)
        ensures
            o == self.offset_at(self.pos as int),
    {
        if self.pos < self.tokens.len() {
            self.tokens[self.pos].offset
        } else {
            0
        }
    }

    /// Moves past the current token, which is not `Eof`.
    fn advance(&mut self)
        requires
            old(self).wf(),
            !(tok(old(self).kinds(), old(self).pos as int) is Eof),
        ensures
            final(self).wf(),
            final(self).tokens == old(self).tokens,
            final(self).pos == old(self).pos + 1,
    {
        let n = self.tokens.len();
        if n > 0 && self.pos < n - 1 {
            self.pos = self.pos + 1;
        } else {
            proof {
                assert(self.kinds()[self.pos as int] == self.tokens@[self.pos as int].kind@);
            }
        }
    }

    fn expect(&mut self, expected: &WitTokenKind) -> (r: Result<(), WitParseError>)
        requires
            old(self).wf(),
            !(expected@ is Eof),
        ensures
            final(self).wf(),
            final(self).tokens == old(self).tokens,
            tok(old(self).kinds(), old(self).pos as int) == expected@ ==> r is Ok && final(self).pos == old(self).pos + 1,
            tok(old(self).kinds(), old(self).pos as int) != expected@ ==> (r matches Err(e)
                && final(self).pos == old(self).pos && e.offset == old(self).offset_at(
                old(self).pos as int,
            ) && e.message@ == expected_message(
                kind_text(expected@),
                tok(old(self).kinds(), old(self).pos as int),
            )),
    {
        let cur = self.peek();
        if cur.same_as(expected) {
            self.advance();
            Ok(())
        } else {
            let mut message = owned("expected `");
            let e = expected.to_string();
            push_str(&mut message, e.as_str());
            push_str(&mut message, "`, found `");
            let f = cur.to_string();
            push_str(&mut message, f.as_str());
            push_str(&mut message, "`");
            proof {
                assert(message@ =~= expected_message(kind_text(expected@), cur@));
            }
            Err(WitParseError { message, offset: self.offset() })
        }
    }

    fn expect_ident(&mut self) -> (r: Result<String, WitParseError>)
        requires
            old(self).wf(),
        ensures
            final(self).wf(),
            final(self).tokens == old(self).tokens,
            tok(old(self).kinds(), old(self).pos as int) is Ident ==> (r matches Ok(s) && s@ == tok(
                old(self).kinds(),
                old(self).pos as int,
            )->Ident_0 && final(self).pos == old(self).pos + 1),
            !(tok(old(self).kinds(), old(self).pos as int) is Ident) ==> (r matches Err(e)
                && final(self).pos == old(self).pos && e.offset == old(self).offset_at(
                old(self).pos as int,
            ) && e.message@ == "expected identifier, found `"@ + kind_text(
                tok(old(self).kinds(), old(self).pos as int),
            ) + "`"@),
    {
        let cur = self.peek();
        match cur {
            WitTokenKind::Ident(s) => {
                self.advance();
                Ok(s)
            },
            other => {
                let mut message = owned("expected identifier, found `");
                let f = other.to_string();
                push_str(&mut message, f.as_str());
                push_str(&mut message, "`");
                proof {
                    assert(message@ =~= "expected identifier, found `"@ + kind_text(other@)
                        + "`"@);
                }
                Err(WitParseError { message, offset: self.offset() })
            },
        }
    }

    fn eat(&mut self, kind: &WitTokenKind) -> (r: bool)
        requires
            old(self).wf(),
            !(kind@ is Eof),
        ensures
            final(self).wf(),
            final(self).tokens == old(self).tokens,
            r == (tok(old(self).kinds(), old(self).pos as int) == kind@),
            r ==> final(self).pos == old(self).pos + 1,
            !r ==> final(self).pos == old(self).pos,
    {
        let cur = self.peek();
        if cur.same_as(kind) {
            self.advance();
            true
        } else {
            false
        }
    }

    /// Whether the current token is `kind`.
    fn at(&self, kind: &WitTokenKind) -> (r: bool)
        requires
            self.wf(),
        ensures
            r == (tok(self.kinds(), self.pos as int) == kind@),
    {
        let cur = self.peek();
        cur.same_as(kind)
    }

    /// Consumes consecutive doc comments, joined by newlines.
    fn take_doc(&mut self) -> (d: Option<String>)
        requires
            old(self).wf(),
        ensures
            final(self).wf(),
            final(self).tokens == old(self).tokens,
            final(self).pos == doc_end(old(self).kinds(), old(self).pos as int),
            final(self).pos >= old(self).pos,
            doc_matches(d, old(self).kinds(), old(self).pos as int),
    {
        let ghost ks = self.kinds();
        let ghost start = self.pos as int;
        if let WitTokenKind::DocComment(s) = self.peek() {
            proof {
                assert(doc_end(ks, start) == doc_end(ks, start + 1));
            }
            self.advance();
            let mut full = s;
            loop
                invariant_except_break
                    tok(ks, self.pos - 1) is DocComment,
                invariant
                    self.wf(),
                    self.tokens == old(self).tokens,
                    ks == self.kinds(),
                    start < self.pos,
                    doc_end(ks, start) == doc_end(ks, self.pos as int),
                    doc_text(ks, start) == full@ + (if tok(ks, self.pos as int) is DocComment {
                        seq!['\n'] + doc_text(ks, self.pos as int)
                    } else {
                        Seq::<char>::empty()
                    }),
                ensures
                    self.wf(),
                    self.tokens == old(self).tokens,
                    doc_text(ks, start) == full@,
                    self.pos == doc_end(ks, start),
                decreases ks.len() - self.pos,
            {
                if let WitTokenKind::DocComment(s2) = self.peek() {
                    let ghost before = full@;
                    let ghost p = self.pos as int;
                    proof {
                        assert(doc_text(ks, p) == s2@ + (if tok(ks, p + 1) is DocComment {
                            seq!['\n'] + doc_text(ks, p + 1)
                        } else {
                            Seq::<char>::empty()
                        }));
                        assert(doc_end(ks, p) == doc_end(ks, p + 1));
                    }
                    push_char(&mut full, '\n');
                    push_str(&mut full, s2.as_str());
                    self.advance();
                    proof {
                        assert(tok(ks, p) is DocComment);
                        assert(p < ks.len());
                        assert(doc_text(ks, start) =~= full@ + (if tok(ks, self.pos as int) is DocComment {
                            seq!['\n'] + doc_text(ks, self.pos as int)
                        } else {
                            Seq::<char>::empty()
                        }));
                    }
                } else {
                    proof {
                        assert(doc_text(ks, start) =~= full@);
                        assert(doc_end(ks, self.pos as int) == self.pos);
                    }
                    break;
                }
            }
            Some(full)
        } else {
            proof {
                assert(doc_end(ks, start) == start);
            }
            None
        }
    }
}


proof fn lemma_items_step(
    ks: Seq<TokenKindView>,
    cur: int,
    t: WitTypeRef,
    q: int,
    rest: Seq<WitTypeRef>,
)
    requires
        type_spelled(ks, cur, t) == Some(q),
        tok(ks, q) == TokenKindView::Comma,
    ensures
        items_spelled(ks, q + 1, rest) == items_spelled(ks, cur, seq![t] + rest),
{
    assert((seq![t] + rest).drop_first() =~= rest);
    assert((seq![t] + rest)[0] == t);
}

proof fn lemma_params_step(ks: Seq<TokenKindView>, cur: int, x: WitParam, q: int, rest: Seq<WitParam>)
    requires
        tok(ks, cur) == TokenKindView::Ident(x.name@),
        tok(ks, cur + 1) == TokenKindView::Colon,
        type_spelled(ks, cur + 2, x.ty) == Some(q),
        tok(ks, q) == TokenKindView::Comma,
    ensures
        param_list_spelled(ks, q + 1, rest) == param_list_spelled(ks, cur, seq![x] + rest),
{
    assert((seq![x] + rest).drop_first() =~= rest);
    assert((seq![x] + rest)[0] == x);
}

/// Whether `k` is the token of a primitive type.
pub open spec fn is_primitive_token(k: TokenKindView) -> bool {
    ||| k == TokenKindView::U8
    ||| k == TokenKindView::U16
    ||| k == TokenKindView::U32
    ||| k == TokenKindView::U64
    ||| k == TokenKindView::S8
    ||| k == TokenKindView::S16
    ||| k == TokenKindView::S32
    ||| k == TokenKindView::S64
    ||| k == TokenKindView::F32
    ||| k == TokenKindView::F64
    ||| k == TokenKindView::Bool
    ||| k == TokenKindView::Char
    ||| k == TokenKindView::StringKw
}

/// The first token of a spelled type decides its kind.
proof fn lemma_type_variant(ks: Seq<TokenKindView>, p: int, t: WitTypeRef)
    requires
        type_spelled(ks, p, t) is Some,
    ensures
        tok(ks, p) == TokenKindView::List ==> t is List,
        tok(ks, p) == TokenKindView::Option_ ==> t is Option,
        tok(ks, p) == TokenKindView::Own ==> t is Own,
        tok(ks, p) == TokenKindView::Borrow ==> t is Borrow,
        tok(ks, p) == TokenKindView::Result_ ==> t is Result,
        tok(ks, p) == TokenKindView::Tuple_ ==> t is Tuple,
        tok(ks, p) is Ident ==> t is Named,
        is_primitive_token(tok(ks, p)) ==> t is Primitive,
        t is Primitive ==> is_primitive_token(tok(ks, p)),
        t is List ==> tok(ks, p) == TokenKindView::List,
        t is Option ==> tok(ks, p) == TokenKindView::Option_,
        t is Own ==> tok(ks, p) == TokenKindView::Own,
        t is Borrow ==> tok(ks, p) == TokenKindView::Borrow,
        t is Result ==> tok(ks, p) == TokenKindView::Result_,
        t is Tuple ==> tok(ks, p) == TokenKindView::Tuple_,
        t is Named ==> tok(ks, p) is Ident,
{
    match t {
        WitTypeRef::Primitive(q) => {
            match q {
                WitPrimitive::U8 => {},
                WitPrimitive::U16 => {},
                WitPrimitive::U32 => {},
                WitPrimitive::U64 => {},
                WitPrimitive::S8 => {},
                WitPrimitive::S16 => {},
                WitPrimitive::S32 => {},
                WitPrimitive::S64 => {},
                WitPrimitive::F32 => {},
                WitPrimitive::F64 => {},
                WitPrimitive::Bool => {},
                WitPrimitive::Char => {},
                WitPrimitive::String_ => {},
            }
        },
        WitTypeRef::List(a) => {
            assert(type_spelled(ks, p, t) == wrapped_spelled(ks, p, TokenKindView::List, *a));
        },
        WitTypeRef::Option(a) => {
            assert(type_spelled(ks, p, t) == wrapped_spelled(ks, p, TokenKindView::Option_, *a));
        },
        WitTypeRef::Own(a) => {
            assert(type_spelled(ks, p, t) == wrapped_spelled(ks, p, TokenKindView::Own, *a));
        },
        WitTypeRef::Borrow(a) => {
            assert(type_spelled(ks, p, t) == wrapped_spelled(ks, p, TokenKindView::Borrow, *a));
        },
        _ => {},
    }
}

/// Two type references spelled from the same place end at the same place.
proof fn lemma_type_end_unique(ks: Seq<TokenKindView>, p: int, t1: WitTypeRef, t2: WitTypeRef)
    requires
        type_spelled(ks, p, t1) is Some,
        type_spelled(ks, p, t2) is Some,
    ensures
        type_spelled(ks, p, t1) == type_spelled(ks, p, t2),
    decreases t1, 1int,
{
    lemma_type_variant(ks, p, t1);
    lemma_type_variant(ks, p, t2);
    match t1 {
        WitTypeRef::List(a) => {
            if let WitTypeRef::List(b) = t2 {
                assert(type_spelled(ks, p, t1) == wrapped_spelled(ks, p, TokenKindView::List, *a));
                assert(type_spelled(ks, p, t2) == wrapped_spelled(ks, p, TokenKindView::List, *b));
                lemma_type_end_unique(ks, p + 2, *a, *b);
            }
        },
        WitTypeRef::Option(a) => {
            if let WitTypeRef::Option(b) = t2 {
                assert(type_spelled(ks, p, t1) == wrapped_spelled(ks, p, TokenKindView::Option_, *a));
                assert(type_spelled(ks, p, t2) == wrapped_spelled(ks, p, TokenKindView::Option_, *b));
                lemma_type_end_unique(ks, p + 2, *a, *b);
            }
        },
        WitTypeRef::Own(a) => {
            if let WitTypeRef::Own(b) = t2 {
                assert(type_spelled(ks, p, t1) == wrapped_spelled(ks, p, TokenKindView::Own, *a));
                assert(type_spelled(ks, p, t2) == wrapped_spelled(ks, p, TokenKindView::Own, *b));
                lemma_type_end_unique(ks, p + 2, *a, *b);
            }
        },
        WitTypeRef::Borrow(a) => {
            if let WitTypeRef::Borrow(b) = t2 {
                assert(type_spelled(ks, p, t1) == wrapped_spelled(ks, p, TokenKindView::Borrow, *a));
                assert(type_spelled(ks, p, t2) == wrapped_spelled(ks, p, TokenKindView::Borrow, *b));
                lemma_type_end_unique(ks, p + 2, *a, *b);
            }
        },
        WitTypeRef::Result { ok: ok1, err: err1 } => {
            if let WitTypeRef::Result { ok: ok2, err: err2 } = t2 {
                if tok(ks, p + 1) == TokenKindView::LAngle {
                    if let Some(o1) = ok1 {
                        if let Some(o2) = ok2 {
                            lemma_type_end_unique(ks, p + 2, *o1, *o2);
                        }
                    }
                    let q = if ok1 is None {
                        p + 3
                    } else {
                        type_spelled(ks, p + 2, *ok1->0)->0
                    };
                    if tok(ks, q) == TokenKindView::Comma {
                        if let Some(e1) = err1 {
                            if let Some(e2) = err2 {
                                lemma_type_end_unique(ks, q + 1, *e1, *e2);
                            }
                        }
                    }
                }
            }
        },
        WitTypeRef::Tuple(items1) => {
            if let WitTypeRef::Tuple(items2) = t2 {
                if tok(ks, p + 2) != TokenKindView::RAngle {
                    lemma_items_end_unique(ks, p + 2, items1@, items2@);
                }
            }
        },
        _ => {},
    }
}

/// Two type lists spelled from the same place end at the same place.
proof fn lemma_items_end_unique(ks: Seq<TokenKindView>, p: int, s1: Seq<WitTypeRef>, s2: Seq<WitTypeRef>)
    requires
        items_spelled(ks, p, s1) is Some,
        items_spelled(ks, p, s2) is Some,
    ensures
        items_spelled(ks, p, s1) == items_spelled(ks, p, s2),
    decreases s1, 0int,
{
    lemma_type_end_unique(ks, p, s1[0], s2[0]);
    let q = type_spelled(ks, p, s1[0])->0;
    if s1.len() > 1 && s2.len() > 1 {
        lemma_items_end_unique(ks, q + 1, s1.drop_first(), s2.drop_first());
    }
}

/// Two parameter lists spelled from the same place end at the same place.
proof fn lemma_param_list_end_unique(ks: Seq<TokenKindView>, p: int, s1: Seq<WitParam>, s2: Seq<WitParam>)
    requires
        param_list_spelled(ks, p, s1) is Some,
        param_list_spelled(ks, p, s2) is Some,
    ensures
        param_list_spelled(ks, p, s1) == param_list_spelled(ks, p, s2),
    decreases s1.len(),
{
    lemma_type_end_unique(ks, p + 2, s1[0].ty, s2[0].ty);
    let q = type_spelled(ks, p + 2, s1[0].ty)->0;
    if tok(ks, q) == TokenKindView::Comma {
        lemma_param_list_end_unique(ks, q + 1, s1.drop_first(), s2.drop_first());
    }
}

/// Two (possibly empty) parameter lists spelled from the same place end at
/// the same place.
proof fn lemma_params_end_unique(ks: Seq<TokenKindView>, p: int, s1: Seq<WitParam>, s2: Seq<WitParam>)
    requires
        params_spelled(ks, p, s1) is Some,
        params_spelled(ks, p, s2) is Some,
    ensures
        params_spelled(ks, p, s1) == params_spelled(ks, p, s2),
{
    if tok(ks, p) != TokenKindView::RParen {
        lemma_param_list_end_unique(ks, p, s1, s2);
    }
}

/// Two function signatures spelled from the same place end at the same place.
proof fn lemma_func_sig_end_unique(ks: Seq<TokenKindView>, p: int, f1: WitFuncDef, f2: WitFuncDef)
    requires
        func_sig_spelled(ks, p, f1) is Some,
        func_sig_spelled(ks, p, f2) is Some,
    ensures
        func_sig_spelled(ks, p, f1) == func_sig_spelled(ks, p, f2),
{
    if tok(ks, p + 2) != TokenKindView::RParen {
        lemma_param_list_end_unique(ks, p + 2, f1.params@, f2.params@);
    }
    let q = params_spelled(ks, p + 2, f1.params@)->0;
    if tok(ks, q + 1) == TokenKindView::Arrow {
        lemma_type_end_unique(ks, q + 2, f1.result->0, f2.result->0);
    }
}

fn ident_kind(s: &str) -> (k: WitTokenKind)
    ensures
        k@ == TokenKindView::Ident(s@),
{
    WitTokenKind::Ident(owned(s))
}

impl WitParser {
    /// Parses a type reference.
    #[verifier::rlimit(40)]
    fn parse_type_ref(&mut self) -> (r: Result<WitTypeRef, WitParseError>)
        requires
            old(self).wf(),
        ensures
            final(self).wf(),
            final(self).tokens == old(self).tokens,
            r matches Ok(t) ==> type_spelled(old(self).kinds(), old(self).pos as int, t) == Some(
                final(self).pos as int,
            ),
            r is Ok ==> final(self).pos > old(self).pos,
            final(self).pos >= old(self).pos,
            r is Err ==> forall|t: WitTypeRef| #[trigger] type_spelled(old(self).kinds(), old(self).pos as int, t) is None,
            match r {
                Ok(_) => type_err(old(self).kinds(), old(self).pos as int) is None,
                Err(e) => type_err(old(self).kinds(), old(self).pos as int) matches Some((m, i)) && e.message@ == m
                    && e.offset == old(self).offset_at(i),
            },
        decreases old(self).tokens@.len() - old(self).pos, 0int,
    {
        let ghost ks = self.kinds();
        let ghost p0 = self.pos as int;
        let cur = self.peek();
        match cur {
            WitTokenKind::U8 => {
                self.advance();
                Ok(WitTypeRef::Primitive(WitPrimitive::U8))
            },
            WitTokenKind::U16 => {
                self.advance();
                Ok(WitTypeRef::Primitive(WitPrimitive::U16))
            },
            WitTokenKind::U32 => {
                self.advance();
                Ok(WitTypeRef::Primitive(WitPrimitive::U32))
            },
            WitTokenKind::U64 => {
                self.advance();
                Ok(WitTypeRef::Primitive(WitPrimitive::U64))
            },
            WitTokenKind::S8 => {
                self.advance();
                Ok(WitTypeRef::Primitive(WitPrimitive::S8))
            },
            WitTokenKind::S16 => {
                self.advance();
                Ok(WitTypeRef::Primitive(WitPrimitive::S16))
            },
            WitTokenKind::S32 => {
                self.advance();
                Ok(WitTypeRef::Primitive(WitPrimitive::S32))
            },
            WitTokenKind::S64 => {
                self.advance();
                Ok(WitTypeRef::Primitive(WitPrimitive::S64))
            },
            WitTokenKind::F32 => {
                self.advance();
                Ok(WitTypeRef::Primitive(WitPrimitive::F32))
            },
            WitTokenKind::F64 => {
                self.advance();
                Ok(WitTypeRef::Primitive(WitPrimitive::F64))
            },
            WitTokenKind::Bool => {
                self.advance();
                Ok(WitTypeRef::Primitive(WitPrimitive::Bool))
            },
            WitTokenKind::Char => {
                self.advance();
                Ok(WitTypeRef::Primitive(WitPrimitive::Char))
            },
            WitTokenKind::StringKw => {
                self.advance();
                Ok(WitTypeRef::Primitive(WitPrimitive::String_))
            },
            WitTokenKind::List => {
                self.advance();
                let inner = match self.parse_wrapped_inner() {
                    Ok(x) => x,
                    Err(e) => {
                        proof {
                            assert forall|t: WitTypeRef| #[trigger] type_spelled(ks, p0, t) is None by {
                                if type_spelled(ks, p0, t) is Some {
                                    lemma_type_variant(ks, p0, t);
                                    assert(wrapped_spelled(ks, p0, TokenKindView::List, *t->List_0) is None);
                                }
                            }
                        }
                        return Err(e);
                    },
                };
                let t = WitTypeRef::List(Box::new(inner));
                proof {
                    assert(wrapped_spelled(ks, p0, TokenKindView::List, inner) == Some(self.pos as int));
                    assert(type_spelled(ks, p0, t) == Some(self.pos as int));
                }
                Ok(t)
            },
            WitTokenKind::Option_ => {
                self.advance();
                let inner = match self.parse_wrapped_inner() {
                    Ok(x) => x,
                    Err(e) => {
                        proof {
                            assert forall|t: WitTypeRef| #[trigger] type_spelled(ks, p0, t) is None by {
                                if type_spelled(ks, p0, t) is Some {
                                    lemma_type_variant(ks, p0, t);
                                    assert(wrapped_spelled(ks, p0, TokenKindView::Option_, *t->Option_0) is None);
                                }
                            }
                        }
                        return Err(e);
                    },
                };
                let t = WitTypeRef::Option(Box::new(inner));
                proof {
                    assert(wrapped_spelled(ks, p0, TokenKindView::Option_, inner) == Some(self.pos as int));
                    assert(type_spelled(ks, p0, t) == Some(self.pos as int));
                }
                Ok(t)
            },
            WitTokenKind::Own => {
                self.advance();
                let inner = match self.parse_wrapped_inner() {
                    Ok(x) => x,
                    Err(e) => {
                        proof {
                            assert forall|t: WitTypeRef| #[trigger] type_spelled(ks, p0, t) is None by {
                                if type_spelled(ks, p0, t) is Some {
                                    lemma_type_variant(ks, p0, t);
                                    assert(wrapped_spelled(ks, p0, TokenKindView::Own, *t->Own_0) is None);
                                }
                            }
                        }
                        return Err(e);
                    },
                };
                let t = WitTypeRef::Own(Box::new(inner));
                proof {
                    assert(wrapped_spelled(ks, p0, TokenKindView::Own, inner) == Some(self.pos as int));
                    assert(type_spelled(ks, p0, t) == Some(self.pos as int));
                }
                Ok(t)
            },
            WitTokenKind::Borrow => {
                self.advance();
                let inner = match self.parse_wrapped_inner() {
                    Ok(x) => x,
                    Err(e) => {
                        proof {
                            assert forall|t: WitTypeRef| #[trigger] type_spelled(ks, p0, t) is None by {
                                if type_spelled(ks, p0, t) is Some {
                                    lemma_type_variant(ks, p0, t);
                                    assert(wrapped_spelled(ks, p0, TokenKindView::Borrow, *t->Borrow_0) is None);
                                }
                            }
                        }
                        return Err(e);
                    },
                };
                let t = WitTypeRef::Borrow(Box::new(inner));
                proof {
                    assert(wrapped_spelled(ks, p0, TokenKindView::Borrow, inner) == Some(self.pos as int));
                    assert(type_spelled(ks, p0, t) == Some(self.pos as int));
                }
                Ok(t)
            },
            WitTokenKind::Result_ => {
                self.advance();
                self.parse_result_args()
            },
            WitTokenKind::Tuple_ => {
                self.advance();
                self.parse_tuple_args()
            },
            WitTokenKind::Ident(s) => {
                self.advance();
                Ok(WitTypeRef::Named(s))
            },
            other => {
                proof {
                    assert forall|t: WitTypeRef| #[trigger] type_spelled(ks, p0, t) is None by {
                        if type_spelled(ks, p0, t) is Some {
                            lemma_type_variant(ks, p0, t);
                        }
                    }
                }
                let mut message = owned("expected type, found `");
                let f = other.to_string();
                push_str(&mut message, f.as_str());
                push_str(&mut message, "`");
                Err(WitParseError { message, offset: self.offset() })
            },
        }
    }

    /// Parses what follows a `result` keyword: nothing, or `<ok, err>`
    /// where either may be `_` and the error part may be left out.
    #[verifier::spinoff_prover]
    #[verifier::rlimit(100)]
    fn parse_result_args(&mut self) -> (r: Result<WitTypeRef, WitParseError>)
        requires
            old(self).wf(),
            old(self).pos > 0,
            tok(old(self).kinds(), old(self).pos - 1) == TokenKindView::Result_,
        ensures
            final(self).wf(),
            final(self).tokens == old(self).tokens,
            final(self).pos >= old(self).pos,
            r matches Ok(t) ==> type_spelled(old(self).kinds(), old(self).pos - 1, t) == Some(
                final(self).pos as int,
            ),
            r is Err ==> forall|t: WitTypeRef| #[trigger] type_spelled(old(self).kinds(), old(self).pos - 1, t) is None,
            match r {
                Ok(_) => result_err(old(self).kinds(), old(self).pos as int) is None,
                Err(e) => result_err(old(self).kinds(), old(self).pos as int) matches Some((m, i)) && e.message@ == m
                    && e.offset == old(self).offset_at(i),
            },
        decreases old(self).tokens@.len() - old(self).pos, 1int,
    {
        let ghost ks = self.kinds();
        let ghost p0 = self.pos - 1;
        if !self.at(&WitTokenKind::LAngle) {
            return Ok(WitTypeRef::Result { ok: None, err: None });
        }
        self.advance();
        let underscore = ident_kind("_");
        let ok = if self.at(&underscore) {
            self.advance();
            None
        } else {
            match self.parse_type_ref() {
                Ok(t) => {
                    proof {
                        lemma_type_end(ks, p0 + 2, t);
                    }
                    Some(Box::new(t))
                },
                Err(e) => {
                    proof {
                        assert forall|t: WitTypeRef| #[trigger] type_spelled(ks, p0, t) is None by {
                            if type_spelled(ks, p0, t) is Some {
                                lemma_type_variant(ks, p0, t);
                                assert(type_spelled(ks, p0 + 2, *t->ok->0) is None);
                            }
                        }
                        assert(result_err(ks, p0 + 1) == type_err(ks, p0 + 2));
                    }
                    return Err(e);
                },
            }
        };
        let ghost q = self.pos as int;
        proof {
            assert forall|t: WitTypeRef| type_spelled(ks, p0, t) is Some implies (t matches WitTypeRef::Result { ok: ok2, err: _ } && match ok2 {
                None => q == p0 + 3,
                Some(o2) => type_spelled(ks, p0 + 2, *o2) == Some(q),
            }) by {
                lemma_type_variant(ks, p0, t);
                if let WitTypeRef::Result { ok: Some(o2), err: _ } = t {
                    lemma_type_end_unique(ks, p0 + 2, *ok->0, *o2);
                }
            }
        }
        let err = if self.eat(&WitTokenKind::Comma) {
            if self.at(&underscore) {
                self.advance();
                None
            } else {
                match self.parse_type_ref() {
                    Ok(t) => {
                        proof {
                            lemma_type_end(ks, q + 1, t);
                        }
                        Some(Box::new(t))
                    },
                    Err(e) => {
                        proof {
                            assert forall|t: WitTypeRef| #[trigger] type_spelled(ks, p0, t) is None by {
                                if type_spelled(ks, p0, t) is Some {
                                    assert(type_spelled(ks, q + 1, *t->err->0) is None);
                                }
                            }
                            assert(q == if ok is None { p0 + 3 } else { type_end(ks, p0 + 2) });
                            assert(result_err(ks, p0 + 1) == type_err(ks, q + 1));
                        }
                        return Err(e);
                    },
                }
            }
        } else {
            None
        };
        let ghost rr = self.pos as int;
        match self.expect(&WitTokenKind::RAngle) {
            Ok(()) => {},
            Err(e) => {
                proof {
                    assert forall|t: WitTypeRef| #[trigger] type_spelled(ks, p0, t) is None by {
                        if type_spelled(ks, p0, t) is Some {
                            if tok(ks, q) == TokenKindView::Comma {
                                if let WitTypeRef::Result { ok: _, err: Some(e2) } = t {
                                    lemma_type_end_unique(ks, q + 1, *err->0, *e2);
                                }
                            }
                        }
                    }
                    assert(q == if ok is None { p0 + 3 } else { type_end(ks, p0 + 2) });
                    assert(result_err(ks, p0 + 1) == Some(expect_err(ks, rr, TokenKindView::RAngle)));
                }
                return Err(e);
            },
        }
        let t = WitTypeRef::Result { ok, err };
        proof {
            assert(type_spelled(ks, p0, t) == Some(self.pos as int));
            assert(q == if ok is None { p0 + 3 } else { type_end(ks, p0 + 2) });
            assert(result_err(ks, p0 + 1) is None);
        }
        Ok(t)
    }

    /// Parses what follows a `tuple` keyword: `<A, B, ...>`.
    #[verifier::rlimit(40)]
    fn parse_tuple_args(&mut self) -> (r: Result<WitTypeRef, WitParseError>)
        requires
            old(self).wf(),
            old(self).pos > 0,
            tok(old(self).kinds(), old(self).pos - 1) == TokenKindView::Tuple_,
        ensures
            final(self).wf(),
            final(self).tokens == old(self).tokens,
            final(self).pos >= old(self).pos,
            r matches Ok(t) ==> type_spelled(old(self).kinds(), old(self).pos - 1, t) == Some(
                final(self).pos as int,
            ),
            r is Ok ==> final(self).pos > old(self).pos,
            r is Err ==> forall|t: WitTypeRef| #[trigger] type_spelled(old(self).kinds(), old(self).pos - 1, t) is None,
            match r {
                Ok(_) => tuple_err(old(self).kinds(), old(self).pos as int) is None,
                Err(e) => tuple_err(old(self).kinds(), old(self).pos as int) matches Some((m, i)) && e.message@ == m
                    && e.offset == old(self).offset_at(i),
            },
        decreases old(self).tokens@.len() - old(self).pos, 1int,
    {
        let ghost ks = self.kinds();
        let ghost p0 = self.pos - 1;
        match self.expect(&WitTokenKind::LAngle) {
            Ok(()) => {},
            Err(e) => {
                proof {
                    assert forall|t: WitTypeRef| #[trigger] type_spelled(ks, p0, t) is None by {
                        if type_spelled(ks, p0, t) is Some {
                            lemma_type_variant(ks, p0, t);
                        }
                    }
                }
                return Err(e);
            },
        }
        let ghost p2 = self.pos as int;
        let mut items: Vec<WitTypeRef> = Vec::new();
        if !self.at(&WitTokenKind::RAngle) {
            proof {
                assert forall|full: Seq<WitTypeRef>| #[trigger] items_spelled(ks, p2, full) is Some implies
                    items_spelled(ks, p2, full.skip(0)) == items_spelled(ks, p2, full) by {
                    assert(full.skip(0) =~= full);
                }
            }
            loop
                invariant_except_break
                    self.wf(),
                    self.tokens == old(self).tokens,
                    ks == self.kinds(),
                    p0 + 1 == old(self).pos,
                    p2 == p0 + 2,
                    tok(ks, p0) == TokenKindView::Tuple_,
                    p0 < p2 <= self.pos,
                    tok(ks, p2) != TokenKindView::RAngle,
                    tok(ks, p0 + 1) == TokenKindView::LAngle,
                    items_res(ks, p2) == items_res(ks, self.pos as int),
                    forall|rest: Seq<WitTypeRef>| #[trigger]
                        items_spelled(ks, self.pos as int, rest) == items_spelled(
                            ks,
                            p2,
                            items@ + rest,
                        ),
                    forall|full: Seq<WitTypeRef>| #[trigger] items_spelled(ks, p2, full) is Some
                        ==> full.len() >= items@.len() && items_spelled(ks, self.pos as int, full.skip(items@.len() as int))
                        == items_spelled(ks, p2, full),
                ensures
                    self.wf(),
                    self.tokens == old(self).tokens,
                    items_spelled(ks, p2, items@) == Some(self.pos as int),
                    p2 < self.pos,
                    tok(ks, p2) != TokenKindView::RAngle,
                    items_res(ks, p2) == Ok::<int, (Seq<char>, int)>(self.pos as int),
                    forall|full: Seq<WitTypeRef>| #[trigger] items_spelled(ks, p2, full) is Some
                        ==> items_spelled(ks, p2, full) == Some(self.pos as int),
                decreases self.tokens@.len() - self.pos,
            {
                let ghost cur_pos = self.pos as int;
                let ghost n = items@.len() as int;
                let t = match self.parse_type_ref() {
                    Ok(t) => t,
                    Err(e) => {
                        proof {
                            assert forall|t: WitTypeRef| #[trigger] type_spelled(ks, p0, t) is None by {
                                if type_spelled(ks, p0, t) is Some {
                                    lemma_type_variant(ks, p0, t);
                                    if let WitTypeRef::Tuple(v) = t {
                                        let full = v@;
                                        assert(tok(ks, p0 + 2) != TokenKindView::RAngle);
                                        assert(items_spelled(ks, p2, full) is Some);
                                        assert(items_spelled(ks, cur_pos, full.skip(n)) is Some);
                                        assert(type_spelled(ks, cur_pos, full.skip(n)[0]) is None);
                                    }
                                }
                            }
                            assert(items_res(ks, cur_pos) == Err::<int, (Seq<char>, int)>(type_err(ks, cur_pos)->0));
                            assert(tuple_err(ks, p0 + 1) == type_err(ks, cur_pos));
                        }
                        return Err(e);
                    },
                };
                proof {
                    lemma_type_end(ks, cur_pos, t);
                }
                let ghost q = self.pos as int;
                let ghost old_items = items@;
                proof {
                    assert forall|full: Seq<WitTypeRef>| #[trigger] items_spelled(ks, p2, full) is Some implies
                        type_spelled(ks, cur_pos, full.skip(n)[0]) == Some(q) by {
                        lemma_type_end_unique(ks, cur_pos, t, full.skip(n)[0]);
                    }
                }
                if !self.eat(&WitTokenKind::Comma) {
                    proof {
                        assert(items_res(ks, cur_pos) == Ok::<int, (Seq<char>, int)>(q));
                        assert(items_spelled(ks, cur_pos, seq![t]) == Some(q));
                        assert(old_items + seq![t] =~= old_items.push(t));
                        assert forall|full: Seq<WitTypeRef>| #[trigger] items_spelled(ks, p2, full) is Some
                            implies items_spelled(ks, p2, full) == Some(q) by {
                            assert(type_spelled(ks, cur_pos, full.skip(n)[0]) == Some(q));
                        }
                    }
                    items.push(t);
                    break;
                }
                proof {
                    assert(items_res(ks, cur_pos) == items_res(ks, q + 1));
                    assert forall|rest: Seq<WitTypeRef>| #[trigger]
                        items_spelled(ks, self.pos as int, rest) == items_spelled(
                            ks,
                            p2,
                            old_items.push(t) + rest,
                        ) by {
                        lemma_items_step(ks, cur_pos, t, q, rest);
                        assert(old_items.push(t) + rest =~= old_items + (seq![t] + rest));
                    }
                    assert forall|full: Seq<WitTypeRef>| #[trigger] items_spelled(ks, p2, full) is Some implies
                        full.len() >= n + 1 && items_spelled(ks, q + 1, full.skip(n + 1)) == items_spelled(ks, p2, full) by {
                        let sub = full.skip(n);
                        assert(type_spelled(ks, cur_pos, sub[0]) == Some(q));
                        assert(sub.drop_first() =~= full.skip(n + 1));
                    }
                }
                items.push(t);
            }
        } else {
            proof {
                assert(items@.len() == 0);
            }
        }
        let ghost rr = self.pos as int;
        match self.expect(&WitTokenKind::RAngle) {
            Ok(()) => {},
            Err(e) => {
                proof {
                    assert forall|t: WitTypeRef| #[trigger] type_spelled(ks, p0, t) is None by {
                        if type_spelled(ks, p0, t) is Some {
                            lemma_type_variant(ks, p0, t);
                            assert(items_spelled(ks, p2, t->Tuple_0@) is Some);
                        }
                    }
                    assert(tuple_err(ks, p0 + 1) == Some(expect_err(ks, rr, TokenKindView::RAngle)));
                }
                return Err(e);
            },
        }
        let t = WitTypeRef::Tuple(items);
        proof {
            assert(type_spelled(ks, p0, t) == Some(self.pos as int));
            assert(tuple_err(ks, p0 + 1) is None);
        }
        Ok(t)
    }

    /// Parses `<T>` after a `list`, `option`, `own` or `borrow` keyword.
    fn parse_wrapped_inner(&mut self) -> (r: Result<WitTypeRef, WitParseError>)
        requires
            old(self).wf(),
            old(self).pos > 0,
        ensures
            final(self).wf(),
            final(self).tokens == old(self).tokens,
            r matches Ok(t) ==> (tok(old(self).kinds(), old(self).pos as int)
                == TokenKindView::LAngle && type_spelled(old(self).kinds(), old(self).pos + 1, t)
                == Some((final(self).pos - 1) as int) && tok(old(self).kinds(), final(self).pos - 1)
                == TokenKindView::RAngle),
            r is Ok ==> final(self).pos > old(self).pos,
            final(self).pos >= old(self).pos,
            r is Err ==> forall|t: WitTypeRef| #[trigger] wrapped_spelled(old(self).kinds(), old(self).pos - 1, tok(old(self).kinds(), old(self).pos - 1), t) is None,
            match r {
                Ok(_) => wrapped_err(old(self).kinds(), old(self).pos as int) is None,
                Err(e) => wrapped_err(old(self).kinds(), old(self).pos as int) matches Some((m, i)) && e.message@ == m
                    && e.offset == old(self).offset_at(i),
            },
        decreases old(self).tokens@.len() - old(self).pos, 1int,
    {
        let ghost ks = self.kinds();
        let ghost p0 = self.pos as int;
        self.expect(&WitTokenKind::LAngle)?;
        let inner = match self.parse_type_ref() {
            Ok(t) => t,
            Err(e) => {
                proof {
                    assert forall|t: WitTypeRef| #[trigger] wrapped_spelled(ks, p0 - 1, tok(ks, p0 - 1), t) is None by {
                        assert(type_spelled(ks, p0 + 1, t) is None);
                    }
                }
                return Err(e);
            },
        };
        proof {
            lemma_type_end(ks, p0 + 1, inner);
        }
        match self.expect(&WitTokenKind::RAngle) {
            Ok(()) => {},
            Err(e) => {
                proof {
                    assert forall|t: WitTypeRef| #[trigger] wrapped_spelled(ks, p0 - 1, tok(ks, p0 - 1), t) is None by {
                        if type_spelled(ks, p0 + 1, t) is Some {
                            lemma_type_end_unique(ks, p0 + 1, inner, t);
                        }
                    }
                    assert(wrapped_err(ks, p0) == Some(expect_err(ks, type_end(ks, p0 + 1), TokenKindView::RAngle)));
                }
                return Err(e);
            },
        }
        proof {
            assert(wrapped_err(ks, p0) is None);
        }
        Ok(inner)
    }
}


impl WitParser {
    /// Parses `name: type, ...` up to (not including) the closing `)`.
    #[verifier::spinoff_prover]
    #[verifier::rlimit(100)]
    fn parse_param_list(&mut self) -> (r: Result<Vec<WitParam>, WitParseError>)
        requires
            old(self).wf(),
        ensures
            final(self).wf(),
            final(self).tokens == old(self).tokens,
            final(self).pos >= old(self).pos,
            r matches Ok(ps) ==> params_spelled(old(self).kinds(), old(self).pos as int, ps@)
                == Some(final(self).pos as int),
            r is Err ==> forall|ps: Seq<WitParam>| #[trigger] params_spelled(old(self).kinds(), old(self).pos as int, ps) is None,
            match r {
                Ok(_) => params_res(old(self).kinds(), old(self).pos as int) matches Ok(x) && x == final(self).pos,
                Err(e) => params_res(old(self).kinds(), old(self).pos as int) matches Err((m, i)) && e.message@ == m
                    && e.offset == old(self).offset_at(i),
            },
    {
        let ghost ks = self.kinds();
        let ghost p0 = self.pos as int;
        let mut params: Vec<WitParam> = Vec::new();
        if self.at(&WitTokenKind::RParen) {
            return Ok(params);
        }
        proof {
            assert forall|full: Seq<WitParam>| #[trigger] param_list_at(ks, p0, full) is Some implies
                param_list_spelled(ks, p0, full.skip(0)) == param_list_at(ks, p0, full) by {
                assert(full.skip(0) =~= full);
            }
        }
        loop
            invariant_except_break
                self.wf(),
                self.tokens == old(self).tokens,
                ks == self.kinds(),
                p0 == old(self).pos,
                p0 <= self.pos,
                tok(ks, p0) != TokenKindView::RParen,
                params_res(ks, p0) == param_items_res(ks, self.pos as int),
                forall|rest: Seq<WitParam>| #[trigger]
                    param_list_spelled(ks, self.pos as int, rest) == param_list_spelled(
                        ks,
                        p0,
                        params@ + rest,
                    ),
                forall|full: Seq<WitParam>| #[trigger] param_list_at(ks, p0, full) is Some
                    ==> full.len() >= params@.len() && param_list_spelled(ks, self.pos as int, full.skip(params@.len() as int))
                    == param_list_at(ks, p0, full),
            ensures
                self.wf(),
                self.tokens == old(self).tokens,
                p0 <= self.pos,
                params_spelled(ks, p0, params@) == Some(self.pos as int),
                params_res(ks, p0) matches Ok(x) && x == self.pos,
            decreases self.tokens@.len() - self.pos,
        {
            let ghost cur = self.pos as int;
            let ghost n = params@.len() as int;
            let name = match self.expect_ident() {
                Ok(x) => x,
                Err(e) => {
                    proof {
                        assert forall|ps: Seq<WitParam>| #[trigger] params_spelled(ks, p0, ps) is None by {
                            if param_list_at(ks, p0, ps) is Some {
                                assert(param_list_spelled(ks, cur, ps.skip(n)) is Some);
                            }
                        }
                    }
                    return Err(e);
                },
            };
            match self.expect(&WitTokenKind::Colon) {
                Ok(()) => {},
                Err(e) => {
                    proof {
                        assert forall|ps: Seq<WitParam>| #[trigger] params_spelled(ks, p0, ps) is None by {
                            if param_list_at(ks, p0, ps) is Some {
                                assert(param_list_spelled(ks, cur, ps.skip(n)) is Some);
                            }
                        }
                    }
                    return Err(e);
                },
            }
            let ty = match self.parse_type_ref() {
                Ok(t) => t,
                Err(e) => {
                    proof {
                        assert forall|ps: Seq<WitParam>| #[trigger] params_spelled(ks, p0, ps) is None by {
                            if param_list_at(ks, p0, ps) is Some {
                                assert(param_list_spelled(ks, cur, ps.skip(n)) is Some);
                                assert(type_spelled(ks, cur + 2, ps.skip(n)[0].ty) is None);
                            }
                        }
                    }
                    return Err(e);
                },
            };
            let ghost q = self.pos as int;
            let ghost before = params@;
            let x = WitParam { name, ty };
            proof {
                lemma_type_end(ks, cur + 2, ty);
                assert forall|full: Seq<WitParam>| #[trigger] param_list_at(ks, p0, full) is Some implies
                    type_spelled(ks, cur + 2, full.skip(n)[0].ty) == Some(q) by {
                    assert(param_list_spelled(ks, cur, full.skip(n)) is Some);
                    lemma_type_end_unique(ks, cur + 2, ty, full.skip(n)[0].ty);
                }
            }
            if !self.eat(&WitTokenKind::Comma) {
                proof {
                    assert(param_list_spelled(ks, cur, seq![x]) == Some(q));
                    assert(before + seq![x] =~= before.push(x));
                }
                params.push(x);
                break;
            }
            proof {
                assert forall|rest: Seq<WitParam>| #[trigger]
                    param_list_spelled(ks, self.pos as int, rest) == param_list_spelled(
                        ks,
                        p0,
                        before.push(x) + rest,
                    ) by {
                    lemma_params_step(ks, cur, x, q, rest);
                    assert(before.push(x) + rest =~= before + (seq![x] + rest));
                }
                assert forall|full: Seq<WitParam>| #[trigger] param_list_at(ks, p0, full) is Some implies
                    full.len() >= n + 1 && param_list_spelled(ks, q + 1, full.skip(n + 1)) == param_list_at(ks, p0, full) by {
                    let sub = full.skip(n);
                    assert(type_spelled(ks, cur + 2, sub[0].ty) == Some(q));
                    assert(sub.drop_first() =~= full.skip(n + 1));
                }
            }
            params.push(x);
        }
        Ok(params)
    }

    /// Parses `func(params) -> result` (the trailing `;` is left).
    fn parse_func_body(&mut self, name: String, doc: Option<String>) -> (r: Result<
        WitFuncDef,
        WitParseError,
    >)
        requires
            old(self).wf(),
        ensures
            final(self).wf(),
            final(self).tokens == old(self).tokens,
            final(self).pos >= old(self).pos,
            r matches Ok(f) ==> (f.name == name && f.doc == doc && !f.is_static && !f.is_constructor
                && func_sig_spelled(old(self).kinds(), old(self).pos as int, f) == Some(
                final(self).pos as int,
            ) && final(self).pos > old(self).pos),
            r is Err ==> forall|f: WitFuncDef| #[trigger] func_sig_spelled(old(self).kinds(), old(self).pos as int, f) is None,
            match r {
                Ok(_) => func_body_res(old(self).kinds(), old(self).pos as int) matches Ok(x) && x == final(self).pos,
                Err(e) => func_body_res(old(self).kinds(), old(self).pos as int) matches Err((m, i)) && e.message@ == m
                    && e.offset == old(self).offset_at(i),
            },
    {
        let ghost ks = self.kinds();
        let ghost p0 = self.pos as int;
        self.expect(&WitTokenKind::Func)?;
        self.expect(&WitTokenKind::LParen)?;
        let params = match self.parse_param_list() {
            Ok(ps) => ps,
            Err(e) => {
                proof {
                    assert forall|f: WitFuncDef| #[trigger] func_sig_spelled(ks, p0, f) is None by {
                        assert(params_spelled(ks, p0 + 2, f.params@) is None);
                    }
                }
                return Err(e);
            },
        };
        let ghost q = self.pos as int;
        proof {
            assert forall|f: WitFuncDef| #[trigger] func_sig_spelled(ks, p0, f) is Some implies
                params_spelled(ks, p0 + 2, f.params@) == Some(q) by {
                lemma_params_end_unique(ks, p0 + 2, params@, f.params@);
            }
        }
        match self.expect(&WitTokenKind::RParen) {
            Ok(()) => {},
            Err(e) => {
                proof {
                    assert forall|f: WitFuncDef| #[trigger] func_sig_spelled(ks, p0, f) is None by {
                        if func_sig_spelled(ks, p0, f) is Some {
                            assert(params_spelled(ks, p0 + 2, f.params@) == Some(q));
                        }
                    }
                }
                return Err(e);
            },
        }
        let result = if self.eat(&WitTokenKind::Arrow) {
            match self.parse_type_ref() {
                Ok(t) => {
                    proof {
                        lemma_type_end(ks, q + 2, t);
                    }
                    Some(t)
                },
                Err(e) => {
                    proof {
                        assert forall|f: WitFuncDef| #[trigger] func_sig_spelled(ks, p0, f) is None by {
                            if func_sig_spelled(ks, p0, f) is Some {
                                assert(params_spelled(ks, p0 + 2, f.params@) == Some(q));
                                assert(type_spelled(ks, q + 2, f.result->0) is None);
                            }
                        }
                    }
                    return Err(e);
                },
            }
        } else {
            None
        };
        let f = WitFuncDef { name, doc, params, result, is_static: false, is_constructor: false };
        proof {
            assert(func_sig_spelled(ks, p0, f) == Some(self.pos as int));
        }
        Ok(f)
    }

    /// Parses `name: [static] func(params) -> result;`.
    fn parse_func_item(&mut self, doc: Option<String>) -> (r: Result<WitFuncDef, WitParseError>)
        requires
            old(self).wf(),
        ensures
            final(self).wf(),
            final(self).tokens == old(self).tokens,
            final(self).pos >= old(self).pos,
            r matches Ok(f) ==> func_item_spelled(old(self).kinds(), old(self).pos as int, f, doc)
                == Some(final(self).pos as int),
            r is Ok ==> final(self).pos > old(self).pos,
            r is Err ==> forall|f: WitFuncDef| #[trigger] func_item_spelled(old(self).kinds(), old(self).pos as int, f, doc) is None,
            match r {
                Ok(_) => func_item_res(old(self).kinds(), old(self).pos as int) matches Ok(x) && x == final(self).pos,
                Err(e) => func_item_res(old(self).kinds(), old(self).pos as int) matches Err((m, i)) && e.message@ == m
                    && e.offset == old(self).offset_at(i),
            },
    {
        let ghost ks = self.kinds();
        let ghost p0 = self.pos as int;
        let name = self.expect_ident()?;
        self.expect(&WitTokenKind::Colon)?;
        let is_static = self.eat(&WitTokenKind::Static);
        let ghost q = self.pos as int;
        let func = match self.parse_func_body(name, doc) {
            Ok(f) => f,
            Err(e) => {
                proof {
                    assert forall|f: WitFuncDef| #[trigger] func_item_spelled(ks, p0, f, doc) is None by {
                        assert(func_sig_spelled(ks, q, f) is None);
                    }
                }
                return Err(e);
            },
        };
        let ghost e = self.pos as int;
        match self.expect(&WitTokenKind::Semicolon) {
            Ok(()) => {},
            Err(err) => {
                proof {
                    assert forall|f: WitFuncDef| #[trigger] func_item_spelled(ks, p0, f, doc) is None by {
                        if func_item_spelled(ks, p0, f, doc) is Some {
                            lemma_func_sig_end_unique(ks, q, func, f);
                        }
                    }
                }
                return Err(err);
            },
        }
        let f = WitFuncDef {
            name: func.name,
            doc: func.doc,
            params: func.params,
            result: func.result,
            is_static,
            is_constructor: false,
        };
        proof {
            assert(func_sig_spelled(ks, if is_static { p0 + 3 } else { p0 + 2 }, f) == Some(e));
            assert(func_item_spelled(ks, p0, f, doc) == Some(self.pos as int));
        }
        Ok(f)
    }

    /// Parses `constructor(params);`.
    fn parse_constructor_func(&mut self, doc: Option<String>) -> (r: Result<
        WitFuncDef,
        WitParseError,
    >)
        requires
            old(self).wf(),
        ensures
            final(self).wf(),
            final(self).tokens == old(self).tokens,
            final(self).pos >= old(self).pos,
            r matches Ok(f) ==> constructor_spelled(old(self).kinds(), old(self).pos as int, f, doc)
                == Some(final(self).pos as int),
            r is Ok ==> final(self).pos > old(self).pos,
            r is Err ==> forall|f: WitFuncDef| #[trigger] constructor_spelled(old(self).kinds(), old(self).pos as int, f, doc) is None,
            match r {
                Ok(_) => constructor_res(old(self).kinds(), old(self).pos as int) matches Ok(x) && x == final(self).pos,
                Err(e) => constructor_res(old(self).kinds(), old(self).pos as int) matches Err((m, i)) && e.message@ == m
                    && e.offset == old(self).offset_at(i),
            },
    {
        let ghost ks = self.kinds();
        let ghost p0 = self.pos as int;
        self.expect(&WitTokenKind::Constructor)?;
        self.expect(&WitTokenKind::LParen)?;
        let params = match self.parse_param_list() {
            Ok(ps) => ps,
            Err(e) => {
                proof {
                    assert forall|f: WitFuncDef| #[trigger] constructor_spelled(ks, p0, f, doc) is None by {
                        assert(params_spelled(ks, p0 + 2, f.params@) is None);
                    }
                }
                return Err(e);
            },
        };
        let ghost q = self.pos as int;
        proof {
            assert forall|f: WitFuncDef| #[trigger] constructor_spelled(ks, p0, f, doc) is Some implies
                params_spelled(ks, p0 + 2, f.params@) == Some(q) by {
                lemma_params_end_unique(ks, p0 + 2, params@, f.params@);
            }
        }
        match self.expect(&WitTokenKind::RParen) {
            Ok(()) => {},
            Err(e) => {
                proof {
                    assert forall|f: WitFuncDef| #[trigger] constructor_spelled(ks, p0, f, doc) is None by {
                        if constructor_spelled(ks, p0, f, doc) is Some {
                            assert(params_spelled(ks, p0 + 2, f.params@) == Some(q));
                        }
                    }
                }
                return Err(e);
            },
        }
        match self.expect(&WitTokenKind::Semicolon) {
            Ok(()) => {},
            Err(e) => {
                proof {
                    assert forall|f: WitFuncDef| #[trigger] constructor_spelled(ks, p0, f, doc) is None by {
                        if constructor_spelled(ks, p0, f, doc) is Some {
                            assert(params_spelled(ks, p0 + 2, f.params@) == Some(q));
                        }
                    }
                }
                return Err(e);
            },
        }
        let f = WitFuncDef {
            name: owned("constructor"),
            doc,
            params,
            result: None,
            is_static: false,
            is_constructor: true,
        };
        proof {
            assert(constructor_spelled(ks, p0, f, doc) == Some(self.pos as int));
        }
        Ok(f)
    }

    /// Parses `type name = other-type;`.
    fn parse_type_alias(&mut self, doc: Option<String>) -> (r: Result<WitTypeDef, WitParseError>)
        requires
            old(self).wf(),
        ensures
            final(self).wf(),
            final(self).tokens == old(self).tokens,
            final(self).pos >= old(self).pos,
            r matches Ok(td) ==> typedef_spelled(old(self).kinds(), old(self).pos as int, td, doc)
                == Some(final(self).pos as int),
            r is Ok ==> final(self).pos > old(self).pos,
            r is Err ==> forall|td: WitTypeDef| td.kind is Alias ==> #[trigger] typedef_spelled(old(self).kinds(), old(self).pos as int, td, doc) is None,
            r matches Err(e) ==> alias_res(old(self).kinds(), old(self).pos as int) matches Err((m, i)) && e.message@ == m
                && e.offset == old(self).offset_at(i),
    {
        let ghost ks = self.kinds();
        let ghost p0 = self.pos as int;
        self.expect(&WitTokenKind::Type)?;
        let name = self.expect_ident()?;
        self.expect(&WitTokenKind::Equals)?;
        let target = match self.parse_type_ref() {
            Ok(t) => {
                proof {
                    lemma_type_end(ks, p0 + 3, t);
                }
                t
            },
            Err(e) => {
                proof {
                    assert forall|td: WitTypeDef| td.kind is Alias implies #[trigger] typedef_spelled(ks, p0, td, doc) is None by {
                        assert(type_spelled(ks, p0 + 3, td.kind->Alias_0) is None);
                    }
                }
                return Err(e);
            },
        };
        match self.expect(&WitTokenKind::Semicolon) {
            Ok(()) => {},
            Err(e) => {
                proof {
                    assert forall|td: WitTypeDef| td.kind is Alias implies #[trigger] typedef_spelled(ks, p0, td, doc) is None by {
                        if type_spelled(ks, p0 + 3, td.kind->Alias_0) is Some {
                            lemma_type_end_unique(ks, p0 + 3, target, td.kind->Alias_0);
                        }
                    }
                }
                return Err(e);
            },
        }
        let td = WitTypeDef { name, doc, kind: WitTypeDefKind::Alias(target) };
        proof {
            assert(typedef_spelled(ks, p0, td, doc) == Some(self.pos as int));
        }
        Ok(td)
    }
}


impl WitParser {
    /// Parses the rest of an interface path after `namespace:`, such as
    /// `io/streams@0.2.0`.
    fn parse_extern_path_rest(&mut self, namespace: &str) -> (r: Result<WitExternPath, WitParseError>)
        requires
            old(self).wf(),
        ensures
            final(self).wf(),
            final(self).tokens == old(self).tokens,
            final(self).pos >= old(self).pos,
            match r {
                Ok(p) => extern_path_rest(old(self).kinds(), old(self).pos as int, namespace@) == Some(
                    (p.path@, final(self).pos as int),
                ),
                Err(_) => extern_path_rest(old(self).kinds(), old(self).pos as int, namespace@) is None,
            },
            r is Ok ==> (extern_rest_res(old(self).kinds(), old(self).pos as int) matches Ok(x) && x == final(self).pos),
            r matches Err(e) ==> extern_rest_res(old(self).kinds(), old(self).pos as int) matches Err((m, i)) && e.message@ == m
                && e.offset == old(self).offset_at(i),
    {
        let ghost ks = self.kinds();
        let ghost p0 = self.pos as int;
        let mut path = owned(namespace);
        push_str(&mut path, ":");
        let pkg = self.expect_ident()?;
        push_str(&mut path, pkg.as_str());
        if self.eat(&WitTokenKind::Slash) {
            push_str(&mut path, "/");
            let iface = self.expect_ident()?;
            push_str(&mut path, iface.as_str());
        }
        if self.eat(&WitTokenKind::At) {
            if let WitTokenKind::SemVer(v) = self.peek() {
                push_str(&mut path, "@");
                push_str(&mut path, v.as_str());
                self.advance();
            }
        }
        proof {
            assert(extern_path_rest(ks, p0, namespace@) == Some((path@, self.pos as int)));
        }
        Ok(WitExternPath { path })
    }

    /// Parses `use path.{name [as alias], ...};`.
    #[verifier::spinoff_prover]
    #[verifier::rlimit(100)]
    fn parse_use(&mut self) -> (r: Result<WitUseDecl, WitParseError>)
        requires
            old(self).wf(),
        ensures
            final(self).wf(),
            final(self).tokens == old(self).tokens,
            final(self).pos >= old(self).pos,
            r matches Ok(u) ==> use_spelled(old(self).kinds(), old(self).pos as int, u) == Some(
                final(self).pos as int,
            ),
            r is Ok ==> final(self).pos > old(self).pos,
            r is Err ==> forall|u: WitUseDecl| #[trigger] use_spelled(old(self).kinds(), old(self).pos as int, u) is None,
            r matches Err(e) ==> use_res(old(self).kinds(), old(self).pos as int) matches Err((m, i)) && e.message@ == m
                && e.offset == old(self).offset_at(i),
    {
        let ghost ks = self.kinds();
        let ghost p0 = self.pos as int;
        self.expect(&WitTokenKind::Use)?;
        let first = self.expect_ident()?;
        let from = if self.eat(&WitTokenKind::Colon) {
            self.parse_extern_path_rest(first.as_str())?
        } else {
            WitExternPath { path: first }
        };
        self.expect(&WitTokenKind::Dot)?;
        self.expect(&WitTokenKind::LBrace)?;
        let ghost n0 = self.pos as int;
        let mut names: Vec<WitUseName> = Vec::new();
        let as_kw = ident_kind("as");
        proof {
            assert forall|full: Seq<WitUseName>| #[trigger] use_names_at(ks, n0, full) is Some implies
                use_names_spelled(ks, n0, full.skip(0)) == use_names_at(ks, n0, full) by {
                assert(full.skip(0) =~= full);
            }
            assert forall|u: WitUseDecl| #[trigger] use_spelled(ks, p0, u) is Some implies
                use_names_at(ks, n0, u.names@) is Some by {
            }
        }
        loop
            invariant_except_break
                self.wf(),
                self.tokens == old(self).tokens,
                ks == self.kinds(),
                p0 == old(self).pos,
                p0 < n0 <= self.pos,
                as_kw@ == TokenKindView::Ident("as"@),
                use_res(ks, p0) == semicolon_res(ks, use_names_res(ks, n0)),
                use_names_res(ks, n0) == use_names_res(ks, self.pos as int),
                forall|u: WitUseDecl| #[trigger] use_spelled(ks, p0, u) is Some
                    ==> use_names_at(ks, n0, u.names@) is Some,
                forall|rest: Seq<WitUseName>| #[trigger]
                    use_names_spelled(ks, self.pos as int, rest) == use_names_spelled(
                        ks,
                        n0,
                        names@ + rest,
                    ),
                forall|full: Seq<WitUseName>| #[trigger] use_names_at(ks, n0, full) is Some
                    ==> full.len() >= names@.len() && use_names_spelled(ks, self.pos as int, full.skip(names@.len() as int))
                    == use_names_at(ks, n0, full),
            ensures
                self.wf(),
                self.tokens == old(self).tokens,
                p0 < n0 < self.pos,
                use_names_spelled(ks, n0, names@) == Some(self.pos as int),
                use_res(ks, p0) == semicolon_res(ks, use_names_res(ks, n0)),
                use_names_res(ks, n0) matches Ok(x) && x == self.pos,
                forall|full: Seq<WitUseName>| #[trigger] use_names_at(ks, n0, full) is Some
                    ==> use_names_at(ks, n0, full) == Some(self.pos as int),
            decreases self.tokens@.len() - self.pos,
        {
            let ghost cur = self.pos as int;
            let ghost n = names@.len() as int;
            if self.at(&WitTokenKind::RBrace) {
                self.advance();
                proof {
                    assert(use_names_spelled(ks, cur, Seq::<WitUseName>::empty()) == Some(
                        self.pos as int,
                    ));
                    assert(names@ + Seq::<WitUseName>::empty() =~= names@);
                }
                break;
            }
            let name = match self.expect_ident() {
                Ok(x) => x,
                Err(e) => {
                    proof {
                        assert forall|full: Seq<WitUseName>| #[trigger] use_names_at(ks, n0, full) is None by {
                            if use_names_at(ks, n0, full) is Some {
                                assert(use_names_spelled(ks, cur, full.skip(n)) is Some);
                            }
                        }
                        assert forall|u: WitUseDecl| #[trigger] use_spelled(ks, p0, u) is None by {
                            if use_spelled(ks, p0, u) is Some {
                                assert(use_names_at(ks, n0, u.names@) is Some);
                            }
                        }
                    }
                    return Err(e);
                },
            };
            let alias = if self.at(&as_kw) {
                self.advance();
                match self.expect_ident() {
                    Ok(a) => Some(a),
                    Err(e) => {
                        proof {
                            assert forall|full: Seq<WitUseName>| #[trigger] use_names_at(ks, n0, full) is None by {
                                if use_names_at(ks, n0, full) is Some {
                                    assert(use_names_spelled(ks, cur, full.skip(n)) is Some);
                                }
                            }
                            assert forall|u: WitUseDecl| #[trigger] use_spelled(ks, p0, u) is None by {
                                if use_spelled(ks, p0, u) is Some {
                                    assert(use_names_at(ks, n0, u.names@) is Some);
                                }
                            }
                        }
                        return Err(e);
                    },
                }
            } else {
                None
            };
            let ghost q = self.pos as int;
            let x = WitUseName { name, alias };
            let ghost before = names@;
            if !self.eat(&WitTokenKind::Comma) {
                match self.expect(&WitTokenKind::RBrace) {
                    Ok(()) => {},
                    Err(e) => {
                        proof {
                            assert forall|full: Seq<WitUseName>| #[trigger] use_names_at(ks, n0, full) is None by {
                                if use_names_at(ks, n0, full) is Some {
                                    assert(use_names_spelled(ks, cur, full.skip(n)) is Some);
                                }
                            }
                            assert forall|u: WitUseDecl| #[trigger] use_spelled(ks, p0, u) is None by {
                                if use_spelled(ks, p0, u) is Some {
                                    assert(use_names_at(ks, n0, u.names@) is Some);
                                }
                            }
                        }
                        return Err(e);
                    },
                }
                proof {
                    assert(use_names_spelled(ks, cur, seq![x]) == Some(self.pos as int));
                    assert(before + seq![x] =~= before.push(x));
                    assert forall|full: Seq<WitUseName>| #[trigger] use_names_at(ks, n0, full) is Some
                        implies use_names_at(ks, n0, full) == Some(q + 1) by {
                        assert(use_names_spelled(ks, cur, full.skip(n)) is Some);
                    }
                }
                names.push(x);
                break;
            }
            proof {
                assert forall|rest: Seq<WitUseName>| #[trigger]
                    use_names_spelled(ks, self.pos as int, rest) == use_names_spelled(
                        ks,
                        n0,
                        before.push(x) + rest,
                    ) by {
                    assert((seq![x] + rest).drop_first() =~= rest);
                    assert((seq![x] + rest)[0] == x);
                    assert(use_names_spelled(ks, cur, seq![x] + rest) == use_names_spelled(
                        ks,
                        q + 1,
                        rest,
                    ));
                    assert(before.push(x) + rest =~= before + (seq![x] + rest));
                }
                assert forall|full: Seq<WitUseName>| #[trigger] use_names_at(ks, n0, full) is Some implies
                    full.len() >= n + 1 && use_names_spelled(ks, q + 1, full.skip(n + 1)) == use_names_at(ks, n0, full) by {
                    let sub = full.skip(n);
                    assert(use_names_spelled(ks, cur, sub) is Some);
                    assert(sub.drop_first() =~= full.skip(n + 1));
                }
            }
            names.push(x);
        }
        match self.expect(&WitTokenKind::Semicolon) {
            Ok(()) => {},
            Err(e) => {
                proof {
                    assert forall|u: WitUseDecl| #[trigger] use_spelled(ks, p0, u) is None by {
                        if use_spelled(ks, p0, u) is Some {
                            assert(use_names_at(ks, n0, u.names@) is Some);
                        }
                    }
                }
                return Err(e);
            },
        }
        let u = WitUseDecl { from, names };
        proof {
            assert(use_spelled(ks, p0, u) == Some(self.pos as int));
        }
        Ok(u)
    }

    /// Parses `package namespace:name[@version];`.
    fn parse_package(&mut self) -> (r: Result<WitPackage, WitParseError>)
        requires
            old(self).wf(),
        ensures
            final(self).wf(),
            final(self).tokens == old(self).tokens,
            final(self).pos >= old(self).pos,
            r matches Ok(p) ==> package_spelled(old(self).kinds(), old(self).pos as int, p) == Some(
                final(self).pos as int,
            ),
            r is Ok ==> final(self).pos > old(self).pos,
            r is Err ==> forall|p: WitPackage| #[trigger] package_spelled(old(self).kinds(), old(self).pos as int, p) is None,
            r matches Err(e) ==> package_res(old(self).kinds(), old(self).pos as int) matches Err((m, i)) && e.message@ == m
                && e.offset == old(self).offset_at(i),
    {
        let ghost ks = self.kinds();
        let ghost p0 = self.pos as int;
        self.expect(&WitTokenKind::Package)?;
        let namespace = self.expect_ident()?;
        self.expect(&WitTokenKind::Colon)?;
        let name = self.expect_ident()?;
        let version = if self.eat(&WitTokenKind::At) {
            match self.peek() {
                WitTokenKind::SemVer(v) => {
                    self.advance();
                    Some(v)
                },
                other => {
                    let mut message = owned("expected version after `@`, found `");
                    let f = other.to_string();
                    push_str(&mut message, f.as_str());
                    push_str(&mut message, "`");
                    return Err(WitParseError { message, offset: self.offset() });
                },
            }
        } else {
            None
        };
        self.expect(&WitTokenKind::Semicolon)?;
        let p = WitPackage { namespace, name, version };
        proof {
            assert(package_spelled(ks, p0, p) == Some(self.pos as int));
        }
        Ok(p)
    }

    #[verifier::spinoff_prover]
    #[verifier::rlimit(100)]
    fn parse_record(&mut self, doc: Option<String>) -> (r: Result<WitTypeDef, WitParseError>)
        requires
            old(self).wf(),
        ensures
            final(self).wf(),
            final(self).tokens == old(self).tokens,
            final(self).pos >= old(self).pos,
            r matches Ok(td) ==> typedef_spelled(old(self).kinds(), old(self).pos as int, td, doc)
                == Some(final(self).pos as int),
            r is Ok ==> final(self).pos > old(self).pos,
            r is Err ==> forall|td: WitTypeDef| td.kind is Record ==> #[trigger] typedef_spelled(old(self).kinds(), old(self).pos as int, td, doc) is None,
            r matches Err(e) ==> typedef_res(old(self).kinds(), old(self).pos as int, TokenKindView::Record) matches Err((m, i))
                && e.message@ == m && e.offset == old(self).offset_at(i),
    {
        let ghost ks = self.kinds();
        let ghost p0 = self.pos as int;
        self.expect(&WitTokenKind::Record)?;
        let name = self.expect_ident()?;
        self.expect(&WitTokenKind::LBrace)?;
        let ghost f0 = self.pos as int;
        let mut fields: Vec<WitRecordField> = Vec::new();
        proof {
            assert forall|full: Seq<WitRecordField>| #[trigger] fields_at(ks, f0, full) is Some implies
                fields_spelled(ks, f0, full.skip(0)) == fields_at(ks, f0, full) by {
                assert(full.skip(0) =~= full);
            }
        }
        loop
            invariant_except_break
                self.wf(),
                self.tokens == old(self).tokens,
                ks == self.kinds(),
                p0 == old(self).pos,
                p0 < f0 <= self.pos,
                typedef_res(ks, p0, TokenKindView::Record) == record_fields_res(ks, self.pos as int),
                f0 == p0 + 3,
                forall|full: Seq<WitRecordField>| #[trigger] fields_at(ks, f0, full) is Some
                    ==> full.len() >= fields@.len() && fields_spelled(ks, self.pos as int, full.skip(fields@.len() as int))
                    == fields_at(ks, f0, full),
                forall|rest: Seq<WitRecordField>| #[trigger]
                    fields_spelled(ks, self.pos as int, rest) == fields_spelled(ks, f0, fields@ + rest),
            ensures
                self.wf(),
                self.tokens == old(self).tokens,
                p0 < f0 < self.pos,
                fields_spelled(ks, f0, fields@) == Some(self.pos as int),
            decreases self.tokens@.len() - self.pos,
        {
            let ghost cur = self.pos as int;
            let ghost n = fields@.len() as int;
            let field_doc = self.take_doc();
            let ghost d = self.pos as int;
            if self.at(&WitTokenKind::RBrace) {
                self.advance();
                proof {
                    assert(fields_spelled(ks, cur, Seq::<WitRecordField>::empty()) == Some(self.pos as int));
                    assert(fields@ + Seq::<WitRecordField>::empty() =~= fields@);
                }
                break;
            }
            let field_name = match self.expect_ident() {
                Ok(x) => x,
                Err(e) => {
                    proof {
                        assert forall|full: Seq<WitRecordField>| #[trigger] fields_at(ks, f0, full) is None by {
                            if fields_at(ks, f0, full) is Some {
                                assert(fields_spelled(ks, cur, full.skip(n)) is Some);
                            }
                        }
                        assert forall|td: WitTypeDef| td.kind is Record implies #[trigger] typedef_spelled(ks, p0, td, doc) is None by {
                            if typedef_spelled(ks, p0, td, doc) is Some {
                                assert(fields_at(ks, f0, td.kind->Record_0@) is Some);
                            }
                        }
                    }
                    return Err(e);
                },
            };
            match self.expect(&WitTokenKind::Colon) {
                Ok(()) => {},
                Err(e) => {
                    proof {
                        assert forall|full: Seq<WitRecordField>| #[trigger] fields_at(ks, f0, full) is None by {
                            if fields_at(ks, f0, full) is Some {
                                assert(fields_spelled(ks, cur, full.skip(n)) is Some);
                            }
                        }
                        assert forall|td: WitTypeDef| td.kind is Record implies #[trigger] typedef_spelled(ks, p0, td, doc) is None by {
                            if typedef_spelled(ks, p0, td, doc) is Some {
                                assert(fields_at(ks, f0, td.kind->Record_0@) is Some);
                            }
                        }
                    }
                    return Err(e);
                },
            }
            let ty = match self.parse_type_ref() {
                Ok(x) => x,
                Err(e) => {
                    proof {
                        assert forall|full: Seq<WitRecordField>| #[trigger] fields_at(ks, f0, full) is None by {
                            if fields_at(ks, f0, full) is Some {
                                assert(fields_spelled(ks, cur, full.skip(n)) is Some);
                            assert(type_spelled(ks, d + 2, full.skip(n)[0].ty) is None);
                            }
                        }
                        assert forall|td: WitTypeDef| td.kind is Record implies #[trigger] typedef_spelled(ks, p0, td, doc) is None by {
                            if typedef_spelled(ks, p0, td, doc) is Some {
                                assert(fields_at(ks, f0, td.kind->Record_0@) is Some);
                            }
                        }
                    }
                    return Err(e);
                },
            };
            let ghost rr = self.pos as int;
            proof {
                lemma_type_end(ks, d + 2, ty);
            }
            proof {
                assert forall|full: Seq<WitRecordField>| #[trigger] fields_at(ks, f0, full) is Some implies
                    type_spelled(ks, d + 2, full.skip(n)[0].ty) == Some(rr) by {
                    assert(fields_spelled(ks, cur, full.skip(n)) is Some);
                    lemma_type_end_unique(ks, d + 2, ty, full.skip(n)[0].ty);
                }
            }
            let x = WitRecordField { name: field_name, ty, doc: field_doc };
            let ghost before = fields@;
            if !self.eat(&WitTokenKind::Comma) {
                match self.expect(&WitTokenKind::RBrace) {
                    Ok(()) => {},
                    Err(e) => {
                        proof {
                            assert forall|full: Seq<WitRecordField>| #[trigger] fields_at(ks, f0, full) is None by {
                                if fields_at(ks, f0, full) is Some {
                                    assert(fields_spelled(ks, cur, full.skip(n)) is Some);
                                }
                            }
                            assert forall|td: WitTypeDef| td.kind is Record implies #[trigger] typedef_spelled(ks, p0, td, doc) is None by {
                                if typedef_spelled(ks, p0, td, doc) is Some {
                                    assert(fields_at(ks, f0, td.kind->Record_0@) is Some);
                                }
                            }
                        }
                        return Err(e);
                    },
                }
                proof {
                    assert(seq![x].drop_first() =~= Seq::<WitRecordField>::empty());
                    assert(fields_spelled(ks, cur, seq![x]) == Some(self.pos as int));
                    assert(before + seq![x] =~= before.push(x));
                }
                fields.push(x);
                break;
            }
            proof {
                assert(record_fields_res(ks, cur) == record_fields_res(ks, rr + 1));
                assert forall|rest: Seq<WitRecordField>| #[trigger]
                    fields_spelled(ks, self.pos as int, rest) == fields_spelled(ks, f0, before.push(x) + rest) by {
                    assert((seq![x] + rest).drop_first() =~= rest);
                    assert((seq![x] + rest)[0] == x);
                    assert(fields_spelled(ks, cur, seq![x] + rest) == fields_spelled(ks, rr + 1, rest));
                    assert(before.push(x) + rest =~= before + (seq![x] + rest));
                }
                assert forall|full: Seq<WitRecordField>| #[trigger] fields_at(ks, f0, full) is Some implies
                    full.len() >= n + 1 && fields_spelled(ks, self.pos as int, full.skip(n + 1)) == fields_at(ks, f0, full) by {
                    let sub = full.skip(n);
                    assert(fields_spelled(ks, cur, sub) is Some);
                    assert(sub.drop_first() =~= full.skip(n + 1));
                }
            }
            fields.push(x);
        }
        let td = WitTypeDef { name, doc, kind: WitTypeDefKind::Record(fields) };
        proof {
            assert(typedef_spelled(ks, p0, td, doc) == Some(self.pos as int));
        }
        Ok(td)
    }

    #[verifier::spinoff_prover]
    #[verifier::rlimit(100)]
    fn parse_enum(&mut self, doc: Option<String>) -> (r: Result<WitTypeDef, WitParseError>)
        requires
            old(self).wf(),
        ensures
            final(self).wf(),
            final(self).tokens == old(self).tokens,
            final(self).pos >= old(self).pos,
            r matches Ok(td) ==> typedef_spelled(old(self).kinds(), old(self).pos as int, td, doc)
                == Some(final(self).pos as int),
            r is Ok ==> final(self).pos > old(self).pos,
            r is Err ==> forall|td: WitTypeDef| td.kind is Enum ==> #[trigger] typedef_spelled(old(self).kinds(), old(self).pos as int, td, doc) is None,
            r matches Err(e) ==> typedef_res(old(self).kinds(), old(self).pos as int, TokenKindView::Enum) matches Err((m, i))
                && e.message@ == m && e.offset == old(self).offset_at(i),
    {
        let ghost ks = self.kinds();
        let ghost p0 = self.pos as int;
        self.expect(&WitTokenKind::Enum)?;
        let name = self.expect_ident()?;
        self.expect(&WitTokenKind::LBrace)?;
        let ghost f0 = self.pos as int;
        let mut cases: Vec<WitEnumCase> = Vec::new();
        proof {
            assert forall|full: Seq<WitEnumCase>| #[trigger] enum_cases_at(ks, f0, full) is Some implies
                enum_cases_spelled(ks, f0, full.skip(0)) == enum_cases_at(ks, f0, full) by {
                assert(full.skip(0) =~= full);
            }
        }
        loop
            invariant_except_break
                self.wf(),
                self.tokens == old(self).tokens,
                ks == self.kinds(),
                p0 == old(self).pos,
                p0 < f0 <= self.pos,
                typedef_res(ks, p0, TokenKindView::Enum) == names_res(ks, self.pos as int),
                f0 == p0 + 3,
                forall|full: Seq<WitEnumCase>| #[trigger] enum_cases_at(ks, f0, full) is Some
                    ==> full.len() >= cases@.len() && enum_cases_spelled(ks, self.pos as int, full.skip(cases@.len() as int))
                    == enum_cases_at(ks, f0, full),
                forall|rest: Seq<WitEnumCase>| #[trigger]
                    enum_cases_spelled(ks, self.pos as int, rest) == enum_cases_spelled(ks, f0, cases@ + rest),
            ensures
                self.wf(),
                self.tokens == old(self).tokens,
                p0 < f0 < self.pos,
                enum_cases_spelled(ks, f0, cases@) == Some(self.pos as int),
            decreases self.tokens@.len() - self.pos,
        {
            let ghost cur = self.pos as int;
            let ghost n = cases@.len() as int;
            let case_doc = self.take_doc();
            let ghost d = self.pos as int;
            if self.at(&WitTokenKind::RBrace) {
                self.advance();
                proof {
                    assert(enum_cases_spelled(ks, cur, Seq::<WitEnumCase>::empty()) == Some(self.pos as int));
                    assert(cases@ + Seq::<WitEnumCase>::empty() =~= cases@);
                }
                break;
            }
            let case_name = match self.expect_ident() {
                Ok(x) => x,
                Err(e) => {
                    proof {
                        assert forall|full: Seq<WitEnumCase>| #[trigger] enum_cases_at(ks, f0, full) is None by {
                            if enum_cases_at(ks, f0, full) is Some {
                                assert(enum_cases_spelled(ks, cur, full.skip(n)) is Some);
                            }
                        }
                        assert forall|td: WitTypeDef| td.kind is Enum implies #[trigger] typedef_spelled(ks, p0, td, doc) is None by {
                            if typedef_spelled(ks, p0, td, doc) is Some {
                                assert(enum_cases_at(ks, f0, td.kind->Enum_0@) is Some);
                            }
                        }
                    }
                    return Err(e);
                },
            };
            let ghost rr = self.pos as int;
            let x = WitEnumCase { name: case_name, doc: case_doc };
            let ghost before = cases@;
            if !self.eat(&WitTokenKind::Comma) {
                match self.expect(&WitTokenKind::RBrace) {
                    Ok(()) => {},
                    Err(e) => {
                        proof {
                            assert forall|full: Seq<WitEnumCase>| #[trigger] enum_cases_at(ks, f0, full) is None by {
                                if enum_cases_at(ks, f0, full) is Some {
                                    assert(enum_cases_spelled(ks, cur, full.skip(n)) is Some);
                                }
                            }
                            assert forall|td: WitTypeDef| td.kind is Enum implies #[trigger] typedef_spelled(ks, p0, td, doc) is None by {
                                if typedef_spelled(ks, p0, td, doc) is Some {
                                    assert(enum_cases_at(ks, f0, td.kind->Enum_0@) is Some);
                                }
                            }
                        }
                        return Err(e);
                    },
                }
                proof {
                    assert(seq![x].drop_first() =~= Seq::<WitEnumCase>::empty());
                    assert(enum_cases_spelled(ks, cur, seq![x]) == Some(self.pos as int));
                    assert(before + seq![x] =~= before.push(x));
                }
                cases.push(x);
                break;
            }
            proof {
                assert(names_res(ks, cur) == names_res(ks, rr + 1));
                assert forall|rest: Seq<WitEnumCase>| #[trigger]
                    enum_cases_spelled(ks, self.pos as int, rest) == enum_cases_spelled(ks, f0, before.push(x) + rest) by {
                    assert((seq![x] + rest).drop_first() =~= rest);
                    assert((seq![x] + rest)[0] == x);
                    assert(enum_cases_spelled(ks, cur, seq![x] + rest) == enum_cases_spelled(ks, rr + 1, rest));
                    assert(before.push(x) + rest =~= before + (seq![x] + rest));
                }
                assert forall|full: Seq<WitEnumCase>| #[trigger] enum_cases_at(ks, f0, full) is Some implies
                    full.len() >= n + 1 && enum_cases_spelled(ks, self.pos as int, full.skip(n + 1)) == enum_cases_at(ks, f0, full) by {
                    let sub = full.skip(n);
                    assert(enum_cases_spelled(ks, cur, sub) is Some);
                    assert(sub.drop_first() =~= full.skip(n + 1));
                }
            }
            cases.push(x);
        }
        let td = WitTypeDef { name, doc, kind: WitTypeDefKind::Enum(cases) };
        proof {
            assert(typedef_spelled(ks, p0, td, doc) == Some(self.pos as int));
        }
        Ok(td)
    }

    #[verifier::spinoff_prover]
    #[verifier::rlimit(100)]
    fn parse_variant(&mut self, doc: Option<String>) -> (r: Result<WitTypeDef, WitParseError>)
        requires
            old(self).wf(),
        ensures
            final(self).wf(),
            final(self).tokens == old(self).tokens,
            final(self).pos >= old(self).pos,
            r matches Ok(td) ==> typedef_spelled(old(self).kinds(), old(self).pos as int, td, doc)
                == Some(final(self).pos as int),
            r is Ok ==> final(self).pos > old(self).pos,
            r is Err ==> forall|td: WitTypeDef| td.kind is Variant ==> #[trigger] typedef_spelled(old(self).kinds(), old(self).pos as int, td, doc) is None,
            r matches Err(e) ==> typedef_res(old(self).kinds(), old(self).pos as int, TokenKindView::Variant) matches Err((m, i))
                && e.message@ == m && e.offset == old(self).offset_at(i),
    {
        let ghost ks = self.kinds();
        let ghost p0 = self.pos as int;
        self.expect(&WitTokenKind::Variant)?;
        let name = self.expect_ident()?;
        self.expect(&WitTokenKind::LBrace)?;
        let ghost f0 = self.pos as int;
        let mut cases: Vec<WitVariantCase> = Vec::new();
        proof {
            assert forall|full: Seq<WitVariantCase>| #[trigger] variant_cases_at(ks, f0, full) is Some implies
                variant_cases_spelled(ks, f0, full.skip(0)) == variant_cases_at(ks, f0, full) by {
                assert(full.skip(0) =~= full);
            }
        }
        loop
            invariant_except_break
                self.wf(),
                self.tokens == old(self).tokens,
                ks == self.kinds(),
                p0 == old(self).pos,
                p0 < f0 <= self.pos,
                typedef_res(ks, p0, TokenKindView::Variant) == variant_cases_res(ks, self.pos as int),
                f0 == p0 + 3,
                forall|full: Seq<WitVariantCase>| #[trigger] variant_cases_at(ks, f0, full) is Some
                    ==> full.len() >= cases@.len() && variant_cases_spelled(ks, self.pos as int, full.skip(cases@.len() as int))
                    == variant_cases_at(ks, f0, full),
                forall|rest: Seq<WitVariantCase>| #[trigger]
                    variant_cases_spelled(ks, self.pos as int, rest) == variant_cases_spelled(ks, f0, cases@ + rest),
            ensures
                self.wf(),
                self.tokens == old(self).tokens,
                p0 < f0 < self.pos,
                variant_cases_spelled(ks, f0, cases@) == Some(self.pos as int),
            decreases self.tokens@.len() - self.pos,
        {
            let ghost cur = self.pos as int;
            let ghost n = cases@.len() as int;
            let case_doc = self.take_doc();
            let ghost d = self.pos as int;
            if self.at(&WitTokenKind::RBrace) {
                self.advance();
                proof {
                    assert(variant_cases_spelled(ks, cur, Seq::<WitVariantCase>::empty()) == Some(self.pos as int));
                    assert(cases@ + Seq::<WitVariantCase>::empty() =~= cases@);
                }
                break;
            }
            let case_name = match self.expect_ident() {
                Ok(x) => x,
                Err(e) => {
                    proof {
                        assert forall|full: Seq<WitVariantCase>| #[trigger] variant_cases_at(ks, f0, full) is None by {
                            if variant_cases_at(ks, f0, full) is Some {
                                assert(variant_cases_spelled(ks, cur, full.skip(n)) is Some);
                            }
                        }
                        assert forall|td: WitTypeDef| td.kind is Variant implies #[trigger] typedef_spelled(ks, p0, td, doc) is None by {
                            if typedef_spelled(ks, p0, td, doc) is Some {
                                assert(variant_cases_at(ks, f0, td.kind->Variant_0@) is Some);
                            }
                        }
                    }
                    return Err(e);
                },
            };
            let payload = if self.eat(&WitTokenKind::LParen) {
                let ty = match self.parse_type_ref() {
                    Ok(x) => x,
                    Err(e) => {
                        proof {
                            assert forall|full: Seq<WitVariantCase>| #[trigger] variant_cases_at(ks, f0, full) is None by {
                                if variant_cases_at(ks, f0, full) is Some {
                                    assert(variant_cases_spelled(ks, cur, full.skip(n)) is Some);
                                assert(type_spelled(ks, d + 2, full.skip(n)[0].ty->0) is None);
                                }
                            }
                            assert forall|td: WitTypeDef| td.kind is Variant implies #[trigger] typedef_spelled(ks, p0, td, doc) is None by {
                                if typedef_spelled(ks, p0, td, doc) is Some {
                                    assert(variant_cases_at(ks, f0, td.kind->Variant_0@) is Some);
                                }
                            }
                        }
                        return Err(e);
                    },
                };
                let ghost e0 = self.pos as int;
                proof {
                    lemma_type_end(ks, d + 2, ty);
                }
                proof {
                    assert forall|full: Seq<WitVariantCase>| #[trigger] variant_cases_at(ks, f0, full) is Some implies
                        type_spelled(ks, d + 2, full.skip(n)[0].ty->0) == Some(e0) by {
                        assert(variant_cases_spelled(ks, cur, full.skip(n)) is Some);
                        lemma_type_end_unique(ks, d + 2, ty, full.skip(n)[0].ty->0);
                    }
                }
                match self.expect(&WitTokenKind::RParen) {
                    Ok(()) => {},
                    Err(e) => {
                        proof {
                            assert forall|full: Seq<WitVariantCase>| #[trigger] variant_cases_at(ks, f0, full) is None by {
                                if variant_cases_at(ks, f0, full) is Some {
                                    assert(variant_cases_spelled(ks, cur, full.skip(n)) is Some);
                                assert(type_spelled(ks, d + 2, full.skip(n)[0].ty->0) == Some(e0));
                                }
                            }
                            assert forall|td: WitTypeDef| td.kind is Variant implies #[trigger] typedef_spelled(ks, p0, td, doc) is None by {
                                if typedef_spelled(ks, p0, td, doc) is Some {
                                    assert(variant_cases_at(ks, f0, td.kind->Variant_0@) is Some);
                                }
                            }
                        }
                        return Err(e);
                    },
                }
                Some(ty)
            } else {
                None
            };
            let ghost rr = self.pos as int;
            proof {
                assert forall|full: Seq<WitVariantCase>| #[trigger] variant_cases_at(ks, f0, full) is Some implies
                    variant_cases_spelled(ks, cur, full.skip(n)) is Some && (if tok(ks, d + 1) == TokenKindView::LParen {
                        type_spelled(ks, d + 2, full.skip(n)[0].ty->0) == Some((rr - 1) as int)
                    } else { rr == d + 1 }) by {
                    assert(variant_cases_spelled(ks, cur, full.skip(n)) is Some);
                }
            }
            let x = WitVariantCase { name: case_name, ty: payload, doc: case_doc };
            let ghost before = cases@;
            if !self.eat(&WitTokenKind::Comma) {
                match self.expect(&WitTokenKind::RBrace) {
                    Ok(()) => {},
                    Err(e) => {
                        proof {
                            assert forall|full: Seq<WitVariantCase>| #[trigger] variant_cases_at(ks, f0, full) is None by {
                                if variant_cases_at(ks, f0, full) is Some {
                                    assert(variant_cases_spelled(ks, cur, full.skip(n)) is Some);
                                }
                            }
                            assert forall|td: WitTypeDef| td.kind is Variant implies #[trigger] typedef_spelled(ks, p0, td, doc) is None by {
                                if typedef_spelled(ks, p0, td, doc) is Some {
                                    assert(variant_cases_at(ks, f0, td.kind->Variant_0@) is Some);
                                }
                            }
                        }
                        return Err(e);
                    },
                }
                proof {
                    assert(seq![x].drop_first() =~= Seq::<WitVariantCase>::empty());
                    assert(variant_cases_spelled(ks, cur, seq![x]) == Some(self.pos as int));
                    assert(before + seq![x] =~= before.push(x));
                }
                cases.push(x);
                break;
            }
            proof {
                assert(variant_cases_res(ks, cur) == variant_cases_res(ks, rr + 1));
                assert forall|rest: Seq<WitVariantCase>| #[trigger]
                    variant_cases_spelled(ks, self.pos as int, rest) == variant_cases_spelled(ks, f0, before.push(x) + rest) by {
                    assert((seq![x] + rest).drop_first() =~= rest);
                    assert((seq![x] + rest)[0] == x);
                    assert(variant_cases_spelled(ks, cur, seq![x] + rest) == variant_cases_spelled(ks, rr + 1, rest));
                    assert(before.push(x) + rest =~= before + (seq![x] + rest));
                }
                assert forall|full: Seq<WitVariantCase>| #[trigger] variant_cases_at(ks, f0, full) is Some implies
                    full.len() >= n + 1 && variant_cases_spelled(ks, self.pos as int, full.skip(n + 1)) == variant_cases_at(ks, f0, full) by {
                    let sub = full.skip(n);
                    assert(variant_cases_spelled(ks, cur, sub) is Some);
                    assert(sub.drop_first() =~= full.skip(n + 1));
                }
            }
            cases.push(x);
        }
        let td = WitTypeDef { name, doc, kind: WitTypeDefKind::Variant(cases) };
        proof {
            assert(typedef_spelled(ks, p0, td, doc) == Some(self.pos as int));
        }
        Ok(td)
    }

    #[verifier::spinoff_prover]
    #[verifier::rlimit(100)]
    fn parse_flags(&mut self, doc: Option<String>) -> (r: Result<WitTypeDef, WitParseError>)
        requires
            old(self).wf(),
        ensures
            final(self).wf(),
            final(self).tokens == old(self).tokens,
            final(self).pos >= old(self).pos,
            r matches Ok(td) ==> typedef_spelled(old(self).kinds(), old(self).pos as int, td, doc)
                == Some(final(self).pos as int),
            r is Ok ==> final(self).pos > old(self).pos,
            r is Err ==> forall|td: WitTypeDef| td.kind is Flags ==> #[trigger] typedef_spelled(old(self).kinds(), old(self).pos as int, td, doc) is None,
            r matches Err(e) ==> typedef_res(old(self).kinds(), old(self).pos as int, TokenKindView::Flags) matches Err((m, i))
                && e.message@ == m && e.offset == old(self).offset_at(i),
    {
        let ghost ks = self.kinds();
        let ghost p0 = self.pos as int;
        self.expect(&WitTokenKind::Flags)?;
        let name = self.expect_ident()?;
        self.expect(&WitTokenKind::LBrace)?;
        let ghost f0 = self.pos as int;
        let mut flags: Vec<String> = Vec::new();
        proof {
            assert forall|full: Seq<String>| #[trigger] flags_at(ks, f0, full) is Some implies
                flags_spelled(ks, f0, full.skip(0)) == flags_at(ks, f0, full) by {
                assert(full.skip(0) =~= full);
            }
        }
        loop
            invariant_except_break
                self.wf(),
                self.tokens == old(self).tokens,
                ks == self.kinds(),
                p0 == old(self).pos,
                p0 < f0 <= self.pos,
                typedef_res(ks, p0, TokenKindView::Flags) == names_res(ks, self.pos as int),
                f0 == p0 + 3,
                forall|full: Seq<String>| #[trigger] flags_at(ks, f0, full) is Some
                    ==> full.len() >= flags@.len() && flags_spelled(ks, self.pos as int, full.skip(flags@.len() as int))
                    == flags_at(ks, f0, full),
                forall|rest: Seq<String>| #[trigger]
                    flags_spelled(ks, self.pos as int, rest) == flags_spelled(ks, f0, flags@ + rest),
            ensures
                self.wf(),
                self.tokens == old(self).tokens,
                p0 < f0 < self.pos,
                flags_spelled(ks, f0, flags@) == Some(self.pos as int),
            decreases self.tokens@.len() - self.pos,
        {
            let ghost cur = self.pos as int;
            let ghost n = flags@.len() as int;
            let _flag_doc = self.take_doc();
            let ghost d = self.pos as int;
            if self.at(&WitTokenKind::RBrace) {
                self.advance();
                proof {
                    assert(flags_spelled(ks, cur, Seq::<String>::empty()) == Some(self.pos as int));
                    assert(flags@ + Seq::<String>::empty() =~= flags@);
                }
                break;
            }
            let flag_name = match self.expect_ident() {
                Ok(x) => x,
                Err(e) => {
                    proof {
                        assert forall|full: Seq<String>| #[trigger] flags_at(ks, f0, full) is None by {
                            if flags_at(ks, f0, full) is Some {
                                assert(flags_spelled(ks, cur, full.skip(n)) is Some);
                            }
                        }
                        assert forall|td: WitTypeDef| td.kind is Flags implies #[trigger] typedef_spelled(ks, p0, td, doc) is None by {
                            if typedef_spelled(ks, p0, td, doc) is Some {
                                assert(flags_at(ks, f0, td.kind->Flags_0@) is Some);
                            }
                        }
                    }
                    return Err(e);
                },
            };
            let ghost rr = self.pos as int;
            let x = flag_name;
            let ghost before = flags@;
            if !self.eat(&WitTokenKind::Comma) {
                match self.expect(&WitTokenKind::RBrace) {
                    Ok(()) => {},
                    Err(e) => {
                        proof {
                            assert forall|full: Seq<String>| #[trigger] flags_at(ks, f0, full) is None by {
                                if flags_at(ks, f0, full) is Some {
                                    assert(flags_spelled(ks, cur, full.skip(n)) is Some);
                                }
                            }
                            assert forall|td: WitTypeDef| td.kind is Flags implies #[trigger] typedef_spelled(ks, p0, td, doc) is None by {
                                if typedef_spelled(ks, p0, td, doc) is Some {
                                    assert(flags_at(ks, f0, td.kind->Flags_0@) is Some);
                                }
                            }
                        }
                        return Err(e);
                    },
                }
                proof {
                    assert(seq![x].drop_first() =~= Seq::<String>::empty());
                    assert(flags_spelled(ks, cur, seq![x]) == Some(self.pos as int));
                    assert(before + seq![x] =~= before.push(x));
                }
                flags.push(x);
                break;
            }
            proof {
                assert(names_res(ks, cur) == names_res(ks, rr + 1));
                assert forall|rest: Seq<String>| #[trigger]
                    flags_spelled(ks, self.pos as int, rest) == flags_spelled(ks, f0, before.push(x) + rest) by {
                    assert((seq![x] + rest).drop_first() =~= rest);
                    assert((seq![x] + rest)[0] == x);
                    assert(flags_spelled(ks, cur, seq![x] + rest) == flags_spelled(ks, rr + 1, rest));
                    assert(before.push(x) + rest =~= before + (seq![x] + rest));
                }
                assert forall|full: Seq<String>| #[trigger] flags_at(ks, f0, full) is Some implies
                    full.len() >= n + 1 && flags_spelled(ks, self.pos as int, full.skip(n + 1)) == flags_at(ks, f0, full) by {
                    let sub = full.skip(n);
                    assert(flags_spelled(ks, cur, sub) is Some);
                    assert(sub.drop_first() =~= full.skip(n + 1));
                }
            }
            flags.push(x);
        }
        let td = WitTypeDef { name, doc, kind: WitTypeDefKind::Flags(flags) };
        proof {
            assert(typedef_spelled(ks, p0, td, doc) == Some(self.pos as int));
        }
        Ok(td)
    }
}


/// `kw name: func(...) -> ...;` spelled from `pos`, naming an inline function.
pub open spec fn func_ref_spelled(
    ks: Seq<TokenKindView>,
    pos: int,
    kw: TokenKindView,
    name: Seq<char>,
    f: WitFuncDef,
) -> Option<int> {
    if tok(ks, pos) == kw && tok(ks, pos + 1) == TokenKindView::Ident(name) && tok(ks, pos + 2)
        == TokenKindView::Colon && tok(ks, pos + 3) == TokenKindView::Func && f.name@ == name
        && f.doc is None && !f.is_static && !f.is_constructor {
        match func_sig_spelled(ks, pos + 3, f) {
            Some(e) => if tok(ks, e) == TokenKindView::Semicolon {
                Some(e + 1)
            } else {
                None
            },
            None => None,
        }
    } else {
        None
    }
}

/// `kw name;` or `kw ns:pkg/iface@ver;` spelled from `pos`, naming `path`.
pub open spec fn path_ref_spelled(
    ks: Seq<TokenKindView>,
    pos: int,
    kw: TokenKindView,
    path: Seq<char>,
) -> Option<int> {
    if tok(ks, pos) == kw && tok(ks, pos + 1) is Ident {
        let n = tok(ks, pos + 1)->Ident_0;
        if tok(ks, pos + 2) == TokenKindView::Colon && tok(ks, pos + 3) != TokenKindView::Func {
            match extern_path_rest(ks, pos + 3, n) {
                Some((pth, e)) => if pth == path && tok(ks, e) == TokenKindView::Semicolon {
                    Some(e + 1)
                } else {
                    None
                },
                None => None,
            }
        } else if tok(ks, pos + 2) == TokenKindView::Semicolon && path == n {
            Some(pos + 3)
        } else {
            None
        }
    } else {
        None
    }
}

/// A world `import` spelled from `pos`.
pub open spec fn import_spelled(ks: Seq<TokenKindView>, pos: int, i: WitWorldImport) -> Option<int> {
    match i {
        WitWorldImport::InterfacePath(p) => path_ref_spelled(ks, pos, TokenKindView::Import, p.path@),
        WitWorldImport::Func { name, func } => func_ref_spelled(
            ks,
            pos,
            TokenKindView::Import,
            name@,
            func,
        ),
    }
}

/// A world `export` spelled from `pos`.
pub open spec fn export_spelled(ks: Seq<TokenKindView>, pos: int, x: WitWorldExport) -> Option<int> {
    match x {
        WitWorldExport::InterfacePath(p) => path_ref_spelled(ks, pos, TokenKindView::Export, p.path@),
        WitWorldExport::Func { name, func } => func_ref_spelled(
            ks,
            pos,
            TokenKindView::Export,
            name@,
            func,
        ),
    }
}

/// The shape every resource member has: methods are neither static nor
/// constructors, statics are static, and the constructor is a constructor.
pub open spec fn resource_members_ok(r: WitResourceDef) -> bool {
    &&& (r.constructor matches Some(c) ==> (c.is_constructor && !c.is_static && c.name@
        == "constructor"@ && c.result is None))
    &&& forall|i: int| 0 <= i < r.methods@.len() ==> !(#[trigger] r.methods@[i]).is_static
        && !r.methods@[i].is_constructor
    &&& forall|i: int| 0 <= i < r.statics@.len() ==> (#[trigger] r.statics@[i]).is_static
        && !r.statics@[i].is_constructor
}

/// A resource member read from `pos` to `end`, after the doc comments at
/// `pos`, which become its doc: a constructor or a function.
pub open spec fn member_at(ks: Seq<TokenKindView>, pos: int, end: int, f: WitFuncDef) -> bool {
    let p = doc_end(ks, pos);
    doc_matches(f.doc, ks, pos) && (func_item_spelled(ks, p, f, f.doc) == Some(end) || constructor_spelled(
        ks,
        p,
        f,
        f.doc,
    ) == Some(end))
}

/// The resource members read in order from `pos` to `end`.
pub open spec fn members_at(ks: Seq<TokenKindView>, pos: int, end: int, ms: Seq<WitFuncDef>) -> bool
    decreases ms.len(),
{
    if ms.len() == 0 {
        end == pos
    } else {
        exists|mid: int| #[trigger] member_at(ks, mid, end, ms.last()) && members_at(ks, pos, mid, ms.drop_last())
    }
}

/// Where the members go: the last constructor, then the other functions
/// in order, static ones apart.
pub open spec fn resource_of(ms: Seq<WitFuncDef>) -> (Option<WitFuncDef>, Seq<WitFuncDef>, Seq<WitFuncDef>)
    decreases ms.len(),
{
    if ms.len() == 0 {
        (None, Seq::empty(), Seq::empty())
    } else {
        let (c, m, st) = resource_of(ms.drop_last());
        let f = ms.last();
        if f.is_constructor {
            (Some(f), m, st)
        } else if f.is_static {
            (c, m, st.push(f))
        } else {
            (c, m.push(f), st)
        }
    }
}

/// A resource definition read from `pos` to `end`: `resource name;` with no
/// members, or `resource name { members }`.
pub open spec fn resource_shape(
    ks: Seq<TokenKindView>,
    pos: int,
    end: int,
    td: WitTypeDef,
    doc: Option<String>,
) -> bool {
    &&& td.doc == doc
    &&& tok(ks, pos) == TokenKindView::Resource
    &&& tok(ks, pos + 1) == TokenKindView::Ident(td.name@)
    &&& match td.kind {
        WitTypeDefKind::Resource(rd) => {
            &&& resource_members_ok(rd)
            &&& if tok(ks, pos + 2) == TokenKindView::Semicolon {
                end == pos + 3 && rd.constructor is None && rd.methods@.len() == 0
                    && rd.statics@.len() == 0
            } else {
                &&& tok(ks, pos + 2) == TokenKindView::LBrace
                &&& pos + 3 < end
                &&& tok(ks, end - 1) == TokenKindView::RBrace
                &&& exists|body_end: int, ms: Seq<WitFuncDef>|
                    #[trigger] members_at(ks, pos + 3, body_end, ms) && tok(ks, doc_end(ks, body_end))
                        == TokenKindView::RBrace && end == doc_end(ks, body_end) + 1 && resource_of(ms) == (
                        rd.constructor,
                        rd.methods@,
                        rd.statics@,
                    )
            }
        },
        _ => false,
    }
}

/// The message for a token that cannot start an item of `what`.
pub open spec fn unexpected_in_message(what: Seq<char>, found: TokenKindView) -> Seq<char> {
    if found is Eof {
        "unexpected end of file in "@ + what
    } else {
        "unexpected token in "@ + what + ": `"@ + kind_text(found) + "`"@
    }
}

fn unexpected_in(what: &str, found: &WitTokenKind, offset: usize) -> (e: WitParseError)
    ensures
        e.offset == offset,
        e.message@ == unexpected_in_message(what@, found@),
{
    let mut message;
    if let WitTokenKind::Eof = found {
        message = owned("unexpected end of file in ");
        push_str(&mut message, what);
    } else {
        message = owned("unexpected token in ");
        push_str(&mut message, what);
        push_str(&mut message, ": `");
        let f = found.to_string();
        push_str(&mut message, f.as_str());
        push_str(&mut message, "`");
    }
    WitParseError { message, offset }
}

/// An interface item read from `pos` to `end`, after the doc comments at
/// `pos`, which become its doc.
pub open spec fn iface_item_at(ks: Seq<TokenKindView>, pos: int, end: int, item: WitInterfaceItem) -> bool {
    let p = doc_end(ks, pos);
    match item {
        WitInterfaceItem::TypeDef(td) => doc_matches(td.doc, ks, pos) && if td.kind is Resource {
            resource_shape(ks, p, end, td, td.doc)
        } else {
            typedef_spelled(ks, p, td, td.doc) == Some(end)
        },
        WitInterfaceItem::Use(u) => use_spelled(ks, p, u) == Some(end),
        WitInterfaceItem::Func(f) => doc_matches(f.doc, ks, pos) && (func_item_spelled(ks, p, f, f.doc) == Some(end)
            || constructor_spelled(ks, p, f, f.doc) == Some(end)),
    }
}

/// The interface items read in order from `pos` to `end`.
pub open spec fn iface_items_at(ks: Seq<TokenKindView>, pos: int, end: int, items: Seq<WitInterfaceItem>) -> bool
    decreases items.len(),
{
    if items.len() == 0 {
        end == pos
    } else {
        exists|mid: int|
            #[trigger] iface_item_at(ks, mid, end, items.last()) && iface_items_at(ks, pos, mid, items.drop_last())
    }
}

/// A world item read from `pos` to `end`, after the doc comments at `pos`.
pub open spec fn world_item_at(ks: Seq<TokenKindView>, pos: int, end: int, item: WitWorldItem) -> bool {
    let p = doc_end(ks, pos);
    match item {
        WitWorldItem::Import(i) => import_spelled(ks, p, i) == Some(end),
        WitWorldItem::Export(x) => export_spelled(ks, p, x) == Some(end),
        WitWorldItem::Include(name) => tok(ks, p) == TokenKindView::Include && tok(ks, p + 1)
            == TokenKindView::Ident(name@) && tok(ks, p + 2) == TokenKindView::Semicolon && end == p + 3,
        WitWorldItem::Use(u) => use_spelled(ks, p, u) == Some(end),
        WitWorldItem::TypeDef(td) => doc_matches(td.doc, ks, pos) && typedef_spelled(ks, p, td, td.doc) == Some(
            end,
        ),
    }
}

/// The world items read in order from `pos` to `end`.
pub open spec fn world_items_at(ks: Seq<TokenKindView>, pos: int, end: int, items: Seq<WitWorldItem>) -> bool
    decreases items.len(),
{
    if items.len() == 0 {
        end == pos
    } else {
        exists|mid: int|
            #[trigger] world_item_at(ks, mid, end, items.last()) && world_items_at(ks, pos, mid, items.drop_last())
    }
}

/// The same as `world_items_at`, named apart for use as a trigger.
pub open spec fn world_chain_at(ks: Seq<TokenKindView>, pos: int, end: int, items: Seq<WitWorldItem>) -> bool {
    world_items_at(ks, pos, end, items)
}

/// A block `keyword name { items }` read from `pos` (after the doc
/// comments at `pos`, its doc) to `end`: the items run from `body_end`,
/// where doc comments and the closing brace follow.
pub open spec fn block_frame(
    ks: Seq<TokenKindView>,
    pos: int,
    body_end: int,
    end: int,
    keyword: TokenKindView,
    name: Seq<char>,
    doc: Option<String>,
) -> bool {
    let p = doc_end(ks, pos);
    &&& doc_matches(doc, ks, pos)
    &&& tok(ks, p) == keyword
    &&& tok(ks, p + 1) == TokenKindView::Ident(name)
    &&& tok(ks, p + 2) == TokenKindView::LBrace
    &&& tok(ks, doc_end(ks, body_end)) == TokenKindView::RBrace
    &&& end == doc_end(ks, body_end) + 1
}

/// An interface read from `pos` to `end`.
pub open spec fn interface_at(ks: Seq<TokenKindView>, pos: int, end: int, b: WitInterfaceDef) -> bool {
    exists|body_end: int|
        block_frame(ks, pos, body_end, end, TokenKindView::Interface, b.name@, b.doc) && #[trigger] iface_items_at(
            ks,
            doc_end(ks, pos) + 3,
            body_end,
            b.items@,
        )
}

/// A world read from `pos` to `end`.
pub open spec fn world_at(ks: Seq<TokenKindView>, pos: int, end: int, b: WitWorldDef) -> bool {
    exists|body_end: int|
        block_frame(ks, pos, body_end, end, TokenKindView::World, b.name@, b.doc) && #[trigger] world_items_at(
            ks,
            doc_end(ks, pos) + 3,
            body_end,
            b.items@,
        )
}

/// A top-level item of a document.
pub enum TopItem {
    Package(WitPackage),
    Interface(WitInterfaceDef),
    World(WitWorldDef),
    Use(WitUseDecl),
}

/// A top-level item read from `pos` to `end`.
pub open spec fn top_item_at(ks: Seq<TokenKindView>, pos: int, end: int, item: TopItem) -> bool {
    match item {
        TopItem::Package(p) => package_spelled(ks, doc_end(ks, pos), p) == Some(end),
        TopItem::Interface(i) => interface_at(ks, pos, end, i),
        TopItem::World(w) => world_at(ks, pos, end, w),
        TopItem::Use(u) => use_spelled(ks, doc_end(ks, pos), u) == Some(end),
    }
}

/// The top-level items read in order from `pos` to `end`.
pub open spec fn top_items_at(ks: Seq<TokenKindView>, pos: int, end: int, items: Seq<TopItem>) -> bool
    decreases items.len(),
{
    if items.len() == 0 {
        end == pos
    } else {
        exists|mid: int|
            #[trigger] top_item_at(ks, mid, end, items.last()) && top_items_at(ks, pos, mid, items.drop_last())
    }
}

/// The document the top-level items make: the last package declaration,
/// and the interfaces, worlds and `use` imports in order.
pub open spec fn document_of(items: Seq<TopItem>) -> (
    Option<WitPackage>,
    Seq<WitInterfaceDef>,
    Seq<WitWorldDef>,
    Seq<WitUseDecl>,
)
    decreases items.len(),
{
    if items.len() == 0 {
        (None, Seq::empty(), Seq::empty(), Seq::empty())
    } else {
        let (p, i, w, u) = document_of(items.drop_last());
        match items.last() {
            TopItem::Package(x) => (Some(x), i, w, u),
            TopItem::Interface(x) => (p, i.push(x), w, u),
            TopItem::World(x) => (p, i, w.push(x), u),
            TopItem::Use(x) => (p, i, w, u.push(x)),
        }
    }
}

/// `d` is the document read from the tokens `ks` from `pos`: top-level
/// items, each after its doc comments, then doc comments and the end.
pub open spec fn document_at(ks: Seq<TokenKindView>, pos: int, d: WitDocument) -> bool {
    exists|items: Seq<TopItem>, end: int|
        #[trigger] top_items_at(ks, pos, end, items) && tok(ks, doc_end(ks, end)) is Eof && document_of(items) == (
            d.package,
            d.interfaces@,
            d.worlds@,
            d.top_use@,
        )
}

proof fn lemma_iface_items_push(
    ks: Seq<TokenKindView>,
    start: int,
    q: int,
    end: int,
    items: Seq<WitInterfaceItem>,
    it: WitInterfaceItem,
)
    requires
        iface_items_at(ks, start, q, items),
        iface_item_at(ks, q, end, it),
    ensures
        iface_items_at(ks, start, end, items.push(it)),
{
    assert(items.push(it).drop_last() =~= items);
    assert(items.push(it).last() == it);
}

proof fn lemma_world_items_push(
    ks: Seq<TokenKindView>,
    start: int,
    q: int,
    end: int,
    items: Seq<WitWorldItem>,
    it: WitWorldItem,
)
    requires
        world_items_at(ks, start, q, items),
        world_item_at(ks, q, end, it),
    ensures
        world_items_at(ks, start, end, items.push(it)),
{
    assert(items.push(it).drop_last() =~= items);
    assert(items.push(it).last() == it);
}

proof fn lemma_top_items_push(ks: Seq<TokenKindView>, start: int, q: int, end: int, items: Seq<TopItem>, it: TopItem)
    requires
        top_items_at(ks, start, q, items),
        top_item_at(ks, q, end, it),
    ensures
        top_items_at(ks, start, end, items.push(it)),
{
    assert(items.push(it).drop_last() =~= items);
    assert(items.push(it).last() == it);
}

/// Two `use` name lists spelled from the same place end at the same place.
proof fn lemma_use_names_end_unique(ks: Seq<TokenKindView>, p: int, n1: Seq<WitUseName>, n2: Seq<WitUseName>)
    requires
        use_names_spelled(ks, p, n1) is Some,
        use_names_spelled(ks, p, n2) is Some,
    ensures
        use_names_spelled(ks, p, n1) == use_names_spelled(ks, p, n2),
    decreases n1.len(),
{
    if tok(ks, p) != TokenKindView::RBrace {
        let q = if tok(ks, p + 1) == TokenKindView::Ident("as"@) { p + 3 } else { p + 1 };
        if tok(ks, q) == TokenKindView::Comma {
            lemma_use_names_end_unique(ks, q + 1, n1.drop_first(), n2.drop_first());
        }
    }
}

/// Two `use` declarations spelled from the same place end at the same place.
proof fn lemma_use_end_unique(ks: Seq<TokenKindView>, p: int, u1: WitUseDecl, u2: WitUseDecl)
    requires
        use_spelled(ks, p, u1) is Some,
        use_spelled(ks, p, u2) is Some,
    ensures
        use_spelled(ks, p, u1) == use_spelled(ks, p, u2),
{
    let first = tok(ks, p + 1)->Ident_0;
    let from = if tok(ks, p + 2) == TokenKindView::Colon {
        extern_path_rest(ks, p + 3, first)
    } else {
        Some((first, p + 2))
    };
    let q = (from->0).1;
    lemma_use_names_end_unique(ks, q + 2, u1.names@, u2.names@);
}

/// Two record field lists spelled from the same place end at the same place.
proof fn lemma_fields_end_unique(ks: Seq<TokenKindView>, p: int, s1: Seq<WitRecordField>, s2: Seq<WitRecordField>)
    requires
        fields_spelled(ks, p, s1) is Some,
        fields_spelled(ks, p, s2) is Some,
    ensures
        fields_spelled(ks, p, s1) == fields_spelled(ks, p, s2),
    decreases s1.len(),
{
    let q = doc_end(ks, p);
    if tok(ks, q) != TokenKindView::RBrace {
        lemma_type_end_unique(ks, q + 2, s1[0].ty, s2[0].ty);
        let r = type_spelled(ks, q + 2, s1[0].ty)->0;
        if tok(ks, r) == TokenKindView::Comma {
            lemma_fields_end_unique(ks, r + 1, s1.drop_first(), s2.drop_first());
        }
    }
}

/// Two enum case lists spelled from the same place end at the same place.
proof fn lemma_enum_cases_end_unique(ks: Seq<TokenKindView>, p: int, s1: Seq<WitEnumCase>, s2: Seq<WitEnumCase>)
    requires
        enum_cases_spelled(ks, p, s1) is Some,
        enum_cases_spelled(ks, p, s2) is Some,
    ensures
        enum_cases_spelled(ks, p, s1) == enum_cases_spelled(ks, p, s2),
    decreases s1.len(),
{
    let q = doc_end(ks, p);
    if tok(ks, q) != TokenKindView::RBrace && tok(ks, q + 1) == TokenKindView::Comma {
        lemma_enum_cases_end_unique(ks, q + 2, s1.drop_first(), s2.drop_first());
    }
}

/// Two variant case lists spelled from the same place end at the same place.
proof fn lemma_variant_cases_end_unique(
    ks: Seq<TokenKindView>,
    p: int,
    s1: Seq<WitVariantCase>,
    s2: Seq<WitVariantCase>,
)
    requires
        variant_cases_spelled(ks, p, s1) is Some,
        variant_cases_spelled(ks, p, s2) is Some,
    ensures
        variant_cases_spelled(ks, p, s1) == variant_cases_spelled(ks, p, s2),
    decreases s1.len(),
{
    let q = doc_end(ks, p);
    if tok(ks, q) != TokenKindView::RBrace {
        let r = if tok(ks, q + 1) == TokenKindView::LParen {
            lemma_type_end_unique(ks, q + 2, s1[0].ty->0, s2[0].ty->0);
            type_spelled(ks, q + 2, s1[0].ty->0)->0 + 1
        } else {
            q + 1
        };
        if tok(ks, r) == TokenKindView::Comma {
            lemma_variant_cases_end_unique(ks, r + 1, s1.drop_first(), s2.drop_first());
        }
    }
}

/// Two flag lists spelled from the same place end at the same place.
proof fn lemma_flags_end_unique(ks: Seq<TokenKindView>, p: int, s1: Seq<String>, s2: Seq<String>)
    requires
        flags_spelled(ks, p, s1) is Some,
        flags_spelled(ks, p, s2) is Some,
    ensures
        flags_spelled(ks, p, s1) == flags_spelled(ks, p, s2),
    decreases s1.len(),
{
    let q = doc_end(ks, p);
    if tok(ks, q) != TokenKindView::RBrace && tok(ks, q + 1) == TokenKindView::Comma {
        lemma_flags_end_unique(ks, q + 2, s1.drop_first(), s2.drop_first());
    }
}

/// Two type definitions spelled from the same place end at the same place.
proof fn lemma_typedef_end_unique(
    ks: Seq<TokenKindView>,
    p: int,
    t1: WitTypeDef,
    d1: Option<String>,
    t2: WitTypeDef,
    d2: Option<String>,
)
    requires
        typedef_spelled(ks, p, t1, d1) is Some,
        typedef_spelled(ks, p, t2, d2) is Some,
    ensures
        typedef_spelled(ks, p, t1, d1) == typedef_spelled(ks, p, t2, d2),
{
    match (t1.kind, t2.kind) {
        (WitTypeDefKind::Record(a), WitTypeDefKind::Record(b)) => {
            lemma_fields_end_unique(ks, p + 3, a@, b@);
        },
        (WitTypeDefKind::Enum(a), WitTypeDefKind::Enum(b)) => {
            lemma_enum_cases_end_unique(ks, p + 3, a@, b@);
        },
        (WitTypeDefKind::Variant(a), WitTypeDefKind::Variant(b)) => {
            lemma_variant_cases_end_unique(ks, p + 3, a@, b@);
        },
        (WitTypeDefKind::Flags(a), WitTypeDefKind::Flags(b)) => {
            lemma_flags_end_unique(ks, p + 3, a@, b@);
        },
        (WitTypeDefKind::Alias(a), WitTypeDefKind::Alias(b)) => {
            lemma_type_end_unique(ks, p + 3, a, b);
        },
        _ => {},
    }
}

/// Two function items spelled from the same place end at the same place.
proof fn lemma_func_item_end_unique(
    ks: Seq<TokenKindView>,
    p: int,
    f1: WitFuncDef,
    d1: Option<String>,
    f2: WitFuncDef,
    d2: Option<String>,
)
    requires
        func_item_spelled(ks, p, f1, d1) is Some,
        func_item_spelled(ks, p, f2, d2) is Some,
    ensures
        func_item_spelled(ks, p, f1, d1) == func_item_spelled(ks, p, f2, d2),
{
    let q = if f1.is_static { p + 3 } else { p + 2 };
    lemma_func_sig_end_unique(ks, q, f1, f2);
}

/// Two constructors spelled from the same place end at the same place.
proof fn lemma_constructor_end_unique(
    ks: Seq<TokenKindView>,
    p: int,
    f1: WitFuncDef,
    d1: Option<String>,
    f2: WitFuncDef,
    d2: Option<String>,
)
    requires
        constructor_spelled(ks, p, f1, d1) is Some,
        constructor_spelled(ks, p, f2, d2) is Some,
    ensures
        constructor_spelled(ks, p, f1, d1) == constructor_spelled(ks, p, f2, d2),
{
    lemma_params_end_unique(ks, p + 2, f1.params@, f2.params@);
}

/// Two `kw name: func(...)` or `kw path;` items spelled from the same place
/// end at the same place.
proof fn lemma_ref_end_unique(
    ks: Seq<TokenKindView>,
    p: int,
    kw: TokenKindView,
    path1: Option<Seq<char>>,
    f1: Option<(Seq<char>, WitFuncDef)>,
    path2: Option<Seq<char>>,
    f2: Option<(Seq<char>, WitFuncDef)>,
    e1: int,
    e2: int,
)
    requires
        path1 is Some <==> f1 is None,
        path2 is Some <==> f2 is None,
        path1 matches Some(x) ==> path_ref_spelled(ks, p, kw, x) == Some(e1),
        f1 matches Some((n, f)) ==> func_ref_spelled(ks, p, kw, n, f) == Some(e1),
        path2 matches Some(x) ==> path_ref_spelled(ks, p, kw, x) == Some(e2),
        f2 matches Some((n, f)) ==> func_ref_spelled(ks, p, kw, n, f) == Some(e2),
    ensures
        e1 == e2,
{
    if f1 is Some && f2 is Some {
        lemma_func_sig_end_unique(ks, p + 3, (f1->0).1, (f2->0).1);
    }
}

/// Two imports spelled from the same place end at the same place.
proof fn lemma_import_end_unique(ks: Seq<TokenKindView>, p: int, i1: WitWorldImport, i2: WitWorldImport)
    requires
        import_spelled(ks, p, i1) is Some,
        import_spelled(ks, p, i2) is Some,
    ensures
        import_spelled(ks, p, i1) == import_spelled(ks, p, i2),
{
    let e1 = import_spelled(ks, p, i1)->0;
    let e2 = import_spelled(ks, p, i2)->0;
    let (a1, b1) = match i1 {
        WitWorldImport::InterfacePath(x) => (Some(x.path@), None),
        WitWorldImport::Func { name, func } => (None, Some((name@, func))),
    };
    let (a2, b2) = match i2 {
        WitWorldImport::InterfacePath(x) => (Some(x.path@), None),
        WitWorldImport::Func { name, func } => (None, Some((name@, func))),
    };
    lemma_ref_end_unique(ks, p, TokenKindView::Import, a1, b1, a2, b2, e1, e2);
}

/// Two exports spelled from the same place end at the same place.
proof fn lemma_export_end_unique(ks: Seq<TokenKindView>, p: int, i1: WitWorldExport, i2: WitWorldExport)
    requires
        export_spelled(ks, p, i1) is Some,
        export_spelled(ks, p, i2) is Some,
    ensures
        export_spelled(ks, p, i1) == export_spelled(ks, p, i2),
{
    let e1 = export_spelled(ks, p, i1)->0;
    let e2 = export_spelled(ks, p, i2)->0;
    let (a1, b1) = match i1 {
        WitWorldExport::InterfacePath(x) => (Some(x.path@), None),
        WitWorldExport::Func { name, func } => (None, Some((name@, func))),
    };
    let (a2, b2) = match i2 {
        WitWorldExport::InterfacePath(x) => (Some(x.path@), None),
        WitWorldExport::Func { name, func } => (None, Some((name@, func))),
    };
    lemma_ref_end_unique(ks, p, TokenKindView::Export, a1, b1, a2, b2, e1, e2);
}

/// Two world items read from the same place end at the same place.
proof fn lemma_world_item_end_unique(ks: Seq<TokenKindView>, p: int, e1: int, i1: WitWorldItem, e2: int, i2: WitWorldItem)
    requires
        world_item_at(ks, p, e1, i1),
        world_item_at(ks, p, e2, i2),
    ensures
        e1 == e2,
{
    let d = doc_end(ks, p);
    match (i1, i2) {
        (WitWorldItem::Import(a), WitWorldItem::Import(b)) => lemma_import_end_unique(ks, d, a, b),
        (WitWorldItem::Export(a), WitWorldItem::Export(b)) => lemma_export_end_unique(ks, d, a, b),
        (WitWorldItem::Use(a), WitWorldItem::Use(b)) => lemma_use_end_unique(ks, d, a, b),
        (WitWorldItem::TypeDef(a), WitWorldItem::TypeDef(b)) => lemma_typedef_end_unique(ks, d, a, a.doc, b, b.doc),
        _ => {},
    }
}

/// Reads the first world item off a chain of world items.
proof fn lemma_world_items_split(ks: Seq<TokenKindView>, s: int, e: int, items: Seq<WitWorldItem>) -> (mid: int)
    requires
        world_items_at(ks, s, e, items),
        items.len() > 0,
    ensures
        world_item_at(ks, s, mid, items[0]),
        world_items_at(ks, mid, e, items.drop_first()),
    decreases items.len(),
{
    let m0 = choose|m: int| #[trigger] world_item_at(ks, m, e, items.last()) && world_items_at(ks, s, m, items.drop_last());
    if items.len() == 1 {
        assert(items.drop_first().len() == 0);
        e
    } else {
        let init = items.drop_last();
        let m = lemma_world_items_split(ks, s, m0, init);
        let rest = items.drop_first();
        assert(rest.drop_last() =~= init.drop_first());
        assert(rest.last() == items.last());
        assert(init[0] == items[0]);
        m
    }
}

/// Every chain of world items from `p0 + 3` that a closing brace follows
/// runs through `cur` after `n` items.
pub open spec fn world_through(ks: Seq<TokenKindView>, p0: int, cur: int, n: int) -> bool {
    forall|e: int, full: Seq<WitWorldItem>| #[trigger] world_chain_at(ks, p0 + 3, e, full) && tok(ks, doc_end(ks, e)) == TokenKindView::RBrace
        ==> full.len() >= n && world_items_at(ks, cur, e, full.skip(n))
}

/// Where no world item can be read at `cur`, no chain through `cur` is closed.
proof fn lemma_world_stuck(ks: Seq<TokenKindView>, p0: int, cur: int, n: int)
    requires
        world_through(ks, p0, cur, n),
        tok(ks, doc_end(ks, cur)) != TokenKindView::RBrace,
        forall|m: int, it: WitWorldItem| !#[trigger] world_item_at(ks, cur, m, it),
    ensures
        forall|e: int, full: Seq<WitWorldItem>| #[trigger] world_items_at(ks, p0 + 3, e, full)
            ==> tok(ks, doc_end(ks, e)) != TokenKindView::RBrace,
{
    assert forall|e: int, full: Seq<WitWorldItem>| #[trigger] world_items_at(ks, p0 + 3, e, full) implies tok(ks, doc_end(ks, e)) != TokenKindView::RBrace by {
        if tok(ks, doc_end(ks, e)) == TokenKindView::RBrace {
            assert(world_chain_at(ks, p0 + 3, e, full));
            let sub = full.skip(n);
            if sub.len() > 0 {
                let mid = lemma_world_items_split(ks, cur, e, sub);
                assert(world_item_at(ks, cur, mid, sub[0]));
            }
        }
    }
}

/// Reading one world item at `cur` moves the chains on past it.
#[verifier::spinoff_prover]
#[verifier::rlimit(80)]
proof fn lemma_world_step(ks: Seq<TokenKindView>, p0: int, cur: int, n: int, q: int, item: WitWorldItem)
    requires
        0 <= n,
        world_through(ks, p0, cur, n),
        world_item_at(ks, cur, q, item),
    ensures
        world_through(ks, p0, q, n + 1),
{
    assert forall|e: int, full: Seq<WitWorldItem>| #[trigger] world_chain_at(ks, p0 + 3, e, full) && tok(ks, doc_end(ks, e)) == TokenKindView::RBrace implies full.len() >= n + 1 && world_items_at(ks, q, e, full.skip(n + 1)) by {
        let sub = full.skip(n);
        assert(world_items_at(ks, cur, e, sub));
        assert(full.len() >= n);
        if sub.len() > 0 {
            let mid = lemma_world_items_split(ks, cur, e, sub);
            lemma_world_item_end_unique(ks, cur, mid, sub[0], q, item);
            assert(sub.drop_first() =~= full.skip(n + 1));
        }
    }
}

/// Two resource members read from the same place end at the same place.
proof fn lemma_member_end_unique(ks: Seq<TokenKindView>, p: int, e1: int, f1: WitFuncDef, e2: int, f2: WitFuncDef)
    requires
        member_at(ks, p, e1, f1),
        member_at(ks, p, e2, f2),
    ensures
        e1 == e2,
{
    let d = doc_end(ks, p);
    if tok(ks, d) == TokenKindView::Constructor {
        lemma_constructor_end_unique(ks, d, f1, f1.doc, f2, f2.doc);
    } else {
        lemma_func_item_end_unique(ks, d, f1, f1.doc, f2, f2.doc);
    }
}

/// Reads the first member off a chain of resource members.
proof fn lemma_members_split(ks: Seq<TokenKindView>, s: int, e: int, ms: Seq<WitFuncDef>) -> (mid: int)
    requires
        members_at(ks, s, e, ms),
        ms.len() > 0,
    ensures
        member_at(ks, s, mid, ms[0]),
        members_at(ks, mid, e, ms.drop_first()),
    decreases ms.len(),
{
    let m0 = choose|m: int| #[trigger] member_at(ks, m, e, ms.last()) && members_at(ks, s, m, ms.drop_last());
    if ms.len() == 1 {
        assert(ms.drop_first().len() == 0);
        e
    } else {
        let init = ms.drop_last();
        let m = lemma_members_split(ks, s, m0, init);
        let rest = ms.drop_first();
        assert(rest.drop_last() =~= init.drop_first());
        assert(rest.last() == ms.last());
        assert(init[0] == ms[0]);
        m
    }
}

/// Two member chains from the same place that a closing brace follows end
/// at the same place.
proof fn lemma_members_chain_unique(
    ks: Seq<TokenKindView>,
    s: int,
    e1: int,
    m1: Seq<WitFuncDef>,
    e2: int,
    m2: Seq<WitFuncDef>,
)
    requires
        members_at(ks, s, e1, m1),
        tok(ks, doc_end(ks, e1)) == TokenKindView::RBrace,
        members_at(ks, s, e2, m2),
        tok(ks, doc_end(ks, e2)) == TokenKindView::RBrace,
    ensures
        e1 == e2,
    decreases m1.len(),
{
    if m1.len() == 0 {
        if m2.len() > 0 {
            let b = lemma_members_split(ks, s, e2, m2);
        }
    } else if m2.len() == 0 {
        let a = lemma_members_split(ks, s, e1, m1);
    } else {
        let a = lemma_members_split(ks, s, e1, m1);
        let b = lemma_members_split(ks, s, e2, m2);
        lemma_member_end_unique(ks, s, a, m1[0], b, m2[0]);
        lemma_members_chain_unique(ks, a, e1, m1.drop_first(), e2, m2.drop_first());
    }
}

/// Two resources read from the same place end at the same place.
proof fn lemma_resource_end_unique(
    ks: Seq<TokenKindView>,
    p: int,
    e1: int,
    t1: WitTypeDef,
    d1: Option<String>,
    e2: int,
    t2: WitTypeDef,
    d2: Option<String>,
)
    requires
        resource_shape(ks, p, e1, t1, d1),
        resource_shape(ks, p, e2, t2, d2),
    ensures
        e1 == e2,
{
    if tok(ks, p + 2) != TokenKindView::Semicolon {
        let (b1, m1) = choose|b: int, ms: Seq<WitFuncDef>| #[trigger] members_at(ks, p + 3, b, ms) && tok(ks, doc_end(ks, b))
            == TokenKindView::RBrace && e1 == doc_end(ks, b) + 1 && resource_of(ms) == (
            t1.kind->Resource_0.constructor,
            t1.kind->Resource_0.methods@,
            t1.kind->Resource_0.statics@,
        );
        let (b2, m2) = choose|b: int, ms: Seq<WitFuncDef>| #[trigger] members_at(ks, p + 3, b, ms) && tok(ks, doc_end(ks, b))
            == TokenKindView::RBrace && e2 == doc_end(ks, b) + 1 && resource_of(ms) == (
            t2.kind->Resource_0.constructor,
            t2.kind->Resource_0.methods@,
            t2.kind->Resource_0.statics@,
        );
        lemma_members_chain_unique(ks, p + 3, b1, m1, b2, m2);
    }
}

/// The same as `members_at`, named apart for use as a trigger.
pub open spec fn members_chain_at(ks: Seq<TokenKindView>, pos: int, end: int, ms: Seq<WitFuncDef>) -> bool {
    members_at(ks, pos, end, ms)
}

/// Every chain of members from `p0 + 3` that a closing brace follows runs
/// through `cur` after `n` members.
pub open spec fn members_through(ks: Seq<TokenKindView>, p0: int, cur: int, n: int) -> bool {
    forall|e: int, ms: Seq<WitFuncDef>| #[trigger] members_chain_at(ks, p0 + 3, e, ms) && tok(ks, doc_end(ks, e)) == TokenKindView::RBrace
        ==> ms.len() >= n && members_at(ks, cur, e, ms.skip(n))
}

/// Where no member can be read at `cur`, no chain through `cur` is closed.
proof fn lemma_members_stuck(ks: Seq<TokenKindView>, p0: int, cur: int, n: int)
    requires
        members_through(ks, p0, cur, n),
        tok(ks, doc_end(ks, cur)) != TokenKindView::RBrace,
        forall|m: int, f: WitFuncDef| !#[trigger] member_at(ks, cur, m, f),
    ensures
        forall|e: int, ms: Seq<WitFuncDef>| #[trigger] members_at(ks, p0 + 3, e, ms)
            ==> tok(ks, doc_end(ks, e)) != TokenKindView::RBrace,
{
    assert forall|e: int, ms: Seq<WitFuncDef>| #[trigger] members_at(ks, p0 + 3, e, ms) implies tok(ks, doc_end(ks, e)) != TokenKindView::RBrace by {
        if tok(ks, doc_end(ks, e)) == TokenKindView::RBrace {
            assert(members_chain_at(ks, p0 + 3, e, ms));
            let sub = ms.skip(n);
            if sub.len() > 0 {
                let mid = lemma_members_split(ks, cur, e, sub);
                assert(member_at(ks, cur, mid, sub[0]));
            }
        }
    }
}

/// Reading one member at `cur` moves the chains on past it.
proof fn lemma_members_step(ks: Seq<TokenKindView>, p0: int, cur: int, n: int, q: int, f: WitFuncDef)
    requires
        0 <= n,
        members_through(ks, p0, cur, n),
        member_at(ks, cur, q, f),
    ensures
        members_through(ks, p0, q, n + 1),
{
    assert forall|e: int, ms: Seq<WitFuncDef>| #[trigger] members_chain_at(ks, p0 + 3, e, ms) && tok(ks, doc_end(ks, e)) == TokenKindView::RBrace implies ms.len() >= n + 1 && members_at(ks, q, e, ms.skip(n + 1)) by {
        let sub = ms.skip(n);
        assert(members_at(ks, cur, e, sub));
        assert(ms.len() >= n);
        if sub.len() > 0 {
            let mid = lemma_members_split(ks, cur, e, sub);
            lemma_member_end_unique(ks, cur, mid, sub[0], q, f);
            assert(sub.drop_first() =~= ms.skip(n + 1));
        }
    }
}

/// Two interface items read from the same place end at the same place.
proof fn lemma_iface_item_end_unique(
    ks: Seq<TokenKindView>,
    p: int,
    e1: int,
    i1: WitInterfaceItem,
    e2: int,
    i2: WitInterfaceItem,
)
    requires
        iface_item_at(ks, p, e1, i1),
        iface_item_at(ks, p, e2, i2),
    ensures
        e1 == e2,
{
    let d = doc_end(ks, p);
    match (i1, i2) {
        (WitInterfaceItem::TypeDef(a), WitInterfaceItem::TypeDef(b)) => {
            if a.kind is Resource && b.kind is Resource {
                lemma_resource_end_unique(ks, d, e1, a, a.doc, e2, b, b.doc);
            } else if !(a.kind is Resource) && !(b.kind is Resource) {
                lemma_typedef_end_unique(ks, d, a, a.doc, b, b.doc);
            }
        },
        (WitInterfaceItem::Use(a), WitInterfaceItem::Use(b)) => lemma_use_end_unique(ks, d, a, b),
        (WitInterfaceItem::Func(a), WitInterfaceItem::Func(b)) => {
            assert(member_at(ks, p, e1, a));
            assert(member_at(ks, p, e2, b));
            lemma_member_end_unique(ks, p, e1, a, e2, b);
        },
        _ => {},
    }
}

/// Reads the first item off a chain of interface items.
proof fn lemma_iface_items_split(ks: Seq<TokenKindView>, s: int, e: int, items: Seq<WitInterfaceItem>) -> (mid: int)
    requires
        iface_items_at(ks, s, e, items),
        items.len() > 0,
    ensures
        iface_item_at(ks, s, mid, items[0]),
        iface_items_at(ks, mid, e, items.drop_first()),
    decreases items.len(),
{
    let m0 = choose|m: int| #[trigger] iface_item_at(ks, m, e, items.last()) && iface_items_at(ks, s, m, items.drop_last());
    if items.len() == 1 {
        assert(items.drop_first().len() == 0);
        e
    } else {
        let init = items.drop_last();
        let m = lemma_iface_items_split(ks, s, m0, init);
        let rest = items.drop_first();
        assert(rest.drop_last() =~= init.drop_first());
        assert(rest.last() == items.last());
        assert(init[0] == items[0]);
        m
    }
}

/// The same as `iface_items_at`, named apart for use as a trigger.
pub open spec fn iface_chain_at(ks: Seq<TokenKindView>, pos: int, end: int, items: Seq<WitInterfaceItem>) -> bool {
    iface_items_at(ks, pos, end, items)
}

/// Every chain of interface items from `p0 + 3` that a closing brace
/// follows runs through `cur` after `n` items.
pub open spec fn iface_through(ks: Seq<TokenKindView>, p0: int, cur: int, n: int) -> bool {
    forall|e: int, full: Seq<WitInterfaceItem>| #[trigger] iface_chain_at(ks, p0 + 3, e, full) && tok(ks, doc_end(ks, e)) == TokenKindView::RBrace
        ==> full.len() >= n && iface_items_at(ks, cur, e, full.skip(n))
}

/// Where no interface item can be read at `cur`, no chain through `cur` is
/// closed.
proof fn lemma_iface_stuck(ks: Seq<TokenKindView>, p0: int, cur: int, n: int)
    requires
        iface_through(ks, p0, cur, n),
        tok(ks, doc_end(ks, cur)) != TokenKindView::RBrace,
        forall|m: int, it: WitInterfaceItem| !#[trigger] iface_item_at(ks, cur, m, it),
    ensures
        forall|e: int, full: Seq<WitInterfaceItem>| #[trigger] iface_items_at(ks, p0 + 3, e, full)
            ==> tok(ks, doc_end(ks, e)) != TokenKindView::RBrace,
{
    assert forall|e: int, full: Seq<WitInterfaceItem>| #[trigger] iface_items_at(ks, p0 + 3, e, full) implies tok(ks, doc_end(ks, e)) != TokenKindView::RBrace by {
        if tok(ks, doc_end(ks, e)) == TokenKindView::RBrace {
            assert(iface_chain_at(ks, p0 + 3, e, full));
            let sub = full.skip(n);
            if sub.len() > 0 {
                let mid = lemma_iface_items_split(ks, cur, e, sub);
                assert(iface_item_at(ks, cur, mid, sub[0]));
            }
        }
    }
}

/// Reading one interface item at `cur` moves the chains on past it.
#[verifier::spinoff_prover]
#[verifier::rlimit(80)]
proof fn lemma_iface_step(ks: Seq<TokenKindView>, p0: int, cur: int, n: int, q: int, item: WitInterfaceItem)
    requires
        0 <= n,
        iface_through(ks, p0, cur, n),
        iface_item_at(ks, cur, q, item),
    ensures
        iface_through(ks, p0, q, n + 1),
{
    assert forall|e: int, full: Seq<WitInterfaceItem>| #[trigger] iface_chain_at(ks, p0 + 3, e, full) && tok(ks, doc_end(ks, e)) == TokenKindView::RBrace implies full.len() >= n + 1 && iface_items_at(ks, q, e, full.skip(n + 1)) by {
        let sub = full.skip(n);
        assert(iface_items_at(ks, cur, e, sub));
        assert(full.len() >= n);
        if sub.len() > 0 {
            let mid = lemma_iface_items_split(ks, cur, e, sub);
            lemma_iface_item_end_unique(ks, cur, mid, sub[0], q, item);
            assert(sub.drop_first() =~= full.skip(n + 1));
        }
    }
}

/// Two chains of interface items from the same place that a closing brace
/// follows end at the same place.
proof fn lemma_iface_chain_unique(
    ks: Seq<TokenKindView>,
    s: int,
    e1: int,
    m1: Seq<WitInterfaceItem>,
    e2: int,
    m2: Seq<WitInterfaceItem>,
)
    requires
        iface_items_at(ks, s, e1, m1),
        tok(ks, doc_end(ks, e1)) == TokenKindView::RBrace,
        iface_items_at(ks, s, e2, m2),
        tok(ks, doc_end(ks, e2)) == TokenKindView::RBrace,
    ensures
        e1 == e2,
    decreases m1.len(),
{
    if m1.len() == 0 {
        if m2.len() > 0 {
            let b = lemma_iface_items_split(ks, s, e2, m2);
        }
    } else if m2.len() == 0 {
        let a = lemma_iface_items_split(ks, s, e1, m1);
    } else {
        let a = lemma_iface_items_split(ks, s, e1, m1);
        let b = lemma_iface_items_split(ks, s, e2, m2);
        lemma_iface_item_end_unique(ks, s, a, m1[0], b, m2[0]);
        lemma_iface_chain_unique(ks, a, e1, m1.drop_first(), e2, m2.drop_first());
    }
}

/// Two chains of world items from the same place that a closing brace
/// follows end at the same place.
proof fn lemma_world_chain_unique(
    ks: Seq<TokenKindView>,
    s: int,
    e1: int,
    m1: Seq<WitWorldItem>,
    e2: int,
    m2: Seq<WitWorldItem>,
)
    requires
        world_items_at(ks, s, e1, m1),
        tok(ks, doc_end(ks, e1)) == TokenKindView::RBrace,
        world_items_at(ks, s, e2, m2),
        tok(ks, doc_end(ks, e2)) == TokenKindView::RBrace,
    ensures
        e1 == e2,
    decreases m1.len(),
{
    if m1.len() == 0 {
        if m2.len() > 0 {
            let b = lemma_world_items_split(ks, s, e2, m2);
        }
    } else if m2.len() == 0 {
        let a = lemma_world_items_split(ks, s, e1, m1);
    } else {
        let a = lemma_world_items_split(ks, s, e1, m1);
        let b = lemma_world_items_split(ks, s, e2, m2);
        lemma_world_item_end_unique(ks, s, a, m1[0], b, m2[0]);
        lemma_world_chain_unique(ks, a, e1, m1.drop_first(), e2, m2.drop_first());
    }
}

impl WitParser {
    /// Parses `resource name;` or `resource name { members }`.
    #[verifier::rlimit(80)]
    fn parse_resource(&mut self, doc: Option<String>) -> (r: Result<WitTypeDef, WitParseError>)
        requires
            old(self).wf(),
        ensures
            final(self).wf(),
            final(self).tokens == old(self).tokens,
            final(self).pos >= old(self).pos,
            r matches Ok(td) ==> resource_shape(
                old(self).kinds(),
                old(self).pos as int,
                final(self).pos as int,
                td,
                doc,
            ),
            r is Ok ==> final(self).pos > old(self).pos,
            r matches Err(e) ==> (resource_err(old(self).kinds(), old(self).pos as int) matches Some((m, i))
                && e.message@ == m && e.offset == old(self).offset_at(i)),
            r is Err ==> forall|end: int, td: WitTypeDef, dc: Option<String>| !#[trigger] resource_shape(
                old(self).kinds(),
                old(self).pos as int,
                end,
                td,
                dc,
            ),
    {
        let ghost ks = self.kinds();
        let ghost p0 = self.pos as int;
        self.expect(&WitTokenKind::Resource)?;
        let name = self.expect_ident()?;
        if self.eat(&WitTokenKind::Semicolon) {
            let rd = WitResourceDef { constructor: None, methods: Vec::new(), statics: Vec::new() };
            return Ok(WitTypeDef { name, doc, kind: WitTypeDefKind::Resource(rd) });
        }
        self.expect(&WitTokenKind::LBrace)?;
        let mut resource = WitResourceDef {
            constructor: None,
            methods: Vec::new(),
            statics: Vec::new(),
        };
        let ghost mut ms: Seq<WitFuncDef> = Seq::empty();
        let ghost mut body_end: int = self.pos as int;
        proof {
            assert forall|e: int, full: Seq<WitFuncDef>| #[trigger] members_chain_at(ks, p0 + 3, e, full) && tok(ks, doc_end(ks, e)) == TokenKindView::RBrace implies members_at(ks, p0 + 3, e, full.skip(0)) by {
                assert(full.skip(0) =~= full);
            }
        }
        loop
            invariant_except_break
                members_at(ks, p0 + 3, self.pos as int, ms),
                members_through(ks, p0, self.pos as int, ms.len() as int),
                tok(ks, p0 + 2) != TokenKindView::Semicolon,
            invariant
                self.wf(),
                self.tokens == old(self).tokens,
                ks == self.kinds(),
                p0 == old(self).pos,
                p0 + 3 <= self.pos,
                header_err(ks, p0, TokenKindView::Resource) is None,
                resource_members_ok(resource),
                resource_of(ms) == (resource.constructor, resource.methods@, resource.statics@),
            ensures
                tok(ks, self.pos - 1) == TokenKindView::RBrace,
                members_at(ks, p0 + 3, body_end, ms),
                tok(ks, doc_end(ks, body_end)) == TokenKindView::RBrace,
                self.pos == doc_end(ks, body_end) + 1,
            decreases self.tokens@.len() - self.pos,
        {
            let ghost q = self.pos as int;
            let ghost cur = q;
            let ghost n = ms.len() as int;
            let item_doc = self.take_doc();
            let ghost d = self.pos as int;
            let ghost f: WitFuncDef;
            match self.peek() {
                WitTokenKind::RBrace => {
                    self.advance();
                    proof {
                        body_end = q;
                    }
                    break;
                },
                WitTokenKind::Constructor => {
                    let c = match self.parse_constructor_func(item_doc) {
                        Ok(c) => c,
                        Err(e) => {
                            proof {
                                assert forall|m: int, g: WitFuncDef| !#[trigger] member_at(ks, cur, m, g) by {
                                    let g2 = WitFuncDef { name: g.name, doc: item_doc, params: g.params, result: g.result, is_static: g.is_static, is_constructor: g.is_constructor };
                                    assert(constructor_spelled(ks, d, g2, item_doc) is None);
                                }
                                lemma_members_stuck(ks, p0, cur, n);
                                lemma_resource_err(ks, p0, cur, ms);
                            }
                            return Err(e);
                        },
                    };
                    proof {
                        f = c;
                    }
                    resource.constructor = Some(c);
                },
                WitTokenKind::Ident(_) => {
                    let func = match self.parse_func_item(item_doc) {
                        Ok(f) => f,
                        Err(e) => {
                            proof {
                                assert forall|m: int, g: WitFuncDef| !#[trigger] member_at(ks, cur, m, g) by {
                                    let g2 = WitFuncDef { name: g.name, doc: item_doc, params: g.params, result: g.result, is_static: g.is_static, is_constructor: g.is_constructor };
                                    assert(func_item_spelled(ks, d, g2, item_doc) is None);
                                }
                                lemma_members_stuck(ks, p0, cur, n);
                                lemma_resource_err(ks, p0, cur, ms);
                            }
                            return Err(e);
                        },
                    };
                    proof {
                        f = func;
                    }
                    if func.is_static {
                        resource.statics.push(func);
                    } else {
                        resource.methods.push(func);
                    }
                },
                other => {
                    proof {
                        assert forall|m: int, g: WitFuncDef| !#[trigger] member_at(ks, cur, m, g) by {
                            let g2 = WitFuncDef { name: g.name, doc: item_doc, params: g.params, result: g.result, is_static: g.is_static, is_constructor: g.is_constructor };
                            
                        }
                        lemma_members_stuck(ks, p0, cur, n);
                        lemma_resource_err(ks, p0, cur, ms);
                    }
                    return Err(unexpected_in("resource", &other, self.offset()));
                },
            }
            proof {
                assert(member_at(ks, q, self.pos as int, f));
                lemma_members_step(ks, p0, cur, n, self.pos as int, f);
                assert(ms.push(f).drop_last() =~= ms);
                assert(ms.push(f).last() == f);
                ms = ms.push(f);
            }
        }
        proof {
            assert(members_at(ks, p0 + 3, body_end, ms));
        }
        Ok(WitTypeDef { name, doc, kind: WitTypeDefKind::Resource(resource) })
    }

    /// Parses a world `import` item.
    fn parse_world_import(&mut self) -> (r: Result<WitWorldImport, WitParseError>)
        requires
            old(self).wf(),
        ensures
            final(self).wf(),
            final(self).tokens == old(self).tokens,
            final(self).pos >= old(self).pos,
            r matches Ok(i) ==> import_spelled(old(self).kinds(), old(self).pos as int, i) == Some(
                final(self).pos as int,
            ),
            r is Ok ==> final(self).pos > old(self).pos,
            r is Err ==> forall|it: WitWorldImport| #[trigger] import_spelled(old(self).kinds(), old(self).pos as int, it) is None,
            r matches Err(e) ==> ref_res(
                old(self).kinds(),
                old(self).pos as int,
                TokenKindView::Import,
                "expected `:` or `;` after import name"@,
            ) matches Err((m, i)) && e.message@ == m && e.offset == old(self).offset_at(i),
    {
        let ghost ks = self.kinds();
        let ghost p0 = self.pos as int;
        self.expect(&WitTokenKind::Import)?;
        let name = self.expect_ident()?;
        if self.eat(&WitTokenKind::Colon) {
            if self.at(&WitTokenKind::Func) {
                let func = match self.parse_func_body(name.clone(), None) {
                    Ok(f) => f,
                    Err(e) => {
                        proof {
                            assert forall|it: WitWorldImport| #[trigger] import_spelled(ks, p0, it) is None by {
                                if let WitWorldImport::Func { name: _, func: g } = it {
                                    assert(func_sig_spelled(ks, p0 + 3, g) is None);
                                }
                            }
                        }
                        return Err(e);
                    },
                };
                match self.expect(&WitTokenKind::Semicolon) {
                    Ok(()) => {},
                    Err(e) => {
                        proof {
                            assert forall|it: WitWorldImport| #[trigger] import_spelled(ks, p0, it) is None by {
                                if let WitWorldImport::Func { name: _, func: g } = it {
                                    if func_sig_spelled(ks, p0 + 3, g) is Some {
                                        lemma_func_sig_end_unique(ks, p0 + 3, func, g);
                                    }
                                }
                            }
                        }
                        return Err(e);
                    },
                }
                let i = WitWorldImport::Func { name, func };
                proof {
                    assert(import_spelled(ks, p0, i) == Some(self.pos as int));
                }
                return Ok(i);
            }
            let path = self.parse_extern_path_rest(name.as_str())?;
            self.expect(&WitTokenKind::Semicolon)?;
            let i = WitWorldImport::InterfacePath(path);
            proof {
                assert(import_spelled(ks, p0, i) == Some(self.pos as int));
            }
            Ok(i)
        } else if self.at(&WitTokenKind::Semicolon) {
            self.advance();
            let i = WitWorldImport::InterfacePath(WitExternPath { path: name });
            proof {
                assert(import_spelled(ks, p0, i) == Some(self.pos as int));
            }
            Ok(i)
        } else {
            Err(
                WitParseError {
                    message: owned("expected `:` or `;` after import name"),
                    offset: self.offset(),
                },
            )
        }
    }

    /// Parses a world `export` item.
    fn parse_world_export(&mut self) -> (r: Result<WitWorldExport, WitParseError>)
        requires
            old(self).wf(),
        ensures
            final(self).wf(),
            final(self).tokens == old(self).tokens,
            final(self).pos >= old(self).pos,
            r matches Ok(x) ==> export_spelled(old(self).kinds(), old(self).pos as int, x) == Some(
                final(self).pos as int,
            ),
            r is Ok ==> final(self).pos > old(self).pos,
            r is Err ==> forall|it: WitWorldExport| #[trigger] export_spelled(old(self).kinds(), old(self).pos as int, it) is None,
            r matches Err(e) ==> ref_res(
                old(self).kinds(),
                old(self).pos as int,
                TokenKindView::Export,
                "expected `:` or `;` after export name"@,
            ) matches Err((m, i)) && e.message@ == m && e.offset == old(self).offset_at(i),
    {
        let ghost ks = self.kinds();
        let ghost p0 = self.pos as int;
        self.expect(&WitTokenKind::Export)?;
        let name = self.expect_ident()?;
        if self.eat(&WitTokenKind::Colon) {
            if self.at(&WitTokenKind::Func) {
                let func = match self.parse_func_body(name.clone(), None) {
                    Ok(f) => f,
                    Err(e) => {
                        proof {
                            assert forall|it: WitWorldExport| #[trigger] export_spelled(ks, p0, it) is None by {
                                if let WitWorldExport::Func { name: _, func: g } = it {
                                    assert(func_sig_spelled(ks, p0 + 3, g) is None);
                                }
                            }
                        }
                        return Err(e);
                    },
                };
                match self.expect(&WitTokenKind::Semicolon) {
                    Ok(()) => {},
                    Err(e) => {
                        proof {
                            assert forall|it: WitWorldExport| #[trigger] export_spelled(ks, p0, it) is None by {
                                if let WitWorldExport::Func { name: _, func: g } = it {
                                    if func_sig_spelled(ks, p0 + 3, g) is Some {
                                        lemma_func_sig_end_unique(ks, p0 + 3, func, g);
                                    }
                                }
                            }
                        }
                        return Err(e);
                    },
                }
                let x = WitWorldExport::Func { name, func };
                proof {
                    assert(export_spelled(ks, p0, x) == Some(self.pos as int));
                }
                return Ok(x);
            }
            let path = self.parse_extern_path_rest(name.as_str())?;
            self.expect(&WitTokenKind::Semicolon)?;
            let x = WitWorldExport::InterfacePath(path);
            proof {
                assert(export_spelled(ks, p0, x) == Some(self.pos as int));
            }
            Ok(x)
        } else if self.at(&WitTokenKind::Semicolon) {
            self.advance();
            let x = WitWorldExport::InterfacePath(WitExternPath { path: name });
            proof {
                assert(export_spelled(ks, p0, x) == Some(self.pos as int));
            }
            Ok(x)
        } else {
            Err(
                WitParseError {
                    message: owned("expected `:` or `;` after export name"),
                    offset: self.offset(),
                },
            )
        }
    }
}


/// Two top-level items read from the same place end at the same place.
proof fn lemma_top_item_end_unique(ks: Seq<TokenKindView>, p: int, e1: int, i1: TopItem, e2: int, i2: TopItem)
    requires
        top_item_at(ks, p, e1, i1),
        top_item_at(ks, p, e2, i2),
    ensures
        e1 == e2,
{
    let d = doc_end(ks, p);
    match (i1, i2) {
        (TopItem::Interface(a), TopItem::Interface(b)) => {
            let b1 = choose|be: int| block_frame(ks, p, be, e1, TokenKindView::Interface, a.name@, a.doc) && #[trigger] iface_items_at(ks, d + 3, be, a.items@);
            let b2 = choose|be: int| block_frame(ks, p, be, e2, TokenKindView::Interface, b.name@, b.doc) && #[trigger] iface_items_at(ks, d + 3, be, b.items@);
            lemma_iface_chain_unique(ks, d + 3, b1, a.items@, b2, b.items@);
        },
        (TopItem::World(a), TopItem::World(b)) => {
            let b1 = choose|be: int| block_frame(ks, p, be, e1, TokenKindView::World, a.name@, a.doc) && #[trigger] world_items_at(ks, d + 3, be, a.items@);
            let b2 = choose|be: int| block_frame(ks, p, be, e2, TokenKindView::World, b.name@, b.doc) && #[trigger] world_items_at(ks, d + 3, be, b.items@);
            lemma_world_chain_unique(ks, d + 3, b1, a.items@, b2, b.items@);
        },
        (TopItem::Use(a), TopItem::Use(b)) => lemma_use_end_unique(ks, d, a, b),
        _ => {},
    }
}

/// Reads the first item off a chain of top-level items.
proof fn lemma_top_items_split(ks: Seq<TokenKindView>, s: int, e: int, items: Seq<TopItem>) -> (mid: int)
    requires
        top_items_at(ks, s, e, items),
        items.len() > 0,
    ensures
        top_item_at(ks, s, mid, items[0]),
        top_items_at(ks, mid, e, items.drop_first()),
    decreases items.len(),
{
    let m0 = choose|m: int| #[trigger] top_item_at(ks, m, e, items.last()) && top_items_at(ks, s, m, items.drop_last());
    if items.len() == 1 {
        assert(items.drop_first().len() == 0);
        e
    } else {
        let init = items.drop_last();
        let m = lemma_top_items_split(ks, s, m0, init);
        let rest = items.drop_first();
        assert(rest.drop_last() =~= init.drop_first());
        assert(rest.last() == items.last());
        assert(init[0] == items[0]);
        m
    }
}

/// The same as `top_items_at`, named apart for use as a trigger.
pub open spec fn top_chain_at(ks: Seq<TokenKindView>, pos: int, end: int, items: Seq<TopItem>) -> bool {
    top_items_at(ks, pos, end, items)
}

/// Every chain of top-level items from `pos0` that the end of the tokens
/// follows runs through `cur` after `n` items.
pub open spec fn top_through(ks: Seq<TokenKindView>, pos0: int, cur: int, n: int) -> bool {
    forall|e: int, full: Seq<TopItem>| #[trigger] top_chain_at(ks, pos0, e, full) && tok(ks, doc_end(ks, e)) is Eof
        ==> full.len() >= n && top_items_at(ks, cur, e, full.skip(n))
}

/// Where no top-level item can be read at `cur`, no chain through `cur`
/// reaches the end of the tokens.
proof fn lemma_top_stuck(ks: Seq<TokenKindView>, pos0: int, cur: int, n: int)
    requires
        top_through(ks, pos0, cur, n),
        !(tok(ks, doc_end(ks, cur)) is Eof),
        forall|m: int, it: TopItem| !#[trigger] top_item_at(ks, cur, m, it),
    ensures
        forall|e: int, full: Seq<TopItem>| #[trigger] top_items_at(ks, pos0, e, full)
            ==> !(tok(ks, doc_end(ks, e)) is Eof),
{
    assert forall|e: int, full: Seq<TopItem>| #[trigger] top_items_at(ks, pos0, e, full) implies !(tok(ks, doc_end(ks, e)) is Eof) by {
        if tok(ks, doc_end(ks, e)) is Eof {
            assert(top_chain_at(ks, pos0, e, full));
            let sub = full.skip(n);
            if sub.len() > 0 {
                let mid = lemma_top_items_split(ks, cur, e, sub);
                assert(top_item_at(ks, cur, mid, sub[0]));
            }
        }
    }
}

/// Reading one top-level item at `cur` moves the chains on past it.
#[verifier::spinoff_prover]
#[verifier::rlimit(80)]
proof fn lemma_top_step(ks: Seq<TokenKindView>, pos0: int, cur: int, n: int, q: int, item: TopItem)
    requires
        0 <= n,
        top_through(ks, pos0, cur, n),
        top_item_at(ks, cur, q, item),
    ensures
        top_through(ks, pos0, q, n + 1),
{
    assert forall|e: int, full: Seq<TopItem>| #[trigger] top_chain_at(ks, pos0, e, full) && tok(ks, doc_end(ks, e)) is Eof implies full.len() >= n + 1 && top_items_at(ks, q, e, full.skip(n + 1)) by {
        let sub = full.skip(n);
        assert(top_items_at(ks, cur, e, sub));
        assert(full.len() >= n);
        if sub.len() > 0 {
            let mid = lemma_top_items_split(ks, cur, e, sub);
            lemma_top_item_end_unique(ks, cur, mid, sub[0], q, item);
            assert(sub.drop_first() =~= full.skip(n + 1));
        } else {
            assert(top_item_at(ks, cur, q, item));
        }
    }
}

// ─────────────────────────────────────────────────────────────────────
// Where a block stops parsing, and the error it then reports
// ─────────────────────────────────────────────────────────────────────

/// The interface items read from `s` stop at `c`: a chain of items runs
/// from `s` to `c`, and no further item can be read at `c`.
pub open spec fn iface_stops_at(ks: Seq<TokenKindView>, s: int, c: int) -> bool {
    &&& exists|items: Seq<WitInterfaceItem>| #[trigger] iface_items_at(ks, s, c, items)
    &&& forall|m: int, it: WitInterfaceItem| !#[trigger] iface_item_at(ks, c, m, it)
}

/// Where the interface items read from `s` stop.
pub open spec fn iface_stop(ks: Seq<TokenKindView>, s: int) -> int {
    choose|c: int| iface_stops_at(ks, s, c)
}

/// The world items read from `s` stop at `c`.
pub open spec fn world_stops_at(ks: Seq<TokenKindView>, s: int, c: int) -> bool {
    &&& exists|items: Seq<WitWorldItem>| #[trigger] world_items_at(ks, s, c, items)
    &&& forall|m: int, it: WitWorldItem| !#[trigger] world_item_at(ks, c, m, it)
}

/// Where the world items read from `s` stop.
pub open spec fn world_stop(ks: Seq<TokenKindView>, s: int) -> int {
    choose|c: int| world_stops_at(ks, s, c)
}

/// The top-level items read from `s` stop at `c`.
pub open spec fn top_stops_at(ks: Seq<TokenKindView>, s: int, c: int) -> bool {
    &&& exists|items: Seq<TopItem>| #[trigger] top_items_at(ks, s, c, items)
    &&& forall|m: int, it: TopItem| !#[trigger] top_item_at(ks, c, m, it)
}

/// Where the top-level items read from `s` stop.
pub open spec fn top_stop(ks: Seq<TokenKindView>, s: int) -> int {
    choose|c: int| top_stops_at(ks, s, c)
}

/// The error parsing an interface at `p` reports, where it fails: that of
/// its header; else that of the item where its items stop; or, where no
/// item begins there, an unexpected token (or the end of the tokens) in
/// the interface.
pub open spec fn interface_err(ks: Seq<TokenKindView>, p: int) -> Option<(Seq<char>, int)> {
    match header_err(ks, p, TokenKindView::Interface) {
        Some(e) => Some(e),
        None => {
            iface_item_err(ks, doc_end(ks, iface_stop(ks, p + 3)))
        },
    }
}

/// The error parsing a world at `p` reports, where it fails.
pub open spec fn world_err(ks: Seq<TokenKindView>, p: int) -> Option<(Seq<char>, int)> {
    match header_err(ks, p, TokenKindView::World) {
        Some(e) => Some(e),
        None => {
            world_item_err(ks, doc_end(ks, world_stop(ks, p + 3)))
        },
    }
}

/// The error parsing a document from `s` reports, where it fails: that of
/// the interface, world, package declaration or `use` where its top-level
/// items stop, or an unexpected top-level token.
pub open spec fn document_err(ks: Seq<TokenKindView>, s: int) -> Option<(Seq<char>, int)> {
    let p = doc_end(ks, top_stop(ks, s));
    let k = tok(ks, p);
    if k == TokenKindView::Interface {
        interface_err(ks, p)
    } else if k == TokenKindView::World {
        world_err(ks, p)
    } else if k == TokenKindView::Package {
        res_err(package_res(ks, p))
    } else if k == TokenKindView::Use {
        res_err(use_res(ks, p))
    } else {
        Some(("unexpected top-level token: `"@ + kind_text(k) + "`"@, p))
    }
}

/// Two item chains from `s` that both stop end at the same place.
proof fn lemma_iface_stops_unique(
    ks: Seq<TokenKindView>,
    s: int,
    c1: int,
    m1: Seq<WitInterfaceItem>,
    c2: int,
    m2: Seq<WitInterfaceItem>,
)
    requires
        iface_items_at(ks, s, c1, m1),
        iface_items_at(ks, s, c2, m2),
        forall|m: int, it: WitInterfaceItem| !#[trigger] iface_item_at(ks, c1, m, it),
        forall|m: int, it: WitInterfaceItem| !#[trigger] iface_item_at(ks, c2, m, it),
    ensures
        c1 == c2,
    decreases m1.len(),
{
    if m1.len() == 0 {
        if m2.len() > 0 {
            let b = lemma_iface_items_split(ks, s, c2, m2);
            assert(iface_item_at(ks, c1, b, m2[0]));
        }
    } else if m2.len() == 0 {
        let a = lemma_iface_items_split(ks, s, c1, m1);
        assert(iface_item_at(ks, c2, a, m1[0]));
    } else {
        let a = lemma_iface_items_split(ks, s, c1, m1);
        let b = lemma_iface_items_split(ks, s, c2, m2);
        lemma_iface_item_end_unique(ks, s, a, m1[0], b, m2[0]);
        lemma_iface_stops_unique(ks, a, c1, m1.drop_first(), c2, m2.drop_first());
    }
}

/// Where a chain of interface items from `s` reaches `c` and no item can be
/// read at `c`, the items stop at `c`.
proof fn lemma_iface_stop_is(ks: Seq<TokenKindView>, s: int, c: int, items: Seq<WitInterfaceItem>)
    requires
        iface_items_at(ks, s, c, items),
        forall|m: int, it: WitInterfaceItem| !#[trigger] iface_item_at(ks, c, m, it),
    ensures
        iface_stop(ks, s) == c,
{
    assert(iface_stops_at(ks, s, c));
    let c2 = iface_stop(ks, s);
    let m2 = choose|items: Seq<WitInterfaceItem>| #[trigger] iface_items_at(ks, s, c2, items);
    lemma_iface_stops_unique(ks, s, c, items, c2, m2);
}

/// Two world item chains from `s` that both stop end at the same place.
proof fn lemma_world_stops_unique(
    ks: Seq<TokenKindView>,
    s: int,
    c1: int,
    m1: Seq<WitWorldItem>,
    c2: int,
    m2: Seq<WitWorldItem>,
)
    requires
        world_items_at(ks, s, c1, m1),
        world_items_at(ks, s, c2, m2),
        forall|m: int, it: WitWorldItem| !#[trigger] world_item_at(ks, c1, m, it),
        forall|m: int, it: WitWorldItem| !#[trigger] world_item_at(ks, c2, m, it),
    ensures
        c1 == c2,
    decreases m1.len(),
{
    if m1.len() == 0 {
        if m2.len() > 0 {
            let b = lemma_world_items_split(ks, s, c2, m2);
            assert(world_item_at(ks, c1, b, m2[0]));
        }
    } else if m2.len() == 0 {
        let a = lemma_world_items_split(ks, s, c1, m1);
        assert(world_item_at(ks, c2, a, m1[0]));
    } else {
        let a = lemma_world_items_split(ks, s, c1, m1);
        let b = lemma_world_items_split(ks, s, c2, m2);
        lemma_world_item_end_unique(ks, s, a, m1[0], b, m2[0]);
        lemma_world_stops_unique(ks, a, c1, m1.drop_first(), c2, m2.drop_first());
    }
}

/// Where a chain of world items from `s` reaches `c` and no item can be
/// read at `c`, the items stop at `c`.
proof fn lemma_world_stop_is(ks: Seq<TokenKindView>, s: int, c: int, items: Seq<WitWorldItem>)
    requires
        world_items_at(ks, s, c, items),
        forall|m: int, it: WitWorldItem| !#[trigger] world_item_at(ks, c, m, it),
    ensures
        world_stop(ks, s) == c,
{
    assert(world_stops_at(ks, s, c));
    let c2 = world_stop(ks, s);
    let m2 = choose|items: Seq<WitWorldItem>| #[trigger] world_items_at(ks, s, c2, items);
    lemma_world_stops_unique(ks, s, c, items, c2, m2);
}

/// Two top-level item chains from `s` that both stop end at the same place.
proof fn lemma_top_stops_unique(
    ks: Seq<TokenKindView>,
    s: int,
    c1: int,
    m1: Seq<TopItem>,
    c2: int,
    m2: Seq<TopItem>,
)
    requires
        top_items_at(ks, s, c1, m1),
        top_items_at(ks, s, c2, m2),
        forall|m: int, it: TopItem| !#[trigger] top_item_at(ks, c1, m, it),
        forall|m: int, it: TopItem| !#[trigger] top_item_at(ks, c2, m, it),
    ensures
        c1 == c2,
    decreases m1.len(),
{
    if m1.len() == 0 {
        if m2.len() > 0 {
            let b = lemma_top_items_split(ks, s, c2, m2);
            assert(top_item_at(ks, c1, b, m2[0]));
        }
    } else if m2.len() == 0 {
        let a = lemma_top_items_split(ks, s, c1, m1);
        assert(top_item_at(ks, c2, a, m1[0]));
    } else {
        let a = lemma_top_items_split(ks, s, c1, m1);
        let b = lemma_top_items_split(ks, s, c2, m2);
        lemma_top_item_end_unique(ks, s, a, m1[0], b, m2[0]);
        lemma_top_stops_unique(ks, a, c1, m1.drop_first(), c2, m2.drop_first());
    }
}

/// Where a chain of top-level items from `s` reaches `c` and no item can
/// be read at `c`, the items stop at `c`.
proof fn lemma_top_stop_is(ks: Seq<TokenKindView>, s: int, c: int, items: Seq<TopItem>)
    requires
        top_items_at(ks, s, c, items),
        forall|m: int, it: TopItem| !#[trigger] top_item_at(ks, c, m, it),
    ensures
        top_stop(ks, s) == c,
{
    assert(top_stops_at(ks, s, c));
    let c2 = top_stop(ks, s);
    let m2 = choose|items: Seq<TopItem>| #[trigger] top_items_at(ks, s, c2, items);
    lemma_top_stops_unique(ks, s, c, items, c2, m2);
}

/// Doc comments are skipped forwards.
pub proof fn lemma_doc_end_ge(ks: Seq<TokenKindView>, i: int)
    ensures
        doc_end(ks, i) >= i,
    decreases ks.len() - i,
{
    if tok(ks, i) is DocComment {
        lemma_doc_end_ge(ks, i + 1);
    }
}

/// The error a block header `keyword name {` at `p` reports, if any.
pub open spec fn header_err(ks: Seq<TokenKindView>, p: int, keyword: TokenKindView) -> Option<(Seq<char>, int)> {
    if tok(ks, p) != keyword {
        Some(expect_err(ks, p, keyword))
    } else if !(tok(ks, p + 1) is Ident) {
        Some(ident_err(ks, p + 1))
    } else if tok(ks, p + 2) != TokenKindView::LBrace {
        Some(expect_err(ks, p + 2, TokenKindView::LBrace))
    } else {
        None
    }
}

/// Parsing record fields from `p`, the closing brace included: where they
/// end, or the error.
pub open spec fn record_fields_res(ks: Seq<TokenKindView>, p: int) -> Result<int, (Seq<char>, int)>
    decreases ks.len() - p,
{
    let d = doc_end(ks, p);
    if tok(ks, d) == TokenKindView::RBrace {
        Ok(d + 1)
    } else if !(tok(ks, d) is Ident) {
        Err(ident_err(ks, d))
    } else if tok(ks, d + 1) != TokenKindView::Colon {
        Err(expect_err(ks, d + 1, TokenKindView::Colon))
    } else {
        match type_err(ks, d + 2) {
            Some(e) => Err(e),
            None => if !spells_type(ks, d + 2) {
                Ok(d)
            } else {
                let q = type_end(ks, d + 2);
                if tok(ks, q) == TokenKindView::Comma {
                    proof {
                        lemma_doc_end_ge(ks, p);
                        let t = choose|t: WitTypeRef| #[trigger] type_spelled(ks, d + 2, t) is Some;
                        lemma_type_end(ks, d + 2, t);
                    }
                    record_fields_res(ks, q + 1)
                } else if tok(ks, q) != TokenKindView::RBrace {
                    Err(expect_err(ks, q, TokenKindView::RBrace))
                } else {
                    Ok(q + 1)
                }
            },
        }
    }
}

/// Parsing a list of names from `p` (enum cases or flags), the closing
/// brace included: where it ends, or the error.
pub open spec fn names_res(ks: Seq<TokenKindView>, p: int) -> Result<int, (Seq<char>, int)>
    decreases ks.len() - p,
{
    let d = doc_end(ks, p);
    if tok(ks, d) == TokenKindView::RBrace {
        Ok(d + 1)
    } else if !(tok(ks, d) is Ident) {
        Err(ident_err(ks, d))
    } else if tok(ks, d + 1) == TokenKindView::Comma {
        proof {
            lemma_doc_end_ge(ks, p);
        }
        names_res(ks, d + 2)
    } else if tok(ks, d + 1) != TokenKindView::RBrace {
        Err(expect_err(ks, d + 1, TokenKindView::RBrace))
    } else {
        Ok(d + 2)
    }
}

/// Parsing the `(type)` payload of a variant case at `p`, if there is one:
/// where the case ends, or the error.
pub open spec fn payload_res(ks: Seq<TokenKindView>, p: int) -> Result<int, (Seq<char>, int)> {
    if tok(ks, p) != TokenKindView::LParen {
        Ok(p)
    } else {
        match type_err(ks, p + 1) {
            Some(e) => Err(e),
            None => if !spells_type(ks, p + 1) {
                Ok(p + 1)
            } else if tok(ks, type_end(ks, p + 1)) != TokenKindView::RParen {
                Err(expect_err(ks, type_end(ks, p + 1), TokenKindView::RParen))
            } else {
                Ok(type_end(ks, p + 1) + 1)
            },
        }
    }
}

/// Parsing variant cases from `p`, the closing brace included: where they
/// end, or the error.
pub open spec fn variant_cases_res(ks: Seq<TokenKindView>, p: int) -> Result<int, (Seq<char>, int)>
    decreases ks.len() - p,
{
    let d = doc_end(ks, p);
    if tok(ks, d) == TokenKindView::RBrace {
        Ok(d + 1)
    } else if !(tok(ks, d) is Ident) {
        Err(ident_err(ks, d))
    } else {
        match payload_res(ks, d + 1) {
            Err(e) => Err(e),
            Ok(r) => if tok(ks, r) == TokenKindView::Comma {
                proof {
                    lemma_doc_end_ge(ks, p);
                    if tok(ks, d + 1) == TokenKindView::LParen && spells_type(ks, d + 2) {
                        let t = choose|t: WitTypeRef| #[trigger] type_spelled(ks, d + 2, t) is Some;
                        lemma_type_end(ks, d + 2, t);
                    }
                }
                variant_cases_res(ks, r + 1)
            } else if tok(ks, r) != TokenKindView::RBrace {
                Err(expect_err(ks, r, TokenKindView::RBrace))
            } else {
                Ok(r + 1)
            },
        }
    }
}

/// Parsing `keyword name { ... }` at `p` for a record, enum, variant or
/// flags: where it ends, or the error.
pub open spec fn typedef_res(ks: Seq<TokenKindView>, p: int, keyword: TokenKindView) -> Result<int, (Seq<char>, int)> {
    match header_err(ks, p, keyword) {
        Some(e) => Err(e),
        None => if keyword == TokenKindView::Record {
            record_fields_res(ks, p + 3)
        } else if keyword == TokenKindView::Variant {
            variant_cases_res(ks, p + 3)
        } else {
            names_res(ks, p + 3)
        },
    }
}

/// Parsing the rest of an interface path (after `namespace:`) from `p`:
/// where it ends, or the error.
pub open spec fn extern_rest_res(ks: Seq<TokenKindView>, p: int) -> Result<int, (Seq<char>, int)> {
    if !(tok(ks, p) is Ident) {
        Err(ident_err(ks, p))
    } else if tok(ks, p + 1) == TokenKindView::Slash && !(tok(ks, p + 2) is Ident) {
        Err(ident_err(ks, p + 2))
    } else {
        let q = if tok(ks, p + 1) == TokenKindView::Slash {
            p + 3
        } else {
            p + 1
        };
        if tok(ks, q) != TokenKindView::At {
            Ok(q)
        } else if tok(ks, q + 1) is SemVer {
            Ok(q + 2)
        } else {
            Ok(q + 1)
        }
    }
}

/// Parsing `name [as alias], ... }` from `p`: where it ends, or the error.
pub open spec fn use_names_res(ks: Seq<TokenKindView>, p: int) -> Result<int, (Seq<char>, int)>
    decreases ks.len() - p,
{
    if tok(ks, p) == TokenKindView::RBrace {
        Ok(p + 1)
    } else if !(tok(ks, p) is Ident) {
        Err(ident_err(ks, p))
    } else {
        let after = if tok(ks, p + 1) == TokenKindView::Ident("as"@) {
            if !(tok(ks, p + 2) is Ident) {
                Err(ident_err(ks, p + 2))
            } else {
                Ok(p + 3)
            }
        } else {
            Ok(p + 1)
        };
        match after {
            Err(e) => Err(e),
            Ok(q) => if tok(ks, q) == TokenKindView::Comma {
                use_names_res(ks, q + 1)
            } else if tok(ks, q) != TokenKindView::RBrace {
                Err(expect_err(ks, q, TokenKindView::RBrace))
            } else {
                Ok(q + 1)
            },
        }
    }
}

/// What follows a part that ends as `res`: a `;`, or the error.
pub open spec fn semicolon_res(ks: Seq<TokenKindView>, res: Result<int, (Seq<char>, int)>) -> Result<
    int,
    (Seq<char>, int),
> {
    match res {
        Err(e) => Err(e),
        Ok(r) => if tok(ks, r) != TokenKindView::Semicolon {
            Err(expect_err(ks, r, TokenKindView::Semicolon))
        } else {
            Ok(r + 1)
        },
    }
}

/// Where the source of a `use` at `p` ends, after its first name.
pub open spec fn use_from_res(ks: Seq<TokenKindView>, p: int) -> Result<int, (Seq<char>, int)> {
    if tok(ks, p + 2) == TokenKindView::Colon {
        extern_rest_res(ks, p + 3)
    } else {
        Ok(p + 2)
    }
}

/// Parsing `use path.{names};` from `p`: where it ends, or the error.
pub open spec fn use_res(ks: Seq<TokenKindView>, p: int) -> Result<int, (Seq<char>, int)> {
    if tok(ks, p) != TokenKindView::Use {
        Err(expect_err(ks, p, TokenKindView::Use))
    } else if !(tok(ks, p + 1) is Ident) {
        Err(ident_err(ks, p + 1))
    } else {
        match use_from_res(ks, p) {
            Err(e) => Err(e),
            Ok(q) => if tok(ks, q) != TokenKindView::Dot {
                Err(expect_err(ks, q, TokenKindView::Dot))
            } else if tok(ks, q + 1) != TokenKindView::LBrace {
                Err(expect_err(ks, q + 1, TokenKindView::LBrace))
            } else {
                semicolon_res(ks, use_names_res(ks, q + 2))
            },
        }
    }
}

/// Parsing `package ns:name[@version];` from `p`: where it ends, or the
/// error.
pub open spec fn package_res(ks: Seq<TokenKindView>, p: int) -> Result<int, (Seq<char>, int)> {
    if tok(ks, p) != TokenKindView::Package {
        Err(expect_err(ks, p, TokenKindView::Package))
    } else if !(tok(ks, p + 1) is Ident) {
        Err(ident_err(ks, p + 1))
    } else if tok(ks, p + 2) != TokenKindView::Colon {
        Err(expect_err(ks, p + 2, TokenKindView::Colon))
    } else if !(tok(ks, p + 3) is Ident) {
        Err(ident_err(ks, p + 3))
    } else if tok(ks, p + 4) == TokenKindView::At {
        if !(tok(ks, p + 5) is SemVer) {
            Err(("expected version after `@`, found `"@ + kind_text(tok(ks, p + 5)) + "`"@, p + 5))
        } else {
            semicolon_res(ks, Ok(p + 6))
        }
    } else {
        semicolon_res(ks, Ok(p + 4))
    }
}

/// Parsing a world `import` or `export` (keyword `kw`) from `p`: where it
/// ends, or the error; `message` is the one for a name followed by
/// neither `:` nor `;`.
pub open spec fn ref_res(ks: Seq<TokenKindView>, p: int, kw: TokenKindView, message: Seq<char>) -> Result<
    int,
    (Seq<char>, int),
> {
    if tok(ks, p) != kw {
        Err(expect_err(ks, p, kw))
    } else if !(tok(ks, p + 1) is Ident) {
        Err(ident_err(ks, p + 1))
    } else if tok(ks, p + 2) == TokenKindView::Colon {
        if tok(ks, p + 3) == TokenKindView::Func {
            semicolon_res(ks, func_body_res(ks, p + 3))
        } else {
            semicolon_res(ks, extern_rest_res(ks, p + 3))
        }
    } else if tok(ks, p + 2) == TokenKindView::Semicolon {
        Ok(p + 3)
    } else {
        Err((message, p + 2))
    }
}

/// Parsing `type name = T;` from `p`: where it ends, or the error.
pub open spec fn alias_res(ks: Seq<TokenKindView>, p: int) -> Result<int, (Seq<char>, int)> {
    if tok(ks, p) != TokenKindView::Type {
        Err(expect_err(ks, p, TokenKindView::Type))
    } else if !(tok(ks, p + 1) is Ident) {
        Err(ident_err(ks, p + 1))
    } else if tok(ks, p + 2) != TokenKindView::Equals {
        Err(expect_err(ks, p + 2, TokenKindView::Equals))
    } else {
        match type_err(ks, p + 3) {
            Some(e) => Err(e),
            None => if tok(ks, type_end(ks, p + 3)) != TokenKindView::Semicolon {
                Err(expect_err(ks, type_end(ks, p + 3), TokenKindView::Semicolon))
            } else {
                Ok(type_end(ks, p + 3) + 1)
            },
        }
    }
}

/// Parsing `include name;` from `p`, after the keyword is read: where it
/// ends, or the error.
pub open spec fn include_res(ks: Seq<TokenKindView>, p: int) -> Result<int, (Seq<char>, int)> {
    if !(tok(ks, p + 1) is Ident) {
        Err(ident_err(ks, p + 1))
    } else if tok(ks, p + 2) != TokenKindView::Semicolon {
        Err(expect_err(ks, p + 2, TokenKindView::Semicolon))
    } else {
        Ok(p + 3)
    }
}

/// The keywords of the type definitions written as blocks.
pub open spec fn is_block_typedef(k: TokenKindView) -> bool {
    k == TokenKindView::Record || k == TokenKindView::Enum || k == TokenKindView::Variant || k == TokenKindView::Flags
}

/// The error of a part whose parse ends or fails as `res` says, if any.
pub open spec fn res_err(res: Result<int, (Seq<char>, int)>) -> Option<(Seq<char>, int)> {
    match res {
        Err(e) => Some(e),
        Ok(_) => None,
    }
}

/// The error reading a resource member at `d` reports, if it fails.
pub open spec fn member_err(ks: Seq<TokenKindView>, d: int) -> Option<(Seq<char>, int)> {
    let k = tok(ks, d);
    if k == TokenKindView::Constructor {
        res_err(constructor_res(ks, d))
    } else if k is Ident {
        res_err(func_item_res(ks, d))
    } else {
        Some((unexpected_in_message("resource"@, k), d))
    }
}

/// The error reading an interface item at `d` reports, if it fails.
pub open spec fn iface_item_err(ks: Seq<TokenKindView>, d: int) -> Option<(Seq<char>, int)> {
    let k = tok(ks, d);
    if k == TokenKindView::Resource {
        resource_err(ks, d)
    } else if k == TokenKindView::Type {
        res_err(alias_res(ks, d))
    } else if is_block_typedef(k) {
        res_err(typedef_res(ks, d, k))
    } else if k is Ident {
        res_err(func_item_res(ks, d))
    } else if k == TokenKindView::Constructor {
        res_err(constructor_res(ks, d))
    } else if k == TokenKindView::Use {
        res_err(use_res(ks, d))
    } else {
        Some((unexpected_in_message("interface"@, k), d))
    }
}

/// The error reading a world item at `d` reports, if it fails.
pub open spec fn world_item_err(ks: Seq<TokenKindView>, d: int) -> Option<(Seq<char>, int)> {
    let k = tok(ks, d);
    if k == TokenKindView::Type {
        res_err(alias_res(ks, d))
    } else if is_block_typedef(k) {
        res_err(typedef_res(ks, d, k))
    } else if k == TokenKindView::Import {
        res_err(ref_res(ks, d, k, "expected `:` or `;` after import name"@))
    } else if k == TokenKindView::Export {
        res_err(ref_res(ks, d, k, "expected `:` or `;` after export name"@))
    } else if k == TokenKindView::Include {
        res_err(include_res(ks, d))
    } else if k == TokenKindView::Use {
        res_err(use_res(ks, d))
    } else {
        Some((unexpected_in_message("world"@, k), d))
    }
}

/// The resource members read from `s` stop at `c`.
pub open spec fn members_stops_at(ks: Seq<TokenKindView>, s: int, c: int) -> bool {
    &&& exists|ms: Seq<WitFuncDef>| #[trigger] members_at(ks, s, c, ms)
    &&& forall|m: int, g: WitFuncDef| !#[trigger] member_at(ks, c, m, g)
}

/// Where the resource members read from `s` stop.
pub open spec fn members_stop(ks: Seq<TokenKindView>, s: int) -> int {
    choose|c: int| members_stops_at(ks, s, c)
}

/// The error parsing a resource at `p` reports, where it fails: that of
/// its header; else that of the member where its members stop, or an
/// unexpected token (or the end of the tokens) in the resource.
pub open spec fn resource_err(ks: Seq<TokenKindView>, p: int) -> Option<(Seq<char>, int)> {
    match header_err(ks, p, TokenKindView::Resource) {
        Some(e) => Some(e),
        None => {
            member_err(ks, doc_end(ks, members_stop(ks, p + 3)))
        },
    }
}

/// Two member chains from `s` that both stop end at the same place.
proof fn lemma_members_stops_unique(
    ks: Seq<TokenKindView>,
    s: int,
    c1: int,
    m1: Seq<WitFuncDef>,
    c2: int,
    m2: Seq<WitFuncDef>,
)
    requires
        members_at(ks, s, c1, m1),
        members_at(ks, s, c2, m2),
        forall|m: int, g: WitFuncDef| !#[trigger] member_at(ks, c1, m, g),
        forall|m: int, g: WitFuncDef| !#[trigger] member_at(ks, c2, m, g),
    ensures
        c1 == c2,
    decreases m1.len(),
{
    if m1.len() == 0 {
        if m2.len() > 0 {
            let b = lemma_members_split(ks, s, c2, m2);
            assert(member_at(ks, c1, b, m2[0]));
        }
    } else if m2.len() == 0 {
        let a = lemma_members_split(ks, s, c1, m1);
        assert(member_at(ks, c2, a, m1[0]));
    } else {
        let a = lemma_members_split(ks, s, c1, m1);
        let b = lemma_members_split(ks, s, c2, m2);
        lemma_member_end_unique(ks, s, a, m1[0], b, m2[0]);
        lemma_members_stops_unique(ks, a, c1, m1.drop_first(), c2, m2.drop_first());
    }
}

/// Where a resource's header parses and its members stop at `cur`, its
/// error is that of the member read after the doc comments at `cur`.
proof fn lemma_resource_err(ks: Seq<TokenKindView>, p0: int, cur: int, ms: Seq<WitFuncDef>)
    requires
        header_err(ks, p0, TokenKindView::Resource) is None,
        members_at(ks, p0 + 3, cur, ms),
        forall|m: int, g: WitFuncDef| !#[trigger] member_at(ks, cur, m, g),
    ensures
        members_stop(ks, p0 + 3) == cur,
        resource_err(ks, p0) == member_err(ks, doc_end(ks, cur)),
{
    assert(members_stops_at(ks, p0 + 3, cur));
    let c2 = members_stop(ks, p0 + 3);
    let m2 = choose|ms: Seq<WitFuncDef>| #[trigger] members_at(ks, p0 + 3, c2, ms);
    lemma_members_stops_unique(ks, p0 + 3, cur, ms, c2, m2);
}

/// Where an interface's header parses and its items stop at `cur`, its
/// error is that of the item read after the doc comments at `cur`.
proof fn lemma_iface_err(ks: Seq<TokenKindView>, p0: int, cur: int, items: Seq<WitInterfaceItem>)
    requires
        header_err(ks, p0, TokenKindView::Interface) is None,
        iface_items_at(ks, p0 + 3, cur, items),
        forall|m: int, it: WitInterfaceItem| !#[trigger] iface_item_at(ks, cur, m, it),
    ensures
        interface_err(ks, p0) == iface_item_err(ks, doc_end(ks, cur)),
{
    lemma_iface_stop_is(ks, p0 + 3, cur, items);
}

/// Where a world's header parses and its items stop at `cur`, its error
/// is that of the item read after the doc comments at `cur`.
proof fn lemma_world_err(ks: Seq<TokenKindView>, p0: int, cur: int, items: Seq<WitWorldItem>)
    requires
        header_err(ks, p0, TokenKindView::World) is None,
        world_items_at(ks, p0 + 3, cur, items),
        forall|m: int, it: WitWorldItem| !#[trigger] world_item_at(ks, cur, m, it),
    ensures
        world_err(ks, p0) == world_item_err(ks, doc_end(ks, cur)),
{
    lemma_world_stop_is(ks, p0 + 3, cur, items);
}

/// Where the top-level items stop at `cur`, the document's error is that
/// of what begins after the doc comments at `cur`.
proof fn lemma_doc_err(ks: Seq<TokenKindView>, s: int, cur: int, items: Seq<TopItem>)
    requires
        top_items_at(ks, s, cur, items),
        forall|m: int, it: TopItem| !#[trigger] top_item_at(ks, cur, m, it),
    ensures
        top_stop(ks, s) == cur,
        document_err(ks, s) == ({
            let p = doc_end(ks, cur);
            let k = tok(ks, p);
            if k == TokenKindView::Interface {
                interface_err(ks, p)
            } else if k == TokenKindView::World {
                world_err(ks, p)
            } else if k == TokenKindView::Package {
                res_err(package_res(ks, p))
            } else if k == TokenKindView::Use {
                res_err(use_res(ks, p))
            } else {
                Some(("unexpected top-level token: `"@ + kind_text(k) + "`"@, p))
            }
        }),
{
    lemma_top_stop_is(ks, s, cur, items);
}

impl WitParser {
    /// Parses `interface name { items }`.
    #[verifier::rlimit(80)]
    fn parse_interface(&mut self, doc: Option<String>) -> (r: Result<WitInterfaceDef, WitParseError>)
        requires
            old(self).wf(),
        ensures
            final(self).wf(),
            final(self).tokens == old(self).tokens,
            final(self).pos >= old(self).pos,
            r matches Ok(b) ==> (b.doc == doc && tok(old(self).kinds(), old(self).pos as int)
                == TokenKindView::Interface && tok(old(self).kinds(), old(self).pos + 1)
                == TokenKindView::Ident(b.name@) && tok(old(self).kinds(), old(self).pos + 2)
                == TokenKindView::LBrace && old(self).pos + 3 < final(self).pos && tok(
                old(self).kinds(),
                final(self).pos - 1,
            ) == TokenKindView::RBrace),
            r matches Ok(b) ==> exists|body_end: int|
                tok(old(self).kinds(), doc_end(old(self).kinds(), body_end)) == TokenKindView::RBrace
                    && final(self).pos == doc_end(old(self).kinds(), body_end) + 1 && #[trigger] iface_items_at(
                    old(self).kinds(),
                    old(self).pos + 3,
                    body_end,
                    b.items@,
                ),
            r is Ok ==> final(self).pos > old(self).pos,
            r matches Err(e) ==> (interface_err(old(self).kinds(), old(self).pos as int) matches Some((m, i))
                && e.message@ == m && e.offset == old(self).offset_at(i)),
            r is Err ==> !(tok(old(self).kinds(), old(self).pos as int) == TokenKindView::Interface && tok(
                old(self).kinds(),
                old(self).pos + 1,
            ) is Ident && tok(old(self).kinds(), old(self).pos + 2) == TokenKindView::LBrace && exists|
                e: int,
                items: Seq<WitInterfaceItem>,
            | #[trigger] iface_items_at(old(self).kinds(), old(self).pos + 3, e, items) && tok(
                old(self).kinds(),
                doc_end(old(self).kinds(), e),
            ) == TokenKindView::RBrace),
    {
        let ghost ks = self.kinds();
        let ghost p0 = self.pos as int;
        self.expect(&WitTokenKind::Interface)?;
        let name = self.expect_ident()?;
        self.expect(&WitTokenKind::LBrace)?;
        let mut items: Vec<WitInterfaceItem> = Vec::new();
        let ghost mut body_end: int = self.pos as int;
        proof {
            assert forall|e: int, full: Seq<WitInterfaceItem>| #[trigger] iface_chain_at(ks, p0 + 3, e, full) && tok(ks, doc_end(ks, e)) == TokenKindView::RBrace implies iface_items_at(ks, p0 + 3, e, full.skip(0)) by {
                assert(full.skip(0) =~= full);
            }
        }
        loop
            invariant_except_break
                iface_items_at(ks, p0 + 3, self.pos as int, items@),
                iface_through(ks, p0, self.pos as int, items@.len() as int),
            invariant
                self.wf(),
                self.tokens == old(self).tokens,
                ks == self.kinds(),
                p0 == old(self).pos,
                p0 + 3 <= self.pos,
                header_err(ks, p0, TokenKindView::Interface) is None,
            ensures
                p0 + 3 < self.pos,
                tok(ks, self.pos - 1) == TokenKindView::RBrace,
                tok(ks, doc_end(ks, body_end)) == TokenKindView::RBrace,
                self.pos == doc_end(ks, body_end) + 1,
                iface_items_at(ks, p0 + 3, body_end, items@),
            decreases self.tokens@.len() - self.pos,
        {
            let ghost q = self.pos as int;
            let ghost cur = q;
            let ghost n = items@.len() as int;
            let item_doc = self.take_doc();
            let ghost d = self.pos as int;
            let item = match self.peek() {
                WitTokenKind::RBrace => {
                    self.advance();
                    proof {
                        body_end = q;
                    }
                    break;
                },
                WitTokenKind::Record => WitInterfaceItem::TypeDef(match self.parse_record(item_doc) {
                    Ok(x) => x,
                    Err(e) => {
                        proof {
                            assert forall|m: int, it: WitInterfaceItem| !#[trigger] iface_item_at(ks, cur, m, it) by {
                                if let WitInterfaceItem::TypeDef(td) = it { let td2 = WitTypeDef { name: td.name, doc: item_doc, kind: td.kind }; assert(typedef_spelled(ks, d, td2, item_doc) is None); }
                            }
                            lemma_iface_stuck(ks, p0, cur, n);
                            lemma_iface_err(ks, p0, cur, items@);
                        }
                        return Err(e);
                    },
                }),
                WitTokenKind::Enum => WitInterfaceItem::TypeDef(match self.parse_enum(item_doc) {
                    Ok(x) => x,
                    Err(e) => {
                        proof {
                            assert forall|m: int, it: WitInterfaceItem| !#[trigger] iface_item_at(ks, cur, m, it) by {
                                if let WitInterfaceItem::TypeDef(td) = it { let td2 = WitTypeDef { name: td.name, doc: item_doc, kind: td.kind }; assert(typedef_spelled(ks, d, td2, item_doc) is None); }
                            }
                            lemma_iface_stuck(ks, p0, cur, n);
                            lemma_iface_err(ks, p0, cur, items@);
                        }
                        return Err(e);
                    },
                }),
                WitTokenKind::Variant => WitInterfaceItem::TypeDef(match self.parse_variant(item_doc) {
                    Ok(x) => x,
                    Err(e) => {
                        proof {
                            assert forall|m: int, it: WitInterfaceItem| !#[trigger] iface_item_at(ks, cur, m, it) by {
                                if let WitInterfaceItem::TypeDef(td) = it { let td2 = WitTypeDef { name: td.name, doc: item_doc, kind: td.kind }; assert(typedef_spelled(ks, d, td2, item_doc) is None); }
                            }
                            lemma_iface_stuck(ks, p0, cur, n);
                            lemma_iface_err(ks, p0, cur, items@);
                        }
                        return Err(e);
                    },
                }),
                WitTokenKind::Flags => WitInterfaceItem::TypeDef(match self.parse_flags(item_doc) {
                    Ok(x) => x,
                    Err(e) => {
                        proof {
                            assert forall|m: int, it: WitInterfaceItem| !#[trigger] iface_item_at(ks, cur, m, it) by {
                                if let WitInterfaceItem::TypeDef(td) = it { let td2 = WitTypeDef { name: td.name, doc: item_doc, kind: td.kind }; assert(typedef_spelled(ks, d, td2, item_doc) is None); }
                            }
                            lemma_iface_stuck(ks, p0, cur, n);
                            lemma_iface_err(ks, p0, cur, items@);
                        }
                        return Err(e);
                    },
                }),
                WitTokenKind::Resource => WitInterfaceItem::TypeDef(match self.parse_resource(item_doc) {
                    Ok(x) => x,
                    Err(e) => {
                        proof {
                            assert forall|m: int, it: WitInterfaceItem| !#[trigger] iface_item_at(ks, cur, m, it) by {
                                if let WitInterfaceItem::TypeDef(td) = it { assert(!resource_shape(ks, d, m, td, td.doc)); }
                            }
                            lemma_iface_stuck(ks, p0, cur, n);
                            lemma_iface_err(ks, p0, cur, items@);
                        }
                        return Err(e);
                    },
                }),
                WitTokenKind::Type => WitInterfaceItem::TypeDef(match self.parse_type_alias(item_doc) {
                    Ok(x) => x,
                    Err(e) => {
                        proof {
                            assert forall|m: int, it: WitInterfaceItem| !#[trigger] iface_item_at(ks, cur, m, it) by {
                                if let WitInterfaceItem::TypeDef(td) = it { let td2 = WitTypeDef { name: td.name, doc: item_doc, kind: td.kind }; assert(typedef_spelled(ks, d, td2, item_doc) is None); }
                            }
                            lemma_iface_stuck(ks, p0, cur, n);
                            lemma_iface_err(ks, p0, cur, items@);
                        }
                        return Err(e);
                    },
                }),
                WitTokenKind::Use => WitInterfaceItem::Use(match self.parse_use() {
                    Ok(x) => x,
                    Err(e) => {
                        proof {
                            assert forall|m: int, it: WitInterfaceItem| !#[trigger] iface_item_at(ks, cur, m, it) by {
                                if let WitInterfaceItem::Use(u) = it { assert(use_spelled(ks, d, u) is None); }
                            }
                            lemma_iface_stuck(ks, p0, cur, n);
                            lemma_iface_err(ks, p0, cur, items@);
                        }
                        return Err(e);
                    },
                }),
                WitTokenKind::Ident(_) => WitInterfaceItem::Func(match self.parse_func_item(item_doc) {
                    Ok(x) => x,
                    Err(e) => {
                        proof {
                            assert forall|m: int, it: WitInterfaceItem| !#[trigger] iface_item_at(ks, cur, m, it) by {
                                if let WitInterfaceItem::Func(g) = it { let g2 = WitFuncDef { name: g.name, doc: item_doc, params: g.params, result: g.result, is_static: g.is_static, is_constructor: g.is_constructor }; assert(func_item_spelled(ks, d, g2, item_doc) is None); }
                            }
                            lemma_iface_stuck(ks, p0, cur, n);
                            lemma_iface_err(ks, p0, cur, items@);
                        }
                        return Err(e);
                    },
                }),
                WitTokenKind::Constructor => WitInterfaceItem::Func(match self.parse_constructor_func(item_doc) {
                    Ok(x) => x,
                    Err(e) => {
                        proof {
                            assert forall|m: int, it: WitInterfaceItem| !#[trigger] iface_item_at(ks, cur, m, it) by {
                                if let WitInterfaceItem::Func(g) = it { let g2 = WitFuncDef { name: g.name, doc: item_doc, params: g.params, result: g.result, is_static: g.is_static, is_constructor: g.is_constructor }; assert(constructor_spelled(ks, d, g2, item_doc) is None); }
                            }
                            lemma_iface_stuck(ks, p0, cur, n);
                            lemma_iface_err(ks, p0, cur, items@);
                        }
                        return Err(e);
                    },
                }),
                other => {
                    proof {
                        assert forall|m: int, it: WitInterfaceItem| !#[trigger] iface_item_at(ks, cur, m, it) by {
                            
                        }
                        lemma_iface_stuck(ks, p0, cur, n);
                        lemma_iface_err(ks, p0, cur, items@);
                    }
                    return Err(unexpected_in("interface", &other, self.offset()));
                },
            };
            proof {
                assert(iface_item_at(ks, q, self.pos as int, item));
                lemma_iface_items_push(ks, p0 + 3, q, self.pos as int, items@, item);
                lemma_iface_step(ks, p0, cur, n, self.pos as int, item);
            }
            items.push(item);
        }
        let b = WitInterfaceDef { name, doc, items };
        proof {
            assert(ks == old(self).kinds());
            assert(b.items@ == items@);
            assert(iface_items_at(old(self).kinds(), old(self).pos + 3, body_end, b.items@));
        }
        Ok(b)
    }

    /// Parses `world name { items }`.
    #[verifier::rlimit(80)]
    fn parse_world(&mut self, doc: Option<String>) -> (r: Result<WitWorldDef, WitParseError>)
        requires
            old(self).wf(),
        ensures
            final(self).wf(),
            final(self).tokens == old(self).tokens,
            final(self).pos >= old(self).pos,
            r matches Ok(b) ==> (b.doc == doc && tok(old(self).kinds(), old(self).pos as int)
                == TokenKindView::World && tok(old(self).kinds(), old(self).pos + 1)
                == TokenKindView::Ident(b.name@) && tok(old(self).kinds(), old(self).pos + 2)
                == TokenKindView::LBrace && old(self).pos + 3 < final(self).pos && tok(
                old(self).kinds(),
                final(self).pos - 1,
            ) == TokenKindView::RBrace),
            r matches Ok(b) ==> exists|body_end: int|
                tok(old(self).kinds(), doc_end(old(self).kinds(), body_end)) == TokenKindView::RBrace
                    && final(self).pos == doc_end(old(self).kinds(), body_end) + 1 && #[trigger] world_items_at(
                    old(self).kinds(),
                    old(self).pos + 3,
                    body_end,
                    b.items@,
                ),
            r is Ok ==> final(self).pos > old(self).pos,
            r matches Err(e) ==> (world_err(old(self).kinds(), old(self).pos as int) matches Some((m, i))
                && e.message@ == m && e.offset == old(self).offset_at(i)),
            r is Err ==> !(tok(old(self).kinds(), old(self).pos as int) == TokenKindView::World && tok(
                old(self).kinds(),
                old(self).pos + 1,
            ) is Ident && tok(old(self).kinds(), old(self).pos + 2) == TokenKindView::LBrace && exists|
                e: int,
                items: Seq<WitWorldItem>,
            | #[trigger] world_items_at(old(self).kinds(), old(self).pos + 3, e, items) && tok(
                old(self).kinds(),
                doc_end(old(self).kinds(), e),
            ) == TokenKindView::RBrace),
    {
        let ghost ks = self.kinds();
        let ghost p0 = self.pos as int;
        self.expect(&WitTokenKind::World)?;
        let name = self.expect_ident()?;
        self.expect(&WitTokenKind::LBrace)?;
        let mut items: Vec<WitWorldItem> = Vec::new();
        let ghost mut body_end: int = self.pos as int;
        proof {
            assert forall|e: int, full: Seq<WitWorldItem>| #[trigger] world_chain_at(ks, p0 + 3, e, full) && tok(ks, doc_end(ks, e)) == TokenKindView::RBrace implies world_items_at(ks, p0 + 3, e, full.skip(0)) by {
                assert(full.skip(0) =~= full);
            }
        }
        loop
            invariant_except_break
                world_items_at(ks, p0 + 3, self.pos as int, items@),
                world_through(ks, p0, self.pos as int, items@.len() as int),
            invariant
                self.wf(),
                self.tokens == old(self).tokens,
                ks == self.kinds(),
                p0 == old(self).pos,
                p0 + 3 <= self.pos,
                header_err(ks, p0, TokenKindView::World) is None,
            ensures
                p0 + 3 < self.pos,
                tok(ks, self.pos - 1) == TokenKindView::RBrace,
                tok(ks, doc_end(ks, body_end)) == TokenKindView::RBrace,
                self.pos == doc_end(ks, body_end) + 1,
                world_items_at(ks, p0 + 3, body_end, items@),
            decreases self.tokens@.len() - self.pos,
        {
            let ghost q = self.pos as int;
            let ghost cur = q;
            let ghost n = items@.len() as int;
            let item_doc = self.take_doc();
            let ghost d = self.pos as int;
            let item = match self.peek() {
                WitTokenKind::RBrace => {
                    self.advance();
                    proof {
                        body_end = q;
                    }
                    break;
                },
                WitTokenKind::Import => WitWorldItem::Import(match self.parse_world_import() {
                    Ok(x) => x,
                    Err(e) => {
                        proof {
                            assert forall|m: int, it: WitWorldItem| !#[trigger] world_item_at(ks, cur, m, it) by {
                                if let WitWorldItem::Import(it) = it { assert(import_spelled(ks, d, it) is None); }
                            }
                            lemma_world_stuck(ks, p0, cur, n);
                            lemma_world_err(ks, p0, cur, items@);
                        }
                        return Err(e);
                    },
                }),
                WitTokenKind::Export => WitWorldItem::Export(match self.parse_world_export() {
                    Ok(x) => x,
                    Err(e) => {
                        proof {
                            assert forall|m: int, it: WitWorldItem| !#[trigger] world_item_at(ks, cur, m, it) by {
                                if let WitWorldItem::Export(it) = it { assert(export_spelled(ks, d, it) is None); }
                            }
                            lemma_world_stuck(ks, p0, cur, n);
                            lemma_world_err(ks, p0, cur, items@);
                        }
                        return Err(e);
                    },
                }),
                WitTokenKind::Include => {
                    self.advance();
                    let incl_name = match self.expect_ident() {
                        Ok(x) => x,
                        Err(e) => {
                            proof {
                                assert forall|m: int, it: WitWorldItem| !#[trigger] world_item_at(ks, cur, m, it) by {
                                    
                                }
                                lemma_world_stuck(ks, p0, cur, n);
                                lemma_world_err(ks, p0, cur, items@);
                            }
                            return Err(e);
                        },
                    };
                    match self.expect(&WitTokenKind::Semicolon) {
                        Ok(()) => {},
                        Err(e) => {
                            proof {
                                assert forall|m: int, it: WitWorldItem| !#[trigger] world_item_at(ks, cur, m, it) by {
                                    
                                }
                                lemma_world_stuck(ks, p0, cur, n);
                                lemma_world_err(ks, p0, cur, items@);
                            }
                            return Err(e);
                        },
                    }
                    WitWorldItem::Include(incl_name)
                },
                WitTokenKind::Use => WitWorldItem::Use(match self.parse_use() {
                    Ok(x) => x,
                    Err(e) => {
                        proof {
                            assert forall|m: int, it: WitWorldItem| !#[trigger] world_item_at(ks, cur, m, it) by {
                                if let WitWorldItem::Use(it) = it { assert(use_spelled(ks, d, it) is None); }
                            }
                            lemma_world_stuck(ks, p0, cur, n);
                            lemma_world_err(ks, p0, cur, items@);
                        }
                        return Err(e);
                    },
                }),
                WitTokenKind::Record => WitWorldItem::TypeDef(match self.parse_record(item_doc) {
                    Ok(x) => x,
                    Err(e) => {
                        proof {
                            assert forall|m: int, it: WitWorldItem| !#[trigger] world_item_at(ks, cur, m, it) by {
                                if let WitWorldItem::TypeDef(td) = it { let td2 = WitTypeDef { name: td.name, doc: item_doc, kind: td.kind }; assert(typedef_spelled(ks, d, td2, item_doc) is None); }
                            }
                            lemma_world_stuck(ks, p0, cur, n);
                            lemma_world_err(ks, p0, cur, items@);
                        }
                        return Err(e);
                    },
                }),
                WitTokenKind::Enum => WitWorldItem::TypeDef(match self.parse_enum(item_doc) {
                    Ok(x) => x,
                    Err(e) => {
                        proof {
                            assert forall|m: int, it: WitWorldItem| !#[trigger] world_item_at(ks, cur, m, it) by {
                                if let WitWorldItem::TypeDef(td) = it { let td2 = WitTypeDef { name: td.name, doc: item_doc, kind: td.kind }; assert(typedef_spelled(ks, d, td2, item_doc) is None); }
                            }
                            lemma_world_stuck(ks, p0, cur, n);
                            lemma_world_err(ks, p0, cur, items@);
                        }
                        return Err(e);
                    },
                }),
                WitTokenKind::Variant => WitWorldItem::TypeDef(match self.parse_variant(item_doc) {
                    Ok(x) => x,
                    Err(e) => {
                        proof {
                            assert forall|m: int, it: WitWorldItem| !#[trigger] world_item_at(ks, cur, m, it) by {
                                if let WitWorldItem::TypeDef(td) = it { let td2 = WitTypeDef { name: td.name, doc: item_doc, kind: td.kind }; assert(typedef_spelled(ks, d, td2, item_doc) is None); }
                            }
                            lemma_world_stuck(ks, p0, cur, n);
                            lemma_world_err(ks, p0, cur, items@);
                        }
                        return Err(e);
                    },
                }),
                WitTokenKind::Flags => WitWorldItem::TypeDef(match self.parse_flags(item_doc) {
                    Ok(x) => x,
                    Err(e) => {
                        proof {
                            assert forall|m: int, it: WitWorldItem| !#[trigger] world_item_at(ks, cur, m, it) by {
                                if let WitWorldItem::TypeDef(td) = it { let td2 = WitTypeDef { name: td.name, doc: item_doc, kind: td.kind }; assert(typedef_spelled(ks, d, td2, item_doc) is None); }
                            }
                            lemma_world_stuck(ks, p0, cur, n);
                            lemma_world_err(ks, p0, cur, items@);
                        }
                        return Err(e);
                    },
                }),
                WitTokenKind::Type => WitWorldItem::TypeDef(match self.parse_type_alias(item_doc) {
                    Ok(x) => x,
                    Err(e) => {
                        proof {
                            assert forall|m: int, it: WitWorldItem| !#[trigger] world_item_at(ks, cur, m, it) by {
                                if let WitWorldItem::TypeDef(td) = it { let td2 = WitTypeDef { name: td.name, doc: item_doc, kind: td.kind }; assert(typedef_spelled(ks, d, td2, item_doc) is None); }
                            }
                            lemma_world_stuck(ks, p0, cur, n);
                            lemma_world_err(ks, p0, cur, items@);
                        }
                        return Err(e);
                    },
                }),
                other => {
                    proof {
                        assert forall|m: int, it: WitWorldItem| !#[trigger] world_item_at(ks, cur, m, it) by {
                            
                        }
                        lemma_world_stuck(ks, p0, cur, n);
                        lemma_world_err(ks, p0, cur, items@);
                    }
                    return Err(unexpected_in("world", &other, self.offset()));
                },
            };
            proof {
                assert(world_item_at(ks, q, self.pos as int, item));
                lemma_world_items_push(ks, p0 + 3, q, self.pos as int, items@, item);
                lemma_world_step(ks, p0, cur, n, self.pos as int, item);
            }
            items.push(item);
        }
        let b = WitWorldDef { name, doc, items };
        proof {
            assert(ks == old(self).kinds());
            assert(b.items@ == items@);
            assert(world_items_at(old(self).kinds(), old(self).pos + 3, body_end, b.items@));
        }
        Ok(b)
    }

    /// Parses a complete WIT document: the package declaration, interfaces,
    /// worlds and top-level `use` imports, up to the end of the tokens.
    #[verifier::rlimit(80)]
    pub fn parse_document(&mut self) -> (r: Result<WitDocument, WitParseError>)
        requires
            old(self).wf(),
        ensures
            final(self).wf(),
            final(self).kinds() == old(self).kinds(),
            final(self).position() >= old(self).position(),
            r is Ok ==> tok(old(self).kinds(), final(self).position()) is Eof,
            tok(old(self).kinds(), old(self).position()) is Eof ==> (r matches Ok(d) && d.package is None
                && d.interfaces@.len() == 0 && d.worlds@.len() == 0 && d.top_use@.len() == 0),
            r matches Ok(d) ==> document_at(old(self).kinds(), old(self).position(), d),
            r is Err ==> forall|d: WitDocument| !#[trigger] document_at(old(self).kinds(), old(self).position(), d),
            r matches Err(e) ==> (document_err(old(self).kinds(), old(self).position()) matches Some((m, i))
                && e.message@ == m && e.offset == old(self).offset_at(i)),
    {
        let ghost ks = self.kinds();
        let ghost pos0 = self.pos as int;
        let mut doc = WitDocument {
            package: None,
            interfaces: Vec::new(),
            worlds: Vec::new(),
            top_use: Vec::new(),
        };
        let ghost mut items: Seq<TopItem> = Seq::empty();
        let ghost mut end: int = pos0;
        proof {
            assert(document_of(items) == (doc.package, doc.interfaces@, doc.worlds@, doc.top_use@));
        }
        proof {
            assert forall|e: int, full: Seq<TopItem>| #[trigger] top_chain_at(ks, pos0, e, full) && tok(ks, doc_end(ks, e)) is Eof implies top_items_at(ks, pos0, e, full.skip(0)) by {
                assert(full.skip(0) =~= full);
            }
        }
        loop
            invariant_except_break
                top_items_at(ks, pos0, self.pos as int, items),
                top_through(ks, pos0, self.pos as int, items.len() as int),
            invariant
                self.wf(),
                self.tokens == old(self).tokens,
                ks == self.kinds(),
                pos0 == old(self).pos,
                old(self).pos <= self.pos,
                document_of(items) == (doc.package, doc.interfaces@, doc.worlds@, doc.top_use@),
                tok(ks, old(self).pos as int) is Eof ==> (self.pos == old(self).pos && doc.package is None
                    && doc.interfaces@.len() == 0 && doc.worlds@.len() == 0 && doc.top_use@.len() == 0),
            ensures
                tok(ks, self.pos as int) is Eof,
                top_items_at(ks, pos0, end, items),
                tok(ks, doc_end(ks, end)) is Eof,
            decreases self.tokens@.len() - self.pos,
        {
            let ghost q = self.pos as int;
            let ghost n = items.len() as int;
            let item_doc = self.take_doc();
            let ghost p1 = self.pos as int;
            let ghost item: TopItem;
            match self.peek() {
                WitTokenKind::Eof => {
                    proof {
                        end = q;
                    }
                    break;
                },
                WitTokenKind::Package => {
                    let pk = match self.parse_package() {
                        Ok(x) => x,
                        Err(e) => {
                            proof {
                                assert forall|m: int, it: TopItem| !#[trigger] top_item_at(ks, q, m, it) by {
                                    if let TopItem::Package(pk) = it { assert(package_spelled(ks, p1, pk) is None); }
                                }
                                lemma_top_stuck(ks, pos0, q, n);
                                lemma_doc_err(ks, pos0, q, items);
                                assert forall|d: WitDocument| !#[trigger] document_at(ks, pos0, d) by {
                                }
                            }
                            return Err(e);
                        },
                    };
                    proof {
                        item = TopItem::Package(pk);
                    }
                    doc.package = Some(pk);
                },
                WitTokenKind::Interface => {
                    let i = match self.parse_interface(item_doc) {
                        Ok(x) => x,
                        Err(e) => {
                            proof {
                                assert forall|m: int, it: TopItem| !#[trigger] top_item_at(ks, q, m, it) by {
                                    if top_item_at(ks, q, m, it) && it is Interface { let b = it->Interface_0; let be = choose|be: int| block_frame(ks, q, be, m, TokenKindView::Interface, b.name@, b.doc) && #[trigger] iface_items_at(ks, p1 + 3, be, b.items@); assert(iface_items_at(ks, p1 + 3, be, b.items@)); }
                                }
                                lemma_top_stuck(ks, pos0, q, n);
                                lemma_doc_err(ks, pos0, q, items);
                                assert forall|d: WitDocument| !#[trigger] document_at(ks, pos0, d) by {
                                }
                            }
                            return Err(e);
                        },
                    };
                    proof {
                        let be = choose|be: int|
                            tok(ks, doc_end(ks, be)) == TokenKindView::RBrace && self.pos == doc_end(ks, be) + 1
                                && #[trigger] iface_items_at(ks, p1 + 3, be, i.items@);
                        assert(block_frame(ks, q, be, self.pos as int, TokenKindView::Interface, i.name@, i.doc));
                        assert(interface_at(ks, q, self.pos as int, i));
                        item = TopItem::Interface(i);
                    }
                    doc.interfaces.push(i);
                },
                WitTokenKind::World => {
                    let w = match self.parse_world(item_doc) {
                        Ok(x) => x,
                        Err(e) => {
                            proof {
                                assert forall|m: int, it: TopItem| !#[trigger] top_item_at(ks, q, m, it) by {
                                    if top_item_at(ks, q, m, it) && it is World { let b = it->World_0; let be = choose|be: int| block_frame(ks, q, be, m, TokenKindView::World, b.name@, b.doc) && #[trigger] world_items_at(ks, p1 + 3, be, b.items@); assert(world_items_at(ks, p1 + 3, be, b.items@)); }
                                }
                                lemma_top_stuck(ks, pos0, q, n);
                                lemma_doc_err(ks, pos0, q, items);
                                assert forall|d: WitDocument| !#[trigger] document_at(ks, pos0, d) by {
                                }
                            }
                            return Err(e);
                        },
                    };
                    proof {
                        let be = choose|be: int|
                            tok(ks, doc_end(ks, be)) == TokenKindView::RBrace && self.pos == doc_end(ks, be) + 1
                                && #[trigger] world_items_at(ks, p1 + 3, be, w.items@);
                        assert(block_frame(ks, q, be, self.pos as int, TokenKindView::World, w.name@, w.doc));
                        assert(world_at(ks, q, self.pos as int, w));
                        item = TopItem::World(w);
                    }
                    doc.worlds.push(w);
                },
                WitTokenKind::Use => {
                    let u = match self.parse_use() {
                        Ok(x) => x,
                        Err(e) => {
                            proof {
                                assert forall|m: int, it: TopItem| !#[trigger] top_item_at(ks, q, m, it) by {
                                    if let TopItem::Use(u) = it { assert(use_spelled(ks, p1, u) is None); }
                                }
                                lemma_top_stuck(ks, pos0, q, n);
                                lemma_doc_err(ks, pos0, q, items);
                                assert forall|d: WitDocument| !#[trigger] document_at(ks, pos0, d) by {
                                }
                            }
                            return Err(e);
                        },
                    };
                    proof {
                        item = TopItem::Use(u);
                    }
                    doc.top_use.push(u);
                },
                other => {
                    proof {
                        assert forall|m: int, it: TopItem| !#[trigger] top_item_at(ks, q, m, it) by {
                            
                        }
                        lemma_top_stuck(ks, pos0, q, n);
                        lemma_doc_err(ks, pos0, q, items);
                        assert forall|d: WitDocument| !#[trigger] document_at(ks, pos0, d) by {
                        }
                    }
                    let mut message = owned("unexpected top-level token: `");
                    let f = other.to_string();
                    push_str(&mut message, f.as_str());
                    push_str(&mut message, "`");
                    proof {
                        assert(message@ =~= "unexpected top-level token: `"@ + kind_text(other@) + "`"@);
                    }
                    return Err(WitParseError { message, offset: self.offset() });
                },
            }
            proof {
                assert(top_item_at(ks, q, self.pos as int, item));
                lemma_top_items_push(ks, pos0, q, self.pos as int, items, item);
                lemma_top_step(ks, pos0, q, n, self.pos as int, item);
                assert(items.push(item).drop_last() =~= items);
                items = items.push(item);
            }
        }
        proof {
            assert(ks == old(self).kinds());
            assert(top_items_at(old(self).kinds(), old(self).position(), end, items));
        }
        Ok(doc)
    }
}

/// The kinds of lexed tokens.
pub open spec fn token_kinds(ts: Seq<TokenView>) -> Seq<TokenKindView> {
    ts.map_values(|t: TokenView| t.kind)
}

/// The byte offset of the lexed token at index `i`, or 0 past the end.
pub open spec fn token_offset(ts: Seq<TokenView>, i: int) -> int {
    if 0 <= i < ts.len() {
        ts[i].offset
    } else {
        0
    }
}

/// Parses WIT source text into a document: lexes it, then parses the tokens.
pub fn parse_wit(source: &str) -> (r: Result<WitDocument, WitParseError>)
    ensures
        spec_lex(source.spec_bytes(), 0) matches Err(le) ==> (r matches Err(e) && e.message@
            == le.message && e.offset == le.offset),
        spec_lex(source.spec_bytes(), 0) matches Ok(ts) ==> (r matches Ok(d) ==> document_at(
            ts.map_values(|t: TokenView| t.kind),
            0,
            d,
        )),
        spec_lex(source.spec_bytes(), 0) matches Ok(ts) ==> (r is Err ==> forall|d: WitDocument|
            !#[trigger] document_at(token_kinds(ts), 0, d)),
        spec_lex(source.spec_bytes(), 0) matches Ok(ts) ==> (r matches Err(e) ==> (document_err(
            token_kinds(ts),
            0,
        ) matches Some((m, i)) && e.message@ == m && e.offset == token_offset(ts, i))),
{
    proof {
        lemma_lex_ends_with_eof(source.spec_bytes(), 0);
    }
    let tokens = match tokenize_wit(source) {
        Ok(t) => t,
        Err(e) => {
            return Err(WitParseError { message: e.message, offset: e.offset });
        },
    };
    proof {
        let ts = tokens@.map_values(|t: WitToken| t@);
        if tokens@.len() > 0 {
            assert(ts.last() == tokens@.last()@);
        }
    }
    let ghost ks = tokens@.map_values(|t: WitToken| t.kind@);
    proof {
        if let Ok(ts) = spec_lex(source.spec_bytes(), 0) {
            assert(ts.map_values(|t: TokenView| t.kind) =~= ks);
            assert(token_kinds(ts) == ks);
        }
    }
    let mut parser = WitParser { tokens, pos: 0 };
    let ghost before = parser;
    let r = parser.parse_document();
    proof {
        if let Ok(ts) = spec_lex(source.spec_bytes(), 0) {
            assert(ts == before.tokens@.map_values(|t: WitToken| t@));
            assert forall|i: int| #![trigger token_offset(ts, i)] before.offset_at(i) == token_offset(ts, i) by {
                if 0 <= i < ts.len() {
                    assert(ts[i] == before.tokens@[i]@);
                }
            }
        }
    }
    r
}

} // verus!
