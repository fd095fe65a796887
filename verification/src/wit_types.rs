//! WIT type system: maps WIT types to Fajar Lang types.
//!
//! Provides the mapping from WIT primitive and composite types to Fajar
//! Lang's type system, flags bitwise operations, record field resolution and
//! variant case naming.

use vstd::prelude::*;
use crate::assoc::{
    assoc_map, find_name, keys_distinct, lemma_assoc_absent, lemma_assoc_lookup, lemma_assoc_push,
    lemma_assoc_update,
};
use crate::text::{
    ascii_upper_char, char_to_uppercase, chars_of, dec, is_ascii_char, owned, push_char, push_dec, push_str,
    uppercase,
};
use crate::wit_parser::{
    WitDocument, WitInterfaceDef, WitInterfaceItem, WitPrimitive, WitRecordField, WitTypeDef,
    WitTypeDefKind, WitTypeRef, WitUseDecl, WitUseName, WitVariantCase,
};

verus! {

// ═════════════════════════════════════════════════════════════════════
// Fajar types
// ═════════════════════════════════════════════════════════════════════

/// A Fajar Lang type that a WIT type maps to.
#[derive(Debug, PartialEq)]
pub enum FajarType {
    /// `u8`, `u16`, `u32`, `u64`
    UInt(u8),
    /// `i8`, `i16`, `i32`, `i64` (WIT: s8, s16, s32, s64)
    Int(u8),
    /// `f32`, `f64`
    Float(u8),
    /// `bool`
    Bool,
    /// `char`
    Char,
    /// `str` (Fajar's string type)
    Str,
    /// `Array<T>`
    Array(Box<FajarType>),
    /// `Option<T>`
    Option(Box<FajarType>),
    /// `Result<T, E>`
    Result { ok: Option<Box<FajarType>>, err: Option<Box<FajarType>> },
    /// Tuple `(A, B, C)`
    Tuple(Vec<FajarType>),
    /// A Fajar struct by name
    Struct(String),
    /// A Fajar enum by name
    Enum(String),
    /// Bitflags type (stored as u32/u64)
    Flags { name: String, members: Vec<String> },
    /// Resource handle (opaque u32 index)
    ResourceHandle(String),
    /// `void` (no return)
    Void,
}

/// The mathematical value of a Fajar type.
pub enum FajarTypeView {
    UInt(u8),
    Int(u8),
    Float(u8),
    Bool,
    Char,
    Str,
    Array(Box<FajarTypeView>),
    Option(Box<FajarTypeView>),
    Result { ok: Option<Box<FajarTypeView>>, err: Option<Box<FajarTypeView>> },
    Tuple(Seq<FajarTypeView>),
    Struct(Seq<char>),
    Enum(Seq<char>),
    Flags { name: Seq<char>, members: Seq<Seq<char>> },
    ResourceHandle(Seq<char>),
    Void,
}

/// The value of a Fajar type.
pub open spec fn ft_view(t: FajarType) -> FajarTypeView
    decreases t,
{
    match t {
        FajarType::UInt(b) => FajarTypeView::UInt(b),
        FajarType::Int(b) => FajarTypeView::Int(b),
        FajarType::Float(b) => FajarTypeView::Float(b),
        FajarType::Bool => FajarTypeView::Bool,
        FajarType::Char => FajarTypeView::Char,
        FajarType::Str => FajarTypeView::Str,
        FajarType::Array(inner) => FajarTypeView::Array(Box::new(ft_view(*inner))),
        FajarType::Option(inner) => FajarTypeView::Option(Box::new(ft_view(*inner))),
        FajarType::Result { ok, err } => FajarTypeView::Result {
            ok: match ok {
                Some(o) => Some(Box::new(ft_view(*o))),
                None => None,
            },
            err: match err {
                Some(e) => Some(Box::new(ft_view(*e))),
                None => None,
            },
        },
        FajarType::Tuple(items) => FajarTypeView::Tuple(ft_views(items@, 0)),
        FajarType::Struct(n) => FajarTypeView::Struct(n@),
        FajarType::Enum(n) => FajarTypeView::Enum(n@),
        FajarType::Flags { name, members } => FajarTypeView::Flags {
            name: name@,
            members: names_view(members@),
        },
        FajarType::ResourceHandle(n) => FajarTypeView::ResourceHandle(n@),
        FajarType::Void => FajarTypeView::Void,
    }
}

/// The values of `items[i..]`.
pub open spec fn ft_views(items: Seq<FajarType>, i: int) -> Seq<FajarTypeView>
    decreases items, items.len() - i,
{
    if 0 <= i < items.len() {
        seq![ft_view(items[i])] + ft_views(items, i + 1)
    } else {
        Seq::empty()
    }
}

/// The texts of a sequence of strings.
pub open spec fn names_view(ns: Seq<String>) -> Seq<Seq<char>> {
    ns.map_values(|n: String| n@)
}

impl View for FajarType {
    type V = FajarTypeView;

    open spec fn view(&self) -> FajarTypeView {
        ft_view(*self)
    }
}

proof fn lemma_ft_views(items: Seq<FajarType>, i: int)
    requires
        0 <= i <= items.len(),
    ensures
        ft_views(items, i).len() == items.len() - i,
        forall|k: int| 0 <= k < items.len() - i ==> #[trigger] ft_views(items, i)[k] == ft_view(items[i + k]),
    decreases items.len() - i,
{
    if i < items.len() {
        lemma_ft_views(items, i + 1);
        assert forall|k: int| 0 <= k < items.len() - i implies #[trigger] ft_views(items, i)[k]
            == ft_view(items[i + k]) by {
            if k > 0 {
                assert(ft_views(items, i)[k] == ft_views(items, i + 1)[k - 1]);
            }
        }
    }
}

/// Two lists of Fajar types with element-wise equal values have equal values.
proof fn lemma_ft_views_eq(a: Seq<FajarType>, b: Seq<FajarType>)
    requires
        a.len() == b.len(),
        forall|k: int| 0 <= k < a.len() ==> ft_view(#[trigger] a[k]) == ft_view(b[k]),
    ensures
        ft_views(a, 0) == ft_views(b, 0),
{
    lemma_ft_views(a, 0);
    lemma_ft_views(b, 0);
    assert(ft_views(a, 0) =~= ft_views(b, 0));
}

/// The text of a Fajar type.
pub open spec fn fajar_text(t: FajarTypeView) -> Seq<char>
    decreases t,
{
    match t {
        FajarTypeView::UInt(b) => "u"@ + dec(b as nat),
        FajarTypeView::Int(b) => "i"@ + dec(b as nat),
        FajarTypeView::Float(b) => "f"@ + dec(b as nat),
        FajarTypeView::Bool => "bool"@,
        FajarTypeView::Char => "char"@,
        FajarTypeView::Str => "str"@,
        FajarTypeView::Array(inner) => "Array<"@ + fajar_text(*inner) + ">"@,
        FajarTypeView::Option(inner) => "Option<"@ + fajar_text(*inner) + ">"@,
        FajarTypeView::Result { ok, err } => "Result<"@ + match ok {
            Some(o) => fajar_text(*o),
            None => "()"@,
        } + ", "@ + match err {
            Some(e) => fajar_text(*e),
            None => "()"@,
        } + ">"@,
        FajarTypeView::Tuple(items) => "("@ + fajar_list_text(items, 0) + ")"@,
        FajarTypeView::Struct(n) => n,
        FajarTypeView::Enum(n) => n,
        FajarTypeView::Flags { name, members } => name,
        FajarTypeView::ResourceHandle(n) => "Handle<"@ + n + ">"@,
        FajarTypeView::Void => "void"@,
    }
}

/// The texts of `items[i..]`, separated by `", "`.
pub open spec fn fajar_list_text(items: Seq<FajarTypeView>, i: int) -> Seq<char>
    decreases items, items.len() - i,
{
    if 0 <= i < items.len() {
        (if i > 0 {
            ", "@
        } else {
            Seq::<char>::empty()
        }) + fajar_text(items[i]) + fajar_list_text(items, i + 1)
    } else {
        Seq::<char>::empty()
    }
}

impl FajarType {
    /// A copy of this type.
    pub fn copy(&self) -> (r: FajarType)
        ensures
            r@ == self@,
        decreases self,
    {
        match self {
            FajarType::UInt(b) => FajarType::UInt(*b),
            FajarType::Int(b) => FajarType::Int(*b),
            FajarType::Float(b) => FajarType::Float(*b),
            FajarType::Bool => FajarType::Bool,
            FajarType::Char => FajarType::Char,
            FajarType::Str => FajarType::Str,
            FajarType::Array(inner) => FajarType::Array(Box::new((**inner).copy())),
            FajarType::Option(inner) => FajarType::Option(Box::new((**inner).copy())),
            FajarType::Result { ok, err } => {
                let ok2 = match ok {
                    Some(o) => Some(Box::new((**o).copy())),
                    None => None,
                };
                let err2 = match err {
                    Some(e) => Some(Box::new((**e).copy())),
                    None => None,
                };
                FajarType::Result { ok: ok2, err: err2 }
            },
            FajarType::Tuple(items) => {
                let mut out: Vec<FajarType> = Vec::new();
                let mut i: usize = 0;
                while i < items.len()
                    invariant
                        i <= items@.len(),
                        *self == FajarType::Tuple(*items),
                        out@.len() == i,
                        forall|k: int| 0 <= k < i ==> ft_view(#[trigger] out@[k]) == ft_view(
                            items@[k],
                        ),
                    decreases items@.len() - i,
                {
                    proof {
                        assert(decreases_to!(*self => (*self)->Tuple_0));
                        assert(decreases_to!((*self)->Tuple_0 => (*self)->Tuple_0[i as int]));
                    }
                    out.push(items[i].copy());
                    i = i + 1;
                }
                proof {
                    lemma_ft_views_eq(out@, items@);
                }
                FajarType::Tuple(out)
            },
            FajarType::Struct(n) => FajarType::Struct(n.clone()),
            FajarType::Enum(n) => FajarType::Enum(n.clone()),
            FajarType::Flags { name, members } => {
                let m2 = members.clone();
                proof {
                    assert(names_view(m2@) =~= names_view(members@));
                }
                FajarType::Flags { name: name.clone(), members: m2 }
            },
            FajarType::ResourceHandle(n) => FajarType::ResourceHandle(n.clone()),
            FajarType::Void => FajarType::Void,
        }
    }

    /// The Fajar text of this type (`u32`, `Array<u8>`, `Handle<File>`, ...).
    pub fn to_string(&self) -> (s: String)
        ensures
            s@ == fajar_text(self@),
    {
        let mut s = String::new();
        self.write_to(&mut s);
        proof {
            assert(s@ =~= fajar_text(self@));
        }
        s
    }

    fn write_to(&self, s: &mut String)
        ensures
            final(s)@ == old(s)@ + fajar_text(self@),
        decreases self,
    {
        match self {
            FajarType::UInt(b) => {
                push_str(s, "u");
                push_dec(s, *b as u64);
            },
            FajarType::Int(b) => {
                push_str(s, "i");
                push_dec(s, *b as u64);
            },
            FajarType::Float(b) => {
                push_str(s, "f");
                push_dec(s, *b as u64);
            },
            FajarType::Bool => push_str(s, "bool"),
            FajarType::Char => push_str(s, "char"),
            FajarType::Str => push_str(s, "str"),
            FajarType::Array(inner) => {
                push_str(s, "Array<");
                inner.write_to(s);
                push_str(s, ">");
            },
            FajarType::Option(inner) => {
                push_str(s, "Option<");
                inner.write_to(s);
                push_str(s, ">");
            },
            FajarType::Result { ok, err } => {
                push_str(s, "Result<");
                match ok {
                    Some(t) => t.write_to(s),
                    None => push_str(s, "()"),
                }
                push_str(s, ", ");
                match err {
                    Some(t) => t.write_to(s),
                    None => push_str(s, "()"),
                }
                push_str(s, ">");
            },
            FajarType::Tuple(items) => {
                push_str(s, "(");
                let ghost before = s@;
                let ghost vs = ft_views(items@, 0);
                proof {
                    lemma_ft_views(items@, 0);
                }
                let mut i: usize = 0;
                while i < items.len()
                    invariant
                        i <= items@.len(),
                        *self == FajarType::Tuple(*items),
                        vs == ft_views(items@, 0),
                        vs.len() == items@.len(),
                        forall|k: int| 0 <= k < items@.len() ==> #[trigger] vs[k] == ft_view(
                            items@[k],
                        ),
                        before + fajar_list_text(vs, 0) == s@ + fajar_list_text(vs, i as int),
                    decreases items@.len() - i,
                {
                    proof {
                        assert(decreases_to!(*self => (*self)->Tuple_0));
                        assert(decreases_to!((*self)->Tuple_0 => (*self)->Tuple_0[i as int]));
                        assert(vs[i as int] == ft_view(items@[i as int]));
                    }
                    if i > 0 {
                        push_str(s, ", ");
                    }
                    items[i].write_to(s);
                    i = i + 1;
                }
                push_str(s, ")");
            },
            FajarType::Struct(n) => push_str(s, n.as_str()),
            FajarType::Enum(n) => push_str(s, n.as_str()),
            FajarType::Flags { name, .. } => push_str(s, name.as_str()),
            FajarType::ResourceHandle(n) => {
                push_str(s, "Handle<");
                push_str(s, n.as_str());
                push_str(s, ">");
            },
            FajarType::Void => push_str(s, "void"),
        }
    }
}

impl Clone for FajarType {
    fn clone(&self) -> (r: Self)
        ensures
            r@ == self@,
    {
        self.copy()
    }
}

// ═════════════════════════════════════════════════════════════════════
// Naming conventions
// ═════════════════════════════════════════════════════════════════════

/// The upper-case of `c`: for an ASCII character its ASCII upper-case,
/// otherwise its Unicode upper-case (possibly several characters).
pub open spec fn upper_of(c: char) -> Seq<char> {
    if is_ascii_char(c) {
        seq![ascii_upper_char(c)]
    } else {
        uppercase(c)
    }
}

/// PascalCase of kebab-case text: each `-` is dropped and the character
/// that starts a part (at the start, or after a `-`) is uppercased.
pub open spec fn pascal_from(s: Seq<char>, at_start: bool) -> Seq<char>
    decreases s.len(),
{
    if s.len() == 0 {
        Seq::empty()
    } else if s[0] == '-' {
        pascal_from(s.drop_first(), true)
    } else if at_start {
        upper_of(s[0]) + pascal_from(s.drop_first(), false)
    } else {
        seq![s[0]] + pascal_from(s.drop_first(), false)
    }
}

/// `input-stream` -> `InputStream`.
pub open spec fn pascal_case(s: Seq<char>) -> Seq<char> {
    pascal_from(s, true)
}

/// `input-stream` -> `input_stream`.
pub open spec fn snake_case(s: Seq<char>) -> Seq<char> {
    s.map_values(|c: char| if c == '-' { '_' } else { c })
}

/// Convert WIT kebab-case to Fajar PascalCase: `input-stream` -> `InputStream`.
pub fn wit_to_pascal_case(name: &str) -> (r: String)
    ensures
        r@ == pascal_case(name@),
{
    let cs = chars_of(name);
    let mut out = String::new();
    let mut at_start = true;
    let mut i: usize = 0;
    proof {
        assert(cs@.subrange(0, cs@.len() as int) =~= name@);
        assert(out@ + pascal_case(name@) =~= pascal_case(name@));
    }
    while i < cs.len()
        invariant
            i <= cs@.len(),
            cs@ == name@,
            out@ + pascal_from(cs@.subrange(i as int, cs@.len() as int), at_start) == pascal_case(
                name@,
            ),
        decreases cs@.len() - i,
    {
        let ghost rest = cs@.subrange(i as int, cs@.len() as int);
        proof {
            assert(rest.drop_first() =~= cs@.subrange(i + 1, cs@.len() as int));
        }
        let c = cs[i];
        if c == '-' {
            at_start = true;
        } else if at_start {
            let u = char_to_uppercase(c);
            proof {
                assert(u@ == upper_of(c));
            }
            let ghost before = out@;
            push_str(&mut out, u.as_str());
            at_start = false;
            proof {
                assert(out@ + pascal_from(rest.drop_first(), false) =~= before + (u@
                    + pascal_from(rest.drop_first(), false)));
            }
        } else {
            let ghost before = out@;
            push_char(&mut out, c);
            proof {
                assert(out@ + pascal_from(rest.drop_first(), false) =~= before + (seq![c]
                    + pascal_from(rest.drop_first(), false)));
            }
        }
        i = i + 1;
    }
    proof {
        assert(cs@.subrange(i as int, cs@.len() as int) =~= Seq::<char>::empty());
        assert(out@ =~= out@ + Seq::<char>::empty());
    }
    out
}

/// Convert WIT kebab-case to Fajar snake_case: `input-stream` -> `input_stream`.
pub fn wit_to_snake_case(name: &str) -> (r: String)
    ensures
        r@ == snake_case(name@),
{
    let cs = chars_of(name);
    let mut out = String::new();
    let mut i: usize = 0;
    while i < cs.len()
        invariant
            i <= cs@.len(),
            cs@ == name@,
            out@ == snake_case(cs@.subrange(0, i as int)),
        decreases cs@.len() - i,
    {
        let c = cs[i];
        if c == '-' {
            push_char(&mut out, '_');
        } else {
            push_char(&mut out, c);
        }
        proof {
            assert(cs@.subrange(0, i + 1) =~= cs@.subrange(0, i as int).push(c));
            assert(out@ =~= snake_case(cs@.subrange(0, i + 1)));
        }
        i = i + 1;
    }
    proof {
        assert(cs@.subrange(0, i as int) =~= name@);
    }
    out
}

// ═════════════════════════════════════════════════════════════════════
// Primitive mapping
// ═════════════════════════════════════════════════════════════════════

/// The Fajar type of a WIT primitive.
pub open spec fn primitive_fajar(p: WitPrimitive) -> FajarTypeView {
    match p {
        WitPrimitive::U8 => FajarTypeView::UInt(8),
        WitPrimitive::U16 => FajarTypeView::UInt(16),
        WitPrimitive::U32 => FajarTypeView::UInt(32),
        WitPrimitive::U64 => FajarTypeView::UInt(64),
        WitPrimitive::S8 => FajarTypeView::Int(8),
        WitPrimitive::S16 => FajarTypeView::Int(16),
        WitPrimitive::S32 => FajarTypeView::Int(32),
        WitPrimitive::S64 => FajarTypeView::Int(64),
        WitPrimitive::F32 => FajarTypeView::Float(32),
        WitPrimitive::F64 => FajarTypeView::Float(64),
        WitPrimitive::Bool => FajarTypeView::Bool,
        WitPrimitive::Char => FajarTypeView::Char,
        WitPrimitive::String_ => FajarTypeView::Str,
    }
}

/// Map a WIT primitive to a Fajar type.
pub fn map_primitive(p: &WitPrimitive) -> (r: FajarType)
    ensures
        r@ == primitive_fajar(*p),
{
    match p {
        WitPrimitive::U8 => FajarType::UInt(8),
        WitPrimitive::U16 => FajarType::UInt(16),
        WitPrimitive::U32 => FajarType::UInt(32),
        WitPrimitive::U64 => FajarType::UInt(64),
        WitPrimitive::S8 => FajarType::Int(8),
        WitPrimitive::S16 => FajarType::Int(16),
        WitPrimitive::S32 => FajarType::Int(32),
        WitPrimitive::S64 => FajarType::Int(64),
        WitPrimitive::F32 => FajarType::Float(32),
        WitPrimitive::F64 => FajarType::Float(64),
        WitPrimitive::Bool => FajarType::Bool,
        WitPrimitive::Char => FajarType::Char,
        WitPrimitive::String_ => FajarType::Str,
    }
}


// ═════════════════════════════════════════════════════════════════════
// Type mapper
// ═════════════════════════════════════════════════════════════════════

/// What a type mapper knows: registered types by WIT name, and `use`
/// aliases mapped to the names they import.
pub struct MapperView {
    pub defs: Map<Seq<char>, FajarTypeView>,
    pub imports: Map<Seq<char>, Seq<char>>,
}

/// The Fajar type a WIT name stands for: a registered type, else the
/// registered type its import names, else a struct named after it.
pub open spec fn named_type(m: MapperView, n: Seq<char>) -> FajarTypeView {
    if m.defs.contains_key(n) {
        m.defs[n]
    } else if m.imports.contains_key(n) && m.defs.contains_key(m.imports[n]) {
        m.defs[m.imports[n]]
    } else {
        FajarTypeView::Struct(pascal_case(n))
    }
}

/// The Fajar type of a WIT type reference.
pub open spec fn map_spec(m: MapperView, ty: WitTypeRef) -> FajarTypeView
    decreases ty,
{
    match ty {
        WitTypeRef::Primitive(p) => primitive_fajar(p),
        WitTypeRef::List(inner) => FajarTypeView::Array(Box::new(map_spec(m, *inner))),
        WitTypeRef::Option(inner) => FajarTypeView::Option(Box::new(map_spec(m, *inner))),
        WitTypeRef::Result { ok, err } => FajarTypeView::Result {
            ok: match ok {
                Some(o) => Some(Box::new(map_spec(m, *o))),
                None => None,
            },
            err: match err {
                Some(e) => Some(Box::new(map_spec(m, *e))),
                None => None,
            },
        },
        WitTypeRef::Tuple(items) => FajarTypeView::Tuple(map_specs(m, items@, 0)),
        WitTypeRef::Own(inner) => map_spec(m, *inner),
        WitTypeRef::Borrow(inner) => map_spec(m, *inner),
        WitTypeRef::Named(n) => named_type(m, n@),
    }
}

/// The Fajar types of `items[i..]`.
pub open spec fn map_specs(m: MapperView, items: Seq<WitTypeRef>, i: int) -> Seq<FajarTypeView>
    decreases items, items.len() - i,
{
    if 0 <= i < items.len() {
        seq![map_spec(m, items[i])] + map_specs(m, items, i + 1)
    } else {
        Seq::empty()
    }
}

proof fn lemma_map_specs(m: MapperView, items: Seq<WitTypeRef>, i: int)
    requires
        0 <= i <= items.len(),
    ensures
        map_specs(m, items, i).len() == items.len() - i,
        forall|k: int| 0 <= k < items.len() - i ==> #[trigger] map_specs(m, items, i)[k] == map_spec(
            m,
            items[i + k],
        ),
    decreases items.len() - i,
{
    if i < items.len() {
        lemma_map_specs(m, items, i + 1);
        assert forall|k: int| 0 <= k < items.len() - i implies #[trigger] map_specs(m, items, i)[k]
            == map_spec(m, items[i + k]) by {
            if k > 0 {
                assert(map_specs(m, items, i)[k] == map_specs(m, items, i + 1)[k - 1]);
            }
        }
    }
}

/// The name a `use` entry is known by: its alias, or its own name.
pub open spec fn use_target(n: WitUseName) -> Seq<char> {
    match n.alias {
        Some(a) => a@,
        None => n.name@,
    }
}

/// The imports after registering the names of a `use`, in order.
pub open spec fn use_imports(m: Map<Seq<char>, Seq<char>>, names: Seq<WitUseName>) -> Map<
    Seq<char>,
    Seq<char>,
>
    decreases names.len(),
{
    if names.len() == 0 {
        m
    } else {
        use_imports(m, names.drop_last()).insert(use_target(names.last()), names.last().name@)
    }
}

/// The Fajar type a type definition registers.
pub open spec fn typedef_fajar(m: MapperView, td: WitTypeDef) -> FajarTypeView {
    match td.kind {
        WitTypeDefKind::Record(_) => FajarTypeView::Struct(pascal_case(td.name@)),
        WitTypeDefKind::Enum(_) => FajarTypeView::Enum(pascal_case(td.name@)),
        WitTypeDefKind::Variant(_) => FajarTypeView::Enum(pascal_case(td.name@)),
        WitTypeDefKind::Flags(ms) => FajarTypeView::Flags {
            name: pascal_case(td.name@),
            members: names_view(ms@),
        },
        WitTypeDefKind::Resource(_) => FajarTypeView::ResourceHandle(pascal_case(td.name@)),
        WitTypeDefKind::Alias(t) => map_spec(m, t),
    }
}

/// The mapper after registering a type definition.
pub open spec fn register_td(m: MapperView, td: WitTypeDef) -> MapperView {
    MapperView { defs: m.defs.insert(td.name@, typedef_fajar(m, td)), imports: m.imports }
}

/// The mapper after registering a `use`.
pub open spec fn register_u(m: MapperView, u: WitUseDecl) -> MapperView {
    MapperView { defs: m.defs, imports: use_imports(m.imports, u.names@) }
}

/// The mapper after registering the items of an interface, in order.
pub open spec fn register_items(m: MapperView, items: Seq<WitInterfaceItem>) -> MapperView
    decreases items.len(),
{
    if items.len() == 0 {
        m
    } else {
        let m0 = register_items(m, items.drop_last());
        match items.last() {
            WitInterfaceItem::TypeDef(td) => register_td(m0, td),
            WitInterfaceItem::Use(u) => register_u(m0, u),
            WitInterfaceItem::Func(_) => m0,
        }
    }
}

/// The mapper after registering a sequence of `use` declarations.
pub open spec fn register_uses(m: MapperView, us: Seq<WitUseDecl>) -> MapperView
    decreases us.len(),
{
    if us.len() == 0 {
        m
    } else {
        register_u(register_uses(m, us.drop_last()), us.last())
    }
}

/// The mapper after registering a sequence of interfaces.
pub open spec fn register_ifaces(m: MapperView, is: Seq<WitInterfaceDef>) -> MapperView
    decreases is.len(),
{
    if is.len() == 0 {
        m
    } else {
        register_items(register_ifaces(m, is.drop_last()), is.last().items@)
    }
}

/// Mapping follows the shape of a type: a list becomes an array, an option
/// an option, a result a result of the mapped parts, a tuple a tuple of the
/// mapped items in order, `own<T>` and `borrow<T>` the mapped `T`, and a
/// name that is neither registered nor imported a struct named after it in
/// PascalCase. Primitives map by width and signedness: `u8`..`u64` to
/// unsigned integers, `s8`..`s64` to signed ones, `f32`/`f64` to floats of
/// that width, and `bool`, `char`, `string` to `Bool`, `Char`, `Str`.
pub proof fn law_map_follows_shape(m: MapperView, t: WitTypeRef)
    ensures
        match t {
            WitTypeRef::Primitive(p) => map_spec(m, t) == match p {
                WitPrimitive::U8 => FajarTypeView::UInt(8),
                WitPrimitive::U16 => FajarTypeView::UInt(16),
                WitPrimitive::U32 => FajarTypeView::UInt(32),
                WitPrimitive::U64 => FajarTypeView::UInt(64),
                WitPrimitive::S8 => FajarTypeView::Int(8),
                WitPrimitive::S16 => FajarTypeView::Int(16),
                WitPrimitive::S32 => FajarTypeView::Int(32),
                WitPrimitive::S64 => FajarTypeView::Int(64),
                WitPrimitive::F32 => FajarTypeView::Float(32),
                WitPrimitive::F64 => FajarTypeView::Float(64),
                WitPrimitive::Bool => FajarTypeView::Bool,
                WitPrimitive::Char => FajarTypeView::Char,
                WitPrimitive::String_ => FajarTypeView::Str,
            },
            WitTypeRef::List(i) => map_spec(m, t) == FajarTypeView::Array(Box::new(map_spec(m, *i))),
            WitTypeRef::Option(i) => map_spec(m, t) == FajarTypeView::Option(Box::new(map_spec(m, *i))),
            WitTypeRef::Result { ok, err } => map_spec(m, t) matches FajarTypeView::Result { ok: o2, err: e2 }
                && (ok is Some <==> o2 is Some) && (err is Some <==> e2 is Some)
                && (ok matches Some(o) ==> *o2->0 == map_spec(m, *o))
                && (err matches Some(e) ==> *e2->0 == map_spec(m, *e)),
            WitTypeRef::Tuple(items) => map_spec(m, t) matches FajarTypeView::Tuple(vs) && vs.len() == items@.len()
                && forall|k: int| 0 <= k < vs.len() ==> #[trigger] vs[k] == map_spec(m, items@[k]),
            WitTypeRef::Own(i) => map_spec(m, t) == map_spec(m, *i),
            WitTypeRef::Borrow(i) => map_spec(m, t) == map_spec(m, *i),
            WitTypeRef::Named(n) => !m.defs.contains_key(n@) && !m.imports.contains_key(n@) ==> map_spec(m, t)
                == FajarTypeView::Struct(pascal_case(n@)),
        },
{
    if let WitTypeRef::Tuple(items) = t {
        lemma_map_specs(m, items@, 0);
    }
}

/// A registered type definition is what its name then maps to: a record
/// as a struct, an enum or variant as an enum, flags as flags with the
/// same members, a resource as a resource handle (each named in
/// PascalCase), and an alias as the type it names.
pub proof fn law_registered_name_maps(m: MapperView, td: WitTypeDef)
    ensures
        map_spec(register_td(m, td), WitTypeRef::Named(td.name)) == match td.kind {
            WitTypeDefKind::Record(_) => FajarTypeView::Struct(pascal_case(td.name@)),
            WitTypeDefKind::Enum(_) => FajarTypeView::Enum(pascal_case(td.name@)),
            WitTypeDefKind::Variant(_) => FajarTypeView::Enum(pascal_case(td.name@)),
            WitTypeDefKind::Flags(ms) => FajarTypeView::Flags { name: pascal_case(td.name@), members: names_view(ms@) },
            WitTypeDefKind::Resource(_) => FajarTypeView::ResourceHandle(pascal_case(td.name@)),
            WitTypeDefKind::Alias(t) => map_spec(m, t),
        },
{
}

/// A name imported under an alias maps as the registered type it imports:
/// where the alias is not itself a registered type, is recorded as
/// importing `original`, and `original` is registered, `Named(alias)` and
/// `Named(original)` map to the same Fajar type, the one registered under
/// `original`.
pub proof fn law_import_maps_as_original(m: MapperView, alias: String, original: String)
    requires
        !m.defs.contains_key(alias@),
        m.imports.contains_key(alias@),
        m.imports[alias@] == original@,
        m.defs.contains_key(original@),
    ensures
        map_spec(m, WitTypeRef::Named(alias)) == map_spec(m, WitTypeRef::Named(original)),
        map_spec(m, WitTypeRef::Named(alias)) == m.defs[original@],
{
}

/// Registering `use` names records the last entry for each name it is
/// known by: that entry's original name.
proof fn lemma_use_imports_last(m: Map<Seq<char>, Seq<char>>, names: Seq<WitUseName>, k: int)
    requires
        0 <= k < names.len(),
        forall|j: int| k < j < names.len() ==> use_target(#[trigger] names[j]) != use_target(names[k]),
    ensures
        use_imports(m, names).contains_key(use_target(names[k])),
        use_imports(m, names)[use_target(names[k])] == names[k].name@,
    decreases names.len(),
{
    if k < names.len() - 1 {
        let init = names.drop_last();
        assert forall|j: int| k < j < init.len() implies use_target(#[trigger] init[j]) != use_target(init[k]) by {
            assert(init[j] == names[j]);
        }
        lemma_use_imports_last(m, init, k);
        assert(init[k] == names[k]);
        assert(use_target(names.last()) != use_target(names[k]));
    }
}

/// After registering `use ...{name as alias}`, where no later entry of the
/// same `use` is known as `alias`, `alias` is not a registered type and
/// `name` is, `Named(alias)` maps to the type registered under `name`,
/// as `Named(name)` does.
pub proof fn law_use_alias_maps_as_original(m: MapperView, u: WitUseDecl, k: int)
    requires
        0 <= k < u.names@.len(),
        u.names@[k].alias is Some,
        forall|j: int| k < j < u.names@.len() ==> use_target(#[trigger] u.names@[j]) != use_target(u.names@[k]),
        !m.defs.contains_key(u.names@[k].alias->0@),
        m.defs.contains_key(u.names@[k].name@),
    ensures
        map_spec(register_u(m, u), WitTypeRef::Named(u.names@[k].alias->0)) == map_spec(
            register_u(m, u),
            WitTypeRef::Named(u.names@[k].name),
        ),
        map_spec(register_u(m, u), WitTypeRef::Named(u.names@[k].alias->0)) == m.defs[u.names@[k].name@],
{
    lemma_use_imports_last(m.imports, u.names@, k);
    law_import_maps_as_original(register_u(m, u), u.names@[k].alias->0, u.names@[k].name);
}

/// Maps WIT types to Fajar Lang types, tracking resolved type definitions.
pub struct WitTypeMapper {
    /// Resolved named types: WIT name -> Fajar type.
    type_defs: Vec<(String, FajarType)>,
    /// Resolved imports: alias -> original name.
    imports: Vec<(String, String)>,
}

/// The entries of a table of named types, as values.
pub open spec fn def_entries(v: Seq<(String, FajarType)>) -> Seq<(Seq<char>, FajarTypeView)> {
    v.map_values(|e: (String, FajarType)| (e.0@, e.1@))
}

/// The entries of a table of imports, as values.
pub open spec fn import_entries(v: Seq<(String, String)>) -> Seq<(Seq<char>, Seq<char>)> {
    v.map_values(|e: (String, String)| (e.0@, e.1@))
}

impl View for WitTypeMapper {
    type V = MapperView;

    closed spec fn view(&self) -> MapperView {
        MapperView {
            defs: assoc_map(def_entries(self.type_defs@)),
            imports: assoc_map(import_entries(self.imports@)),
        }
    }
}

impl WitTypeMapper {
    /// The mapper's invariant: no name is registered twice.
    pub closed spec fn wf(&self) -> bool {
        keys_distinct(def_entries(self.type_defs@)) && keys_distinct(import_entries(self.imports@))
    }

    /// Creates a new type mapper.
    pub fn new() -> (m: Self)
        ensures
            m.wf(),
            m@.defs == Map::<Seq<char>, FajarTypeView>::empty(),
            m@.imports == Map::<Seq<char>, Seq<char>>::empty(),
    {
        let m = WitTypeMapper { type_defs: Vec::new(), imports: Vec::new() };
        proof {
            assert(def_entries(m.type_defs@) =~= Seq::empty());
            assert(import_entries(m.imports@) =~= Seq::empty());
        }
        m
    }

    fn put_def(&mut self, k: String, v: FajarType)
        requires
            old(self).wf(),
        ensures
            final(self).wf(),
            final(self)@.defs == old(self)@.defs.insert(k@, v@),
            final(self)@.imports == old(self)@.imports,
    {
        let ghost e = def_entries(self.type_defs@);
        let ghost kv = k@;
        let ghost vv = v@;
        match find_name(&self.type_defs, k.as_str()) {
            Some(i) => {
                proof {
                    lemma_assoc_update(e, i as int, vv);
                }
                self.type_defs.set(i, (k, v));
                proof {
                    assert(def_entries(self.type_defs@) =~= e.update(i as int, (e[i as int].0, vv)));
                }
            },
            None => {
                proof {
                    lemma_assoc_push(e, kv, vv);
                }
                self.type_defs.push((k, v));
                proof {
                    assert(def_entries(self.type_defs@) =~= e.push((kv, vv)));
                }
            },
        }
    }

    fn put_import(&mut self, k: String, v: String)
        requires
            old(self).wf(),
        ensures
            final(self).wf(),
            final(self)@.imports == old(self)@.imports.insert(k@, v@),
            final(self)@.defs == old(self)@.defs,
    {
        let ghost e = import_entries(self.imports@);
        let ghost kv = k@;
        let ghost vv = v@;
        match find_name(&self.imports, k.as_str()) {
            Some(i) => {
                proof {
                    lemma_assoc_update(e, i as int, vv);
                }
                self.imports.set(i, (k, v));
                proof {
                    assert(import_entries(self.imports@) =~= e.update(i as int, (e[i as int].0, vv)));
                }
            },
            None => {
                proof {
                    lemma_assoc_push(e, kv, vv);
                }
                self.imports.push((k, v));
                proof {
                    assert(import_entries(self.imports@) =~= e.push((kv, vv)));
                }
            },
        }
    }

    /// Register all type definitions from a WIT document: its top-level
    /// `use` imports, then the items of each interface.
    pub fn register_document(&mut self, doc: &WitDocument)
        requires
            old(self).wf(),
        ensures
            final(self).wf(),
            final(self)@ == register_ifaces(
                register_uses(old(self)@, doc.top_use@),
                doc.interfaces@,
            ),
    {
        let mut i: usize = 0;
        while i < doc.top_use.len()
            invariant
                i <= doc.top_use@.len(),
                self.wf(),
                self@ == register_uses(old(self)@, doc.top_use@.take(i as int)),
            decreases doc.top_use@.len() - i,
        {
            proof {
                assert(doc.top_use@.take(i + 1).drop_last() =~= doc.top_use@.take(i as int));
            }
            self.register_use(&doc.top_use[i]);
            i = i + 1;
        }
        proof {
            assert(doc.top_use@.take(i as int) =~= doc.top_use@);
        }
        let ghost mid = self@;
        let mut j: usize = 0;
        while j < doc.interfaces.len()
            invariant
                j <= doc.interfaces@.len(),
                self.wf(),
                mid == register_uses(old(self)@, doc.top_use@),
                self@ == register_ifaces(mid, doc.interfaces@.take(j as int)),
            decreases doc.interfaces@.len() - j,
        {
            proof {
                assert(doc.interfaces@.take(j + 1).drop_last() =~= doc.interfaces@.take(j as int));
            }
            self.register_interface(&doc.interfaces[j]);
            j = j + 1;
        }
        proof {
            assert(doc.interfaces@.take(j as int) =~= doc.interfaces@);
        }
    }

    /// Register types and imports from an interface, item by item.
    pub fn register_interface(&mut self, iface: &WitInterfaceDef)
        requires
            old(self).wf(),
        ensures
            final(self).wf(),
            final(self)@ == register_items(old(self)@, iface.items@),
    {
        let mut i: usize = 0;
        while i < iface.items.len()
            invariant
                i <= iface.items@.len(),
                self.wf(),
                self@ == register_items(old(self)@, iface.items@.take(i as int)),
            decreases iface.items@.len() - i,
        {
            proof {
                assert(iface.items@.take(i + 1).drop_last() =~= iface.items@.take(i as int));
            }
            match &iface.items[i] {
                WitInterfaceItem::TypeDef(td) => self.register_type_def(td),
                WitInterfaceItem::Use(u) => self.register_use(u),
                WitInterfaceItem::Func(_) => {},
            }
            i = i + 1;
        }
        proof {
            assert(iface.items@.take(i as int) =~= iface.items@);
        }
    }

    /// Register a `use` import: each name under its alias (or itself).
    fn register_use(&mut self, u: &WitUseDecl)
        requires
            old(self).wf(),
        ensures
            final(self).wf(),
            final(self)@ == register_u(old(self)@, *u),
    {
        let mut i: usize = 0;
        while i < u.names.len()
            invariant
                i <= u.names@.len(),
                self.wf(),
                self@.defs == old(self)@.defs,
                self@.imports == use_imports(old(self)@.imports, u.names@.take(i as int)),
            decreases u.names@.len() - i,
        {
            proof {
                assert(u.names@.take(i + 1).drop_last() =~= u.names@.take(i as int));
            }
            let n = &u.names[i];
            let target = match &n.alias {
                Some(a) => a.clone(),
                None => n.name.clone(),
            };
            self.put_import(target, n.name.clone());
            i = i + 1;
        }
        proof {
            assert(u.names@.take(i as int) =~= u.names@);
        }
    }

    /// Register a type definition under its WIT name.
    fn register_type_def(&mut self, td: &WitTypeDef)
        requires
            old(self).wf(),
        ensures
            final(self).wf(),
            final(self)@ == register_td(old(self)@, *td),
    {
        let fajar_type = match &td.kind {
            WitTypeDefKind::Record(_) => {
                let struct_name = wit_to_pascal_case(td.name.as_str());
                self.put_def(td.name.clone(), FajarType::Struct(struct_name.clone()));
                FajarType::Struct(struct_name)
            },
            WitTypeDefKind::Enum(_) => FajarType::Enum(wit_to_pascal_case(td.name.as_str())),
            WitTypeDefKind::Variant(_) => FajarType::Enum(wit_to_pascal_case(td.name.as_str())),
            WitTypeDefKind::Flags(members) => {
                let ms = members.clone();
                proof {
                    assert(names_view(ms@) =~= names_view(members@));
                }
                FajarType::Flags { name: wit_to_pascal_case(td.name.as_str()), members: ms }
            },
            WitTypeDefKind::Resource(_) => FajarType::ResourceHandle(
                wit_to_pascal_case(td.name.as_str()),
            ),
            WitTypeDefKind::Alias(target) => self.map_type_ref(target),
        };
        self.put_def(td.name.clone(), fajar_type);
        proof {
            assert(self@.defs =~= register_td(old(self)@, *td).defs);
        }
    }

    fn lookup_def(&self, name: &str) -> (r: Option<&FajarType>)
        requires
            self.wf(),
        ensures
            match r {
                Some(t) => self@.defs.contains_key(name@) && t@ == self@.defs[name@],
                None => !self@.defs.contains_key(name@),
            },
    {
        let ghost e = def_entries(self.type_defs@);
        match find_name(&self.type_defs, name) {
            Some(i) => {
                proof {
                    lemma_assoc_lookup(e, i as int);
                }
                Some(&self.type_defs[i].1)
            },
            None => {
                proof {
                    assert forall|j: int| 0 <= j < e.len() implies e[j].0 != name@ by {
                        assert(e[j].0 == self.type_defs@[j].0@);
                    }
                    lemma_assoc_absent(e, name@);
                }
                None
            },
        }
    }

    fn lookup_import(&self, name: &str) -> (r: Option<&String>)
        requires
            self.wf(),
        ensures
            match r {
                Some(t) => self@.imports.contains_key(name@) && t@ == self@.imports[name@],
                None => !self@.imports.contains_key(name@),
            },
    {
        let ghost e = import_entries(self.imports@);
        match find_name(&self.imports, name) {
            Some(i) => {
                proof {
                    lemma_assoc_lookup(e, i as int);
                }
                Some(&self.imports[i].1)
            },
            None => {
                proof {
                    assert forall|j: int| 0 <= j < e.len() implies e[j].0 != name@ by {
                        assert(e[j].0 == self.imports@[j].0@);
                    }
                    lemma_assoc_absent(e, name@);
                }
                None
            },
        }
    }

    /// Map a WIT type reference to a Fajar type.
    pub fn map_type_ref(&self, ty: &WitTypeRef) -> (r: FajarType)
        requires
            self.wf(),
        ensures
            r@ == map_spec(self@, *ty),
        decreases ty,
    {
        match ty {
            WitTypeRef::Primitive(p) => map_primitive(p),
            WitTypeRef::List(inner) => FajarType::Array(Box::new(self.map_type_ref(inner))),
            WitTypeRef::Option(inner) => FajarType::Option(Box::new(self.map_type_ref(inner))),
            WitTypeRef::Result { ok, err } => {
                let ok2 = match ok {
                    Some(t) => Some(Box::new(self.map_type_ref(t))),
                    None => None,
                };
                let err2 = match err {
                    Some(t) => Some(Box::new(self.map_type_ref(t))),
                    None => None,
                };
                FajarType::Result { ok: ok2, err: err2 }
            },
            WitTypeRef::Tuple(items) => {
                let mut out: Vec<FajarType> = Vec::new();
                let mut i: usize = 0;
                proof {
                    lemma_map_specs(self@, items@, 0);
                }
                while i < items.len()
                    invariant
                        i <= items@.len(),
                        self.wf(),
                        *ty == WitTypeRef::Tuple(*items),
                        out@.len() == i,
                        forall|k: int| 0 <= k < i ==> ft_view(#[trigger] out@[k]) == map_spec(
                            self@,
                            items@[k],
                        ),
                    decreases items@.len() - i,
                {
                    proof {
                        assert(decreases_to!(*ty => (*ty)->Tuple_0));
                        assert(decreases_to!((*ty)->Tuple_0 => (*ty)->Tuple_0[i as int]));
                    }
                    out.push(self.map_type_ref(&items[i]));
                    i = i + 1;
                }
                proof {
                    lemma_ft_views(out@, 0);
                    assert(ft_views(out@, 0) =~= map_specs(self@, items@, 0));
                }
                FajarType::Tuple(out)
            },
            WitTypeRef::Own(inner) => self.map_type_ref(inner),
            WitTypeRef::Borrow(inner) => self.map_type_ref(inner),
            WitTypeRef::Named(name) => {
                if let Some(t) = self.lookup_def(name.as_str()) {
                    return t.copy();
                }
                if let Some(original) = self.lookup_import(name.as_str()) {
                    if let Some(t) = self.lookup_def(original.as_str()) {
                        return t.copy();
                    }
                }
                FajarType::Struct(wit_to_pascal_case(name.as_str()))
            },
        }
    }

    /// Map a record's fields to Fajar struct fields: snake_case names, mapped types.
    pub fn map_record_fields(&self, fields: &[WitRecordField]) -> (r: Vec<(String, FajarType)>)
        requires
            self.wf(),
        ensures
            r@.len() == fields@.len(),
            forall|i: int|
                0 <= i < fields@.len() ==> (#[trigger] r@[i]).0@ == snake_case(fields@[i].name@)
                    && r@[i].1@ == map_spec(self@, fields@[i].ty),
    {
        let mut out: Vec<(String, FajarType)> = Vec::new();
        let mut i: usize = 0;
        while i < fields.len()
            invariant
                i <= fields@.len(),
                self.wf(),
                out@.len() == i,
                forall|k: int|
                    0 <= k < i ==> (#[trigger] out@[k]).0@ == snake_case(fields@[k].name@)
                        && out@[k].1@ == map_spec(self@, fields@[k].ty),
            decreases fields@.len() - i,
        {
            let f = &fields[i];
            let name = wit_to_snake_case(f.name.as_str());
            let ty = self.map_type_ref(&f.ty);
            out.push((name, ty));
            i = i + 1;
        }
        out
    }

    /// Map variant cases to Fajar enum variants: PascalCase names, mapped payloads.
    pub fn map_variant_cases(&self, cases: &[WitVariantCase]) -> (r: Vec<(String, Option<FajarType>)>)
        requires
            self.wf(),
        ensures
            r@.len() == cases@.len(),
            forall|i: int|
                0 <= i < cases@.len() ==> (#[trigger] r@[i]).0@ == pascal_case(cases@[i].name@)
                    && match cases@[i].ty {
                    Some(t) => r@[i].1 matches Some(f) && f@ == map_spec(self@, t),
                    None => r@[i].1 is None,
                },
    {
        let mut out: Vec<(String, Option<FajarType>)> = Vec::new();
        let mut i: usize = 0;
        while i < cases.len()
            invariant
                i <= cases@.len(),
                self.wf(),
                out@.len() == i,
                forall|k: int|
                    0 <= k < i ==> (#[trigger] out@[k]).0@ == pascal_case(cases@[k].name@)
                        && match cases@[k].ty {
                        Some(t) => out@[k].1 matches Some(f) && f@ == map_spec(self@, t),
                        None => out@[k].1 is None,
                    },
            decreases cases@.len() - i,
        {
            let c = &cases[i];
            let name = wit_to_pascal_case(c.name.as_str());
            let payload = match &c.ty {
                Some(t) => Some(self.map_type_ref(t)),
                None => None,
            };
            out.push((name, payload));
            i = i + 1;
        }
        out
    }

    /// Get a registered type by WIT name.
    pub fn get_type(&self, name: &str) -> (r: Option<&FajarType>)
        requires
            self.wf(),
        ensures
            match r {
                Some(t) => self@.defs.contains_key(name@) && t@ == self@.defs[name@],
                None => !self@.defs.contains_key(name@),
            },
    {
        self.lookup_def(name)
    }

    /// The original name that a `use` alias (or name) imports.
    pub fn imported_name(&self, alias: &str) -> (r: Option<&String>)
        requires
            self.wf(),
        ensures
            match r {
                Some(t) => self@.imports.contains_key(alias@) && t@ == self@.imports[alias@],
                None => !self@.imports.contains_key(alias@),
            },
    {
        self.lookup_import(alias)
    }

    /// All registered types, one entry per WIT name.
    pub fn registered_types(&self) -> (r: &Vec<(String, FajarType)>)
        requires
            self.wf(),
        ensures
            keys_distinct(def_entries(r@)),
            assoc_map(def_entries(r@)) == self@.defs,
    {
        &self.type_defs
    }
}

impl Default for WitTypeMapper {
    fn default() -> (m: Self)
        ensures
            m.wf(),
            m@.defs == Map::<Seq<char>, FajarTypeView>::empty(),
            m@.imports == Map::<Seq<char>, Seq<char>>::empty(),
    {
        Self::new()
    }
}

// ═════════════════════════════════════════════════════════════════════
// Flags
// ═════════════════════════════════════════════════════════════════════

/// Compile-time flag operations for WIT flags types.
#[derive(Debug, Clone)]
pub struct FlagSet {
    /// The flags type name.
    pub name: String,
    /// All available flags.
    pub members: Vec<String>,
    /// Current value as a bitmask.
    pub value: u64,
}

/// `i` is the first position of the member named `f`.
pub open spec fn is_first_member(ms: Seq<String>, f: Seq<char>, i: int) -> bool {
    0 <= i < ms.len() && ms[i]@ == f && forall|j: int| 0 <= j < i ==> ms[j]@ != f
}

/// The bit position of flag `f`: the first member with that name.
pub open spec fn flag_pos(ms: Seq<String>, f: Seq<char>) -> Option<int> {
    if exists|i: int| is_first_member(ms, f, i) {
        Some(choose|i: int| is_first_member(ms, f, i))
    } else {
        None
    }
}

/// Bit `i` of `v` is set.
pub open spec fn bit_on(v: u64, i: int) -> bool {
    v & (1u64 << (i as u64)) != 0
}

/// A flag set can name each of its flags with a bit: the flag's position
/// is below 64 whenever the flag is a member.
pub open spec fn flag_fits(ms: Seq<String>, f: Seq<char>) -> bool {
    flag_pos(ms, f) matches Some(i) ==> i < 64
}

proof fn lemma_first_unique(ms: Seq<String>, f: Seq<char>, i: int)
    requires
        is_first_member(ms, f, i),
    ensures
        flag_pos(ms, f) == Some(i),
{
    let c = choose|k: int| is_first_member(ms, f, k);
    assert(is_first_member(ms, f, c));
    if c < i {
        assert(ms[c]@ != f);
    } else if c > i {
        assert(ms[i]@ != f);
    }
}

fn find_flag(ms: &Vec<String>, f: &str) -> (r: Option<usize>)
    ensures
        match r {
            Some(i) => flag_pos(ms@, f@) == Some(i as int),
            None => flag_pos(ms@, f@) is None,
        },
{
    let mut i: usize = 0;
    while i < ms.len()
        invariant
            i <= ms@.len(),
            forall|j: int| 0 <= j < i ==> ms@[j]@ != f@,
        decreases ms@.len() - i,
    {
        if crate::text::str_eq(ms[i].as_str(), f) {
            proof {
                lemma_first_unique(ms@, f@, i as int);
            }
            return Some(i);
        }
        i = i + 1;
    }
    proof {
        assert(!exists|k: int| is_first_member(ms@, f@, k));
    }
    None
}

impl FlagSet {
    /// Creates a new empty flag set.
    pub fn new(name: &str, members: Vec<String>) -> (r: Self)
        ensures
            r.name@ == name@,
            r.members@ == members@,
            r.value == 0,
    {
        FlagSet { name: owned(name), members, value: 0 }
    }

    /// Sets a flag by name; false when no member has that name.
    pub fn set(&mut self, flag: &str) -> (r: bool)
        requires
            flag_fits(old(self).members@, flag@),
        ensures
            final(self).name == old(self).name,
            final(self).members == old(self).members,
            r == flag_pos(old(self).members@, flag@) is Some,
            match flag_pos(old(self).members@, flag@) {
                Some(i) => final(self).value == old(self).value | (1u64 << (i as u64)),
                None => final(self).value == old(self).value,
            },
    {
        match find_flag(&self.members, flag) {
            Some(idx) => {
                self.value = self.value | (1u64 << (idx as u64));
                true
            },
            None => false,
        }
    }

    /// Clears a flag by name; false when no member has that name.
    pub fn clear(&mut self, flag: &str) -> (r: bool)
        requires
            flag_fits(old(self).members@, flag@),
        ensures
            final(self).name == old(self).name,
            final(self).members == old(self).members,
            r == flag_pos(old(self).members@, flag@) is Some,
            match flag_pos(old(self).members@, flag@) {
                Some(i) => final(self).value == old(self).value & !(1u64 << (i as u64)),
                None => final(self).value == old(self).value,
            },
    {
        match find_flag(&self.members, flag) {
            Some(idx) => {
                self.value = self.value & !(1u64 << (idx as u64));
                true
            },
            None => false,
        }
    }

    /// Checks if a flag is set; false for a name that is no member.
    pub fn contains(&self, flag: &str) -> (r: bool)
        requires
            flag_fits(self.members@, flag@),
        ensures
            r == match flag_pos(self.members@, flag@) {
                Some(i) => bit_on(self.value, i),
                None => false,
            },
    {
        match find_flag(&self.members, flag) {
            Some(idx) => (self.value & (1u64 << (idx as u64))) != 0,
            None => false,
        }
    }

    /// Bitwise OR of two flag sets (named and membered as `self`).
    pub fn union(&self, other: &FlagSet) -> (r: FlagSet)
        ensures
            r.name@ == self.name@,
            r.members@ == self.members@,
            r.value == self.value | other.value,
    {
        let members = self.members.clone();
        proof {
            assert(members@ =~= self.members@);
        }
        FlagSet { name: self.name.clone(), members, value: self.value | other.value }
    }

    /// Bitwise AND of two flag sets (named and membered as `self`).
    pub fn intersection(&self, other: &FlagSet) -> (r: FlagSet)
        ensures
            r.name@ == self.name@,
            r.members@ == self.members@,
            r.value == self.value & other.value,
    {
        let members = self.members.clone();
        proof {
            assert(members@ =~= self.members@);
        }
        FlagSet { name: self.name.clone(), members, value: self.value & other.value }
    }
}

/// Setting a flag's bit makes it set, and leaves every other bit as it was.
pub proof fn law_flag_set(v: u64, i: int, j: int)
    requires
        0 <= i < 64,
        0 <= j < 64,
    ensures
        bit_on(v | (1u64 << (i as u64)), i),
        i != j ==> bit_on(v | (1u64 << (i as u64)), j) == bit_on(v, j),
{
    let a = i as u64;
    let b = j as u64;
    assert((v | (1u64 << a)) & (1u64 << a) != 0) by (bit_vector)
        requires
            a < 64,
    ;
    assert(a != b ==> (((v | (1u64 << a)) & (1u64 << b) != 0) == (v & (1u64 << b) != 0)))
        by (bit_vector)
        requires
            a < 64,
            b < 64,
    ;
}

/// Clearing a flag's bit makes it unset, and leaves every other bit as it was.
pub proof fn law_flag_clear(v: u64, i: int, j: int)
    requires
        0 <= i < 64,
        0 <= j < 64,
    ensures
        !bit_on(v & !(1u64 << (i as u64)), i),
        i != j ==> bit_on(v & !(1u64 << (i as u64)), j) == bit_on(v, j),
{
    let a = i as u64;
    let b = j as u64;
    assert((v & !(1u64 << a)) & (1u64 << a) == 0) by (bit_vector)
        requires
            a < 64,
    ;
    assert(a != b ==> (((v & !(1u64 << a)) & (1u64 << b) != 0) == (v & (1u64 << b) != 0)))
        by (bit_vector)
        requires
            a < 64,
            b < 64,
    ;
}

/// A flag is set in a union iff it is set in either side, and in an
/// intersection iff it is set in both.
pub proof fn law_flag_union_intersection(a: u64, b: u64, i: int)
    requires
        0 <= i < 64,
    ensures
        bit_on(a | b, i) == (bit_on(a, i) || bit_on(b, i)),
        bit_on(a & b, i) == (bit_on(a, i) && bit_on(b, i)),
{
    let k = i as u64;
    assert(((a | b) & (1u64 << k) != 0) == ((a & (1u64 << k) != 0) || (b & (1u64 << k) != 0)))
        by (bit_vector)
        requires
            k < 64,
    ;
    assert(((a & b) & (1u64 << k) != 0) == ((a & (1u64 << k) != 0) && (b & (1u64 << k) != 0)))
        by (bit_vector)
        requires
            k < 64,
    ;
}

} // verus!
