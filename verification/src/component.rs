//! Component Model binary format: building WASI P2 component binaries.
//!
//! - component sections: header, core module, types, imports, exports
//! - canonical ABI type encoding, with LEB128 lengths and indices
//! - components built from WIT worlds
//! - a linear memory with a bump allocator (`cabi_realloc`)
//! - lowering values into memory and lifting them back
//! - post-return cleanup tracking
//! - validation of component headers and section layout

use vstd::prelude::*;
use vstd::string::StringSliceAdditionalSpecFns;
use vstd::utf8::*;
use crate::text::{dec, from_utf8, hex, owned, push_dec, push_hex, push_str, zero_pad};
use crate::wit_parser::{
    list_text, primitive_text, type_text, WitFuncDef, WitPrimitive, WitTypeRef, WitWorldDef, WitWorldExport,
    WitWorldImport, WitWorldItem,
};
use crate::wit_types::names_view;

verus! {

// ═════════════════════════════════════════════════════════════════════
// Component value types
// ═════════════════════════════════════════════════════════════════════

/// Component value types (canonical ABI types).
#[derive(Debug, PartialEq)]
pub enum ComponentValType {
    Bool,
    U8,
    U16,
    U32,
    U64,
    S8,
    S16,
    S32,
    S64,
    F32,
    F64,
    Char,
    String_,
    List(Box<ComponentValType>),
    Option_(Box<ComponentValType>),
    Result_ { ok: Option<Box<ComponentValType>>, err: Option<Box<ComponentValType>> },
    Tuple(Vec<ComponentValType>),
    Record(Vec<(String, ComponentValType)>),
    Variant(Vec<(String, Option<ComponentValType>)>),
    Flags(Vec<String>),
    /// An owned handle to the resource type with this index.
    Own(u32),
    /// A borrowed handle to the resource type with this index.
    Borrow(u32),
    /// A reference to a defined type by index.
    TypeRef(u32),
}

/// The value of a component value type.
pub enum CvtView {
    Bool,
    U8,
    U16,
    U32,
    U64,
    S8,
    S16,
    S32,
    S64,
    F32,
    F64,
    Char,
    Str,
    List(Box<CvtView>),
    Option(Box<CvtView>),
    Result { ok: Option<Box<CvtView>>, err: Option<Box<CvtView>> },
    Tuple(Seq<CvtView>),
    Record(Seq<(Seq<char>, CvtView)>),
    Variant(Seq<(Seq<char>, Option<CvtView>)>),
    Flags(Seq<Seq<char>>),
    Own(u32),
    Borrow(u32),
    TypeRef(u32),
}

/// The value of a component value type.
pub open spec fn cvt_view(t: ComponentValType) -> CvtView
    decreases t,
{
    match t {
        ComponentValType::Bool => CvtView::Bool,
        ComponentValType::U8 => CvtView::U8,
        ComponentValType::U16 => CvtView::U16,
        ComponentValType::U32 => CvtView::U32,
        ComponentValType::U64 => CvtView::U64,
        ComponentValType::S8 => CvtView::S8,
        ComponentValType::S16 => CvtView::S16,
        ComponentValType::S32 => CvtView::S32,
        ComponentValType::S64 => CvtView::S64,
        ComponentValType::F32 => CvtView::F32,
        ComponentValType::F64 => CvtView::F64,
        ComponentValType::Char => CvtView::Char,
        ComponentValType::String_ => CvtView::Str,
        ComponentValType::List(inner) => CvtView::List(Box::new(cvt_view(*inner))),
        ComponentValType::Option_(inner) => CvtView::Option(Box::new(cvt_view(*inner))),
        ComponentValType::Result_ { ok, err } => CvtView::Result {
            ok: match ok {
                Some(o) => Some(Box::new(cvt_view(*o))),
                None => None,
            },
            err: match err {
                Some(e) => Some(Box::new(cvt_view(*e))),
                None => None,
            },
        },
        ComponentValType::Tuple(items) => CvtView::Tuple(cvt_views(items@, 0)),
        ComponentValType::Record(fields) => CvtView::Record(field_views(fields@, 0)),
        ComponentValType::Variant(cases) => CvtView::Variant(case_views(cases@, 0)),
        ComponentValType::Flags(names) => CvtView::Flags(names_view(names@)),
        ComponentValType::Own(i) => CvtView::Own(i),
        ComponentValType::Borrow(i) => CvtView::Borrow(i),
        ComponentValType::TypeRef(i) => CvtView::TypeRef(i),
    }
}

/// The values of `items[i..]`.
pub open spec fn cvt_views(items: Seq<ComponentValType>, i: int) -> Seq<CvtView>
    decreases items, items.len() - i,
{
    if 0 <= i < items.len() {
        seq![cvt_view(items[i])] + cvt_views(items, i + 1)
    } else {
        Seq::empty()
    }
}

/// The values of the record fields `fs[i..]`.
pub open spec fn field_views(fs: Seq<(String, ComponentValType)>, i: int) -> Seq<(Seq<char>, CvtView)>
    decreases fs, fs.len() - i,
{
    if 0 <= i < fs.len() {
        seq![(fs[i].0@, cvt_view(fs[i].1))] + field_views(fs, i + 1)
    } else {
        Seq::empty()
    }
}

/// The values of the variant cases `cs[i..]`.
pub open spec fn case_views(cs: Seq<(String, Option<ComponentValType>)>, i: int) -> Seq<
    (Seq<char>, Option<CvtView>),
>
    decreases cs, cs.len() - i,
{
    if 0 <= i < cs.len() {
        seq![
            (
                cs[i].0@,
                match cs[i].1 {
                    Some(t) => Some(cvt_view(t)),
                    None => None,
                },
            ),
        ] + case_views(cs, i + 1)
    } else {
        Seq::empty()
    }
}

impl View for ComponentValType {
    type V = CvtView;

    open spec fn view(&self) -> CvtView {
        cvt_view(*self)
    }
}

proof fn lemma_cvt_views(items: Seq<ComponentValType>, i: int)
    requires
        0 <= i <= items.len(),
    ensures
        cvt_views(items, i).len() == items.len() - i,
        forall|k: int| 0 <= k < items.len() - i ==> #[trigger] cvt_views(items, i)[k] == cvt_view(items[i + k]),
    decreases items.len() - i,
{
    if i < items.len() {
        lemma_cvt_views(items, i + 1);
        assert forall|k: int| 0 <= k < items.len() - i implies #[trigger] cvt_views(items, i)[k] == cvt_view(
            items[i + k],
        ) by {
            if k > 0 {
                assert(cvt_views(items, i)[k] == cvt_views(items, i + 1)[k - 1]);
            }
        }
    }
}

proof fn lemma_field_views(fs: Seq<(String, ComponentValType)>, i: int)
    requires
        0 <= i <= fs.len(),
    ensures
        field_views(fs, i).len() == fs.len() - i,
        forall|k: int|
            0 <= k < fs.len() - i ==> #[trigger] field_views(fs, i)[k] == (fs[i + k].0@, cvt_view(fs[i + k].1)),
    decreases fs.len() - i,
{
    if i < fs.len() {
        lemma_field_views(fs, i + 1);
        assert forall|k: int| 0 <= k < fs.len() - i implies #[trigger] field_views(fs, i)[k] == (
            fs[i + k].0@,
            cvt_view(fs[i + k].1),
        ) by {
            if k > 0 {
                assert(field_views(fs, i)[k] == field_views(fs, i + 1)[k - 1]);
            }
        }
    }
}

/// The value of an optional type.
pub open spec fn opt_view(t: Option<ComponentValType>) -> Option<CvtView> {
    match t {
        Some(x) => Some(cvt_view(x)),
        None => None,
    }
}

proof fn lemma_case_views(cs: Seq<(String, Option<ComponentValType>)>, i: int)
    requires
        0 <= i <= cs.len(),
    ensures
        case_views(cs, i).len() == cs.len() - i,
        forall|k: int|
            0 <= k < cs.len() - i ==> #[trigger] case_views(cs, i)[k] == (cs[i + k].0@, opt_view(cs[i + k].1)),
    decreases cs.len() - i,
{
    if i < cs.len() {
        lemma_case_views(cs, i + 1);
        assert forall|k: int| 0 <= k < cs.len() - i implies #[trigger] case_views(cs, i)[k] == (
            cs[i + k].0@,
            opt_view(cs[i + k].1),
        ) by {
            if k > 0 {
                assert(case_views(cs, i)[k] == case_views(cs, i + 1)[k - 1]);
            }
        }
    }
}

// ─────────────────────────────────────────────────────────────────────
// Text
// ─────────────────────────────────────────────────────────────────────

/// `", "` before every element but the first.
pub open spec fn sep(i: int) -> Seq<char> {
    if i > 0 {
        ", "@
    } else {
        Seq::<char>::empty()
    }
}

/// The WIT-style text of a component value type.
pub open spec fn cvt_text(t: CvtView) -> Seq<char>
    decreases t,
{
    match t {
        CvtView::Bool => "bool"@,
        CvtView::U8 => "u8"@,
        CvtView::U16 => "u16"@,
        CvtView::U32 => "u32"@,
        CvtView::U64 => "u64"@,
        CvtView::S8 => "s8"@,
        CvtView::S16 => "s16"@,
        CvtView::S32 => "s32"@,
        CvtView::S64 => "s64"@,
        CvtView::F32 => "f32"@,
        CvtView::F64 => "f64"@,
        CvtView::Char => "char"@,
        CvtView::Str => "string"@,
        CvtView::List(inner) => "list<"@ + cvt_text(*inner) + ">"@,
        CvtView::Option(inner) => "option<"@ + cvt_text(*inner) + ">"@,
        CvtView::Result { ok, err } => "result"@ + if ok is Some || err is Some {
            "<"@ + match ok {
                Some(o) => cvt_text(*o),
                None => "_"@,
            } + match err {
                Some(e) => ", "@ + cvt_text(*e),
                None => Seq::<char>::empty(),
            } + ">"@
        } else {
            Seq::<char>::empty()
        },
        CvtView::Tuple(items) => "tuple<"@ + items_text(items, 0) + ">"@,
        CvtView::Record(fields) => "record { "@ + fields_text(fields, 0) + " }"@,
        CvtView::Variant(cases) => "variant { "@ + cases_text(cases, 0) + " }"@,
        CvtView::Flags(names) => "flags { "@ + flag_names_text(names, 0) + " }"@,
        CvtView::Own(i) => "own<"@ + dec(i as nat) + ">"@,
        CvtView::Borrow(i) => "borrow<"@ + dec(i as nat) + ">"@,
        CvtView::TypeRef(i) => "type-ref("@ + dec(i as nat) + ")"@,
    }
}

/// The texts of `items[i..]`, separated by `", "`.
pub open spec fn items_text(items: Seq<CvtView>, i: int) -> Seq<char>
    decreases items, items.len() - i,
{
    if 0 <= i < items.len() {
        sep(i) + cvt_text(items[i]) + items_text(items, i + 1)
    } else {
        Seq::empty()
    }
}

/// `name: type` for the fields `fs[i..]`, separated by `", "`.
pub open spec fn fields_text(fs: Seq<(Seq<char>, CvtView)>, i: int) -> Seq<char>
    decreases fs, fs.len() - i,
{
    if 0 <= i < fs.len() {
        sep(i) + fs[i].0 + ": "@ + cvt_text(fs[i].1) + fields_text(fs, i + 1)
    } else {
        Seq::empty()
    }
}

/// `name` or `name(type)` for the cases `cs[i..]`, separated by `", "`.
pub open spec fn cases_text(cs: Seq<(Seq<char>, Option<CvtView>)>, i: int) -> Seq<char>
    decreases cs, cs.len() - i,
{
    if 0 <= i < cs.len() {
        sep(i) + cs[i].0 + match cs[i].1 {
            Some(t) => "("@ + cvt_text(t) + ")"@,
            None => Seq::<char>::empty(),
        } + cases_text(cs, i + 1)
    } else {
        Seq::empty()
    }
}

/// The names `ns[i..]`, separated by `", "`.
pub open spec fn flag_names_text(ns: Seq<Seq<char>>, i: int) -> Seq<char>
    decreases ns.len() - i,
{
    if 0 <= i < ns.len() {
        sep(i) + ns[i] + flag_names_text(ns, i + 1)
    } else {
        Seq::empty()
    }
}

impl ComponentValType {
    /// The WIT-style text of this type.
    pub fn to_string(&self) -> (s: String)
        ensures
            s@ == cvt_text(self@),
    {
        let mut s = String::new();
        self.write_to(&mut s);
        proof {
            assert(s@ =~= cvt_text(self@));
        }
        s
    }

    fn write_to(&self, s: &mut String)
        ensures
            final(s)@ == old(s)@ + cvt_text(self@),
        decreases self,
    {
        match self {
            ComponentValType::Bool => push_str(s, "bool"),
            ComponentValType::U8 => push_str(s, "u8"),
            ComponentValType::U16 => push_str(s, "u16"),
            ComponentValType::U32 => push_str(s, "u32"),
            ComponentValType::U64 => push_str(s, "u64"),
            ComponentValType::S8 => push_str(s, "s8"),
            ComponentValType::S16 => push_str(s, "s16"),
            ComponentValType::S32 => push_str(s, "s32"),
            ComponentValType::S64 => push_str(s, "s64"),
            ComponentValType::F32 => push_str(s, "f32"),
            ComponentValType::F64 => push_str(s, "f64"),
            ComponentValType::Char => push_str(s, "char"),
            ComponentValType::String_ => push_str(s, "string"),
            ComponentValType::List(inner) => {
                push_str(s, "list<");
                inner.write_to(s);
                push_str(s, ">");
            },
            ComponentValType::Option_(inner) => {
                push_str(s, "option<");
                inner.write_to(s);
                push_str(s, ">");
            },
            ComponentValType::Result_ { ok, err } => {
                push_str(s, "result");
                if ok.is_some() || err.is_some() {
                    push_str(s, "<");
                    match ok {
                        Some(t) => t.write_to(s),
                        None => push_str(s, "_"),
                    }
                    match err {
                        Some(e) => {
                            push_str(s, ", ");
                            e.write_to(s);
                        },
                        None => {},
                    }
                    push_str(s, ">");
                }
            },
            ComponentValType::Tuple(items) => {
                push_str(s, "tuple<");
                let ghost before = s@;
                let ghost vs = cvt_views(items@, 0);
                proof {
                    lemma_cvt_views(items@, 0);
                }
                let mut i: usize = 0;
                while i < items.len()
                    invariant
                        i <= items@.len(),
                        *self == ComponentValType::Tuple(*items),
                        vs == cvt_views(items@, 0),
                        vs.len() == items@.len(),
                        forall|k: int| 0 <= k < items@.len() ==> #[trigger] vs[k] == cvt_view(items@[k]),
                        before + items_text(vs, 0) == s@ + items_text(vs, i as int),
                    decreases items@.len() - i,
                {
                    proof {
                        assert(decreases_to!(*self => (*self)->Tuple_0));
                        assert(decreases_to!((*self)->Tuple_0 => (*self)->Tuple_0[i as int]));
                        assert(vs[i as int] == cvt_view(items@[i as int]));
                    }
                    if i > 0 {
                        push_str(s, ", ");
                    }
                    items[i].write_to(s);
                    i = i + 1;
                }
                push_str(s, ">");
            },
            ComponentValType::Record(fields) => {
                push_str(s, "record { ");
                let ghost before = s@;
                let ghost fv = field_views(fields@, 0);
                proof {
                    lemma_field_views(fields@, 0);
                }
                let mut i: usize = 0;
                while i < fields.len()
                    invariant
                        i <= fields@.len(),
                        *self == ComponentValType::Record(*fields),
                        fv == field_views(fields@, 0),
                        fv.len() == fields@.len(),
                        forall|k: int| 0 <= k < fields@.len() ==> #[trigger] fv[k] == (
                            fields@[k].0@,
                            cvt_view(fields@[k].1),
                        ),
                        before + fields_text(fv, 0) == s@ + fields_text(fv, i as int),
                    decreases fields@.len() - i,
                {
                    proof {
                        assert(decreases_to!(*self => (*self)->Record_0));
                        assert(decreases_to!((*self)->Record_0 => (*self)->Record_0[i as int]));
                        assert(decreases_to!((*self)->Record_0[i as int] => (*self)->Record_0[i as int].1));
                        assert(fv[i as int] == (fields@[i as int].0@, cvt_view(fields@[i as int].1)));
                    }
                    if i > 0 {
                        push_str(s, ", ");
                    }
                    push_str(s, fields[i].0.as_str());
                    push_str(s, ": ");
                    fields[i].1.write_to(s);
                    i = i + 1;
                }
                push_str(s, " }");
            },
            ComponentValType::Variant(cases) => {
                push_str(s, "variant { ");
                let ghost before = s@;
                let ghost cv = case_views(cases@, 0);
                proof {
                    lemma_case_views(cases@, 0);
                }
                let mut i: usize = 0;
                while i < cases.len()
                    invariant
                        i <= cases@.len(),
                        *self == ComponentValType::Variant(*cases),
                        cv == case_views(cases@, 0),
                        cv.len() == cases@.len(),
                        forall|k: int| 0 <= k < cases@.len() ==> #[trigger] cv[k] == (
                            cases@[k].0@,
                            opt_view(cases@[k].1),
                        ),
                        before + cases_text(cv, 0) == s@ + cases_text(cv, i as int),
                    decreases cases@.len() - i,
                {
                    proof {
                        assert(decreases_to!(*self => (*self)->Variant_0));
                        assert(decreases_to!((*self)->Variant_0 => (*self)->Variant_0[i as int]));
                        assert(decreases_to!((*self)->Variant_0[i as int] => (*self)->Variant_0[i as int].1));
                        assert(cv[i as int] == (cases@[i as int].0@, opt_view(cases@[i as int].1)));
                    }
                    if i > 0 {
                        push_str(s, ", ");
                    }
                    push_str(s, cases[i].0.as_str());
                    match &cases[i].1 {
                        Some(t) => {
                            proof {
                                assert(decreases_to!((*self)->Variant_0[i as int].1 => (*self)->Variant_0[i as int].1->Some_0));
                            }
                            push_str(s, "(");
                            t.write_to(s);
                            push_str(s, ")");
                        },
                        None => {},
                    }
                    i = i + 1;
                }
                push_str(s, " }");
            },
            ComponentValType::Flags(names) => {
                push_str(s, "flags { ");
                let ghost before = s@;
                let ghost nv = names_view(names@);
                let mut i: usize = 0;
                while i < names.len()
                    invariant
                        i <= names@.len(),
                        nv == names_view(names@),
                        before + flag_names_text(nv, 0) == s@ + flag_names_text(nv, i as int),
                    decreases names@.len() - i,
                {
                    if i > 0 {
                        push_str(s, ", ");
                    }
                    push_str(s, names[i].as_str());
                    i = i + 1;
                }
                push_str(s, " }");
            },
            ComponentValType::Own(idx) => {
                push_str(s, "own<");
                push_dec(s, *idx as u64);
                push_str(s, ">");
            },
            ComponentValType::Borrow(idx) => {
                push_str(s, "borrow<");
                push_dec(s, *idx as u64);
                push_str(s, ">");
            },
            ComponentValType::TypeRef(idx) => {
                push_str(s, "type-ref(");
                push_dec(s, *idx as u64);
                push_str(s, ")");
            },
        }
    }
}


// ═════════════════════════════════════════════════════════════════════
// LEB128
// ═════════════════════════════════════════════════════════════════════

/// Unsigned LEB128: seven bits per byte, low groups first; every byte but
/// the last has its high bit set.
pub open spec fn leb128(v: nat) -> Seq<u8>
    decreases v,
{
    if v < 128 {
        seq![v as u8]
    } else {
        seq![(v % 128 + 128) as u8] + leb128(v / 128)
    }
}

/// 128 to the power `i`.
pub open spec fn p128(i: nat) -> nat
    decreases i,
{
    if i == 0 {
        1
    } else {
        128 * p128((i - 1) as nat)
    }
}

/// The number of bytes a LEB128 read takes from position `i` on: up to and
/// including the first byte below 0x80, at most five bytes, at most all.
pub open spec fn leb_count_from(bytes: Seq<u8>, i: nat) -> nat
    decreases 5 - i,
{
    if i >= bytes.len() || i >= 5 {
        i
    } else if bytes[i as int] < 128 {
        i + 1
    } else {
        leb_count_from(bytes, i + 1)
    }
}

/// The sum of the low seven bits of the first `k` bytes, each weighted by
/// its position.
pub open spec fn leb_value(bytes: Seq<u8>, k: nat) -> nat
    decreases k,
{
    if k == 0 {
        0
    } else {
        leb_value(bytes, (k - 1) as nat) + (bytes[k - 1] % 128) as nat * p128((k - 1) as nat)
    }
}

/// What a LEB128 read gives: the value (kept to 32 bits) and the number of
/// bytes taken.
pub open spec fn leb_read(bytes: Seq<u8>) -> (u32, nat) {
    let k = leb_count_from(bytes, 0);
    ((leb_value(bytes, k) % 0x1_0000_0000) as u32, k)
}

proof fn lemma_p128_values()
    ensures
        p128(0) == 1,
        p128(1) == 128,
        p128(2) == 16384,
        p128(3) == 2097152,
        p128(4) == 268435456,
        p128(5) == 34359738368,
{
    reveal_with_fuel(p128, 6);
}

proof fn lemma_low_bits(v: u32)
    ensures
        v & 0x7F == v % 128,
        v >> 7 == v / 128,
{
    assert(v & 0x7F == v % 128) by (bit_vector);
    assert(v >> 7 == v / 128) by (bit_vector);
}

proof fn lemma_high_bit(b: u8)
    requires
        b < 128,
    ensures
        b | 0x80 == b + 128,
        ((b + 128) as u8) & 0x80 != 0,
{
    assert(b | 0x80 == b + 128) by (bit_vector)
        requires
            b < 128,
    ;
    assert(((b + 128) as u8) & 0x80 != 0) by (bit_vector)
        requires
            b < 128,
    ;
}

/// Appends the LEB128 encoding of `value`.
fn encode_u32(out: &mut Vec<u8>, value: u32)
    ensures
        final(out)@ == old(out)@ + leb128(value as nat),
{
    let mut val = value;
    loop
        invariant_except_break
            out@ + leb128(val as nat) == old(out)@ + leb128(value as nat),
        ensures
            out@ == old(out)@ + leb128(value as nat),
        decreases val,
    {
        proof {
            lemma_low_bits(val);
        }
        let low = (val & 0x7F) as u8;
        let rest = val >> 7;
        if rest != 0 {
            proof {
                lemma_high_bit(low);
                assert(leb128(val as nat) == seq![(val % 128 + 128) as u8] + leb128((val / 128) as nat));
            }
            out.push(low | 0x80);
            proof {
                assert(out@ + leb128(rest as nat) =~= old(out)@ + leb128(value as nat));
            }
        } else {
            out.push(low);
            proof {
                assert(leb128(val as nat) == seq![val as u8]);
            }
        }
        val = rest;
        if val == 0 {
            break;
        }
    }
}

/// Reads an unsigned LEB128 number: its value (to 32 bits) and the number
/// of bytes taken.
pub fn read_leb128(bytes: &[u8]) -> (r: (u32, usize))
    ensures
        (r.0, r.1 as nat) == leb_read(bytes@),
{
    proof {
        assert(bytes@.subrange(0, bytes@.len() as int) =~= bytes@);
    }
    read_leb128_at(bytes, 0)
}

/// Reads an unsigned LEB128 number from position `start` on.
pub(crate) fn read_leb128_at(bytes: &[u8], start: usize) -> (r: (u32, usize))
    requires
        start <= bytes@.len(),
    ensures
        (r.0, r.1 as nat) == leb_read(bytes@.subrange(start as int, bytes@.len() as int)),
        r.1 <= bytes@.len() - start,
{
    let mut result: u32 = 0;
    let mut shift: u32 = 0;
    let mut consumed: usize = 0;
    let ghost b = bytes@.subrange(start as int, bytes@.len() as int);
    let avail = bytes.len() - start;
    while consumed < avail
        invariant_except_break
            b == bytes@.subrange(start as int, bytes@.len() as int),
            avail == b.len(),
            start + avail == bytes@.len(),
            bytes@.len() <= usize::MAX,
            consumed <= b.len(),
            consumed < 5,
            shift == 7 * consumed,
            result as nat == leb_value(b, consumed as nat) % 0x1_0000_0000,
            leb_value(b, consumed as nat) < p128(consumed as nat),
            leb_count_from(b, 0) == leb_count_from(b, consumed as nat),
        ensures
            leb_read(b) == (result, consumed as nat),
            consumed <= b.len(),
        decreases b.len() - consumed,
    {
        let byte = bytes[start + consumed];
        proof {
            assert(byte == b[consumed as int]);
        }
        let x = (byte & 0x7F) as u32;
        let ghost v = leb_value(b, consumed as nat);
        let new_result = result | (x << shift);
        proof {
            lemma_p128_values();
            assert((byte & 0x7F) == byte % 128) by (bit_vector);
            assert(x == byte % 128);
            assert(leb_value(b, consumed as nat + 1) == v + x * p128(consumed as nat));
            assert(v == result);
            if consumed == 0 {
                assert(new_result == x) by (bit_vector)
                    requires
                        new_result == result | (x << shift),
                        result == 0,
                        shift == 0,
                ;
                assert(new_result as nat == (v + x * p128(consumed as nat)) % 0x1_0000_0000) by {
                    assert(p128(0) == 1);
                    assert(x * 1 == x);
                }
            } else if consumed == 1 {
                assert(new_result == result + x * 128) by (bit_vector)
                    requires
                        new_result == result | (x << shift),
                        result < 128,
                        x < 128,
                        shift == 7,
                ;
                assert(new_result as nat == (v + x * p128(consumed as nat)) % 0x1_0000_0000) by {
                    assert(p128(consumed as nat) == 128);
                    assert(v + x * 128 < 0x1_0000_0000);
                }
            } else if consumed == 2 {
                assert(new_result == result + x * 16384) by (bit_vector)
                    requires
                        new_result == result | (x << shift),
                        result < 16384,
                        x < 128,
                        shift == 14,
                ;
                assert(new_result as nat == (v + x * p128(consumed as nat)) % 0x1_0000_0000) by {
                    assert(p128(consumed as nat) == 16384);
                    assert(v + x * 16384 < 0x1_0000_0000);
                }
            } else if consumed == 3 {
                assert(new_result == result + x * 2097152) by (bit_vector)
                    requires
                        new_result == result | (x << shift),
                        result < 2097152,
                        x < 128,
                        shift == 21,
                ;
                assert(new_result as nat == (v + x * p128(consumed as nat)) % 0x1_0000_0000) by {
                    assert(p128(consumed as nat) == 2097152);
                    assert(v + x * 2097152 < 0x1_0000_0000);
                }
            } else {
                assert(new_result == (result + x * 268435456) % 0x1_0000_0000) by (bit_vector)
                    requires
                        new_result == result | (x << shift),
                        result < 268435456,
                        x < 128,
                        shift == 28,
                ;
                assert(new_result as nat == (v + x * p128(consumed as nat)) % 0x1_0000_0000) by {
                    assert(p128(consumed as nat) == 268435456);
                }
            }
        }
        result = new_result;
        consumed = consumed + 1;
        if byte & 0x80 == 0 {
            proof {
                assert((byte & 0x80) == 0 ==> byte < 128) by (bit_vector);
            }
            return (result, consumed);
        }
        proof {
            assert((byte & 0x80) != 0 ==> byte >= 128) by (bit_vector);
        }
        shift = shift + 7;
        if shift >= 35 {
            proof {
                assert(consumed == 5);
                assert(leb_count_from(b, 4) == leb_count_from(b, 5));
                assert(leb_count_from(b, 5) == 5);
            }
            return (result, consumed);
        }
    }
    (result, consumed)
}

proof fn lemma_leb128_shape(v: nat)
    ensures
        leb128(v).len() >= 1,
        forall|i: int| 0 <= i < leb128(v).len() - 1 ==> #[trigger] leb128(v)[i] >= 128,
        leb128(v)[leb128(v).len() - 1] < 128,
        v < p128(leb128(v).len()),
        forall|k: nat| v < #[trigger] p128(k) && k >= 1 ==> leb128(v).len() <= k,
    decreases v,
{
    lemma_p128_values();
    if v >= 128 {
        lemma_leb128_shape(v / 128);
        let t = leb128(v / 128);
        assert(p128(t.len() + 1) == 128 * p128(t.len()));
        assert(v < p128(t.len() + 1)) by (nonlinear_arith)
            requires
                v / 128 < p128(t.len()),
                p128(t.len() + 1) == 128 * p128(t.len()),
                v >= 128,
        ;
        assert(leb128(v) == seq![(v % 128 + 128) as u8] + t);
        assert forall|i: int| 0 <= i < leb128(v).len() - 1 implies #[trigger] leb128(v)[i] >= 128 by {
            if i > 0 {
                assert(leb128(v)[i] == t[i - 1]);
            }
        }
        assert forall|k: nat| v < #[trigger] p128(k) && k >= 1 implies leb128(v).len() <= k by {
            if k == 1 {
            } else {
                assert(p128(k) == 128 * p128((k - 1) as nat));
                assert(v / 128 < p128((k - 1) as nat));
            }
        }
    } else {
        assert forall|k: nat| v < #[trigger] p128(k) && k >= 1 implies leb128(v).len() <= k by {}
    }
}

proof fn lemma_leb_value_front(s: Seq<u8>, k: nat)
    requires
        k + 1 <= s.len(),
    ensures
        leb_value(s, k + 1) == (s[0] % 128) as nat + 128 * leb_value(s.drop_first(), k),
    decreases k,
{
    lemma_p128_values();
    if k == 0 {
        assert(leb_value(s, 1) == leb_value(s, 0) + (s[0] % 128) as nat * p128(0));
        assert((s[0] % 128) as nat * 1 == (s[0] % 128) as nat);
    } else {
        lemma_leb_value_front(s, (k - 1) as nat);
        assert(s.drop_first()[k - 1] == s[k as int]);
        assert(p128(k) == 128 * p128((k - 1) as nat));
        assert((s[k as int] % 128) as nat * p128(k) == 128 * ((s[k as int] % 128) as nat * p128((k - 1) as nat)))
            by (nonlinear_arith)
            requires
                p128(k) == 128 * p128((k - 1) as nat),
        ;
    }
}

proof fn lemma_leb_roundtrip_value(v: nat, rest: Seq<u8>)
    ensures
        leb_value(leb128(v) + rest, leb128(v).len()) == v,
    decreases v,
{
    let s = leb128(v) + rest;
    lemma_leb128_shape(v);
    lemma_leb_value_front(s, (leb128(v).len() - 1) as nat);
    if v >= 128 {
        lemma_leb_roundtrip_value(v / 128, rest);
        assert(s.drop_first() =~= leb128(v / 128) + rest);
        assert(s[0] == (v % 128 + 128) as u8);
    } else {
        assert(s[0] == v as u8);
    }
}

proof fn lemma_leb_roundtrip_count(v: nat, rest: Seq<u8>, i: nat)
    requires
        v < 0x1_0000_0000,
        i < leb128(v).len(),
    ensures
        leb_count_from(leb128(v) + rest, i) == leb128(v).len(),
    decreases leb128(v).len() - i,
{
    lemma_leb128_shape(v);
    lemma_p128_values();
    let s = leb128(v) + rest;
    assert(s[i as int] == leb128(v)[i as int]);
    if i + 1 < leb128(v).len() {
        lemma_leb_roundtrip_count(v, rest, i + 1);
    }
}

/// Reading back what `encode_u32` wrote gives the value and the length of
/// its encoding, whatever follows.
pub proof fn law_leb128_roundtrip(v: u32, rest: Seq<u8>)
    ensures
        leb_read(leb128(v as nat) + rest) == (v, leb128(v as nat).len()),
{
    lemma_leb128_shape(v as nat);
    lemma_leb_roundtrip_count(v as nat, rest, 0);
    lemma_leb_roundtrip_value(v as nat, rest);
}


// ═════════════════════════════════════════════════════════════════════
// Type encoding
// ═════════════════════════════════════════════════════════════════════

/// A count or length, written as a 32-bit LEB128 number.
pub open spec fn count_bytes(n: nat) -> Seq<u8> {
    leb128((n as u32) as nat)
}

/// A string: its UTF-8 length, then its UTF-8 bytes.
pub open spec fn str_bytes(s: Seq<char>) -> Seq<u8> {
    count_bytes(encode_utf8(s).len()) + encode_utf8(s)
}

/// The binary encoding of a component value type.
pub open spec fn val_bytes(t: CvtView) -> Seq<u8>
    decreases t,
{
    match t {
        CvtView::Bool => seq![0x7Fu8],
        CvtView::U8 => seq![0x7Eu8],
        CvtView::U16 => seq![0x7Du8],
        CvtView::U32 => seq![0x7Cu8],
        CvtView::U64 => seq![0x7Bu8],
        CvtView::S8 => seq![0x7Au8],
        CvtView::S16 => seq![0x79u8],
        CvtView::S32 => seq![0x78u8],
        CvtView::S64 => seq![0x77u8],
        CvtView::F32 => seq![0x76u8],
        CvtView::F64 => seq![0x75u8],
        CvtView::Char => seq![0x74u8],
        CvtView::Str => seq![0x73u8],
        CvtView::List(inner) => seq![0x70u8] + val_bytes(*inner),
        CvtView::Option(inner) => seq![0x6Fu8] + val_bytes(*inner),
        CvtView::Result { ok, err } => seq![0x6Eu8] + match ok {
            Some(o) => seq![0x01u8] + val_bytes(*o),
            None => seq![0x00u8],
        } + match err {
            Some(e) => seq![0x01u8] + val_bytes(*e),
            None => seq![0x00u8],
        },
        CvtView::Tuple(items) => seq![0x6Du8] + count_bytes(items.len()) + items_bytes(items, 0),
        CvtView::Record(fields) => seq![0x6Cu8] + count_bytes(fields.len()) + fields_bytes(fields, 0),
        CvtView::Variant(cases) => seq![0x6Bu8] + count_bytes(cases.len()) + cases_bytes(cases, 0),
        CvtView::Flags(names) => seq![0x6Au8] + count_bytes(names.len()) + names_bytes(names, 0),
        CvtView::Own(i) => seq![0x69u8] + leb128(i as nat),
        CvtView::Borrow(i) => seq![0x68u8] + leb128(i as nat),
        CvtView::TypeRef(i) => leb128(i as nat),
    }
}

/// Each primitive value type is written as its one-byte component-model
/// code: `bool` 0x7F, `u8` 0x7E, `u16` 0x7D, `u32` 0x7C, `u64` 0x7B, `s8`
/// 0x7A, `s16` 0x79, `s32` 0x78, `s64` 0x77, `f32` 0x76, `f64` 0x75, `char`
/// 0x74 and `string` 0x73.
pub proof fn law_primitive_type_codes()
    ensures
        val_bytes(CvtView::Bool) == seq![0x7Fu8],
        val_bytes(CvtView::U8) == seq![0x7Eu8],
        val_bytes(CvtView::U16) == seq![0x7Du8],
        val_bytes(CvtView::U32) == seq![0x7Cu8],
        val_bytes(CvtView::U64) == seq![0x7Bu8],
        val_bytes(CvtView::S8) == seq![0x7Au8],
        val_bytes(CvtView::S16) == seq![0x79u8],
        val_bytes(CvtView::S32) == seq![0x78u8],
        val_bytes(CvtView::S64) == seq![0x77u8],
        val_bytes(CvtView::F32) == seq![0x76u8],
        val_bytes(CvtView::F64) == seq![0x75u8],
        val_bytes(CvtView::Char) == seq![0x74u8],
        val_bytes(CvtView::Str) == seq![0x73u8],
{
}

/// The byte an encoding of `t` starts with.
spec fn lead_byte(t: CvtView) -> u8 {
    match t {
        CvtView::Bool => 0x7F,
        CvtView::U8 => 0x7E,
        CvtView::U16 => 0x7D,
        CvtView::U32 => 0x7C,
        CvtView::U64 => 0x7B,
        CvtView::S8 => 0x7A,
        CvtView::S16 => 0x79,
        CvtView::S32 => 0x78,
        CvtView::S64 => 0x77,
        CvtView::F32 => 0x76,
        CvtView::F64 => 0x75,
        CvtView::Char => 0x74,
        CvtView::Str => 0x73,
        CvtView::List(_) => 0x70,
        CvtView::Option(_) => 0x6F,
        CvtView::Result { .. } => 0x6E,
        CvtView::Tuple(_) => 0x6D,
        CvtView::Record(_) => 0x6C,
        CvtView::Variant(_) => 0x6B,
        CvtView::Flags(_) => 0x6A,
        CvtView::Own(_) => 0x69,
        CvtView::Borrow(_) => 0x68,
        CvtView::TypeRef(_) => 0,
    }
}

/// A LEB128 number is read back unambiguously from the front of a byte
/// string.
proof fn lemma_leb_prefix_free(u: u32, v: u32, x: Seq<u8>, y: Seq<u8>)
    requires
        leb128(u as nat) + x == leb128(v as nat) + y,
    ensures
        u == v,
        x == y,
{
    law_leb128_roundtrip(u, x);
    law_leb128_roundtrip(v, y);
    let n = leb128(u as nat).len() as int;
    assert(x =~= (leb128(u as nat) + x).skip(n));
    assert(y =~= (leb128(v as nat) + y).skip(n));
}

/// The optional part of a result's encoding.
spec fn opt_bytes(o: Option<Box<CvtView>>) -> Seq<u8> {
    match o {
        Some(t) => seq![0x01u8] + val_bytes(*t),
        None => seq![0x00u8],
    }
}

/// A name whose UTF-8 bytes fit a 32-bit length.
pub open spec fn name_fits(s: Seq<char>) -> bool {
    encode_utf8(s).len() < 0x1_0000_0000
}

/// The value types whose encoding is read back unambiguously: no type
/// index inside (an index is written as a bare number, as a type code may
/// be), and every count and name length fits in 32 bits.
pub open spec fn is_encodable(t: CvtView) -> bool
    decreases t,
{
    match t {
        CvtView::List(inner) => is_encodable(*inner),
        CvtView::Option(inner) => is_encodable(*inner),
        CvtView::Result { ok, err } => (match ok {
            Some(o) => is_encodable(*o),
            None => true,
        }) && (match err {
            Some(e) => is_encodable(*e),
            None => true,
        }),
        CvtView::Tuple(items) => items.len() < 0x1_0000_0000 && forall|k: int|
            0 <= k < items.len() ==> is_encodable(#[trigger] items[k]),
        CvtView::Record(fs) => fs.len() < 0x1_0000_0000 && forall|k: int|
            0 <= k < fs.len() ==> name_fits(#[trigger] fs[k].0) && is_encodable(fs[k].1),
        CvtView::Variant(cs) => cs.len() < 0x1_0000_0000 && forall|k: int|
            0 <= k < cs.len() ==> name_fits(#[trigger] cs[k].0) && (cs[k].1 matches Some(p) ==> is_encodable(p)),
        CvtView::Flags(ns) => ns.len() < 0x1_0000_0000 && forall|k: int|
            0 <= k < ns.len() ==> name_fits(#[trigger] ns[k]),
        CvtView::TypeRef(_) => false,
        _ => true,
    }
}

/// A count read back from the front of a byte string.
proof fn lemma_count_prefix_free(n1: nat, n2: nat, x: Seq<u8>, y: Seq<u8>)
    requires
        n1 < 0x1_0000_0000,
        n2 < 0x1_0000_0000,
        count_bytes(n1) + x == count_bytes(n2) + y,
    ensures
        n1 == n2,
        x == y,
{
    assert((n1 as u32) as nat == n1);
    assert((n2 as u32) as nat == n2);
    lemma_leb_prefix_free(n1 as u32, n2 as u32, x, y);
}

/// A name read back from the front of a byte string.
proof fn lemma_str_prefix_free(a: Seq<char>, b: Seq<char>, x: Seq<u8>, y: Seq<u8>)
    requires
        name_fits(a),
        name_fits(b),
        str_bytes(a) + x == str_bytes(b) + y,
    ensures
        a == b,
        x == y,
{
    let ea = encode_utf8(a);
    let eb = encode_utf8(b);
    assert(str_bytes(a) + x =~= count_bytes(ea.len()) + (ea + x));
    assert(str_bytes(b) + y =~= count_bytes(eb.len()) + (eb + y));
    lemma_count_prefix_free(ea.len(), eb.len(), ea + x, eb + y);
    assert(ea =~= (ea + x).subrange(0, ea.len() as int));
    assert(eb =~= (eb + y).subrange(0, eb.len() as int));
    assert(x =~= (ea + x).skip(ea.len() as int));
    assert(y =~= (eb + y).skip(eb.len() as int));
    encode_utf8_decode_utf8(a);
    encode_utf8_decode_utf8(b);
}

/// Names read back, one after another, from the front of a byte string.
proof fn lemma_names_prefix_free(n1: Seq<Seq<char>>, n2: Seq<Seq<char>>, i: int, x: Seq<u8>, y: Seq<u8>)
    requires
        n1.len() == n2.len(),
        0 <= i <= n1.len(),
        forall|k: int| 0 <= k < n1.len() ==> name_fits(#[trigger] n1[k]),
        forall|k: int| 0 <= k < n2.len() ==> name_fits(#[trigger] n2[k]),
        names_bytes(n1, i) + x == names_bytes(n2, i) + y,
    ensures
        forall|k: int| i <= k < n1.len() ==> n1[k] == n2[k],
        x == y,
    decreases n1.len() - i,
{
    if i < n1.len() {
        let r1 = names_bytes(n1, i + 1) + x;
        let r2 = names_bytes(n2, i + 1) + y;
        assert(names_bytes(n1, i) + x =~= str_bytes(n1[i]) + r1);
        assert(names_bytes(n2, i) + y =~= str_bytes(n2[i]) + r2);
        lemma_str_prefix_free(n1[i], n2[i], r1, r2);
        lemma_names_prefix_free(n1, n2, i + 1, x, y);
    } else {
        assert(names_bytes(n1, i) + x =~= x);
        assert(names_bytes(n2, i) + y =~= y);
    }
}

/// Types read back, one after another, from the front of a byte string.
proof fn lemma_items_prefix_free(
    whole: CvtView,
    s1: Seq<CvtView>,
    s2: Seq<CvtView>,
    i: int,
    x: Seq<u8>,
    y: Seq<u8>,
)
    requires
        whole == CvtView::Tuple(s1),
        s1.len() == s2.len(),
        0 <= i <= s1.len(),
        forall|k: int| 0 <= k < s1.len() ==> is_encodable(#[trigger] s1[k]),
        forall|k: int| 0 <= k < s2.len() ==> is_encodable(#[trigger] s2[k]),
        items_bytes(s1, i) + x == items_bytes(s2, i) + y,
    ensures
        forall|k: int| i <= k < s1.len() ==> s1[k] == s2[k],
        x == y,
    decreases whole, 0int, s1.len() - i,
{
    if i < s1.len() {
        let r1 = items_bytes(s1, i + 1) + x;
        let r2 = items_bytes(s2, i + 1) + y;
        assert(items_bytes(s1, i) + x =~= val_bytes(s1[i]) + r1);
        assert(items_bytes(s2, i) + y =~= val_bytes(s2[i]) + r2);
        assert(decreases_to!(whole => whole->Tuple_0));
        assert(decreases_to!(whole->Tuple_0 => whole->Tuple_0[i]));
        lemma_val_prefix_free(s1[i], s2[i], r1, r2);
        lemma_items_prefix_free(whole, s1, s2, i + 1, x, y);
    } else {
        assert(items_bytes(s1, i) + x =~= x);
        assert(items_bytes(s2, i) + y =~= y);
    }
}

/// Record fields read back, one after another, from the front of a byte
/// string.
proof fn lemma_fields_prefix_free(
    whole: CvtView,
    f1: Seq<(Seq<char>, CvtView)>,
    f2: Seq<(Seq<char>, CvtView)>,
    i: int,
    x: Seq<u8>,
    y: Seq<u8>,
)
    requires
        whole == CvtView::Record(f1),
        f1.len() == f2.len(),
        0 <= i <= f1.len(),
        forall|k: int| 0 <= k < f1.len() ==> name_fits(#[trigger] f1[k].0) && is_encodable(f1[k].1),
        forall|k: int| 0 <= k < f2.len() ==> name_fits(#[trigger] f2[k].0) && is_encodable(f2[k].1),
        fields_bytes(f1, i) + x == fields_bytes(f2, i) + y,
    ensures
        forall|k: int| i <= k < f1.len() ==> f1[k] == f2[k],
        x == y,
    decreases whole, 0int, f1.len() - i,
{
    if i < f1.len() {
        let r1 = fields_bytes(f1, i + 1) + x;
        let r2 = fields_bytes(f2, i + 1) + y;
        assert(fields_bytes(f1, i) + x =~= str_bytes(f1[i].0) + (val_bytes(f1[i].1) + r1));
        assert(fields_bytes(f2, i) + y =~= str_bytes(f2[i].0) + (val_bytes(f2[i].1) + r2));
        lemma_str_prefix_free(f1[i].0, f2[i].0, val_bytes(f1[i].1) + r1, val_bytes(f2[i].1) + r2);
        assert(decreases_to!(whole => whole->Record_0));
        assert(decreases_to!(whole->Record_0 => whole->Record_0[i]));
        assert(decreases_to!(whole->Record_0[i] => whole->Record_0[i].1));
        lemma_val_prefix_free(f1[i].1, f2[i].1, r1, r2);
        lemma_fields_prefix_free(whole, f1, f2, i + 1, x, y);
    } else {
        assert(fields_bytes(f1, i) + x =~= x);
        assert(fields_bytes(f2, i) + y =~= y);
    }
}

/// The payload part of a variant case's encoding.
spec fn payload_bytes(p: Option<CvtView>) -> Seq<u8> {
    match p {
        Some(t) => seq![0x01u8] + val_bytes(t),
        None => seq![0x00u8],
    }
}

/// Variant cases read back, one after another, from the front of a byte
/// string.
proof fn lemma_cases_prefix_free(
    whole: CvtView,
    c1: Seq<(Seq<char>, Option<CvtView>)>,
    c2: Seq<(Seq<char>, Option<CvtView>)>,
    i: int,
    x: Seq<u8>,
    y: Seq<u8>,
)
    requires
        whole == CvtView::Variant(c1),
        c1.len() == c2.len(),
        0 <= i <= c1.len(),
        forall|k: int| 0 <= k < c1.len() ==> name_fits(#[trigger] c1[k].0) && (c1[k].1 matches Some(p) ==> is_encodable(p)),
        forall|k: int| 0 <= k < c2.len() ==> name_fits(#[trigger] c2[k].0) && (c2[k].1 matches Some(p) ==> is_encodable(p)),
        cases_bytes(c1, i) + x == cases_bytes(c2, i) + y,
    ensures
        forall|k: int| i <= k < c1.len() ==> c1[k] == c2[k],
        x == y,
    decreases whole, 0int, c1.len() - i,
{
    if i < c1.len() {
        let r1 = cases_bytes(c1, i + 1) + x;
        let r2 = cases_bytes(c2, i + 1) + y;
        let q1 = payload_bytes(c1[i].1) + r1;
        let q2 = payload_bytes(c2[i].1) + r2;
        assert(cases_bytes(c1, i) + x =~= str_bytes(c1[i].0) + q1);
        assert(cases_bytes(c2, i) + y =~= str_bytes(c2[i].0) + q2);
        lemma_str_prefix_free(c1[i].0, c2[i].0, q1, q2);
        assert(q1[0] == payload_bytes(c1[i].1)[0]);
        assert(q2[0] == payload_bytes(c2[i].1)[0]);
        match c1[i].1 {
            Some(t1) => {
                let t2 = c2[i].1->0;
                assert(q1.drop_first() =~= val_bytes(t1) + r1);
                assert(q2.drop_first() =~= val_bytes(t2) + r2);
                assert(decreases_to!(whole => whole->Variant_0));
                assert(decreases_to!(whole->Variant_0 => whole->Variant_0[i]));
                assert(decreases_to!(whole->Variant_0[i] => whole->Variant_0[i].1));
                assert(decreases_to!(whole->Variant_0[i].1 => whole->Variant_0[i].1->0));
                lemma_val_prefix_free(t1, t2, r1, r2);
            },
            None => {
                assert(q1.drop_first() =~= r1);
                assert(q2.drop_first() =~= r2);
            },
        }
        lemma_cases_prefix_free(whole, c1, c2, i + 1, x, y);
    } else {
        assert(cases_bytes(c1, i) + x =~= x);
        assert(cases_bytes(c2, i) + y =~= y);
    }
}

/// The case of `lemma_val_prefix_free` for two tuples, records, variants
/// or flags: a lead byte, a count, then the entries.
#[verifier::spinoff_prover]
#[verifier::rlimit(100)]
proof fn lemma_compound_prefix_free(a: CvtView, b: CvtView, x: Seq<u8>, y: Seq<u8>)
    requires
        a is Tuple || a is Record || a is Variant || a is Flags,
        lead_byte(a) == lead_byte(b),
        is_encodable(a),
        is_encodable(b),
        val_bytes(a) + x == val_bytes(b) + y,
    ensures
        a == b,
        x == y,
    decreases a, 1int, 0int,
{
    let ta = (val_bytes(a) + x).drop_first();
    let tb = (val_bytes(b) + y).drop_first();
    assert(ta == tb);
    match a {
        CvtView::Tuple(s1) => {
            let s2 = b->Tuple_0;
            assert(ta =~= count_bytes(s1.len()) + (items_bytes(s1, 0) + x));
            assert(tb =~= count_bytes(s2.len()) + (items_bytes(s2, 0) + y));
            lemma_count_prefix_free(s1.len(), s2.len(), items_bytes(s1, 0) + x, items_bytes(s2, 0) + y);
            lemma_items_prefix_free(a, s1, s2, 0, x, y);
            assert(s1 =~= s2);
        },
        CvtView::Record(f1) => {
            let f2 = b->Record_0;
            assert(ta =~= count_bytes(f1.len()) + (fields_bytes(f1, 0) + x));
            assert(tb =~= count_bytes(f2.len()) + (fields_bytes(f2, 0) + y));
            lemma_count_prefix_free(f1.len(), f2.len(), fields_bytes(f1, 0) + x, fields_bytes(f2, 0) + y);
            lemma_fields_prefix_free(a, f1, f2, 0, x, y);
            assert(f1 =~= f2);
        },
        CvtView::Variant(c1) => {
            let c2 = b->Variant_0;
            assert(ta =~= count_bytes(c1.len()) + (cases_bytes(c1, 0) + x));
            assert(tb =~= count_bytes(c2.len()) + (cases_bytes(c2, 0) + y));
            lemma_count_prefix_free(c1.len(), c2.len(), cases_bytes(c1, 0) + x, cases_bytes(c2, 0) + y);
            lemma_cases_prefix_free(a, c1, c2, 0, x, y);
            assert(c1 =~= c2);
        },
        CvtView::Flags(n1) => {
            let n2 = b->Flags_0;
            assert(ta =~= count_bytes(n1.len()) + (names_bytes(n1, 0) + x));
            assert(tb =~= count_bytes(n2.len()) + (names_bytes(n2, 0) + y));
            lemma_count_prefix_free(n1.len(), n2.len(), names_bytes(n1, 0) + x, names_bytes(n2, 0) + y);
            lemma_names_prefix_free(n1, n2, 0, x, y);
            assert(n1 =~= n2);
        },
        _ => {},
    }
}

/// An encoding starts with its type's lead byte.
proof fn lemma_lead_byte(t: CvtView)
    requires
        !(t is TypeRef),
    ensures
        val_bytes(t).len() >= 1,
        val_bytes(t)[0] == lead_byte(t),
{
}

/// The case of `lemma_val_prefix_free` for two results.
#[verifier::spinoff_prover]
#[verifier::rlimit(100)]
proof fn lemma_result_prefix_free(a: CvtView, b: CvtView, x: Seq<u8>, y: Seq<u8>)
    requires
        a is Result,
        b is Result,
        is_encodable(a),
        is_encodable(b),
        val_bytes(a) + x == val_bytes(b) + y,
    ensures
        a == b,
        x == y,
    decreases a, 1int, 0int,
{
    let ok = a->ok;
    let err = a->err;
    let ok2 = b->ok;
    let err2 = b->err;
    assert(val_bytes(a) =~= seq![0x6Eu8] + opt_bytes(ok) + opt_bytes(err));
    assert(val_bytes(b) =~= seq![0x6Eu8] + opt_bytes(ok2) + opt_bytes(err2));
    let ra = opt_bytes(err) + x;
    let rb = opt_bytes(err2) + y;
    let ta = (val_bytes(a) + x).drop_first();
    let tb = (val_bytes(b) + y).drop_first();
    assert(ta =~= opt_bytes(ok) + ra);
    assert(tb =~= opt_bytes(ok2) + rb);
    assert(ta == tb);
    assert(ta[0] == opt_bytes(ok)[0]);
    assert(tb[0] == opt_bytes(ok2)[0]);
    let ua = ta.drop_first();
    let ub = tb.drop_first();
    match ok {
        Some(o) => {
            let o2 = ok2->0;
            assert(ua =~= val_bytes(*o) + ra);
            assert(ub =~= val_bytes(*o2) + rb);
            assert(decreases_to!(a => *o));
            lemma_val_prefix_free(*o, *o2, ra, rb);
        },
        None => {
            assert(ua =~= ra);
            assert(ub =~= rb);
        },
    }
    assert(ra[0] == opt_bytes(err)[0]);
    assert(rb[0] == opt_bytes(err2)[0]);
    let va = ra.drop_first();
    let vb = rb.drop_first();
    match err {
        Some(e) => {
            let e2 = err2->0;
            assert(va =~= val_bytes(*e) + x);
            assert(vb =~= val_bytes(*e2) + y);
            assert(decreases_to!(a => *e));
            lemma_val_prefix_free(*e, *e2, x, y);
        },
        None => {
            assert(va =~= x);
            assert(vb =~= y);
        },
    }
}

/// No encoding of a value type is a proper prefix of another, and none is
/// written by two of them: what follows is read back too.
#[verifier::spinoff_prover]
#[verifier::rlimit(100)]
proof fn lemma_val_prefix_free(a: CvtView, b: CvtView, x: Seq<u8>, y: Seq<u8>)
    requires
        is_encodable(a),
        is_encodable(b),
        val_bytes(a) + x == val_bytes(b) + y,
    ensures
        a == b,
        x == y,
    decreases a, 2int, 0int,
{
    let sa = val_bytes(a) + x;
    let sb = val_bytes(b) + y;
    lemma_lead_byte(a);
    lemma_lead_byte(b);
    assert(sa[0] == lead_byte(a));
    assert(sb[0] == lead_byte(b));
    let ta = sa.drop_first();
    let tb = sb.drop_first();
    assert(ta == tb);
    match a {
        CvtView::List(i) => {
            let j = b->List_0;
            assert(ta =~= val_bytes(*i) + x);
            assert(tb =~= val_bytes(*j) + y);
            lemma_val_prefix_free(*i, *j, x, y);
        },
        CvtView::Option(i) => {
            let j = b->Option_0;
            assert(ta =~= val_bytes(*i) + x);
            assert(tb =~= val_bytes(*j) + y);
            lemma_val_prefix_free(*i, *j, x, y);
        },
        CvtView::Own(i) => {
            let j = b->Own_0;
            assert(ta =~= leb128(i as nat) + x);
            assert(tb =~= leb128(j as nat) + y);
            lemma_leb_prefix_free(i, j, x, y);
        },
        CvtView::Borrow(i) => {
            let j = b->Borrow_0;
            assert(ta =~= leb128(i as nat) + x);
            assert(tb =~= leb128(j as nat) + y);
            lemma_leb_prefix_free(i, j, x, y);
        },
        CvtView::Result { ok, err } => {
            lemma_result_prefix_free(a, b, x, y);
        },
        CvtView::Tuple(_) => {
            lemma_compound_prefix_free(a, b, x, y);
        },
        CvtView::Record(_) => {
            lemma_compound_prefix_free(a, b, x, y);
        },
        CvtView::Variant(_) => {
            lemma_compound_prefix_free(a, b, x, y);
        },
        CvtView::Flags(_) => {
            lemma_compound_prefix_free(a, b, x, y);
        },
        _ => {
            assert(ta =~= x);
            assert(tb =~= y);
        },
    }
}

/// Distinct value types are written as distinct bytes (in particular
/// `string` and `char` differ): the type is read back from its encoding,
/// wherever no type index is inside and every count and name length fits
/// in 32 bits.
pub proof fn law_val_encoding_injective(a: CvtView, b: CvtView)
    requires
        is_encodable(a),
        is_encodable(b),
        val_bytes(a) == val_bytes(b),
    ensures
        a == b,
{
    assert(val_bytes(a) + Seq::<u8>::empty() =~= val_bytes(a));
    assert(val_bytes(b) + Seq::<u8>::empty() =~= val_bytes(b));
    lemma_val_prefix_free(a, b, Seq::empty(), Seq::empty());
}

/// The encodings of `items[i..]`, one after another.
pub open spec fn items_bytes(items: Seq<CvtView>, i: int) -> Seq<u8>
    decreases items, items.len() - i,
{
    if 0 <= i < items.len() {
        val_bytes(items[i]) + items_bytes(items, i + 1)
    } else {
        Seq::empty()
    }
}

/// Name and type of each of the fields `fs[i..]`.
pub open spec fn fields_bytes(fs: Seq<(Seq<char>, CvtView)>, i: int) -> Seq<u8>
    decreases fs, fs.len() - i,
{
    if 0 <= i < fs.len() {
        str_bytes(fs[i].0) + val_bytes(fs[i].1) + fields_bytes(fs, i + 1)
    } else {
        Seq::empty()
    }
}

/// Name and optional payload type of each of the cases `cs[i..]`.
pub open spec fn cases_bytes(cs: Seq<(Seq<char>, Option<CvtView>)>, i: int) -> Seq<u8>
    decreases cs, cs.len() - i,
{
    if 0 <= i < cs.len() {
        str_bytes(cs[i].0) + match cs[i].1 {
            Some(t) => seq![0x01u8] + val_bytes(t),
            None => seq![0x00u8],
        } + cases_bytes(cs, i + 1)
    } else {
        Seq::empty()
    }
}

/// The names `ns[i..]`, one after another.
pub open spec fn names_bytes(ns: Seq<Seq<char>>, i: int) -> Seq<u8>
    decreases ns.len() - i,
{
    if 0 <= i < ns.len() {
        str_bytes(ns[i]) + names_bytes(ns, i + 1)
    } else {
        Seq::empty()
    }
}

/// Appends the encoding of a string.
fn encode_string(out: &mut Vec<u8>, s: &str)
    ensures
        final(out)@ == old(out)@ + str_bytes(s@),
{
    let b = s.as_bytes();
    encode_u32(out, b.len() as u32);
    let ghost mid = out@;
    out.extend_from_slice(b);
    proof {
        assert(out@ =~= mid + encode_utf8(s@));
    }
}

/// Appends a byte vector: its length, then its bytes.
fn encode_vec_bytes(out: &mut Vec<u8>, data: &[u8])
    ensures
        final(out)@ == old(out)@ + count_bytes(data@.len()) + data@,
{
    encode_u32(out, data.len() as u32);
    let ghost mid = out@;
    out.extend_from_slice(data);
    proof {
        assert(out@ =~= mid + data@);
    }
}

/// Appends the encoding of a value type.
pub fn encode_val_type(out: &mut Vec<u8>, ty: &ComponentValType)
    ensures
        final(out)@ == old(out)@ + val_bytes(ty@),
    decreases ty,
{
    match ty {
        ComponentValType::Bool => out.push(0x7F),
        ComponentValType::U8 => out.push(0x7E),
        ComponentValType::U16 => out.push(0x7D),
        ComponentValType::U32 => out.push(0x7C),
        ComponentValType::U64 => out.push(0x7B),
        ComponentValType::S8 => out.push(0x7A),
        ComponentValType::S16 => out.push(0x79),
        ComponentValType::S32 => out.push(0x78),
        ComponentValType::S64 => out.push(0x77),
        ComponentValType::F32 => out.push(0x76),
        ComponentValType::F64 => out.push(0x75),
        ComponentValType::Char => out.push(0x74),
        ComponentValType::String_ => out.push(0x73),
        ComponentValType::List(inner) => {
            out.push(0x70);
            encode_val_type(out, inner);
        },
        ComponentValType::Option_(inner) => {
            out.push(0x6F);
            encode_val_type(out, inner);
        },
        ComponentValType::Result_ { ok, err } => {
            out.push(0x6E);
            match ok {
                Some(t) => {
                    out.push(0x01);
                    encode_val_type(out, t);
                },
                None => out.push(0x00),
            }
            match err {
                Some(t) => {
                    out.push(0x01);
                    encode_val_type(out, t);
                },
                None => out.push(0x00),
            }
        },
        ComponentValType::Tuple(items) => {
            out.push(0x6D);
            encode_u32(out, items.len() as u32);
            let ghost before = out@;
            let ghost vs = cvt_views(items@, 0);
            proof {
                lemma_cvt_views(items@, 0);
            }
            let mut i: usize = 0;
            while i < items.len()
                invariant
                    i <= items@.len(),
                    *ty == ComponentValType::Tuple(*items),
                    vs == cvt_views(items@, 0),
                    vs.len() == items@.len(),
                    forall|k: int| 0 <= k < items@.len() ==> #[trigger] vs[k] == cvt_view(items@[k]),
                    before + items_bytes(vs, 0) == out@ + items_bytes(vs, i as int),
                decreases items@.len() - i,
            {
                proof {
                    assert(decreases_to!(*ty => (*ty)->Tuple_0));
                    assert(decreases_to!((*ty)->Tuple_0 => (*ty)->Tuple_0[i as int]));
                    assert(vs[i as int] == cvt_view(items@[i as int]));
                }
                encode_val_type(out, &items[i]);
                i = i + 1;
            }
            proof {
                assert(out@ =~= before + items_bytes(vs, 0));
            }
        },
        ComponentValType::Record(fields) => {
            out.push(0x6C);
            encode_u32(out, fields.len() as u32);
            let ghost before = out@;
            let ghost fv = field_views(fields@, 0);
            proof {
                lemma_field_views(fields@, 0);
            }
            let mut i: usize = 0;
            while i < fields.len()
                invariant
                    i <= fields@.len(),
                    *ty == ComponentValType::Record(*fields),
                    fv == field_views(fields@, 0),
                    fv.len() == fields@.len(),
                    forall|k: int| 0 <= k < fields@.len() ==> #[trigger] fv[k] == (
                        fields@[k].0@,
                        cvt_view(fields@[k].1),
                    ),
                    before + fields_bytes(fv, 0) == out@ + fields_bytes(fv, i as int),
                decreases fields@.len() - i,
            {
                proof {
                    assert(decreases_to!(*ty => (*ty)->Record_0));
                    assert(decreases_to!((*ty)->Record_0 => (*ty)->Record_0[i as int]));
                    assert(decreases_to!((*ty)->Record_0[i as int] => (*ty)->Record_0[i as int].1));
                    assert(fv[i as int] == (fields@[i as int].0@, cvt_view(fields@[i as int].1)));
                }
                encode_string(out, fields[i].0.as_str());
                encode_val_type(out, &fields[i].1);
                i = i + 1;
            }
            proof {
                assert(out@ =~= before + fields_bytes(fv, 0));
            }
        },
        ComponentValType::Variant(cases) => {
            out.push(0x6B);
            encode_u32(out, cases.len() as u32);
            let ghost before = out@;
            let ghost cv = case_views(cases@, 0);
            proof {
                lemma_case_views(cases@, 0);
            }
            let mut i: usize = 0;
            while i < cases.len()
                invariant
                    i <= cases@.len(),
                    *ty == ComponentValType::Variant(*cases),
                    cv == case_views(cases@, 0),
                    cv.len() == cases@.len(),
                    forall|k: int| 0 <= k < cases@.len() ==> #[trigger] cv[k] == (
                        cases@[k].0@,
                        opt_view(cases@[k].1),
                    ),
                    before + cases_bytes(cv, 0) == out@ + cases_bytes(cv, i as int),
                decreases cases@.len() - i,
            {
                proof {
                    assert(decreases_to!(*ty => (*ty)->Variant_0));
                    assert(decreases_to!((*ty)->Variant_0 => (*ty)->Variant_0[i as int]));
                    assert(decreases_to!((*ty)->Variant_0[i as int] => (*ty)->Variant_0[i as int].1));
                    assert(cv[i as int] == (cases@[i as int].0@, opt_view(cases@[i as int].1)));
                }
                encode_string(out, cases[i].0.as_str());
                match &cases[i].1 {
                    Some(t) => {
                        proof {
                            assert(decreases_to!((*ty)->Variant_0[i as int].1 => (*ty)->Variant_0[i as int].1->Some_0));
                        }
                        out.push(0x01);
                        encode_val_type(out, t);
                    },
                    None => out.push(0x00),
                }
                i = i + 1;
            }
            proof {
                assert(out@ =~= before + cases_bytes(cv, 0));
            }
        },
        ComponentValType::Flags(flags) => {
            out.push(0x6A);
            encode_u32(out, flags.len() as u32);
            let ghost before = out@;
            let ghost nv = names_view(flags@);
            let mut i: usize = 0;
            while i < flags.len()
                invariant
                    i <= flags@.len(),
                    nv == names_view(flags@),
                    before + names_bytes(nv, 0) == out@ + names_bytes(nv, i as int),
                decreases flags@.len() - i,
            {
                encode_string(out, flags[i].as_str());
                i = i + 1;
            }
            proof {
                assert(out@ =~= before + names_bytes(nv, 0));
            }
        },
        ComponentValType::Own(idx) => {
            out.push(0x69);
            encode_u32(out, *idx);
        },
        ComponentValType::Borrow(idx) => {
            out.push(0x68);
            encode_u32(out, *idx);
        },
        ComponentValType::TypeRef(idx) => {
            encode_u32(out, *idx);
        },
    }
}


// ═════════════════════════════════════════════════════════════════════
// Component types, imports and exports
// ═════════════════════════════════════════════════════════════════════

/// A component function type.
#[derive(Debug)]
pub struct ComponentFuncType {
    /// Function name.
    pub name: String,
    /// Parameters (name, type).
    pub params: Vec<(String, ComponentValType)>,
    /// Result type.
    pub result: Option<ComponentValType>,
}

/// The value of a function type.
pub struct FuncView {
    pub name: Seq<char>,
    pub params: Seq<(Seq<char>, CvtView)>,
    pub result: Option<CvtView>,
}

/// The value of a function type.
pub open spec fn func_view(f: ComponentFuncType) -> FuncView {
    FuncView { name: f.name@, params: field_views(f.params@, 0), result: opt_view(f.result) }
}

/// Kinds of component types.
#[derive(Debug)]
pub enum ComponentTypeKind {
    /// A function type.
    Func(ComponentFuncType),
    /// An instance type (an interface of functions).
    Instance(Vec<ComponentFuncType>),
    /// A component type.
    Component,
}

/// The value of a type kind.
pub enum KindView {
    Func(FuncView),
    Instance(Seq<FuncView>),
    Component,
}

/// The value of a type kind.
pub open spec fn kind_view(k: ComponentTypeKind) -> KindView {
    match k {
        ComponentTypeKind::Func(f) => KindView::Func(func_view(f)),
        ComponentTypeKind::Instance(fs) => KindView::Instance(fs@.map_values(|f: ComponentFuncType| func_view(f))),
        ComponentTypeKind::Component => KindView::Component,
    }
}

/// A type section entry.
#[derive(Debug)]
pub struct ComponentTypeSection {
    /// Type index.
    pub index: u32,
    /// The type.
    pub kind: ComponentTypeKind,
}

/// A component import.
#[derive(Debug, Clone)]
pub struct ComponentImport {
    /// Import name (interface path).
    pub name: String,
    /// Type index this import satisfies.
    pub type_index: u32,
}

/// A component export.
#[derive(Debug, Clone)]
pub struct ComponentExport {
    /// Export name.
    pub name: String,
    /// Kind of the exported item.
    pub kind: ExportKind,
    /// Index of the exported item.
    pub index: u32,
}

/// What kind of item is exported.
#[derive(Debug, Clone, Copy, PartialEq, Eq, Structural)]
pub enum ExportKind {
    Func,
    Instance,
    Component,
    Module,
}

/// The byte that marks an export's kind.
pub open spec fn export_kind_byte(k: ExportKind) -> u8 {
    match k {
        ExportKind::Func => 0x01,
        ExportKind::Instance => 0x02,
        ExportKind::Component => 0x03,
        ExportKind::Module => 0x00,
    }
}

/// Parameters and result of a function type.
pub open spec fn sig_bytes(f: FuncView) -> Seq<u8> {
    count_bytes(f.params.len()) + fields_bytes(f.params, 0) + match f.result {
        Some(t) => seq![0x01u8] + val_bytes(t),
        None => seq![0x00u8],
    }
}

/// The functions of an instance type, from `i` on.
pub open spec fn inst_bytes(fs: Seq<FuncView>, i: int) -> Seq<u8>
    decreases fs.len() - i,
{
    if 0 <= i < fs.len() {
        str_bytes(fs[i].name) + seq![0x40u8] + sig_bytes(fs[i]) + inst_bytes(fs, i + 1)
    } else {
        Seq::empty()
    }
}

/// The encoding of a type kind.
pub open spec fn kind_bytes(k: KindView) -> Seq<u8> {
    match k {
        KindView::Func(f) => seq![0x40u8] + str_bytes(f.name) + sig_bytes(f),
        KindView::Instance(fs) => seq![0x42u8] + count_bytes(fs.len()) + inst_bytes(fs, 0),
        KindView::Component => seq![0x41u8],
    }
}

fn encode_sig(out: &mut Vec<u8>, ft: &ComponentFuncType)
    ensures
        final(out)@ == old(out)@ + sig_bytes(func_view(*ft)),
{
    encode_u32(out, ft.params.len() as u32);
    let ghost before = out@;
    let ghost fv = field_views(ft.params@, 0);
    proof {
        lemma_field_views(ft.params@, 0);
    }
    let mut i: usize = 0;
    while i < ft.params.len()
        invariant
            i <= ft.params@.len(),
            fv == field_views(ft.params@, 0),
            fv.len() == ft.params@.len(),
            forall|k: int| 0 <= k < ft.params@.len() ==> #[trigger] fv[k] == (
                ft.params@[k].0@,
                cvt_view(ft.params@[k].1),
            ),
            before + fields_bytes(fv, 0) == out@ + fields_bytes(fv, i as int),
        decreases ft.params@.len() - i,
    {
        encode_string(out, ft.params[i].0.as_str());
        encode_val_type(out, &ft.params[i].1);
        i = i + 1;
    }
    match &ft.result {
        Some(ty) => {
            out.push(0x01);
            encode_val_type(out, ty);
        },
        None => out.push(0x00),
    }
    proof {
        assert(out@ =~= old(out)@ + sig_bytes(func_view(*ft)));
    }
}

/// Appends the encoding of a type kind.
pub fn encode_component_type(out: &mut Vec<u8>, kind: &ComponentTypeKind)
    ensures
        final(out)@ == old(out)@ + kind_bytes(kind_view(*kind)),
{
    match kind {
        ComponentTypeKind::Func(ft) => {
            out.push(0x40);
            encode_string(out, ft.name.as_str());
            encode_sig(out, ft);
        },
        ComponentTypeKind::Instance(funcs) => {
            out.push(0x42);
            encode_u32(out, funcs.len() as u32);
            let ghost before = out@;
            let ghost fv = funcs@.map_values(|f: ComponentFuncType| func_view(f));
            let mut i: usize = 0;
            while i < funcs.len()
                invariant
                    i <= funcs@.len(),
                    fv == funcs@.map_values(|f: ComponentFuncType| func_view(f)),
                    before + inst_bytes(fv, 0) == out@ + inst_bytes(fv, i as int),
                decreases funcs@.len() - i,
            {
                encode_string(out, funcs[i].name.as_str());
                out.push(0x40);
                encode_sig(out, &funcs[i]);
                i = i + 1;
            }
            proof {
                assert(out@ =~= old(out)@ + kind_bytes(kind_view(*kind)));
            }
        },
        ComponentTypeKind::Component => {
            out.push(0x41);
        },
    }
}

// ═════════════════════════════════════════════════════════════════════
// The builder
// ═════════════════════════════════════════════════════════════════════

/// What a component builder holds.
pub struct BuilderView {
    /// The bytes of the last build.
    pub built: Seq<u8>,
    /// Type entries: index and kind.
    pub types: Seq<(u32, KindView)>,
    /// Imports: name and type index.
    pub imports: Seq<(Seq<char>, u32)>,
    /// Exports: name, kind and index.
    pub exports: Seq<(Seq<char>, ExportKind, u32)>,
    /// The wrapped core module, if set.
    pub core: Option<Seq<u8>>,
    /// Whether `cabi_realloc` is exported.
    pub realloc: bool,
    /// Post-return function names.
    pub post_returns: Seq<Seq<char>>,
}

/// The component header: `\0asm`, then layer 0x0d and version 1.
pub open spec fn component_header() -> Seq<u8> {
    seq![0x00u8, 0x61u8, 0x73u8, 0x6Du8, 0x0Du8, 0x00u8, 0x01u8, 0x00u8]
}

/// A section: its id, the length of its data, and the data.
pub open spec fn section(id: u8, data: Seq<u8>) -> Seq<u8> {
    seq![id] + count_bytes(data.len()) + data
}

/// The type entries from `i` on.
pub open spec fn types_bytes(ts: Seq<(u32, KindView)>, i: int) -> Seq<u8>
    decreases ts.len() - i,
{
    if 0 <= i < ts.len() {
        kind_bytes(ts[i].1) + types_bytes(ts, i + 1)
    } else {
        Seq::empty()
    }
}

/// The import entries from `i` on.
pub open spec fn imports_bytes(is: Seq<(Seq<char>, u32)>, i: int) -> Seq<u8>
    decreases is.len() - i,
{
    if 0 <= i < is.len() {
        str_bytes(is[i].0) + leb128(is[i].1 as nat) + imports_bytes(is, i + 1)
    } else {
        Seq::empty()
    }
}

/// The export entries from `i` on.
pub open spec fn exports_bytes(es: Seq<(Seq<char>, ExportKind, u32)>, i: int) -> Seq<u8>
    decreases es.len() - i,
{
    if 0 <= i < es.len() {
        str_bytes(es[i].0) + seq![export_kind_byte(es[i].1)] + leb128(es[i].2 as nat) + exports_bytes(es, i + 1)
    } else {
        Seq::empty()
    }
}

/// The core module section, when there is a core module.
pub open spec fn core_section(core: Option<Seq<u8>>) -> Seq<u8> {
    match core {
        Some(m) => section(0x00, m),
        None => Seq::empty(),
    }
}

/// The type section, when there are types.
pub open spec fn type_section(ts: Seq<(u32, KindView)>) -> Seq<u8> {
    if ts.len() > 0 {
        section(0x01, count_bytes(ts.len()) + types_bytes(ts, 0))
    } else {
        Seq::empty()
    }
}

/// The import section, when there are imports.
pub open spec fn import_section(is: Seq<(Seq<char>, u32)>) -> Seq<u8> {
    if is.len() > 0 {
        section(0x02, count_bytes(is.len()) + imports_bytes(is, 0))
    } else {
        Seq::empty()
    }
}

/// The export section, when there are exports.
pub open spec fn export_section(es: Seq<(Seq<char>, ExportKind, u32)>) -> Seq<u8> {
    if es.len() > 0 {
        section(0x03, count_bytes(es.len()) + exports_bytes(es, 0))
    } else {
        Seq::empty()
    }
}

/// The fixed codes of a component binary: the preamble `\0asm` with layer
/// 0x0D and version 1; section ids 0x00 (core module), 0x01 (types), 0x02
/// (imports) and 0x03 (exports); function, component and instance types
/// led by 0x40, 0x41 and 0x42; and export kinds module 0x00, function
/// 0x01, instance 0x02 and component 0x03, all distinct.
pub proof fn law_component_format_codes(
    core: Seq<u8>,
    ts: Seq<(u32, KindView)>,
    is: Seq<(Seq<char>, u32)>,
    es: Seq<(Seq<char>, ExportKind, u32)>,
    f: FuncView,
    fs: Seq<FuncView>,
)
    ensures
        component_header() == seq![0x00u8, 0x61u8, 0x73u8, 0x6Du8, 0x0Du8, 0x00u8, 0x01u8, 0x00u8],
        core_section(Some(core))[0] == 0x00u8,
        ts.len() > 0 ==> type_section(ts)[0] == 0x01u8,
        is.len() > 0 ==> import_section(is)[0] == 0x02u8,
        es.len() > 0 ==> export_section(es)[0] == 0x03u8,
        kind_bytes(KindView::Func(f))[0] == 0x40u8,
        kind_bytes(KindView::Component) == seq![0x41u8],
        kind_bytes(KindView::Instance(fs))[0] == 0x42u8,
        export_kind_byte(ExportKind::Module) == 0x00u8,
        export_kind_byte(ExportKind::Func) == 0x01u8,
        export_kind_byte(ExportKind::Instance) == 0x02u8,
        export_kind_byte(ExportKind::Component) == 0x03u8,
        forall|a: ExportKind, b: ExportKind| export_kind_byte(a) == export_kind_byte(b) ==> a == b,
{
}

/// The binary of a component.
pub open spec fn component_bytes(b: BuilderView) -> Seq<u8> {
    component_header() + core_section(b.core) + type_section(b.types) + import_section(b.imports)
        + export_section(b.exports)
}

/// An empty builder state.
pub open spec fn empty_builder() -> BuilderView {
    BuilderView {
        built: Seq::empty(),
        types: Seq::empty(),
        imports: Seq::empty(),
        exports: Seq::empty(),
        core: None,
        realloc: false,
        post_returns: Seq::empty(),
    }
}

/// The state after adding a type: it gets the next index.
pub open spec fn with_type(b: BuilderView, k: KindView) -> BuilderView {
    BuilderView { types: b.types.push(((b.types.len() as u32), k)), ..b }
}

/// The state after adding an import.
pub open spec fn with_import(b: BuilderView, name: Seq<char>, idx: u32) -> BuilderView {
    BuilderView { imports: b.imports.push((name, idx)), ..b }
}

/// The state after adding an export.
pub open spec fn with_export(b: BuilderView, name: Seq<char>, kind: ExportKind, idx: u32) -> BuilderView {
    BuilderView { exports: b.exports.push((name, kind, idx)), ..b }
}

/// Builds a WebAssembly component binary.
#[derive(Debug)]
pub struct ComponentBuilder {
    bytes: Vec<u8>,
    type_sections: Vec<ComponentTypeSection>,
    imports: Vec<ComponentImport>,
    exports: Vec<ComponentExport>,
    core_module: Option<Vec<u8>>,
    has_realloc: bool,
    post_return_fns: Vec<String>,
}

impl View for ComponentBuilder {
    type V = BuilderView;

    closed spec fn view(&self) -> BuilderView {
        BuilderView {
            built: self.bytes@,
            types: self.type_sections@.map_values(|t: ComponentTypeSection| (t.index, kind_view(t.kind))),
            imports: self.imports@.map_values(|i: ComponentImport| (i.name@, i.type_index)),
            exports: self.exports@.map_values(|e: ComponentExport| (e.name@, e.kind, e.index)),
            core: match self.core_module {
                Some(m) => Some(m@),
                None => None,
            },
            realloc: self.has_realloc,
            post_returns: self.post_return_fns@.map_values(|n: String| n@),
        }
    }
}

impl ComponentBuilder {
    /// An empty builder.
    pub fn new() -> (b: Self)
        ensures
            b@ == empty_builder(),
    {
        let b = ComponentBuilder {
            bytes: Vec::new(),
            type_sections: Vec::new(),
            imports: Vec::new(),
            exports: Vec::new(),
            core_module: None,
            has_realloc: false,
            post_return_fns: Vec::new(),
        };
        proof {
            assert(b@.built =~= Seq::<u8>::empty());
            assert(b@.types =~= Seq::<(u32, KindView)>::empty());
            assert(b@.imports =~= Seq::<(Seq<char>, u32)>::empty());
            assert(b@.exports =~= Seq::<(Seq<char>, ExportKind, u32)>::empty());
            assert(b@.post_returns =~= Seq::<Seq<char>>::empty());
        }
        b
    }

    /// Sets the core module this component wraps.
    pub fn set_core_module(&mut self, module_bytes: Vec<u8>)
        ensures
            final(self)@ == (BuilderView { core: Some(module_bytes@), ..old(self)@ }),
    {
        self.core_module = Some(module_bytes);
    }

    /// Adds a type; returns its index.
    pub fn add_type(&mut self, kind: ComponentTypeKind) -> (index: u32)
        ensures
            index == old(self)@.types.len() as u32,
            final(self)@ == with_type(old(self)@, kind_view(kind)),
    {
        let index = self.type_sections.len() as u32;
        let ghost kv = kind_view(kind);
        self.type_sections.push(ComponentTypeSection { index, kind });
        proof {
            assert(self@.types =~= old(self)@.types.push((index, kv)));
        }
        index
    }

    /// Adds an import.
    pub fn add_import(&mut self, name: &str, type_index: u32)
        ensures
            final(self)@ == with_import(old(self)@, name@, type_index),
    {
        self.imports.push(ComponentImport { name: owned(name), type_index });
        proof {
            assert(self@.imports =~= old(self)@.imports.push((name@, type_index)));
        }
    }

    /// Adds an export.
    pub fn add_export(&mut self, name: &str, kind: ExportKind, index: u32)
        ensures
            final(self)@ == with_export(old(self)@, name@, kind, index),
    {
        self.exports.push(ComponentExport { name: owned(name), kind, index });
        proof {
            assert(self@.exports =~= old(self)@.exports.push((name@, kind, index)));
        }
    }

    /// Exports `cabi_realloc`.
    pub fn enable_realloc(&mut self)
        ensures
            final(self)@ == (BuilderView { realloc: true, ..old(self)@ }),
    {
        self.has_realloc = true;
    }

    /// Adds a post-return cleanup function.
    pub fn add_post_return(&mut self, func_name: &str)
        ensures
            final(self)@ == (BuilderView { post_returns: old(self)@.post_returns.push(func_name@), ..old(self)@ }),
    {
        self.post_return_fns.push(owned(func_name));
        proof {
            assert(self@.post_returns =~= old(self)@.post_returns.push(func_name@));
        }
    }

    fn emit_core(&self, out: &mut Vec<u8>)
        ensures
            final(out)@ == old(out)@ + core_section(self@.core),
    {
        match &self.core_module {
            Some(module) => {
                let mut section_bytes: Vec<u8> = Vec::new();
                section_bytes.push(0x00);
                encode_vec_bytes(&mut section_bytes, module.as_slice());
                out.extend_from_slice(section_bytes.as_slice());
                proof {
                    assert(out@ =~= old(out)@ + core_section(self@.core));
                }
            },
            None => {
                proof {
                    assert(out@ =~= old(out)@ + core_section(self@.core));
                }
            },
        }
    }

    fn emit_types(&self, out: &mut Vec<u8>)
        ensures
            final(out)@ == old(out)@ + type_section(self@.types),
    {
        let ghost v = self@;
        if self.type_sections.len() > 0 {
            let mut section_bytes: Vec<u8> = Vec::new();
            section_bytes.push(0x01);
            let mut type_data: Vec<u8> = Vec::new();
            encode_u32(&mut type_data, self.type_sections.len() as u32);
            let ghost before = type_data@;
            let mut i: usize = 0;
            while i < self.type_sections.len()
                invariant
                    i <= self.type_sections@.len(),
                    v == self@,
                    before + types_bytes(v.types, 0) == type_data@ + types_bytes(v.types, i as int),
                decreases self.type_sections@.len() - i,
            {
                encode_component_type(&mut type_data, &self.type_sections[i].kind);
                i = i + 1;
            }
            encode_vec_bytes(&mut section_bytes, type_data.as_slice());
            out.extend_from_slice(section_bytes.as_slice());
            proof {
                assert(type_data@ =~= count_bytes(v.types.len()) + types_bytes(v.types, 0));
                assert(out@ =~= old(out)@ + type_section(v.types));
            }
        } else {
            proof {
                assert(out@ =~= old(out)@ + type_section(v.types));
            }
        }
    }

    fn emit_imports(&self, out: &mut Vec<u8>)
        ensures
            final(out)@ == old(out)@ + import_section(self@.imports),
    {
        let ghost v = self@;
        if self.imports.len() > 0 {
            let mut section_bytes: Vec<u8> = Vec::new();
            section_bytes.push(0x02);
            let mut import_data: Vec<u8> = Vec::new();
            encode_u32(&mut import_data, self.imports.len() as u32);
            let ghost before = import_data@;
            let mut i: usize = 0;
            while i < self.imports.len()
                invariant
                    i <= self.imports@.len(),
                    v == self@,
                    before + imports_bytes(v.imports, 0) == import_data@ + imports_bytes(v.imports, i as int),
                decreases self.imports@.len() - i,
            {
                encode_string(&mut import_data, self.imports[i].name.as_str());
                encode_u32(&mut import_data, self.imports[i].type_index);
                i = i + 1;
            }
            encode_vec_bytes(&mut section_bytes, import_data.as_slice());
            out.extend_from_slice(section_bytes.as_slice());
            proof {
                assert(import_data@ =~= count_bytes(v.imports.len()) + imports_bytes(v.imports, 0));
                assert(out@ =~= old(out)@ + import_section(v.imports));
            }
        } else {
            proof {
                assert(out@ =~= old(out)@ + import_section(v.imports));
            }
        }
    }

    fn emit_exports(&self, out: &mut Vec<u8>)
        ensures
            final(out)@ == old(out)@ + export_section(self@.exports),
    {
        let ghost v = self@;
        if self.exports.len() > 0 {
            let mut section_bytes: Vec<u8> = Vec::new();
            section_bytes.push(0x03);
            let mut export_data: Vec<u8> = Vec::new();
            encode_u32(&mut export_data, self.exports.len() as u32);
            let ghost before = export_data@;
            let mut i: usize = 0;
            while i < self.exports.len()
                invariant
                    i <= self.exports@.len(),
                    v == self@,
                    before + exports_bytes(v.exports, 0) == export_data@ + exports_bytes(v.exports, i as int),
                decreases self.exports@.len() - i,
            {
                encode_string(&mut export_data, self.exports[i].name.as_str());
                let kind_byte: u8 = match self.exports[i].kind {
                    ExportKind::Func => 0x01,
                    ExportKind::Instance => 0x02,
                    ExportKind::Component => 0x03,
                    ExportKind::Module => 0x00,
                };
                export_data.push(kind_byte);
                encode_u32(&mut export_data, self.exports[i].index);
                i = i + 1;
            }
            encode_vec_bytes(&mut section_bytes, export_data.as_slice());
            out.extend_from_slice(section_bytes.as_slice());
            proof {
                assert(export_data@ =~= count_bytes(v.exports.len()) + exports_bytes(v.exports, 0));
                assert(out@ =~= old(out)@ + export_section(v.exports));
            }
        } else {
            proof {
                assert(out@ =~= old(out)@ + export_section(v.exports));
            }
        }
    }

    /// Builds the component binary: header, then the core module, type,
    /// import and export sections that are not empty.
    pub fn build(&mut self) -> (out: Vec<u8>)
        ensures
            out@ == component_bytes(old(self)@),
            final(self)@ == (BuilderView { built: out@, ..old(self)@ }),
    {
        let mut out: Vec<u8> = Vec::new();
        out.push(0x00);
        out.push(0x61);
        out.push(0x73);
        out.push(0x6D);
        out.push(0x0D);
        out.push(0x00);
        out.push(0x01);
        out.push(0x00);
        proof {
            assert(out@ =~= component_header());
        }
        self.emit_core(&mut out);
        self.emit_types(&mut out);
        self.emit_imports(&mut out);
        self.emit_exports(&mut out);
        let copy = out.clone();
        proof {
            assert(copy@ =~= out@);
        }
        self.bytes = copy;
        out
    }

    /// The bytes of the last build.
    pub fn bytes(&self) -> (b: &[u8])
        ensures
            b@ == self@.built,
    {
        self.bytes.as_slice()
    }

    /// The number of types.
    pub fn type_count(&self) -> (n: usize)
        ensures
            n == self@.types.len(),
    {
        self.type_sections.len()
    }

    /// The number of imports.
    pub fn import_count(&self) -> (n: usize)
        ensures
            n == self@.imports.len(),
    {
        self.imports.len()
    }

    /// The number of exports.
    pub fn export_count(&self) -> (n: usize)
        ensures
            n == self@.exports.len(),
    {
        self.exports.len()
    }

    /// Whether `cabi_realloc` is exported.
    pub fn has_realloc(&self) -> (r: bool)
        ensures
            r == self@.realloc,
    {
        self.has_realloc
    }

    /// The post-return function names.
    pub fn post_return_functions(&self) -> (r: &[String])
        ensures
            r@.map_values(|n: String| n@) == self@.post_returns,
    {
        self.post_return_fns.as_slice()
    }
}

impl Default for ComponentBuilder {
    fn default() -> (b: Self)
        ensures
            b@ == empty_builder(),
    {
        Self::new()
    }
}


// ═════════════════════════════════════════════════════════════════════
// From WIT
// ═════════════════════════════════════════════════════════════════════

/// The component type of a WIT primitive.
pub open spec fn primitive_cvt(p: WitPrimitive) -> CvtView {
    match p {
        WitPrimitive::U8 => CvtView::U8,
        WitPrimitive::U16 => CvtView::U16,
        WitPrimitive::U32 => CvtView::U32,
        WitPrimitive::U64 => CvtView::U64,
        WitPrimitive::S8 => CvtView::S8,
        WitPrimitive::S16 => CvtView::S16,
        WitPrimitive::S32 => CvtView::S32,
        WitPrimitive::S64 => CvtView::S64,
        WitPrimitive::F32 => CvtView::F32,
        WitPrimitive::F64 => CvtView::F64,
        WitPrimitive::Bool => CvtView::Bool,
        WitPrimitive::Char => CvtView::Char,
        WitPrimitive::String_ => CvtView::Str,
    }
}

/// The component type of a WIT type reference. Handles and named types
/// are not resolved: they refer to type index 0.
pub open spec fn wit_cvt(t: WitTypeRef) -> CvtView
    decreases t,
{
    match t {
        WitTypeRef::Primitive(p) => primitive_cvt(p),
        WitTypeRef::List(inner) => CvtView::List(Box::new(wit_cvt(*inner))),
        WitTypeRef::Option(inner) => CvtView::Option(Box::new(wit_cvt(*inner))),
        WitTypeRef::Result { ok, err } => CvtView::Result {
            ok: match ok {
                Some(o) => Some(Box::new(wit_cvt(*o))),
                None => None,
            },
            err: match err {
                Some(e) => Some(Box::new(wit_cvt(*e))),
                None => None,
            },
        },
        WitTypeRef::Tuple(items) => CvtView::Tuple(wit_cvts(items@, 0)),
        WitTypeRef::Own(_) => CvtView::Own(0),
        WitTypeRef::Borrow(_) => CvtView::Borrow(0),
        WitTypeRef::Named(_) => CvtView::TypeRef(0),
    }
}

/// The component types of `items[i..]`.
pub open spec fn wit_cvts(items: Seq<WitTypeRef>, i: int) -> Seq<CvtView>
    decreases items, items.len() - i,
{
    if 0 <= i < items.len() {
        seq![wit_cvt(items[i])] + wit_cvts(items, i + 1)
    } else {
        Seq::empty()
    }
}

proof fn lemma_wit_cvts(items: Seq<WitTypeRef>, i: int)
    requires
        0 <= i <= items.len(),
    ensures
        wit_cvts(items, i).len() == items.len() - i,
        forall|k: int| 0 <= k < items.len() - i ==> #[trigger] wit_cvts(items, i)[k] == wit_cvt(items[i + k]),
    decreases items.len() - i,
{
    if i < items.len() {
        lemma_wit_cvts(items, i + 1);
        assert forall|k: int| 0 <= k < items.len() - i implies #[trigger] wit_cvts(items, i)[k] == wit_cvt(
            items[i + k],
        ) by {
            if k > 0 {
                assert(wit_cvts(items, i)[k] == wit_cvts(items, i + 1)[k - 1]);
            }
        }
    }
}

/// A type reference built only from primitives, lists, options, results
/// and tuples: no handles and no named types.
pub open spec fn structural(t: WitTypeRef) -> bool
    decreases t,
{
    match t {
        WitTypeRef::Primitive(_) => true,
        WitTypeRef::List(inner) => structural(*inner),
        WitTypeRef::Option(inner) => structural(*inner),
        WitTypeRef::Result { ok, err } => (match ok {
            Some(o) => structural(*o),
            None => true,
        }) && (match err {
            Some(e) => structural(*e),
            None => true,
        }),
        WitTypeRef::Tuple(items) => structural_items(items@, 0),
        WitTypeRef::Own(_) => false,
        WitTypeRef::Borrow(_) => false,
        WitTypeRef::Named(_) => false,
    }
}

/// Every one of `items[i..]` is structural.
pub open spec fn structural_items(items: Seq<WitTypeRef>, i: int) -> bool
    decreases items, items.len() - i,
{
    if 0 <= i < items.len() {
        structural(items[i]) && structural_items(items, i + 1)
    } else {
        true
    }
}

proof fn lemma_primitive_text(p: WitPrimitive)
    ensures
        cvt_text(primitive_cvt(p)) == primitive_text(p),
{
}

/// On structural types the conversion keeps the text: the component type
/// reads as the WIT type it came from.
pub proof fn law_component_text_matches(t: WitTypeRef)
    requires
        structural(t),
    ensures
        cvt_text(wit_cvt(t)) == type_text(t),
    decreases t,
{
    match t {
        WitTypeRef::Primitive(p) => {
            lemma_primitive_text(p);
            assert(wit_cvt(t) == primitive_cvt(p));
            assert(type_text(t) == primitive_text(p));
        },
        WitTypeRef::List(inner) => law_component_text_matches(*inner),
        WitTypeRef::Option(inner) => law_component_text_matches(*inner),
        WitTypeRef::Result { ok, err } => {
            if let Some(o) = ok {
                law_component_text_matches(*o);
            }
            if let Some(e) = err {
                law_component_text_matches(*e);
            }
            let c = wit_cvt(t);
            match (ok, err) {
                (Some(o), Some(e)) => {
                    assert(c == CvtView::Result { ok: Some(Box::new(wit_cvt(*o))), err: Some(Box::new(wit_cvt(*e))) });
                    assert(cvt_text(c) =~= type_text(t));
                },
                (Some(o), None) => {
                    assert(c == CvtView::Result { ok: Some(Box::new(wit_cvt(*o))), err: None });
                    assert(cvt_text(c) =~= type_text(t));
                },
                (None, Some(e)) => {
                    assert(c == CvtView::Result { ok: None, err: Some(Box::new(wit_cvt(*e))) });
                    reveal_strlit("<_, ");
                    reveal_strlit("<");
                    reveal_strlit("_");
                    reveal_strlit(", ");
                    assert("<_, "@ =~= "<"@ + "_"@ + ", "@);
                    assert(cvt_text(c) =~= type_text(t));
                },
                (None, None) => {
                    assert(cvt_text(c) =~= type_text(t));
                },
            }
        },
        WitTypeRef::Tuple(items) => {
            lemma_wit_cvts(items@, 0);
            lemma_items_text_matches(items@, 0);
            assert(cvt_text(wit_cvt(t)) == type_text(t));
        },
        _ => {},
    }
}

/// The list texts agree from `i` on.
proof fn lemma_items_text_matches(items: Seq<WitTypeRef>, i: int)
    requires
        0 <= i <= items.len(),
        structural_items(items, i),
    ensures
        items_text(wit_cvts(items, 0), i) == list_text(items, i),
    decreases items, items.len() - i,
{
    lemma_wit_cvts(items, 0);
    if i < items.len() {
        law_component_text_matches(items[i]);
        lemma_items_text_matches(items, i + 1);
        assert(wit_cvts(items, 0)[i] == wit_cvt(items[i + 0]));
    }
}

/// Converts a WIT type reference to a component value type.
pub fn wit_type_to_component(ty: &WitTypeRef) -> (r: ComponentValType)
    ensures
        r@ == wit_cvt(*ty),
    decreases ty,
{
    match ty {
        WitTypeRef::Primitive(p) => match p {
            WitPrimitive::U8 => ComponentValType::U8,
            WitPrimitive::U16 => ComponentValType::U16,
            WitPrimitive::U32 => ComponentValType::U32,
            WitPrimitive::U64 => ComponentValType::U64,
            WitPrimitive::S8 => ComponentValType::S8,
            WitPrimitive::S16 => ComponentValType::S16,
            WitPrimitive::S32 => ComponentValType::S32,
            WitPrimitive::S64 => ComponentValType::S64,
            WitPrimitive::F32 => ComponentValType::F32,
            WitPrimitive::F64 => ComponentValType::F64,
            WitPrimitive::Bool => ComponentValType::Bool,
            WitPrimitive::Char => ComponentValType::Char,
            WitPrimitive::String_ => ComponentValType::String_,
        },
        WitTypeRef::List(inner) => ComponentValType::List(Box::new(wit_type_to_component(inner))),
        WitTypeRef::Option(inner) => ComponentValType::Option_(Box::new(wit_type_to_component(inner))),
        WitTypeRef::Result { ok, err } => {
            let ok2 = match ok {
                Some(t) => Some(Box::new(wit_type_to_component(t))),
                None => None,
            };
            let err2 = match err {
                Some(t) => Some(Box::new(wit_type_to_component(t))),
                None => None,
            };
            ComponentValType::Result_ { ok: ok2, err: err2 }
        },
        WitTypeRef::Tuple(items) => {
            let mut out: Vec<ComponentValType> = Vec::new();
            let mut i: usize = 0;
            proof {
                lemma_wit_cvts(items@, 0);
            }
            while i < items.len()
                invariant
                    i <= items@.len(),
                    *ty == WitTypeRef::Tuple(*items),
                    out@.len() == i,
                    forall|k: int| 0 <= k < i ==> cvt_view(#[trigger] out@[k]) == wit_cvt(items@[k]),
                decreases items@.len() - i,
            {
                proof {
                    assert(decreases_to!(*ty => (*ty)->Tuple_0));
                    assert(decreases_to!((*ty)->Tuple_0 => (*ty)->Tuple_0[i as int]));
                }
                out.push(wit_type_to_component(&items[i]));
                i = i + 1;
            }
            proof {
                lemma_cvt_views(out@, 0);
                assert(cvt_views(out@, 0) =~= wit_cvts(items@, 0));
            }
            ComponentValType::Tuple(out)
        },
        WitTypeRef::Own(_) => ComponentValType::Own(0),
        WitTypeRef::Borrow(_) => ComponentValType::Borrow(0),
        WitTypeRef::Named(_) => ComponentValType::TypeRef(0),
    }
}

/// The component function type of a WIT function.
pub open spec fn wit_func_view(f: WitFuncDef) -> FuncView {
    FuncView {
        name: f.name@,
        params: f.params@.map_values(|p: crate::wit_parser::WitParam| (p.name@, wit_cvt(p.ty))),
        result: match f.result {
            Some(t) => Some(wit_cvt(t)),
            None => None,
        },
    }
}

/// Converts a WIT function to a component function type.
pub fn wit_func_to_component(func: &WitFuncDef) -> (r: ComponentFuncType)
    ensures
        func_view(r) == wit_func_view(*func),
{
    let mut params: Vec<(String, ComponentValType)> = Vec::new();
    let mut i: usize = 0;
    while i < func.params.len()
        invariant
            i <= func.params@.len(),
            params@.len() == i,
            forall|k: int| 0 <= k < i ==> (#[trigger] params@[k]).0@ == func.params@[k].name@ && cvt_view(params@[k].1)
                == wit_cvt(func.params@[k].ty),
        decreases func.params@.len() - i,
    {
        let name = func.params[i].name.clone();
        let ty = wit_type_to_component(&func.params[i].ty);
        params.push((name, ty));
        i = i + 1;
    }
    let result = match &func.result {
        Some(t) => Some(wit_type_to_component(t)),
        None => None,
    };
    let r = ComponentFuncType { name: func.name.clone(), params, result };
    proof {
        lemma_field_views(r.params@, 0);
        assert(field_views(r.params@, 0) =~= wit_func_view(*func).params);
    }
    r
}

/// A world item's effect on a builder: an interface import or export adds
/// an empty instance type; an inline function adds its function type;
/// other items add nothing.
pub open spec fn world_step(b: BuilderView, item: WitWorldItem) -> BuilderView {
    let idx = b.types.len() as u32;
    match item {
        WitWorldItem::Import(WitWorldImport::InterfacePath(p)) => with_import(
            with_type(b, KindView::Instance(Seq::empty())),
            p.path@,
            idx,
        ),
        WitWorldItem::Import(WitWorldImport::Func { name, func }) => with_import(
            with_type(b, KindView::Func(wit_func_view(func))),
            name@,
            idx,
        ),
        WitWorldItem::Export(WitWorldExport::InterfacePath(p)) => with_export(
            with_type(b, KindView::Instance(Seq::empty())),
            p.path@,
            ExportKind::Instance,
            idx,
        ),
        WitWorldItem::Export(WitWorldExport::Func { name, func }) => with_export(
            with_type(b, KindView::Func(wit_func_view(func))),
            name@,
            ExportKind::Func,
            idx,
        ),
        _ => b,
    }
}

/// The builder state after the world items `items[i..]`.
pub open spec fn world_fold(b: BuilderView, items: Seq<WitWorldItem>, i: int) -> BuilderView
    decreases items.len() - i,
{
    if 0 <= i < items.len() {
        world_fold(world_step(b, items[i]), items, i + 1)
    } else {
        b
    }
}

/// Builds a component from a WIT world: one type per import or export,
/// with `cabi_realloc` enabled.
pub fn build_component_from_world(world: &WitWorldDef) -> (b: ComponentBuilder)
    ensures
        b@ == (BuilderView { realloc: true, ..world_fold(empty_builder(), world.items@, 0) }),
{
    let mut builder = ComponentBuilder::new();
    let mut i: usize = 0;
    while i < world.items.len()
        invariant
            i <= world.items@.len(),
            world_fold(empty_builder(), world.items@, 0) == world_fold(builder@, world.items@, i as int),
        decreases world.items@.len() - i,
    {
        match &world.items[i] {
            WitWorldItem::Import(imp) => match imp {
                WitWorldImport::InterfacePath(path) => {
                    let idx = builder.add_type(ComponentTypeKind::Instance(Vec::new()));
                    proof {
                        assert(Seq::<ComponentFuncType>::empty().map_values(|f: ComponentFuncType| func_view(f))
                            =~= Seq::<FuncView>::empty());
                    }
                    builder.add_import(path.path.as_str(), idx);
                },
                WitWorldImport::Func { name, func } => {
                    let ft = wit_func_to_component(func);
                    let idx = builder.add_type(ComponentTypeKind::Func(ft));
                    builder.add_import(name.as_str(), idx);
                },
            },
            WitWorldItem::Export(exp) => match exp {
                WitWorldExport::InterfacePath(path) => {
                    let idx = builder.add_type(ComponentTypeKind::Instance(Vec::new()));
                    proof {
                        assert(Seq::<ComponentFuncType>::empty().map_values(|f: ComponentFuncType| func_view(f))
                            =~= Seq::<FuncView>::empty());
                    }
                    builder.add_export(path.path.as_str(), ExportKind::Instance, idx);
                },
                WitWorldExport::Func { name, func } => {
                    let ft = wit_func_to_component(func);
                    let idx = builder.add_type(ComponentTypeKind::Func(ft));
                    builder.add_export(name.as_str(), ExportKind::Func, idx);
                },
            },
            _ => {},
        }
        i = i + 1;
    }
    builder.enable_realloc();
    builder
}


// ═════════════════════════════════════════════════════════════════════
// Linear memory
// ═════════════════════════════════════════════════════════════════════

/// A linear memory with a bump allocator.
#[derive(Debug)]
pub struct LinearMemory {
    data: Vec<u8>,
    alloc_ptr: u32,
}

/// What a linear memory holds: its bytes and the next free address.
pub struct MemView {
    pub data: Seq<u8>,
    pub next: u32,
}

impl View for LinearMemory {
    type V = MemView;

    closed spec fn view(&self) -> MemView {
        MemView { data: self.data@, next: self.alloc_ptr }
    }
}

/// `p` rounded up by the mask of `align`: `(p + align - 1) & !(align - 1)`.
pub open spec fn align_up(p: u32, align: u32) -> u32 {
    ((p + (align - 1)) as u32) & !((align - 1) as u32)
}

/// When an allocation does not overflow: a non-zero alignment, and the
/// rounded address and its end fit in 32 bits.
pub open spec fn alloc_pre(m: MemView, size: u32, align: u32) -> bool {
    &&& align >= 1
    &&& m.next + (align - 1) <= u32::MAX
    &&& align_up(m.next, align) + size <= u32::MAX
}

/// `data` with `bytes` written at `offset`, when they fit; else unchanged.
pub open spec fn mem_write(data: Seq<u8>, offset: int, bytes: Seq<u8>) -> Seq<u8> {
    if offset + bytes.len() <= data.len() {
        data.subrange(0, offset) + bytes + data.subrange(offset + bytes.len(), data.len() as int)
    } else {
        data
    }
}

/// The `len` bytes at `offset`, when they lie in memory; else nothing.
pub open spec fn mem_read(data: Seq<u8>, offset: int, len: int) -> Seq<u8> {
    if offset + len <= data.len() {
        data.subrange(offset, offset + len)
    } else {
        Seq::empty()
    }
}

/// The little-endian bytes of a 32-bit value.
pub open spec fn le_bytes_u32(v: u32) -> Seq<u8> {
    seq![(v % 256) as u8, ((v / 256) % 256) as u8, ((v / 65536) % 256) as u8, (v / 16777216) as u8]
}

/// The value of four little-endian bytes.
pub open spec fn le_u32(b: Seq<u8>) -> u32 {
    (b[0] + 256 * b[1] + 65536 * b[2] + 16777216 * b[3]) as u32
}

/// The little-endian bytes of a 64-bit value.
pub open spec fn le_bytes_u64(v: u64) -> Seq<u8> {
    le_bytes_u32((v % 0x1_0000_0000) as u32) + le_bytes_u32((v / 0x1_0000_0000) as u32)
}

/// The value of eight little-endian bytes.
pub open spec fn le_u64(b: Seq<u8>) -> u64 {
    (le_u32(b.subrange(0, 4)) + 0x1_0000_0000 * le_u32(b.subrange(4, 8))) as u64
}

/// What `read_u32` gives: the value at `offset`, or 0 when out of range.
pub open spec fn mem_read_u32(data: Seq<u8>, offset: int) -> u32 {
    let b = mem_read(data, offset, 4);
    if b.len() == 4 {
        le_u32(b)
    } else {
        0
    }
}

/// What `read_u64` gives: the value at `offset`, or 0 when out of range.
pub open spec fn mem_read_u64(data: Seq<u8>, offset: int) -> u64 {
    let b = mem_read(data, offset, 8);
    if b.len() == 8 {
        le_u64(b)
    } else {
        0
    }
}

proof fn lemma_le_u32_roundtrip(v: u32)
    ensures
        le_u32(le_bytes_u32(v)) == v,
{
    let b = le_bytes_u32(v);
    assert(b[0] + 256 * b[1] + 65536 * b[2] + 16777216 * b[3] == v) by (nonlinear_arith)
        requires
            b[0] == v % 256,
            b[1] == (v / 256) % 256,
            b[2] == (v / 65536) % 256,
            b[3] == v / 16777216,
    ;
}

fn u32_from_le(b0: u8, b1: u8, b2: u8, b3: u8) -> (v: u32)
    ensures
        v == le_u32(seq![b0, b1, b2, b3]),
{
    let v = (b0 as u32) | ((b1 as u32) << 8) | ((b2 as u32) << 16) | ((b3 as u32) << 24);
    assert(v == b0 + 256 * b1 + 65536 * b2 + 16777216 * b3) by (bit_vector)
        requires
            v == (b0 as u32) | ((b1 as u32) << 8) | ((b2 as u32) << 16) | ((b3 as u32) << 24),
    ;
    v
}

fn u32_to_le(v: u32) -> (b: [u8; 4])
    ensures
        b@ == le_bytes_u32(v),
{
    let b0 = (v & 0xFF) as u8;
    let b1 = ((v >> 8) & 0xFF) as u8;
    let b2 = ((v >> 16) & 0xFF) as u8;
    let b3 = (v >> 24) as u8;
    proof {
        assert(v & 0xFF == v % 256) by (bit_vector);
        assert((v >> 8) & 0xFF == (v / 256) % 256) by (bit_vector);
        assert((v >> 16) & 0xFF == (v / 65536) % 256) by (bit_vector);
        assert(v >> 24 == v / 16777216) by (bit_vector);
    }
    let b = [b0, b1, b2, b3];
    assert(b@ =~= le_bytes_u32(v));
    b
}

impl LinearMemory {
    /// A memory of `pages` pages of 64 KiB, all zero; allocation starts
    /// at address 8.
    pub fn new(pages: u32) -> (m: Self)
        requires
            pages * 65536 <= usize::MAX,
        ensures
            m@.data == Seq::new((pages * 65536) as nat, |i: int| 0u8),
            m@.next == 8,
    {
        let n = (pages as usize) * 65536;
        let data = vec![0u8; n];
        let m = LinearMemory { data, alloc_ptr: 8 };
        assert(m@.data =~= Seq::new((pages * 65536) as nat, |i: int| 0u8));
        m
    }

    /// Allocates `size` bytes at the next address rounded up by `align`.
    pub fn allocate(&mut self, size: u32, align: u32) -> (ptr: u32)
        requires
            alloc_pre(old(self)@, size, align),
        ensures
            ptr == align_up(old(self)@.next, align),
            final(self)@ == (MemView { data: old(self)@.data, next: (ptr + size) as u32 }),
    {
        let mask = align - 1;
        self.alloc_ptr = (self.alloc_ptr + mask) & !mask;
        let ptr = self.alloc_ptr;
        self.alloc_ptr = self.alloc_ptr + size;
        ptr
    }

    /// Writes bytes at `offset`, when they fit in memory.
    pub fn write_bytes(&mut self, offset: u32, bytes: &[u8])
        requires
            offset + bytes@.len() <= usize::MAX,
        ensures
            final(self)@ == (MemView { data: mem_write(old(self)@.data, offset as int, bytes@), next: old(self)@.next }),
    {
        let start = offset as usize;
        let end = start + bytes.len();
        if end <= self.data.len() {
            let mut k: usize = 0;
            while k < bytes.len()
                invariant
                    start + bytes@.len() == end,
                    end <= self.data@.len(),
                    self.data@.len() == old(self).data@.len(),
                    self.alloc_ptr == old(self).alloc_ptr,
                    k <= bytes@.len(),
                    forall|i: int|
                        0 <= i < self.data@.len() ==> #[trigger] self.data@[i] == if start <= i < start + k {
                            bytes@[i - start]
                        } else {
                            old(self).data@[i]
                        },
                decreases bytes@.len() - k,
            {
                self.data.set(start + k, bytes[k]);
                k = k + 1;
            }
            proof {
                assert(self.data@ =~= mem_write(old(self).data@, offset as int, bytes@));
            }
        }
    }

    /// The `len` bytes at `offset`, or nothing when they are out of range.
    pub fn read_bytes(&self, offset: u32, len: u32) -> (r: Vec<u8>)
        requires
            offset + len <= usize::MAX,
        ensures
            r@ == mem_read(self@.data, offset as int, len as int),
    {
        let start = offset as usize;
        let end = start + len as usize;
        let mut out: Vec<u8> = Vec::new();
        if end <= self.data.len() {
            let mut k = start;
            while k < end
                invariant
                    start <= k <= end,
                    end <= self.data@.len(),
                    out@ == self.data@.subrange(start as int, k as int),
                decreases end - k,
            {
                out.push(self.data[k]);
                k = k + 1;
                assert(out@ =~= self.data@.subrange(start as int, k as int));
            }
        }
        out
    }

    /// Writes a 32-bit value, little-endian, when it fits.
    pub fn write_u32(&mut self, offset: u32, value: u32)
        requires
            offset + 4 <= usize::MAX,
        ensures
            final(self)@ == (MemView { data: mem_write(old(self)@.data, offset as int, le_bytes_u32(value)), next: old(self)@.next }),
    {
        let b = u32_to_le(value);
        self.write_bytes(offset, &b);
    }

    /// Reads a 32-bit little-endian value, or 0 when out of range.
    pub fn read_u32(&self, offset: u32) -> (v: u32)
        requires
            offset + 4 <= usize::MAX,
        ensures
            v == mem_read_u32(self@.data, offset as int),
    {
        let b = self.read_bytes(offset, 4);
        if b.len() == 4 {
            proof {
                assert(b@ =~= seq![b@[0], b@[1], b@[2], b@[3]]);
            }
            u32_from_le(b[0], b[1], b[2], b[3])
        } else {
            0
        }
    }

    /// Writes a 64-bit value, little-endian, when it fits.
    pub fn write_u64(&mut self, offset: u32, value: u64)
        requires
            offset + 8 <= usize::MAX,
        ensures
            final(self)@ == (MemView { data: mem_write(old(self)@.data, offset as int, le_bytes_u64(value)), next: old(self)@.next }),
    {
        let lo = (value & 0xFFFF_FFFF) as u32;
        let hi = (value >> 32) as u32;
        proof {
            assert(value & 0xFFFF_FFFF == value % 0x1_0000_0000) by (bit_vector);
            assert(value >> 32 == value / 0x1_0000_0000) by (bit_vector);
        }
        let a = u32_to_le(lo);
        let c = u32_to_le(hi);
        let b = [a[0], a[1], a[2], a[3], c[0], c[1], c[2], c[3]];
        assert(b@ =~= le_bytes_u64(value));
        self.write_bytes(offset, &b);
    }

    /// Reads a 64-bit little-endian value, or 0 when out of range.
    pub fn read_u64(&self, offset: u32) -> (v: u64)
        requires
            offset + 8 <= usize::MAX,
        ensures
            v == mem_read_u64(self@.data, offset as int),
    {
        let b = self.read_bytes(offset, 8);
        if b.len() == 8 {
            let lo = u32_from_le(b[0], b[1], b[2], b[3]);
            let hi = u32_from_le(b[4], b[5], b[6], b[7]);
            proof {
                assert(b@.subrange(0, 4) =~= seq![b@[0], b@[1], b@[2], b@[3]]);
                assert(b@.subrange(4, 8) =~= seq![b@[4], b@[5], b@[6], b@[7]]);
            }
            let v = (lo as u64) | ((hi as u64) << 32);
            assert(v == lo + 0x1_0000_0000 * hi) by (bit_vector)
                requires
                    v == (lo as u64) | ((hi as u64) << 32),
            ;
            v
        } else {
            0
        }
    }

    /// The next free address.
    pub fn allocated(&self) -> (n: u32)
        ensures
            n == self@.next,
    {
        self.alloc_ptr
    }

    /// The size of the memory in bytes.
    pub fn capacity(&self) -> (n: usize)
        ensures
            n == self@.data.len(),
    {
        self.data.len()
    }
}

proof fn lemma_align_one(p: u32)
    ensures
        align_up(p, 1) == p,
{
    assert((((p + 0u32) as u32) & !(0u32)) == p) by (bit_vector);
}

/// A 32-bit value written at an address in range is read back.
pub proof fn law_u32_roundtrip(data: Seq<u8>, offset: u32, v: u32)
    requires
        offset + 4 <= data.len(),
    ensures
        mem_read_u32(mem_write(data, offset as int, le_bytes_u32(v)), offset as int) == v,
{
    let d2 = mem_write(data, offset as int, le_bytes_u32(v));
    assert(mem_read(d2, offset as int, 4) =~= le_bytes_u32(v));
    lemma_le_u32_roundtrip(v);
}

/// Aligned allocation: with a power-of-two alignment the address is a
/// multiple of it, at or above the previous free address and less than one
/// alignment beyond it.
pub proof fn law_alloc_aligned(next: u32, align: u32)
    requires
        align >= 1,
        align & ((align - 1) as u32) == 0,
        next + (align - 1) <= u32::MAX,
    ensures
        align_up(next, align) % align == 0,
        next <= align_up(next, align),
        align_up(next, align) < next + align,
{
    let m = (align - 1) as u32;
    let s = (next + m) as u32;
    assert(s == next + m);
    assert((s & !m) % align == 0 && s - m <= (s & !m) && (s & !m) <= s) by (bit_vector)
        requires
            align >= 1,
            m == align - 1,
            align & m == 0,
    ;
}

// ═════════════════════════════════════════════════════════════════════
// Canonical ABI values
// ═════════════════════════════════════════════════════════════════════

/// A canonical ABI value as it lies in linear memory. Floating-point
/// values are held by their bit patterns.
#[derive(Debug, PartialEq)]
pub enum CanonicalValue {
    /// i32 value (bool, u8, u16, u32, s8, s16, s32, char, flags).
    I32(i32),
    /// i64 value (u64, s64).
    I64(i64),
    /// f32 value, by its bits.
    F32(u32),
    /// f64 value, by its bits.
    F64(u64),
    /// String: address and length in linear memory.
    String { ptr: u32, len: u32 },
    /// List: address and length in linear memory.
    List { ptr: u32, len: u32 },
    /// Record: flattened fields.
    Record(Vec<CanonicalValue>),
    /// Variant: discriminant and optional payload.
    Variant { discriminant: u32, payload: Option<Box<CanonicalValue>> },
    /// Option: 0 = None, 1 = Some(value).
    Option_ { is_some: bool, value: Option<Box<CanonicalValue>> },
    /// Result: 0 = Ok(value), 1 = Err(value).
    Result_ { is_ok: bool, value: Option<Box<CanonicalValue>> },
    /// Tuple: flattened elements.
    Tuple(Vec<CanonicalValue>),
}

/// Lowers a string into memory: its UTF-8 bytes at a fresh address.
pub fn lower_string(mem: &mut LinearMemory, s: &str) -> (r: CanonicalValue)
    requires
        alloc_pre(old(mem)@, s.spec_bytes().len() as u32, 1),
        s.spec_bytes().len() <= u32::MAX,
    ensures
        r == (CanonicalValue::String { ptr: old(mem)@.next, len: s.spec_bytes().len() as u32 }),
        final(mem)@ == (MemView {
            data: mem_write(old(mem)@.data, old(mem)@.next as int, s.spec_bytes()),
            next: (old(mem)@.next + s.spec_bytes().len()) as u32,
        }),
{
    let bytes = s.as_bytes();
    proof {
        lemma_align_one(mem@.next);
    }
    let ptr = mem.allocate(bytes.len() as u32, 1);
    mem.write_bytes(ptr, bytes);
    CanonicalValue::String { ptr, len: bytes.len() as u32 }
}

/// Lowers a byte list into memory at a fresh address.
pub fn lower_list_u8(mem: &mut LinearMemory, data: &[u8]) -> (r: CanonicalValue)
    requires
        alloc_pre(old(mem)@, data@.len() as u32, 1),
        data@.len() <= u32::MAX,
    ensures
        r == (CanonicalValue::List { ptr: old(mem)@.next, len: data@.len() as u32 }),
        final(mem)@ == (MemView {
            data: mem_write(old(mem)@.data, old(mem)@.next as int, data@),
            next: (old(mem)@.next + data@.len()) as u32,
        }),
{
    proof {
        lemma_align_one(mem@.next);
    }
    let ptr = mem.allocate(data.len() as u32, 1);
    mem.write_bytes(ptr, data);
    CanonicalValue::List { ptr, len: data.len() as u32 }
}

/// The memory after writing `values` as 32-bit words from `ptr` on.
pub open spec fn write_words(data: Seq<u8>, ptr: int, values: Seq<u32>) -> Seq<u8>
    decreases values.len(),
{
    if values.len() == 0 {
        data
    } else {
        mem_write(write_words(data, ptr, values.drop_last()), ptr + 4 * (values.len() - 1), le_bytes_u32(values.last()))
    }
}

/// Lowers a list of 32-bit values into memory, 4-aligned.
pub fn lower_list_u32(mem: &mut LinearMemory, values: &[u32]) -> (r: CanonicalValue)
    requires
        values@.len() * 4 <= u32::MAX,
        alloc_pre(old(mem)@, (values@.len() * 4) as u32, 4),
    ensures
        r == (CanonicalValue::List { ptr: align_up(old(mem)@.next, 4), len: values@.len() as u32 }),
        final(mem)@ == (MemView {
            data: write_words(old(mem)@.data, align_up(old(mem)@.next, 4) as int, values@),
            next: (align_up(old(mem)@.next, 4) + values@.len() * 4) as u32,
        }),
{
    let byte_len = (values.len() * 4) as u32;
    let ptr = mem.allocate(byte_len, 4);
    let ghost next_after = mem@.next;
    let mut i: usize = 0;
    while i < values.len()
        invariant
            i <= values@.len(),
            values@.len() * 4 <= u32::MAX,
            ptr + values@.len() * 4 <= u32::MAX,
            mem@.next == next_after,
            mem@.data == write_words(old(mem)@.data, ptr as int, values@.subrange(0, i as int)),
        decreases values@.len() - i,
    {
        mem.write_u32(ptr + (i as u32) * 4, values[i]);
        proof {
            let t = values@.subrange(0, i + 1);
            assert(t.drop_last() =~= values@.subrange(0, i as int));
        }
        i = i + 1;
    }
    proof {
        assert(values@.subrange(0, values@.len() as int) =~= values@);
    }
    CanonicalValue::List { ptr, len: values.len() as u32 }
}

/// Lifts a string from memory: `None` when the range is out of memory or
/// the bytes are not UTF-8.
pub fn lift_string(mem: &LinearMemory, ptr: u32, len: u32) -> (r: Option<String>)
    requires
        ptr + len <= usize::MAX,
    ensures
        ({
            let b = mem_read(mem@.data, ptr as int, len as int);
            &&& b.len() != len ==> r is None
            &&& b.len() == len ==> (r is Some <==> valid_utf8(b))
            &&& r matches Some(s) ==> s@ == decode_utf8(b)
        }),
{
    let bytes = mem.read_bytes(ptr, len);
    if bytes.len() == len as usize {
        from_utf8(bytes.as_slice())
    } else {
        None
    }
}

/// Lifts a byte list from memory (empty when out of range).
pub fn lift_list_u8(mem: &LinearMemory, ptr: u32, len: u32) -> (r: Vec<u8>)
    requires
        ptr + len <= usize::MAX,
    ensures
        r@ == mem_read(mem@.data, ptr as int, len as int),
{
    mem.read_bytes(ptr, len)
}

/// Lifts `len` 32-bit values stored from `ptr` on.
pub fn lift_list_u32(mem: &LinearMemory, ptr: u32, len: u32) -> (r: Vec<u32>)
    requires
        len > 0 ==> ptr + 4 * (len - 1) <= u32::MAX,
        ptr + 4 * len + 4 <= usize::MAX,
    ensures
        r@ == Seq::new(len as nat, |i: int| mem_read_u32(mem@.data, ptr + 4 * i)),
{
    let mut out: Vec<u32> = Vec::new();
    let mut i: u32 = 0;
    while i < len
        invariant
            i <= len,
            len > 0 ==> ptr + 4 * (len - 1) <= u32::MAX,
            ptr + 4 * len + 4 <= usize::MAX,
            out@ =~= Seq::new(i as nat, |k: int| mem_read_u32(mem@.data, ptr + 4 * k)),
        decreases len - i,
    {
        out.push(mem.read_u32(ptr + i * 4));
        i = i + 1;
    }
    out
}

/// Allocates for the host, as `cabi_realloc(old_ptr, old_size, align,
/// new_size)` does; the bump allocator never reuses memory.
pub fn cabi_realloc(mem: &mut LinearMemory, _old_ptr: u32, _old_size: u32, align: u32, new_size: u32) -> (ptr: u32)
    requires
        alloc_pre(old(mem)@, new_size, align),
    ensures
        ptr == align_up(old(mem)@.next, align),
        final(mem)@ == (MemView { data: old(mem)@.data, next: (ptr + new_size) as u32 }),
{
    mem.allocate(new_size, align)
}

/// What lowering a string and lifting it back gives: the same string, when
/// it fits in memory.
pub proof fn law_string_roundtrip(m: MemView, s: Seq<char>)
    requires
        m.next + encode_utf8(s).len() <= m.data.len(),
    ensures
        ({
            let data = mem_write(m.data, m.next as int, encode_utf8(s));
            let b = mem_read(data, m.next as int, encode_utf8(s).len() as int);
            b == encode_utf8(s) && valid_utf8(b) && decode_utf8(b) == s
        }),
{
    let e = encode_utf8(s);
    let data = mem_write(m.data, m.next as int, e);
    assert(mem_read(data, m.next as int, e.len() as int) =~= e);
    encode_utf8_valid_utf8(s);
    encode_utf8_decode_utf8(s);
}

/// Lowering a string that fits in memory writes it where `lift_string`
/// reads it back unchanged, and leaves every byte below the old allocation
/// mark as it was, so values lowered before it are kept.
pub proof fn law_lower_string_keeps_earlier(m: MemView, s: Seq<char>, q: int, k: int)
    requires
        m.next + encode_utf8(s).len() <= m.data.len(),
        0 <= q,
        0 <= k,
        q + k <= m.next,
    ensures
        ({
            let data = mem_write(m.data, m.next as int, encode_utf8(s));
            let b = mem_read(data, m.next as int, encode_utf8(s).len() as int);
            &&& b.len() == encode_utf8(s).len()
            &&& valid_utf8(b)
            &&& decode_utf8(b) == s
            &&& mem_read(data, q, k) == mem_read(m.data, q, k)
        }),
{
    law_string_roundtrip(m, s);
    let e = encode_utf8(s);
    let data = mem_write(m.data, m.next as int, e);
    assert(data.len() == m.data.len());
    assert(mem_read(data, q, k) =~= mem_read(m.data, q, k));
}

// ═════════════════════════════════════════════════════════════════════
// Post-return cleanup
// ═════════════════════════════════════════════════════════════════════

/// Allocations to free after a function returns.
#[derive(Debug)]
pub struct PostReturnTracker {
    pending: Vec<(u32, u32)>,
}

impl PostReturnTracker {
    /// The pending (address, size) pairs, in order.
    pub closed spec fn pending_view(&self) -> Seq<(u32, u32)> {
        self.pending@
    }

    /// An empty tracker.
    pub fn new() -> (t: Self)
        ensures
            t.pending_view() == Seq::<(u32, u32)>::empty(),
    {
        PostReturnTracker { pending: Vec::new() }
    }

    /// Registers an allocation.
    pub fn register(&mut self, ptr: u32, size: u32)
        ensures
            final(self).pending_view() == old(self).pending_view().push((ptr, size)),
    {
        self.pending.push((ptr, size));
    }

    /// All pending cleanups, in order of registration; the tracker is empty
    /// afterwards.
    pub fn drain(&mut self) -> (r: Vec<(u32, u32)>)
        ensures
            r@ == old(self).pending_view(),
            final(self).pending_view() == Seq::<(u32, u32)>::empty(),
    {
        let mut taken: Vec<(u32, u32)> = Vec::new();
        std::mem::swap(&mut taken, &mut self.pending);
        taken
    }

    /// The number of pending cleanups.
    pub fn pending_count(&self) -> (n: usize)
        ensures
            n == self.pending_view().len(),
    {
        self.pending.len()
    }
}

impl Default for PostReturnTracker {
    fn default() -> (t: Self)
        ensures
            t.pending_view() == Seq::<(u32, u32)>::empty(),
    {
        Self::new()
    }
}


// ═════════════════════════════════════════════════════════════════════
// Validation
// ═════════════════════════════════════════════════════════════════════

/// A validation error.
#[derive(Debug, Clone, PartialEq)]
pub struct ComponentValidationError {
    /// Error message.
    pub message: String,
}

impl ComponentValidationError {
    /// The text of this error.
    pub fn to_string(&self) -> (s: String)
        ensures
            s@ == "component validation error: "@ + self.message@,
    {
        let mut s = owned("component validation error: ");
        push_str(&mut s, self.message.as_str());
        s
    }
}

/// A validation report.
#[derive(Debug, Clone)]
pub struct ComponentValidationReport {
    /// Whether the component is valid overall.
    pub valid: bool,
    /// Magic bytes correct.
    pub magic_valid: bool,
    /// Version correct.
    pub version_valid: bool,
    /// Has a core module section.
    pub has_core_module: bool,
    /// Has a type section.
    pub has_type_section: bool,
    /// Has an import section.
    pub has_import_section: bool,
    /// Has an export section.
    pub has_export_section: bool,
    /// Number of sections.
    pub section_count: usize,
    /// Total binary size.
    pub total_size: usize,
}

impl Default for ComponentValidationReport {
    fn default() -> (r: Self)
        ensures
            !r.valid && !r.magic_valid && !r.version_valid && !r.has_core_module && !r.has_type_section
                && !r.has_import_section && !r.has_export_section && r.section_count == 0 && r.total_size == 0,
    {
        ComponentValidationReport {
            valid: false,
            magic_valid: false,
            version_valid: false,
            has_core_module: false,
            has_type_section: false,
            has_import_section: false,
            has_export_section: false,
            section_count: 0,
            total_size: 0,
        }
    }
}

/// `true` or `false`.
pub open spec fn bool_text(b: bool) -> Seq<char> {
    if b {
        "true"@
    } else {
        "false"@
    }
}

/// The text of a validation report.
pub open spec fn report_text(r: ComponentValidationReport) -> Seq<char> {
    "Component Validation Report\n"@ + "  Valid: "@ + bool_text(r.valid) + "\n"@ + "  Size: "@ + dec(
        r.total_size as nat,
    ) + " bytes\n"@ + "  Sections: "@ + dec(r.section_count as nat) + "\n"@ + "  Core module: "@
        + bool_text(r.has_core_module) + "\n"@ + "  Types: "@ + bool_text(r.has_type_section) + "\n"@
        + "  Imports: "@ + bool_text(r.has_import_section) + "\n"@ + "  Exports: "@ + bool_text(
        r.has_export_section,
    ) + "\n"@
}

fn push_bool(s: &mut String, b: bool)
    ensures
        final(s)@ == old(s)@ + bool_text(b),
{
    if b {
        push_str(s, "true");
    } else {
        push_str(s, "false");
    }
}

impl ComponentValidationReport {
    /// The text of this report, one line per fact.
    pub fn to_string(&self) -> (s: String)
        ensures
            s@ == report_text(*self),
    {
        let mut s = owned("Component Validation Report\n");
        push_str(&mut s, "  Valid: ");
        push_bool(&mut s, self.valid);
        push_str(&mut s, "\n");
        push_str(&mut s, "  Size: ");
        push_dec(&mut s, self.total_size as u64);
        push_str(&mut s, " bytes\n");
        push_str(&mut s, "  Sections: ");
        push_dec(&mut s, self.section_count as u64);
        push_str(&mut s, "\n");
        push_str(&mut s, "  Core module: ");
        push_bool(&mut s, self.has_core_module);
        push_str(&mut s, "\n");
        push_str(&mut s, "  Types: ");
        push_bool(&mut s, self.has_type_section);
        push_str(&mut s, "\n");
        push_str(&mut s, "  Imports: ");
        push_bool(&mut s, self.has_import_section);
        push_str(&mut s, "\n");
        push_str(&mut s, "  Exports: ");
        push_bool(&mut s, self.has_export_section);
        push_str(&mut s, "\n");
        proof {
            assert(s@ =~= report_text(*self));
        }
        s
    }
}

/// The ids of the sections that follow position `pos`: each section is an
/// id byte, a LEB128 size, and that many bytes.
pub open spec fn section_ids(bytes: Seq<u8>, pos: int) -> Seq<u8>
    decreases bytes.len() - pos,
{
    if 0 <= pos < bytes.len() {
        let r = leb_read(bytes.subrange(pos + 1, bytes.len() as int));
        let next = pos + 1 + r.1 + r.0;
        seq![bytes[pos]] + if next < bytes.len() {
            section_ids(bytes, next)
        } else {
            Seq::empty()
        }
    } else {
        Seq::empty()
    }
}

/// The message for a component that is too short, has a wrong magic, or a
/// wrong layer byte; `None` for a good header.
pub open spec fn header_error(bytes: Seq<u8>) -> Option<Seq<char>> {
    if bytes.len() < 8 {
        Some("component too short (< 8 bytes)"@)
    } else if bytes.subrange(0, 4) != seq![0x00u8, 0x61u8, 0x73u8, 0x6Du8] {
        Some("invalid magic bytes (expected \\0asm)"@)
    } else if bytes[4] != 0x0D {
        Some("expected component layer 0x0d, got 0x"@ + zero_pad(hex(bytes[4] as nat), 2))
    } else {
        None
    }
}

/// Validates a component binary: its header, then its section layout.
pub fn validate_component(bytes: &[u8]) -> (r: Result<ComponentValidationReport, ComponentValidationError>)
    ensures
        match header_error(bytes@) {
            Some(m) => r matches Err(e) && e.message@ == m,
            None => r matches Ok(rep) && {
                let ids = section_ids(bytes@, 8);
                &&& rep.valid && rep.magic_valid && rep.version_valid
                &&& rep.total_size == bytes@.len()
                &&& rep.section_count == ids.len()
                &&& rep.has_core_module == ids.contains(0x00)
                &&& rep.has_type_section == ids.contains(0x01)
                &&& rep.has_import_section == ids.contains(0x02)
                &&& rep.has_export_section == ids.contains(0x03)
            },
        },
{
    if bytes.len() < 8 {
        return Err(ComponentValidationError { message: owned("component too short (< 8 bytes)") });
    }
    if bytes[0] != 0x00 || bytes[1] != 0x61 || bytes[2] != 0x73 || bytes[3] != 0x6D {
        proof {
            assert(bytes@.subrange(0, 4) != seq![0x00u8, 0x61u8, 0x73u8, 0x6Du8]) by {
                if bytes@.subrange(0, 4) == seq![0x00u8, 0x61u8, 0x73u8, 0x6Du8] {
                    assert(bytes@.subrange(0, 4)[0] == bytes@[0]);
                    assert(bytes@.subrange(0, 4)[1] == bytes@[1]);
                    assert(bytes@.subrange(0, 4)[2] == bytes@[2]);
                    assert(bytes@.subrange(0, 4)[3] == bytes@[3]);
                }
            }
        }
        return Err(ComponentValidationError { message: owned("invalid magic bytes (expected \\0asm)") });
    }
    proof {
        assert(bytes@.subrange(0, 4) =~= seq![0x00u8, 0x61u8, 0x73u8, 0x6Du8]);
    }
    if bytes[4] != 0x0D {
        let mut m = owned("expected component layer 0x0d, got 0x");
        if bytes[4] < 16 {
            push_str(&mut m, "0");
        }
        push_hex(&mut m, bytes[4] as u64);
        proof {
            reveal_strlit("0");
            crate::text::lemma_hex_len(bytes@[4] as nat);
            assert(m@ =~= "expected component layer 0x0d, got 0x"@ + zero_pad(hex(bytes@[4] as nat), 2));
        }
        return Err(ComponentValidationError { message: m });
    }
    let mut count: usize = 0;
    let mut has_core = false;
    let mut has_type = false;
    let mut has_import = false;
    let mut has_export = false;
    let mut pos: usize = 8;
    let ghost all = section_ids(bytes@, 8);
    let ghost mut seen: Seq<u8> = Seq::empty();
    while pos < bytes.len()
        invariant
            8 <= pos <= bytes@.len(),
            all == section_ids(bytes@, 8),
            all == seen + section_ids(bytes@, pos as int),
            count == seen.len(),
            seen.len() <= pos - 8,
            has_core == seen.contains(0x00),
            has_type == seen.contains(0x01),
            has_import == seen.contains(0x02),
            has_export == seen.contains(0x03),
        decreases bytes@.len() - pos,
    {
        let section_id = bytes[pos];
        let (size, consumed) = read_leb128_at(bytes, pos + 1);
        proof {
            let next = pos + 1 + consumed + size;
            let rest = if next < bytes@.len() {
                section_ids(bytes@, next)
            } else {
                Seq::<u8>::empty()
            };
            assert(section_ids(bytes@, pos as int) == seq![section_id] + rest);
            assert(seen + section_ids(bytes@, pos as int) =~= seen.push(section_id) + rest);
            assert forall|x: u8| seen.push(section_id).contains(x) <==> (seen.contains(x) || x == section_id) by {
                if seen.push(section_id).contains(x) {
                    let j = choose|j: int| 0 <= j < seen.push(section_id).len() && seen.push(section_id)[j] == x;
                    if j < seen.len() {
                        assert(seen[j] == x);
                    }
                }
                if seen.contains(x) {
                    let j = choose|j: int| 0 <= j < seen.len() && seen[j] == x;
                    assert(seen.push(section_id)[j] == x);
                }
                if x == section_id {
                    assert(seen.push(section_id)[seen.len() as int] == x);
                }
            }
            seen = seen.push(section_id);
        }
        count = count + 1;
        if section_id == 0x00 {
            has_core = true;
        } else if section_id == 0x01 {
            has_type = true;
        } else if section_id == 0x02 {
            has_import = true;
        } else if section_id == 0x03 {
            has_export = true;
        }
        let after = pos + 1 + consumed;
        if (size as usize) >= bytes.len() - after {
            pos = bytes.len();
            proof {
                assert(section_ids(bytes@, pos as int) =~= Seq::<u8>::empty());
            }
        } else {
            pos = after + size as usize;
        }
    }
    proof {
        assert(section_ids(bytes@, pos as int) =~= Seq::<u8>::empty());
        assert(all =~= seen);
    }
    Ok(ComponentValidationReport {
        valid: true,
        magic_valid: true,
        version_valid: true,
        has_core_module: has_core,
        has_type_section: has_type,
        has_import_section: has_import,
        has_export_section: has_export,
        section_count: count,
        total_size: bytes.len(),
    })
}


/// The sections `parts` (id and data) one after another.
pub open spec fn concat_sections(parts: Seq<(u8, Seq<u8>)>) -> Seq<u8>
    decreases parts.len(),
{
    if parts.len() == 0 {
        Seq::empty()
    } else {
        section(parts[0].0, parts[0].1) + concat_sections(parts.drop_first())
    }
}

/// The sections a component has: core module, types, imports, exports, in
/// that order, each only when present.
pub open spec fn present_sections(b: BuilderView) -> Seq<(u8, Seq<u8>)> {
    (match b.core {
        Some(m) => seq![(0x00u8, m)],
        None => Seq::empty(),
    }) + (if b.types.len() > 0 {
        seq![(0x01u8, count_bytes(b.types.len()) + types_bytes(b.types, 0))]
    } else {
        Seq::empty()
    }) + (if b.imports.len() > 0 {
        seq![(0x02u8, count_bytes(b.imports.len()) + imports_bytes(b.imports, 0))]
    } else {
        Seq::empty()
    }) + (if b.exports.len() > 0 {
        seq![(0x03u8, count_bytes(b.exports.len()) + exports_bytes(b.exports, 0))]
    } else {
        Seq::empty()
    })
}

proof fn lemma_concat_sections_append(a: Seq<(u8, Seq<u8>)>, b: Seq<(u8, Seq<u8>)>)
    ensures
        concat_sections(a + b) == concat_sections(a) + concat_sections(b),
    decreases a.len(),
{
    if a.len() == 0 {
        assert(a + b =~= b);
    } else {
        assert((a + b).drop_first() =~= a.drop_first() + b);
        lemma_concat_sections_append(a.drop_first(), b);
        assert(concat_sections(a + b) =~= concat_sections(a) + concat_sections(b));
    }
}

proof fn lemma_concat_single(id: u8, data: Seq<u8>)
    ensures
        concat_sections(seq![(id, data)]) == section(id, data),
{
    let one = seq![(id, data)];
    assert(one.drop_first() =~= Seq::<(u8, Seq<u8>)>::empty());
    assert(one[0] == (id, data));
    assert(concat_sections(one.drop_first()) == Seq::<u8>::empty());
    assert(concat_sections(one) == section(id, data) + concat_sections(one.drop_first()));
    assert(section(id, data) + Seq::<u8>::empty() =~= section(id, data));
}

/// Walking sections laid out one after another finds their ids in order.
proof fn lemma_walk_sections(pre: Seq<u8>, parts: Seq<(u8, Seq<u8>)>)
    requires
        forall|i: int| 0 <= i < parts.len() ==> (#[trigger] parts[i]).1.len() <= u32::MAX,
    ensures
        section_ids(pre + concat_sections(parts), pre.len() as int) == parts.map_values(|p: (u8, Seq<u8>)| p.0),
    decreases parts.len(),
{
    let bytes = pre + concat_sections(parts);
    let pos = pre.len() as int;
    if parts.len() == 0 {
        assert(parts.map_values(|p: (u8, Seq<u8>)| p.0) =~= Seq::<u8>::empty());
    } else {
        let id = parts[0].0;
        let data = parts[0].1;
        let rest = concat_sections(parts.drop_first());
        let len32 = data.len() as u32;
        assert(len32 as nat == data.len());
        let lb = leb128(len32 as nat);
        assert(bytes.subrange(pos + 1, bytes.len() as int) =~= lb + (data + rest));
        law_leb128_roundtrip(len32, data + rest);
        let pre2 = pre + section(id, data);
        assert(bytes =~= pre2 + rest);
        assert forall|i: int| 0 <= i < parts.drop_first().len() implies (#[trigger] parts.drop_first()[i]).1.len()
            <= u32::MAX by {
            assert(parts.drop_first()[i] == parts[i + 1]);
        }
        lemma_walk_sections(pre2, parts.drop_first());
        assert(bytes[pos] == id);
        let ids = parts.map_values(|p: (u8, Seq<u8>)| p.0);
        assert(ids =~= seq![id] + parts.drop_first().map_values(|p: (u8, Seq<u8>)| p.0));
        if rest.len() == 0 {
            assert(parts.drop_first().len() == 0) by {
                if parts.drop_first().len() > 0 {
                    assert(concat_sections(parts.drop_first()).len() >= 1);
                }
            }
            assert(parts.drop_first().map_values(|p: (u8, Seq<u8>)| p.0) =~= Seq::<u8>::empty());
        }
    }
}

/// The binary of a component is its header followed by its present
/// sections.
#[verifier::spinoff_prover]
#[verifier::rlimit(60)]
proof fn lemma_component_layout(b: BuilderView)
    ensures
        component_bytes(b) == component_header() + concat_sections(present_sections(b)),
{
    let c = match b.core {
        Some(m) => seq![(0x00u8, m)],
        None => Seq::<(u8, Seq<u8>)>::empty(),
    };
    let t = if b.types.len() > 0 {
        seq![(0x01u8, count_bytes(b.types.len()) + types_bytes(b.types, 0))]
    } else {
        Seq::<(u8, Seq<u8>)>::empty()
    };
    let i = if b.imports.len() > 0 {
        seq![(0x02u8, count_bytes(b.imports.len()) + imports_bytes(b.imports, 0))]
    } else {
        Seq::<(u8, Seq<u8>)>::empty()
    };
    let e = if b.exports.len() > 0 {
        seq![(0x03u8, count_bytes(b.exports.len()) + exports_bytes(b.exports, 0))]
    } else {
        Seq::<(u8, Seq<u8>)>::empty()
    };
    lemma_concat_sections_append(c + t + i, e);
    lemma_concat_sections_append(c + t, i);
    lemma_concat_sections_append(c, t);
    match b.core {
        Some(m) => lemma_concat_single(0x00, m),
        None => {},
    }
    if b.types.len() > 0 {
        lemma_concat_single(0x01, count_bytes(b.types.len()) + types_bytes(b.types, 0));
    }
    if b.imports.len() > 0 {
        lemma_concat_single(0x02, count_bytes(b.imports.len()) + imports_bytes(b.imports, 0));
    }
    if b.exports.len() > 0 {
        lemma_concat_single(0x03, count_bytes(b.exports.len()) + exports_bytes(b.exports, 0));
    }
    assert(concat_sections(Seq::<(u8, Seq<u8>)>::empty()) == Seq::<u8>::empty());
    assert(component_bytes(b) =~= component_header() + concat_sections(present_sections(b)));
}

/// Validating what `build` wrote: the header is accepted, and the walk finds
/// exactly the sections the builder holds, in order.
#[verifier::spinoff_prover]
#[verifier::rlimit(60)]
pub proof fn law_validate_built(b: BuilderView)
    requires
        forall|i: int| 0 <= i < present_sections(b).len() ==> (#[trigger] present_sections(b)[i]).1.len()
            <= u32::MAX,
    ensures
        header_error(component_bytes(b)) is None,
        section_ids(component_bytes(b), 8) == present_sections(b).map_values(|p: (u8, Seq<u8>)| p.0),
        section_ids(component_bytes(b), 8).contains(0x00) <==> b.core is Some,
        section_ids(component_bytes(b), 8).contains(0x01) <==> b.types.len() > 0,
        section_ids(component_bytes(b), 8).contains(0x02) <==> b.imports.len() > 0,
        section_ids(component_bytes(b), 8).contains(0x03) <==> b.exports.len() > 0,
{
    lemma_component_layout(b);
    let bytes = component_bytes(b);
    let h = component_header();
    assert(bytes.subrange(0, 4) =~= seq![0x00u8, 0x61u8, 0x73u8, 0x6Du8]);
    assert(bytes[4] == 0x0D);
    lemma_walk_sections(h, present_sections(b));
    let ids = present_sections(b).map_values(|p: (u8, Seq<u8>)| p.0);
    let c: Seq<u8> = if b.core is Some { seq![0x00u8] } else { Seq::empty() };
    let t: Seq<u8> = if b.types.len() > 0 { seq![0x01u8] } else { Seq::empty() };
    let i: Seq<u8> = if b.imports.len() > 0 { seq![0x02u8] } else { Seq::empty() };
    let e: Seq<u8> = if b.exports.len() > 0 { seq![0x03u8] } else { Seq::empty() };
    assert(ids =~= c + t + i + e);
    let all = c + t + i + e;
    assert(all.contains(0x00) <==> b.core is Some) by {
        if b.core is Some {
            assert(all[0] == 0x00);
        }
    }
    assert(all.contains(0x01) <==> b.types.len() > 0) by {
        if b.types.len() > 0 {
            assert(all[c.len() as int] == 0x01);
        }
    }
    assert(all.contains(0x02) <==> b.imports.len() > 0) by {
        if b.imports.len() > 0 {
            assert(all[(c.len() + t.len()) as int] == 0x02);
        }
    }
    assert(all.contains(0x03) <==> b.exports.len() > 0) by {
        if b.exports.len() > 0 {
            assert(all[(c.len() + t.len() + i.len()) as int] == 0x03);
        }
    }
}

} // verus!
