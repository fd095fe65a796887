//! WIT lexer: turns `.wit` source text into a stream of `WitToken`s.
//!
//! Handles the WIT keywords (`package`, `world`, `interface`, `resource`,
//! `use`, `func`, `record`, `enum`, `variant`, `flags`, `type`, `static`,
//! `constructor`, `own`, `borrow`, `import`, `export`, `include`), the
//! primitive type names, symbols, identifiers, semantic versions, integers
//! and comments. The scanner is specified by `spec_token_at` (one token) and
//! `spec_lex` (a whole source); the executable lexer is proved to compute
//! exactly that.

use vstd::prelude::*;
use vstd::string::StringSliceAdditionalSpecFns;
use crate::text::{
    ascii_chars, dec, dec_string, from_utf8_lossy, owned, push_char, push_dec, push_str, str_eq,
    utf8_lossy,
};

verus! {

// ═════════════════════════════════════════════════════════════════════
// Token types
// ═════════════════════════════════════════════════════════════════════

/// A token produced by the WIT lexer.
#[derive(Debug, Clone, PartialEq)]
pub struct WitToken {
    /// The kind of token.
    pub kind: WitTokenKind,
    /// The byte offset in the source where this token starts.
    pub offset: usize,
    /// The length of this token in bytes.
    pub len: usize,
}

/// All possible WIT token kinds.
#[derive(Debug, Clone, PartialEq)]
pub enum WitTokenKind {
    Package,
    World,
    Interface,
    Resource,
    Use,
    Func,
    Record,
    Enum,
    Variant,
    Flags,
    Type,
    Static,
    Constructor,
    Own,
    Borrow,
    Import,
    Export,
    Include,
    U8,
    U16,
    U32,
    U64,
    S8,
    S16,
    S32,
    S64,
    F32,
    F64,
    Bool,
    Char,
    StringKw,
    List,
    Option_,
    Result_,
    Tuple_,
    Colon,
    Semicolon,
    Comma,
    Dot,
    Slash,
    At,
    Equals,
    Arrow,
    Star,
    LBrace,
    RBrace,
    LParen,
    RParen,
    LAngle,
    RAngle,
    /// An identifier.
    Ident(String),
    /// Semantic version string, e.g. "0.2.0".
    SemVer(String),
    /// Integer literal.
    Integer(u64),
    /// Single-line comment `// ...`.
    Comment(String),
    /// Documentation comment `/// ...`.
    DocComment(String),
    /// End of file.
    Eof,
}

/// The mathematical value of a token kind: strings become character sequences.
pub enum TokenKindView {
    Package,
    World,
    Interface,
    Resource,
    Use,
    Func,
    Record,
    Enum,
    Variant,
    Flags,
    Type,
    Static,
    Constructor,
    Own,
    Borrow,
    Import,
    Export,
    Include,
    U8,
    U16,
    U32,
    U64,
    S8,
    S16,
    S32,
    S64,
    F32,
    F64,
    Bool,
    Char,
    StringKw,
    List,
    Option_,
    Result_,
    Tuple_,
    Colon,
    Semicolon,
    Comma,
    Dot,
    Slash,
    At,
    Equals,
    Arrow,
    Star,
    LBrace,
    RBrace,
    LParen,
    RParen,
    LAngle,
    RAngle,
    Ident(Seq<char>),
    SemVer(Seq<char>),
    Integer(u64),
    Comment(Seq<char>),
    DocComment(Seq<char>),
    Eof,
}

impl View for WitTokenKind {
    type V = TokenKindView;

    open spec fn view(&self) -> TokenKindView {
        match self {
            WitTokenKind::Package => TokenKindView::Package,
            WitTokenKind::World => TokenKindView::World,
            WitTokenKind::Interface => TokenKindView::Interface,
            WitTokenKind::Resource => TokenKindView::Resource,
            WitTokenKind::Use => TokenKindView::Use,
            WitTokenKind::Func => TokenKindView::Func,
            WitTokenKind::Record => TokenKindView::Record,
            WitTokenKind::Enum => TokenKindView::Enum,
            WitTokenKind::Variant => TokenKindView::Variant,
            WitTokenKind::Flags => TokenKindView::Flags,
            WitTokenKind::Type => TokenKindView::Type,
            WitTokenKind::Static => TokenKindView::Static,
            WitTokenKind::Constructor => TokenKindView::Constructor,
            WitTokenKind::Own => TokenKindView::Own,
            WitTokenKind::Borrow => TokenKindView::Borrow,
            WitTokenKind::Import => TokenKindView::Import,
            WitTokenKind::Export => TokenKindView::Export,
            WitTokenKind::Include => TokenKindView::Include,
            WitTokenKind::U8 => TokenKindView::U8,
            WitTokenKind::U16 => TokenKindView::U16,
            WitTokenKind::U32 => TokenKindView::U32,
            WitTokenKind::U64 => TokenKindView::U64,
            WitTokenKind::S8 => TokenKindView::S8,
            WitTokenKind::S16 => TokenKindView::S16,
            WitTokenKind::S32 => TokenKindView::S32,
            WitTokenKind::S64 => TokenKindView::S64,
            WitTokenKind::F32 => TokenKindView::F32,
            WitTokenKind::F64 => TokenKindView::F64,
            WitTokenKind::Bool => TokenKindView::Bool,
            WitTokenKind::Char => TokenKindView::Char,
            WitTokenKind::StringKw => TokenKindView::StringKw,
            WitTokenKind::List => TokenKindView::List,
            WitTokenKind::Option_ => TokenKindView::Option_,
            WitTokenKind::Result_ => TokenKindView::Result_,
            WitTokenKind::Tuple_ => TokenKindView::Tuple_,
            WitTokenKind::Colon => TokenKindView::Colon,
            WitTokenKind::Semicolon => TokenKindView::Semicolon,
            WitTokenKind::Comma => TokenKindView::Comma,
            WitTokenKind::Dot => TokenKindView::Dot,
            WitTokenKind::Slash => TokenKindView::Slash,
            WitTokenKind::At => TokenKindView::At,
            WitTokenKind::Equals => TokenKindView::Equals,
            WitTokenKind::Arrow => TokenKindView::Arrow,
            WitTokenKind::Star => TokenKindView::Star,
            WitTokenKind::LBrace => TokenKindView::LBrace,
            WitTokenKind::RBrace => TokenKindView::RBrace,
            WitTokenKind::LParen => TokenKindView::LParen,
            WitTokenKind::RParen => TokenKindView::RParen,
            WitTokenKind::LAngle => TokenKindView::LAngle,
            WitTokenKind::RAngle => TokenKindView::RAngle,
            WitTokenKind::Ident(s) => TokenKindView::Ident(s@),
            WitTokenKind::SemVer(s) => TokenKindView::SemVer(s@),
            WitTokenKind::Integer(n) => TokenKindView::Integer(*n),
            WitTokenKind::Comment(s) => TokenKindView::Comment(s@),
            WitTokenKind::DocComment(s) => TokenKindView::DocComment(s@),
            WitTokenKind::Eof => TokenKindView::Eof,
        }
    }
}

/// The mathematical value of a token.
pub struct TokenView {
    pub kind: TokenKindView,
    pub offset: int,
    pub len: int,
}

impl View for WitToken {
    type V = TokenView;

    open spec fn view(&self) -> TokenView {
        TokenView { kind: self.kind@, offset: self.offset as int, len: self.len as int }
    }
}

impl WitToken {
    /// Creates a new token.
    pub fn new(kind: WitTokenKind, offset: usize, len: usize) -> (t: Self)
        ensures
            t.kind == kind,
            t.offset == offset,
            t.len == len,
    {
        WitToken { kind, offset, len }
    }
}

/// The text a token kind is displayed as.
pub open spec fn kind_text(k: TokenKindView) -> Seq<char> {
    match k {
        TokenKindView::Package => "package"@,
        TokenKindView::World => "world"@,
        TokenKindView::Interface => "interface"@,
        TokenKindView::Resource => "resource"@,
        TokenKindView::Use => "use"@,
        TokenKindView::Func => "func"@,
        TokenKindView::Record => "record"@,
        TokenKindView::Enum => "enum"@,
        TokenKindView::Variant => "variant"@,
        TokenKindView::Flags => "flags"@,
        TokenKindView::Type => "type"@,
        TokenKindView::Static => "static"@,
        TokenKindView::Constructor => "constructor"@,
        TokenKindView::Own => "own"@,
        TokenKindView::Borrow => "borrow"@,
        TokenKindView::Import => "import"@,
        TokenKindView::Export => "export"@,
        TokenKindView::Include => "include"@,
        TokenKindView::U8 => "u8"@,
        TokenKindView::U16 => "u16"@,
        TokenKindView::U32 => "u32"@,
        TokenKindView::U64 => "u64"@,
        TokenKindView::S8 => "s8"@,
        TokenKindView::S16 => "s16"@,
        TokenKindView::S32 => "s32"@,
        TokenKindView::S64 => "s64"@,
        TokenKindView::F32 => "f32"@,
        TokenKindView::F64 => "f64"@,
        TokenKindView::Bool => "bool"@,
        TokenKindView::Char => "char"@,
        TokenKindView::StringKw => "string"@,
        TokenKindView::List => "list"@,
        TokenKindView::Option_ => "option"@,
        TokenKindView::Result_ => "result"@,
        TokenKindView::Tuple_ => "tuple"@,
        TokenKindView::Colon => ":"@,
        TokenKindView::Semicolon => ";"@,
        TokenKindView::Comma => ","@,
        TokenKindView::Dot => "."@,
        TokenKindView::Slash => "/"@,
        TokenKindView::At => "@"@,
        TokenKindView::Equals => "="@,
        TokenKindView::Arrow => "->"@,
        TokenKindView::Star => "*"@,
        TokenKindView::LBrace => "{"@,
        TokenKindView::RBrace => "}"@,
        TokenKindView::LParen => "("@,
        TokenKindView::RParen => ")"@,
        TokenKindView::LAngle => "<"@,
        TokenKindView::RAngle => ">"@,
        TokenKindView::Ident(s) => s,
        TokenKindView::SemVer(s) => s,
        TokenKindView::Integer(n) => dec(n as nat),
        TokenKindView::Comment(c) => "// "@ + c,
        TokenKindView::DocComment(c) => "/// "@ + c,
        TokenKindView::Eof => "EOF"@,
    }
}

impl WitTokenKind {
    /// The text this token kind is displayed as.
    pub fn to_string(&self) -> (s: String)
        ensures
            s@ == kind_text(self@),
    {
        match self {
            WitTokenKind::Package => owned("package"),
            WitTokenKind::World => owned("world"),
            WitTokenKind::Interface => owned("interface"),
            WitTokenKind::Resource => owned("resource"),
            WitTokenKind::Use => owned("use"),
            WitTokenKind::Func => owned("func"),
            WitTokenKind::Record => owned("record"),
            WitTokenKind::Enum => owned("enum"),
            WitTokenKind::Variant => owned("variant"),
            WitTokenKind::Flags => owned("flags"),
            WitTokenKind::Type => owned("type"),
            WitTokenKind::Static => owned("static"),
            WitTokenKind::Constructor => owned("constructor"),
            WitTokenKind::Own => owned("own"),
            WitTokenKind::Borrow => owned("borrow"),
            WitTokenKind::Import => owned("import"),
            WitTokenKind::Export => owned("export"),
            WitTokenKind::Include => owned("include"),
            WitTokenKind::U8 => owned("u8"),
            WitTokenKind::U16 => owned("u16"),
            WitTokenKind::U32 => owned("u32"),
            WitTokenKind::U64 => owned("u64"),
            WitTokenKind::S8 => owned("s8"),
            WitTokenKind::S16 => owned("s16"),
            WitTokenKind::S32 => owned("s32"),
            WitTokenKind::S64 => owned("s64"),
            WitTokenKind::F32 => owned("f32"),
            WitTokenKind::F64 => owned("f64"),
            WitTokenKind::Bool => owned("bool"),
            WitTokenKind::Char => owned("char"),
            WitTokenKind::StringKw => owned("string"),
            WitTokenKind::List => owned("list"),
            WitTokenKind::Option_ => owned("option"),
            WitTokenKind::Result_ => owned("result"),
            WitTokenKind::Tuple_ => owned("tuple"),
            WitTokenKind::Colon => owned(":"),
            WitTokenKind::Semicolon => owned(";"),
            WitTokenKind::Comma => owned(","),
            WitTokenKind::Dot => owned("."),
            WitTokenKind::Slash => owned("/"),
            WitTokenKind::At => owned("@"),
            WitTokenKind::Equals => owned("="),
            WitTokenKind::Arrow => owned("->"),
            WitTokenKind::Star => owned("*"),
            WitTokenKind::LBrace => owned("{"),
            WitTokenKind::RBrace => owned("}"),
            WitTokenKind::LParen => owned("("),
            WitTokenKind::RParen => owned(")"),
            WitTokenKind::LAngle => owned("<"),
            WitTokenKind::RAngle => owned(">"),
            WitTokenKind::Ident(s) => s.clone(),
            WitTokenKind::SemVer(s) => s.clone(),
            WitTokenKind::Integer(n) => dec_string(*n),
            WitTokenKind::Comment(c) => {
                let mut out = owned("// ");
                push_str(&mut out, c.as_str());
                out
            },
            WitTokenKind::DocComment(c) => {
                let mut out = owned("/// ");
                push_str(&mut out, c.as_str());
                out
            },
            WitTokenKind::Eof => owned("EOF"),
        }
    }

    /// A copy of this token kind.
    pub fn duplicate(&self) -> (k: Self)
        ensures
            k@ == self@,
    {
        match self {
            WitTokenKind::Ident(s) => WitTokenKind::Ident(s.clone()),
            WitTokenKind::SemVer(s) => WitTokenKind::SemVer(s.clone()),
            WitTokenKind::Integer(n) => WitTokenKind::Integer(*n),
            WitTokenKind::Comment(s) => WitTokenKind::Comment(s.clone()),
            WitTokenKind::DocComment(s) => WitTokenKind::DocComment(s.clone()),
            WitTokenKind::Package => WitTokenKind::Package,
            WitTokenKind::World => WitTokenKind::World,
            WitTokenKind::Interface => WitTokenKind::Interface,
            WitTokenKind::Resource => WitTokenKind::Resource,
            WitTokenKind::Use => WitTokenKind::Use,
            WitTokenKind::Func => WitTokenKind::Func,
            WitTokenKind::Record => WitTokenKind::Record,
            WitTokenKind::Enum => WitTokenKind::Enum,
            WitTokenKind::Variant => WitTokenKind::Variant,
            WitTokenKind::Flags => WitTokenKind::Flags,
            WitTokenKind::Type => WitTokenKind::Type,
            WitTokenKind::Static => WitTokenKind::Static,
            WitTokenKind::Constructor => WitTokenKind::Constructor,
            WitTokenKind::Own => WitTokenKind::Own,
            WitTokenKind::Borrow => WitTokenKind::Borrow,
            WitTokenKind::Import => WitTokenKind::Import,
            WitTokenKind::Export => WitTokenKind::Export,
            WitTokenKind::Include => WitTokenKind::Include,
            WitTokenKind::U8 => WitTokenKind::U8,
            WitTokenKind::U16 => WitTokenKind::U16,
            WitTokenKind::U32 => WitTokenKind::U32,
            WitTokenKind::U64 => WitTokenKind::U64,
            WitTokenKind::S8 => WitTokenKind::S8,
            WitTokenKind::S16 => WitTokenKind::S16,
            WitTokenKind::S32 => WitTokenKind::S32,
            WitTokenKind::S64 => WitTokenKind::S64,
            WitTokenKind::F32 => WitTokenKind::F32,
            WitTokenKind::F64 => WitTokenKind::F64,
            WitTokenKind::Bool => WitTokenKind::Bool,
            WitTokenKind::Char => WitTokenKind::Char,
            WitTokenKind::StringKw => WitTokenKind::StringKw,
            WitTokenKind::List => WitTokenKind::List,
            WitTokenKind::Option_ => WitTokenKind::Option_,
            WitTokenKind::Result_ => WitTokenKind::Result_,
            WitTokenKind::Tuple_ => WitTokenKind::Tuple_,
            WitTokenKind::Colon => WitTokenKind::Colon,
            WitTokenKind::Semicolon => WitTokenKind::Semicolon,
            WitTokenKind::Comma => WitTokenKind::Comma,
            WitTokenKind::Dot => WitTokenKind::Dot,
            WitTokenKind::Slash => WitTokenKind::Slash,
            WitTokenKind::At => WitTokenKind::At,
            WitTokenKind::Equals => WitTokenKind::Equals,
            WitTokenKind::Arrow => WitTokenKind::Arrow,
            WitTokenKind::Star => WitTokenKind::Star,
            WitTokenKind::LBrace => WitTokenKind::LBrace,
            WitTokenKind::RBrace => WitTokenKind::RBrace,
            WitTokenKind::LParen => WitTokenKind::LParen,
            WitTokenKind::RParen => WitTokenKind::RParen,
            WitTokenKind::LAngle => WitTokenKind::LAngle,
            WitTokenKind::RAngle => WitTokenKind::RAngle,
            WitTokenKind::Eof => WitTokenKind::Eof,
        }
    }

    /// Whether two token kinds are equal (same variant, same payload).
    #[verifier::rlimit(50)]
    pub fn same_as(&self, other: &WitTokenKind) -> (r: bool)
        ensures
            r == (self@ == other@),
    {
        match (self, other) {
            (WitTokenKind::Ident(a), WitTokenKind::Ident(b)) => *a == *b,
            (WitTokenKind::SemVer(a), WitTokenKind::SemVer(b)) => *a == *b,
            (WitTokenKind::Integer(a), WitTokenKind::Integer(b)) => *a == *b,
            (WitTokenKind::Comment(a), WitTokenKind::Comment(b)) => *a == *b,
            (WitTokenKind::DocComment(a), WitTokenKind::DocComment(b)) => *a == *b,
            (WitTokenKind::Package, WitTokenKind::Package) => true,
            (WitTokenKind::World, WitTokenKind::World) => true,
            (WitTokenKind::Interface, WitTokenKind::Interface) => true,
            (WitTokenKind::Resource, WitTokenKind::Resource) => true,
            (WitTokenKind::Use, WitTokenKind::Use) => true,
            (WitTokenKind::Func, WitTokenKind::Func) => true,
            (WitTokenKind::Record, WitTokenKind::Record) => true,
            (WitTokenKind::Enum, WitTokenKind::Enum) => true,
            (WitTokenKind::Variant, WitTokenKind::Variant) => true,
            (WitTokenKind::Flags, WitTokenKind::Flags) => true,
            (WitTokenKind::Type, WitTokenKind::Type) => true,
            (WitTokenKind::Static, WitTokenKind::Static) => true,
            (WitTokenKind::Constructor, WitTokenKind::Constructor) => true,
            (WitTokenKind::Own, WitTokenKind::Own) => true,
            (WitTokenKind::Borrow, WitTokenKind::Borrow) => true,
            (WitTokenKind::Import, WitTokenKind::Import) => true,
            (WitTokenKind::Export, WitTokenKind::Export) => true,
            (WitTokenKind::Include, WitTokenKind::Include) => true,
            (WitTokenKind::U8, WitTokenKind::U8) => true,
            (WitTokenKind::U16, WitTokenKind::U16) => true,
            (WitTokenKind::U32, WitTokenKind::U32) => true,
            (WitTokenKind::U64, WitTokenKind::U64) => true,
            (WitTokenKind::S8, WitTokenKind::S8) => true,
            (WitTokenKind::S16, WitTokenKind::S16) => true,
            (WitTokenKind::S32, WitTokenKind::S32) => true,
            (WitTokenKind::S64, WitTokenKind::S64) => true,
            (WitTokenKind::F32, WitTokenKind::F32) => true,
            (WitTokenKind::F64, WitTokenKind::F64) => true,
            (WitTokenKind::Bool, WitTokenKind::Bool) => true,
            (WitTokenKind::Char, WitTokenKind::Char) => true,
            (WitTokenKind::StringKw, WitTokenKind::StringKw) => true,
            (WitTokenKind::List, WitTokenKind::List) => true,
            (WitTokenKind::Option_, WitTokenKind::Option_) => true,
            (WitTokenKind::Result_, WitTokenKind::Result_) => true,
            (WitTokenKind::Tuple_, WitTokenKind::Tuple_) => true,
            (WitTokenKind::Colon, WitTokenKind::Colon) => true,
            (WitTokenKind::Semicolon, WitTokenKind::Semicolon) => true,
            (WitTokenKind::Comma, WitTokenKind::Comma) => true,
            (WitTokenKind::Dot, WitTokenKind::Dot) => true,
            (WitTokenKind::Slash, WitTokenKind::Slash) => true,
            (WitTokenKind::At, WitTokenKind::At) => true,
            (WitTokenKind::Equals, WitTokenKind::Equals) => true,
            (WitTokenKind::Arrow, WitTokenKind::Arrow) => true,
            (WitTokenKind::Star, WitTokenKind::Star) => true,
            (WitTokenKind::LBrace, WitTokenKind::LBrace) => true,
            (WitTokenKind::RBrace, WitTokenKind::RBrace) => true,
            (WitTokenKind::LParen, WitTokenKind::LParen) => true,
            (WitTokenKind::RParen, WitTokenKind::RParen) => true,
            (WitTokenKind::LAngle, WitTokenKind::LAngle) => true,
            (WitTokenKind::RAngle, WitTokenKind::RAngle) => true,
            (WitTokenKind::Eof, WitTokenKind::Eof) => true,
            _ => false,
        }
    }
}

// ═════════════════════════════════════════════════════════════════════
// Lexer error
// ═════════════════════════════════════════════════════════════════════

/// Error during WIT tokenization.
#[derive(Debug, Clone, PartialEq)]
pub struct WitLexError {
    /// Error message.
    pub message: String,
    /// Byte offset where the error occurred.
    pub offset: usize,
}

impl WitLexError {
    /// The text of this error.
    pub fn to_string(&self) -> (s: String)
        ensures
            s@ == "WIT lex error at offset "@ + dec(self.offset as nat) + ": "@ + self.message@,
    {
        let mut s = owned("WIT lex error at offset ");
        push_dec(&mut s, self.offset as u64);
        push_str(&mut s, ": ");
        push_str(&mut s, self.message.as_str());
        s
    }
}

// ═════════════════════════════════════════════════════════════════════
// The scanner, specified
// ═════════════════════════════════════════════════════════════════════

pub open spec fn is_ws(b: u8) -> bool {
    b == 0x20 || b == 0x09 || b == 0x0a || b == 0x0d
}

pub open spec fn is_digit(b: u8) -> bool {
    0x30 <= b <= 0x39
}

pub open spec fn is_alpha(b: u8) -> bool {
    (0x41 <= b <= 0x5a) || (0x61 <= b <= 0x7a)
}

pub open spec fn is_ident_char(b: u8) -> bool {
    is_alpha(b) || is_digit(b) || b == 0x2d || b == 0x5f
}

pub open spec fn is_prerelease_char(b: u8) -> bool {
    is_alpha(b) || is_digit(b) || b == 0x2e || b == 0x2d
}

/// First position at or after `i` that is not whitespace.
pub open spec fn ws_end(src: Seq<u8>, i: int) -> int
    decreases src.len() - i,
{
    if 0 <= i < src.len() && is_ws(src[i]) {
        ws_end(src, i + 1)
    } else {
        i
    }
}

proof fn lemma_ws_end(src: Seq<u8>, i: int)
    ensures
        i <= ws_end(src, i),
        0 <= i <= src.len() ==> ws_end(src, i) <= src.len(),
    decreases src.len() - i,
{
    if 0 <= i < src.len() && is_ws(src[i]) {
        lemma_ws_end(src, i + 1);
    }
}

/// First position at or after `i` that is not a digit.
pub open spec fn digits_end(src: Seq<u8>, i: int) -> int
    decreases src.len() - i,
{
    if 0 <= i < src.len() && is_digit(src[i]) {
        digits_end(src, i + 1)
    } else {
        i
    }
}

/// First position at or after `i` that is not an identifier character.
pub open spec fn ident_end(src: Seq<u8>, i: int) -> int
    decreases src.len() - i,
{
    if 0 <= i < src.len() && is_ident_char(src[i]) {
        ident_end(src, i + 1)
    } else {
        i
    }
}

/// First position at or after `i` that may not continue a version's pre-release part.
pub open spec fn prerelease_end(src: Seq<u8>, i: int) -> int
    decreases src.len() - i,
{
    if 0 <= i < src.len() && is_prerelease_char(src[i]) {
        prerelease_end(src, i + 1)
    } else {
        i
    }
}

/// First position at or after `i` holding a newline (or the end).
pub open spec fn line_end(src: Seq<u8>, i: int) -> int
    decreases src.len() - i,
{
    if 0 <= i < src.len() && src[i] != 0x0a {
        line_end(src, i + 1)
    } else {
        i
    }
}

/// The value of a run of decimal digits.
pub open spec fn dec_value(ds: Seq<u8>) -> nat
    decreases ds.len(),
{
    if ds.len() == 0 {
        0
    } else {
        dec_value(ds.drop_last()) * 10 + (ds.last() - 48) as nat
    }
}

/// What `str::parse::<u64>().unwrap_or(0)` gives for a run of digits.
pub open spec fn integer_value(ds: Seq<u8>) -> u64 {
    if dec_value(ds) <= u64::MAX {
        dec_value(ds) as u64
    } else {
        0
    }
}

/// The kind of a one-byte symbol.
pub open spec fn symbol_kind(b: u8) -> Option<TokenKindView> {
    if b == 0x3a {
        Some(TokenKindView::Colon)
    } else if b == 0x3b {
        Some(TokenKindView::Semicolon)
    } else if b == 0x2c {
        Some(TokenKindView::Comma)
    } else if b == 0x2e {
        Some(TokenKindView::Dot)
    } else if b == 0x40 {
        Some(TokenKindView::At)
    } else if b == 0x3d {
        Some(TokenKindView::Equals)
    } else if b == 0x2a {
        Some(TokenKindView::Star)
    } else if b == 0x7b {
        Some(TokenKindView::LBrace)
    } else if b == 0x7d {
        Some(TokenKindView::RBrace)
    } else if b == 0x28 {
        Some(TokenKindView::LParen)
    } else if b == 0x29 {
        Some(TokenKindView::RParen)
    } else if b == 0x3c {
        Some(TokenKindView::LAngle)
    } else if b == 0x3e {
        Some(TokenKindView::RAngle)
    } else {
        None
    }
}

/// A word: a keyword, a primitive or built-in type name, or an identifier.
pub open spec fn word_kind(t: Seq<char>) -> TokenKindView {
    if t == "package"@ {
        TokenKindView::Package
    } else if t == "world"@ {
        TokenKindView::World
    } else if t == "interface"@ {
        TokenKindView::Interface
    } else if t == "resource"@ {
        TokenKindView::Resource
    } else if t == "use"@ {
        TokenKindView::Use
    } else if t == "func"@ {
        TokenKindView::Func
    } else if t == "record"@ {
        TokenKindView::Record
    } else if t == "enum"@ {
        TokenKindView::Enum
    } else if t == "variant"@ {
        TokenKindView::Variant
    } else if t == "flags"@ {
        TokenKindView::Flags
    } else if t == "type"@ {
        TokenKindView::Type
    } else if t == "static"@ {
        TokenKindView::Static
    } else if t == "constructor"@ {
        TokenKindView::Constructor
    } else if t == "own"@ {
        TokenKindView::Own
    } else if t == "borrow"@ {
        TokenKindView::Borrow
    } else if t == "import"@ {
        TokenKindView::Import
    } else if t == "export"@ {
        TokenKindView::Export
    } else if t == "include"@ {
        TokenKindView::Include
    } else if t == "u8"@ {
        TokenKindView::U8
    } else if t == "u16"@ {
        TokenKindView::U16
    } else if t == "u32"@ {
        TokenKindView::U32
    } else if t == "u64"@ {
        TokenKindView::U64
    } else if t == "s8"@ {
        TokenKindView::S8
    } else if t == "s16"@ {
        TokenKindView::S16
    } else if t == "s32"@ {
        TokenKindView::S32
    } else if t == "s64"@ {
        TokenKindView::S64
    } else if t == "f32"@ {
        TokenKindView::F32
    } else if t == "f64"@ {
        TokenKindView::F64
    } else if t == "bool"@ {
        TokenKindView::Bool
    } else if t == "char"@ {
        TokenKindView::Char
    } else if t == "string"@ {
        TokenKindView::StringKw
    } else if t == "list"@ {
        TokenKindView::List
    } else if t == "option"@ {
        TokenKindView::Option_
    } else if t == "result"@ {
        TokenKindView::Result_
    } else if t == "tuple"@ {
        TokenKindView::Tuple_
    } else {
        TokenKindView::Ident(t)
    }
}

/// The token that starts with a digit at `s`, and where it ends.
pub open spec fn number_token(src: Seq<u8>, s: int) -> (TokenKindView, int) {
    let n = src.len() as int;
    let a = digits_end(src, s + 1);
    let int_tok = (TokenKindView::Integer(integer_value(src.subrange(s, a))), a);
    if a + 1 < n && src[a] == 0x2e && is_digit(src[a + 1]) {
        let b = digits_end(src, a + 1);
        if b < n && src[b] == 0x2e {
            let c = digits_end(src, b + 1);
            let e = if c < n && src[c] == 0x2d {
                prerelease_end(src, c + 1)
            } else {
                c
            };
            (TokenKindView::SemVer(ascii_chars(src.subrange(s, e))), e)
        } else {
            int_tok
        }
    } else {
        int_tok
    }
}

/// The comment that starts with `//` at `s`, and where it ends.
pub open spec fn comment_token(src: Seq<u8>, s: int) -> (TokenKindView, int) {
    let n = src.len() as int;
    let is_doc = s + 2 < n && src[s + 2] == 0x2f;
    let p = if is_doc {
        s + 3
    } else {
        s + 2
    };
    let cs = if p < n && src[p] == 0x20 {
        p + 1
    } else {
        p
    };
    let e = line_end(src, cs);
    let content = utf8_lossy(src.subrange(cs, e));
    if is_doc {
        (TokenKindView::DocComment(content), e)
    } else {
        (TokenKindView::Comment(content), e)
    }
}

/// The token starting at byte `s` (which is not whitespace), and where it
/// ends; `None` when no token can start with that byte.
pub open spec fn spec_token_at(src: Seq<u8>, s: int) -> Option<(TokenKindView, int)> {
    let n = src.len() as int;
    let b = src[s];
    if b == 0x2f && s + 1 < n && src[s + 1] == 0x2f {
        Some(comment_token(src, s))
    } else if b == 0x2f {
        Some((TokenKindView::Slash, s + 1))
    } else if symbol_kind(b) is Some {
        Some((symbol_kind(b)->0, s + 1))
    } else if b == 0x2d && s + 1 < n && src[s + 1] == 0x3e {
        Some((TokenKindView::Arrow, s + 2))
    } else if is_digit(b) {
        Some(number_token(src, s))
    } else if b == 0x25 {
        let e = ident_end(src, s + 1);
        Some((TokenKindView::Ident(ascii_chars(src.subrange(s + 1, e))), e))
    } else if is_alpha(b) || b == 0x5f {
        let e = ident_end(src, s + 1);
        Some((word_kind(ascii_chars(src.subrange(s, e))), e))
    } else {
        None
    }
}

/// The message for a byte that cannot start a token.
pub open spec fn unexpected_message(b: u8) -> Seq<char> {
    "unexpected character: '"@ + seq![b as char] + "'"@
}

/// The mathematical value of a lexer error: offset and message.
pub struct LexErrorView {
    pub offset: int,
    pub message: Seq<char>,
}

/// The tokens of `src` from position `pos` on: comments are dropped, doc
/// comments are kept, and the last token is `Eof` at the end of the source.
pub open spec fn spec_lex(src: Seq<u8>, pos: int) -> Result<Seq<TokenView>, LexErrorView>
    decreases src.len() - pos,
{
    let s = ws_end(src, pos);
    if pos < 0 || s >= src.len() {
        Ok(seq![TokenView { kind: TokenKindView::Eof, offset: s, len: 0 }])
    } else {
        match spec_token_at(src, s) {
            None => Err(LexErrorView { offset: s, message: unexpected_message(src[s]) }),
            Some((k, e)) => {
                if e <= pos || e > src.len() {
                    Ok(seq![])
                } else if k is Comment {
                    spec_lex(src, e)
                } else {
                    match spec_lex(src, e) {
                        Ok(rest) => Ok(seq![TokenView { kind: k, offset: s, len: e - s }] + rest),
                        Err(err) => Err(err),
                    }
                }
            },
        }
    }
}

// ═════════════════════════════════════════════════════════════════════
// Lexer
// ═════════════════════════════════════════════════════════════════════

/// WIT file tokenizer.
pub struct WitLexer<'src> {
    source: &'src [u8],
    pos: usize,
}

fn byte_is_ws(b: u8) -> (r: bool)
    ensures
        r == is_ws(b),
{
    b == 0x20 || b == 0x09 || b == 0x0a || b == 0x0d
}

fn byte_is_digit(b: u8) -> (r: bool)
    ensures
        r == is_digit(b),
{
    0x30 <= b && b <= 0x39
}

fn byte_is_alpha(b: u8) -> (r: bool)
    ensures
        r == is_alpha(b),
{
    (0x41 <= b && b <= 0x5a) || (0x61 <= b && b <= 0x7a)
}

fn byte_is_ident_char(b: u8) -> (r: bool)
    ensures
        r == is_ident_char(b),
{
    byte_is_alpha(b) || byte_is_digit(b) || b == 0x2d || b == 0x5f
}

fn byte_is_prerelease_char(b: u8) -> (r: bool)
    ensures
        r == is_prerelease_char(b),
{
    byte_is_alpha(b) || byte_is_digit(b) || b == 0x2e || b == 0x2d
}

fn symbol_of(b: u8) -> (r: Option<WitTokenKind>)
    ensures
        match r {
            Some(k) => symbol_kind(b) == Some(k@),
            None => symbol_kind(b) is None,
        },
{
    if b == 0x3a {
        Some(WitTokenKind::Colon)
    } else if b == 0x3b {
        Some(WitTokenKind::Semicolon)
    } else if b == 0x2c {
        Some(WitTokenKind::Comma)
    } else if b == 0x2e {
        Some(WitTokenKind::Dot)
    } else if b == 0x40 {
        Some(WitTokenKind::At)
    } else if b == 0x3d {
        Some(WitTokenKind::Equals)
    } else if b == 0x2a {
        Some(WitTokenKind::Star)
    } else if b == 0x7b {
        Some(WitTokenKind::LBrace)
    } else if b == 0x7d {
        Some(WitTokenKind::RBrace)
    } else if b == 0x28 {
        Some(WitTokenKind::LParen)
    } else if b == 0x29 {
        Some(WitTokenKind::RParen)
    } else if b == 0x3c {
        Some(WitTokenKind::LAngle)
    } else if b == 0x3e {
        Some(WitTokenKind::RAngle)
    } else {
        None
    }
}

/// The lengths of the keywords, and the letters that tell apart keywords
/// of one length.
proof fn lemma_keyword_spellings()
    ensures
        "package"@.len() == 7,
        "package"@[0] == 'p',
        "world"@.len() == 5,
        "world"@[0] == 'w',
        "interface"@.len() == 9,
        "resource"@.len() == 8,
        "use"@.len() == 3,
        "use"@[0] == 'u',
        "use"@[1] == 's',
        "func"@.len() == 4,
        "func"@[0] == 'f',
        "record"@.len() == 6,
        "record"@[0] == 'r',
        "record"@[2] == 'c',
        "enum"@.len() == 4,
        "enum"@[0] == 'e',
        "variant"@.len() == 7,
        "variant"@[0] == 'v',
        "flags"@.len() == 5,
        "flags"@[0] == 'f',
        "type"@.len() == 4,
        "type"@[0] == 't',
        "static"@.len() == 6,
        "static"@[0] == 's',
        "static"@[2] == 'a',
        "constructor"@.len() == 11,
        "own"@.len() == 3,
        "own"@[0] == 'o',
        "borrow"@.len() == 6,
        "borrow"@[0] == 'b',
        "import"@.len() == 6,
        "import"@[0] == 'i',
        "export"@.len() == 6,
        "export"@[0] == 'e',
        "include"@.len() == 7,
        "include"@[0] == 'i',
        "u8"@.len() == 2,
        "u8"@[0] == 'u',
        "u16"@.len() == 3,
        "u16"@[0] == 'u',
        "u16"@[1] == '1',
        "u32"@.len() == 3,
        "u32"@[0] == 'u',
        "u32"@[1] == '3',
        "u64"@.len() == 3,
        "u64"@[0] == 'u',
        "u64"@[1] == '6',
        "s8"@.len() == 2,
        "s8"@[0] == 's',
        "s16"@.len() == 3,
        "s16"@[0] == 's',
        "s16"@[1] == '1',
        "s32"@.len() == 3,
        "s32"@[0] == 's',
        "s32"@[1] == '3',
        "s64"@.len() == 3,
        "s64"@[0] == 's',
        "s64"@[1] == '6',
        "f32"@.len() == 3,
        "f32"@[0] == 'f',
        "f32"@[1] == '3',
        "f64"@.len() == 3,
        "f64"@[0] == 'f',
        "f64"@[1] == '6',
        "bool"@.len() == 4,
        "bool"@[0] == 'b',
        "char"@.len() == 4,
        "char"@[0] == 'c',
        "string"@.len() == 6,
        "string"@[0] == 's',
        "string"@[2] == 'r',
        "list"@.len() == 4,
        "list"@[0] == 'l',
        "option"@.len() == 6,
        "option"@[0] == 'o',
        "result"@.len() == 6,
        "result"@[0] == 'r',
        "result"@[2] == 's',
        "tuple"@.len() == 5,
        "tuple"@[0] == 't',
{
    reveal_strlit("package");
    reveal_strlit("world");
    reveal_strlit("interface");
    reveal_strlit("resource");
    reveal_strlit("use");
    reveal_strlit("func");
    reveal_strlit("record");
    reveal_strlit("enum");
    reveal_strlit("variant");
    reveal_strlit("flags");
    reveal_strlit("type");
    reveal_strlit("static");
    reveal_strlit("constructor");
    reveal_strlit("own");
    reveal_strlit("borrow");
    reveal_strlit("import");
    reveal_strlit("export");
    reveal_strlit("include");
    reveal_strlit("u8");
    reveal_strlit("u16");
    reveal_strlit("u32");
    reveal_strlit("u64");
    reveal_strlit("s8");
    reveal_strlit("s16");
    reveal_strlit("s32");
    reveal_strlit("s64");
    reveal_strlit("f32");
    reveal_strlit("f64");
    reveal_strlit("bool");
    reveal_strlit("char");
    reveal_strlit("string");
    reveal_strlit("list");
    reveal_strlit("option");
    reveal_strlit("result");
    reveal_strlit("tuple");
}

/// Every WIT keyword lexes to its own keyword token, never to an
/// identifier: `package`, `world`, `interface`, `resource`, `use`, `func`,
/// `record`, `enum`, `variant`, `flags`, `type`, `static`, `constructor`,
/// `own`, `borrow`, `import`, `export`, `include`, the primitive type names
/// and `list`, `option`, `result`, `tuple`.
#[verifier::spinoff_prover]
#[verifier::rlimit(100)]
pub proof fn law_keywords_lex_as_keywords()
    ensures
        word_kind("package"@) == TokenKindView::Package,
        word_kind("world"@) == TokenKindView::World,
        word_kind("interface"@) == TokenKindView::Interface,
        word_kind("resource"@) == TokenKindView::Resource,
        word_kind("use"@) == TokenKindView::Use,
        word_kind("func"@) == TokenKindView::Func,
        word_kind("record"@) == TokenKindView::Record,
        word_kind("enum"@) == TokenKindView::Enum,
        word_kind("variant"@) == TokenKindView::Variant,
        word_kind("flags"@) == TokenKindView::Flags,
        word_kind("type"@) == TokenKindView::Type,
        word_kind("static"@) == TokenKindView::Static,
        word_kind("constructor"@) == TokenKindView::Constructor,
        word_kind("own"@) == TokenKindView::Own,
        word_kind("borrow"@) == TokenKindView::Borrow,
        word_kind("import"@) == TokenKindView::Import,
        word_kind("export"@) == TokenKindView::Export,
        word_kind("include"@) == TokenKindView::Include,
        word_kind("u8"@) == TokenKindView::U8,
        word_kind("u16"@) == TokenKindView::U16,
        word_kind("u32"@) == TokenKindView::U32,
        word_kind("u64"@) == TokenKindView::U64,
        word_kind("s8"@) == TokenKindView::S8,
        word_kind("s16"@) == TokenKindView::S16,
        word_kind("s32"@) == TokenKindView::S32,
        word_kind("s64"@) == TokenKindView::S64,
        word_kind("f32"@) == TokenKindView::F32,
        word_kind("f64"@) == TokenKindView::F64,
        word_kind("bool"@) == TokenKindView::Bool,
        word_kind("char"@) == TokenKindView::Char,
        word_kind("string"@) == TokenKindView::StringKw,
        word_kind("list"@) == TokenKindView::List,
        word_kind("option"@) == TokenKindView::Option_,
        word_kind("result"@) == TokenKindView::Result_,
        word_kind("tuple"@) == TokenKindView::Tuple_,
{
    lemma_keyword_spellings();
}

/// The token kinds written as keywords.
pub open spec fn is_keyword_kind(k: TokenKindView) -> bool {
    ||| k == TokenKindView::Package
    ||| k == TokenKindView::World
    ||| k == TokenKindView::Interface
    ||| k == TokenKindView::Resource
    ||| k == TokenKindView::Use
    ||| k == TokenKindView::Func
    ||| k == TokenKindView::Record
    ||| k == TokenKindView::Enum
    ||| k == TokenKindView::Variant
    ||| k == TokenKindView::Flags
    ||| k == TokenKindView::Type
    ||| k == TokenKindView::Static
    ||| k == TokenKindView::Constructor
    ||| k == TokenKindView::Own
    ||| k == TokenKindView::Borrow
    ||| k == TokenKindView::Import
    ||| k == TokenKindView::Export
    ||| k == TokenKindView::Include
    ||| k == TokenKindView::U8
    ||| k == TokenKindView::U16
    ||| k == TokenKindView::U32
    ||| k == TokenKindView::U64
    ||| k == TokenKindView::S8
    ||| k == TokenKindView::S16
    ||| k == TokenKindView::S32
    ||| k == TokenKindView::S64
    ||| k == TokenKindView::F32
    ||| k == TokenKindView::F64
    ||| k == TokenKindView::Bool
    ||| k == TokenKindView::Char
    ||| k == TokenKindView::StringKw
    ||| k == TokenKindView::List
    ||| k == TokenKindView::Option_
    ||| k == TokenKindView::Result_
    ||| k == TokenKindView::Tuple_
}

/// A keyword's displayed text lexes back to the keyword itself.
pub proof fn law_keyword_text_roundtrip(k: TokenKindView)
    requires
        is_keyword_kind(k),
    ensures
        word_kind(kind_text(k)) == k,
{
    law_keywords_lex_as_keywords();
}

/// Each punctuation byte lexes to its symbol, and that symbol is displayed
/// as the same single character: `:` `;` `,` `.` `@` `=` `*` `{` `}` `(`
/// `)` `<` `>`.
pub proof fn law_symbols_lex_as_symbols()
    ensures
        symbol_kind(0x3au8) == Some(TokenKindView::Colon) && kind_text(TokenKindView::Colon) == seq![':'],
        symbol_kind(0x3bu8) == Some(TokenKindView::Semicolon) && kind_text(TokenKindView::Semicolon) == seq![';'],
        symbol_kind(0x2cu8) == Some(TokenKindView::Comma) && kind_text(TokenKindView::Comma) == seq![','],
        symbol_kind(0x2eu8) == Some(TokenKindView::Dot) && kind_text(TokenKindView::Dot) == seq!['.'],
        symbol_kind(0x40u8) == Some(TokenKindView::At) && kind_text(TokenKindView::At) == seq!['@'],
        symbol_kind(0x3du8) == Some(TokenKindView::Equals) && kind_text(TokenKindView::Equals) == seq!['='],
        symbol_kind(0x2au8) == Some(TokenKindView::Star) && kind_text(TokenKindView::Star) == seq!['*'],
        symbol_kind(0x7bu8) == Some(TokenKindView::LBrace) && kind_text(TokenKindView::LBrace) == seq!['{'],
        symbol_kind(0x7du8) == Some(TokenKindView::RBrace) && kind_text(TokenKindView::RBrace) == seq!['}'],
        symbol_kind(0x28u8) == Some(TokenKindView::LParen) && kind_text(TokenKindView::LParen) == seq!['('],
        symbol_kind(0x29u8) == Some(TokenKindView::RParen) && kind_text(TokenKindView::RParen) == seq![')'],
        symbol_kind(0x3cu8) == Some(TokenKindView::LAngle) && kind_text(TokenKindView::LAngle) == seq!['<'],
        symbol_kind(0x3eu8) == Some(TokenKindView::RAngle) && kind_text(TokenKindView::RAngle) == seq!['>'],
{
    reveal_strlit(":");
    reveal_strlit(";");
    reveal_strlit(",");
    reveal_strlit(".");
    reveal_strlit("@");
    reveal_strlit("=");
    reveal_strlit("*");
    reveal_strlit("{");
    reveal_strlit("}");
    reveal_strlit("(");
    reveal_strlit(")");
    reveal_strlit("<");
    reveal_strlit(">");
}

/// `->` lexes as an arrow and a `/` not followed by another `/` as a
/// slash; `///` starts a doc comment and any other `//` a comment.
pub proof fn law_arrow_and_slash(src: Seq<u8>, s: int)
    requires
        0 <= s < src.len(),
    ensures
        src[s] == 0x2d && s + 1 < src.len() && src[s + 1] == 0x3e ==> spec_token_at(src, s) == Some(
            (TokenKindView::Arrow, s + 2),
        ),
        src[s] == 0x2f && !(s + 1 < src.len() && src[s + 1] == 0x2f) ==> spec_token_at(src, s) == Some(
            (TokenKindView::Slash, s + 1),
        ),
        src[s] == 0x2f && s + 2 < src.len() && src[s + 1] == 0x2f && src[s + 2] == 0x2f ==> (spec_token_at(
            src,
            s,
        ) matches Some((k, _)) && k is DocComment),
        src[s] == 0x2f && s + 1 < src.len() && src[s + 1] == 0x2f && !(s + 2 < src.len() && src[s + 2] == 0x2f)
            ==> (spec_token_at(src, s) matches Some((k, _)) && k is Comment),
{
}

/// A word runs over ASCII letters, digits, `-` and `_` (so kebab-case names
/// such as `my-imports` are one word) and stops at the first other byte or
/// at the end.
pub proof fn law_word_extent(src: Seq<u8>, i: int)
    requires
        0 <= i <= src.len(),
    ensures
        i <= ident_end(src, i) <= src.len(),
        forall|k: int| i <= k < ident_end(src, i) ==> {
            let b = #[trigger] src[k];
            (0x61 <= b <= 0x7a) || (0x41 <= b <= 0x5a) || (0x30 <= b <= 0x39) || b == 0x2d || b == 0x5f
        },
        ident_end(src, i) < src.len() ==> {
            let b = src[ident_end(src, i)];
            !((0x61 <= b <= 0x7a) || (0x41 <= b <= 0x5a) || (0x30 <= b <= 0x39) || b == 0x2d || b == 0x5f)
        },
    decreases src.len() - i,
{
    if i < src.len() && is_ident_char(src[i]) {
        law_word_extent(src, i + 1);
    }
}

/// The kind of a word: keyword, type name, or identifier.
fn word_of(text: String) -> (k: WitTokenKind)
    ensures
        k@ == word_kind(text@),
{
    let t = text.as_str();
    if str_eq(t, "package") {
        WitTokenKind::Package
    } else if str_eq(t, "world") {
        WitTokenKind::World
    } else if str_eq(t, "interface") {
        WitTokenKind::Interface
    } else if str_eq(t, "resource") {
        WitTokenKind::Resource
    } else if str_eq(t, "use") {
        WitTokenKind::Use
    } else if str_eq(t, "func") {
        WitTokenKind::Func
    } else if str_eq(t, "record") {
        WitTokenKind::Record
    } else if str_eq(t, "enum") {
        WitTokenKind::Enum
    } else if str_eq(t, "variant") {
        WitTokenKind::Variant
    } else if str_eq(t, "flags") {
        WitTokenKind::Flags
    } else if str_eq(t, "type") {
        WitTokenKind::Type
    } else if str_eq(t, "static") {
        WitTokenKind::Static
    } else if str_eq(t, "constructor") {
        WitTokenKind::Constructor
    } else if str_eq(t, "own") {
        WitTokenKind::Own
    } else if str_eq(t, "borrow") {
        WitTokenKind::Borrow
    } else if str_eq(t, "import") {
        WitTokenKind::Import
    } else if str_eq(t, "export") {
        WitTokenKind::Export
    } else if str_eq(t, "include") {
        WitTokenKind::Include
    } else if str_eq(t, "u8") {
        WitTokenKind::U8
    } else if str_eq(t, "u16") {
        WitTokenKind::U16
    } else if str_eq(t, "u32") {
        WitTokenKind::U32
    } else if str_eq(t, "u64") {
        WitTokenKind::U64
    } else if str_eq(t, "s8") {
        WitTokenKind::S8
    } else if str_eq(t, "s16") {
        WitTokenKind::S16
    } else if str_eq(t, "s32") {
        WitTokenKind::S32
    } else if str_eq(t, "s64") {
        WitTokenKind::S64
    } else if str_eq(t, "f32") {
        WitTokenKind::F32
    } else if str_eq(t, "f64") {
        WitTokenKind::F64
    } else if str_eq(t, "bool") {
        WitTokenKind::Bool
    } else if str_eq(t, "char") {
        WitTokenKind::Char
    } else if str_eq(t, "string") {
        WitTokenKind::StringKw
    } else if str_eq(t, "list") {
        WitTokenKind::List
    } else if str_eq(t, "option") {
        WitTokenKind::Option_
    } else if str_eq(t, "result") {
        WitTokenKind::Result_
    } else if str_eq(t, "tuple") {
        WitTokenKind::Tuple_
    } else {
        WitTokenKind::Ident(text)
    }
}

proof fn lemma_dec_value_grows(ds: Seq<u8>, d: u8)
    ensures
        dec_value(ds.push(d)) == dec_value(ds) * 10 + (d - 48) as nat,
        dec_value(ds.push(d)) >= dec_value(ds),
{
    assert(ds.push(d).drop_last() =~= ds);
}

/// The value of the digits `src[start..end]`, or 0 when it does not fit in a `u64`.
fn parse_digits(src: &[u8], start: usize, end: usize) -> (n: u64)
    requires
        start <= end <= src@.len(),
        forall|i: int| start <= i < end ==> is_digit(#[trigger] src@[i]),
    ensures
        n == integer_value(src@.subrange(start as int, end as int)),
{
    let mut acc: u64 = 0;
    let mut over = false;
    let mut i = start;
    assert(src@.subrange(start as int, start as int) =~= Seq::<u8>::empty());
    while i < end
        invariant
            start <= i <= end <= src@.len(),
            forall|k: int| start <= k < end ==> is_digit(#[trigger] src@[k]),
            over ==> dec_value(src@.subrange(start as int, i as int)) > u64::MAX,
            !over ==> acc == dec_value(src@.subrange(start as int, i as int)),
        decreases end - i,
    {
        let d: u8 = src[i];
        let ghost prev = src@.subrange(start as int, i as int);
        proof {
            assert(src@.subrange(start as int, i + 1) =~= prev.push(d));
            lemma_dec_value_grows(prev, d);
        }
        if !over {
            match acc.checked_mul(10) {
                Some(m) => match m.checked_add((d - 48) as u64) {
                    Some(v) => {
                        acc = v;
                    },
                    None => {
                        over = true;
                    },
                },
                None => {
                    over = true;
                    proof {
                        assert(acc * 10 + (d - 48) as nat >= acc * 10) by (nonlinear_arith);
                    }
                },
            }
        }
        i = i + 1;
    }
    if over {
        0
    } else {
        acc
    }
}

impl<'src> WitLexer<'src> {
    /// Creates a new WIT lexer from source text.
    pub fn new(source: &'src str) -> (l: Self)
        ensures
            l.source()@ == source.spec_bytes(),
            l.position() == 0,
    {
        WitLexer { source: source.as_bytes(), pos: 0 }
    }

    /// The bytes being tokenized.
    pub closed spec fn source(&self) -> &'src [u8] {
        self.source
    }

    /// The current byte position.
    pub closed spec fn position(&self) -> int {
        self.pos as int
    }

    fn skip_whitespace(&mut self)
        requires
            old(self).pos <= old(self).source@.len(),
        ensures
            final(self).source == old(self).source,
            final(self).pos == ws_end(old(self).source@, old(self).pos as int),
            final(self).pos <= final(self).source@.len(),
    {
        while self.pos < self.source.len() && byte_is_ws(self.source[self.pos])
            invariant
                self.source == old(self).source,
                old(self).pos <= self.pos <= self.source@.len(),
                ws_end(self.source@, self.pos as int) == ws_end(
                    old(self).source@,
                    old(self).pos as int,
                ),
            decreases self.source@.len() - self.pos,
        {
            self.pos = self.pos + 1;
        }
    }

    fn scan_digits(&self, i: usize) -> (e: usize)
        requires
            i <= self.source@.len(),
        ensures
            e == digits_end(self.source@, i as int),
            i <= e <= self.source@.len(),
            forall|k: int| i <= k < e ==> is_digit(#[trigger] self.source@[k]),
    {
        let mut j = i;
        while j < self.source.len() && byte_is_digit(self.source[j])
            invariant
                i <= j <= self.source@.len(),
                digits_end(self.source@, j as int) == digits_end(self.source@, i as int),
                forall|k: int| i <= k < j ==> is_digit(#[trigger] self.source@[k]),
            decreases self.source@.len() - j,
        {
            j = j + 1;
        }
        j
    }

    fn scan_ident(&self, i: usize) -> (e: usize)
        requires
            i <= self.source@.len(),
        ensures
            e == ident_end(self.source@, i as int),
            i <= e <= self.source@.len(),
    {
        let mut j = i;
        while j < self.source.len() && byte_is_ident_char(self.source[j])
            invariant
                i <= j <= self.source@.len(),
                ident_end(self.source@, j as int) == ident_end(self.source@, i as int),
            decreases self.source@.len() - j,
        {
            j = j + 1;
        }
        j
    }

    fn scan_prerelease(&self, i: usize) -> (e: usize)
        requires
            i <= self.source@.len(),
        ensures
            e == prerelease_end(self.source@, i as int),
            i <= e <= self.source@.len(),
    {
        let mut j = i;
        while j < self.source.len() && byte_is_prerelease_char(self.source[j])
            invariant
                i <= j <= self.source@.len(),
                prerelease_end(self.source@, j as int) == prerelease_end(self.source@, i as int),
            decreases self.source@.len() - j,
        {
            j = j + 1;
        }
        j
    }

    fn scan_line(&self, i: usize) -> (e: usize)
        requires
            i <= self.source@.len(),
        ensures
            e == line_end(self.source@, i as int),
            i <= e <= self.source@.len(),
    {
        let mut j = i;
        while j < self.source.len() && self.source[j] != 0x0a
            invariant
                i <= j <= self.source@.len(),
                line_end(self.source@, j as int) == line_end(self.source@, i as int),
            decreases self.source@.len() - j,
        {
            j = j + 1;
        }
        j
    }

    /// Reads the next token, skipping leading whitespace.
    fn next_token(&mut self) -> (r: Result<WitToken, WitLexError>)
        requires
            old(self).pos <= old(self).source@.len(),
        ensures
            final(self).source == old(self).source,
            old(self).pos <= final(self).pos <= final(self).source@.len(),
            r matches Ok(t) ==> (t.kind@ is Eof <==> ws_end(old(self).source@, old(self).pos as int)
                >= old(self).source@.len()),
            r matches Ok(t) && !(t.kind@ is Eof) ==> final(self).pos > old(self).pos,
            ({
                let src = old(self).source@;
                let s = ws_end(src, old(self).pos as int);
                if s >= src.len() {
                    r matches Ok(t) && t@ == (TokenView {
                        kind: TokenKindView::Eof,
                        offset: s,
                        len: 0,
                    }) && final(self).pos == s
                } else {
                    match spec_token_at(src, s) {
                        None => r matches Err(e) && e.offset == s && e.message@
                            == unexpected_message(src[s]),
                        Some((k, e)) => r matches Ok(t) && t@ == (TokenView {
                            kind: k,
                            offset: s,
                            len: e - s,
                        }) && final(self).pos == e && e > s,
                    }
                }
            }),
    {
        proof {
            lemma_ws_end(self.source@, self.pos as int);
        }
        self.skip_whitespace();
        let start = self.pos;
        let n = self.source.len();
        if start >= n {
            return Ok(WitToken::new(WitTokenKind::Eof, start, 0));
        }
        let b = self.source[start];
        if b == 0x2f && start + 1 < n && self.source[start + 1] == 0x2f {
            let is_doc = start + 2 < n && self.source[start + 2] == 0x2f;
            let p = if is_doc {
                start + 3
            } else {
                start + 2
            };
            let cs = if p < n && self.source[p] == 0x20 {
                p + 1
            } else {
                p
            };
            let e = self.scan_line(cs);
            let content = from_utf8_lossy_range(self.source, cs, e);
            self.pos = e;
            let kind = if is_doc {
                WitTokenKind::DocComment(content)
            } else {
                WitTokenKind::Comment(content)
            };
            return Ok(WitToken::new(kind, start, e - start));
        }
        if b == 0x2f {
            self.pos = start + 1;
            return Ok(WitToken::new(WitTokenKind::Slash, start, 1));
        }
        match symbol_of(b) {
            Some(k) => {
                self.pos = start + 1;
                return Ok(WitToken::new(k, start, 1));
            },
            None => {},
        }
        if b == 0x2d && start + 1 < n && self.source[start + 1] == 0x3e {
            self.pos = start + 2;
            return Ok(WitToken::new(WitTokenKind::Arrow, start, 2));
        }
        if byte_is_digit(b) {
            return Ok(self.lex_number(start));
        }
        if b == 0x25 {
            let e = self.scan_ident(start + 1);
            self.pos = e;
            let text = string_from_ascii_range(self.source, start + 1, e);
            return Ok(WitToken::new(WitTokenKind::Ident(text), start, e - start));
        }
        if byte_is_alpha(b) || b == 0x5f {
            return Ok(self.lex_ident(start));
        }
        let mut message = owned("unexpected character: '");
        push_char(&mut message, b as char);
        push_str(&mut message, "'");
        proof {
            assert(message@ =~= unexpected_message(b));
        }
        Err(WitLexError { message, offset: start })
    }

    fn lex_ident(&mut self, start: usize) -> (t: WitToken)
        requires
            start < old(self).source@.len() <= usize::MAX,
        ensures
            final(self).source == old(self).source,
            ({
                let e = ident_end(old(self).source@, start + 1);
                &&& final(self).pos == e
                &&& start < e <= old(self).source@.len()
                &&& t@ == (TokenView {
                    kind: word_kind(ascii_chars(old(self).source@.subrange(start as int, e))),
                    offset: start as int,
                    len: e - start,
                })
            }),
    {
        let e = self.scan_ident(start + 1);
        self.pos = e;
        let text = string_from_ascii_range(self.source, start, e);
        WitToken::new(word_of(text), start, e - start)
    }

    fn lex_number(&mut self, start: usize) -> (t: WitToken)
        requires
            start < old(self).source@.len() <= usize::MAX,
            is_digit(old(self).source@[start as int]),
        ensures
            final(self).source == old(self).source,
            ({
                let (k, e) = number_token(old(self).source@, start as int);
                &&& final(self).pos == e
                &&& start < e <= old(self).source@.len()
                &&& t@ == (TokenView { kind: k, offset: start as int, len: e - start })
            }),
    {
        let n = self.source.len();
        let a = self.scan_digits(start + 1);
        if a < n && a + 1 < n && self.source[a] == 0x2e && byte_is_digit(self.source[a + 1]) {
            let b = self.scan_digits(a + 1);
            if b < n && self.source[b] == 0x2e {
                let c = self.scan_digits(b + 1);
                let e = if c < n && self.source[c] == 0x2d {
                    self.scan_prerelease(c + 1)
                } else {
                    c
                };
                self.pos = e;
                let ver = string_from_ascii_range(self.source, start, e);
                return WitToken::new(WitTokenKind::SemVer(ver), start, e - start);
            }
        }
        self.pos = a;
        let v = parse_digits(self.source, start, a);
        WitToken::new(WitTokenKind::Integer(v), start, a - start)
    }

    /// Tokenizes the rest of the source into a token vector. Regular
    /// comments are dropped, doc comments kept; the last token is `Eof`.
    pub fn tokenize(&mut self) -> (r: Result<Vec<WitToken>, WitLexError>)
        requires
            old(self).position() <= old(self).source()@.len(),
        ensures
            lex_result_view(r) == spec_lex(old(self).source()@, old(self).position()),
    {
        let mut tokens: Vec<WitToken> = Vec::new();
        let ghost src = self.source@;
        let ghost start = self.pos as int;
        loop
            invariant
                self.source@ == src,
                src == old(self).source@,
                start == old(self).pos as int,
                self.pos <= src.len(),
                start <= self.pos,
                spec_lex(src, start) == match spec_lex(src, self.pos as int) {
                    Ok(rest) => Ok(tokens@.map_values(|t: WitToken| t@) + rest),
                    Err(e) => Err(e),
                },
            decreases src.len() - self.pos,
        {
            let ghost p = self.pos as int;
            proof {
                lemma_ws_end(src, p);
            }
            let tok = match self.next_token() {
                Ok(t) => t,
                Err(e) => {
                    proof {
                        assert(spec_lex(src, p) == Err::<Seq<TokenView>, LexErrorView>(e@));
                    }
                    return Err(e);
                },
            };
            if let WitTokenKind::Eof = tok.kind {
                let ghost old_tokens = tokens@;
                proof {
                    assert(spec_lex(src, p) == Ok::<Seq<TokenView>, LexErrorView>(seq![tok@]));
                }
                tokens.push(tok);
                proof {
                    assert(tokens@.map_values(|t: WitToken| t@) =~= old_tokens.map_values(
                        |t: WitToken| t@,
                    ) + seq![tok@]);
                }
                return Ok(tokens);
            }
            if let WitTokenKind::Comment(_) = tok.kind {
                proof {
                    assert(spec_lex(src, p) == spec_lex(src, self.pos as int));
                }
                continue;
            }
            let ghost old_tokens = tokens@;
            proof {
                assert(spec_lex(src, p) == match spec_lex(src, self.pos as int) {
                    Ok(rest) => Ok(seq![tok@] + rest),
                    Err(e) => Err::<Seq<TokenView>, LexErrorView>(e),
                });
            }
            tokens.push(tok);
            proof {
                assert(tokens@.map_values(|t: WitToken| t@) =~= old_tokens.map_values(
                    |t: WitToken| t@,
                ).push(tok@));
                let rest = spec_lex(src, self.pos as int);
                if rest is Ok {
                    assert(old_tokens.map_values(|t: WitToken| t@) + (seq![tok@] + rest->Ok_0)
                        =~= tokens@.map_values(|t: WitToken| t@) + rest->Ok_0);
                }
            }
        }
    }
}

impl View for WitLexError {
    type V = LexErrorView;

    open spec fn view(&self) -> LexErrorView {
        LexErrorView { offset: self.offset as int, message: self.message@ }
    }
}

/// The mathematical value of a tokenization result.
pub open spec fn lex_result_view(r: Result<Vec<WitToken>, WitLexError>) -> Result<
    Seq<TokenView>,
    LexErrorView,
> {
    match r {
        Ok(v) => Ok(v@.map_values(|t: WitToken| t@)),
        Err(e) => Err(e@),
    }
}

fn string_from_ascii_range(src: &[u8], start: usize, end: usize) -> (s: String)
    requires
        start <= end <= src@.len(),
    ensures
        s@ == ascii_chars(src@.subrange(start as int, end as int)),
{
    let mut s = String::new();
    let mut i = start;
    while i < end
        invariant
            start <= i <= end <= src@.len(),
            s@ == ascii_chars(src@.subrange(start as int, i as int)),
        decreases end - i,
    {
        push_char(&mut s, src[i] as char);
        i = i + 1;
        assert(s@ =~= ascii_chars(src@.subrange(start as int, i as int)));
    }
    s
}

fn from_utf8_lossy_range(src: &[u8], start: usize, end: usize) -> (s: String)
    requires
        start <= end <= src@.len(),
    ensures
        s@ == utf8_lossy(src@.subrange(start as int, end as int)),
{
    let mut part: Vec<u8> = Vec::new();
    let mut i = start;
    while i < end
        invariant
            start <= i <= end <= src@.len(),
            part@ == src@.subrange(start as int, i as int),
        decreases end - i,
    {
        part.push(src[i]);
        i = i + 1;
        assert(part@ =~= src@.subrange(start as int, i as int));
    }
    from_utf8_lossy(part.as_slice())
}

/// Tokenizes a WIT source string.
pub fn tokenize_wit(source: &str) -> (r: Result<Vec<WitToken>, WitLexError>)
    ensures
        lex_result_view(r) == spec_lex(source.spec_bytes(), 0),
{
    let mut lexer = WitLexer::new(source);
    lexer.tokenize()
}


proof fn lemma_digits_end(src: Seq<u8>, i: int)
    ensures
        i <= digits_end(src, i),
        0 <= i <= src.len() ==> digits_end(src, i) <= src.len(),
    decreases src.len() - i,
{
    if 0 <= i < src.len() && is_digit(src[i]) {
        lemma_digits_end(src, i + 1);
    }
}

proof fn lemma_ident_end(src: Seq<u8>, i: int)
    ensures
        i <= ident_end(src, i),
        0 <= i <= src.len() ==> ident_end(src, i) <= src.len(),
    decreases src.len() - i,
{
    if 0 <= i < src.len() && is_ident_char(src[i]) {
        lemma_ident_end(src, i + 1);
    }
}

proof fn lemma_prerelease_end(src: Seq<u8>, i: int)
    ensures
        i <= prerelease_end(src, i),
        0 <= i <= src.len() ==> prerelease_end(src, i) <= src.len(),
    decreases src.len() - i,
{
    if 0 <= i < src.len() && is_prerelease_char(src[i]) {
        lemma_prerelease_end(src, i + 1);
    }
}

proof fn lemma_line_end(src: Seq<u8>, i: int)
    ensures
        i <= line_end(src, i),
        0 <= i <= src.len() ==> line_end(src, i) <= src.len(),
    decreases src.len() - i,
{
    if 0 <= i < src.len() && src[i] != 0x0a {
        lemma_line_end(src, i + 1);
    }
}

/// Every token that can start at `s` ends after `s`, within the source.
proof fn lemma_token_progress(src: Seq<u8>, s: int)
    requires
        0 <= s < src.len(),
    ensures
        spec_token_at(src, s) matches Some((k, e)) ==> s < e <= src.len(),
{
    let n = src.len() as int;
    lemma_ident_end(src, s + 1);
    if s + 3 <= n {
        lemma_line_end(src, s + 3);
    }
    if s + 2 <= n {
        lemma_line_end(src, s + 2);
    }
    if s + 4 <= n {
        lemma_line_end(src, s + 4);
    }
    lemma_digits_end(src, s + 1);
    let a = digits_end(src, s + 1);
    if a + 1 < n && src[a] == 0x2e && is_digit(src[a + 1]) {
        lemma_digits_end(src, a + 1);
        let b = digits_end(src, a + 1);
        if b < n && src[b] == 0x2e {
            lemma_digits_end(src, b + 1);
            let c = digits_end(src, b + 1);
            if c < n {
                lemma_prerelease_end(src, c + 1);
            }
        }
    }
}

/// The tokens of a source that lexes end with `Eof`.
pub proof fn lemma_lex_ends_with_eof(src: Seq<u8>, pos: int)
    requires
        0 <= pos,
    ensures
        spec_lex(src, pos) matches Ok(ts) ==> (ts.len() > 0 && ts.last().kind is Eof),
    decreases src.len() - pos,
{
    let s = ws_end(src, pos);
    lemma_ws_end(src, pos);
    if pos < 0 || s >= src.len() {
    } else {
        lemma_token_progress(src, s);
        match spec_token_at(src, s) {
            None => {},
            Some((k, e)) => {
                lemma_lex_ends_with_eof(src, e);
                if !(k is Comment) {
                    if let Ok(rest) = spec_lex(src, e) {
                        let head = seq![TokenView { kind: k, offset: s, len: e - s }];
                        assert((head + rest).last() == rest.last());
                    }
                }
            },
        }
    }
}

} // verus!
