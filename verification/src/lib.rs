//! WASI Preview 2 (Component Model) support: WIT lexing, parsing and type
//! mapping, component binary encoding, resource handle tables, streams,
//! an in-memory filesystem, sockets, HTTP, composition and deployment tooling.

use vstd::prelude::*;

pub mod assoc;
pub mod component;
pub mod composition;
pub mod deployment;
pub mod filesystem;
pub mod http;
pub mod resources;
pub mod sockets;
pub mod streams;
pub mod text;
pub mod wit_lexer;
pub mod wit_parser;
pub mod wit_types;

verus! {

/// The version of this crate.
pub fn version() -> (v: &'static str)
    ensures
        v@ == "0.1.0"@,
{
    "0.1.0"
}

} // verus!
