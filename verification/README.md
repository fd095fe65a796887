# fajar_wasi_p2

WASI Preview 2 (Component Model) support for Fajar Lang, written in Verus:
the functions in `src/` carry `requires`/`ensures` contracts that Verus
proves; a few thin wrappers around the standard library are trusted, and
their contracts say only what its documentation says.

## Layout

- `src/wit_lexer.rs`, `src/wit_parser.rs`, `src/wit_types.rs`: WIT
  tokenizing (specified by a lexer spec), parsing (specified by a token
  grammar), and the mapping of WIT types to Fajar types.
- `src/component.rs`: component binary encoding, LEB128, linear memory and
  the canonical ABI lowering/lifting, component validation.
- `src/resources.rs`: the generational handle table (with an abstract model
  of its state), owned/borrowed handles, resource definitions, recursive and
  batch drops.
- `src/streams.rs`, `src/filesystem.rs`, `src/sockets.rs`, `src/http.rs`:
  in-memory WASI streams, clocks, random numbers, filesystem, sockets, HTTP
  client and routing.
- `src/composition.rs`: instances and linking, a virtual filesystem, build
  targets, the Preview 1 adapter, import checks, the interface registry,
  size reports, workspaces and build order.
- `src/deployment.rs`: runtime compatibility checks, Spin manifests, a
  virtual test environment, benchmarks, conformance runs, documentation
  and the module audit.
- `src/assoc.rs`, `src/text.rs`: association lists read as maps, and text
  helpers (decimal rendering, prefix tests, lexicographic order).
- `app/`: what verified code cannot hold — the HTTP router's closures, the
  RAII borrow guard, drop callbacks, type names in handle text, and the
  floating-point pass rates.
- `tests/`: tests of the library's behaviour on concrete values.

Public proof functions named `law_*` state properties that relate several
operations (for example, that a read after a write gives back what was
written, or that a freed handle stays rejected after its slot is reused).
