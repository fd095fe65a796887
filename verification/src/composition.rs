//! Component composition and linking.
//!
//! - component instances with provided imports and a single-shot `run`
//! - a linker that wires a provider's export to a consumer's import
//! - a virtual filesystem over the in-memory filesystem
//! - WASI build targets and build configuration
//! - an adapter that wraps a Preview 1 module into a Preview 2 component
//! - multi-component workspaces: validation and build order
//! - import satisfaction checks
//! - a registry of standard WASI interfaces
//! - binary size reports
//!
//! Tables keyed by name are association lists with distinct keys; they are
//! walked in the order their keys were first inserted.

use vstd::prelude::*;
use crate::assoc::{
    assoc_map, keys_distinct, lemma_assoc_dom, lemma_assoc_lookup, named_entries, named_get,
    named_get_mut, named_map, named_put,
};
use crate::component::{
    empty_builder, ComponentBuilder, ComponentFuncType, ComponentTypeKind, ExportKind,
};
use crate::filesystem::{
    alloc_view, create_directory_spec, fs_error_text, fs_wf, lemma_mkdirs_counters, open_at_spec,
    path_components, split_path, strs, write_spec, DescriptorFlags, FsError, FsView, OpenFlags,
    WasiFilesystem,
};
use crate::component::{
    leb_read, component_bytes, with_export, with_import, with_type, BuilderView, FuncView, KindView,
};
use crate::text::{dec, hex, owned, push_dec, push_hex, push_str, str_eq, zero_pad};

verus! {

// ═════════════════════════════════════════════════════════════════════
// Errors
// ═════════════════════════════════════════════════════════════════════

/// Errors of instantiation, linking, workspaces, the registry and size
/// analysis.
#[derive(Debug, Clone, PartialEq)]
pub enum CompositionError {
    /// A required import is not satisfied.
    MissingImport { component: String, import_name: String },
    /// An export was not found on the source component.
    MissingExport { component: String, export_name: String },
    /// Type mismatch when linking an export to an import.
    TypeMismatch { detail: String },
    /// The component has already been executed.
    AlreadyExecuted { component: String },
    /// A cycle was detected in the dependency graph.
    CycleDetected { components: Vec<String> },
    /// Workspace configuration error.
    WorkspaceError { detail: String },
    /// Registry resolution failed.
    RegistryError { detail: String },
    /// Binary analysis error.
    OptimizationError { detail: String },
}

/// `ns[i..]` joined by `sep`.
pub open spec fn joined(ns: Seq<Seq<char>>, sep: Seq<char>, i: int) -> Seq<char>
    decreases ns.len() - i,
{
    if 0 <= i < ns.len() {
        (if i > 0 {
            sep
        } else {
            Seq::<char>::empty()
        }) + ns[i] + joined(ns, sep, i + 1)
    } else {
        Seq::empty()
    }
}

/// The texts of a sequence of strings.
pub open spec fn texts(v: Seq<String>) -> Seq<Seq<char>> {
    v.map_values(|s: String| s@)
}

/// The text of a composition error.
pub open spec fn composition_error_text(e: CompositionError) -> Seq<char> {
    match e {
        CompositionError::MissingImport { component, import_name } => "component '"@ + component@
            + "' has unsatisfied import '"@ + import_name@ + "'"@,
        CompositionError::MissingExport { component, export_name } => "component '"@ + component@
            + "' does not export '"@ + export_name@ + "'"@,
        CompositionError::TypeMismatch { detail } => "type mismatch: "@ + detail@,
        CompositionError::AlreadyExecuted { component } => "component '"@ + component@ + "' already executed"@,
        CompositionError::CycleDetected { components } => "dependency cycle detected: "@ + joined(
            texts(components@),
            " -> "@,
            0,
        ),
        CompositionError::WorkspaceError { detail } => "workspace error: "@ + detail@,
        CompositionError::RegistryError { detail } => "registry error: "@ + detail@,
        CompositionError::OptimizationError { detail } => "optimization error: "@ + detail@,
    }
}

/// Appends `ns` joined by `sep`.
fn push_joined(s: &mut String, ns: &Vec<String>, sep: &str)
    ensures
        final(s)@ == old(s)@ + joined(texts(ns@), sep@, 0),
{
    let ghost before = s@;
    let ghost t = texts(ns@);
    let mut i: usize = 0;
    while i < ns.len()
        invariant
            i <= ns@.len(),
            t == texts(ns@),
            before + joined(t, sep@, 0) == s@ + joined(t, sep@, i as int),
        decreases ns@.len() - i,
    {
        if i > 0 {
            push_str(s, sep);
        }
        push_str(s, ns[i].as_str());
        i = i + 1;
    }
}

impl CompositionError {
    /// The text of this error.
    pub fn to_string(&self) -> (s: String)
        ensures
            s@ == composition_error_text(*self),
    {
        let mut s = String::new();
        match self {
            CompositionError::MissingImport { component, import_name } => {
                push_str(&mut s, "component '");
                push_str(&mut s, component.as_str());
                push_str(&mut s, "' has unsatisfied import '");
                push_str(&mut s, import_name.as_str());
                push_str(&mut s, "'");
            },
            CompositionError::MissingExport { component, export_name } => {
                push_str(&mut s, "component '");
                push_str(&mut s, component.as_str());
                push_str(&mut s, "' does not export '");
                push_str(&mut s, export_name.as_str());
                push_str(&mut s, "'");
            },
            CompositionError::TypeMismatch { detail } => {
                push_str(&mut s, "type mismatch: ");
                push_str(&mut s, detail.as_str());
            },
            CompositionError::AlreadyExecuted { component } => {
                push_str(&mut s, "component '");
                push_str(&mut s, component.as_str());
                push_str(&mut s, "' already executed");
            },
            CompositionError::CycleDetected { components } => {
                push_str(&mut s, "dependency cycle detected: ");
                push_joined(&mut s, components, " -> ");
            },
            CompositionError::WorkspaceError { detail } => {
                push_str(&mut s, "workspace error: ");
                push_str(&mut s, detail.as_str());
            },
            CompositionError::RegistryError { detail } => {
                push_str(&mut s, "registry error: ");
                push_str(&mut s, detail.as_str());
            },
            CompositionError::OptimizationError { detail } => {
                push_str(&mut s, "optimization error: ");
                push_str(&mut s, detail.as_str());
            },
        }
        proof {
            assert(s@ =~= composition_error_text(*self));
        }
        s
    }
}

// ═════════════════════════════════════════════════════════════════════
// Component instances
// ═════════════════════════════════════════════════════════════════════

/// An export offered by a component instance.
#[derive(Debug, Clone)]
pub struct ExportDef {
    /// Export name.
    pub name: String,
    /// The kind of export.
    pub kind: ExportKind,
    /// Parameter type names.
    pub params: Vec<String>,
    /// Result type name, if any.
    pub result: Option<String>,
}

/// An instantiated component: its binary, the providers of its imports,
/// its exports, and a single-shot `run`.
#[derive(Debug)]
pub struct ComponentInstance {
    name: String,
    binary: Vec<u8>,
    imports: Vec<(String, String)>,
    exports: Vec<(String, ExportDef)>,
    executed: bool,
    return_value: Option<i32>,
}

/// What a component instance holds.
pub struct InstanceView {
    pub name: Seq<char>,
    pub binary: Seq<u8>,
    /// Import name to provider name.
    pub imports: Map<Seq<char>, Seq<char>>,
    /// Export name to its definition.
    pub exports: Map<Seq<char>, ExportDef>,
    pub executed: bool,
    pub return_value: Option<i32>,
}

/// The texts of a table of strings keyed by strings.
pub open spec fn text_map(v: Seq<(String, String)>) -> Map<Seq<char>, Seq<char>> {
    assoc_map(v.map_values(|e: (String, String)| (e.0@, e.1@)))
}

/// Copies a table of strings keyed by strings into one with distinct keys;
/// a later entry for a key wins.
fn distinct_table(entries: Vec<(String, String)>) -> (t: Vec<(String, String)>)
    ensures
        keys_distinct(named_entries(t@)),
        named_map(t@).map_values(|v: String| v@) == text_map(entries@),
{
    let mut t: Vec<(String, String)> = Vec::new();
    let mut i: usize = 0;
    let ghost src = entries@.map_values(|e: (String, String)| (e.0@, e.1@));
    proof {
        assert(named_map(t@).map_values(|v: String| v@) =~= Map::<Seq<char>, Seq<char>>::empty());
        assert(src.take(0) =~= Seq::<(Seq<char>, Seq<char>)>::empty());
    }
    while i < entries.len()
        invariant
            i <= entries@.len(),
            src == entries@.map_values(|e: (String, String)| (e.0@, e.1@)),
            keys_distinct(named_entries(t@)),
            named_map(t@).map_values(|v: String| v@) == assoc_map(src.take(i as int)),
        decreases entries@.len() - i,
    {
        let k = entries[i].0.clone();
        let v = entries[i].1.clone();
        let ghost before = named_map(t@);
        named_put(&mut t, k, v);
        proof {
            assert(src.take(i + 1).drop_last() =~= src.take(i as int));
            assert(named_map(t@).map_values(|v: String| v@) =~= before.map_values(|v: String| v@).insert(
                k@,
                v@,
            ));
        }
        i = i + 1;
    }
    proof {
        assert(src.take(entries@.len() as int) =~= src);
    }
    t
}

impl ComponentInstance {
    /// The state of this instance.
    pub closed spec fn view_of(&self) -> InstanceView {
        InstanceView {
            name: self.name@,
            binary: self.binary@,
            imports: named_map(self.imports@).map_values(|v: String| v@),
            exports: named_map(self.exports@),
            executed: self.executed,
            return_value: self.return_value,
        }
    }

    /// The name, as a string.
    pub closed spec fn name_string(&self) -> String {
        self.name
    }

    /// The import and export tables have distinct names.
    pub closed spec fn wf(&self) -> bool {
        keys_distinct(named_entries(self.imports@)) && keys_distinct(named_entries(self.exports@))
    }

    /// A new instance; `provided_imports` maps import names to the
    /// instances that provide them (a later entry for a name wins).
    pub fn new(name: &str, binary: Vec<u8>, provided_imports: Vec<(String, String)>) -> (c: Self)
        ensures
            c.wf(),
            c.view_of().name == name@,
            c.name_string()@ == name@,
            c.view_of().binary == binary@,
            c.view_of().imports == text_map(provided_imports@),
            c.view_of().exports == Map::<Seq<char>, ExportDef>::empty(),
            !c.view_of().executed,
            c.view_of().return_value is None,
    {
        let imports = distinct_table(provided_imports);
        let c = ComponentInstance {
            name: owned(name),
            binary,
            imports,
            exports: Vec::new(),
            executed: false,
            return_value: None,
        };
        proof {
            assert(named_map(Seq::<(String, ExportDef)>::empty()) =~= Map::<Seq<char>, ExportDef>::empty());
            assert(keys_distinct(named_entries(Seq::<(String, ExportDef)>::empty())));
        }
        c
    }

    /// Registers an export under its name.
    pub fn add_export(&mut self, export: ExportDef)
        requires
            old(self).wf(),
        ensures
            final(self).wf(),
            final(self).view_of() == (InstanceView {
                exports: old(self).view_of().exports.insert(export.name@, export),
                ..old(self).view_of()
            }),
            final(self).name_string() == old(self).name_string(),
    {
        let key = export.name.clone();
        named_put(&mut self.exports, key, export);
    }

    /// Runs the entry point once: the return value set before (0 if none);
    /// a second run fails.
    pub fn run(&mut self) -> (r: Result<i32, CompositionError>)
        ensures
            old(self).view_of().executed ==> r == Err::<i32, CompositionError>(
                CompositionError::AlreadyExecuted { component: old(self).name_string() },
            ) && final(self).view_of() == old(self).view_of(),
            !old(self).view_of().executed ==> r == Ok::<i32, CompositionError>(
                match old(self).view_of().return_value {
                    Some(c) => c,
                    None => 0,
                },
            ) && final(self).view_of() == (InstanceView { executed: true, ..old(self).view_of() }),
            final(self).wf() == old(self).wf(),
            final(self).name_string() == old(self).name_string(),
    {
        if self.executed {
            return Err(CompositionError::AlreadyExecuted { component: self.name.clone() });
        }
        self.executed = true;
        let code = match self.return_value {
            Some(c) => c,
            None => 0,
        };
        Ok(code)
    }

    /// Sets the value `run` returns.
    pub fn set_return_value(&mut self, code: i32)
        ensures
            final(self).view_of() == (InstanceView { return_value: Some(code), ..old(self).view_of() }),
            final(self).wf() == old(self).wf(),
            final(self).name_string() == old(self).name_string(),
    {
        self.return_value = Some(code);
    }

    /// The instance name.
    pub fn name(&self) -> (n: &str)
        ensures
            n@ == self.view_of().name,
    {
        self.name.as_str()
    }

    /// The component binary.
    pub fn binary(&self) -> (b: &[u8])
        ensures
            b@ == self.view_of().binary,
    {
        self.binary.as_slice()
    }

    /// The import table: import name and provider name.
    pub fn imports(&self) -> (t: &Vec<(String, String)>)
        requires
            self.wf(),
        ensures
            keys_distinct(named_entries(t@)),
            named_map(t@).map_values(|v: String| v@) == self.view_of().imports,
    {
        &self.imports
    }

    /// The export table.
    pub fn exports(&self) -> (t: &Vec<(String, ExportDef)>)
        requires
            self.wf(),
        ensures
            keys_distinct(named_entries(t@)),
            named_map(t@) == self.view_of().exports,
    {
        &self.exports
    }

    /// Whether `run` has been called.
    pub fn has_executed(&self) -> (b: bool)
        ensures
            b == self.view_of().executed,
    {
        self.executed
    }

    /// The export with this name, if any.
    pub fn get_export(&self, name: &str) -> (r: Option<&ExportDef>)
        requires
            self.wf(),
        ensures
            match r {
                Some(e) => self.view_of().exports.contains_key(name@) && *e == self.view_of().exports[name@],
                None => !self.view_of().exports.contains_key(name@),
            },
    {
        named_get(&self.exports, name)
    }
}


// ═════════════════════════════════════════════════════════════════════
// Linker
// ═════════════════════════════════════════════════════════════════════

/// A link from a provider's export to a consumer's import.
#[derive(Debug, Clone)]
pub struct Link {
    /// The component providing the export.
    pub provider: String,
    /// The export name on the provider.
    pub export_name: String,
    /// The component consuming the import.
    pub consumer: String,
    /// The import name on the consumer.
    pub import_name: String,
}

/// Links component instances by wiring exports to imports.
#[derive(Debug)]
pub struct ComponentLinker {
    instances: Vec<(String, ComponentInstance)>,
    links: Vec<Link>,
}

/// Whether some link satisfies import `imp` of component `c`.
pub open spec fn is_linked(links: Seq<Link>, c: Seq<char>, imp: Seq<char>) -> bool {
    exists|k: int| 0 <= k < links.len() && links[k].consumer@ == c && #[trigger] links[k].import_name@ == imp
}

/// The imports `imps[j..]` of component `c` that no link satisfies.
pub open spec fn unlinked_imports(links: Seq<Link>, c: Seq<char>, imps: Seq<(String, String)>, j: int) -> Seq<
    (Seq<char>, Seq<char>),
>
    decreases imps.len() - j,
{
    if 0 <= j < imps.len() {
        (if is_linked(links, c, imps[j].0@) {
            Seq::empty()
        } else {
            seq![(c, imps[j].0@)]
        }) + unlinked_imports(links, c, imps, j + 1)
    } else {
        Seq::empty()
    }
}

/// A pair is in a concatenation exactly when it is in one of the parts.
proof fn lemma_pairs_concat_contains(a: Seq<(Seq<char>, Seq<char>)>, b: Seq<(Seq<char>, Seq<char>)>, x: (Seq<char>, Seq<char>))
    ensures
        (a + b).contains(x) <==> (a.contains(x) || b.contains(x)),
{
    if (a + b).contains(x) {
        let i = choose|i: int| 0 <= i < (a + b).len() && (a + b)[i] == x;
        if i < a.len() {
            assert(a[i] == x);
        } else {
            assert(b[i - a.len()] == x);
        }
    }
    if a.contains(x) {
        let i = choose|i: int| 0 <= i < a.len() && a[i] == x;
        assert((a + b)[i] == x);
    }
    if b.contains(x) {
        let i = choose|i: int| 0 <= i < b.len() && b[i] == x;
        assert((a + b)[a.len() + i] == x);
    }
}

/// The unlinked imports of `c0` from `j` on hold `(c, imp)` exactly when
/// `c` is `c0`, one of those imports is named `imp`, and no link
/// satisfies it.
proof fn lemma_unlinked_contains(
    links: Seq<Link>,
    c0: Seq<char>,
    imps: Seq<(String, String)>,
    j: int,
    c: Seq<char>,
    imp: Seq<char>,
)
    requires
        0 <= j,
    ensures
        unlinked_imports(links, c0, imps, j).contains((c, imp)) <==> (c == c0 && (exists|t: int|
            j <= t < imps.len() && #[trigger] imps[t].0@ == imp) && !is_linked(links, c0, imp)),
    decreases imps.len() - j,
{
    if j < imps.len() {
        lemma_unlinked_contains(links, c0, imps, j + 1, c, imp);
        let head = if is_linked(links, c0, imps[j].0@) {
            Seq::<(Seq<char>, Seq<char>)>::empty()
        } else {
            seq![(c0, imps[j].0@)]
        };
        lemma_pairs_concat_contains(head, unlinked_imports(links, c0, imps, j + 1), (c, imp));
        if head.contains((c, imp)) {
            assert(head[0] == (c, imp));
        }
        if exists|t: int| j <= t < imps.len() && #[trigger] imps[t].0@ == imp {
            let t = choose|t: int| j <= t < imps.len() && #[trigger] imps[t].0@ == imp;
            if t == j {
                if c == c0 && !is_linked(links, c0, imp) {
                    assert(head[0] == (c, imp));
                }
            }
        }
    }
}

/// A concatenation of two lists without repeats that share no item has no
/// repeats.
proof fn lemma_pairs_concat_nodup(a: Seq<(Seq<char>, Seq<char>)>, b: Seq<(Seq<char>, Seq<char>)>)
    requires
        a.no_duplicates(),
        b.no_duplicates(),
        forall|x: (Seq<char>, Seq<char>)| a.contains(x) ==> !b.contains(x),
    ensures
        (a + b).no_duplicates(),
{
    assert forall|i: int, j: int| 0 <= i < j < (a + b).len() implies (a + b)[i] != (a + b)[j] by {
        if j < a.len() {
            assert((a + b)[i] == a[i] && (a + b)[j] == a[j]);
        } else if i >= a.len() {
            assert((a + b)[i] == b[i - a.len()] && (a + b)[j] == b[j - a.len()]);
        } else {
            assert((a + b)[i] == a[i]);
            assert((a + b)[j] == b[j - a.len()]);
            assert(a.contains(a[i]));
            assert(b.contains(b[j - a.len()]));
        }
    }
}

/// The unlinked imports of a table with distinct names have no repeats.
proof fn lemma_unlinked_nodup(links: Seq<Link>, c0: Seq<char>, imps: Seq<(String, String)>, j: int)
    requires
        0 <= j,
        keys_distinct(named_entries(imps)),
    ensures
        unlinked_imports(links, c0, imps, j).no_duplicates(),
    decreases imps.len() - j,
{
    if j < imps.len() {
        lemma_unlinked_nodup(links, c0, imps, j + 1);
        let head = if is_linked(links, c0, imps[j].0@) {
            Seq::<(Seq<char>, Seq<char>)>::empty()
        } else {
            seq![(c0, imps[j].0@)]
        };
        let tail = unlinked_imports(links, c0, imps, j + 1);
        assert forall|x: (Seq<char>, Seq<char>)| head.contains(x) implies !tail.contains(x) by {
            assert(head[0] == x);
            lemma_unlinked_contains(links, c0, imps, j + 1, x.0, x.1);
            if tail.contains(x) {
                let t = choose|t: int| j + 1 <= t < imps.len() && #[trigger] imps[t].0@ == x.1;
                assert(named_entries(imps)[j].0 == imps[j].0@);
                assert(named_entries(imps)[t].0 == imps[t].0@);
            }
        }
        lemma_pairs_concat_nodup(head, tail);
    }
}

impl ComponentLinker {
    /// The registered instances, by name.
    pub closed spec fn instance_map(&self) -> Map<Seq<char>, ComponentInstance> {
        named_map(self.instances@)
    }

    /// The established links, in order.
    pub closed spec fn link_list(&self) -> Seq<Link> {
        self.links@
    }

    /// The unsatisfied imports, instance by instance in registration order,
    /// each instance's imports in table order.
    pub closed spec fn unsatisfied(&self) -> Seq<(Seq<char>, Seq<char>)> {
        self.unsatisfied_from(0)
    }

    closed spec fn unsatisfied_from(&self, i: int) -> Seq<(Seq<char>, Seq<char>)>
        decreases self.instances@.len() - i,
    {
        if 0 <= i < self.instances@.len() {
            unlinked_imports(self.links@, self.instances@[i].0@, self.instances@[i].1.imports@, 0)
                + self.unsatisfied_from(i + 1)
        } else {
            Seq::empty()
        }
    }

    /// The unsatisfied imports from the `i`-th instance on hold `(c, imp)`
    /// exactly when one of those instances is named `c` and imports `imp`,
    /// and no link satisfies it.
    proof fn lemma_unsatisfied_from_contains(&self, i: int, c: Seq<char>, imp: Seq<char>)
        requires
            0 <= i,
        ensures
            self.unsatisfied_from(i).contains((c, imp)) <==> exists|t: int|
                i <= t < self.instances@.len() && #[trigger] self.instances@[t].0@ == c && (exists|s: int|
                    0 <= s < self.instances@[t].1.imports@.len() && #[trigger] self.instances@[t].1.imports@[s].0@
                        == imp) && !is_linked(self.links@, c, imp),
        decreases self.instances@.len() - i,
    {
        if i < self.instances@.len() {
            self.lemma_unsatisfied_from_contains(i + 1, c, imp);
            let here = unlinked_imports(self.links@, self.instances@[i].0@, self.instances@[i].1.imports@, 0);
            lemma_pairs_concat_contains(here, self.unsatisfied_from(i + 1), (c, imp));
            lemma_unlinked_contains(self.links@, self.instances@[i].0@, self.instances@[i].1.imports@, 0, c, imp);
        }
    }

    /// The unsatisfied imports from the `i`-th instance on have no repeats.
    proof fn lemma_unsatisfied_from_nodup(&self, i: int)
        requires
            0 <= i,
            self.wf(),
        ensures
            self.unsatisfied_from(i).no_duplicates(),
        decreases self.instances@.len() - i,
    {
        if i < self.instances@.len() {
            self.lemma_unsatisfied_from_nodup(i + 1);
            let es = named_entries(self.instances@);
            lemma_assoc_lookup(es, i);
            let inst = self.instances@[i].1;
            assert(self.instance_map()[es[i].0] == inst);
            assert(inst.wf());
            lemma_unlinked_nodup(self.links@, self.instances@[i].0@, inst.imports@, 0);
            let here = unlinked_imports(self.links@, self.instances@[i].0@, inst.imports@, 0);
            let rest = self.unsatisfied_from(i + 1);
            assert forall|x: (Seq<char>, Seq<char>)| here.contains(x) implies !rest.contains(x) by {
                lemma_unlinked_contains(self.links@, self.instances@[i].0@, inst.imports@, 0, x.0, x.1);
                self.lemma_unsatisfied_from_contains(i + 1, x.0, x.1);
                if rest.contains(x) {
                    let t = choose|t: int|
                        i + 1 <= t < self.instances@.len() && #[trigger] self.instances@[t].0@ == x.0 && (exists|s: int|
                            0 <= s < self.instances@[t].1.imports@.len() && #[trigger] self.instances@[t].1.imports@[s].0@
                                == x.1) && !is_linked(self.links@, x.0, x.1);
                    assert(es[t].0 == self.instances@[t].0@);
                }
            }
            lemma_pairs_concat_nodup(here, rest);
        }
    }

    /// The unsatisfied imports list no (component, import) pair twice.
    pub proof fn lemma_unsatisfied_no_duplicates(&self)
        requires
            self.wf(),
        ensures
            self.unsatisfied().no_duplicates(),
    {
        self.lemma_unsatisfied_from_nodup(0);
    }

    /// An import is unsatisfied exactly when its instance is registered, the
    /// instance imports it, and no link satisfies it.
    pub proof fn lemma_unsatisfied_contains(&self, c: Seq<char>, imp: Seq<char>)
        requires
            self.wf(),
        ensures
            self.unsatisfied().contains((c, imp)) <==> (self.instance_map().contains_key(c)
                && self.instance_map()[c].view_of().imports.contains_key(imp) && !is_linked(
                self.link_list(),
                c,
                imp,
            )),
    {
        self.lemma_unsatisfied_from_contains(0, c, imp);
        let es = named_entries(self.instances@);
        lemma_assoc_dom(es, c);
        if self.instance_map().contains_key(c) {
            let t = choose|t: int| 0 <= t < es.len() && es[t].0 == c;
            lemma_assoc_lookup(es, t);
            let inst = self.instances@[t].1;
            assert(self.instances@[t].0@ == c);
            assert(self.instance_map()[c] == inst);
            assert(inst.wf());
            let ies = named_entries(inst.imports@);
            lemma_assoc_dom(ies, imp);
            assert(inst.view_of().imports.contains_key(imp) == assoc_map(ies).contains_key(imp));
            if exists|t2: int| 0 <= t2 < self.instances@.len() && #[trigger] self.instances@[t2].0@ == c {
                let t2 = choose|t2: int| 0 <= t2 < self.instances@.len() && #[trigger] self.instances@[t2].0@ == c;
                assert(es[t2].0 == es[t].0);
                assert(t2 == t);
            }
            if exists|s: int| 0 <= s < ies.len() && ies[s].0 == imp {
                let s = choose|s: int| 0 <= s < ies.len() && ies[s].0 == imp;
                assert(self.instances@[t].1.imports@[s].0@ == imp);
            }
            if exists|s: int| 0 <= s < self.instances@[t].1.imports@.len() && #[trigger] self.instances@[t].1.imports@[s].0@ == imp {
                let s = choose|s: int| 0 <= s < self.instances@[t].1.imports@.len() && #[trigger] self.instances@[t].1.imports@[s].0@ == imp;
                assert(ies[s].0 == imp);
            }
            let has_imp = exists|s: int| 0 <= s < self.instances@[t].1.imports@.len() && #[trigger] self.instances@[t].1.imports@[s].0@ == imp;
            assert(inst.view_of().imports.contains_key(imp) <==> has_imp);
            assert(self.unsatisfied() == self.unsatisfied_from(0));
            assert(self.link_list() == self.links@);
            if self.unsatisfied().contains((c, imp)) {
                let t2 = choose|t2: int|
                    0 <= t2 < self.instances@.len() && #[trigger] self.instances@[t2].0@ == c && (exists|s: int|
                        0 <= s < self.instances@[t2].1.imports@.len() && #[trigger] self.instances@[t2].1.imports@[s].0@
                            == imp) && !is_linked(self.links@, c, imp);
                assert(es[t2].0 == es[t].0);
                assert(t2 == t);
            }
            assert(self.unsatisfied().contains((c, imp)) ==> has_imp && !is_linked(self.links@, c, imp));
            assert(has_imp && !is_linked(self.links@, c, imp) ==> self.unsatisfied().contains((c, imp)));
        } else {
            if exists|t2: int| 0 <= t2 < self.instances@.len() && #[trigger] self.instances@[t2].0@ == c {
                let t2 = choose|t2: int| 0 <= t2 < self.instances@.len() && #[trigger] self.instances@[t2].0@ == c;
                assert(es[t2].0 == c);
            }
        }
    }

    /// Names are distinct and every instance is well formed.
    pub closed spec fn wf(&self) -> bool {
        &&& keys_distinct(named_entries(self.instances@))
        &&& forall|k: Seq<char>| #[trigger] named_map(self.instances@).contains_key(k) ==> named_map(self.instances@)[k].wf()
    }

    /// An empty linker.
    pub fn new() -> (l: Self)
        ensures
            l.wf(),
            l.instance_map() == Map::<Seq<char>, ComponentInstance>::empty(),
            l.link_list() == Seq::<Link>::empty(),
    {
        let l = ComponentLinker { instances: Vec::new(), links: Vec::new() };
        proof {
            assert(named_map(Seq::<(String, ComponentInstance)>::empty()) =~= Map::<
                Seq<char>,
                ComponentInstance,
            >::empty());
            assert(keys_distinct(named_entries(Seq::<(String, ComponentInstance)>::empty())));
        }
        l
    }

    /// Registers an instance under its name (replacing one of the same
    /// name).
    pub fn register(&mut self, instance: ComponentInstance)
        requires
            old(self).wf(),
            instance.wf(),
        ensures
            final(self).wf(),
            final(self).instance_map() == old(self).instance_map().insert(instance.view_of().name, instance),
            final(self).link_list() == old(self).link_list(),
    {
        let key = instance.name.clone();
        named_put(&mut self.instances, key, instance);
    }

    /// Links `provider`'s export to `consumer`'s import; both must exist.
    pub fn link(&mut self, provider_name: &str, export_name: &str, consumer_name: &str, import_name: &str) -> (r: Result<
        (),
        CompositionError,
    >)
        requires
            old(self).wf(),
        ensures
            final(self).wf(),
            final(self).instance_map() == old(self).instance_map(),
            ({
                let m = old(self).instance_map();
                if !m.contains_key(provider_name@) || !m[provider_name@].view_of().exports.contains_key(export_name@) {
                    &&& r matches Err(CompositionError::MissingExport { component, export_name: e })
                    &&& component@ == provider_name@ && e@ == export_name@
                    &&& final(self).link_list() == old(self).link_list()
                } else if !m.contains_key(consumer_name@) || !m[consumer_name@].view_of().imports.contains_key(
                    import_name@,
                ) {
                    &&& r matches Err(CompositionError::MissingImport { component, import_name: i })
                    &&& component@ == consumer_name@ && i@ == import_name@
                    &&& final(self).link_list() == old(self).link_list()
                } else {
                    &&& r is Ok
                    &&& final(self).link_list().len() == old(self).link_list().len() + 1
                    &&& final(self).link_list().drop_last() == old(self).link_list()
                    &&& final(self).link_list().last().provider@ == provider_name@
                    &&& final(self).link_list().last().export_name@ == export_name@
                    &&& final(self).link_list().last().consumer@ == consumer_name@
                    &&& final(self).link_list().last().import_name@ == import_name@
                }
            }),
    {
        let has_export = match named_get(&self.instances, provider_name) {
            Some(p) => named_get(&p.exports, export_name).is_some(),
            None => false,
        };
        if !has_export {
            return Err(CompositionError::MissingExport {
                component: owned(provider_name),
                export_name: owned(export_name),
            });
        }
        let has_import = match named_get(&self.instances, consumer_name) {
            Some(c) => named_get(&c.imports, import_name).is_some(),
            None => false,
        };
        if !has_import {
            return Err(CompositionError::MissingImport {
                component: owned(consumer_name),
                import_name: owned(import_name),
            });
        }
        let ghost before = self.links@;
        self.links.push(Link {
            provider: owned(provider_name),
            export_name: owned(export_name),
            consumer: owned(consumer_name),
            import_name: owned(import_name),
        });
        proof {
            assert(self.links@.drop_last() =~= before);
        }
        Ok(())
    }

    /// The established links.
    pub fn links(&self) -> (l: &[Link])
        ensures
            l@ == self.link_list(),
    {
        self.links.as_slice()
    }

    /// The number of registered instances.
    pub fn instance_count(&self) -> (n: usize)
        requires
            self.wf(),
        ensures
            n == self.instance_map().len(),
    {
        proof {
            crate::assoc::lemma_assoc_len(named_entries(self.instances@));
        }
        self.instances.len()
    }

    /// The instance with this name, if any.
    pub fn get_instance(&self, name: &str) -> (r: Option<&ComponentInstance>)
        requires
            self.wf(),
        ensures
            match r {
                Some(c) => self.instance_map().contains_key(name@) && *c == self.instance_map()[name@],
                None => !self.instance_map().contains_key(name@),
            },
    {
        named_get(&self.instances, name)
    }

    /// The instance with this name, if any, for changing.
    pub fn get_instance_mut(&mut self, name: &str) -> (r: Option<&mut ComponentInstance>)
        requires
            old(self).wf(),
        ensures
            r is None ==> !old(self).instance_map().contains_key(name@) && final(self).instance_map() == old(self).instance_map(),
            r matches Some(c) ==> old(self).instance_map().contains_key(name@) && *c == old(self).instance_map()[name@]
                && final(self).instance_map() == old(self).instance_map().insert(name@, *final(c)),
            final(self).link_list() == old(self).link_list(),
    {
        named_get_mut(&mut self.instances, name)
    }

    /// The imports that no link satisfies, as (component, import) pairs.
    pub fn check_all_imports(&self) -> (r: Vec<(String, String)>)
        requires
            self.wf(),
        ensures
            r@.map_values(|p: (String, String)| (p.0@, p.1@)) == self.unsatisfied(),
    {
        let mut out: Vec<(String, String)> = Vec::new();
        let mut i: usize = 0;
        while i < self.instances.len()
            invariant
                i <= self.instances@.len(),
                out@.map_values(|p: (String, String)| (p.0@, p.1@)) + self.unsatisfied_from(i as int)
                    == self.unsatisfied_from(0),
            decreases self.instances@.len() - i,
        {
            let cname = &self.instances[i].0;
            let imps = &self.instances[i].1.imports;
            let mut j: usize = 0;
            let ghost base = out@.map_values(|p: (String, String)| (p.0@, p.1@));
            while j < imps.len()
                invariant
                    i < self.instances@.len(),
                    cname == self.instances@[i as int].0,
                    imps == self.instances@[i as int].1.imports,
                    j <= imps@.len(),
                    out@.map_values(|p: (String, String)| (p.0@, p.1@)) + unlinked_imports(self.links@, cname@, imps@, j as int)
                        == base + unlinked_imports(self.links@, cname@, imps@, 0),
                decreases imps@.len() - j,
            {
                let iname = &imps[j].0;
                let mut linked = false;
                let mut k: usize = 0;
                while k < self.links.len()
                    invariant
                        k <= self.links@.len(),
                        linked <==> exists|q: int| 0 <= q < k && self.links@[q].consumer@ == cname@
                            && #[trigger] self.links@[q].import_name@ == iname@,
                    decreases self.links@.len() - k,
                {
                    if str_eq(self.links[k].consumer.as_str(), cname.as_str()) && str_eq(
                        self.links[k].import_name.as_str(),
                        iname.as_str(),
                    ) {
                        linked = true;
                    }
                    k = k + 1;
                }
                let ghost prev = out@;
                if !linked {
                    out.push((cname.clone(), iname.clone()));
                }
                proof {
                    assert(prev.map_values(|p: (String, String)| (p.0@, p.1@)) + unlinked_imports(self.links@, cname@, imps@, j as int)
                        =~= out@.map_values(|p: (String, String)| (p.0@, p.1@)) + unlinked_imports(self.links@, cname@, imps@, j + 1));
                }
                j = j + 1;
            }
            proof {
                assert(out@.map_values(|p: (String, String)| (p.0@, p.1@)) + self.unsatisfied_from(i + 1) =~= base
                    + self.unsatisfied_from(i as int));
            }
            i = i + 1;
        }
        proof {
            assert(out@.map_values(|p: (String, String)| (p.0@, p.1@)) =~= self.unsatisfied_from(0));
        }
        out
    }
}

impl Default for ComponentLinker {
    fn default() -> (l: Self)
        ensures
            l.wf(),
            l.instance_map() == Map::<Seq<char>, ComponentInstance>::empty(),
            l.link_list() == Seq::<Link>::empty(),
    {
        Self::new()
    }
}


// ═════════════════════════════════════════════════════════════════════
// Virtual filesystem
// ═════════════════════════════════════════════════════════════════════

/// A virtual filesystem: the in-memory filesystem, mount labels, and a
/// read-only switch.
#[derive(Debug)]
pub struct VirtualFs {
    inner: WasiFilesystem,
    mounts: Vec<(String, String)>,
    read_only: bool,
}

/// `ps` joined by `/`.
pub open spec fn slash_joined(ps: Seq<Seq<char>>) -> Seq<char> {
    joined(ps, "/"@, 0)
}

/// The flags `preload_file` opens with: create, and truncate an existing
/// file so that it ends up holding exactly the given contents.
pub open spec fn preload_flags() -> OpenFlags {
    OpenFlags { create: true, directory: false, exclusive: false, truncate: true }
}

/// What `preload_file` does: open the root, create the parent directories
/// (when the path has more than one part), create and write the file, and
/// close it; each failure is reported with the step that failed.
pub open spec fn preload_spec(s: FsView, path: Seq<char>, contents: Seq<u8>) -> (FsView, Result<(), Seq<char>>) {
    let root = s.next_fd;
    let s1 = alloc_view(s, 0);
    let parts = path_components(path);
    let made = if parts.len() > 1 {
        create_directory_spec(s1, root, slash_joined(parts.drop_last()))
    } else {
        (s1, Ok(()))
    };
    match made.1 {
        Err(e) => (made.0, Err("failed to create directories: "@ + fs_error_text(e))),
        Ok(_) => {
            let opened = open_at_spec(made.0, root, path, preload_flags());
            match opened.1 {
                Err(e) => (opened.0, Err("failed to open file: "@ + fs_error_text(e))),
                Ok(fd) => {
                    let written = write_spec(opened.0, fd, contents);
                    match written.1 {
                        Err(e) => (written.0, Err("failed to write file: "@ + fs_error_text(e))),
                        Ok(_) => if written.0.fds.contains_key(fd) {
                            (FsView { fds: written.0.fds.remove(fd), ..written.0 }, Ok(()))
                        } else {
                            (written.0, Err("failed to close file: "@ + fs_error_text(FsError::BadDescriptor)))
                        },
                    }
                },
            }
        },
    }
}

/// When `preload_file` does not overflow a counter.
pub open spec fn preload_pre(s: FsView, path: Seq<char>) -> bool {
    let parts = path_components(path);
    &&& s.next_fd + 2 <= u32::MAX
    &&& s.clock + path_components(slash_joined(parts.drop_last())).len() + 2 <= u64::MAX
}

impl VirtualFs {
    /// The underlying filesystem.
    pub closed spec fn fs(&self) -> WasiFilesystem {
        self.inner
    }

    /// The mount labels, by path prefix.
    pub closed spec fn mount_map(&self) -> Map<Seq<char>, Seq<char>> {
        named_map(self.mounts@).map_values(|v: String| v@)
    }

    /// Whether writes are refused.
    pub closed spec fn read_only_flag(&self) -> bool {
        self.read_only
    }

    /// Mount prefixes are distinct.
    pub closed spec fn mounts_ok(&self) -> bool {
        keys_distinct(named_entries(self.mounts@))
    }

    /// The filesystem is well formed and mount prefixes are distinct.
    pub closed spec fn wf(&self) -> bool {
        self.inner.wf() && self.mounts_ok()
    }

    /// A virtual filesystem over a fresh filesystem.
    pub fn new() -> (v: Self)
        ensures
            v.wf(),
            v.fs()@ == WasiFilesystem::new_state(),
            v.mount_map() == Map::<Seq<char>, Seq<char>>::empty(),
            !v.read_only_flag(),
    {
        let inner = WasiFilesystem::new();
        proof {
            WasiFilesystem::lemma_new_state(inner);
        }
        Self::from_fs(inner)
    }

    /// A virtual filesystem over an existing filesystem.
    pub fn from_fs(fs: WasiFilesystem) -> (v: Self)
        ensures
            v.wf() == fs.wf(),
            v.fs() == fs,
            v.mount_map() == Map::<Seq<char>, Seq<char>>::empty(),
            !v.read_only_flag(),
    {
        let v = VirtualFs { inner: fs, mounts: Vec::new(), read_only: false };
        proof {
            assert(named_map(Seq::<(String, String)>::empty()) =~= Map::<Seq<char>, String>::empty());
            assert(v.mount_map() =~= Map::<Seq<char>, Seq<char>>::empty());
            assert(keys_distinct(named_entries(Seq::<(String, String)>::empty())));
        }
        v
    }

    /// Adds a mount label for a path prefix.
    pub fn mount(&mut self, path_prefix: &str, label: &str)
        requires
            old(self).wf(),
        ensures
            final(self).wf(),
            final(self).mount_map() == old(self).mount_map().insert(path_prefix@, label@),
            final(self).fs() == old(self).fs(),
            final(self).read_only_flag() == old(self).read_only_flag(),
    {
        let ghost before = named_map(self.mounts@);
        named_put(&mut self.mounts, owned(path_prefix), owned(label));
        proof {
            assert(self.mount_map() =~= before.map_values(|v: String| v@).insert(path_prefix@, label@));
        }
    }

    /// Sets the read-only switch.
    pub fn set_read_only(&mut self, read_only: bool)
        ensures
            final(self).read_only_flag() == read_only,
            final(self).fs() == old(self).fs(),
            final(self).mount_map() == old(self).mount_map(),
            final(self).wf() == old(self).wf(),
    {
        self.read_only = read_only;
    }

    /// Whether writes are refused.
    pub fn is_read_only(&self) -> (b: bool)
        ensures
            b == self.read_only_flag(),
    {
        self.read_only
    }

    /// The mount table: path prefix and label.
    pub fn mounts(&self) -> (t: &Vec<(String, String)>)
        requires
            self.wf(),
        ensures
            keys_distinct(named_entries(t@)),
            named_map(t@).map_values(|v: String| v@) == self.mount_map(),
    {
        &self.mounts
    }

    /// The underlying filesystem, for changing.
    pub fn inner_mut(&mut self) -> (r: &mut WasiFilesystem)
        ensures
            *r == old(self).fs(),
            final(self).fs() == *final(r),
            final(self).mount_map() == old(self).mount_map(),
            final(self).read_only_flag() == old(self).read_only_flag(),
            final(self).mounts_ok() == old(self).mounts_ok(),
    {
        &mut self.inner
    }

    /// The underlying filesystem.
    pub fn inner(&self) -> (r: &WasiFilesystem)
        ensures
            *r == self.fs(),
    {
        &self.inner
    }

    /// Puts a file with the given contents into the filesystem, creating
    /// its parent directories.
    pub fn preload_file(&mut self, path: &str, contents: &[u8]) -> (r: Result<(), String>)
        requires
            old(self).wf(),
            preload_pre(old(self).fs()@, path@),
        ensures
            final(self).wf(),
            final(self).fs()@ == preload_spec(old(self).fs()@, path@, contents@).0,
            match r {
                Ok(()) => preload_spec(old(self).fs()@, path@, contents@).1 is Ok,
                Err(m) => preload_spec(old(self).fs()@, path@, contents@).1 == Err::<(), Seq<char>>(m@),
            },
            final(self).mount_map() == old(self).mount_map(),
            final(self).read_only_flag() == old(self).read_only_flag(),
    {
        let ghost s0 = self.inner@;
        let root = self.inner.open_root();
        let parts = split_path(path);
        let ghost comps = path_components(path@);
        if parts.len() > 1 {
            let dir_path = join_prefix(&parts, parts.len() - 1);
            proof {
                assert(strs(parts@).take(parts@.len() - 1) =~= comps.drop_last());
                assert(self.inner@.clock == s0.clock);
            }
            match self.inner.create_directory_at(root, dir_path.as_str()) {
                Ok(()) => {},
                Err(e) => {
                    let mut m = owned("failed to create directories: ");
                    let t = e.to_string();
                    push_str(&mut m, t.as_str());
                    return Err(m);
                },
            }
            proof {
                lemma_mkdirs_counters(alloc_view(s0, 0), 0, path_components(slash_joined(comps.drop_last())));
            }
        }
        proof {
            assert(self.inner@.next_fd == s0.next_fd + 1);
            assert(self.inner@.clock <= s0.clock + path_components(slash_joined(comps.drop_last())).len());
            assert(self.inner@.fds.contains_key(root));
        }
        let ghost s2 = self.inner@;
        let flags = OpenFlags { create: true, directory: false, exclusive: false, truncate: true };
        let fd = match self.inner.open_at(root, path, flags, DescriptorFlags { read: false, write: false, sync: false, dsync: false, nonblock: false, append: false }) {
            Ok(fd) => fd,
            Err(e) => {
                let mut m = owned("failed to open file: ");
                let t = e.to_string();
                push_str(&mut m, t.as_str());
                return Err(m);
            },
        };
        let clen = contents.len();
        proof {
            assert(contents@.len() == clen);
            assert(self.inner@.fds[fd].1 == 0);
            assert(self.inner@.clock <= s2.clock + 1);
        }
        match self.inner.write(fd, contents) {
            Ok(_) => {},
            Err(e) => {
                let mut m = owned("failed to write file: ");
                let t = e.to_string();
                push_str(&mut m, t.as_str());
                return Err(m);
            },
        }
        match self.inner.close(fd) {
            Ok(()) => {},
            Err(e) => {
                let mut m = owned("failed to close file: ");
                let t = e.to_string();
                push_str(&mut m, t.as_str());
                return Err(m);
            },
        }
        Ok(())
    }
}

/// The first `n` strings joined by `/`.
fn join_prefix(parts: &Vec<String>, n: usize) -> (s: String)
    requires
        n <= parts@.len(),
    ensures
        s@ == slash_joined(strs(parts@).take(n as int)),
{
    let mut s = String::new();
    let ghost t = strs(parts@).take(n as int);
    let mut i: usize = 0;
    while i < n
        invariant
            i <= n,
            n <= parts@.len(),
            t == strs(parts@).take(n as int),
            joined(t, "/"@, 0) == s@ + joined(t, "/"@, i as int),
        decreases n - i,
    {
        if i > 0 {
            push_str(&mut s, "/");
        }
        push_str(&mut s, parts[i].as_str());
        i = i + 1;
    }
    s
}

impl Default for VirtualFs {
    fn default() -> (v: Self)
        ensures
            v.wf(),
            v.fs()@ == WasiFilesystem::new_state(),
            v.mount_map() == Map::<Seq<char>, Seq<char>>::empty(),
            !v.read_only_flag(),
    {
        Self::new()
    }
}

// ═════════════════════════════════════════════════════════════════════
// Build targets
// ═════════════════════════════════════════════════════════════════════

/// A WASI build target.
#[derive(Debug, Clone, Copy, PartialEq, Eq, Structural)]
pub enum WasiTarget {
    /// `wasm32-wasi`: a core module with Preview 1 imports.
    WasmWasiP1,
    /// `wasm32-wasi-p2`: a component with Preview 2 interfaces.
    WasmWasiP2,
}

/// The target a triple names, if any.
pub open spec fn target_of(triple: Seq<char>) -> Option<WasiTarget> {
    if triple == "wasm32-wasi"@ || triple == "wasm32-wasi-p1"@ {
        Some(WasiTarget::WasmWasiP1)
    } else if triple == "wasm32-wasi-p2"@ || triple == "wasm32-wasip2"@ {
        Some(WasiTarget::WasmWasiP2)
    } else {
        None
    }
}

/// The canonical triple of a target.
pub open spec fn triple_of(t: WasiTarget) -> Seq<char> {
    match t {
        WasiTarget::WasmWasiP1 => "wasm32-wasi"@,
        WasiTarget::WasmWasiP2 => "wasm32-wasi-p2"@,
    }
}

impl WasiTarget {
    /// Parses a target triple.
    pub fn from_triple(triple: &str) -> (r: Option<Self>)
        ensures
            r == target_of(triple@),
    {
        if str_eq(triple, "wasm32-wasi") || str_eq(triple, "wasm32-wasi-p1") {
            Some(WasiTarget::WasmWasiP1)
        } else if str_eq(triple, "wasm32-wasi-p2") || str_eq(triple, "wasm32-wasip2") {
            Some(WasiTarget::WasmWasiP2)
        } else {
            None
        }
    }

    /// The canonical triple.
    pub fn triple(&self) -> (s: &'static str)
        ensures
            s@ == triple_of(*self),
    {
        match self {
            WasiTarget::WasmWasiP1 => "wasm32-wasi",
            WasiTarget::WasmWasiP2 => "wasm32-wasi-p2",
        }
    }

    /// The file extension of the output.
    pub fn output_extension(&self) -> (s: &'static str)
        ensures
            s@ == match *self {
                WasiTarget::WasmWasiP1 => "wasm"@,
                WasiTarget::WasmWasiP2 => "component.wasm"@,
            },
    {
        match self {
            WasiTarget::WasmWasiP1 => "wasm",
            WasiTarget::WasmWasiP2 => "component.wasm",
        }
    }

    /// Whether the output is a component.
    pub fn is_component(&self) -> (b: bool)
        ensures
            b == (*self == WasiTarget::WasmWasiP2),
    {
        match self {
            WasiTarget::WasmWasiP1 => false,
            WasiTarget::WasmWasiP2 => true,
        }
    }

    /// The canonical triple, as a string.
    pub fn to_string(&self) -> (s: String)
        ensures
            s@ == triple_of(*self),
    {
        owned(self.triple())
    }
}

/// A build configuration.
#[derive(Debug, Clone)]
pub struct WasiBuildConfig {
    /// The target.
    pub target: WasiTarget,
    /// Output file path.
    pub output_path: String,
    /// Whether to strip debug info.
    pub strip_debug: bool,
    /// Whether to optimize for size.
    pub optimize_size: bool,
    /// Additional WIT files.
    pub wit_files: Vec<String>,
    /// Enabled features.
    pub features: Vec<String>,
}

impl WasiBuildConfig {
    /// A configuration with no stripping, no size optimization, no WIT
    /// files and no features.
    pub fn new(target: WasiTarget, output_path: &str) -> (c: Self)
        ensures
            c.target == target,
            c.output_path@ == output_path@,
            !c.strip_debug,
            !c.optimize_size,
            c.wit_files@ == Seq::<String>::empty(),
            c.features@ == Seq::<String>::empty(),
    {
        WasiBuildConfig {
            target,
            output_path: owned(output_path),
            strip_debug: false,
            optimize_size: false,
            wit_files: Vec::new(),
            features: Vec::new(),
        }
    }
}


// ═════════════════════════════════════════════════════════════════════
// Preview 1 adapter
// ═════════════════════════════════════════════════════════════════════

/// Wraps a Preview 1 core module into a Preview 2 component, mapping
/// Preview 1 imports and exports to Preview 2 names.
#[derive(Debug)]
pub struct ComponentAdapter {
    p1_module: Vec<u8>,
    import_map: Vec<(String, String)>,
    export_map: Vec<(String, String)>,
}

/// The standard import mappings, Preview 1 name to Preview 2 function.
pub open spec fn standard_import_map() -> Seq<(Seq<char>, Seq<char>)> {
    seq![
        ("fd_read"@, "wasi:io/streams.read"@),
        ("fd_write"@, "wasi:io/streams.write"@),
        ("fd_close"@, "wasi:io/streams.drop"@),
        ("path_open"@, "wasi:filesystem/types.open-at"@),
        ("fd_prestat_get"@, "wasi:filesystem/preopens.get-directories"@),
        ("clock_time_get"@, "wasi:clocks/monotonic-clock.now"@),
        ("environ_get"@, "wasi:cli/environment.get-environment"@),
        ("args_get"@, "wasi:cli/environment.get-arguments"@),
        ("proc_exit"@, "wasi:cli/exit.exit"@),
        ("random_get"@, "wasi:random/random.get-random-bytes"@),
    ]
}

/// The standard export mappings.
pub open spec fn standard_export_map() -> Seq<(Seq<char>, Seq<char>)> {
    seq![
        ("_start"@, "wasi:cli/run.run"@),
        ("memory"@, "memory"@),
    ]
}

/// The texts of a table of strings.
pub open spec fn pair_texts(v: Seq<(String, String)>) -> Seq<(Seq<char>, Seq<char>)> {
    v.map_values(|e: (String, String)| (e.0@, e.1@))
}

/// Adds an instance type and an import for each mapping `imps[i..]`.
pub open spec fn import_fold(b: BuilderView, imps: Seq<(Seq<char>, Seq<char>)>, i: int) -> BuilderView
    decreases imps.len() - i,
{
    if 0 <= i < imps.len() {
        let idx = b.types.len() as u32;
        import_fold(with_import(with_type(b, KindView::Instance(Seq::empty())), imps[i].1, idx), imps, i + 1)
    } else {
        b
    }
}

/// Adds a function type and an export for each mapping `exps[i..]`.
pub open spec fn export_fold(b: BuilderView, exps: Seq<(Seq<char>, Seq<char>)>, i: int) -> BuilderView
    decreases exps.len() - i,
{
    if 0 <= i < exps.len() {
        let idx = b.types.len() as u32;
        let f = FuncView { name: exps[i].1, params: Seq::empty(), result: None };
        export_fold(with_export(with_type(b, KindView::Func(f)), exps[i].1, ExportKind::Func, idx), exps, i + 1)
    } else {
        b
    }
}

/// The component an adapter builds: the core module, then one import per
/// import mapping and one function export per export mapping, in table
/// order, with `cabi_realloc`.
pub open spec fn adapted(p1: Seq<u8>, imps: Seq<(Seq<char>, Seq<char>)>, exps: Seq<(Seq<char>, Seq<char>)>) -> BuilderView {
    let b0 = BuilderView { core: Some(p1), ..empty_builder() };
    BuilderView { realloc: true, ..export_fold(import_fold(b0, imps, 0), exps, 0) }
}

impl ComponentAdapter {
    /// The wrapped module.
    pub closed spec fn module(&self) -> Seq<u8> {
        self.p1_module@
    }

    /// The import mappings, in table order.
    pub closed spec fn import_entries(&self) -> Seq<(Seq<char>, Seq<char>)> {
        pair_texts(self.import_map@)
    }

    /// The export mappings, in table order.
    pub closed spec fn export_entries(&self) -> Seq<(Seq<char>, Seq<char>)> {
        pair_texts(self.export_map@)
    }

    /// Mapping names are distinct.
    pub closed spec fn wf(&self) -> bool {
        keys_distinct(named_entries(self.import_map@)) && keys_distinct(named_entries(self.export_map@))
    }

    /// An adapter with the standard mappings.
    pub fn new(p1_module: Vec<u8>) -> (a: Self)
        ensures
            a.wf(),
            a.module() == p1_module@,
            a.import_entries() == standard_import_map(),
            a.export_entries() == standard_export_map(),
    {
        let mut t: Vec<(String, String)> = Vec::new();
        t.push((owned("fd_read"), owned("wasi:io/streams.read")));
        t.push((owned("fd_write"), owned("wasi:io/streams.write")));
        t.push((owned("fd_close"), owned("wasi:io/streams.drop")));
        t.push((owned("path_open"), owned("wasi:filesystem/types.open-at")));
        t.push((owned("fd_prestat_get"), owned("wasi:filesystem/preopens.get-directories")));
        t.push((owned("clock_time_get"), owned("wasi:clocks/monotonic-clock.now")));
        t.push((owned("environ_get"), owned("wasi:cli/environment.get-environment")));
        t.push((owned("args_get"), owned("wasi:cli/environment.get-arguments")));
        t.push((owned("proc_exit"), owned("wasi:cli/exit.exit")));
        t.push((owned("random_get"), owned("wasi:random/random.get-random-bytes")));
        let mut e: Vec<(String, String)> = Vec::new();
        e.push((owned("_start"), owned("wasi:cli/run.run")));
        e.push((owned("memory"), owned("memory")));
        let a = ComponentAdapter { p1_module, import_map: t, export_map: e };
        proof {
            assert(a.import_entries() =~= standard_import_map());
            assert(a.export_entries() =~= standard_export_map());
            assert(keys_distinct(named_entries(a.import_map@))) by {
                reveal_strlit("fd_read");
                reveal_strlit("fd_write");
                reveal_strlit("fd_close");
                reveal_strlit("path_open");
                reveal_strlit("fd_prestat_get");
                reveal_strlit("clock_time_get");
                reveal_strlit("environ_get");
                reveal_strlit("args_get");
                reveal_strlit("proc_exit");
                reveal_strlit("random_get");
                let ne = named_entries(a.import_map@);
                assert forall|i: int| 0 <= i < ne.len() implies #[trigger] ne[i].0 == standard_import_map()[i].0 by {}
                assert("fd_write"@[3] != "fd_close"@[3]);
                assert("fd_write"@[0] != "args_get"@[0]);
                assert("fd_close"@[0] != "args_get"@[0]);
                assert("path_open"@[0] != "proc_exit"@[1]);
                assert("path_open"@[1] != "proc_exit"@[1]);
                assert("fd_prestat_get"@[0] != "clock_time_get"@[0]);
                assert forall|i: int, j: int| 0 <= i < j < ne.len() implies #[trigger] ne[i].0 != #[trigger] ne[j].0 by {
                    assert(ne[i].0 == standard_import_map()[i].0);
                    assert(ne[j].0 == standard_import_map()[j].0);
                }
            }
            assert(keys_distinct(named_entries(a.export_map@))) by {
                reveal_strlit("_start");
                reveal_strlit("memory");
                let ne = named_entries(a.export_map@);
                assert forall|i: int| 0 <= i < ne.len() implies #[trigger] ne[i].0 == standard_export_map()[i].0 by {}
                assert("_start"@[0] != "memory"@[0]);
                assert forall|i: int, j: int| 0 <= i < j < ne.len() implies #[trigger] ne[i].0 != #[trigger] ne[j].0 by {
                    assert(ne[i].0 == standard_export_map()[i].0);
                    assert(ne[j].0 == standard_export_map()[j].0);
                }
            }
        }
        a
    }

    /// Builds the component binary.
    pub fn adapt(&self) -> (r: Vec<u8>)
        ensures
            r@ == component_bytes(adapted(self.module(), self.import_entries(), self.export_entries())),
    {
        let mut builder = ComponentBuilder::new();
        let module = self.p1_module.clone();
        proof {
            assert(module@ =~= self.p1_module@);
        }
        builder.set_core_module(module);
        let ghost b0 = builder@;
        let ghost imps = self.import_entries();
        let ghost exps = self.export_entries();
        let mut i: usize = 0;
        while i < self.import_map.len()
            invariant
                i <= self.import_map@.len(),
                imps == pair_texts(self.import_map@),
                import_fold(b0, imps, 0) == import_fold(builder@, imps, i as int),
            decreases self.import_map@.len() - i,
        {
            let idx = builder.add_type(ComponentTypeKind::Instance(Vec::new()));
            proof {
                assert(Seq::<ComponentFuncType>::empty().map_values(|f: ComponentFuncType| crate::component::func_view(f))
                    =~= Seq::<FuncView>::empty());
            }
            builder.add_import(self.import_map[i].1.as_str(), idx);
            i = i + 1;
        }
        let ghost b1 = builder@;
        let mut j: usize = 0;
        while j < self.export_map.len()
            invariant
                j <= self.export_map@.len(),
                exps == pair_texts(self.export_map@),
                export_fold(b1, exps, 0) == export_fold(builder@, exps, j as int),
            decreases self.export_map@.len() - j,
        {
            let name = self.export_map[j].1.clone();
            let idx = builder.add_type(ComponentTypeKind::Func(ComponentFuncType { name, params: Vec::new(), result: None }));
            proof {
                assert(crate::component::field_views(Seq::<(String, crate::component::ComponentValType)>::empty(), 0)
                    =~= Seq::<(Seq<char>, crate::component::CvtView)>::empty());
            }
            builder.add_export(self.export_map[j].1.as_str(), ExportKind::Func, idx);
            j = j + 1;
        }
        builder.enable_realloc();
        proof {
            assert(b0 == (BuilderView { core: Some(self.module()), ..empty_builder() }));
        }
        builder.build()
    }

    /// The import mappings: Preview 1 name and Preview 2 function.
    pub fn import_map(&self) -> (t: &Vec<(String, String)>)
        ensures
            pair_texts(t@) == self.import_entries(),
    {
        &self.import_map
    }

    /// The export mappings.
    pub fn export_map(&self) -> (t: &Vec<(String, String)>)
        ensures
            pair_texts(t@) == self.export_entries(),
    {
        &self.export_map
    }

    /// Adds or replaces an import mapping.
    pub fn add_import_mapping(&mut self, p1_name: &str, p2_path: &str)
        requires
            old(self).wf(),
        ensures
            final(self).wf(),
            assoc_map(final(self).import_entries()) == assoc_map(old(self).import_entries()).insert(p1_name@, p2_path@),
            final(self).export_entries() == old(self).export_entries(),
            final(self).module() == old(self).module(),
    {
        let ghost before = named_map(self.import_map@);
        named_put(&mut self.import_map, owned(p1_name), owned(p2_path));
        proof {
            lemma_pair_texts_map(old(self).import_map@);
            lemma_pair_texts_map(self.import_map@);
            assert(before.map_values(|v: String| v@).insert(p1_name@, p2_path@) =~= named_map(self.import_map@).map_values(|v: String| v@));
        }
    }

    /// Adds or replaces an export mapping.
    pub fn add_export_mapping(&mut self, p1_name: &str, p2_name: &str)
        requires
            old(self).wf(),
        ensures
            final(self).wf(),
            assoc_map(final(self).export_entries()) == assoc_map(old(self).export_entries()).insert(p1_name@, p2_name@),
            final(self).import_entries() == old(self).import_entries(),
            final(self).module() == old(self).module(),
    {
        let ghost before = named_map(self.export_map@);
        named_put(&mut self.export_map, owned(p1_name), owned(p2_name));
        proof {
            lemma_pair_texts_map(old(self).export_map@);
            lemma_pair_texts_map(self.export_map@);
            assert(before.map_values(|v: String| v@).insert(p1_name@, p2_name@) =~= named_map(self.export_map@).map_values(|v: String| v@));
        }
    }
}

/// The map of a table's texts is the map of the table, read as text.
proof fn lemma_pair_texts_map(v: Seq<(String, String)>)
    ensures
        assoc_map(pair_texts(v)) == named_map(v).map_values(|x: String| x@),
    decreases v.len(),
{
    if v.len() > 0 {
        lemma_pair_texts_map(v.drop_last());
        assert(pair_texts(v).drop_last() =~= pair_texts(v.drop_last()));
        assert(named_entries(v).drop_last() =~= named_entries(v.drop_last()));
        assert(assoc_map(pair_texts(v)) =~= named_map(v).map_values(|x: String| x@));
    } else {
        assert(assoc_map(pair_texts(v)) =~= named_map(v).map_values(|x: String| x@));
    }
}


// ═════════════════════════════════════════════════════════════════════
// Import satisfaction
// ═════════════════════════════════════════════════════════════════════

/// A required import.
#[derive(Debug, Clone)]
pub struct ImportRequirement {
    /// The interface name.
    pub interface_name: String,
    /// What the import provides.
    pub description: String,
    /// Whether the import is optional.
    pub optional: bool,
}

/// The value of a requirement.
pub open spec fn req_view(r: ImportRequirement) -> (Seq<char>, Seq<char>, bool) {
    (r.interface_name@, r.description@, r.optional)
}

impl ImportRequirement {
    /// A copy of this requirement.
    pub fn duplicate(&self) -> (r: Self)
        ensures
            req_view(r) == req_view(*self),
    {
        ImportRequirement {
            interface_name: self.interface_name.clone(),
            description: self.description.clone(),
            optional: self.optional,
        }
    }
}

/// The outcome of an import check.
#[derive(Debug, Clone)]
pub struct ImportCheckResult {
    /// Whether every non-optional import is provided.
    pub satisfied: bool,
    /// Missing required imports.
    pub missing: Vec<ImportRequirement>,
    /// Missing optional imports.
    pub missing_optional: Vec<ImportRequirement>,
    /// Names of the provided imports.
    pub satisfied_imports: Vec<String>,
}

/// Checks that the imports of a component are provided.
#[derive(Debug)]
pub struct ImportChecker {
    required: Vec<(String, ImportRequirement)>,
    provided: Vec<(String, String)>,
}

/// The names among `reqs[i..]` that are provided.
pub open spec fn provided_names(reqs: Seq<(String, ImportRequirement)>, prov: Map<Seq<char>, String>, i: int) -> Seq<
    Seq<char>,
>
    decreases reqs.len() - i,
{
    if 0 <= i < reqs.len() {
        (if prov.contains_key(reqs[i].0@) {
            seq![reqs[i].0@]
        } else {
            Seq::empty()
        }) + provided_names(reqs, prov, i + 1)
    } else {
        Seq::empty()
    }
}

/// The requirements among `reqs[i..]` that are not provided and whose
/// optional flag is `optional`.
pub open spec fn unprovided(
    reqs: Seq<(String, ImportRequirement)>,
    prov: Map<Seq<char>, String>,
    optional: bool,
    i: int,
) -> Seq<(Seq<char>, Seq<char>, bool)>
    decreases reqs.len() - i,
{
    if 0 <= i < reqs.len() {
        (if !prov.contains_key(reqs[i].0@) && reqs[i].1.optional == optional {
            seq![req_view(reqs[i].1)]
        } else {
            Seq::empty()
        }) + unprovided(reqs, prov, optional, i + 1)
    } else {
        Seq::empty()
    }
}

impl ImportChecker {
    /// The requirements, in table order.
    pub closed spec fn requirements(&self) -> Seq<(String, ImportRequirement)> {
        self.required@
    }

    /// The provided imports, by name.
    pub closed spec fn provided_map(&self) -> Map<Seq<char>, String> {
        named_map(self.provided@)
    }

    /// Names in both tables are distinct.
    pub closed spec fn wf(&self) -> bool {
        keys_distinct(named_entries(self.required@)) && keys_distinct(named_entries(self.provided@))
    }

    /// An empty checker.
    pub fn new() -> (c: Self)
        ensures
            c.wf(),
            c.requirements() == Seq::<(String, ImportRequirement)>::empty(),
            c.provided_map() == Map::<Seq<char>, String>::empty(),
    {
        let c = ImportChecker { required: Vec::new(), provided: Vec::new() };
        proof {
            assert(named_map(Seq::<(String, String)>::empty()) =~= Map::<Seq<char>, String>::empty());
            assert(keys_distinct(named_entries(Seq::<(String, String)>::empty())));
            assert(keys_distinct(named_entries(Seq::<(String, ImportRequirement)>::empty())));
        }
        c
    }

    /// Requires an import (replacing an earlier requirement of that name).
    pub fn require(&mut self, name: &str, description: &str, optional: bool)
        requires
            old(self).wf(),
        ensures
            final(self).wf(),
            named_map(final(self).requirements()).map_values(|r: ImportRequirement| req_view(r))
                == named_map(old(self).requirements()).map_values(|r: ImportRequirement| req_view(r)).insert(
                name@,
                (name@, description@, optional),
            ),
            final(self).provided_map() == old(self).provided_map(),
    {
        let ghost before = named_map(self.required@);
        let req = ImportRequirement { interface_name: owned(name), description: owned(description), optional };
        named_put(&mut self.required, owned(name), req);
        proof {
            assert(named_map(self.required@).map_values(|r: ImportRequirement| req_view(r)) =~= before.map_values(
                |r: ImportRequirement| req_view(r),
            ).insert(name@, (name@, description@, optional)));
        }
    }

    /// Marks an import as provided.
    pub fn provide(&mut self, name: &str, provider: &str)
        requires
            old(self).wf(),
        ensures
            final(self).wf(),
            final(self).provided_map().dom() == old(self).provided_map().dom().insert(name@),
            final(self).provided_map()[name@]@ == provider@,
            final(self).requirements() == old(self).requirements(),
    {
        named_put(&mut self.provided, owned(name), owned(provider));
    }

    /// Checks the requirements in table order: provided names, missing
    /// required imports and missing optional imports.
    pub fn check(&self) -> (r: ImportCheckResult)
        requires
            self.wf(),
        ensures
            r.satisfied_imports@.map_values(|s: String| s@) == provided_names(self.requirements(), self.provided_map(), 0),
            r.missing@.map_values(|q: ImportRequirement| req_view(q)) == unprovided(self.requirements(), self.provided_map(), false, 0),
            r.missing_optional@.map_values(|q: ImportRequirement| req_view(q)) == unprovided(self.requirements(), self.provided_map(), true, 0),
            r.satisfied == (r.missing@.len() == 0),
    {
        let mut missing: Vec<ImportRequirement> = Vec::new();
        let mut missing_optional: Vec<ImportRequirement> = Vec::new();
        let mut satisfied_imports: Vec<String> = Vec::new();
        let ghost reqs = self.required@;
        let ghost prov = named_map(self.provided@);
        let mut i: usize = 0;
        while i < self.required.len()
            invariant
                i <= reqs.len(),
                reqs == self.required@,
                prov == named_map(self.provided@),
                keys_distinct(named_entries(self.provided@)),
                satisfied_imports@.map_values(|s: String| s@) + provided_names(reqs, prov, i as int) == provided_names(reqs, prov, 0),
                missing@.map_values(|q: ImportRequirement| req_view(q)) + unprovided(reqs, prov, false, i as int) == unprovided(reqs, prov, false, 0),
                missing_optional@.map_values(|q: ImportRequirement| req_view(q)) + unprovided(reqs, prov, true, i as int) == unprovided(reqs, prov, true, 0),
            decreases reqs.len() - i,
        {
            let name = &self.required[i].0;
            let req = &self.required[i].1;
            let ghost s0 = satisfied_imports@;
            let ghost m0 = missing@;
            let ghost o0 = missing_optional@;
            if named_get(&self.provided, name.as_str()).is_some() {
                satisfied_imports.push(name.clone());
            } else if req.optional {
                missing_optional.push(req.duplicate());
            } else {
                missing.push(req.duplicate());
            }
            proof {
                assert(s0.map_values(|s: String| s@) + provided_names(reqs, prov, i as int) =~= satisfied_imports@.map_values(|s: String| s@) + provided_names(reqs, prov, i + 1));
                assert(m0.map_values(|q: ImportRequirement| req_view(q)) + unprovided(reqs, prov, false, i as int) =~= missing@.map_values(|q: ImportRequirement| req_view(q)) + unprovided(reqs, prov, false, i + 1));
                assert(o0.map_values(|q: ImportRequirement| req_view(q)) + unprovided(reqs, prov, true, i as int) =~= missing_optional@.map_values(|q: ImportRequirement| req_view(q)) + unprovided(reqs, prov, true, i + 1));
            }
            i = i + 1;
        }
        proof {
            assert(satisfied_imports@.map_values(|s: String| s@) =~= provided_names(reqs, prov, 0));
            assert(missing@.map_values(|q: ImportRequirement| req_view(q)) =~= unprovided(reqs, prov, false, 0));
            assert(missing_optional@.map_values(|q: ImportRequirement| req_view(q)) =~= unprovided(reqs, prov, true, 0));
        }
        let satisfied = missing.len() == 0;
        ImportCheckResult { satisfied, missing, missing_optional, satisfied_imports }
    }
}

impl Default for ImportChecker {
    fn default() -> (c: Self)
        ensures
            c.wf(),
            c.requirements() == Seq::<(String, ImportRequirement)>::empty(),
            c.provided_map() == Map::<Seq<char>, String>::empty(),
    {
        Self::new()
    }
}


// ═════════════════════════════════════════════════════════════════════
// WIT registry
// ═════════════════════════════════════════════════════════════════════

/// A registered interface.
#[derive(Debug, Clone)]
pub struct WitInterfaceEntry {
    /// Full interface path.
    pub path: String,
    /// Function names.
    pub functions: Vec<String>,
    /// Version.
    pub version: String,
    /// Short description.
    pub description: String,
}

/// The value of an interface entry: path, functions, version, description.
pub open spec fn entry_view(e: WitInterfaceEntry) -> (Seq<char>, Seq<Seq<char>>, Seq<char>, Seq<char>) {
    (e.path@, texts(e.functions@), e.version@, e.description@)
}

/// The standard WASI Preview 2 interfaces.
pub open spec fn standard_registry() -> Seq<(Seq<char>, Seq<Seq<char>>, Seq<char>, Seq<char>)> {
    seq![
        ("wasi:io/streams@0.2.0"@, seq!["read"@, "blocking-read"@, "write"@, "blocking-write-and-flush"@, "subscribe"@, "drop"@], "0.2.0"@, "WASI I/O streams interface"@),
        ("wasi:filesystem/types@0.2.0"@, seq!["open-at"@, "read-via-stream"@, "write-via-stream"@, "stat"@, "stat-at"@, "readdir"@, "create-directory-at"@, "unlink-file-at"@, "rename-at"@], "0.2.0"@, "WASI filesystem types interface"@),
        ("wasi:filesystem/preopens@0.2.0"@, seq!["get-directories"@], "0.2.0"@, "WASI filesystem preopens interface"@),
        ("wasi:cli/environment@0.2.0"@, seq!["get-environment"@, "get-arguments"@, "initial-cwd"@], "0.2.0"@, "WASI CLI environment interface"@),
        ("wasi:cli/exit@0.2.0"@, seq!["exit"@], "0.2.0"@, "WASI CLI exit interface"@),
        ("wasi:clocks/monotonic-clock@0.2.0"@, seq!["now"@, "resolution"@, "subscribe-instant"@], "0.2.0"@, "WASI monotonic clock interface"@),
        ("wasi:clocks/wall-clock@0.2.0"@, seq!["now"@, "resolution"@], "0.2.0"@, "WASI wall clock interface"@),
        ("wasi:random/random@0.2.0"@, seq!["get-random-bytes"@, "get-random-u64"@], "0.2.0"@, "WASI random number interface"@),
        ("wasi:http/types@0.2.0"@, seq!["new-outgoing-request"@, "outgoing-request-write"@, "incoming-response-consume"@], "0.2.0"@, "WASI HTTP types interface"@),
        ("wasi:http/outgoing-handler@0.2.0"@, seq!["handle"@], "0.2.0"@, "WASI HTTP outgoing request handler"@),
        ("wasi:sockets/tcp@0.2.0"@, seq!["create-tcp-socket"@, "bind"@, "connect"@, "listen"@, "accept"@], "0.2.0"@, "WASI TCP socket interface"@),
    ]
}

/// The part of an interface path before its first `@`.
pub open spec fn base_of(s: Seq<char>) -> Seq<char>
    decreases s.len(),
{
    if s.len() == 0 || s[0] == '@' {
        Seq::empty()
    } else {
        seq![s[0]] + base_of(s.drop_first())
    }
}

/// The first entry from `i` on whose path has base `base`.
pub open spec fn first_base_match(t: Seq<(Seq<char>, Seq<Seq<char>>, Seq<char>, Seq<char>)>, base: Seq<char>, i: int) -> Option<
    int,
>
    decreases t.len() - i,
{
    if 0 <= i < t.len() {
        if base_of(t[i].0) == base {
            Some(i)
        } else {
            first_base_match(t, base, i + 1)
        }
    } else {
        None
    }
}

fn interface_entry(path: &str, functions: Vec<String>, description: &str) -> (e: WitInterfaceEntry)
    ensures
        entry_view(e) == (path@, texts(functions@), "0.2.0"@, description@),
{
    WitInterfaceEntry { path: owned(path), functions, version: owned("0.2.0"), description: owned(description) }
}

/// The prefix of `s` before its first `@`.
fn base_text(s: &str) -> (r: String)
    ensures
        r@ == base_of(s@),
{
    let cs = crate::text::chars_of(s);
    let mut r = String::new();
    let mut i: usize = 0;
    proof {
        assert(s@.skip(0) =~= s@);
        assert(r@ + base_of(s@) =~= base_of(s@));
    }
    while i < cs.len() && cs[i] != '@'
        invariant
            i <= cs@.len(),
            cs@ == s@,
            forall|k: int| 0 <= k < i ==> cs@[k] != '@',
            base_of(s@) == r@ + base_of(s@.skip(i as int)),
        decreases cs@.len() - i,
    {
        proof {
            assert(s@.skip(i as int)[0] == cs@[i as int]);
            assert(s@.skip(i as int).drop_first() =~= s@.skip(i + 1));
        }
        crate::text::push_char(&mut r, cs[i]);
        i = i + 1;
    }
    proof {
        assert(base_of(s@.skip(i as int)) =~= Seq::<char>::empty());
        assert(r@ + Seq::<char>::empty() =~= r@);
    }
    r
}

/// Resolves interface paths against registered interfaces.
#[derive(Debug)]
pub struct WitRegistry {
    interfaces: Vec<(String, WitInterfaceEntry)>,
}

impl WitRegistry {
    /// The registered interfaces, in table order.
    pub closed spec fn table(&self) -> Seq<(Seq<char>, Seq<Seq<char>>, Seq<char>, Seq<char>)> {
        self.interfaces@.map_values(|e: (String, WitInterfaceEntry)| entry_view(e.1))
    }

    /// Paths are distinct and each entry is registered under its path.
    pub closed spec fn wf(&self) -> bool {
        &&& keys_distinct(named_entries(self.interfaces@))
        &&& forall|i: int| 0 <= i < self.interfaces@.len() ==> (#[trigger] self.interfaces@[i]).0@ == self.interfaces@[i].1.path@
    }

    /// No two entries of a well-formed registry have the same path, so an
    /// entry found by its exact path (by `resolve` or `resolve_flexible`)
    /// is the one entry registered under it.
    pub proof fn lemma_paths_distinct(&self)
        requires
            self.wf(),
        ensures
            forall|i: int, j: int|
                0 <= i < self.table().len() && 0 <= j < self.table().len() && #[trigger] self.table()[i].0
                    == #[trigger] self.table()[j].0 ==> i == j,
    {
        assert forall|i: int, j: int|
            0 <= i < self.table().len() && 0 <= j < self.table().len() && #[trigger] self.table()[i].0
                == #[trigger] self.table()[j].0 implies i == j by {
            let es = named_entries(self.interfaces@);
            assert(self.table()[i].0 == self.interfaces@[i].1.path@);
            assert(self.table()[j].0 == self.interfaces@[j].1.path@);
            assert(es[i].0 == self.interfaces@[i].0@);
            assert(es[j].0 == self.interfaces@[j].0@);
            if i < j {
                assert(es[i].0 != es[j].0);
            } else if j < i {
                assert(es[j].0 != es[i].0);
            }
        }
    }

    /// An empty registry.
    pub fn new() -> (r: Self)
        ensures
            r.wf(),
            r.table() == Seq::<(Seq<char>, Seq<Seq<char>>, Seq<char>, Seq<char>)>::empty(),
    {
        let r = WitRegistry { interfaces: Vec::new() };
        proof {
            assert(r.table() =~= Seq::<(Seq<char>, Seq<Seq<char>>, Seq<char>, Seq<char>)>::empty());
            assert(keys_distinct(named_entries(Seq::<(String, WitInterfaceEntry)>::empty())));
        }
        r
    }

    /// A registry of the standard WASI Preview 2 interfaces.
    pub fn with_standard_wasi() -> (r: Self)
        ensures
            r.wf(),
            r.table() == standard_registry(),
    {
        let mut t: Vec<(String, WitInterfaceEntry)> = Vec::new();
        {
            let mut f: Vec<String> = Vec::new();
            f.push(owned("read"));
            f.push(owned("blocking-read"));
            f.push(owned("write"));
            f.push(owned("blocking-write-and-flush"));
            f.push(owned("subscribe"));
            f.push(owned("drop"));
            t.push((owned("wasi:io/streams@0.2.0"), interface_entry("wasi:io/streams@0.2.0", f, "WASI I/O streams interface")));
        }
        {
            let mut f: Vec<String> = Vec::new();
            f.push(owned("open-at"));
            f.push(owned("read-via-stream"));
            f.push(owned("write-via-stream"));
            f.push(owned("stat"));
            f.push(owned("stat-at"));
            f.push(owned("readdir"));
            f.push(owned("create-directory-at"));
            f.push(owned("unlink-file-at"));
            f.push(owned("rename-at"));
            t.push((owned("wasi:filesystem/types@0.2.0"), interface_entry("wasi:filesystem/types@0.2.0", f, "WASI filesystem types interface")));
        }
        {
            let mut f: Vec<String> = Vec::new();
            f.push(owned("get-directories"));
            t.push((owned("wasi:filesystem/preopens@0.2.0"), interface_entry("wasi:filesystem/preopens@0.2.0", f, "WASI filesystem preopens interface")));
        }
        {
            let mut f: Vec<String> = Vec::new();
            f.push(owned("get-environment"));
            f.push(owned("get-arguments"));
            f.push(owned("initial-cwd"));
            t.push((owned("wasi:cli/environment@0.2.0"), interface_entry("wasi:cli/environment@0.2.0", f, "WASI CLI environment interface")));
        }
        {
            let mut f: Vec<String> = Vec::new();
            f.push(owned("exit"));
            t.push((owned("wasi:cli/exit@0.2.0"), interface_entry("wasi:cli/exit@0.2.0", f, "WASI CLI exit interface")));
        }
        {
            let mut f: Vec<String> = Vec::new();
            f.push(owned("now"));
            f.push(owned("resolution"));
            f.push(owned("subscribe-instant"));
            t.push((owned("wasi:clocks/monotonic-clock@0.2.0"), interface_entry("wasi:clocks/monotonic-clock@0.2.0", f, "WASI monotonic clock interface")));
        }
        {
            let mut f: Vec<String> = Vec::new();
            f.push(owned("now"));
            f.push(owned("resolution"));
            t.push((owned("wasi:clocks/wall-clock@0.2.0"), interface_entry("wasi:clocks/wall-clock@0.2.0", f, "WASI wall clock interface")));
        }
        {
            let mut f: Vec<String> = Vec::new();
            f.push(owned("get-random-bytes"));
            f.push(owned("get-random-u64"));
            t.push((owned("wasi:random/random@0.2.0"), interface_entry("wasi:random/random@0.2.0", f, "WASI random number interface")));
        }
        {
            let mut f: Vec<String> = Vec::new();
            f.push(owned("new-outgoing-request"));
            f.push(owned("outgoing-request-write"));
            f.push(owned("incoming-response-consume"));
            t.push((owned("wasi:http/types@0.2.0"), interface_entry("wasi:http/types@0.2.0", f, "WASI HTTP types interface")));
        }
        {
            let mut f: Vec<String> = Vec::new();
            f.push(owned("handle"));
            t.push((owned("wasi:http/outgoing-handler@0.2.0"), interface_entry("wasi:http/outgoing-handler@0.2.0", f, "WASI HTTP outgoing request handler")));
        }
        {
            let mut f: Vec<String> = Vec::new();
            f.push(owned("create-tcp-socket"));
            f.push(owned("bind"));
            f.push(owned("connect"));
            f.push(owned("listen"));
            f.push(owned("accept"));
            t.push((owned("wasi:sockets/tcp@0.2.0"), interface_entry("wasi:sockets/tcp@0.2.0", f, "WASI TCP socket interface")));
        }
        let r = WitRegistry { interfaces: t };
        proof {
            reveal_strlit("wasi:io/streams@0.2.0");
            reveal_strlit("wasi:filesystem/types@0.2.0");
            reveal_strlit("wasi:filesystem/preopens@0.2.0");
            reveal_strlit("wasi:cli/environment@0.2.0");
            reveal_strlit("wasi:cli/exit@0.2.0");
            reveal_strlit("wasi:clocks/monotonic-clock@0.2.0");
            reveal_strlit("wasi:clocks/wall-clock@0.2.0");
            reveal_strlit("wasi:random/random@0.2.0");
            reveal_strlit("wasi:http/types@0.2.0");
            reveal_strlit("wasi:http/outgoing-handler@0.2.0");
            reveal_strlit("wasi:sockets/tcp@0.2.0");
            assert(r.table() =~~= standard_registry());
            let ne = named_entries(r.interfaces@);
            assert forall|i: int| 0 <= i < ne.len() implies #[trigger] ne[i].0 == standard_registry()[i].0 by {
                assert(r.table()[i].0 == r.interfaces@[i].1.path@);
            }
            assert("wasi:io/streams@0.2.0"@[5] != "wasi:http/types@0.2.0"@[5]);
            assert forall|i: int, j: int| 0 <= i < j < ne.len() implies #[trigger] ne[i].0 != #[trigger] ne[j].0 by {
                assert(ne[i].0 == standard_registry()[i].0);
                assert(ne[j].0 == standard_registry()[j].0);
            }
        }
        r
    }

    /// Registers an entry under its path (replacing one of the same path).
    pub fn register(&mut self, entry: WitInterfaceEntry)
        requires
            old(self).wf(),
        ensures
            final(self).wf(),
            assoc_map(final(self).table().map_values(|e: (Seq<char>, Seq<Seq<char>>, Seq<char>, Seq<char>)| (e.0, e)))
                == assoc_map(old(self).table().map_values(|e: (Seq<char>, Seq<Seq<char>>, Seq<char>, Seq<char>)| (e.0, e))).insert(
                entry.path@,
                entry_view(entry),
            ),
    {
        let key = entry.path.clone();
        let ghost ev = entry_view(entry);
        let ghost before = self.interfaces@;
        match crate::assoc::find_name(&self.interfaces, key.as_str()) {
            Some(i) => {
                let ghost e = named_entries(before);
                proof {
                    crate::assoc::lemma_assoc_update(e, i as int, entry);
                }
                self.interfaces.set(i, (key, entry));
                proof {
                    assert(named_entries(self.interfaces@) =~= e.update(i as int, (e[i as int].0, entry)));
                    lemma_table_map(before);
                    lemma_table_map(self.interfaces@);
                    assert forall|j: int| 0 <= j < self.interfaces@.len() implies (#[trigger] self.interfaces@[j]).0@
                        == self.interfaces@[j].1.path@ by {
                        if j != i {
                            assert(self.interfaces@[j] == before[j]);
                        }
                    }
                    assert(named_map(self.interfaces@) == named_map(before).insert(ev.0, entry));
                    assert(named_map(self.interfaces@).map_values(|x: WitInterfaceEntry| entry_view(x)) =~= named_map(
                        before,
                    ).map_values(|x: WitInterfaceEntry| entry_view(x)).insert(ev.0, ev));
                }
            },
            None => {
                let ghost e = named_entries(before);
                proof {
                    assert forall|j: int| 0 <= j < e.len() implies e[j].0 != key@ by {
                        assert(e[j].0 == before[j].0@);
                    }
                    crate::assoc::lemma_assoc_push(e, key@, entry);
                }
                self.interfaces.push((key, entry));
                proof {
                    assert(named_entries(self.interfaces@) =~= e.push((ev.0, entry)));
                    lemma_table_map(before);
                    lemma_table_map(self.interfaces@);
                    assert forall|j: int| 0 <= j < self.interfaces@.len() implies (#[trigger] self.interfaces@[j]).0@
                        == self.interfaces@[j].1.path@ by {
                        if j < before.len() {
                            assert(self.interfaces@[j] == before[j]);
                        }
                    }
                    assert(named_map(self.interfaces@).map_values(|x: WitInterfaceEntry| entry_view(x)) =~= named_map(
                        before,
                    ).map_values(|x: WitInterfaceEntry| entry_view(x)).insert(ev.0, ev));
                }
            },
        }
    }

    /// The entry registered under `path`.
    pub fn resolve(&self, path: &str) -> (r: Result<&WitInterfaceEntry, CompositionError>)
        requires
            self.wf(),
        ensures
            match r {
                Ok(e) => (exists|i: int| 0 <= i < self.table().len() && self.table()[i].0 == path@ && #[trigger] self.table()[i] == entry_view(*e))
                    && forall|i: int| 0 <= i < self.table().len() && #[trigger] self.table()[i].0 == path@ ==> self.table()[i] == entry_view(*e),
                Err(err) => (forall|i: int| 0 <= i < self.table().len() ==> #[trigger] self.table()[i].0 != path@)
                    && (err matches CompositionError::RegistryError { detail } && detail@ == "interface '"@ + path@ + "' not found in registry"@),
            },
    {
        match crate::assoc::find_name(&self.interfaces, path) {
            Some(i) => {
                proof {
                    assert(self.table()[i as int] == entry_view(self.interfaces@[i as int].1));
                    assert(self.interfaces@[i as int].0@ == self.interfaces@[i as int].1.path@);
                    assert(entry_view(self.interfaces@[i as int].1).0 == path@);
                    self.lemma_paths_distinct();
                }
                Ok(&self.interfaces[i].1)
            },
            None => {
                proof {
                    assert forall|i: int| 0 <= i < self.table().len() implies #[trigger] self.table()[i].0 != path@ by {
                        assert(self.table()[i].0 == self.interfaces@[i].1.path@);
                    }
                }
                let mut d = owned("interface '");
                push_str(&mut d, path);
                push_str(&mut d, "' not found in registry");
                Err(CompositionError::RegistryError { detail: d })
            },
        }
    }

    /// The entry under `path`, or else the first entry (in table order)
    /// whose path agrees with `path` before the `@` version suffix.
    pub fn resolve_flexible(&self, path: &str) -> (r: Result<&WitInterfaceEntry, CompositionError>)
        requires
            self.wf(),
        ensures
            (exists|i: int| 0 <= i < self.table().len() && #[trigger] self.table()[i].0 == path@) ==> (r matches Ok(e)
                && entry_view(*e).0 == path@ && (exists|i: int| 0 <= i < self.table().len() && #[trigger] self.table()[i] == entry_view(*e))
                && forall|i: int| 0 <= i < self.table().len() && #[trigger] self.table()[i].0 == path@ ==> self.table()[i] == entry_view(*e)),
            !(exists|i: int| 0 <= i < self.table().len() && #[trigger] self.table()[i].0 == path@) ==> match first_base_match(
                self.table(),
                base_of(path@),
                0,
            ) {
                Some(i) => r matches Ok(e) && entry_view(*e) == self.table()[i],
                None => r matches Err(err) && (err matches CompositionError::RegistryError { detail } && detail@ == "interface '"@
                    + path@ + "' not found in registry (also tried without version)"@),
            },
    {
        match crate::assoc::find_name(&self.interfaces, path) {
            Some(i) => {
                proof {
                    assert(self.table()[i as int] == entry_view(self.interfaces@[i as int].1));
                    assert(self.interfaces@[i as int].0@ == self.interfaces@[i as int].1.path@);
                    assert(entry_view(self.interfaces@[i as int].1).0 == path@);
                    self.lemma_paths_distinct();
                }
                return Ok(&self.interfaces[i].1);
            },
            None => {},
        }
        proof {
            assert forall|i: int| 0 <= i < self.table().len() implies #[trigger] self.table()[i].0 != path@ by {
                assert(self.table()[i].0 == self.interfaces@[i].1.path@);
            }
        }
        let base = base_text(path);
        let mut i: usize = 0;
        while i < self.interfaces.len()
            invariant
                i <= self.interfaces@.len(),
                self.wf(),
                base@ == base_of(path@),
                forall|q: int| 0 <= q < self.table().len() ==> #[trigger] self.table()[q].0 != path@,
                first_base_match(self.table(), base@, 0) == first_base_match(self.table(), base@, i as int),
            decreases self.interfaces@.len() - i,
        {
            let key_base = base_text(self.interfaces[i].0.as_str());
            proof {
                assert(self.table()[i as int].0 == self.interfaces@[i as int].0@);
            }
            if str_eq(key_base.as_str(), base.as_str()) {
                return Ok(&self.interfaces[i].1);
            }
            i = i + 1;
        }
        let mut d = owned("interface '");
        push_str(&mut d, path);
        push_str(&mut d, "' not found in registry (also tried without version)");
        Err(CompositionError::RegistryError { detail: d })
    }

    /// The registered paths, sorted.
    pub fn list_interfaces(&self) -> (r: Vec<&str>)
        requires
            self.wf(),
        ensures
            r@.len() == self.table().len(),
            strs_of(r@).to_set() == self.table().map_values(|e: (Seq<char>, Seq<Seq<char>>, Seq<char>, Seq<char>)| e.0).to_set(),
            forall|i: int, k: int| 0 <= i < k < r@.len() ==> crate::text::seq_lt((#[trigger] r@[i])@, (#[trigger] r@[k])@),
    {
        let r = sorted_keys(&self.interfaces);
        proof {
            let paths = self.table().map_values(|e: (Seq<char>, Seq<Seq<char>>, Seq<char>, Seq<char>)| e.0);
            assert forall|j: int| 0 <= j < paths.len() implies #[trigger] paths[j] == names_of(self.interfaces@)[j] by {
                assert(self.interfaces@[j].0@ == self.interfaces@[j].1.path@);
            }
            assert(paths =~= names_of(self.interfaces@));
            assert forall|x: Seq<char>| strs_of(r@).to_set().contains(x) <==> paths.to_set().contains(x) by {
                if strs_of(r@).contains(x) {
                    let i = choose|i: int| 0 <= i < strs_of(r@).len() && strs_of(r@)[i] == x;
                    assert(names_of(self.interfaces@).contains(strs_of(r@)[i]));
                }
                if paths.contains(x) {
                    let j = choose|j: int| 0 <= j < paths.len() && paths[j] == x;
                    assert(strs_of(r@).contains(names_of(self.interfaces@)[j]));
                }
            }
            assert(strs_of(r@).to_set() =~= paths.to_set());
        }
        r
    }

    /// The number of registered interfaces.
    pub fn interface_count(&self) -> (n: usize)
        ensures
            n == self.table().len(),
    {
        self.interfaces.len()
    }
}

impl Default for WitRegistry {
    fn default() -> (r: Self)
        ensures
            r.wf(),
            r.table() == Seq::<(Seq<char>, Seq<Seq<char>>, Seq<char>, Seq<char>)>::empty(),
    {
        Self::new()
    }
}

/// The map of a registry table, keyed by path, is the map of its entries'
/// values.
proof fn lemma_table_map(v: Seq<(String, WitInterfaceEntry)>)
    requires
        forall|i: int| 0 <= i < v.len() ==> (#[trigger] v[i]).0@ == v[i].1.path@,
    ensures
        assoc_map(v.map_values(|e: (String, WitInterfaceEntry)| entry_view(e.1)).map_values(
            |e: (Seq<char>, Seq<Seq<char>>, Seq<char>, Seq<char>)| (e.0, e),
        )) == named_map(v).map_values(|x: WitInterfaceEntry| entry_view(x)),
    decreases v.len(),
{
    let t = v.map_values(|e: (String, WitInterfaceEntry)| entry_view(e.1)).map_values(
        |e: (Seq<char>, Seq<Seq<char>>, Seq<char>, Seq<char>)| (e.0, e),
    );
    if v.len() > 0 {
        lemma_table_map(v.drop_last());
        assert(t.drop_last() =~= v.drop_last().map_values(|e: (String, WitInterfaceEntry)| entry_view(e.1)).map_values(
            |e: (Seq<char>, Seq<Seq<char>>, Seq<char>, Seq<char>)| (e.0, e),
        ));
        assert(named_entries(v).drop_last() =~= named_entries(v.drop_last()));
    }
    assert(assoc_map(t) =~= named_map(v).map_values(|x: WitInterfaceEntry| entry_view(x)));
}

/// The keys of a table keyed by strings, sorted.
fn sorted_keys<'a, V>(v: &'a Vec<(String, V)>) -> (r: Vec<&'a str>)
    requires
        keys_distinct(named_entries(v@)),
    ensures
        r@.len() == v@.len(),
        forall|i: int| 0 <= i < r@.len() ==> names_of(v@).contains(#[trigger] strs_of(r@)[i]),
        forall|j: int| 0 <= j < v@.len() ==> strs_of(r@).contains(#[trigger] names_of(v@)[j]),
        forall|i: int, k: int| 0 <= i < k < r@.len() ==> crate::text::seq_lt((#[trigger] r@[i])@, (#[trigger] r@[k])@),
{
    let ghost e = named_entries(v@);
    let mut out: Vec<&'a str> = Vec::new();
    let ghost mut src: Seq<int> = Seq::empty();
    let mut k: usize = 0;
    while k < v.len()
        invariant
            e == named_entries(v@),
            keys_distinct(e),
            k <= v@.len(),
            out@.len() == k,
            src.len() == out@.len(),
            forall|i: int| 0 <= i < out@.len() ==> 0 <= #[trigger] src[i] < k && out@[i]@ == v@[src[i]].0@,
            forall|j: int| 0 <= j < k ==> #[trigger] src_has(src, j),
            forall|i: int, q: int| 0 <= i < q < out@.len() ==> crate::text::seq_lt((#[trigger] out@[i])@, (#[trigger] out@[q])@),
        decreases v@.len() - k,
    {
        let name = v[k].0.as_str();
        let mut pos: usize = 0;
        while pos < out.len()
            invariant
                pos <= out@.len(),
                forall|q: int| 0 <= q < pos ==> crate::text::seq_lt((#[trigger] out@[q])@, name@),
            ensures
                pos <= out@.len(),
                forall|q: int| 0 <= q < pos ==> crate::text::seq_lt((#[trigger] out@[q])@, name@),
                pos < out@.len() ==> !crate::text::seq_lt(out@[pos as int]@, name@),
            decreases out@.len() - pos,
        {
            if !crate::text::str_lt(out[pos], name) {
                break;
            }
            pos = pos + 1;
        }
        let ghost old_out = out@;
        let ghost old_src = src;
        out.insert(pos, name);
        proof {
            src = old_src.insert(pos as int, k as int);
            old_out.insert_ensures(pos as int, name);
            old_src.insert_ensures(pos as int, k as int);
            assert forall|i: int| 0 <= i < out@.len() implies 0 <= #[trigger] src[i] < k + 1 && out@[i]@ == v@[src[i]].0@ by {
                if i < pos {
                    assert(src[i] == old_src[i] && out@[i] == old_out[i]);
                } else if i > pos {
                    assert(src[i] == old_src[i - 1] && out@[i] == old_out[i - 1]);
                }
            }
            assert forall|j: int| 0 <= j < k + 1 implies #[trigger] src_has(src, j) by {
                if j < k {
                    assert(src_has(old_src, j));
                    let i0 = choose|i: int| 0 <= i < old_src.len() && old_src[i] == j;
                    if i0 < pos {
                        assert(src[i0] == j);
                    } else {
                        assert(src[i0 + 1] == j);
                    }
                } else {
                    assert(src[pos as int] == j);
                }
            }
            assert forall|i: int| 0 <= i < old_out.len() implies #[trigger] old_out[i]@ != name@ by {
                assert(old_src[i] < k);
                assert(e[old_src[i]].0 != e[k as int].0);
            }
            if pos < old_out.len() {
                crate::text::lemma_seq_lt_total(old_out[pos as int]@, name@);
            }
            assert forall|i: int, q: int| 0 <= i < q < out@.len() implies crate::text::seq_lt((#[trigger] out@[i])@, (#[trigger] out@[q])@) by {
                if q < pos {
                    assert(out@[i] == old_out[i] && out@[q] == old_out[q]);
                } else if q == pos {
                    assert(out@[i] == old_out[i]);
                } else if i == pos {
                    assert(out@[q] == old_out[q - 1]);
                    if q - 1 > pos {
                        crate::text::lemma_seq_lt_transitive(name@, old_out[pos as int]@, old_out[q - 1]@);
                    }
                } else if i < pos {
                    assert(out@[i] == old_out[i] && out@[q] == old_out[q - 1]);
                } else {
                    assert(out@[i] == old_out[i - 1] && out@[q] == old_out[q - 1]);
                }
            }
        }
        k = k + 1;
    }
    proof {
        assert forall|j: int| 0 <= j < v@.len() implies strs_of(out@).contains(#[trigger] names_of(v@)[j]) by {
            assert(src_has(src, j));
            let i = choose|i: int| 0 <= i < src.len() && src[i] == j;
            assert(strs_of(out@)[i] == names_of(v@)[j]);
        }
        assert forall|i: int| 0 <= i < out@.len() implies names_of(v@).contains(#[trigger] strs_of(out@)[i]) by {
            assert(names_of(v@)[src[i]] == strs_of(out@)[i]);
        }
    }
    out
}

/// The keys of a table keyed by strings.
pub open spec fn names_of<V>(v: Seq<(String, V)>) -> Seq<Seq<char>> {
    v.map_values(|e: (String, V)| e.0@)
}

/// The texts of a sequence of string slices.
pub open spec fn strs_of(r: Seq<&str>) -> Seq<Seq<char>> {
    r.map_values(|x: &str| x@)
}

spec fn src_has(src: Seq<int>, j: int) -> bool {
    exists|i: int| 0 <= i < src.len() && src[i] == j
}


// ═════════════════════════════════════════════════════════════════════
// Size reports
// ═════════════════════════════════════════════════════════════════════

/// The size of one section.
#[derive(Debug, Clone)]
pub struct SectionSize {
    /// Section id.
    pub id: u8,
    /// Section name.
    pub name: String,
    /// Declared size in bytes.
    pub bytes: usize,
}

/// Sizes of a component binary and of its sections.
#[derive(Debug, Clone)]
pub struct SizeReport {
    /// Total binary size.
    pub total_bytes: usize,
    /// Size without the custom (debug) sections.
    pub stripped_bytes: usize,
    /// Per-section sizes, in order.
    pub sections: Vec<SectionSize>,
    /// Size of the (last) core module section.
    pub core_module_bytes: usize,
    /// Size of the (last) type section.
    pub type_section_bytes: usize,
    /// Size of the (last) import section.
    pub import_section_bytes: usize,
    /// Size of the (last) export section.
    pub export_section_bytes: usize,
}

/// The sections after position `pos`: id and declared size, each section
/// being an id byte, a LEB128 size and that many bytes.
pub open spec fn size_sections(bytes: Seq<u8>, pos: int) -> Seq<(u8, u32)>
    decreases bytes.len() - pos,
{
    if 0 <= pos < bytes.len() {
        let r = leb_read(bytes.subrange(pos + 1, bytes.len() as int));
        let next = pos + 1 + r.1 + r.0;
        seq![(bytes[pos], r.0)] + if next < bytes.len() {
            size_sections(bytes, next)
        } else {
            Seq::empty()
        }
    } else {
        Seq::empty()
    }
}

/// The name of a section id.
pub open spec fn section_name(id: u8) -> Seq<char> {
    if id == 0x00 {
        "core:module"@
    } else if id == 0x01 {
        "type"@
    } else if id == 0x02 {
        "import"@
    } else if id == 0x03 {
        "export"@
    } else if id == 0x04 {
        "canon"@
    } else if id == 0x05 {
        "core:instance"@
    } else if id == 0x06 {
        "instance"@
    } else if id == 0x07 {
        "alias"@
    } else if id == 0x08 {
        "core:type"@
    } else if id == 0x0A {
        "start"@
    } else if id == 0x0B {
        "custom"@
    } else {
        "unknown"@
    }
}

/// The size of the last section with id `id` (0 if none).
pub open spec fn last_size(secs: Seq<(u8, u32)>, id: u8) -> nat
    decreases secs.len(),
{
    if secs.len() == 0 {
        0
    } else if secs.last().0 == id {
        secs.last().1 as nat
    } else {
        last_size(secs.drop_last(), id)
    }
}

/// The total size of the custom (debug) sections.
pub open spec fn custom_total(secs: Seq<(u8, u32)>) -> nat
    decreases secs.len(),
{
    if secs.len() == 0 {
        0
    } else {
        custom_total(secs.drop_last()) + if secs.last().0 == 0x0B {
            secs.last().1 as nat
        } else {
            0
        }
    }
}

/// The value of a section size entry.
pub open spec fn section_size_view(s: SectionSize) -> (u8, Seq<char>, nat) {
    (s.id, s.name@, s.bytes as nat)
}

fn section_name_of(id: u8) -> (s: String)
    ensures
        s@ == section_name(id),
{
    if id == 0x00 {
        owned("core:module")
    } else if id == 0x01 {
        owned("type")
    } else if id == 0x02 {
        owned("import")
    } else if id == 0x03 {
        owned("export")
    } else if id == 0x04 {
        owned("canon")
    } else if id == 0x05 {
        owned("core:instance")
    } else if id == 0x06 {
        owned("instance")
    } else if id == 0x07 {
        owned("alias")
    } else if id == 0x08 {
        owned("core:type")
    } else if id == 0x0A {
        owned("start")
    } else if id == 0x0B {
        owned("custom")
    } else {
        owned("unknown")
    }
}

proof fn lemma_custom_total_bound(secs: Seq<(u8, u32)>)
    ensures
        custom_total(secs) <= secs.len() * 0x1_0000_0000,
    decreases secs.len(),
{
    if secs.len() > 0 {
        lemma_custom_total_bound(secs.drop_last());
    }
}

/// `s` padded with spaces to 16 characters.
pub open spec fn pad16(s: Seq<char>) -> Seq<char> {
    if s.len() >= 16 {
        s
    } else {
        s + Seq::new((16 - s.len()) as nat, |i: int| ' ')
    }
}

/// The line of one section in a size report.
pub open spec fn section_line(sec: (u8, Seq<char>, nat)) -> Seq<char> {
    "    ["@ + zero_pad(hex(sec.0 as nat), 2) + "] "@ + pad16(sec.1) + " "@ + dec(sec.2) + " bytes\n"@
}

/// The lines of the sections `secs[i..]`.
pub open spec fn section_lines(secs: Seq<(u8, Seq<char>, nat)>, i: int) -> Seq<char>
    decreases secs.len() - i,
{
    if 0 <= i < secs.len() {
        section_line(secs[i]) + section_lines(secs, i + 1)
    } else {
        Seq::empty()
    }
}

/// `a - b`, or 0 when `b` is larger.
pub open spec fn sat_sub(a: nat, b: nat) -> nat {
    if a >= b {
        (a - b) as nat
    } else {
        0
    }
}

/// The text of a size report.
pub open spec fn size_report_text(r: SizeReport) -> Seq<char> {
    "Component Size Report\n"@ + "  Total:           "@ + dec(r.total_bytes as nat) + " bytes\n"@
        + "  Stripped:        "@ + dec(r.stripped_bytes as nat) + " bytes\n"@ + "  Debug savings:   "@ + dec(
        sat_sub(r.total_bytes as nat, r.stripped_bytes as nat),
    ) + " bytes\n"@ + "  Sections:        "@ + dec(r.sections@.len()) + "\n"@ + section_lines(
        r.sections@.map_values(|x: SectionSize| section_size_view(x)),
        0,
    )
}

impl SizeReport {
    /// Walks the sections of a binary and reports their sizes.
    pub fn analyze(binary: &[u8]) -> (r: Result<Self, CompositionError>)
        ensures
            binary@.len() < 8 ==> (r matches Err(e) && (e matches CompositionError::OptimizationError { detail } && detail@
                == "binary too short to analyze"@)),
            binary@.len() >= 8 ==> (r matches Ok(rep) && {
                let secs = size_sections(binary@, 8);
                let debug = custom_total(secs);
                &&& rep.total_bytes == binary@.len()
                &&& rep.stripped_bytes == sat_sub(binary@.len() as nat, debug)
                &&& rep.sections@.map_values(|x: SectionSize| section_size_view(x)) == secs.map_values(
                    |p: (u8, u32)| (p.0, section_name(p.0), p.1 as nat),
                )
                &&& rep.core_module_bytes == last_size(secs, 0x00)
                &&& rep.type_section_bytes == last_size(secs, 0x01)
                &&& rep.import_section_bytes == last_size(secs, 0x02)
                &&& rep.export_section_bytes == last_size(secs, 0x03)
            }),
    {
        if binary.len() < 8 {
            return Err(CompositionError::OptimizationError { detail: owned("binary too short to analyze") });
        }
        let mut sections: Vec<SectionSize> = Vec::new();
        let mut core_module_bytes: usize = 0;
        let mut type_section_bytes: usize = 0;
        let mut import_section_bytes: usize = 0;
        let mut export_section_bytes: usize = 0;
        let mut debug_bytes: u128 = 0;
        let ghost all = size_sections(binary@, 8);
        let ghost mut seen: Seq<(u8, u32)> = Seq::empty();
        let mut pos: usize = 8;
        while pos < binary.len()
            invariant
                8 <= pos <= binary@.len(),
                all == size_sections(binary@, 8),
                all == seen + size_sections(binary@, pos as int),
                seen.len() <= pos - 8,
                sections@.map_values(|x: SectionSize| section_size_view(x)) == seen.map_values(
                    |p: (u8, u32)| (p.0, section_name(p.0), p.1 as nat),
                ),
                core_module_bytes == last_size(seen, 0x00),
                type_section_bytes == last_size(seen, 0x01),
                import_section_bytes == last_size(seen, 0x02),
                export_section_bytes == last_size(seen, 0x03),
                debug_bytes == custom_total(seen),
            decreases binary@.len() - pos,
        {
            let section_id = binary[pos];
            let (size, consumed) = crate::component::read_leb128_at(binary, pos + 1);
            proof {
                let next = pos + 1 + consumed + size;
                let rest = if next < binary@.len() {
                    size_sections(binary@, next)
                } else {
                    Seq::<(u8, u32)>::empty()
                };
                assert(size_sections(binary@, pos as int) == seq![(section_id, size)] + rest);
                assert(seen + size_sections(binary@, pos as int) =~= seen.push((section_id, size)) + rest);
                lemma_custom_total_bound(seen);
                assert(seen.push((section_id, size)).drop_last() =~= seen);
            }
            let ghost sections0 = sections@;
            if section_id == 0x00 {
                core_module_bytes = size as usize;
            } else if section_id == 0x01 {
                type_section_bytes = size as usize;
            } else if section_id == 0x02 {
                import_section_bytes = size as usize;
            } else if section_id == 0x03 {
                export_section_bytes = size as usize;
            } else if section_id == 0x0B {
                debug_bytes = debug_bytes + size as u128;
            }
            let ss = SectionSize { id: section_id, name: section_name_of(section_id), bytes: size as usize };
            proof {
                assert(section_size_view(ss) == (section_id, section_name(section_id), size as nat));
            }
            sections.push(ss);
            proof {
                assert(sections@ =~= sections0.push(ss));
                assert(sections@.map_values(|x: SectionSize| section_size_view(x)) =~= sections0.map_values(
                    |x: SectionSize| section_size_view(x),
                ).push(section_size_view(ss)));
                seen = seen.push((section_id, size));
                assert(sections@.map_values(|x: SectionSize| section_size_view(x)) =~= seen.map_values(
                    |p: (u8, u32)| (p.0, section_name(p.0), p.1 as nat),
                ));
            }
            let after = pos + 1 + consumed;
            if (size as usize) >= binary.len() - after {
                pos = binary.len();
            } else {
                pos = after + size as usize;
            }
        }
        proof {
            assert(size_sections(binary@, pos as int) =~= Seq::<(u8, u32)>::empty());
            assert(all =~= seen);
        }
        let total_bytes = binary.len();
        let stripped_bytes: usize = if debug_bytes >= total_bytes as u128 {
            0
        } else {
            (total_bytes as u128 - debug_bytes) as usize
        };
        Ok(SizeReport {
            total_bytes,
            stripped_bytes,
            sections,
            core_module_bytes,
            type_section_bytes,
            import_section_bytes,
            export_section_bytes,
        })
    }

    /// The number of sections.
    pub fn section_count(&self) -> (n: usize)
        ensures
            n == self.sections@.len(),
    {
        self.sections.len()
    }

    /// The bytes saved by stripping custom sections.
    pub fn strip_savings(&self) -> (n: usize)
        ensures
            n == sat_sub(self.total_bytes as nat, self.stripped_bytes as nat),
    {
        if self.total_bytes >= self.stripped_bytes {
            self.total_bytes - self.stripped_bytes
        } else {
            0
        }
    }

    /// The text of this report: totals, then one line per section.
    pub fn to_string(&self) -> (s: String)
        ensures
            s@ == size_report_text(*self),
    {
        let mut s = owned("Component Size Report\n");
        push_str(&mut s, "  Total:           ");
        push_dec(&mut s, self.total_bytes as u64);
        push_str(&mut s, " bytes\n");
        push_str(&mut s, "  Stripped:        ");
        push_dec(&mut s, self.stripped_bytes as u64);
        push_str(&mut s, " bytes\n");
        push_str(&mut s, "  Debug savings:   ");
        let savings = self.strip_savings();
        push_dec(&mut s, savings as u64);
        push_str(&mut s, " bytes\n");
        push_str(&mut s, "  Sections:        ");
        push_dec(&mut s, self.sections.len() as u64);
        push_str(&mut s, "\n");
        let ghost before = s@;
        let ghost sv = self.sections@.map_values(|x: SectionSize| section_size_view(x));
        let mut i: usize = 0;
        while i < self.sections.len()
            invariant
                i <= self.sections@.len(),
                sv == self.sections@.map_values(|x: SectionSize| section_size_view(x)),
                before + section_lines(sv, 0) == s@ + section_lines(sv, i as int),
            decreases self.sections@.len() - i,
        {
            push_section_line(&mut s, &self.sections[i]);
            proof {
                assert(sv[i as int] == section_size_view(self.sections@[i as int]));
            }
            i = i + 1;
        }
        proof {
            assert(s@ =~= size_report_text(*self));
        }
        s
    }
}

fn push_section_line(s: &mut String, sec: &SectionSize)
    ensures
        final(s)@ == old(s)@ + section_line(section_size_view(*sec)),
{
    push_str(s, "    [");
    if sec.id < 16 {
        push_str(s, "0");
    }
    push_hex(s, sec.id as u64);
    push_str(s, "] ");
    push_padded16(s, sec.name.as_str());
    push_str(s, " ");
    push_dec(s, sec.bytes as u64);
    push_str(s, " bytes\n");
    proof {
        reveal_strlit("0");
        crate::text::lemma_hex_len(sec.id as nat);
        assert(final(s)@ =~= old(s)@ + section_line(section_size_view(*sec)));
    }
}

/// Appends `t` padded with spaces to 16 characters.
fn push_padded16(s: &mut String, t: &str)
    ensures
        final(s)@ == old(s)@ + pad16(t@),
{
    push_str(s, t);
    let cs = crate::text::chars_of(t);
    let mut n = cs.len();
    let ghost base = s@;
    while n < 16
        invariant
            cs@ == t@,
            cs@.len() <= n <= 16 || (n == cs@.len() && n > 16),
            n >= cs@.len(),
            s@ == base + Seq::new((n - cs@.len()) as nat, |i: int| ' '),
        decreases 16 - n,
    {
        crate::text::push_char(s, ' ');
        n = n + 1;
        proof {
            assert(s@ =~= base + Seq::new((n - cs@.len()) as nat, |i: int| ' '));
        }
    }
    proof {
        if t@.len() >= 16 {
            assert(s@ =~= old(s)@ + t@);
        } else {
            assert(s@ =~= old(s)@ + pad16(t@));
        }
    }
}


// ═════════════════════════════════════════════════════════════════════
// Workspaces
// ═════════════════════════════════════════════════════════════════════

/// A component target of a workspace.
#[derive(Debug, Clone)]
pub struct WorkspaceMember {
    /// Member name.
    pub name: String,
    /// Source directory.
    pub source_dir: String,
    /// Build target.
    pub target: WasiTarget,
    /// Names of the members this one depends on.
    pub depends_on: Vec<String>,
    /// Feature flags.
    pub features: Vec<String>,
}

/// A multi-component workspace.
#[derive(Debug, Clone)]
pub struct WorkspaceConfig {
    /// Workspace name.
    pub name: String,
    /// Members.
    pub members: Vec<WorkspaceMember>,
    /// Features shared by all members.
    pub shared_features: Vec<String>,
}

/// The names of the members.
pub open spec fn member_names(ms: Seq<WorkspaceMember>) -> Seq<Seq<char>> {
    ms.map_values(|m: WorkspaceMember| m.name@)
}

/// The first position `j >= from` whose name already occurs before it.
pub open spec fn first_dup_from(ns: Seq<Seq<char>>, j: int) -> Option<int>
    decreases ns.len() - j,
{
    if 0 <= j < ns.len() {
        if ns.take(j).contains(ns[j]) {
            Some(j)
        } else {
            first_dup_from(ns, j + 1)
        }
    } else {
        None
    }
}

/// The first dependency among `deps[k..]` that names no member.
pub open spec fn first_unknown_dep(ns: Seq<Seq<char>>, deps: Seq<String>, k: int) -> Option<int>
    decreases deps.len() - k,
{
    if 0 <= k < deps.len() {
        if !ns.contains(deps[k]@) {
            Some(k)
        } else {
            first_unknown_dep(ns, deps, k + 1)
        }
    } else {
        None
    }
}

/// The first member from `i` on with a dependency that names no member,
/// and the position of that dependency.
pub open spec fn first_missing(ms: Seq<WorkspaceMember>, i: int) -> Option<(int, int)>
    decreases ms.len() - i,
{
    if 0 <= i < ms.len() {
        match first_unknown_dep(member_names(ms), ms[i].depends_on@, 0) {
            Some(k) => Some((i, k)),
            None => first_missing(ms, i + 1),
        }
    } else {
        None
    }
}

/// Member `a` depends on member `b`.
pub open spec fn edge(ms: Seq<WorkspaceMember>, a: int, b: int) -> bool {
    &&& 0 <= a < ms.len()
    &&& 0 <= b < ms.len()
    &&& exists|k: int| 0 <= k < ms[a].depends_on@.len() && #[trigger] ms[a].depends_on@[k]@ == ms[b].name@
}

/// `r` ranks the members so that every member ranks above its dependencies.
pub open spec fn is_ranking(ms: Seq<WorkspaceMember>, r: Seq<int>) -> bool {
    &&& r.len() == ms.len()
    &&& forall|a: int, b: int| #[trigger] edge(ms, a, b) ==> r[b] < r[a]
}

/// The dependency graph has no cycle: some ranking exists.
pub open spec fn acyclic(ms: Seq<WorkspaceMember>) -> bool {
    exists|r: Seq<int>| is_ranking(ms, r)
}

/// `p` is a dependency path: each member depends on the next.
pub open spec fn is_path(ms: Seq<WorkspaceMember>, p: Seq<int>) -> bool {
    &&& p.len() >= 1
    &&& forall|k: int| 0 <= k < p.len() - 1 ==> #[trigger] edge(ms, p[k], p[k + 1])
}

/// The edge from `a` to `b` closes a cycle: `b` leads back to `a`.
pub open spec fn closes_cycle(ms: Seq<WorkspaceMember>, a: int, b: int) -> bool {
    &&& edge(ms, a, b)
    &&& exists|p: Seq<int>| is_path(ms, p) && p[0] == b && #[trigger] p[p.len() - 1] == a
}

/// A cycle leaves no ranking.
pub proof fn lemma_cycle_not_acyclic(ms: Seq<WorkspaceMember>, a: int, b: int)
    requires
        closes_cycle(ms, a, b),
    ensures
        !acyclic(ms),
{
    if acyclic(ms) {
        let r = choose|r: Seq<int>| is_ranking(ms, r);
        let p = choose|p: Seq<int>| is_path(ms, p) && p[0] == b && #[trigger] p[p.len() - 1] == a;
        lemma_path_ranks(ms, r, p, p.len() - 1);
        assert(edge(ms, a, b));
    }
}

proof fn lemma_path_ranks(ms: Seq<WorkspaceMember>, r: Seq<int>, p: Seq<int>, k: int)
    requires
        is_ranking(ms, r),
        is_path(ms, p),
        0 <= k < p.len(),
    ensures
        r[p[k]] <= r[p[0]],
    decreases k,
{
    if k > 0 {
        lemma_path_ranks(ms, r, p, k - 1);
        let j = k - 1;
        assert(edge(ms, p[j], p[j + 1]));
    }
}

// ── depth-first search over dependency indices ──

/// The dependency graph by index: `adj[a]` lists the members `a` depends on.
spec fn adj_edge(adj: Seq<Seq<usize>>, a: int, b: int) -> bool {
    0 <= a < adj.len() && exists|k: int| 0 <= k < adj[a].len() && adj[a][k] == b
}

spec fn white_count(c: Seq<u8>) -> nat
    decreases c.len(),
{
    if c.len() == 0 {
        0
    } else {
        white_count(c.drop_last()) + if c.last() == 0 {
            1nat
        } else {
            0nat
        }
    }
}

proof fn lemma_white_mono(c0: Seq<u8>, c1: Seq<u8>)
    requires
        c0.len() == c1.len(),
        forall|i: int| 0 <= i < c0.len() && c0[i] != 0 ==> #[trigger] c1[i] != 0,
    ensures
        white_count(c1) <= white_count(c0),
    decreases c0.len(),
{
    if c0.len() > 0 {
        lemma_white_mono(c0.drop_last(), c1.drop_last());
    }
}

proof fn lemma_white_mark(c: Seq<u8>, u: int, x: u8)
    requires
        0 <= u < c.len(),
        c[u] == 0,
        x != 0,
    ensures
        white_count(c.update(u, x)) + 1 == white_count(c),
    decreases c.len(),
{
    let c1 = c.update(u, x);
    if u < c.len() - 1 {
        assert(c1.drop_last() =~= c.drop_last().update(u, x));
        lemma_white_mark(c.drop_last(), u, x);
    } else {
        assert(c1.drop_last() =~= c.drop_last());
    }
}

/// Black members have black dependencies of lower rank.
spec fn black_ok(adj: Seq<Seq<usize>>, c: Seq<u8>, r: Seq<int>) -> bool {
    forall|a: int, k: int|
        #![trigger c[a], adj[a][k]]
        0 <= a < c.len() && c[a] == 2 && 0 <= k < adj[a].len() ==> c[adj[a][k] as int] == 2 && r[adj[a][k] as int]
            < r[a]
}

/// The gray members are those on the stack, and the stack is a path.
spec fn stack_ok(adj: Seq<Seq<usize>>, c: Seq<u8>, st: Seq<int>) -> bool {
    &&& forall|a: int| 0 <= a < c.len() ==> (#[trigger] c[a] == 1 <==> st.contains(a))
    &&& forall|k: int| 0 <= k < st.len() ==> 0 <= #[trigger] st[k] < c.len()
    &&& forall|k: int| 0 <= k < st.len() - 1 ==> #[trigger] adj_edge(adj, st[k], st[k + 1])
}

/// The state the search keeps: colors 0 (unvisited), 1 (on the stack),
/// 2 (done), ranks of done members below `cnt`.
spec fn dfs_ok(adj: Seq<Seq<usize>>, c: Seq<u8>, r: Seq<int>, cnt: int, st: Seq<int>) -> bool {
    &&& c.len() == adj.len()
    &&& r.len() == adj.len()
    &&& forall|a: int| 0 <= a < c.len() ==> #[trigger] c[a] <= 2
    &&& forall|a: int, k: int| 0 <= a < adj.len() && 0 <= k < adj[a].len() ==> #[trigger] adj[a][k] < adj.len()
    &&& forall|a: int| 0 <= a < c.len() && #[trigger] c[a] == 2 ==> r[a] < cnt
    &&& black_ok(adj, c, r)
    &&& stack_ok(adj, c, st)
}

/// A path in the index graph.
spec fn adj_path(adj: Seq<Seq<usize>>, p: Seq<int>) -> bool {
    &&& p.len() >= 1
    &&& forall|k: int| 0 <= k < p.len() - 1 ==> #[trigger] adj_edge(adj, p[k], p[k + 1])
}

/// The back edge `(a, b)` closes a cycle in the index graph.
spec fn adj_cycle(adj: Seq<Seq<usize>>, a: int, b: int) -> bool {
    &&& adj_edge(adj, a, b)
    &&& exists|p: Seq<int>| adj_path(adj, p) && p[0] == b && #[trigger] p[p.len() - 1] == a
}

/// The depth-first search from `u` over the index graph `g`, with the
/// colors `c` (0 unvisited, 1 on the path, 2 done): `u` is put on the path,
/// its dependencies are searched in order, and it is marked done. The first
/// dependency found on the path gives the edge that closes a cycle. `fuel`
/// bounds the depth; it never runs out when it exceeds the unvisited count.
pub open spec fn search_from(g: Seq<Seq<usize>>, u: int, c: Seq<u8>, fuel: nat) -> (Option<(int, int)>, Seq<u8>)
    decreases fuel, 0int, 0int,
{
    if fuel == 0 {
        (None, c)
    } else {
        search_deps(g, u, 0, c.update(u, 1), (fuel - 1) as nat)
    }
}

/// The search over the dependencies of `u` from the `k`-th on.
pub open spec fn search_deps(g: Seq<Seq<usize>>, u: int, k: int, c: Seq<u8>, fuel: nat) -> (
    Option<(int, int)>,
    Seq<u8>,
)
    decreases fuel, 1int, g[u].len() - k,
{
    if k < 0 || k >= g[u].len() {
        (None, c.update(u, 2))
    } else {
        let v = g[u][k] as int;
        if c[v] == 0 {
            let (r, c2) = search_from(g, v, c, fuel);
            if r is Some {
                (r, c2)
            } else {
                search_deps(g, u, k + 1, c2, fuel)
            }
        } else if c[v] == 1 {
            (Some((u, v)), c)
        } else {
            search_deps(g, u, k + 1, c, fuel)
        }
    }
}

/// The search started at each unvisited member from `u` on, in order: the
/// first cycle edge found, if any.
pub open spec fn search_all(g: Seq<Seq<usize>>, u: int, c: Seq<u8>) -> Option<(int, int)>
    decreases g.len() - u,
{
    if u < 0 || u >= g.len() {
        None
    } else if c[u] != 0 {
        search_all(g, u + 1, c)
    } else {
        let (r, c2) = search_from(g, u, c, (g.len() + 1) as nat);
        if r is Some {
            r
        } else {
            search_all(g, u + 1, c2)
        }
    }
}

impl WorkspaceConfig {
    fn dfs(
        &self,
        adj: &Vec<Vec<usize>>,
        u: usize,
        color: &mut Vec<u8>,
        Ghost(rank): Ghost<Seq<int>>,
        Ghost(cnt): Ghost<int>,
        Ghost(st): Ghost<Seq<int>>,
    ) -> (res: (Result<(), (usize, usize)>, Ghost<Seq<int>>, Ghost<int>))
        requires
            dfs_ok(adj.deep_view(), old(color)@, rank, cnt, st),
            u < old(color)@.len(),
            old(color)@[u as int] == 0,
            st.len() > 0 ==> adj_edge(adj.deep_view(), st.last(), u as int),
        ensures
            match res.0 {
                Ok(()) => {
                    &&& dfs_ok(adj.deep_view(), final(color)@, res.1@, res.2@, st)
                    &&& final(color)@[u as int] == 2
                    &&& res.2@ >= cnt
                    &&& white_count(final(color)@) < white_count(old(color)@)
                    &&& forall|a: int| 0 <= a < old(color)@.len() && #[trigger] old(color)@[a] == 2 ==> final(color)@[a] == 2
                        && res.1@[a] == rank[a]
                    &&& forall|a: int| 0 <= a < old(color)@.len() && old(color)@[a] != 0 ==> #[trigger] final(color)@[a] != 0
                },
                Err((a, b)) => adj_cycle(adj.deep_view(), a as int, b as int),
            },
            final(color)@.len() == old(color)@.len(),
            forall|f: nat| f > white_count(old(color)@) ==> #[trigger] search_from(adj.deep_view(), u as int, old(color)@, f)
                == (match res.0 {
                    Ok(()) => None,
                    Err((a, b)) => Some((a as int, b as int)),
                }, final(color)@),
        decreases white_count(old(color)@),
    {
        let ghost g = adj.deep_view();
        let ghost c0 = color@;
        proof {
            lemma_white_mark(color@, u as int, 1);
        }
        color.set(u, 1);
        let ghost st1 = st.push(u as int);
        let ghost mut r = rank;
        let ghost mut n = cnt;
        proof {
            assert forall|a: int| 0 <= a < color@.len() implies (#[trigger] color@[a] == 1 <==> st1.contains(a)) by {
                if a == u {
                    assert(st1[st.len() as int] == a);
                } else {
                    if st1.contains(a) {
                        let j = choose|j: int| 0 <= j < st1.len() && st1[j] == a;
                        assert(st[j] == a);
                    }
                    if st.contains(a) {
                        let j = choose|j: int| 0 <= j < st.len() && st[j] == a;
                        assert(st1[j] == a);
                    }
                }
            }
            assert forall|k: int| 0 <= k < st1.len() - 1 implies #[trigger] adj_edge(g, st1[k], st1[k + 1]) by {
                if k < st.len() - 1 {
                    assert(st1[k] == st[k] && st1[k + 1] == st[k + 1]);
                } else {
                    assert(st1[k] == st.last() && st1[k + 1] == u);
                }
            }
            assert(black_ok(g, color@, r));
        }
        let deps = &adj[u];
        let mut k: usize = 0;
        proof {
            assert(color@ == c0.update(u as int, 1));
        }
        while k < deps.len()
            invariant
                forall|f: nat| f > white_count(c0) ==> #[trigger] search_from(g, u as int, c0, f) == search_deps(
                    g,
                    u as int,
                    k as int,
                    color@,
                    (f - 1) as nat,
                ),
                g == adj.deep_view(),
                deps@ == g[u as int],
                u < color@.len(),
                color@[u as int] == 1,
                dfs_ok(g, color@, r, n, st1),
                n >= cnt,
                k <= deps@.len(),
                forall|q: int| 0 <= q < k ==> color@[#[trigger] deps@[q] as int] == 2 && r[deps@[q] as int] < n,
                white_count(color@) < white_count(c0),
                forall|a: int| 0 <= a < c0.len() && #[trigger] c0[a] == 2 ==> color@[a] == 2 && r[a] == rank[a],
                forall|a: int| 0 <= a < c0.len() && c0[a] != 0 ==> #[trigger] color@[a] != 0,
                color@.len() == c0.len(),
                c0 == old(color)@,
                st1 == st.push(u as int),
            decreases deps@.len() - k,
        {
            let v = deps[k];
            proof {
                assert(v < g.len());
                assert(deps@[k as int] == v);
                assert(adj_edge(g, u as int, v as int));
                assert(st1.last() == u as int);
            }
            if color[v] == 0 {
                let ghost before = color@;
                let (res, Ghost(r2), Ghost(n2)) = self.dfs(adj, v, color, Ghost(r), Ghost(n), Ghost(st1));
                match res {
                    Ok(()) => {},
                    Err(e) => {
                        proof {
                            assert forall|f: nat| f > white_count(c0) implies #[trigger] search_from(g, u as int, c0, f)
                                == (Some((e.0 as int, e.1 as int)), color@) by {
                                assert(search_from(g, v as int, before, (f - 1) as nat) == (
                                    Some((e.0 as int, e.1 as int)),
                                    color@,
                                ));
                            }
                        }
                        return (Err(e), Ghost(r2), Ghost(n2));
                    },
                }
                proof {
                    assert forall|f: nat| f > white_count(c0) implies #[trigger] search_from(g, u as int, c0, f)
                        == search_deps(g, u as int, k + 1, color@, (f - 1) as nat) by {
                        assert(search_from(g, v as int, before, (f - 1) as nat) == (None::<(int, int)>, color@));
                    }
                }
                proof {
                    assert forall|q: int| 0 <= q < k implies color@[#[trigger] deps@[q] as int] == 2 && r2[deps@[q] as int] < n2 by {
                        assert(before[deps@[q] as int] == 2);
                    }
                    r = r2;
                    n = n2;
                }
            } else if color[v] == 1 {
                proof {
                    assert(st1.contains(v as int));
                    let j = choose|j: int| 0 <= j < st1.len() && st1[j] == v;
                    let p = st1.subrange(j, st1.len() as int);
                    assert forall|q: int| 0 <= q < p.len() - 1 implies #[trigger] adj_edge(g, p[q], p[q + 1]) by {
                        assert(p[q] == st1[j + q] && p[q + 1] == st1[j + q + 1]);
                    }
                    assert(p[0] == v);
                    assert(st1[st1.len() - 1] == u);
                    assert(p[p.len() - 1] == st1[st1.len() - 1]);
                    assert(adj_path(g, p));
                }
                return (Err((u, v)), Ghost(r), Ghost(n));
            }
            k = k + 1;
        }
        let ghost c_before = color@;
        color.set(u, 2);
        proof {
            assert(color@ == c_before.update(u as int, 2));
        }
        proof {
            r = r.update(u as int, n);
            n = n + 1;
            assert forall|a: int, q: int|
                #![trigger color@[a], g[a][q]]
                0 <= a < color@.len() && color@[a] == 2 && 0 <= q < g[a].len() implies color@[g[a][q] as int] == 2
                && r[g[a][q] as int] < r[a] by {
                if a == u {
                    assert(deps@[q] == g[a][q]);
                } else {
                    assert(c_before[a] == 2);
                    assert(c_before[g[a][q] as int] == 2);
                    assert(g[a][q] != u);
                }
            }
            assert forall|a: int| 0 <= a < color@.len() implies (#[trigger] color@[a] == 1 <==> st.contains(a)) by {
                if a == u {
                    if st.contains(a) {
                        let j = choose|j: int| 0 <= j < st.len() && st[j] == a;
                        assert(st1[j] == a);
                        assert(c_before[a] == 1);
                    }
                } else {
                    assert(c_before[a] == color@[a]);
                    if st1.contains(a) {
                        let j = choose|j: int| 0 <= j < st1.len() && st1[j] == a;
                        if j < st.len() {
                            assert(st[j] == a);
                        } else {
                            assert(st1[j] == u);
                        }
                    }
                    if st.contains(a) {
                        let j = choose|j: int| 0 <= j < st.len() && st[j] == a;
                        assert(st1[j] == a);
                    }
                }
            }
            assert forall|q: int| 0 <= q < st.len() - 1 implies #[trigger] adj_edge(g, st[q], st[q + 1]) by {
                assert(st1[q] == st[q] && st1[q + 1] == st[q + 1]);
            }
            assert forall|q: int| 0 <= q < st.len() implies 0 <= #[trigger] st[q] < color@.len() by {
                assert(st1[q] == st[q]);
            }
            lemma_white_mono(c_before, color@);
        }
        (Ok(()), Ghost(r), Ghost(n))
    }
}


/// `adj` is the dependency graph of `ms` by index.
spec fn adj_of(ms: Seq<WorkspaceMember>, adj: Seq<Seq<usize>>) -> bool {
    &&& adj.len() == ms.len()
    &&& forall|a: int| 0 <= a < ms.len() ==> (#[trigger] adj[a]).len() == ms[a].depends_on@.len()
    &&& forall|a: int, k: int|
        0 <= a < ms.len() && 0 <= k < adj[a].len() ==> #[trigger] adj[a][k] < ms.len() && ms[adj[a][k] as int].name@
            == ms[a].depends_on@[k]@
}

/// Names are distinct.
pub open spec fn names_distinct(ms: Seq<WorkspaceMember>) -> bool {
    forall|i: int, j: int| 0 <= i < j < ms.len() ==> #[trigger] ms[i].name@ != #[trigger] ms[j].name@
}

proof fn lemma_edge_adj(ms: Seq<WorkspaceMember>, adj: Seq<Seq<usize>>, a: int, b: int)
    requires
        adj_of(ms, adj),
        names_distinct(ms),
    ensures
        edge(ms, a, b) <==> adj_edge(adj, a, b),
{
    if edge(ms, a, b) {
        let k = choose|k: int| 0 <= k < ms[a].depends_on@.len() && #[trigger] ms[a].depends_on@[k]@ == ms[b].name@;
        let c = adj[a][k] as int;
        assert(ms[c].name@ == ms[b].name@);
        if c != b {
            if c < b {
                assert(ms[c].name@ != ms[b].name@);
            } else {
                assert(ms[b].name@ != ms[c].name@);
            }
        }
        assert(adj[a][k] == b);
    }
    if adj_edge(adj, a, b) {
        let k = choose|k: int| 0 <= k < adj[a].len() && adj[a][k] == b;
        assert(ms[a].depends_on@[k]@ == ms[b].name@);
    }
}

/// Member names are distinct, dependencies name members, and there is
/// no dependency cycle.
pub open spec fn workspace_valid(ms: Seq<WorkspaceMember>) -> bool {
    first_dup_from(member_names(ms), 0) is None && first_missing(ms, 0) is None && acyclic(ms)
}

/// The error validation reports: the first repeated name; else the first
/// dependency that names no member; else a cycle, named by the edge that
/// closes it which the depth-first search meets first (`cycle_edge`).
pub open spec fn validation_error(ms: Seq<WorkspaceMember>, e: CompositionError) -> bool {
    let ns = member_names(ms);
    match first_dup_from(ns, 0) {
        Some(j) => e matches CompositionError::WorkspaceError { detail } && detail@ == "duplicate member name: '"@ + ns[j]
            + "'"@,
        None => match first_missing(ms, 0) {
            Some(ik) => e matches CompositionError::WorkspaceError { detail } && detail@ == "member '"@ + ns[ik.0]
                + "' depends on '"@ + ms[ik.0].depends_on@[ik.1]@ + "' which does not exist in workspace"@,
            None => e matches CompositionError::CycleDetected { components } && exists|a: int, b: int|
                #[trigger] closes_cycle(ms, a, b) && cycle_edge(ms) == Some((a, b)) && texts(components@)
                    == seq![ns[a], ns[b]],
        },
    }
}

/// Every dependency of `m` is in `order`.
pub open spec fn deps_in(m: WorkspaceMember, order: Seq<Seq<char>>) -> bool {
    forall|k: int| 0 <= k < m.depends_on@.len() ==> order.contains(#[trigger] m.depends_on@[k]@)
}

/// One pass over the members from `i` on: a member not yet in `order`
/// whose dependencies all are is appended.
pub open spec fn one_pass(ms: Seq<WorkspaceMember>, order: Seq<Seq<char>>, i: int) -> Seq<Seq<char>>
    decreases ms.len() - i,
{
    if 0 <= i < ms.len() {
        let next = if !order.contains(ms[i].name@) && deps_in(ms[i], order) {
            order.push(ms[i].name@)
        } else {
            order
        };
        one_pass(ms, next, i + 1)
    } else {
        order
    }
}

/// `k` passes.
pub open spec fn passes(ms: Seq<WorkspaceMember>, order: Seq<Seq<char>>, k: nat) -> Seq<Seq<char>>
    decreases k,
{
    if k == 0 {
        order
    } else {
        passes(ms, one_pass(ms, order, 0), (k - 1) as nat)
    }
}

impl WorkspaceConfig {
    /// A workspace with no members.
    pub fn new(name: &str) -> (w: Self)
        ensures
            w.name@ == name@,
            w.members@ == Seq::<WorkspaceMember>::empty(),
            w.shared_features@ == Seq::<String>::empty(),
    {
        WorkspaceConfig { name: owned(name), members: Vec::new(), shared_features: Vec::new() }
    }

    /// Adds a member.
    pub fn add_member(&mut self, member: WorkspaceMember)
        ensures
            final(self).members@ == old(self).members@.push(member),
            final(self).name == old(self).name,
            final(self).shared_features == old(self).shared_features,
    {
        self.members.push(member);
    }

    /// Validates the workspace: member names are distinct, every
    /// dependency names a member, and there is no dependency cycle.
    pub fn validate(&self) -> (r: Result<(), CompositionError>)
        ensures
            r is Ok <==> workspace_valid(self.members@),
            r matches Err(e) ==> validation_error(self.members@, e),
    {
        let ghost ms = self.members@;
        let ghost ns = member_names(ms);
        let n = self.members.len();
        // duplicate names
        let mut j: usize = 0;
        while j < n
            invariant
                n == ms.len(),
                ms == self.members@,
                ns == member_names(ms),
                j <= n,
                first_dup_from(ns, 0) == first_dup_from(ns, j as int),
                forall|a: int, b: int| 0 <= a < b < j ==> #[trigger] ms[a].name@ != #[trigger] ms[b].name@,
            decreases n - j,
        {
            let mut i: usize = 0;
            while i < j
                invariant
                    n == ms.len(),
                    ms == self.members@,
                    ns == member_names(ms),
                    i <= j,
                    j < n,
                    first_dup_from(ns, 0) == first_dup_from(ns, j as int),
                    forall|a: int| 0 <= a < i ==> #[trigger] ms[a].name@ != ms[j as int].name@,
                decreases j - i,
            {
                if str_eq(self.members[i].name.as_str(), self.members[j].name.as_str()) {
                    proof {
                        assert(ns.take(j as int)[i as int] == ns[j as int]);
                        assert(ns.take(j as int).contains(ns[j as int]));
                        assert(first_dup_from(ns, j as int) == Some(j as int));
                        assert(ns[j as int] == self.members@[j as int].name@);
                    }
                    let mut d = owned("duplicate member name: '");
                    push_str(&mut d, self.members[j].name.as_str());
                    push_str(&mut d, "'");
                    return Err(CompositionError::WorkspaceError { detail: d });
                }
                i = i + 1;
            }
            proof {
                assert(!ns.take(j as int).contains(ns[j as int])) by {
                    if ns.take(j as int).contains(ns[j as int]) {
                        let a = choose|a: int| 0 <= a < j && ns.take(j as int)[a] == ns[j as int];
                        assert(ms[a].name@ == ms[j as int].name@);
                    }
                }
            }
            j = j + 1;
        }
        proof {
            assert(first_dup_from(ns, n as int) is None);
            assert(names_distinct(ms));
        }
        // dependencies name members; the graph by index
        let mut adj: Vec<Vec<usize>> = Vec::new();
        let mut i: usize = 0;
        while i < n
            invariant
                n == ms.len(),
                ms == self.members@,
                ns == member_names(ms),
                names_distinct(ms),
                first_dup_from(ns, 0) is None,
                i <= n,
                first_missing(ms, 0) == first_missing(ms, i as int),
                adj@.len() == i,
                forall|a: int| 0 <= a < i ==> (#[trigger] adj@[a])@.len() == ms[a].depends_on@.len(),
                forall|a: int, k: int|
                    0 <= a < i && 0 <= k < adj@[a]@.len() ==> #[trigger] adj@[a]@[k] < n && ms[adj@[a]@[k] as int].name@
                        == ms[a].depends_on@[k]@,
            decreases n - i,
        {
            let deps = &self.members[i].depends_on;
            let mut row: Vec<usize> = Vec::new();
            let mut k: usize = 0;
            while k < deps.len()
                invariant
                    n == ms.len(),
                    ms == self.members@,
                    ns == member_names(ms),
                    i < n,
                    deps@ == ms[i as int].depends_on@,
                    k <= deps@.len(),
                    first_missing(ms, 0) == first_missing(ms, i as int),
                    first_dup_from(ns, 0) is None,
                    first_unknown_dep(ns, deps@, 0) == first_unknown_dep(ns, deps@, k as int),
                    row@.len() == k,
                    forall|q: int| 0 <= q < k ==> #[trigger] row@[q] < n && ms[row@[q] as int].name@ == deps@[q]@,
                decreases deps@.len() - k,
            {
                let mut v: usize = 0;
                while v < n && !str_eq(self.members[v].name.as_str(), deps[k].as_str())
                    invariant
                        n == ms.len(),
                        ms == self.members@,
                        v <= n,
                        k < deps@.len(),
                        forall|a: int| 0 <= a < v ==> #[trigger] ms[a].name@ != deps@[k as int]@,
                    decreases n - v,
                {
                    v = v + 1;
                }
                if v == n {
                    proof {
                        assert(!ns.contains(deps@[k as int]@)) by {
                            if ns.contains(deps@[k as int]@) {
                                let a = choose|a: int| 0 <= a < ns.len() && ns[a] == deps@[k as int]@;
                                assert(ms[a].name@ == deps@[k as int]@);
                            }
                        }
                        assert(first_unknown_dep(ns, deps@, k as int) == Some(k as int));
                        assert(first_missing(ms, i as int) == Some((i as int, k as int)));
                        assert(ns[i as int] == self.members@[i as int].name@);
                    }
                    let mut d = owned("member '");
                    push_str(&mut d, self.members[i].name.as_str());
                    push_str(&mut d, "' depends on '");
                    push_str(&mut d, deps[k].as_str());
                    push_str(&mut d, "' which does not exist in workspace");
                    return Err(CompositionError::WorkspaceError { detail: d });
                }
                proof {
                    assert(ns[v as int] == deps@[k as int]@);
                    assert(ns.contains(deps@[k as int]@));
                }
                row.push(v);
                k = k + 1;
            }
            proof {
                assert(first_unknown_dep(ns, deps@, k as int) is None);
            }
            adj.push(row);
            i = i + 1;
        }
        proof {
            assert(adj_of(ms, adj.deep_view())) by {
                assert forall|a: int| 0 <= a < ms.len() implies (#[trigger] adj.deep_view()[a]).len() == ms[a].depends_on@.len() by {
                    assert(adj.deep_view()[a] == adj@[a]@);
                }
                assert forall|a: int, k: int| 0 <= a < ms.len() && 0 <= k < adj.deep_view()[a].len() implies #[trigger] adj.deep_view()[a][k]
                    < ms.len() && ms[adj.deep_view()[a][k] as int].name@ == ms[a].depends_on@[k]@ by {
                    assert(adj.deep_view()[a] == adj@[a]@);
                }
            }
        }
        // cycles
        let ghost g = adj.deep_view();
        let mut color: Vec<u8> = Vec::new();
        let mut z: usize = 0;
        while z < n
            invariant
                z <= n,
                color@.len() == z,
                forall|a: int| 0 <= a < z ==> #[trigger] color@[a] == 0,
            decreases n - z,
        {
            color.push(0);
            z = z + 1;
        }
        let ghost mut rank: Seq<int> = Seq::new(n as nat, |a: int| 0);
        let ghost mut cnt: int = 0;
        proof {
            assert(stack_ok(g, color@, Seq::<int>::empty()));
            assert(black_ok(g, color@, rank));
            assert(dfs_ok(g, color@, rank, cnt, Seq::<int>::empty()));
        }
        proof {
            assert(color@ =~= Seq::new(n as nat, |a: int| 0u8));
        }
        let mut u: usize = 0;
        while u < n
            invariant
                n == ms.len(),
                ms == self.members@,
                ns == member_names(ms),
                names_distinct(ms),
                adj_of(ms, g),
                g == adj.deep_view(),
                first_dup_from(ns, 0) is None,
                first_missing(ms, 0) is None,
                u <= n,
                dfs_ok(g, color@, rank, cnt, Seq::<int>::empty()),
                forall|a: int| 0 <= a < u ==> #[trigger] color@[a] == 2,
                color@.len() == n,
                g.len() == n,
                search_all(g, 0, Seq::new(n as nat, |a: int| 0u8)) == search_all(g, u as int, color@),
            decreases n - u,
        {
            let ghost cb = color@;
            proof {
                lemma_white_le_len(color@);
            }
            if color[u] == 0 {
                let (res, Ghost(r2), Ghost(c2)) = self.dfs(&adj, u, &mut color, Ghost(rank), Ghost(cnt), Ghost(Seq::<int>::empty()));
                proof {
                    assert(search_from(g, u as int, cb, (n + 1) as nat) == (match res {
                        Ok(()) => None,
                        Err((a, b)) => Some((a as int, b as int)),
                    }, color@));
                }
                match res {
                    Ok(()) => {
                        proof {
                            rank = r2;
                            cnt = c2;
                        }
                    },
                    Err((a, b)) => {
                        proof {
                            lemma_adj_cycle(ms, g, a as int, b as int);
                            lemma_cycle_not_acyclic(ms, a as int, b as int);
                            assert(search_all(g, u as int, cb) == Some((a as int, b as int)));
                            lemma_dep_graph(ms, g);
                            assert(cycle_edge(ms) == Some((a as int, b as int)));
                        }
                        let comps = vec![self.members[a].name.clone(), self.members[b].name.clone()];
                        proof {
                            assert(texts(comps@) =~= seq![ns[a as int], ns[b as int]]);
                            assert(closes_cycle(ms, a as int, b as int));
                        }
                        return Err(CompositionError::CycleDetected { components: comps });
                    },
                }
            } else {
                proof {
                    assert(color@[u as int] != 1) by {
                        assert(!Seq::<int>::empty().contains(u as int));
                    }
                }
            }
            u = u + 1;
        }
        proof {
            assert forall|a: int, b: int| #[trigger] edge(ms, a, b) implies rank[b] < rank[a] by {
                lemma_edge_adj(ms, g, a, b);
                let k = choose|k: int| 0 <= k < g[a].len() && g[a][k] == b;
                assert(color@[a] == 2);
            }
            assert(is_ranking(ms, rank));
        }
        Ok(())
    }
}

/// The error validation reports is fixed by the members: any two errors it
/// may report have the same text. So `build_order` fails with the error
/// `validate` gives.
pub proof fn law_validation_error_fixed(ms: Seq<WorkspaceMember>, e1: CompositionError, e2: CompositionError)
    requires
        validation_error(ms, e1),
        validation_error(ms, e2),
    ensures
        composition_error_text(e1) == composition_error_text(e2),
{
}

proof fn lemma_white_le_len(c: Seq<u8>)
    ensures
        white_count(c) <= c.len(),
    decreases c.len(),
{
    if c.len() > 0 {
        lemma_white_le_len(c.drop_last());
    }
}

/// The index of a member named `name`.
pub open spec fn member_index(ms: Seq<WorkspaceMember>, name: Seq<char>) -> int {
    choose|i: int| 0 <= i < ms.len() && ms[i].name@ == name
}

/// The dependency graph of the members by index: for each member, the
/// indices of the members it depends on, in order.
pub open spec fn dep_graph(ms: Seq<WorkspaceMember>) -> Seq<Seq<usize>> {
    Seq::new(
        ms.len(),
        |a: int| Seq::new(ms[a].depends_on@.len(), |k: int| member_index(ms, ms[a].depends_on@[k]@) as usize),
    )
}

/// The edge closing a cycle that validation reports: the first one the
/// depth-first search meets, starting from each member in order.
pub open spec fn cycle_edge(ms: Seq<WorkspaceMember>) -> Option<(int, int)> {
    search_all(dep_graph(ms), 0, Seq::new(ms.len(), |a: int| 0u8))
}

/// With distinct names, the graph by index is the dependency graph.
proof fn lemma_dep_graph(ms: Seq<WorkspaceMember>, g: Seq<Seq<usize>>)
    requires
        adj_of(ms, g),
        names_distinct(ms),
    ensures
        g == dep_graph(ms),
{
    let d = dep_graph(ms);
    assert forall|a: int| 0 <= a < ms.len() implies #[trigger] g[a] == d[a] by {
        assert forall|k: int| 0 <= k < g[a].len() implies #[trigger] g[a][k] == d[a][k] by {
            let name = ms[a].depends_on@[k]@;
            let j = g[a][k] as int;
            assert(ms[j].name@ == name);
            let i = member_index(ms, name);
            assert(0 <= i < ms.len() && ms[i].name@ == name);
            if i < j {
                assert(ms[i].name@ != ms[j].name@);
            } else if j < i {
                assert(ms[j].name@ != ms[i].name@);
            }
        }
        assert(g[a] =~= d[a]);
    }
    assert(g =~= d);
}

proof fn lemma_adj_cycle(ms: Seq<WorkspaceMember>, g: Seq<Seq<usize>>, a: int, b: int)
    requires
        adj_of(ms, g),
        names_distinct(ms),
        adj_cycle(g, a, b),
    ensures
        closes_cycle(ms, a, b),
{
    lemma_edge_adj(ms, g, a, b);
    let p = choose|p: Seq<int>| adj_path(g, p) && p[0] == b && #[trigger] p[p.len() - 1] == a;
    assert forall|k: int| 0 <= k < p.len() - 1 implies #[trigger] edge(ms, p[k], p[k + 1]) by {
        lemma_edge_adj(ms, g, p[k], p[k + 1]);
    }
    assert(is_path(ms, p));
}


/// Whether the strings hold `x`.
pub(crate) fn contains_str(v: &Vec<String>, x: &str) -> (r: bool)
    ensures
        r == texts(v@).contains(x@),
{
    let mut i: usize = 0;
    while i < v.len()
        invariant
            i <= v@.len(),
            forall|q: int| 0 <= q < i ==> #[trigger] v@[q]@ != x@,
        decreases v@.len() - i,
    {
        if str_eq(v[i].as_str(), x) {
            proof {
                assert(texts(v@)[i as int] == x@);
            }
            return true;
        }
        i = i + 1;
    }
    proof {
        if texts(v@).contains(x@) {
            let q = choose|q: int| 0 <= q < texts(v@).len() && texts(v@)[q] == x@;
            assert(v@[q]@ == x@);
        }
    }
    false
}

impl WorkspaceConfig {
    /// A build order: after validation, repeated passes over the members,
    /// each appending the members whose dependencies are already in the
    /// order; as many passes as there are members.
    pub fn build_order(&self) -> (r: Result<Vec<String>, CompositionError>)
        ensures
            !workspace_valid(self.members@) ==> (r matches Err(e) && validation_error(self.members@, e)),
            workspace_valid(self.members@) ==> (r matches Ok(v) && texts(v@) == passes(
                self.members@,
                Seq::empty(),
                self.members@.len(),
            ) && topological(self.members@, texts(v@)) && texts(v@).len() == self.members@.len()),
    {
        match self.validate() {
            Err(e) => return Err(e),
            Ok(()) => {},
        }
        let ghost ms = self.members@;
        let n = self.members.len();
        let mut order: Vec<String> = Vec::new();
        let mut pass: usize = 0;
        proof {
            assert(texts(order@) =~= Seq::<Seq<char>>::empty());
        }
        while pass < n
            invariant
                ms == self.members@,
                n == ms.len(),
                pass <= n,
                passes(ms, Seq::empty(), n as nat) == passes(ms, texts(order@), (n - pass) as nat),
            decreases n - pass,
        {
            let ghost start = texts(order@);
            let mut i: usize = 0;
            while i < n
                invariant
                    ms == self.members@,
                    n == ms.len(),
                    i <= n,
                    one_pass(ms, start, 0) == one_pass(ms, texts(order@), i as int),
                decreases n - i,
            {
                let m = &self.members[i];
                if !contains_str(&order, m.name.as_str()) {
                    let mut met = true;
                    let mut k: usize = 0;
                    while k < m.depends_on.len()
                        invariant
                            k <= m.depends_on@.len(),
                            met <==> forall|q: int| 0 <= q < k ==> texts(order@).contains(#[trigger] m.depends_on@[q]@),
                        decreases m.depends_on@.len() - k,
                    {
                        if !contains_str(&order, m.depends_on[k].as_str()) {
                            met = false;
                        }
                        k = k + 1;
                    }
                    if met {
                        let ghost before = texts(order@);
                        order.push(m.name.clone());
                        proof {
                            assert(texts(order@) =~= before.push(m.name@));
                        }
                    }
                }
                i = i + 1;
            }
            proof {
                assert(one_pass(ms, texts(order@), n as int) == texts(order@));
            }
            pass = pass + 1;
        }
        proof {
            law_build_order_topological(ms);
        }
        if order.len() != n {
            let mut rest: Vec<String> = Vec::new();
            let mut i: usize = 0;
            while i < n
                invariant
                    ms == self.members@,
                    n == ms.len(),
                    i <= n,
                decreases n - i,
            {
                if !contains_str(&order, self.members[i].name.as_str()) {
                    rest.push(self.members[i].name.clone());
                }
                i = i + 1;
            }
            return Err(CompositionError::CycleDetected { components: rest });
        }
        proof {
            assert(passes(ms, texts(order@), 0) == texts(order@));
        }
        Ok(order)
    }
}

proof fn lemma_dup_none(ns: Seq<Seq<char>>, j: int)
    requires
        0 <= j <= ns.len(),
        first_dup_from(ns, j) is None,
        forall|a: int, b: int| 0 <= a < b < j ==> ns[a] != ns[b],
    ensures
        ns.no_duplicates(),
    decreases ns.len() - j,
{
    if j < ns.len() {
        assert forall|a: int, b: int| 0 <= a < b < j + 1 implies ns[a] != ns[b] by {
            if b == j {
                assert(ns.take(j)[a] == ns[a]);
            }
        }
        lemma_dup_none(ns, j + 1);
    }
}

proof fn lemma_unknown_none(ns: Seq<Seq<char>>, deps: Seq<String>, k: int)
    requires
        0 <= k,
        first_unknown_dep(ns, deps, k) is None,
    ensures
        forall|q: int| k <= q < deps.len() ==> ns.contains(#[trigger] deps[q]@),
    decreases deps.len() - k,
{
    if k < deps.len() {
        lemma_unknown_none(ns, deps, k + 1);
    }
}

proof fn lemma_missing_none(ms: Seq<WorkspaceMember>, i: int)
    requires
        0 <= i,
        first_missing(ms, i) is None,
    ensures
        forall|a: int, q: int|
            i <= a < ms.len() && 0 <= q < ms[a].depends_on@.len() ==> member_names(ms).contains(
                #[trigger] ms[a].depends_on@[q]@,
            ),
    decreases ms.len() - i,
{
    if i < ms.len() {
        lemma_unknown_none(member_names(ms), ms[i].depends_on@, 0);
        lemma_missing_none(ms, i + 1);
    }
}

/// A sequence without repeats whose items all occur in `b` is no longer than `b`.
proof fn lemma_count_distinct(a: Seq<Seq<char>>, b: Seq<Seq<char>>)
    requires
        a.no_duplicates(),
        forall|p: int| 0 <= p < a.len() ==> b.contains(#[trigger] a[p]),
    ensures
        a.len() <= b.len(),
{
    a.unique_seq_to_set();
    b.lemma_cardinality_of_set();
    assert(a.to_set().subset_of(b.to_set()));
    vstd::seq_lib::seq_to_set_is_finite(b);
    vstd::set_lib::lemma_len_subset(a.to_set(), b.to_set());
}

/// `o` names members without repeats, each after every dependency of its member.
pub open spec fn topological(ms: Seq<WorkspaceMember>, o: Seq<Seq<char>>) -> bool {
    &&& o.no_duplicates()
    &&& forall|p: int| 0 <= p < o.len() ==> member_names(ms).contains(#[trigger] o[p])
    &&& forall|p: int, j: int|
        0 <= p < o.len() && 0 <= j < ms.len() && #[trigger] ms[j].name@ == #[trigger] o[p] ==> deps_in(ms[j], o.take(p))
}

proof fn lemma_deps_extend(m: WorkspaceMember, c: Seq<Seq<char>>, d: Seq<Seq<char>>)
    requires
        deps_in(m, c),
        c.len() <= d.len(),
        forall|q: int| 0 <= q < c.len() ==> #[trigger] d[q] == c[q],
    ensures
        deps_in(m, d),
{
    assert forall|k: int| 0 <= k < m.depends_on@.len() implies d.contains(#[trigger] m.depends_on@[k]@) by {
        let q = choose|q: int| 0 <= q < c.len() && c[q] == m.depends_on@[k]@;
        assert(d[q] == c[q]);
    }
}

proof fn lemma_one_pass_keeps(ms: Seq<WorkspaceMember>, c: Seq<Seq<char>>, i: int)
    requires
        0 <= i,
        names_distinct(ms),
        topological(ms, c),
    ensures
        topological(ms, one_pass(ms, c, i)),
        one_pass(ms, c, i).len() >= c.len(),
        forall|q: int| 0 <= q < c.len() ==> #[trigger] one_pass(ms, c, i)[q] == c[q],
    decreases ms.len() - i,
{
    if i < ms.len() {
        if !c.contains(ms[i].name@) && deps_in(ms[i], c) {
            let d = c.push(ms[i].name@);
            lemma_push_topological(ms, c, i);
            lemma_one_pass_keeps(ms, d, i + 1);
            assert forall|q: int| 0 <= q < c.len() implies #[trigger] one_pass(ms, c, i)[q] == c[q] by {
                assert(d[q] == c[q]);
            }
        } else {
            lemma_one_pass_keeps(ms, c, i + 1);
        }
    }
}

proof fn lemma_one_pass_reaches(ms: Seq<WorkspaceMember>, c: Seq<Seq<char>>, i: int, j: int)
    requires
        0 <= i <= j < ms.len(),
        names_distinct(ms),
        topological(ms, c),
        deps_in(ms[j], c),
    ensures
        one_pass(ms, c, i).contains(ms[j].name@),
    decreases ms.len() - i,
{
    let pushed = !c.contains(ms[i].name@) && deps_in(ms[i], c);
    let next = if pushed {
        c.push(ms[i].name@)
    } else {
        c
    };
    assert(one_pass(ms, c, i) == one_pass(ms, next, i + 1));
    if pushed {
        lemma_push_topological(ms, c, i);
    }
    assert(next.len() >= c.len());
    assert forall|q: int| 0 <= q < c.len() implies #[trigger] next[q] == c[q] by {}
    lemma_one_pass_keeps(ms, next, i + 1);
    let r = one_pass(ms, next, i + 1);
    if i == j {
        if c.contains(ms[j].name@) {
            let q = choose|q: int| 0 <= q < c.len() && c[q] == ms[j].name@;
            assert(r[q] == next[q]);
        } else {
            assert(r[c.len() as int] == next[c.len() as int]);
        }
    } else {
        lemma_deps_extend(ms[j], c, next);
        lemma_one_pass_reaches(ms, next, i + 1, j);
    }
}

proof fn lemma_push_topological(ms: Seq<WorkspaceMember>, c: Seq<Seq<char>>, i: int)
    requires
        0 <= i < ms.len(),
        names_distinct(ms),
        topological(ms, c),
        !c.contains(ms[i].name@),
        deps_in(ms[i], c),
    ensures
        topological(ms, c.push(ms[i].name@)),
{
    let d = c.push(ms[i].name@);
    assert forall|p: int| 0 <= p < d.len() implies member_names(ms).contains(#[trigger] d[p]) by {
        if p == c.len() {
            assert(member_names(ms)[i] == d[p]);
        }
    }
    assert forall|p: int, j: int|
        0 <= p < d.len() && 0 <= j < ms.len() && #[trigger] ms[j].name@ == #[trigger] d[p] implies deps_in(
        ms[j],
        d.take(p),
    ) by {
        if p == c.len() {
            assert(j == i);
            assert(d.take(p) =~= c);
        } else {
            assert(d[p] == c[p]);
            assert(d.take(p) =~= c.take(p));
        }
    }
}

proof fn lemma_lower_bound(r: Seq<int>) -> (lo: int)
    ensures
        forall|a: int| 0 <= a < r.len() ==> lo <= #[trigger] r[a],
    decreases r.len(),
{
    if r.len() == 0 {
        0
    } else {
        let lo0 = lemma_lower_bound(r.drop_last());
        let lo = if r.last() < lo0 {
            r.last()
        } else {
            lo0
        };
        assert forall|a: int| 0 <= a < r.len() implies lo <= #[trigger] r[a] by {
            if a < r.len() - 1 {
                assert(r.drop_last()[a] == r[a]);
            }
        }
        lo
    }
}

/// Every dependency of every member names a member.
pub open spec fn deps_known(ms: Seq<WorkspaceMember>) -> bool {
    forall|a: int, q: int|
        0 <= a < ms.len() && 0 <= q < ms[a].depends_on@.len() ==> member_names(ms).contains(
            #[trigger] ms[a].depends_on@[q]@,
        )
}

proof fn lemma_ready(ms: Seq<WorkspaceMember>, r: Seq<int>, lo: int, c: Seq<Seq<char>>, i: int)
    requires
        is_ranking(ms, r),
        forall|a: int| 0 <= a < r.len() ==> lo <= #[trigger] r[a],
        deps_known(ms),
        0 <= i < ms.len(),
        !c.contains(ms[i].name@),
    ensures
        exists|j: int| 0 <= j < ms.len() && !c.contains(#[trigger] ms[j].name@) && deps_in(ms[j], c),
    decreases r[i] - lo,
{
    if deps_in(ms[i], c) {
        assert(!c.contains(ms[i].name@));
    } else {
        let k = choose|k: int| 0 <= k < ms[i].depends_on@.len() && !c.contains(#[trigger] ms[i].depends_on@[k]@);
        let d = ms[i].depends_on@[k]@;
        assert(member_names(ms).contains(d));
        let j = choose|j: int| 0 <= j < member_names(ms).len() && member_names(ms)[j] == d;
        assert(ms[j].name@ == d);
        assert(edge(ms, i, j));
        lemma_ready(ms, r, lo, c, j);
    }
}

proof fn lemma_pass_grows(ms: Seq<WorkspaceMember>, c: Seq<Seq<char>>)
    requires
        names_distinct(ms),
        deps_known(ms),
        acyclic(ms),
        topological(ms, c),
        c.len() < ms.len(),
    ensures
        one_pass(ms, c, 0).len() > c.len(),
{
    let ns = member_names(ms);
    assert(exists|i: int| 0 <= i < ms.len() && !c.contains(#[trigger] ms[i].name@)) by {
        if forall|i: int| 0 <= i < ms.len() ==> c.contains(#[trigger] ms[i].name@) {
            assert forall|p: int| 0 <= p < ns.len() implies c.contains(#[trigger] ns[p]) by {
                assert(ns[p] == ms[p].name@);
            }
            assert(ns.no_duplicates());
            lemma_count_distinct(ns, c);
        }
    }
    let i = choose|i: int| 0 <= i < ms.len() && !c.contains(#[trigger] ms[i].name@);
    let r = choose|r: Seq<int>| is_ranking(ms, r);
    let lo = lemma_lower_bound(r);
    lemma_ready(ms, r, lo, c, i);
    let j = choose|j: int| 0 <= j < ms.len() && !c.contains(#[trigger] ms[j].name@) && deps_in(ms[j], c);
    lemma_one_pass_reaches(ms, c, 0, j);
    lemma_one_pass_keeps(ms, c, 0);
    let o = one_pass(ms, c, 0);
    if o.len() == c.len() {
        assert(o =~= c);
    }
}

proof fn lemma_passes_grow(ms: Seq<WorkspaceMember>, c: Seq<Seq<char>>, k: nat)
    requires
        names_distinct(ms),
        deps_known(ms),
        acyclic(ms),
        topological(ms, c),
    ensures
        topological(ms, passes(ms, c, k)),
        passes(ms, c, k).len() >= c.len() + k || passes(ms, c, k).len() >= ms.len(),
    decreases k,
{
    if k > 0 {
        lemma_one_pass_keeps(ms, c, 0);
        if c.len() < ms.len() {
            lemma_pass_grows(ms, c);
        }
        lemma_passes_grow(ms, one_pass(ms, c, 0), (k - 1) as nat);
    }
}

/// On a valid workspace the build order lists every member exactly once,
/// each after all of its dependencies.
pub proof fn law_build_order_topological(ms: Seq<WorkspaceMember>)
    requires
        workspace_valid(ms),
    ensures
        ({
            let o = passes(ms, Seq::empty(), ms.len());
            &&& o.len() == ms.len()
            &&& topological(ms, o)
            &&& forall|j: int| 0 <= j < ms.len() ==> o.contains(#[trigger] ms[j].name@)
        }),
{
    let ns = member_names(ms);
    lemma_dup_none(ns, 0);
    assert(names_distinct(ms)) by {
        assert forall|i: int, j: int| 0 <= i < j < ms.len() implies #[trigger] ms[i].name@ != #[trigger] ms[j].name@ by {
            assert(ns[i] == ms[i].name@ && ns[j] == ms[j].name@);
        }
    }
    lemma_missing_none(ms, 0);
    let e = Seq::<Seq<char>>::empty();
    assert(topological(ms, e));
    lemma_passes_grow(ms, e, ms.len());
    let o = passes(ms, e, ms.len());
    lemma_count_distinct(o, ns);
    assert forall|j: int| 0 <= j < ms.len() implies o.contains(#[trigger] ms[j].name@) by {
        if !o.contains(ms[j].name@) {
            let rest = ns.to_set().remove(ms[j].name@);
            assert(ns[j] == ms[j].name@);
            ns.unique_seq_to_set();
            o.unique_seq_to_set();
            vstd::seq_lib::seq_to_set_is_finite(ns);
            assert(o.to_set().subset_of(rest));
            vstd::set_lib::lemma_len_subset(o.to_set(), rest);
        }
    }
}

} // verus!
