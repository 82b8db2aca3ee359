//! Exact-version modules: packages define a module by name and version
//! with the modules it depends on, and require one by name and version.
//!
//! A module loads once: requiring it while it loads is a dependency
//! cycle; a failed load leaves it defined, to be tried again. Loading
//! runs the module's factory (outside this library) after its
//! dependencies, in the order of their aliases.

use vstd::prelude::*;

use crate::order::{key_view, keys_view, sort_indices, sorted_indices_of, SortKey};
use crate::registry::blank;
use crate::text::{chars_eq, chars_of, debug_quote, debug_quoted, extend_chars, string_of, trim_chars};

verus! {

/// How far a module has loaded.
#[derive(Debug, Clone, Copy, PartialEq, Eq, Structural)]
pub enum ModuleState {
    Defined,
    Loading,
    Loaded,
}

/// The name of a state.
pub open spec fn state_name(s: ModuleState) -> Seq<char> {
    match s {
        ModuleState::Defined => "defined"@,
        ModuleState::Loading => "loading"@,
        ModuleState::Loaded => "loaded"@,
    }
}

impl ModuleState {
    /// The state's name.
    pub fn name(self) -> (r: &'static str)
        ensures
            r@ == state_name(self),
    {
        match self {
            ModuleState::Defined => "defined",
            ModuleState::Loading => "loading",
            ModuleState::Loaded => "loaded",
        }
    }
}

/// A module a module depends on, under the alias its factory sees it by.
pub struct Dependency {
    pub alias: String,
    pub name: String,
    pub version: String,
}

/// A defined module.
pub struct ModuleEntry {
    pub name: String,
    pub version: String,
    pub source: String,
    pub scope: u64,
    pub dependencies: Vec<Dependency>,
    pub state: ModuleState,
}

/// The error for a blank module name or version, if either is blank.
pub open spec fn identity_error(name: Seq<char>, version: Seq<char>) -> Option<Seq<char>> {
    if blank(name) {
        Some("module name must be a non-empty string"@)
    } else if blank(version) {
        Some("module version must be a non-empty string"@)
    } else {
        None
    }
}

fn text_of(s: &str) -> (r: String)
    ensures
        r@ == s@,
{
    string_of(chars_of(s).as_slice())
}

fn is_blank(s: &str) -> (r: bool)
    ensures
        r == blank(s@),
{
    trim_chars(&chars_of(s)).len() == 0
}

/// Checks that a module's name and version are not blank.
pub fn validate_module_identity(name: &str, version: &str) -> (r: Result<(), String>)
    ensures
        match identity_error(name@, version@) {
            Some(m) => r matches Err(e) && e@ == m,
            None => r is Ok,
        },
{
    if is_blank(name) {
        return Err(text_of("module name must be a non-empty string"));
    }
    if is_blank(version) {
        return Err(text_of("module version must be a non-empty string"));
    }
    Ok(())
}

/// The error for a dependency, if it has one: a blank alias, name or
/// version.
pub open spec fn dependency_error(d: Dependency) -> Option<Seq<char>> {
    if blank(d.alias@) {
        Some("module dependency alias must be a non-empty string"@)
    } else {
        identity_error(d.name@, d.version@)
    }
}

/// A module's name and version as it is written in messages: `name@version`.
pub open spec fn module_label(name: Seq<char>, version: Seq<char>) -> Seq<char> {
    name + "@"@ + version
}

/// Two dependencies with equal fields.
pub open spec fn same_dependency(a: Dependency, b: Dependency) -> bool {
    a.alias@ == b.alias@ && a.name@ == b.name@ && a.version@ == b.version@
}

/// `sorted` holds `deps` in the order `ord` gives, which sorts them by
/// alias (equal aliases in the order given).
pub open spec fn sorted_by_alias(sorted: Seq<Dependency>, deps: Seq<Dependency>, ord: Seq<usize>) -> bool {
    &&& sorted_indices_of(Seq::new(deps.len(), |i: int| (0int, 0int, deps[i].alias@, Seq::<char>::empty())), deps.len() as int, ord)
    &&& sorted.len() == deps.len()
    &&& forall|i: int| 0 <= i < sorted.len() ==> same_dependency(#[trigger] sorted[i], deps[ord[i] as int])
}

/// The first dependency in `sorted` with an error, and the error.
pub open spec fn first_dependency_error(sorted: Seq<Dependency>) -> Option<Seq<char>>
    decreases sorted.len(),
{
    if sorted.len() == 0 {
        None
    } else {
        match first_dependency_error(sorted.drop_last()) {
            Some(e) => Some(e),
            None => dependency_error(sorted.last()),
        }
    }
}

fn copy_text(s: &String) -> (r: String)
    ensures
        r@ == s@,
{
    s.clone()
}

fn copy_dependency(d: &Dependency) -> (r: Dependency)
    ensures
        same_dependency(r, *d),
{
    Dependency { alias: copy_text(&d.alias), name: copy_text(&d.name), version: copy_text(&d.version) }
}

fn sort_dependencies(deps: &Vec<Dependency>) -> (r: Vec<Dependency>)
    ensures
        exists|ord: Seq<usize>| sorted_by_alias(r@, deps@, ord),
{
    let mut keys: Vec<SortKey> = Vec::new();
    let mut k: usize = 0;
    while k < deps.len()
        invariant
            k <= deps@.len(),
            keys@.len() == k,
            forall|m: int| 0 <= m < k ==> #[trigger] key_view(keys@[m]) == (0int, 0int, deps@[m].alias@, Seq::<char>::empty()),
        decreases deps@.len() - k,
    {
        let none: Vec<char> = Vec::new();
        keys.push(SortKey { rank: 0, tie: 0, first: chars_of(deps[k].alias.as_str()), second: none });
        k += 1;
    }
    let ghost target = Seq::new(deps@.len(), |i: int| (0int, 0int, deps@[i].alias@, Seq::<char>::empty()));
    assert(keys_view(keys@) =~= target);
    let ord = sort_indices(&keys);
    let mut out: Vec<Dependency> = Vec::new();
    let mut m: usize = 0;
    while m < ord.len()
        invariant
            m <= ord@.len(),
            sorted_indices_of(target, deps@.len() as int, ord@),
            out@.len() == m,
            forall|q: int| 0 <= q < m ==> same_dependency(#[trigger] out@[q], deps@[ord@[q] as int]),
        decreases ord@.len() - m,
    {
        out.push(copy_dependency(&deps[ord[m]]));
        m += 1;
    }
    assert(sorted_by_alias(out@, deps@, ord@));
    out
}

/// What requiring a module asks next.
pub enum RequireStart {
    /// It is loaded: its value can be used.
    Loaded,
    /// Load it: require these dependencies (in this order), then run its
    /// factory as `source`, then report with `finish_require`.
    Load { source: String, dependencies: Vec<Dependency> },
}

/// The defined modules, and the modules being loaded, outermost first.
pub struct Modules {
    entries: Vec<ModuleEntry>,
    loading: Vec<String>,
}

/// Module `i` has the name and version given.
pub open spec fn module_at(es: Seq<ModuleEntry>, i: int, name: Seq<char>, version: Seq<char>) -> bool {
    0 <= i < es.len() && es[i].name@ == name && es[i].version@ == version
}

/// The labels on a loading stack joined by ` -> `.
pub open spec fn chain_text(labels: Seq<Seq<char>>) -> Seq<char>
    decreases labels.len(),
{
    if labels.len() == 0 {
        Seq::<char>::empty()
    } else if labels.len() == 1 {
        labels[0]
    } else {
        chain_text(labels.drop_last()) + " -> "@ + labels.last()
    }
}

impl Modules {
    /// The defined modules, in the order they were defined.
    pub closed spec fn entries(self) -> Seq<ModuleEntry> {
        self.entries@
    }

    /// The labels of the modules being loaded, outermost first.
    pub closed spec fn loading(self) -> Seq<Seq<char>> {
        Seq::new(self.loading@.len(), |i: int| self.loading@[i]@)
    }

    /// No name and version is defined twice.
    pub open spec fn wf(self) -> bool {
        forall|i: int, j: int|
            0 <= i < j < self.entries().len() ==> !(#[trigger] self.entries()[i].name@ == #[trigger] self.entries()[j].name@
                && self.entries()[i].version@ == self.entries()[j].version@)
    }

    /// No module defined.
    pub fn new() -> (r: Modules)
        ensures
            r.wf(),
            r.entries().len() == 0,
            r.loading().len() == 0,
    {
        let r = Modules { entries: Vec::new(), loading: Vec::new() };
        assert(r.loading() =~= Seq::<Seq<char>>::empty());
        r
    }

    fn find(&self, name: &str, version: &str) -> (r: Option<usize>)
        requires
            self.wf(),
        ensures
            match r {
                Some(i) => module_at(self.entries(), i as int, name@, version@)
                    && forall|k: int| module_at(self.entries(), k, name@, version@) ==> k == i,
                None => forall|k: int| 0 <= k < self.entries().len() ==> !module_at(self.entries(), k, name@, version@),
            },
    {
        let mut i: usize = 0;
        while i < self.entries.len()
            invariant
                i <= self.entries@.len(),
                self.wf(),
                forall|k: int| 0 <= k < i ==> !module_at(self.entries@, k, name@, version@),
            decreases self.entries@.len() - i,
        {
            let e = &self.entries[i];
            if chars_eq(&chars_of(e.name.as_str()), &chars_of(name)) && chars_eq(&chars_of(e.version.as_str()), &chars_of(version)) {
                proof {
                    assert forall|k: int| module_at(self.entries(), k, name@, version@) implies k == i by {
                        if k < i {
                        } else if k > i {
                            assert(!(self.entries()[i as int].name@ == self.entries()[k].name@
                                && self.entries()[i as int].version@ == self.entries()[k].version@));
                        }
                    }
                }
                return Some(i);
            }
            i += 1;
        }
        None
    }

    /// Defines module `name@version` for the package `source` in `scope`,
    /// with its dependencies (kept sorted by alias). Refused when the name
    /// or version is blank, a dependency has a blank alias, name or
    /// version (the first by alias is named), or the module is defined
    /// already.
    pub fn define(&mut self, name: &str, version: &str, dependencies: &Vec<Dependency>, source: &str, scope: u64) -> (r: Result<(), String>)
        requires
            old(self).wf(),
        ensures
            final(self).wf(),
            final(self).loading() == old(self).loading(),
            r is Err ==> *final(self) == *old(self),
            identity_error(name@, version@) matches Some(m) ==> (r matches Err(e) && e@ == m),
            identity_error(name@, version@) is None ==> exists|sorted: Seq<Dependency>, ord: Seq<usize>| {
                &&& sorted_by_alias(sorted, dependencies@, ord)
                &&& match first_dependency_error(sorted) {
                    Some(m) => r matches Err(e) && e@ == m,
                    None => if exists|i: int| module_at(old(self).entries(), i, name@, version@) {
                        let i = choose|i: int| module_at(old(self).entries(), i, name@, version@);
                        r matches Err(e) && e@ == "module "@ + module_label(name@, version@) + " is already defined by "@
                            + old(self).entries()[i].source@
                    } else {
                        &&& r is Ok
                        &&& final(self).entries().drop_last() == old(self).entries()
                        &&& final(self).entries().len() == old(self).entries().len() + 1
                        &&& final(self).entries().last().name@ == name@
                        &&& final(self).entries().last().version@ == version@
                        &&& final(self).entries().last().source@ == source@
                        &&& final(self).entries().last().scope == scope
                        &&& final(self).entries().last().state == ModuleState::Defined
                        &&& final(self).entries().last().dependencies@.len() == sorted.len()
                        &&& forall|k: int| 0 <= k < sorted.len() ==> same_dependency(
                            #[trigger] final(self).entries().last().dependencies@[k],
                            sorted[k],
                        )
                    },
                }
            },
    {
        match validate_module_identity(name, version) {
            Err(e) => {
                return Err(e);
            },
            Ok(()) => {},
        }
        let sorted = sort_dependencies(dependencies);
        let ghost ord = choose|ord: Seq<usize>| sorted_by_alias(sorted@, dependencies@, ord);
        let mut k: usize = 0;
        assert(sorted@.take(0) =~= Seq::<Dependency>::empty());
        while k < sorted.len()
            invariant
                k <= sorted@.len(),
                first_dependency_error(sorted@.take(k as int)) is None,
                self.wf(),
                *self == *old(self),
                identity_error(name@, version@) is None,
                sorted_by_alias(sorted@, dependencies@, ord),
            decreases sorted@.len() - k,
        {
            let ghost t = sorted@.take(k + 1);
            assert(t.drop_last() =~= sorted@.take(k as int));
            let d = &sorted[k];
            if is_blank(d.alias.as_str()) {
                assert(first_dependency_error(t) == dependency_error(*d));
                proof {
                    lemma_first_error_prefix(sorted@, k + 1);
                }
                return Err(text_of("module dependency alias must be a non-empty string"));
            }
            match validate_module_identity(d.name.as_str(), d.version.as_str()) {
                Err(e) => {
                    assert(first_dependency_error(t) == dependency_error(*d));
                    proof {
                        lemma_first_error_prefix(sorted@, k + 1);
                    }
                    return Err(e);
                },
                Ok(()) => {},
            }
            k += 1;
        }
        assert(sorted@.take(sorted@.len() as int) =~= sorted@);
        match self.find(name, version) {
            Some(i) => {
                let mut m = chars_of("module ");
                extend_chars(&mut m, &chars_of(name));
                extend_chars(&mut m, &chars_of("@"));
                extend_chars(&mut m, &chars_of(version));
                extend_chars(&mut m, &chars_of(" is already defined by "));
                extend_chars(&mut m, &chars_of(self.entries[i].source.as_str()));
                Err(string_of(m.as_slice()))
            },
            None => {
                let ghost before = self.entries@;
                self.entries.push(ModuleEntry {
                    name: text_of(name),
                    version: text_of(version),
                    source: text_of(source),
                    scope,
                    dependencies: sorted,
                    state: ModuleState::Defined,
                });
                assert(self.entries@.drop_last() =~= before);
                assert forall|a: int, b: int| 0 <= a < b < self.entries@.len() implies !(#[trigger] self.entries@[a].name@
                    == #[trigger] self.entries@[b].name@ && self.entries@[a].version@ == self.entries@[b].version@) by {
                    if b == before.len() {
                        assert(!module_at(before, a, name@, version@));
                    } else {
                        assert(self.entries@[a] == before[a] && self.entries@[b] == before[b]);
                    }
                }
                Ok(())
            },
        }
    }

    /// Starts requiring `name@version` for the package `requester`: a
    /// loaded module is ready; a defined one starts loading (its
    /// dependencies are listed); one being loaded is a dependency cycle,
    /// named from the outermost module; an undefined one is an error.
    pub fn begin_require(&mut self, name: &str, version: &str, requester: &str) -> (r: Result<RequireStart, String>)
        requires
            old(self).wf(),
        ensures
            final(self).wf(),
            identity_error(name@, version@) matches Some(m) ==> (r matches Err(e) && e@ == m) && *final(self) == *old(self),
            identity_error(name@, version@) is None && !(exists|i: int| module_at(old(self).entries(), i, name@, version@)) ==> (
                r matches Err(e) && e@ == "module "@ + debug_quoted(name@) + " version "@ + debug_quoted(version@)
                    + " is not defined (required by "@ + requester@ + ")"@) && *final(self) == *old(self),
            identity_error(name@, version@) is None && (exists|i: int| module_at(old(self).entries(), i, name@, version@)) ==> {
                let i = choose|i: int| module_at(old(self).entries(), i, name@, version@);
                let e = old(self).entries()[i];
                &&& e.state == ModuleState::Loaded ==> (r matches Ok(RequireStart::Loaded)) && *final(self) == *old(self)
                &&& e.state == ModuleState::Loading ==> (r matches Err(m) && m@ == "module dependency cycle: "@ + chain_text(
                    old(self).loading().push(module_label(name@, version@)),
                )) && *final(self) == *old(self)
                &&& e.state == ModuleState::Defined ==> {
                    &&& (r matches Ok(RequireStart::Load { source, dependencies }) && source@ == e.source@
                        && dependencies@.len() == e.dependencies@.len() && forall|k: int|
                        0 <= k < dependencies@.len() ==> same_dependency(#[trigger] dependencies@[k], e.dependencies@[k]))
                    &&& final(self).loading() == old(self).loading().push(module_label(name@, version@))
                    &&& final(self).entries().len() == old(self).entries().len()
                    &&& forall|k: int| 0 <= k < old(self).entries().len() && k != i ==> final(self).entries()[k] == old(self).entries()[k]
                    &&& final(self).entries()[i].state == ModuleState::Loading
                    &&& final(self).entries()[i].name == e.name && final(self).entries()[i].version == e.version
                    &&& final(self).entries()[i].source == e.source && final(self).entries()[i].scope == e.scope
                    &&& final(self).entries()[i].dependencies == e.dependencies
                }
            },
    {
        match validate_module_identity(name, version) {
            Err(e) => {
                return Err(e);
            },
            Ok(()) => {},
        }
        let i = match self.find(name, version) {
            Some(i) => i,
            None => {
                let mut m = chars_of("module ");
                extend_chars(&mut m, &chars_of(debug_quote(name).as_str()));
                extend_chars(&mut m, &chars_of(" version "));
                extend_chars(&mut m, &chars_of(debug_quote(version).as_str()));
                extend_chars(&mut m, &chars_of(" is not defined (required by "));
                extend_chars(&mut m, &chars_of(requester));
                extend_chars(&mut m, &chars_of(")"));
                return Err(string_of(m.as_slice()));
            },
        };
        let mut label = chars_of(name);
        extend_chars(&mut label, &chars_of("@"));
        extend_chars(&mut label, &chars_of(version));
        match self.entries[i].state {
            ModuleState::Loaded => Ok(RequireStart::Loaded),
            ModuleState::Loading => {
                let mut m = chars_of("module dependency cycle: ");
                let ghost labels = self.loading().push(label@);
                let mut j: usize = 0;
                let ghost head = m@;
                assert(labels.take(0) =~= Seq::<Seq<char>>::empty());
                while j < self.loading.len()
                    invariant
                        j <= self.loading@.len(),
                        labels == self.loading().push(label@),
                        m@ == head + chain_text(labels.take(j as int)),
                    decreases self.loading@.len() - j,
                {
                    let ghost t = labels.take(j + 1);
                    assert(t.drop_last() =~= labels.take(j as int));
                    assert(t.last() == self.loading@[j as int]@);
                    if j > 0 {
                        extend_chars(&mut m, &chars_of(" -> "));
                    }
                    extend_chars(&mut m, &chars_of(self.loading[j].as_str()));
                    proof {
                        if j == 0 {
                            assert(t.len() == 1);
                        }
                        assert(m@ =~= head + chain_text(t));
                    }
                    j += 1;
                }
                let ghost t = labels.take(self.loading@.len() as int + 1);
                assert(t.drop_last() =~= labels.take(self.loading@.len() as int));
                assert(t =~= labels);
                if self.loading.len() > 0 {
                    extend_chars(&mut m, &chars_of(" -> "));
                }
                extend_chars(&mut m, &label);
                proof {
                    if self.loading@.len() == 0 {
                        assert(labels.len() == 1);
                    }
                    assert(m@ =~= head + chain_text(labels));
                }
                Err(string_of(m.as_slice()))
            },
            ModuleState::Defined => {
                let source = copy_text(&self.entries[i].source);
                let mut dependencies: Vec<Dependency> = Vec::new();
                let mut k: usize = 0;
                while k < self.entries[i].dependencies.len()
                    invariant
                        i < self.entries@.len(),
                        k <= self.entries@[i as int].dependencies@.len(),
                        dependencies@.len() == k,
                        forall|q: int| 0 <= q < k ==> same_dependency(#[trigger] dependencies@[q], self.entries@[i as int].dependencies@[q]),
                    decreases self.entries@[i as int].dependencies@.len() - k,
                {
                    dependencies.push(copy_dependency(&self.entries[i].dependencies[k]));
                    k += 1;
                }
                let ghost before_entries = self.entries@;
                let ghost before_loading = self.loading();
                let mut entry = self.entries.remove(i);
                entry.state = ModuleState::Loading;
                self.entries.insert(i, entry);
                assert(self.entries@ =~= before_entries.update(i as int, self.entries@[i as int]));
                self.loading.push(string_of(label.as_slice()));
                assert(self.loading() =~= before_loading.push(label@));
                assert forall|a: int, b: int| 0 <= a < b < self.entries@.len() implies !(#[trigger] self.entries@[a].name@
                    == #[trigger] self.entries@[b].name@ && self.entries@[a].version@ == self.entries@[b].version@) by {
                    assert(!(before_entries[a].name@ == before_entries[b].name@ && before_entries[a].version@ == before_entries[b].version@));
                }
                Ok(RequireStart::Load { source, dependencies })
            },
        }
    }
}

/// The error for a factory that gave nothing.
pub open spec fn nil_factory_text(name: Seq<char>, version: Seq<char>) -> Seq<char> {
    "module "@ + module_label(name, version) + " factory returned nil"@
}

/// The error for a module whose factory gave nothing.
pub fn nil_factory_error(name: &str, version: &str) -> (r: String)
    ensures
        r@ == nil_factory_text(name@, version@),
{
    let mut m = chars_of("module ");
    extend_chars(&mut m, &chars_of(name));
    extend_chars(&mut m, &chars_of("@"));
    extend_chars(&mut m, &chars_of(version));
    extend_chars(&mut m, &chars_of(" factory returned nil"));
    string_of(m.as_slice())
}

impl Modules {
    /// Ends loading `name@version` with the outcome of its dependencies
    /// and factory: loaded, or defined again with the failure named after
    /// the module and its package. The innermost loading label is popped.
    pub fn finish_require(&mut self, name: &str, version: &str, outcome: Result<(), String>) -> (r: Result<(), String>)
        requires
            old(self).wf(),
        ensures
            final(self).wf(),
            final(self).loading() == if old(self).loading().len() > 0 { old(self).loading().drop_last() } else { old(self).loading() },
            final(self).entries().len() == old(self).entries().len(),
            !(exists|i: int| module_at(old(self).entries(), i, name@, version@)) ==> final(self).entries() == old(self).entries() && (
                match outcome {
                    Ok(()) => r is Ok,
                    Err(e) => r matches Err(m) && m@ == e@,
                }),
            (exists|i: int| module_at(old(self).entries(), i, name@, version@)) ==> {
                let i = choose|i: int| module_at(old(self).entries(), i, name@, version@);
                let e = old(self).entries()[i];
                &&& forall|k: int| 0 <= k < old(self).entries().len() && k != i ==> final(self).entries()[k] == old(self).entries()[k]
                &&& final(self).entries()[i].name == e.name && final(self).entries()[i].version == e.version
                &&& final(self).entries()[i].source == e.source && final(self).entries()[i].scope == e.scope
                &&& final(self).entries()[i].dependencies == e.dependencies
                &&& match outcome {
                    Ok(()) => r is Ok && final(self).entries()[i].state == ModuleState::Loaded,
                    Err(f) => (r matches Err(m) && m@ == "module "@ + module_label(name@, version@) + " from "@ + e.source@ + ": "@ + f@)
                        && final(self).entries()[i].state == ModuleState::Defined,
                }
            },
    {
        let ghost before_loading = self.loading();
        if self.loading.len() > 0 {
            self.loading.pop();
            assert(self.loading() =~= before_loading.drop_last());
        }
        let i = match self.find(name, version) {
            Some(i) => i,
            None => {
                return outcome;
            },
        };
        let ghost before_entries = self.entries@;
        let mut entry = self.entries.remove(i);
        let result = match outcome {
            Ok(()) => {
                entry.state = ModuleState::Loaded;
                Ok(())
            },
            Err(f) => {
                entry.state = ModuleState::Defined;
                let mut m = chars_of("module ");
                extend_chars(&mut m, &chars_of(name));
                extend_chars(&mut m, &chars_of("@"));
                extend_chars(&mut m, &chars_of(version));
                extend_chars(&mut m, &chars_of(" from "));
                extend_chars(&mut m, &chars_of(entry.source.as_str()));
                extend_chars(&mut m, &chars_of(": "));
                extend_chars(&mut m, &chars_of(f.as_str()));
                Err(string_of(m.as_slice()))
            },
        };
        self.entries.insert(i, entry);
        assert(self.entries@ =~= before_entries.update(i as int, self.entries@[i as int]));
        assert forall|a: int, b: int| 0 <= a < b < self.entries@.len() implies !(#[trigger] self.entries@[a].name@
            == #[trigger] self.entries@[b].name@ && self.entries@[a].version@ == self.entries@[b].version@) by {
            assert(!(before_entries[a].name@ == before_entries[b].name@ && before_entries[a].version@ == before_entries[b].version@));
        }
        result
    }

    /// The defined modules in the order they were defined: name, version,
    /// package and state.
    pub fn list(&self) -> (r: Vec<(String, String, String, ModuleState)>)
        ensures
            r@.len() == self.entries().len(),
            forall|i: int| 0 <= i < r@.len() ==> {
                &&& (#[trigger] r@[i]).0@ == self.entries()[i].name@
                &&& r@[i].1@ == self.entries()[i].version@
                &&& r@[i].2@ == self.entries()[i].source@
                &&& r@[i].3 == self.entries()[i].state
            },
    {
        let mut out: Vec<(String, String, String, ModuleState)> = Vec::new();
        let mut i: usize = 0;
        while i < self.entries.len()
            invariant
                i <= self.entries@.len(),
                out@.len() == i,
                forall|k: int| 0 <= k < i ==> {
                    &&& (#[trigger] out@[k]).0@ == self.entries@[k].name@
                    &&& out@[k].1@ == self.entries@[k].version@
                    &&& out@[k].2@ == self.entries@[k].source@
                    &&& out@[k].3 == self.entries@[k].state
                },
            decreases self.entries@.len() - i,
        {
            let e = &self.entries[i];
            out.push((copy_text(&e.name), copy_text(&e.version), copy_text(&e.source), e.state));
            i += 1;
        }
        out
    }
}

proof fn lemma_first_error_prefix(sorted: Seq<Dependency>, n: int)
    requires
        0 <= n <= sorted.len(),
        first_dependency_error(sorted.take(n)) is Some,
    ensures
        first_dependency_error(sorted) == first_dependency_error(sorted.take(n)),
    decreases sorted.len() - n,
{
    if n < sorted.len() {
        assert(sorted.take(n + 1).drop_last() =~= sorted.take(n));
        lemma_first_error_prefix(sorted, n + 1);
    } else {
        assert(sorted.take(n) =~= sorted);
    }
}

} // verus!
