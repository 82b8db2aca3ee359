//! Generic snapshot/action kernel contracts: scope registry, generations
//! and read handles.
//!
//! A scope is created per loaded package source; while it is live no other
//! scope may load the same source. Disposing a scope cancels it, drops its
//! resources and bumps the generation, which makes every read handle issued
//! before stale.

use vstd::prelude::*;

use crate::error::HostError;
use crate::text::{chars_eq, chars_of, debug_quote, extend_chars, string_of};

verus! {

/// Version of the kernel API exposed to packages.
pub const KERNEL_API_VERSION: u32 = 1;

/// Most items one dispatch batch may hold.
pub const MAX_BATCH_ITEMS: usize = 1024;

/// Largest encoded size of one batch item.
pub const MAX_ITEM_BYTES: usize = 1048576;

/// A generation of the kernel: bumped whenever a scope is disposed.
#[derive(Debug, Clone, Copy, PartialEq, Eq, Structural, PartialOrd, Ord, Hash)]
pub struct Generation(pub(crate) u64);

impl View for Generation {
    type V = u64;

    closed spec fn view(&self) -> u64 {
        self.0
    }
}

impl Generation {
    pub fn get(self) -> (r: u64)
        ensures
            r == self@,
    {
        self.0
    }

    pub fn from_raw(value: u64) -> (g: Generation)
        ensures
            g@ == value,
    {
        Generation(value)
    }
}

/// Identity of a scope.
#[derive(Debug, Clone, Copy, PartialEq, Eq, Structural, PartialOrd, Ord, Hash)]
pub struct ScopeId(pub(crate) u64);

impl View for ScopeId {
    type V = u64;

    closed spec fn view(&self) -> u64 {
        self.0
    }
}

impl ScopeId {
    pub fn get(self) -> (r: u64)
        ensures
            r == self@,
    {
        self.0
    }

    pub fn from_raw(value: u64) -> (s: ScopeId)
        ensures
            s@ == value,
    {
        ScopeId(value)
    }
}

/// Identity of a resource registered in a scope.
#[derive(Debug, Clone, Copy, PartialEq, Eq, Structural, PartialOrd, Ord, Hash)]
pub struct ResourceId(pub(crate) u64);

impl View for ResourceId {
    type V = u64;

    closed spec fn view(&self) -> u64 {
        self.0
    }
}

impl ResourceId {
    pub(crate) fn get(self) -> (r: u64)
        ensures
            r == self@,
    {
        self.0
    }

    pub(crate) fn from_raw(value: u64) -> (r: ResourceId)
        ensures
            r@ == value,
    {
        ResourceId(value)
    }
}

/// The kinds of kernel roots.
#[derive(Debug, Clone, Copy, PartialEq, Eq, Structural, PartialOrd, Ord, Hash)]
pub enum RootKind {
    Application,
    Agent,
    Frontend,
    Session,
}

/// The name of a root kind.
pub open spec fn root_kind_name(k: RootKind) -> Seq<char> {
    match k {
        RootKind::Application => "application"@,
        RootKind::Agent => "agent"@,
        RootKind::Frontend => "frontend"@,
        RootKind::Session => "session"@,
    }
}

/// The root kind with the given name.
pub open spec fn parse_root_kind(s: Seq<char>) -> Option<RootKind> {
    if s == "application"@ {
        Some(RootKind::Application)
    } else if s == "agent"@ {
        Some(RootKind::Agent)
    } else if s == "frontend"@ {
        Some(RootKind::Frontend)
    } else if s == "session"@ {
        Some(RootKind::Session)
    } else {
        None
    }
}

/// Whether a text equals a literal.
fn is_word(value: &Vec<char>, lit: &str) -> (r: bool)
    ensures
        r == (value@ == lit@),
{
    chars_eq(value, &chars_of(lit))
}

impl RootKind {
    /// The root kind named `value`; any other name is refused.
    pub(crate) fn parse(value: &str) -> (r: Result<RootKind, HostError>)
        ensures
            parse_root_kind(value@) matches Some(k) ==> r == Ok::<RootKind, HostError>(k),
            parse_root_kind(value@) is None ==> (r matches Err(HostError::InvalidRootKind(s)) && s@ == value@),
    {
        let v = chars_of(value);
        if is_word(&v, "application") {
            Ok(RootKind::Application)
        } else if is_word(&v, "agent") {
            Ok(RootKind::Agent)
        } else if is_word(&v, "frontend") {
            Ok(RootKind::Frontend)
        } else if is_word(&v, "session") {
            Ok(RootKind::Session)
        } else {
            Err(HostError::InvalidRootKind(string_of(v.as_slice())))
        }
    }

    pub fn as_str(self) -> (r: &'static str)
        ensures
            r@ == root_kind_name(self),
    {
        match self {
            RootKind::Application => "application",
            RootKind::Agent => "agent",
            RootKind::Frontend => "frontend",
            RootKind::Session => "session",
        }
    }
}

/// Reading a root kind's name gives the root kind back.
pub proof fn law_root_kind_name_parses_back(k: RootKind)
    ensures
        parse_root_kind(root_kind_name(k)) == Some(k),
{
    reveal_strlit("application");
    reveal_strlit("agent");
    reveal_strlit("frontend");
    reveal_strlit("session");
    assert("application"@.len() == 11 && "application"@[0] == 'a');
    assert("agent"@.len() == 5 && "agent"@[0] == 'a');
    assert("frontend"@.len() == 8 && "frontend"@[0] == 'f');
    assert("session"@.len() == 7 && "session"@[0] == 's');
    match k {
        RootKind::Application => {},
        RootKind::Agent => {
        },
        RootKind::Frontend => {
        },
        RootKind::Session => {
        },
    }
}

/// The kinds of declarations a package makes.
#[derive(Debug, Clone, Copy, PartialEq, Eq, Structural, PartialOrd, Ord, Hash)]
pub enum DeclarationKind {
    Tool,
    Command,
    Provider,
    Event,
    Renderer,
    UiSlot,
    Theme,
    Keymap,
}

/// The name of a declaration kind.
pub open spec fn declaration_kind_name(k: DeclarationKind) -> Seq<char> {
    match k {
        DeclarationKind::Tool => "tool"@,
        DeclarationKind::Command => "command"@,
        DeclarationKind::Provider => "provider"@,
        DeclarationKind::Event => "event"@,
        DeclarationKind::Renderer => "renderer"@,
        DeclarationKind::UiSlot => "ui_slot"@,
        DeclarationKind::Theme => "theme"@,
        DeclarationKind::Keymap => "keymap"@,
    }
}

/// The declaration kind with the given name.
pub open spec fn parse_declaration_kind(s: Seq<char>) -> Option<DeclarationKind> {
    if s == "tool"@ {
        Some(DeclarationKind::Tool)
    } else if s == "command"@ {
        Some(DeclarationKind::Command)
    } else if s == "provider"@ {
        Some(DeclarationKind::Provider)
    } else if s == "event"@ {
        Some(DeclarationKind::Event)
    } else if s == "renderer"@ {
        Some(DeclarationKind::Renderer)
    } else if s == "ui_slot"@ {
        Some(DeclarationKind::UiSlot)
    } else if s == "theme"@ {
        Some(DeclarationKind::Theme)
    } else if s == "keymap"@ {
        Some(DeclarationKind::Keymap)
    } else {
        None
    }
}

impl DeclarationKind {
    /// The declaration kind named `value`; any other name is refused.
    pub(crate) fn parse(value: &str) -> (r: Result<DeclarationKind, HostError>)
        ensures
            parse_declaration_kind(value@) matches Some(k) ==> r == Ok::<DeclarationKind, HostError>(k),
            parse_declaration_kind(value@) is None ==> (r matches Err(HostError::InvalidDeclarationKind(s)) && s@ == value@),
    {
        let v = chars_of(value);
        if is_word(&v, "tool") {
            Ok(DeclarationKind::Tool)
        } else if is_word(&v, "command") {
            Ok(DeclarationKind::Command)
        } else if is_word(&v, "provider") {
            Ok(DeclarationKind::Provider)
        } else if is_word(&v, "event") {
            Ok(DeclarationKind::Event)
        } else if is_word(&v, "renderer") {
            Ok(DeclarationKind::Renderer)
        } else if is_word(&v, "ui_slot") {
            Ok(DeclarationKind::UiSlot)
        } else if is_word(&v, "theme") {
            Ok(DeclarationKind::Theme)
        } else if is_word(&v, "keymap") {
            Ok(DeclarationKind::Keymap)
        } else {
            Err(HostError::InvalidDeclarationKind(string_of(v.as_slice())))
        }
    }

    pub fn as_str(self) -> (r: &'static str)
        ensures
            r@ == declaration_kind_name(self),
    {
        match self {
            DeclarationKind::Tool => "tool",
            DeclarationKind::Command => "command",
            DeclarationKind::Provider => "provider",
            DeclarationKind::Event => "event",
            DeclarationKind::Renderer => "renderer",
            DeclarationKind::UiSlot => "ui_slot",
            DeclarationKind::Theme => "theme",
            DeclarationKind::Keymap => "keymap",
        }
    }
}

/// Reading a declaration kind's name gives the kind back.
pub proof fn law_declaration_kind_name_parses_back(k: DeclarationKind)
    ensures
        parse_declaration_kind(declaration_kind_name(k)) == Some(k),
{
    reveal_strlit("tool");
    reveal_strlit("command");
    reveal_strlit("provider");
    reveal_strlit("event");
    reveal_strlit("renderer");
    reveal_strlit("ui_slot");
    reveal_strlit("theme");
    reveal_strlit("keymap");
    assert("tool"@.len() == 4 && "tool"@[0] == 't');
    assert("command"@.len() == 7 && "command"@[0] == 'c');
    assert("provider"@.len() == 8 && "provider"@[0] == 'p');
    assert("event"@.len() == 5 && "event"@[0] == 'e');
    assert("renderer"@.len() == 8 && "renderer"@[0] == 'r');
    assert("ui_slot"@.len() == 7 && "ui_slot"@[0] == 'u');
    assert("theme"@.len() == 5 && "theme"@[0] == 't');
    assert("keymap"@.len() == 6 && "keymap"@[0] == 'k');
    match k {
        DeclarationKind::Tool => {
        },
        DeclarationKind::Command => {
        },
        DeclarationKind::Provider => {
        },
        DeclarationKind::Event => {
        },
        DeclarationKind::Renderer => {
        },
        DeclarationKind::UiSlot => {
        },
        DeclarationKind::Theme => {
        },
        DeclarationKind::Keymap => {
        },
    }
}

/// A loaded package: its source, its scope and the generation it was
/// loaded in.
pub struct PackageHandle {
    pub(crate) source: String,
    pub(crate) scope: ScopeId,
    pub(crate) generation: Generation,
}

impl PackageHandle {
    pub closed spec fn spec_source(&self) -> Seq<char> {
        self.source@
    }

    pub closed spec fn spec_scope(&self) -> ScopeId {
        self.scope
    }

    pub closed spec fn spec_generation(&self) -> Generation {
        self.generation
    }

    pub(crate) fn new(source: String, scope: ScopeId, generation: Generation) -> (h: PackageHandle)
        ensures
            h.spec_source() == source@,
            h.spec_scope() == scope,
            h.spec_generation() == generation,
    {
        PackageHandle { source, scope, generation }
    }

    pub fn source(&self) -> (r: &str)
        ensures
            r@ == self.spec_source(),
    {
        self.source.as_str()
    }

    pub fn scope(&self) -> (r: ScopeId)
        ensures
            r == self.spec_scope(),
    {
        self.scope
    }

    pub fn generation(&self) -> (r: Generation)
        ensures
            r == self.spec_generation(),
    {
        self.generation
    }
}

/// What a scope looks like from outside.
#[derive(Debug, Clone, Copy, PartialEq, Eq, Structural)]
pub struct ScopeStats {
    pub disposed: bool,
    pub cancelled: bool,
    pub resources: usize,
}

/// A value read at a generation; reading it back is refused once the
/// generation has moved on.
pub struct ReadHandle<V> {
    generation: Generation,
    value: V,
}

impl<V> ReadHandle<V> {
    pub fn generation(&self) -> (r: Generation)
        ensures
            r@ == self.spec_generation(),
    {
        self.generation
    }

    pub closed spec fn spec_generation(&self) -> u64 {
        self.generation@
    }

    pub closed spec fn spec_value(&self) -> V {
        self.value
    }
}

/// One scope of the registry.
pub struct ScopeState {
    pub id: u64,
    pub source: String,
    pub cancelled: bool,
    pub disposed: bool,
    pub resources: Vec<u64>,
}

/// The scope registry: the current generation, the next scope and
/// resource ids, and every scope created so far.
pub struct Control {
    pub generation: u64,
    pub next_scope: u64,
    pub next_resource: u64,
    pub scopes: Vec<ScopeState>,
}

/// `n + 1`, wrapping to 0 after `u64::MAX` as the atomic counters do.
pub open spec fn next_id(n: u64) -> u64 {
    if n == u64::MAX { 0 } else { (n + 1) as u64 }
}

/// Whether a sequence holds no value twice.
pub open spec fn distinct(s: Seq<u64>) -> bool {
    forall|i: int, j: int| 0 <= i < j < s.len() ==> s[i] != s[j]
}

fn bump(n: u64) -> (r: u64)
    ensures
        r == next_id(n),
{
    if n == u64::MAX { 0 } else { n + 1 }
}

impl Control {
    /// Scope ids are unique and every scope's resources are distinct.
    pub open spec fn wf(&self) -> bool {
        &&& forall|i: int, j: int| 0 <= i < j < self.scopes@.len() ==> self.scopes@[i].id != self.scopes@[j].id
        &&& forall|i: int| 0 <= i < self.scopes@.len() ==> distinct(#[trigger] self.scopes@[i].resources@)
    }

    /// Where the scope with id `id` is held.
    pub open spec fn index_of(&self, id: u64) -> Option<int> {
        if exists|i: int| 0 <= i < self.scopes@.len() && self.scopes@[i].id == id {
            Some(choose|i: int| 0 <= i < self.scopes@.len() && self.scopes@[i].id == id)
        } else {
            None
        }
    }

    /// Whether a live (not disposed) scope loaded `source`.
    pub open spec fn has_live_source(&self, source: Seq<char>) -> bool {
        exists|i: int| 0 <= i < self.scopes@.len() && !self.scopes@[i].disposed && #[trigger] self.scopes@[i].source@ == source
    }

    /// Whether the scope `id` exists and is live.
    pub open spec fn is_live(&self, id: u64) -> bool {
        self.index_of(id) matches Some(i) && !self.scopes@[i].disposed
    }

    pub fn new() -> (c: Control)
        ensures
            c.wf(),
            c.generation == 1,
            c.next_scope == 1,
            c.next_resource == 1,
            c.scopes@.len() == 0,
    {
        Control { generation: 1, next_scope: 1, next_resource: 1, scopes: Vec::new() }
    }

    pub fn generation(&self) -> (g: Generation)
        ensures
            g@ == self.generation,
    {
        Generation(self.generation)
    }

    fn find(&self, id: u64) -> (r: Option<usize>)
        requires
            self.wf(),
        ensures
            r matches Some(i) ==> self.index_of(id) == Some(i as int) && i < self.scopes@.len(),
            r is None ==> self.index_of(id) is None,
    {
        let mut i: usize = 0;
        while i < self.scopes.len()
            invariant
                self.wf(),
                i <= self.scopes@.len(),
                forall|k: int| 0 <= k < i ==> self.scopes@[k].id != id,
            decreases self.scopes@.len() - i,
        {
            if self.scopes[i].id == id {
                assert(self.scopes@[i as int].id == id);
                let ghost c = choose|k: int| 0 <= k < self.scopes@.len() && self.scopes@[k].id == id;
                assert(c == i);
                return Some(i);
            }
            i += 1;
        }
        None
    }

    /// Opens a scope for `source`, under the next scope id (which is used
    /// up either way). Refused with a conflict while a live scope holds the
    /// same source.
    pub fn create_scope(&mut self, source: String) -> (r: Result<ScopeId, HostError>)
        requires
            old(self).wf(),
        ensures
            final(self).wf(),
            final(self).next_scope == next_id(old(self).next_scope),
            final(self).generation == old(self).generation,
            final(self).next_resource == old(self).next_resource,
            r is Err <==> old(self).has_live_source(source@),
            r is Err ==> final(self).scopes@ == old(self).scopes@,
            r is Err ==> (r matches Err(HostError::Conflict(m))
                && m@ == "package source "@ + crate::text::debug_quoted(source@) + " is already loaded"@),
            r matches Ok(id) ==> id@ == old(self).next_scope && (final(self).index_of(id@) matches Some(i)
                && final(self).scopes@[i].source@ == source@ && !final(self).scopes@[i].disposed
                && !final(self).scopes@[i].cancelled && final(self).scopes@[i].resources@.len() == 0),
            r is Ok ==> forall|x: u64| x != old(self).next_scope ==> #[trigger] final(self).index_of(x) == old(self).index_of(x)
                && (old(self).index_of(x) matches Some(i) ==> final(self).scopes@[i] == old(self).scopes@[i]),
            r matches Ok(id) ==> scope_created(*old(self), *final(self), source@, id@),
    {
        let id = self.next_scope;
        self.next_scope = bump(self.next_scope);
        let src = chars_of(source.as_str());
        let mut i: usize = 0;
        while i < self.scopes.len()
            invariant
                i <= self.scopes@.len(),
                src@ == source@,
                self.wf(),
                self.scopes@ == old(self).scopes@,
                self.next_scope == next_id(old(self).next_scope),
                self.generation == old(self).generation,
                self.next_resource == old(self).next_resource,
                id == old(self).next_scope,
                forall|k: int| 0 <= k < i ==> self.scopes@[k].disposed || self.scopes@[k].source@ != source@,
            decreases self.scopes@.len() - i,
        {
            if !self.scopes[i].disposed && chars_eq(&chars_of(self.scopes[i].source.as_str()), &src) {
                assert(!self.scopes@[i as int].disposed && self.scopes@[i as int].source@ == source@);
                let mut msg = chars_of("package source ");
                extend_chars(&mut msg, &chars_of(debug_quote(source.as_str()).as_str()));
                extend_chars(&mut msg, &chars_of(" is already loaded"));
                assert(msg@ == "package source "@ + crate::text::debug_quoted(source@) + " is already loaded"@);
                return Err(HostError::Conflict(string_of(msg.as_slice())));
            }
            i += 1;
        }
        let state = ScopeState { id, source, cancelled: false, disposed: false, resources: Vec::new() };
        assert(distinct(state.resources@));
        let ghost before = self.scopes@;
        match self.find(id) {
            Some(k) => {
                self.scopes.set(k, state);
                assert forall|x: u64| x != id implies #[trigger] self.index_of(x) == old(self).index_of(x) by {
                    if exists|j: int| 0 <= j < before.len() && before[j].id == x {
                        let j = choose|j: int| 0 <= j < before.len() && before[j].id == x;
                        assert(self.scopes@[j].id == x);
                    }
                    if exists|j: int| 0 <= j < self.scopes@.len() && self.scopes@[j].id == x {
                        let j = choose|j: int| 0 <= j < self.scopes@.len() && self.scopes@[j].id == x;
                        assert(before[j].id == x);
                    }
                }
                assert(self.scopes@[k as int].id == id);
            },
            None => {
                self.scopes.push(state);
                assert forall|x: u64| x != id implies #[trigger] self.index_of(x) == old(self).index_of(x) by {
                    if exists|j: int| 0 <= j < before.len() && before[j].id == x {
                        let j = choose|j: int| 0 <= j < before.len() && before[j].id == x;
                        assert(self.scopes@[j].id == x);
                    }
                    if exists|j: int| 0 <= j < self.scopes@.len() && self.scopes@[j].id == x {
                        let j = choose|j: int| 0 <= j < self.scopes@.len() && self.scopes@[j].id == x;
                        assert(j < before.len());
                        assert(before[j].id == x);
                    }
                }
                assert(self.scopes@[before.len() as int].id == id);
            },
        }
        Ok(ScopeId(id))
    }

    /// Replaces the scope held at `i`, leaving the others and every index
    /// as they were.
    fn replace_scope(&mut self, i: usize, st: ScopeState)
        requires
            old(self).wf(),
            i < old(self).scopes@.len(),
            st.id == old(self).scopes@[i as int].id,
            distinct(st.resources@),
        ensures
            final(self).wf(),
            final(self).scopes@ == old(self).scopes@.update(i as int, st),
            final(self).generation == old(self).generation,
            final(self).next_scope == old(self).next_scope,
            final(self).next_resource == old(self).next_resource,
            forall|x: u64| #[trigger] final(self).index_of(x) == old(self).index_of(x),
    {
        let ghost before = self.scopes@;
        self.scopes.set(i, st);
        assert forall|x: u64| #[trigger] self.index_of(x) == old(self).index_of(x) by {
            if exists|j: int| 0 <= j < before.len() && before[j].id == x {
                let j = choose|j: int| 0 <= j < before.len() && before[j].id == x;
                assert(self.scopes@[j].id == x);
            }
            if exists|j: int| 0 <= j < self.scopes@.len() && self.scopes@[j].id == x {
                let j = choose|j: int| 0 <= j < self.scopes@.len() && self.scopes@[j].id == x;
                assert(before[j].id == x);
            }
        }
    }

    /// Moves the scope at `i` out, leaving an empty one with the same id
    /// in its place.
    fn take_scope(&mut self, i: usize) -> (st: ScopeState)
        requires
            old(self).wf(),
            i < old(self).scopes@.len(),
        ensures
            final(self).wf(),
            st == old(self).scopes@[i as int],
            final(self).scopes@.len() == old(self).scopes@.len(),
            final(self).scopes@[i as int].id == st.id,
            forall|j: int| 0 <= j < old(self).scopes@.len() && j != i ==> final(self).scopes@[j] == old(self).scopes@[j],
            final(self).generation == old(self).generation,
            final(self).next_scope == old(self).next_scope,
            final(self).next_resource == old(self).next_resource,
            forall|x: u64| #[trigger] final(self).index_of(x) == old(self).index_of(x),
    {
        let id = self.scopes[i].id;
        let blank = ScopeState { id, source: String::new(), cancelled: false, disposed: false, resources: Vec::new() };
        let ghost before = self.scopes@;
        let st = self.scopes.remove(i);
        self.scopes.insert(i, blank);
        assert forall|j: int| 0 <= j < before.len() && j != i implies self.scopes@[j] == before[j] by {}
        assert forall|a: int, b: int| 0 <= a < b < self.scopes@.len() implies self.scopes@[a].id != self.scopes@[b].id by {
            assert(self.scopes@[a].id == before[a].id);
            assert(self.scopes@[b].id == before[b].id);
        }
        assert forall|a: int| 0 <= a < self.scopes@.len() implies distinct(#[trigger] self.scopes@[a].resources@) by {
            if a != i {
                assert(self.scopes@[a] == before[a]);
            }
        }
        assert forall|x: u64| #[trigger] self.index_of(x) == old(self).index_of(x) by {
            if exists|j: int| 0 <= j < before.len() && before[j].id == x {
                let j = choose|j: int| 0 <= j < before.len() && before[j].id == x;
                assert(self.scopes@[j].id == x);
            }
            if exists|j: int| 0 <= j < self.scopes@.len() && self.scopes@[j].id == x {
                let j = choose|j: int| 0 <= j < self.scopes@.len() && self.scopes@[j].id == x;
                assert(before[j].id == x);
            }
        }
        st
    }

    /// Whether the token of a live scope has been cancelled; unknown and
    /// disposed scopes are refused.
    pub fn token_cancelled(&self, scope: ScopeId) -> (r: Result<bool, HostError>)
        requires
            self.wf(),
        ensures
            self.index_of(scope@) is None ==> r == Err::<bool, HostError>(HostError::UnknownScope(scope@)),
            self.index_of(scope@) matches Some(i) ==> (if self.scopes@[i].disposed {
                r == Err::<bool, HostError>(HostError::DisposedScope(scope@))
            } else {
                r == Ok::<bool, HostError>(self.scopes@[i].cancelled)
            }),
    {
        match self.find(scope.0) {
            None => Err(HostError::UnknownScope(scope.0)),
            Some(i) => {
                if self.scopes[i].disposed {
                    Err(HostError::DisposedScope(scope.0))
                } else {
                    Ok(self.scopes[i].cancelled)
                }
            },
        }
    }

    /// Cancels the token of a scope (as a holder of the token may); no-op
    /// for an unknown scope.
    pub fn cancel_token(&mut self, scope: ScopeId)
        requires
            old(self).wf(),
        ensures
            final(self).wf(),
            final(self).generation == old(self).generation,
            final(self).next_scope == old(self).next_scope,
            final(self).next_resource == old(self).next_resource,
            forall|x: u64| #[trigger] final(self).index_of(x) == old(self).index_of(x),
            old(self).index_of(scope@) is None ==> final(self).scopes@ == old(self).scopes@,
            old(self).index_of(scope@) matches Some(i) ==> final(self).scopes@ == old(self).scopes@.update(i,
                ScopeState { cancelled: true, ..old(self).scopes@[i] }),
    {
        if let Some(i) = self.find(scope.0) {
            let st = self.take_scope(i);
            let ghost taken = st;
            let new_st = ScopeState { id: st.id, source: st.source, cancelled: true, disposed: st.disposed, resources: st.resources };
            self.replace_scope(i, new_st);
            assert(self.scopes@ =~= old(self).scopes@.update(i as int, ScopeState { cancelled: true, ..old(self).scopes@[i as int] }));
        }
    }

    /// Registers a new resource in a live scope, under the next resource
    /// id; unknown and disposed scopes are refused.
    pub fn register_resource(&mut self, scope: ScopeId) -> (r: Result<ResourceId, HostError>)
        requires
            old(self).wf(),
        ensures
            final(self).wf(),
            final(self).generation == old(self).generation,
            final(self).next_scope == old(self).next_scope,
            forall|x: u64| #[trigger] final(self).index_of(x) == old(self).index_of(x),
            old(self).index_of(scope@) is None ==> r == Err::<ResourceId, HostError>(HostError::UnknownScope(scope@))
                && final(self).scopes@ == old(self).scopes@ && final(self).next_resource == old(self).next_resource,
            old(self).index_of(scope@) matches Some(i) ==> (if old(self).scopes@[i].disposed {
                r == Err::<ResourceId, HostError>(HostError::DisposedScope(scope@))
                    && final(self).scopes@ == old(self).scopes@ && final(self).next_resource == old(self).next_resource
            } else {
                &&& r matches Ok(res) && res@ == old(self).next_resource
                &&& final(self).next_resource == next_id(old(self).next_resource)
                &&& final(self).scopes@.len() == old(self).scopes@.len()
                &&& final(self).scopes@[i].resources@.to_set() == old(self).scopes@[i].resources@.to_set().insert(old(self).next_resource)
                &&& final(self).scopes@[i].source == old(self).scopes@[i].source
                &&& final(self).scopes@[i].disposed == old(self).scopes@[i].disposed
                &&& final(self).scopes@[i].cancelled == old(self).scopes@[i].cancelled
                &&& forall|j: int| 0 <= j < old(self).scopes@.len() && j != i ==> final(self).scopes@[j] == old(self).scopes@[j]
            }),
    {
        match self.find(scope.0) {
            None => Err(HostError::UnknownScope(scope.0)),
            Some(i) => {
                if self.scopes[i].disposed {
                    return Err(HostError::DisposedScope(scope.0));
                }
                let id = self.next_resource;
                self.next_resource = bump(self.next_resource);
                let st = self.take_scope(i);
                let mut res = st.resources;
                let ghost old_res = res@;
                if !contains_u64(&res, id) {
                    res.push(id);
                    proof {
                        old_res.lemma_push_to_set_commute(id);
                    }
                    assert forall|a: int, b: int| 0 <= a < b < res@.len() implies res@[a] != res@[b] by {
                        if b == res@.len() - 1 {
                            assert(old_res[a] == res@[a]);
                        }
                    }
                } else {
                    assert(res@.to_set() =~= old_res.to_set().insert(id));
                }
                let new_st = ScopeState { id: st.id, source: st.source, cancelled: st.cancelled, disposed: st.disposed, resources: res };
                self.replace_scope(i, new_st);
                Ok(ResourceId(id))
            },
        }
    }

    /// Drops a resource from a scope; no-op when either is unknown.
    pub fn release_resource(&mut self, scope: ScopeId, resource: ResourceId)
        requires
            old(self).wf(),
        ensures
            final(self).wf(),
            final(self).generation == old(self).generation,
            final(self).next_scope == old(self).next_scope,
            final(self).next_resource == old(self).next_resource,
            forall|x: u64| #[trigger] final(self).index_of(x) == old(self).index_of(x),
            old(self).index_of(scope@) is None ==> final(self).scopes@ == old(self).scopes@,
            old(self).index_of(scope@) matches Some(i) ==> {
                &&& final(self).scopes@.len() == old(self).scopes@.len()
                &&& final(self).scopes@[i].resources@.to_set() == old(self).scopes@[i].resources@.to_set().remove(resource@)
                &&& final(self).scopes@[i].source == old(self).scopes@[i].source
                &&& final(self).scopes@[i].disposed == old(self).scopes@[i].disposed
                &&& final(self).scopes@[i].cancelled == old(self).scopes@[i].cancelled
                &&& forall|j: int| 0 <= j < old(self).scopes@.len() && j != i ==> final(self).scopes@[j] == old(self).scopes@[j]
            },
    {
        if let Some(i) = self.find(scope.0) {
            let st = self.take_scope(i);
            let res = remove_u64(&st.resources, resource.0);
            let new_st = ScopeState { id: st.id, source: st.source, cancelled: st.cancelled, disposed: st.disposed, resources: res };
            self.replace_scope(i, new_st);
        }
    }

    /// Disposes a live scope: it is marked disposed, its token cancelled,
    /// its resources dropped, and the generation moves on. Unknown and
    /// already disposed scopes are refused and nothing changes.
    pub fn dispose(&mut self, scope: ScopeId) -> (r: Result<(), HostError>)
        requires
            old(self).wf(),
        ensures
            final(self).wf(),
            final(self).next_scope == old(self).next_scope,
            final(self).next_resource == old(self).next_resource,
            forall|x: u64| #[trigger] final(self).index_of(x) == old(self).index_of(x),
            old(self).index_of(scope@) is None ==> r == Err::<(), HostError>(HostError::UnknownScope(scope@))
                && *final(self) == *old(self),
            old(self).index_of(scope@) matches Some(i) ==> (if old(self).scopes@[i].disposed {
                r == Err::<(), HostError>(HostError::DisposedScope(scope@)) && *final(self) == *old(self)
            } else {
                r is Ok && disposed_step(*old(self), *final(self), scope@)
            }),
    {
        match self.find(scope.0) {
            None => Err(HostError::UnknownScope(scope.0)),
            Some(i) => {
                if self.scopes[i].disposed {
                    return Err(HostError::DisposedScope(scope.0));
                }
                self.generation = bump(self.generation);
                let st = self.take_scope(i);
                let new_st = ScopeState { id: st.id, source: st.source, cancelled: true, disposed: true, resources: Vec::new() };
                assert(distinct(new_st.resources@));
                self.replace_scope(i, new_st);
                Ok(())
            },
        }
    }

    /// The end of a package load, given the VM's reply for the scope made
    /// for `source`: on success the package's handle (its source, its
    /// scope and the current generation); when the VM refused the load,
    /// the scope is disposed (when still live) and the VM's error handed
    /// back.
    pub fn finish_load(&mut self, source: String, scope: ScopeId, reply: Result<(), HostError>) -> (r: Result<PackageHandle, HostError>)
        requires
            old(self).wf(),
        ensures
            final(self).wf(),
            match reply {
                Ok(()) => r matches Ok(h) && h.spec_source() == source@ && h.spec_scope() == scope
                    && h.spec_generation()@ == old(self).generation && *final(self) == *old(self),
                Err(e) => r == Err::<PackageHandle, HostError>(e)
                    && (old(self).is_live(scope@) ==> disposed_step(*old(self), *final(self), scope@))
                    && (!old(self).is_live(scope@) ==> *final(self) == *old(self)),
            },
    {
        match reply {
            Ok(()) => {
                let g = self.generation();
                Ok(PackageHandle::new(source, scope, g))
            },
            Err(e) => {
                let _ = self.dispose(scope);
                Err(e)
            },
        }
    }

    /// The live scopes and their sources, in the order they were created.
    pub fn active_scopes(&self) -> (r: Vec<(ScopeId, String)>)
        requires
            self.wf(),
        ensures
            r@.len() == live_count(self.scopes@, self.scopes@.len() as int),
            forall|k: int| 0 <= k < r@.len() ==> self.is_live((#[trigger] r@[k]).0@)
                && (self.index_of(r@[k].0@) matches Some(i) && self.scopes@[i].source@ == r@[k].1@),
    {
        let mut out: Vec<(ScopeId, String)> = Vec::new();
        let mut i: usize = 0;
        while i < self.scopes.len()
            invariant
                self.wf(),
                i <= self.scopes@.len(),
                out@.len() == live_count(self.scopes@, i as int),
                forall|k: int| 0 <= k < out@.len() ==> self.is_live((#[trigger] out@[k]).0@)
                    && (self.index_of(out@[k].0@) matches Some(j) && self.scopes@[j].source@ == out@[k].1@),
            decreases self.scopes@.len() - i,
        {
            if !self.scopes[i].disposed {
                let id = self.scopes[i].id;
                proof {
                    lemma_index_of(self, i as int);
                }
                let src = string_of(chars_of(self.scopes[i].source.as_str()).as_slice());
                out.push((ScopeId(id), src));
            }
            i += 1;
        }
        out
    }

    /// The source of a scope, live or not.
    pub fn scope_source(&self, scope: ScopeId) -> (r: Result<String, HostError>)
        requires
            self.wf(),
        ensures
            self.index_of(scope@) is None ==> r == Err::<String, HostError>(HostError::UnknownScope(scope@)),
            self.index_of(scope@) matches Some(i) ==> (r matches Ok(s) && s@ == self.scopes@[i].source@),
    {
        match self.find(scope.0) {
            None => Err(HostError::UnknownScope(scope.0)),
            Some(i) => Ok(string_of(chars_of(self.scopes[i].source.as_str()).as_slice())),
        }
    }

    /// What a scope looks like: disposed, cancelled and how many
    /// resources it holds.
    pub fn stats(&self, scope: ScopeId) -> (r: Result<ScopeStats, HostError>)
        requires
            self.wf(),
        ensures
            self.index_of(scope@) is None ==> r == Err::<ScopeStats, HostError>(HostError::UnknownScope(scope@)),
            self.index_of(scope@) matches Some(i) ==> r == Ok::<ScopeStats, HostError>(ScopeStats {
                disposed: self.scopes@[i].disposed,
                cancelled: self.scopes@[i].cancelled,
                resources: self.scopes@[i].resources@.len() as usize,
            }),
    {
        match self.find(scope.0) {
            None => Err(HostError::UnknownScope(scope.0)),
            Some(i) => Ok(ScopeStats {
                disposed: self.scopes[i].disposed,
                cancelled: self.scopes[i].cancelled,
                resources: self.scopes[i].resources.len(),
            }),
        }
    }

    /// A handle on `value` at the current generation.
    pub fn issue_handle<V>(&self, value: V) -> (h: ReadHandle<V>)
        ensures
            h.spec_generation() == self.generation,
            h.spec_value() == value,
    {
        ReadHandle { generation: Generation(self.generation), value }
    }

    /// The value behind a handle, while its generation is current; stale
    /// handles are refused with both generations.
    pub fn read_handle<'a, V>(&self, handle: &'a ReadHandle<V>) -> (r: Result<&'a V, HostError>)
        ensures
            handle.spec_generation() == self.generation ==> r == Ok::<&V, HostError>(&handle.spec_value()),
            handle.spec_generation() != self.generation ==> r == Err::<&V, HostError>(HostError::StaleHandle {
                handle: handle.spec_generation(),
                current: self.generation,
            }),
    {
        if handle.generation.0 != self.generation {
            return Err(HostError::StaleHandle { handle: handle.generation.0, current: self.generation });
        }
        Ok(&handle.value)
    }
}

/// Live scopes among the first `n`.
pub open spec fn live_count(s: Seq<ScopeState>, n: int) -> int
    decreases n,
{
    if n <= 0 { 0 } else { live_count(s, n - 1) + if !s[n - 1].disposed { 1int } else { 0 } }
}

proof fn lemma_index_of(c: &Control, i: int)
    requires
        c.wf(),
        0 <= i < c.scopes@.len(),
    ensures
        c.index_of(c.scopes@[i].id) == Some(i),
{
    let id = c.scopes@[i].id;
    assert(exists|j: int| 0 <= j < c.scopes@.len() && c.scopes@[j].id == id);
    let j = choose|j: int| 0 <= j < c.scopes@.len() && c.scopes@[j].id == id;
    assert(j == i);
}

/// `after` is `before` with the live scope `id` disposed: marked disposed
/// and cancelled, holding no resource, and the generation moved on.
pub open spec fn disposed_step(before: Control, after: Control, id: u64) -> bool {
    &&& before.index_of(id) matches Some(i)
    &&& !before.scopes@[i].disposed
    &&& after.generation == next_id(before.generation)
    &&& after.scopes@.len() == before.scopes@.len()
    &&& after.scopes@[i].disposed && after.scopes@[i].cancelled
    &&& after.scopes@[i].resources@.len() == 0
    &&& after.scopes@[i].source == before.scopes@[i].source
    &&& forall|j: int| 0 <= j < before.scopes@.len() && j != i ==> after.scopes@[j] == before.scopes@[j]
}

fn contains_u64(v: &Vec<u64>, x: u64) -> (r: bool)
    ensures
        r == v@.contains(x),
{
    let mut i: usize = 0;
    while i < v.len()
        invariant
            i <= v@.len(),
            forall|k: int| 0 <= k < i ==> v@[k] != x,
        decreases v@.len() - i,
    {
        if v[i] == x {
            return true;
        }
        i += 1;
    }
    false
}

fn remove_u64(v: &Vec<u64>, x: u64) -> (out: Vec<u64>)
    requires
        distinct(v@),
    ensures
        distinct(out@),
        out@.to_set() == v@.to_set().remove(x),
{
    let mut out: Vec<u64> = Vec::new();
    let mut i: usize = 0;
    while i < v.len()
        invariant
            i <= v@.len(),
            distinct(v@),
            distinct(out@),
            forall|y: u64| out@.contains(y) <==> (v@.take(i as int).contains(y) && y != x),
        decreases v@.len() - i,
    {
        let ghost before = out@;
        let ghost pre = v@.take(i as int);
        assert(v@.take(i + 1) =~= pre.push(v@[i as int]));
        if v[i] != x {
            out.push(v[i]);
            assert forall|a: int, b: int| 0 <= a < b < out@.len() implies out@[a] != out@[b] by {
                if b == out@.len() - 1 {
                    assert(before.contains(out@[a]));
                    let m = choose|m: int| 0 <= m < pre.len() && pre[m] == out@[a];
                    assert(v@[m] == out@[a]);
                }
            }
            assert forall|y: u64| out@.contains(y) <==> (v@.take(i + 1).contains(y) && y != x) by {
                if y == v@[i as int] {
                    assert(out@[before.len() as int] == y);
                    assert(v@.take(i + 1)[i as int] == y);
                } else {
                    if out@.contains(y) {
                        let k = choose|k: int| 0 <= k < out@.len() && out@[k] == y;
                        assert(before[k] == y);
                        assert(before.contains(y));
                        assert(pre.contains(y));
                        let m = choose|m: int| 0 <= m < pre.len() && pre[m] == y;
                        assert(v@.take(i + 1)[m] == y);
                    }
                    if v@.take(i + 1).contains(y) && y != x {
                        let k = choose|k: int| 0 <= k < i + 1 && #[trigger] v@.take(i + 1)[k] == y;
                        assert(pre[k] == y);
                        assert(pre.contains(y));
                        assert(before.contains(y));
                        let m = choose|m: int| 0 <= m < before.len() && before[m] == y;
                        assert(out@[m] == y);
                    }
                }
            }
        } else {
            assert forall|y: u64| out@.contains(y) <==> (v@.take(i + 1).contains(y) && y != x) by {
                if v@.take(i + 1).contains(y) && y != x {
                    let k = choose|k: int| 0 <= k < i + 1 && #[trigger] v@.take(i + 1)[k] == y;
                    assert(pre[k] == y);
                }
                if out@.contains(y) {
                    assert(pre.contains(y));
                    let k = choose|k: int| 0 <= k < pre.len() && pre[k] == y;
                    assert(v@.take(i + 1)[k] == y);
                }
            }
        }
        i += 1;
    }
    assert(v@.take(v@.len() as int) =~= v@);
    assert(out@.to_set() =~= v@.to_set().remove(x));
    out
}

/// Once a scope is disposed, every read handle issued before the dispose
/// is stale: the generation it carries is no longer current.
pub proof fn law_dispose_makes_handles_stale(before: Control, after: Control, id: u64, handle_generation: u64)
    requires
        disposed_step(before, after, id),
        handle_generation == before.generation,
    ensures
        handle_generation != after.generation,
{
}

/// A disposed scope cannot be disposed again: its state says disposed.
pub proof fn law_dispose_at_most_once(before: Control, after: Control, id: u64)
    requires
        disposed_step(before, after, id),
        before.wf(),
        after.wf(),
        forall|x: u64| #[trigger] after.index_of(x) == before.index_of(x),
    ensures
        after.index_of(id) matches Some(i) && after.scopes@[i].disposed,
        !after.is_live(id),
{
}

/// While a scope holding `source` is live, loading `source` again
/// conflicts; once that scope is disposed, the source may be loaded again
/// (when no other live scope holds it).
pub proof fn law_live_source_blocks_reload(c: Control, id: u64, source: Seq<char>)
    requires
        c.is_live(id),
        c.index_of(id) matches Some(i) && c.scopes@[i].source@ == source,
    ensures
        c.has_live_source(source),
{
    let i = c.index_of(id)->0;
    assert(!c.scopes@[i].disposed && c.scopes@[i].source@ == source);
}


/// `after` is `before` with a new live scope `id` for `source`, made
/// because no live scope held `source`; every other scope is as it was.
pub open spec fn scope_created(before: Control, after: Control, source: Seq<char>, id: u64) -> bool {
    &&& !before.has_live_source(source)
    &&& id == before.next_scope
    &&& after.index_of(id) matches Some(i) && after.scopes@[i].source@ == source && !after.scopes@[i].disposed
    &&& forall|x: u64| x != id ==> #[trigger] after.index_of(x) == before.index_of(x)
        && (before.index_of(x) matches Some(i) ==> after.scopes@[i] == before.scopes@[i])
}

/// A load the VM refused frees its source: once the scope made for it is
/// disposed, no live scope holds the source, so loading it again is not
/// refused as a conflict.
pub proof fn law_failed_load_frees_source(c0: Control, c1: Control, c2: Control, source: Seq<char>, id: u64)
    requires
        c0.wf(),
        c1.wf(),
        scope_created(c0, c1, source, id),
        disposed_step(c1, c2, id),
    ensures
        !c2.has_live_source(source),
{
    let i = c1.index_of(id)->0;
    if c2.has_live_source(source) {
        let j = choose|j: int| 0 <= j < c2.scopes@.len() && !c2.scopes@[j].disposed && #[trigger] c2.scopes@[j].source@ == source;
        assert(j != i);
        assert(c2.scopes@[j] == c1.scopes@[j]);
        let x = c1.scopes@[j].id;
        assert(x != id);
        assert(c1.index_of(x) == Some(j)) by {
            let k = choose|k: int| 0 <= k < c1.scopes@.len() && c1.scopes@[k].id == x;
            assert(k == j);
        }
        assert(c1.index_of(x) == c0.index_of(x));
        assert(c0.scopes@[j] == c1.scopes@[j]);
        assert(!c0.scopes@[j].disposed && c0.scopes@[j].source@ == source);
        assert(c0.has_live_source(source));
    }
}

} // verus!
