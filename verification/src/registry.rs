//! What packages register with the kernel: roots (one of which answers a
//! dispatch), declarations (listed in a stable order) and middleware
//! stages (run in order around a root).
//!
//! Registrations are owned by a package: its source and scope. The same
//! name registered twice is a conflict, except that a middleware stage
//! may be registered again by the package that owns it.

use vstd::prelude::*;

use crate::error::{decimal_digits, push_signed, HostError, CONFLICT_MARKER};
use crate::kernel::{declaration_kind_name, root_kind_name, DeclarationKind, RootKind};
use crate::order::{holds_index, key_view, keys_view, sort_indices, sorted_indices_of, text_less, text_lt, SortKey};
use crate::text::{chars_eq, chars_of, extend_chars, spec_trim, string_of, trim_chars};

verus! {

/// A registered root.
pub struct RootEntry {
    pub kind: RootKind,
    pub id: String,
    pub active: bool,
    pub priority: i64,
    pub source: String,
    pub scope: u64,
}

/// A registered declaration.
pub struct DeclarationEntry {
    pub kind: DeclarationKind,
    pub id: String,
    pub order: i64,
    pub source: String,
    pub scope: u64,
}

/// When a middleware stage runs: before the root handles an event, or
/// after it, over the actions it settled.
#[derive(Debug, Clone, Copy, PartialEq, Eq, Structural)]
pub enum Phase {
    Event,
    Render,
}

/// The name of a phase.
pub open spec fn phase_name(p: Phase) -> Seq<char> {
    match p {
        Phase::Event => "event"@,
        Phase::Render => "render"@,
    }
}

impl Phase {
    /// The phase's name.
    pub fn name(self) -> (r: &'static str)
        ensures
            r@ == phase_name(self),
    {
        match self {
            Phase::Event => "event",
            Phase::Render => "render",
        }
    }
}

/// A registered middleware stage.
pub struct StageEntry {
    pub root: RootKind,
    pub phase: Phase,
    pub id: String,
    pub order: i64,
    pub source: String,
    pub scope: u64,
    pub sequence: u64,
}

/// The most middleware stages that can be registered.
pub const MAX_MIDDLEWARE_STAGES: usize = 64;

/// Whether a text is empty once surrounding whitespace is removed.
pub open spec fn blank(s: Seq<char>) -> bool {
    spec_trim(s).len() == 0
}

fn is_blank(s: &str) -> (r: bool)
    ensures
        r == blank(s@),
{
    trim_chars(&chars_of(s)).len() == 0
}

/// `n` in decimal, with a leading `-` when negative.
pub open spec fn signed_text(n: int) -> Seq<char> {
    if n >= 0 {
        decimal_digits(n as nat)
    } else {
        seq!['-'] + decimal_digits((-n) as nat)
    }
}

/// The error for a name registered by two packages: the two sources in
/// order, after the conflict marker.
pub open spec fn conflict_text(what: Seq<char>, family: Seq<char>, id: Seq<char>, left: Seq<char>, right: Seq<char>) -> Seq<char> {
    let first = if text_lt(right, left) { right } else { left };
    let second = if text_lt(right, left) { left } else { right };
    CONFLICT_MARKER@ + what + " conflict for "@ + family + "/"@ + id + ": "@ + first + " <> "@ + second
}

fn conflict_message(what: &str, family: &str, id: &str, left: &str, right: &str) -> (r: String)
    ensures
        r@ == conflict_text(what@, family@, id@, left@, right@),
{
    let l = chars_of(left);
    let rt = chars_of(right);
    let swap = text_less(&rt, &l);
    let mut out = chars_of(CONFLICT_MARKER);
    extend_chars(&mut out, &chars_of(what));
    extend_chars(&mut out, &chars_of(" conflict for "));
    extend_chars(&mut out, &chars_of(family));
    extend_chars(&mut out, &chars_of("/"));
    extend_chars(&mut out, &chars_of(id));
    extend_chars(&mut out, &chars_of(": "));
    if swap {
        extend_chars(&mut out, &rt);
    } else {
        extend_chars(&mut out, &l);
    }
    extend_chars(&mut out, &chars_of(" <> "));
    if swap {
        extend_chars(&mut out, &l);
    } else {
        extend_chars(&mut out, &rt);
    }
    string_of(out.as_slice())
}

fn text_of(s: &str) -> (r: String)
    ensures
        r@ == s@,
{
    string_of(chars_of(s).as_slice())
}

fn same_text(a: &String, b: &str) -> (r: bool)
    ensures
        r == (a@ == b@),
{
    chars_eq(&chars_of(a.as_str()), &chars_of(b))
}

fn copy_text(s: &String) -> (r: String)
    ensures
        r@ == s@,
{
    s.clone()
}

/// A root entry with the given fields.
pub open spec fn root_is(e: RootEntry, kind: RootKind, id: Seq<char>, active: bool, priority: i64, source: Seq<char>, scope: u64) -> bool {
    e.kind == kind && e.id@ == id && e.active == active && e.priority == priority && e.source@ == source && e.scope == scope
}

/// Two root entries with equal fields.
pub open spec fn same_root(a: RootEntry, b: RootEntry) -> bool {
    root_is(a, b.kind, b.id@, b.active, b.priority, b.source@, b.scope)
}

/// A declaration entry with the given fields.
pub open spec fn declaration_is(e: DeclarationEntry, kind: DeclarationKind, id: Seq<char>, order: i64, source: Seq<char>, scope: u64) -> bool {
    e.kind == kind && e.id@ == id && e.order == order && e.source@ == source && e.scope == scope
}

/// Two declaration entries with equal fields.
pub open spec fn same_declaration(a: DeclarationEntry, b: DeclarationEntry) -> bool {
    declaration_is(a, b.kind, b.id@, b.order, b.source@, b.scope)
}

/// A stage entry with the given fields.
pub open spec fn stage_is(
    e: StageEntry,
    root: RootKind,
    phase: Phase,
    id: Seq<char>,
    order: i64,
    source: Seq<char>,
    scope: u64,
    sequence: u64,
) -> bool {
    e.root == root && e.phase == phase && e.id@ == id && e.order == order && e.source@ == source && e.scope == scope
        && e.sequence == sequence
}

/// Two stage entries with equal fields.
pub open spec fn same_stage(a: StageEntry, b: StageEntry) -> bool {
    stage_is(a, b.root, b.phase, b.id@, b.order, b.source@, b.scope, b.sequence)
}

fn copy_root(e: &RootEntry) -> (r: RootEntry)
    ensures
        same_root(r, *e),
{
    RootEntry { kind: e.kind, id: copy_text(&e.id), active: e.active, priority: e.priority, source: copy_text(&e.source), scope: e.scope }
}

fn copy_declaration(e: &DeclarationEntry) -> (r: DeclarationEntry)
    ensures
        same_declaration(r, *e),
{
    DeclarationEntry { kind: e.kind, id: copy_text(&e.id), order: e.order, source: copy_text(&e.source), scope: e.scope }
}

fn copy_stage(e: &StageEntry) -> (r: StageEntry)
    ensures
        same_stage(r, *e),
{
    StageEntry {
        root: e.root,
        phase: e.phase,
        id: copy_text(&e.id),
        order: e.order,
        source: copy_text(&e.source),
        scope: e.scope,
        sequence: e.sequence,
    }
}

/// The registrations of every loaded package.
pub struct Registrations {
    roots: Vec<RootEntry>,
    declarations: Vec<DeclarationEntry>,
    stages: Vec<StageEntry>,
    next_sequence: u64,
}

impl Registrations {
    /// The registered roots, oldest first.
    pub closed spec fn roots(self) -> Seq<RootEntry> {
        self.roots@
    }

    /// The registered declarations, oldest first.
    pub closed spec fn declarations(self) -> Seq<DeclarationEntry> {
        self.declarations@
    }

    /// The registered middleware stages.
    pub closed spec fn stages(self) -> Seq<StageEntry> {
        self.stages@
    }

    /// The sequence number the next middleware registration gets.
    pub closed spec fn next_sequence(self) -> u64 {
        self.next_sequence
    }

    /// No root, declaration or stage name is registered twice, and every
    /// stage's sequence number is below the next one and its own.
    pub open spec fn wf(self) -> bool {
        &&& forall|i: int, j: int|
            0 <= i < j < self.roots().len() ==> !(#[trigger] self.roots()[i].kind == #[trigger] self.roots()[j].kind
                && self.roots()[i].id@ == self.roots()[j].id@)
        &&& forall|i: int, j: int|
            0 <= i < j < self.declarations().len() ==> !(#[trigger] self.declarations()[i].kind
                == #[trigger] self.declarations()[j].kind && self.declarations()[i].id@ == self.declarations()[j].id@)
        &&& forall|i: int, j: int|
            0 <= i < j < self.stages().len() ==> !(#[trigger] self.stages()[i].root == #[trigger] self.stages()[j].root
                && self.stages()[i].phase == self.stages()[j].phase && self.stages()[i].id@ == self.stages()[j].id@)
        &&& forall|i: int, j: int|
            0 <= i < j < self.stages().len() ==> #[trigger] self.stages()[i].sequence != #[trigger] self.stages()[j].sequence
        &&& forall|i: int| 0 <= i < self.stages().len() ==> #[trigger] self.stages()[i].sequence < self.next_sequence()
    }

    /// Nothing registered.
    pub fn new() -> (r: Registrations)
        ensures
            r.wf(),
            r.roots().len() == 0,
            r.declarations().len() == 0,
            r.stages().len() == 0,
            r.next_sequence() == 0,
    {
        Registrations { roots: Vec::new(), declarations: Vec::new(), stages: Vec::new(), next_sequence: 0 }
    }
}

/// Roots `i` has the kind and id given.
pub open spec fn root_key_at(roots: Seq<RootEntry>, i: int, kind: RootKind, id: Seq<char>) -> bool {
    0 <= i < roots.len() && roots[i].kind == kind && roots[i].id@ == id
}

/// Declaration `i` has the kind and id given.
pub open spec fn declaration_key_at(ds: Seq<DeclarationEntry>, i: int, kind: DeclarationKind, id: Seq<char>) -> bool {
    0 <= i < ds.len() && ds[i].kind == kind && ds[i].id@ == id
}

/// The outcome of registering a name: refused with an error message, or
/// the entry added.
pub open spec fn refused_with(r: Result<(), String>, message: Seq<char>) -> bool {
    r matches Err(m) && m@ == message
}

impl Registrations {
    /// Registers a root of `kind` named `id` for the package `source`
    /// loaded in `scope`. Refused when the id is blank, outside a package
    /// scope, or when the kind already has a root of that id.
    pub fn register_root(&mut self, kind: RootKind, id: &str, active: bool, priority: i64, source: &str, scope: u64) -> (r: Result<(), String>)
        requires
            old(self).wf(),
        ensures
            final(self).wf(),
            blank(id@) ==> refused_with(r, "root id must be a non-empty string"@) && *final(self) == *old(self),
            !blank(id@) && scope == 0 ==> refused_with(r, "kernel declarations require a package scope"@) && *final(self)
                == *old(self),
            !blank(id@) && scope != 0 && (exists|i: int| root_key_at(old(self).roots(), i, kind, id@)) ==> {
                let i = choose|i: int| root_key_at(old(self).roots(), i, kind, id@);
                &&& refused_with(r, conflict_text("root"@, root_kind_name(kind), id@, source@, old(self).roots()[i].source@))
                &&& *final(self) == *old(self)
            },
            !blank(id@) && scope != 0 && !(exists|i: int| root_key_at(old(self).roots(), i, kind, id@)) ==> {
                &&& r is Ok
                &&& final(self).roots().len() == old(self).roots().len() + 1
                &&& final(self).roots().drop_last() == old(self).roots()
                &&& root_is(final(self).roots().last(), kind, id@, active, priority, source@, scope)
                &&& final(self).declarations() == old(self).declarations()
                &&& final(self).stages() == old(self).stages()
                &&& final(self).next_sequence() == old(self).next_sequence()
            },
    {
        if is_blank(id) {
            return Err(text_of("root id must be a non-empty string"));
        }
        if scope == 0 {
            return Err(text_of("kernel declarations require a package scope"));
        }
        let mut i: usize = 0;
        while i < self.roots.len()
            invariant
                i <= self.roots@.len(),
                self.wf(),
                *self == *old(self),
                !blank(id@),
                scope != 0,
                forall|k: int| 0 <= k < i ==> !root_key_at(self.roots@, k, kind, id@),
            decreases self.roots@.len() - i,
        {
            if self.roots[i].kind == kind && same_text(&self.roots[i].id, id) {
                proof {
                    assert(root_key_at(self.roots@, i as int, kind, id@));
                    assert forall|k: int| root_key_at(self.roots@, k, kind, id@) implies k == i by {
                        if k != i {
                            if k < i {
                                assert(!(self.roots@[k].kind == self.roots@[i as int].kind && self.roots@[k].id@ == self.roots@[i as int].id@));
                            } else {
                                assert(!(self.roots@[i as int].kind == self.roots@[k].kind && self.roots@[i as int].id@ == self.roots@[k].id@));
                            }
                        }
                    }
                }
                let kind_name = kind.as_str();
                return Err(conflict_message("root", kind_name, id, source, self.roots[i].source.as_str()));
            }
            i += 1;
        }
        let ghost before = self.roots@;
        self.roots.push(RootEntry { kind, id: text_of(id), active, priority, source: text_of(source), scope });
        assert(self.roots@.drop_last() =~= before);
        assert forall|a: int, b: int| 0 <= a < b < self.roots@.len() implies !(#[trigger] self.roots@[a].kind
            == #[trigger] self.roots@[b].kind && self.roots@[a].id@ == self.roots@[b].id@) by {
            if b == before.len() {
                assert(!root_key_at(before, a, kind, id@));
            } else {
                assert(self.roots@[a] == before[a] && self.roots@[b] == before[b]);
            }
        }
        Ok(())
    }

    /// Registers a declaration of `kind` named `named` (its id, or its
    /// name when it has no id) for the package `source` loaded in `scope`.
    /// Refused when the name is missing or blank, outside a package scope,
    /// or when the kind already has a declaration of that name.
    pub fn register_declaration(
        &mut self,
        kind: DeclarationKind,
        named: Option<&str>,
        order: i64,
        source: &str,
        scope: u64,
    ) -> (r: Result<(), String>)
        requires
            old(self).wf(),
        ensures
            final(self).wf(),
            match named {
                None => refused_with(r, "declaration id/name must be a non-empty string"@) && *final(self) == *old(self),
                Some(id) => {
                    &&& blank(id@) ==> refused_with(r, "declaration id/name must be a non-empty string"@) && *final(self)
                        == *old(self)
                    &&& !blank(id@) && scope == 0 ==> refused_with(r, "kernel declarations require a package scope"@)
                        && *final(self) == *old(self)
                    &&& !blank(id@) && scope != 0 && (exists|i: int| declaration_key_at(old(self).declarations(), i, kind, id@)) ==> {
                        let i = choose|i: int| declaration_key_at(old(self).declarations(), i, kind, id@);
                        &&& refused_with(r, conflict_text("declaration"@, declaration_kind_name(kind), id@, source@,
                            old(self).declarations()[i].source@))
                        &&& *final(self) == *old(self)
                    }
                    &&& !blank(id@) && scope != 0 && !(exists|i: int| declaration_key_at(old(self).declarations(), i, kind, id@)) ==> {
                        &&& r is Ok
                        &&& final(self).declarations().len() == old(self).declarations().len() + 1
                        &&& final(self).declarations().drop_last() == old(self).declarations()
                        &&& declaration_is(final(self).declarations().last(), kind, id@, order, source@, scope)
                        &&& final(self).roots() == old(self).roots()
                        &&& final(self).stages() == old(self).stages()
                        &&& final(self).next_sequence() == old(self).next_sequence()
                    }
                },
            },
    {
        let id = match named {
            Some(id) => id,
            None => {
                return Err(text_of("declaration id/name must be a non-empty string"));
            },
        };
        if is_blank(id) {
            return Err(text_of("declaration id/name must be a non-empty string"));
        }
        if scope == 0 {
            return Err(text_of("kernel declarations require a package scope"));
        }
        let mut i: usize = 0;
        while i < self.declarations.len()
            invariant
                i <= self.declarations@.len(),
                self.wf(),
                *self == *old(self),
                !blank(id@),
                scope != 0,
                named == Some(id),
                forall|k: int| 0 <= k < i ==> !declaration_key_at(self.declarations@, k, kind, id@),
            decreases self.declarations@.len() - i,
        {
            if self.declarations[i].kind == kind && same_text(&self.declarations[i].id, id) {
                proof {
                    assert(declaration_key_at(self.declarations@, i as int, kind, id@));
                    assert forall|k: int| declaration_key_at(self.declarations@, k, kind, id@) implies k == i by {
                        if k != i {
                            if k < i {
                                assert(!(self.declarations@[k].kind == self.declarations@[i as int].kind
                                    && self.declarations@[k].id@ == self.declarations@[i as int].id@));
                            } else {
                                assert(!(self.declarations@[i as int].kind == self.declarations@[k].kind
                                    && self.declarations@[i as int].id@ == self.declarations@[k].id@));
                            }
                        }
                    }
                }
                let kind_name = kind.as_str();
                return Err(conflict_message("declaration", kind_name, id, source, self.declarations[i].source.as_str()));
            }
            i += 1;
        }
        let ghost before = self.declarations@;
        self.declarations.push(DeclarationEntry { kind, id: text_of(id), order, source: text_of(source), scope });
        assert(self.declarations@.drop_last() =~= before);
        assert forall|a: int, b: int| 0 <= a < b < self.declarations@.len() implies !(#[trigger] self.declarations@[a].kind
            == #[trigger] self.declarations@[b].kind && self.declarations@[a].id@ == self.declarations@[b].id@) by {
            if b == before.len() {
                assert(!declaration_key_at(before, a, kind, id@));
            } else {
                assert(self.declarations@[a] == before[a] && self.declarations@[b] == before[b]);
            }
        }
        Ok(())
    }
}

/// A root that can answer a dispatch of `kind`: of that kind and active.
pub open spec fn root_candidate(e: RootEntry, kind: RootKind) -> bool {
    e.kind == kind && e.active
}

/// The highest priority among the roots that can answer `kind`.
pub open spec fn top_priority(roots: Seq<RootEntry>, kind: RootKind) -> Option<int>
    decreases roots.len(),
{
    if roots.len() == 0 {
        None
    } else {
        let rest = top_priority(roots.drop_last(), kind);
        let e = roots.last();
        if root_candidate(e, kind) {
            match rest {
                Some(p) => Some(if e.priority > p { e.priority as int } else { p }),
                None => Some(e.priority as int),
            }
        } else {
            rest
        }
    }
}

/// Root `i` can answer `kind` at priority `p`.
pub open spec fn is_winner(roots: Seq<RootEntry>, i: int, kind: RootKind, p: int) -> bool {
    0 <= i < roots.len() && root_candidate(roots[i], kind) && roots[i].priority == p
}

/// How many roots can answer `kind` at priority `p`.
pub open spec fn winner_count(roots: Seq<RootEntry>, kind: RootKind, p: int) -> nat
    decreases roots.len(),
{
    if roots.len() == 0 {
        0
    } else {
        winner_count(roots.drop_last(), kind, p) + if root_candidate(roots.last(), kind) && roots.last().priority == p { 1nat } else { 0nat }
    }
}

/// How a root is named in a conflict: `source:id`.
pub open spec fn owner_text(e: RootEntry) -> Seq<char> {
    e.source@ + ":"@ + e.id@
}

/// The owners of conflicting roots, separated by `, `.
pub open spec fn owners_text(ws: Seq<RootEntry>) -> Seq<char>
    decreases ws.len(),
{
    if ws.len() == 0 {
        Seq::<char>::empty()
    } else if ws.len() == 1 {
        owner_text(ws[0])
    } else {
        owners_text(ws.drop_last()) + ", "@ + owner_text(ws.last())
    }
}

/// `ws` are the roots that can answer `kind` at priority `p`, each once,
/// ordered by source and then id.
pub open spec fn owners_in_order(ws: Seq<RootEntry>, roots: Seq<RootEntry>, kind: RootKind, p: int) -> bool {
    &&& ws.len() == winner_count(roots, kind, p)
    &&& forall|i: int| 0 <= i < ws.len() ==> exists|k: int| is_winner(roots, k, kind, p) && same_root(#[trigger] ws[i], roots[k])
    &&& forall|i: int, j: int|
        0 <= i < j < ws.len() ==> crate::order::key_lt(
            (0, 0, (#[trigger] ws[i]).source@, ws[i].id@),
            (0, 0, (#[trigger] ws[j]).source@, ws[j].id@),
        )
}

/// The error when several roots share the top priority.
pub open spec fn root_conflict_text(kind: RootKind, p: int, ws: Seq<RootEntry>) -> Seq<char> {
    "root "@ + root_kind_name(kind) + " priority "@ + signed_text(p) + ": "@ + owners_text(ws)
}

proof fn lemma_count_of_prefix(roots: Seq<RootEntry>, i: int, kind: RootKind, p: int)
    requires
        0 <= i < roots.len(),
    ensures
        roots.take(i + 1).drop_last() == roots.take(i),
        roots.take(i + 1).last() == roots[i],
{
    assert(roots.take(i + 1).drop_last() =~= roots.take(i));
}

impl Registrations {
    /// The root that answers a dispatch of `kind`: the one active root of
    /// that kind with the highest priority. Unknown when there is none;
    /// a conflict, naming every owner, when several share that priority.
    pub fn resolve_root(&self, kind: RootKind) -> (r: Result<RootEntry, HostError>)
        requires
            self.wf(),
        ensures
            match top_priority(self.roots(), kind) {
                None => r matches Err(HostError::UnknownRoot(s)) && s@ == root_kind_name(kind),
                Some(p) => if winner_count(self.roots(), kind, p) == 1 {
                    r matches Ok(e) && exists|i: int| is_winner(self.roots(), i, kind, p) && same_root(e, self.roots()[i])
                } else {
                    r matches Err(HostError::Conflict(m)) && exists|ws: Seq<RootEntry>|
                        owners_in_order(ws, self.roots(), kind, p) && m@ == root_conflict_text(kind, p, ws)
                },
            },
    {
        let ghost rs = self.roots@;
        let mut top: Option<i64> = None;
        let mut i: usize = 0;
        while i < self.roots.len()
            invariant
                i <= rs.len(),
                rs == self.roots@,
                top_priority(rs.take(i as int), kind) == match top {
                    Some(t) => Some(t as int),
                    None => None::<int>,
                },
            decreases rs.len() - i,
        {
            proof {
                lemma_count_of_prefix(rs, i as int, kind, 0);
            }
            let e = &self.roots[i];
            if e.kind == kind && e.active {
                top = match top {
                    Some(t) => Some(if e.priority > t { e.priority } else { t }),
                    None => Some(e.priority),
                };
            }
            i += 1;
        }
        assert(rs.take(rs.len() as int) =~= rs);
        let p = match top {
            Some(t) => t,
            None => {
                return Err(HostError::UnknownRoot(text_of(kind.as_str())));
            },
        };
        let mut winners: Vec<usize> = Vec::new();
        let mut j: usize = 0;
        while j < self.roots.len()
            invariant
                j <= rs.len(),
                rs == self.roots@,
                winners@.len() == winner_count(rs.take(j as int), kind, p as int),
                forall|k: int| 0 <= k < winners@.len() ==> winners@[k] < j && is_winner(rs, #[trigger] winners@[k] as int, kind, p as int),
                forall|a: int, b: int| 0 <= a < b < winners@.len() ==> #[trigger] winners@[a] < #[trigger] winners@[b],
                forall|x: int| 0 <= x < j && is_winner(rs, x, kind, p as int) ==> holds_index(winners@, x),
            decreases rs.len() - j,
        {
            proof {
                lemma_count_of_prefix(rs, j as int, kind, 0);
            }
            let e = &self.roots[j];
            if e.kind == kind && e.active && e.priority == p {
                let ghost before = winners@;
                winners.push(j);
                proof {
                    assert forall|x: int| 0 <= x < j + 1 && is_winner(rs, x, kind, p as int) implies holds_index(winners@, x) by {
                        if x == j {
                            assert(winners@[before.len() as int] == j);
                        } else {
                            assert(holds_index(before, x));
                            let k = choose|k: int| 0 <= k < before.len() && before[k] == x;
                            assert(winners@[k] == x);
                        }
                    }
                }
            }
            j += 1;
        }
        assert(rs.take(rs.len() as int) =~= rs);
        if winners.len() == 1 {
            let w = winners[0];
            assert(is_winner(rs, w as int, kind, p as int));
            return Ok(copy_root(&self.roots[w]));
        }
        let mut keys: Vec<SortKey> = Vec::new();
        let mut k: usize = 0;
        while k < winners.len()
            invariant
                k <= winners@.len(),
                rs == self.roots@,
                forall|m: int| 0 <= m < winners@.len() ==> winners@[m] < rs.len(),
                winners@.len() == winner_count(rs, kind, p as int),
                forall|q: int| 0 <= q < winners@.len() ==> is_winner(rs, #[trigger] winners@[q] as int, kind, p as int),
                forall|a: int, b: int| 0 <= a < b < winners@.len() ==> #[trigger] winners@[a] < #[trigger] winners@[b],
                keys@.len() == k,
                forall|m: int| 0 <= m < k ==> #[trigger] key_view(keys@[m]) == (0int, 0int, rs[winners@[m] as int].source@, rs[winners@[m] as int].id@),
            decreases winners@.len() - k,
        {
            let e = &self.roots[winners[k]];
            keys.push(SortKey { rank: 0, tie: 0, first: chars_of(e.source.as_str()), second: chars_of(e.id.as_str()) });
            k += 1;
        }
        let order = sort_indices(&keys);
        let ghost kv = keys_view(keys@);
        let ghost ws = Seq::new(order@.len(), |m: int| rs[winners@[order@[m] as int] as int]);
        let mut msg = chars_of("root ");
        extend_chars(&mut msg, &chars_of(kind.as_str()));
        extend_chars(&mut msg, &chars_of(" priority "));
        push_signed(&mut msg, p);
        extend_chars(&mut msg, &chars_of(": "));
        let ghost head = msg@;
        let mut m: usize = 0;
        while m < order.len()
            invariant
                m <= order@.len(),
                rs == self.roots@,
                sorted_indices_of(kv, keys@.len() as int, order@),
                keys@.len() == winners@.len(),
                forall|q: int| 0 <= q < winners@.len() ==> winners@[q] < rs.len(),
                winners@.len() == winner_count(rs, kind, p as int),
                forall|q: int| 0 <= q < winners@.len() ==> is_winner(rs, #[trigger] winners@[q] as int, kind, p as int),
                forall|a: int, b: int| 0 <= a < b < winners@.len() ==> #[trigger] winners@[a] < #[trigger] winners@[b],
                forall|q: int| 0 <= q < keys@.len() ==> #[trigger] key_view(keys@[q]) == (0int, 0int, rs[winners@[q] as int].source@, rs[winners@[q] as int].id@),
                kv == keys_view(keys@),
                ws == Seq::new(order@.len(), |q: int| rs[winners@[order@[q] as int] as int]),
                msg@ == head + owners_text(ws.take(m as int)),
            decreases order@.len() - m,
        {
            let e = &self.roots[winners[order[m]]];
            let ghost t = ws.take(m + 1);
            assert(t.drop_last() =~= ws.take(m as int));
            assert(t.last() == rs[winners@[order@[m as int] as int] as int]);
            if m > 0 {
                extend_chars(&mut msg, &chars_of(", "));
            }
            extend_chars(&mut msg, &chars_of(e.source.as_str()));
            extend_chars(&mut msg, &chars_of(":"));
            extend_chars(&mut msg, &chars_of(e.id.as_str()));
            proof {
                if m == 0 {
                    assert(t.len() == 1);
                    assert(ws.take(0) =~= Seq::<RootEntry>::empty());
                    assert(msg@ =~= head + owners_text(t));
                } else {
                    assert(msg@ =~= head + owners_text(t));
                }
            }
            m += 1;
        }
        assert(ws.take(order@.len() as int) =~= ws);
        proof {
            assert(signed_text(p as int) == if p >= 0 { decimal_digits(p as nat) } else { seq!['-'] + decimal_digits((-(p as int)) as nat) });
            assert forall|a: int| 0 <= a < ws.len() implies exists|x: int| is_winner(rs, x, kind, p as int) && same_root(#[trigger] ws[a], rs[x]) by {
                let x = winners@[order@[a] as int] as int;
                assert(is_winner(rs, x, kind, p as int));
            }
            assert forall|a: int, b: int| 0 <= a < b < ws.len() implies crate::order::key_lt(
                (0, 0, (#[trigger] ws[a]).source@, ws[a].id@),
                (0, 0, (#[trigger] ws[b]).source@, ws[b].id@),
            ) by {
                let oa = order@[a] as int;
                let ob = order@[b] as int;
                assert(crate::order::index_before(kv, oa, ob));
                assert(kv[oa] == key_view(keys@[oa]));
                assert(kv[ob] == key_view(keys@[ob]));
                crate::order::lemma_key_lt_order(kv[oa], kv[ob], kv[ob]);
                if kv[oa] == kv[ob] {
                    let xa = winners@[oa] as int;
                    let xb = winners@[ob] as int;
                    assert(xa < xb);
                    assert(!(rs[xa].kind == rs[xb].kind && rs[xa].id@ == rs[xb].id@));
                }
            }
            assert(owners_in_order(ws, rs, kind, p as int));
            assert(msg@ =~= root_conflict_text(kind, p as int, ws));
        }
        Err(HostError::Conflict(string_of(msg.as_slice())))
    }
}

/// How many declarations of `kind` there are.
pub open spec fn kind_count(ds: Seq<DeclarationEntry>, kind: DeclarationKind) -> nat
    decreases ds.len(),
{
    if ds.len() == 0 {
        0
    } else {
        kind_count(ds.drop_last(), kind) + if ds.last().kind == kind { 1nat } else { 0nat }
    }
}

/// The place of a declaration in the listing: its order, then source,
/// then id.
pub open spec fn declaration_key(e: DeclarationEntry) -> crate::order::KeyView {
    (e.order as int, 0, e.source@, e.id@)
}

/// `r` holds the declarations of `kind`, each once, ordered by order,
/// then source, then id.
pub open spec fn declarations_in_order(r: Seq<DeclarationEntry>, ds: Seq<DeclarationEntry>, kind: DeclarationKind) -> bool {
    &&& r.len() == kind_count(ds, kind)
    &&& forall|i: int| 0 <= i < r.len() ==> exists|k: int| 0 <= k < ds.len() && ds[k].kind == kind && same_declaration(#[trigger] r[i], ds[k])
    &&& forall|i: int, j: int| 0 <= i < j < r.len() ==> crate::order::key_lt(declaration_key(#[trigger] r[i]), declaration_key(#[trigger] r[j]))
}

/// The roots not owned by `source`, in their order.
pub open spec fn roots_kept(rs: Seq<RootEntry>, source: Seq<char>) -> Seq<RootEntry>
    decreases rs.len(),
{
    if rs.len() == 0 {
        Seq::<RootEntry>::empty()
    } else {
        let kept = roots_kept(rs.drop_last(), source);
        if rs.last().source@ == source { kept } else { kept.push(rs.last()) }
    }
}

/// The declarations not owned by `source`, in their order.
pub open spec fn declarations_kept(ds: Seq<DeclarationEntry>, source: Seq<char>) -> Seq<DeclarationEntry>
    decreases ds.len(),
{
    if ds.len() == 0 {
        Seq::<DeclarationEntry>::empty()
    } else {
        let kept = declarations_kept(ds.drop_last(), source);
        if ds.last().source@ == source { kept } else { kept.push(ds.last()) }
    }
}

impl Registrations {
    /// The declarations of `kind`, ordered by order, then source, then id.
    pub fn registered_declarations(&self, kind: DeclarationKind) -> (r: Vec<DeclarationEntry>)
        requires
            self.wf(),
        ensures
            declarations_in_order(r@, self.declarations(), kind),
    {
        let ghost ds = self.declarations@;
        let mut picked: Vec<usize> = Vec::new();
        let mut j: usize = 0;
        while j < self.declarations.len()
            invariant
                j <= ds.len(),
                ds == self.declarations@,
                picked@.len() == kind_count(ds.take(j as int), kind),
                forall|k: int| 0 <= k < picked@.len() ==> picked@[k] < j && ds[#[trigger] picked@[k] as int].kind == kind,
                forall|a: int, b: int| 0 <= a < b < picked@.len() ==> #[trigger] picked@[a] < #[trigger] picked@[b],
            decreases ds.len() - j,
        {
            assert(ds.take(j + 1).drop_last() =~= ds.take(j as int));
            if self.declarations[j].kind == kind {
                picked.push(j);
            }
            j += 1;
        }
        assert(ds.take(ds.len() as int) =~= ds);
        let mut keys: Vec<SortKey> = Vec::new();
        let mut k: usize = 0;
        while k < picked.len()
            invariant
                k <= picked@.len(),
                ds == self.declarations@,
                forall|m: int| 0 <= m < picked@.len() ==> picked@[m] < ds.len(),
                keys@.len() == k,
                forall|m: int| 0 <= m < k ==> #[trigger] key_view(keys@[m]) == declaration_key(ds[picked@[m] as int]),
            decreases picked@.len() - k,
        {
            let e = &self.declarations[picked[k]];
            keys.push(SortKey { rank: e.order, tie: 0, first: chars_of(e.source.as_str()), second: chars_of(e.id.as_str()) });
            k += 1;
        }
        let order = sort_indices(&keys);
        let ghost kv = keys_view(keys@);
        let mut out: Vec<DeclarationEntry> = Vec::new();
        let mut m: usize = 0;
        while m < order.len()
            invariant
                m <= order@.len(),
                ds == self.declarations@,
                self.wf(),
                sorted_indices_of(kv, keys@.len() as int, order@),
                kv == keys_view(keys@),
                keys@.len() == picked@.len(),
                picked@.len() == kind_count(ds, kind),
                forall|q: int| 0 <= q < picked@.len() ==> picked@[q] < ds.len() && ds[#[trigger] picked@[q] as int].kind == kind,
                forall|a: int, b: int| 0 <= a < b < picked@.len() ==> #[trigger] picked@[a] < #[trigger] picked@[b],
                forall|q: int| 0 <= q < keys@.len() ==> #[trigger] key_view(keys@[q]) == declaration_key(ds[picked@[q] as int]),
                out@.len() == m,
                forall|q: int| 0 <= q < m ==> same_declaration(#[trigger] out@[q], ds[picked@[order@[q] as int] as int]),
            decreases order@.len() - m,
        {
            out.push(copy_declaration(&self.declarations[picked[order[m]]]));
            m += 1;
        }
        proof {
            assert forall|a: int| 0 <= a < out@.len() implies exists|x: int| 0 <= x < ds.len() && ds[x].kind == kind
                && same_declaration(#[trigger] out@[a], ds[x]) by {
                let x = picked@[order@[a] as int] as int;
                assert(same_declaration(out@[a], ds[x]));
            }
            assert forall|a: int, b: int| 0 <= a < b < out@.len() implies crate::order::key_lt(
                declaration_key(#[trigger] out@[a]),
                declaration_key(#[trigger] out@[b]),
            ) by {
                let oa = order@[a] as int;
                let ob = order@[b] as int;
                assert(crate::order::index_before(kv, oa, ob));
                crate::order::lemma_key_lt_order(kv[oa], kv[ob], kv[ob]);
                assert(kv[oa] == declaration_key(ds[picked@[oa] as int]));
                assert(kv[ob] == declaration_key(ds[picked@[ob] as int]));
                if kv[oa] == kv[ob] {
                    let xa = picked@[oa] as int;
                    let xb = picked@[ob] as int;
                    assert(xa < xb);
                    assert(!(ds[xa].kind == ds[xb].kind && ds[xa].id@ == ds[xb].id@));
                }
            }
        }
        out
    }

    /// Drops the roots and declarations of a package.
    pub fn remove_source(&mut self, source: &str)
        requires
            old(self).wf(),
        ensures
            final(self).wf(),
            final(self).roots().len() == roots_kept(old(self).roots(), source@).len(),
            forall|i: int| 0 <= i < final(self).roots().len() ==> same_root(#[trigger] final(self).roots()[i], roots_kept(old(self).roots(), source@)[i]),
            final(self).declarations().len() == declarations_kept(old(self).declarations(), source@).len(),
            forall|i: int| 0 <= i < final(self).declarations().len() ==> same_declaration(
                #[trigger] final(self).declarations()[i],
                declarations_kept(old(self).declarations(), source@)[i],
            ),
            final(self).stages() == old(self).stages(),
            final(self).next_sequence() == old(self).next_sequence(),
    {
        let ghost rs = self.roots@;
        let mut roots: Vec<RootEntry> = Vec::new();
        let ghost mut pos: Seq<int> = Seq::empty();
        let mut i: usize = 0;
        assert(rs.take(0) =~= Seq::<RootEntry>::empty());
        while i < self.roots.len()
            invariant
                i <= rs.len(),
                rs == self.roots@,
                *self == *old(self),
                old(self).wf(),
                roots@.len() == roots_kept(rs.take(i as int), source@).len(),
                forall|k: int| 0 <= k < roots@.len() ==> same_root(#[trigger] roots@[k], roots_kept(rs.take(i as int), source@)[k]),
                pos.len() == roots@.len(),
                forall|k: int| 0 <= k < pos.len() ==> 0 <= #[trigger] pos[k] < i && same_root(roots@[k], rs[pos[k]]),
                forall|a: int, b: int| 0 <= a < b < pos.len() ==> #[trigger] pos[a] < #[trigger] pos[b],
            decreases rs.len() - i,
        {
            let ghost t = rs.take(i + 1);
            assert(t.drop_last() =~= rs.take(i as int));
            assert(t.last() == rs[i as int]);
            if !same_text(&self.roots[i].source, source) {
                roots.push(copy_root(&self.roots[i]));
                proof {
                    pos = pos.push(i as int);
                }
            }
            i += 1;
        }
        assert(rs.take(rs.len() as int) =~= rs);
        let ghost ds = self.declarations@;
        let mut decls: Vec<DeclarationEntry> = Vec::new();
        let ghost mut dpos: Seq<int> = Seq::empty();
        let mut j: usize = 0;
        assert(ds.take(0) =~= Seq::<DeclarationEntry>::empty());
        while j < self.declarations.len()
            invariant
                j <= ds.len(),
                ds == self.declarations@,
                *self == *old(self),
                decls@.len() == declarations_kept(ds.take(j as int), source@).len(),
                forall|k: int| 0 <= k < decls@.len() ==> same_declaration(#[trigger] decls@[k], declarations_kept(ds.take(j as int), source@)[k]),
                dpos.len() == decls@.len(),
                forall|k: int| 0 <= k < dpos.len() ==> 0 <= #[trigger] dpos[k] < j && same_declaration(decls@[k], ds[dpos[k]]),
                forall|a: int, b: int| 0 <= a < b < dpos.len() ==> #[trigger] dpos[a] < #[trigger] dpos[b],
            decreases ds.len() - j,
        {
            let ghost t = ds.take(j + 1);
            assert(t.drop_last() =~= ds.take(j as int));
            assert(t.last() == ds[j as int]);
            if !same_text(&self.declarations[j].source, source) {
                decls.push(copy_declaration(&self.declarations[j]));
                proof {
                    dpos = dpos.push(j as int);
                }
            }
            j += 1;
        }
        assert(ds.take(ds.len() as int) =~= ds);
        self.roots = roots;
        self.declarations = decls;
        proof {
            assert forall|a: int, b: int| 0 <= a < b < self.roots@.len() implies !(#[trigger] self.roots@[a].kind
                == #[trigger] self.roots@[b].kind && self.roots@[a].id@ == self.roots@[b].id@) by {
                assert(pos[a] < pos[b]);
                assert(!(rs[pos[a]].kind == rs[pos[b]].kind && rs[pos[a]].id@ == rs[pos[b]].id@));
            }
            assert forall|a: int, b: int| 0 <= a < b < self.declarations@.len() implies !(#[trigger] self.declarations@[a].kind
                == #[trigger] self.declarations@[b].kind && self.declarations@[a].id@ == self.declarations@[b].id@) by {
                assert(dpos[a] < dpos[b]);
                assert(!(ds[dpos[a]].kind == ds[dpos[b]].kind && ds[dpos[a]].id@ == ds[dpos[b]].id@));
            }
        }
    }
}

/// Stage `i` has the root, phase and id given.
pub open spec fn stage_key_at(ss: Seq<StageEntry>, i: int, root: RootKind, phase: Phase, id: Seq<char>) -> bool {
    0 <= i < ss.len() && ss[i].root == root && ss[i].phase == phase && ss[i].id@ == id
}

/// How many stages run for `root` in `phase`.
pub open spec fn stage_count(ss: Seq<StageEntry>, root: RootKind, phase: Phase) -> nat
    decreases ss.len(),
{
    if ss.len() == 0 {
        0
    } else {
        stage_count(ss.drop_last(), root, phase) + if ss.last().root == root && ss.last().phase == phase { 1nat } else { 0nat }
    }
}

/// `r` holds the stages of `root` in `phase`, each once, ordered by
/// order and then by registration.
pub open spec fn stages_in_order(r: Seq<StageEntry>, ss: Seq<StageEntry>, root: RootKind, phase: Phase) -> bool {
    &&& r.len() == stage_count(ss, root, phase)
    &&& forall|i: int| 0 <= i < r.len() ==> exists|k: int| 0 <= k < ss.len() && ss[k].root == root && ss[k].phase == phase && same_stage(#[trigger] r[i], ss[k])
    &&& forall|i: int, j: int| 0 <= i < j < r.len() ==> ((#[trigger] r[i]).order < (#[trigger] r[j]).order
        || (r[i].order == r[j].order && r[i].sequence < r[j].sequence))
}

/// The stages not owned by `scope`, in their order.
pub open spec fn stages_kept(ss: Seq<StageEntry>, scope: u64) -> Seq<StageEntry>
    decreases ss.len(),
{
    if ss.len() == 0 {
        Seq::<StageEntry>::empty()
    } else {
        let kept = stages_kept(ss.drop_last(), scope);
        if ss.last().scope == scope { kept } else { kept.push(ss.last()) }
    }
}

/// A stage registration refused with an error message.
pub open spec fn stage_refused(r: Result<u64, String>, message: Seq<char>) -> bool {
    r matches Err(m) && m@ == message
}

/// The error for a middleware stage registered by two packages.
pub open spec fn stage_conflict_text(root: RootKind, phase: Phase, id: Seq<char>, left: Seq<char>, right: Seq<char>) -> Seq<char> {
    conflict_text("middleware"@, root_kind_name(root), phase_name(phase) + "/"@ + id, left, right)
}

impl Registrations {
    /// Registers a middleware stage of `root` in `phase` named `id` for
    /// the package `source` in `scope`, and says which sequence number it
    /// got. The package that owns a name may register it again (the new
    /// registration replaces the old); another package may not. Refused
    /// too when the id is missing or blank, or when as many stages as
    /// allowed are registered already.
    pub fn register_stage(
        &mut self,
        root: RootKind,
        phase: Phase,
        id: Option<&str>,
        order: i64,
        source: &str,
        scope: u64,
    ) -> (r: Result<u64, String>)
        requires
            old(self).wf(),
            old(self).next_sequence() < u64::MAX,
        ensures
            final(self).wf(),
            match id {
                None => stage_refused(r, "middleware id must be a non-empty string"@) && *final(self) == *old(self),
                Some(id) => {
                    let ss = old(self).stages();
                    let found = exists|i: int| stage_key_at(ss, i, root, phase, id@);
                    let i = choose|i: int| stage_key_at(ss, i, root, phase, id@);
                    &&& blank(id@) ==> stage_refused(r, "middleware id must be a non-empty string"@) && *final(self) == *old(self)
                    &&& !blank(id@) && found && ss[i].source@ != source@ ==> stage_refused(r,
                        stage_conflict_text(root, phase, id@, source@, ss[i].source@)) && *final(self) == *old(self)
                    &&& !blank(id@) && !(found && ss[i].source@ != source@) && ss.len() >= MAX_MIDDLEWARE_STAGES ==> stage_refused(r,
                        "middleware registrations exceed 64 stages"@) && *final(self) == *old(self)
                    &&& !blank(id@) && !(found && ss[i].source@ != source@) && ss.len() < MAX_MIDDLEWARE_STAGES ==> {
                        &&& r == Ok::<u64, String>(old(self).next_sequence())
                        &&& final(self).next_sequence() == old(self).next_sequence() + 1
                        &&& final(self).roots() == old(self).roots()
                        &&& final(self).declarations() == old(self).declarations()
                        &&& found ==> final(self).stages().len() == ss.len() && forall|k: int| 0 <= k < ss.len() && k != i
                            ==> final(self).stages()[k] == ss[k]
                        &&& found ==> stage_is(final(self).stages()[i], root, phase, id@, order, source@, scope, old(self).next_sequence())
                        &&& !found ==> final(self).stages().drop_last() == ss && final(self).stages().len() == ss.len() + 1
                        &&& !found ==> stage_is(final(self).stages().last(), root, phase, id@, order, source@, scope, old(self).next_sequence())
                    }
                },
            },
    {
        let id = match id {
            Some(id) => id,
            None => {
                return Err(text_of("middleware id must be a non-empty string"));
            },
        };
        if is_blank(id) {
            return Err(text_of("middleware id must be a non-empty string"));
        }
        let ghost ss = self.stages@;
        let mut found: Option<usize> = None;
        let mut i: usize = 0;
        while i < self.stages.len()
            invariant_except_break
                found is None,
            invariant
                i <= ss.len(),
                ss == self.stages@,
                *self == *old(self),
                old(self).wf(),
                forall|k: int| 0 <= k < i ==> !stage_key_at(ss, k, root, phase, id@),
            ensures
                match found {
                    Some(f) => stage_key_at(ss, f as int, root, phase, id@),
                    None => forall|k: int| 0 <= k < ss.len() ==> !stage_key_at(ss, k, root, phase, id@),
                },
            decreases ss.len() - i,
        {
            if self.stages[i].root == root && self.stages[i].phase == phase && same_text(&self.stages[i].id, id) {
                found = Some(i);
                break;
            }
            i += 1;
        }
        proof {
            if let Some(f) = found {
                assert forall|k: int| stage_key_at(ss, k, root, phase, id@) implies k == f by {
                    if k != f {
                        if k < f {
                            assert(!(ss[k].root == ss[f as int].root && ss[k].phase == ss[f as int].phase && ss[k].id@ == ss[f as int].id@));
                        } else {
                            assert(!(ss[f as int].root == ss[k].root && ss[f as int].phase == ss[k].phase && ss[f as int].id@ == ss[k].id@));
                        }
                    }
                }
            }
        }
        if let Some(f) = found {
            if !same_text(&self.stages[f].source, source) {
                let mut family = chars_of(phase.name());
                extend_chars(&mut family, &chars_of("/"));
                extend_chars(&mut family, &chars_of(id));
                let family_text = string_of(family.as_slice());
                return Err(conflict_message("middleware", root.as_str(), family_text.as_str(), source, self.stages[f].source.as_str()));
            }
        }
        if self.stages.len() >= MAX_MIDDLEWARE_STAGES {
            return Err(text_of("middleware registrations exceed 64 stages"));
        }
        let sequence = self.next_sequence;
        let entry = StageEntry { root, phase, id: text_of(id), order, source: text_of(source), scope, sequence };
        match found {
            Some(f) => {
                self.stages.set(f, entry);
            },
            None => {
                self.stages.push(entry);
                assert(self.stages@.drop_last() =~= ss);
            },
        }
        self.next_sequence = sequence + 1;
        proof {
            assert forall|a: int, b: int| 0 <= a < b < self.stages@.len() implies !(#[trigger] self.stages@[a].root
                == #[trigger] self.stages@[b].root && self.stages@[a].phase == self.stages@[b].phase
                && self.stages@[a].id@ == self.stages@[b].id@) by {
                match found {
                    Some(f) => {
                        if a == f {
                            assert(!stage_key_at(ss, b, root, phase, id@) || b == f);
                        } else if b == f {
                            assert(!stage_key_at(ss, a, root, phase, id@) || a == f);
                        } else {
                            assert(self.stages@[a] == ss[a] && self.stages@[b] == ss[b]);
                        }
                    },
                    None => {
                        if b == ss.len() {
                            assert(!stage_key_at(ss, a, root, phase, id@));
                        } else {
                            assert(self.stages@[a] == ss[a] && self.stages@[b] == ss[b]);
                        }
                    },
                }
            }
            assert forall|a: int, b: int| 0 <= a < b < self.stages@.len() implies #[trigger] self.stages@[a].sequence
                != #[trigger] self.stages@[b].sequence by {
                match found {
                    Some(f) => {
                        if a != f && b != f {
                            assert(self.stages@[a] == ss[a] && self.stages@[b] == ss[b]);
                        } else if a == f {
                            assert(ss[b].sequence < sequence);
                        } else {
                            assert(ss[a].sequence < sequence);
                        }
                    },
                    None => {
                        if b == ss.len() {
                            assert(ss[a].sequence < sequence);
                        } else {
                            assert(self.stages@[a] == ss[a] && self.stages@[b] == ss[b]);
                        }
                    },
                }
            }
            assert forall|a: int| 0 <= a < self.stages@.len() implies #[trigger] self.stages@[a].sequence < self.next_sequence by {
                if self.stages@[a].sequence != sequence {
                    match found {
                        Some(f) => {
                            assert(self.stages@[a] == ss[a]);
                        },
                        None => {
                            assert(self.stages@[a] == ss[a]);
                        },
                    }
                }
            }
        }
        Ok(sequence)
    }

    /// The stages of `root` in `phase`, in the order they run: by order,
    /// then by registration.
    pub fn resolve_stages(&self, root: RootKind, phase: Phase) -> (r: Vec<StageEntry>)
        requires
            self.wf(),
        ensures
            stages_in_order(r@, self.stages(), root, phase),
    {
        let ghost ss = self.stages@;
        let mut picked: Vec<usize> = Vec::new();
        let mut j: usize = 0;
        while j < self.stages.len()
            invariant
                j <= ss.len(),
                ss == self.stages@,
                picked@.len() == stage_count(ss.take(j as int), root, phase),
                forall|k: int| 0 <= k < picked@.len() ==> picked@[k] < j && ss[#[trigger] picked@[k] as int].root == root
                    && ss[picked@[k] as int].phase == phase,
                forall|a: int, b: int| 0 <= a < b < picked@.len() ==> #[trigger] picked@[a] < #[trigger] picked@[b],
            decreases ss.len() - j,
        {
            assert(ss.take(j + 1).drop_last() =~= ss.take(j as int));
            if self.stages[j].root == root && self.stages[j].phase == phase {
                picked.push(j);
            }
            j += 1;
        }
        assert(ss.take(ss.len() as int) =~= ss);
        let mut keys: Vec<SortKey> = Vec::new();
        let mut k: usize = 0;
        while k < picked.len()
            invariant
                k <= picked@.len(),
                ss == self.stages@,
                forall|m: int| 0 <= m < picked@.len() ==> picked@[m] < ss.len(),
                keys@.len() == k,
                forall|m: int| 0 <= m < k ==> #[trigger] key_view(keys@[m]) == (ss[picked@[m] as int].order as int,
                    ss[picked@[m] as int].sequence as int, Seq::<char>::empty(), Seq::<char>::empty()),
            decreases picked@.len() - k,
        {
            let e = &self.stages[picked[k]];
            let none: Vec<char> = Vec::new();
            let also_none: Vec<char> = Vec::new();
            keys.push(SortKey { rank: e.order, tie: e.sequence, first: none, second: also_none });
            k += 1;
        }
        let order = sort_indices(&keys);
        let ghost kv = keys_view(keys@);
        let mut out: Vec<StageEntry> = Vec::new();
        let mut m: usize = 0;
        while m < order.len()
            invariant
                m <= order@.len(),
                ss == self.stages@,
                self.wf(),
                sorted_indices_of(kv, keys@.len() as int, order@),
                kv == keys_view(keys@),
                keys@.len() == picked@.len(),
                picked@.len() == stage_count(ss, root, phase),
                forall|q: int| 0 <= q < picked@.len() ==> picked@[q] < ss.len() && ss[#[trigger] picked@[q] as int].root == root
                    && ss[picked@[q] as int].phase == phase,
                forall|a: int, b: int| 0 <= a < b < picked@.len() ==> #[trigger] picked@[a] < #[trigger] picked@[b],
                forall|q: int| 0 <= q < keys@.len() ==> #[trigger] key_view(keys@[q]) == (ss[picked@[q] as int].order as int,
                    ss[picked@[q] as int].sequence as int, Seq::<char>::empty(), Seq::<char>::empty()),
                out@.len() == m,
                forall|q: int| 0 <= q < m ==> same_stage(#[trigger] out@[q], ss[picked@[order@[q] as int] as int]),
            decreases order@.len() - m,
        {
            out.push(copy_stage(&self.stages[picked[order[m]]]));
            m += 1;
        }
        proof {
            assert forall|a: int| 0 <= a < out@.len() implies exists|x: int| 0 <= x < ss.len() && ss[x].root == root
                && ss[x].phase == phase && same_stage(#[trigger] out@[a], ss[x]) by {
                let x = picked@[order@[a] as int] as int;
                assert(same_stage(out@[a], ss[x]));
            }
            assert forall|a: int, b: int| 0 <= a < b < out@.len() implies ((#[trigger] out@[a]).order < (#[trigger] out@[b]).order
                || (out@[a].order == out@[b].order && out@[a].sequence < out@[b].sequence)) by {
                let oa = order@[a] as int;
                let ob = order@[b] as int;
                assert(crate::order::index_before(kv, oa, ob));
                crate::order::lemma_key_lt_order(kv[oa], kv[ob], kv[ob]);
                crate::order::lemma_text_lt_asymmetric(Seq::<char>::empty(), Seq::<char>::empty());
                assert(kv[oa] == key_view(keys@[oa]));
                assert(kv[ob] == key_view(keys@[ob]));
                let xa = picked@[oa] as int;
                let xb = picked@[ob] as int;
                if kv[oa] == kv[ob] {
                    if oa < ob {
                        assert(xa < xb);
                    } else {
                        assert(xb < xa);
                    }
                    assert(ss[xa].sequence != ss[xb].sequence);
                }
            }
        }
        out
    }

    /// Drops the middleware stages of a scope.
    pub fn remove_scope(&mut self, scope: u64)
        requires
            old(self).wf(),
        ensures
            final(self).wf(),
            final(self).stages().len() == stages_kept(old(self).stages(), scope).len(),
            forall|i: int| 0 <= i < final(self).stages().len() ==> same_stage(#[trigger] final(self).stages()[i], stages_kept(old(self).stages(), scope)[i]),
            final(self).roots() == old(self).roots(),
            final(self).declarations() == old(self).declarations(),
            final(self).next_sequence() == old(self).next_sequence(),
    {
        let ghost ss = self.stages@;
        let mut kept: Vec<StageEntry> = Vec::new();
        let ghost mut pos: Seq<int> = Seq::empty();
        let mut i: usize = 0;
        assert(ss.take(0) =~= Seq::<StageEntry>::empty());
        while i < self.stages.len()
            invariant
                i <= ss.len(),
                ss == self.stages@,
                *self == *old(self),
                kept@.len() == stages_kept(ss.take(i as int), scope).len(),
                forall|k: int| 0 <= k < kept@.len() ==> same_stage(#[trigger] kept@[k], stages_kept(ss.take(i as int), scope)[k]),
                pos.len() == kept@.len(),
                forall|k: int| 0 <= k < pos.len() ==> 0 <= #[trigger] pos[k] < i && same_stage(kept@[k], ss[pos[k]]),
                forall|a: int, b: int| 0 <= a < b < pos.len() ==> #[trigger] pos[a] < #[trigger] pos[b],
            decreases ss.len() - i,
        {
            let ghost t = ss.take(i + 1);
            assert(t.drop_last() =~= ss.take(i as int));
            assert(t.last() == ss[i as int]);
            if self.stages[i].scope != scope {
                kept.push(copy_stage(&self.stages[i]));
                proof {
                    pos = pos.push(i as int);
                }
            }
            i += 1;
        }
        assert(ss.take(ss.len() as int) =~= ss);
        self.stages = kept;
        proof {
            assert forall|a: int, b: int| 0 <= a < b < self.stages@.len() implies !(#[trigger] self.stages@[a].root
                == #[trigger] self.stages@[b].root && self.stages@[a].phase == self.stages@[b].phase
                && self.stages@[a].id@ == self.stages@[b].id@) by {
                assert(pos[a] < pos[b]);
                assert(!(ss[pos[a]].root == ss[pos[b]].root && ss[pos[a]].phase == ss[pos[b]].phase && ss[pos[a]].id@ == ss[pos[b]].id@));
            }
            assert forall|a: int, b: int| 0 <= a < b < self.stages@.len() implies #[trigger] self.stages@[a].sequence
                != #[trigger] self.stages@[b].sequence by {
                assert(pos[a] < pos[b]);
                assert(ss[pos[a]].sequence != ss[pos[b]].sequence);
            }
            assert forall|a: int| 0 <= a < self.stages@.len() implies #[trigger] self.stages@[a].sequence < self.next_sequence by {
                assert(ss[pos[a]].sequence < self.next_sequence);
            }
        }
    }
}

/// After a package's names are dropped, no root or declaration of it
/// remains, and every other one does.
pub proof fn law_removed_source_leaves_none(rs: Seq<RootEntry>, ds: Seq<DeclarationEntry>, source: Seq<char>)
    ensures
        forall|i: int| 0 <= i < roots_kept(rs, source).len() ==> (#[trigger] roots_kept(rs, source)[i]).source@ != source,
        forall|i: int| 0 <= i < declarations_kept(ds, source).len() ==> (#[trigger] declarations_kept(ds, source)[i]).source@ != source,
        roots_kept(rs, source).len() + root_count_of(rs, source) == rs.len(),
    decreases rs.len() + ds.len(),
{
    if rs.len() > 0 {
        law_removed_source_leaves_none(rs.drop_last(), ds, source);
    }
    if ds.len() > 0 {
        law_removed_source_leaves_none(rs, ds.drop_last(), source);
    }
}

/// How many roots `source` owns.
pub open spec fn root_count_of(rs: Seq<RootEntry>, source: Seq<char>) -> nat
    decreases rs.len(),
{
    if rs.len() == 0 {
        0
    } else {
        root_count_of(rs.drop_last(), source) + if rs.last().source@ == source { 1nat } else { 0nat }
    }
}

/// After a scope's stages are dropped, none of them remains.
pub proof fn law_removed_scope_leaves_none(ss: Seq<StageEntry>, scope: u64)
    ensures
        forall|i: int| 0 <= i < stages_kept(ss, scope).len() ==> (#[trigger] stages_kept(ss, scope)[i]).scope != scope,
    decreases ss.len(),
{
    if ss.len() > 0 {
        law_removed_scope_leaves_none(ss.drop_last(), scope);
    }
}

} // verus!
