//! One dispatch: the actions and effects a root queues, the batch they
//! are published as, and the middleware stages around the root.
//!
//! Event stages run before the root: each sees the event and the actions
//! queued so far, may replace either, and may stop the chain (the queued
//! actions then become the batch). Render stages run after it and may
//! replace the settled actions; an empty list suppresses them all.

use vstd::prelude::*;

use crate::error::{decimal_digits, push_unsigned, HostError};
use crate::json::{jview, seq_find, seq_get, JView, JsonNumber, JsonObject, JsonValue};
use crate::kernel::{root_kind_name, Generation, RootKind, ScopeId, KERNEL_API_VERSION, MAX_BATCH_ITEMS, MAX_ITEM_BYTES};
use crate::registry::{blank, phase_name, Phase};
use crate::text::{chars_of, extend_chars, spec_trim, string_of, trim_chars};

verus! {

/// An action queued by a root or a stage.
pub struct Action {
    pub sequence: u64,
    pub kind: String,
    pub payload: JsonValue,
}

/// An effect queued by a root, owned by the dispatch's scope.
pub struct Effect {
    pub sequence: u64,
    pub kind: String,
    pub payload: JsonValue,
    pub scope: ScopeId,
}

/// What one dispatch publishes.
pub struct DispatchBatch {
    pub version: u32,
    pub generation: Generation,
    pub scope: ScopeId,
    pub source: String,
    pub actions: Vec<Action>,
    pub effects: Vec<Effect>,
}

/// An action as plain values: sequence, kind, payload.
pub open spec fn action_view(a: Action) -> (u64, Seq<char>, JView) {
    (a.sequence, a.kind@, jview(a.payload))
}

/// Actions as plain values.
pub open spec fn actions_view(v: Seq<Action>) -> Seq<(u64, Seq<char>, JView)> {
    Seq::new(v.len(), |i: int| action_view(v[i]))
}

/// An effect as plain values: sequence, kind, payload.
pub open spec fn effect_view(e: Effect) -> (u64, Seq<char>, JView) {
    (e.sequence, e.kind@, jview(e.payload))
}

/// Effects as plain values.
pub open spec fn effects_view(v: Seq<Effect>) -> Seq<(u64, Seq<char>, JView)> {
    Seq::new(v.len(), |i: int| effect_view(v[i]))
}

/// Which list an item is queued on.
#[derive(Debug, Clone, Copy, PartialEq, Eq, Structural)]
pub enum QueueList {
    Actions,
    Effects,
}

/// The name of a list.
pub open spec fn list_name(l: QueueList) -> Seq<char> {
    match l {
        QueueList::Actions => "actions"@,
        QueueList::Effects => "effects"@,
    }
}

/// The queues of the dispatch in progress.
pub struct Transaction {
    generation: Generation,
    scope: ScopeId,
    next_sequence: u64,
    actions: Vec<Action>,
    effects: Vec<Effect>,
}

/// Why an item could not be queued, when it could not.
pub open spec fn queue_refusal(list: QueueList, kind: Seq<char>, encoded_len: nat, queued: nat) -> Option<Seq<char>> {
    if blank(kind) {
        Some("action/effect kind must be a non-empty string"@)
    } else if encoded_len > MAX_ITEM_BYTES {
        Some("action/effect payload exceeds 1048576 bytes"@)
    } else if queued >= MAX_BATCH_ITEMS {
        Some("dispatch exceeds 1024 queued "@ + list_name(list))
    } else {
        None
    }
}

fn text_of(s: &str) -> (r: String)
    ensures
        r@ == s@,
{
    string_of(chars_of(s).as_slice())
}

impl Transaction {
    /// The generation the dispatch runs in.
    pub closed spec fn generation(self) -> Generation {
        self.generation
    }

    /// The scope of the dispatch.
    pub closed spec fn scope(self) -> ScopeId {
        self.scope
    }

    /// The actions queued so far.
    pub closed spec fn actions(self) -> Seq<(u64, Seq<char>, JView)> {
        actions_view(self.actions@)
    }

    /// The effects queued so far.
    pub closed spec fn effects(self) -> Seq<(u64, Seq<char>, JView)> {
        effects_view(self.effects@)
    }

    /// The sequence number of the next item.
    pub closed spec fn next_sequence(self) -> u64 {
        self.next_sequence
    }

    /// Each list is within the batch limit, and the items are numbered in
    /// the order they were queued.
    pub closed spec fn wf(self) -> bool {
        &&& self.actions@.len() <= MAX_BATCH_ITEMS
        &&& self.effects@.len() <= MAX_BATCH_ITEMS
        &&& self.next_sequence == self.actions@.len() + self.effects@.len()
        &&& forall|i: int| 0 <= i < self.effects@.len() ==> (#[trigger] self.effects@[i]).scope == self.scope
    }

    /// A dispatch of `scope` in `generation` with nothing queued.
    pub fn begin(generation: Generation, scope: ScopeId) -> (r: Transaction)
        ensures
            r.wf(),
            r.generation() == generation,
            r.scope() == scope,
            r.actions().len() == 0,
            r.effects().len() == 0,
            r.next_sequence() == 0,
    {
        let t = Transaction { generation, scope, next_sequence: 0, actions: Vec::new(), effects: Vec::new() };
        assert(actions_view(t.actions@) =~= Seq::<(u64, Seq<char>, JView)>::empty());
        assert(effects_view(t.effects@) =~= Seq::<(u64, Seq<char>, JView)>::empty());
        t
    }

    /// Queues an action or effect of `kind` whose payload encodes to
    /// `encoded_len` bytes. Refused when the kind is blank, the payload
    /// too large, or the list full; items are numbered across both lists.
    pub fn queue(&mut self, list: QueueList, kind: &str, payload: JsonValue, encoded_len: usize) -> (r: Result<(), String>)
        requires
            old(self).wf(),
        ensures
            final(self).wf(),
            final(self).generation() == old(self).generation(),
            final(self).scope() == old(self).scope(),
            match queue_refusal(list, kind@, encoded_len as nat,
                if list == QueueList::Actions { old(self).actions().len() } else { old(self).effects().len() }) {
                Some(m) => (r matches Err(e) && e@ == m) && *final(self) == *old(self),
                None => {
                    &&& r is Ok
                    &&& final(self).next_sequence() == old(self).next_sequence() + 1
                    &&& list == QueueList::Actions ==> final(self).actions() == old(self).actions().push(
                        (old(self).next_sequence(), kind@, jview(payload)),
                    ) && final(self).effects() == old(self).effects()
                    &&& list == QueueList::Effects ==> final(self).effects() == old(self).effects().push(
                        (old(self).next_sequence(), kind@, jview(payload)),
                    ) && final(self).actions() == old(self).actions()
                },
            },
    {
        if trim_chars(&chars_of(kind)).len() == 0 {
            return Err(text_of("action/effect kind must be a non-empty string"));
        }
        if encoded_len > MAX_ITEM_BYTES {
            return Err(text_of("action/effect payload exceeds 1048576 bytes"));
        }
        let queued = match list {
            QueueList::Actions => self.actions.len(),
            QueueList::Effects => self.effects.len(),
        };
        if queued >= MAX_BATCH_ITEMS {
            let mut m = chars_of("dispatch exceeds 1024 queued ");
            match list {
                QueueList::Actions => extend_chars(&mut m, &chars_of("actions")),
                QueueList::Effects => extend_chars(&mut m, &chars_of("effects")),
            }
            return Err(string_of(m.as_slice()));
        }
        let sequence = self.next_sequence;
        let ghost before_actions = self.actions@;
        let ghost before_effects = self.effects@;
        match list {
            QueueList::Actions => {
                self.actions.push(Action { sequence, kind: text_of(kind), payload });
                assert(actions_view(self.actions@) =~= actions_view(before_actions).push(action_view(self.actions@.last())));
            },
            QueueList::Effects => {
                let scope = self.scope;
                self.effects.push(Effect { sequence, kind: text_of(kind), payload, scope });
                assert(effects_view(self.effects@) =~= effects_view(before_effects).push(effect_view(self.effects@.last())));
                assert forall|i: int| 0 <= i < self.effects@.len() implies (#[trigger] self.effects@[i]).scope == self.scope by {
                    if i < before_effects.len() {
                        assert(self.effects@[i] == before_effects[i]);
                    }
                }
            },
        }
        self.next_sequence = sequence + 1;
        Ok(())
    }

    /// The batch of the finished dispatch, published for `source`: the
    /// queued actions and effects in the order they were queued.
    pub fn finish(self, source: String) -> (r: DispatchBatch)
        requires
            self.wf(),
        ensures
            r.version == KERNEL_API_VERSION,
            r.generation == self.generation(),
            r.scope == self.scope(),
            r.source@ == source@,
            actions_view(r.actions@) == self.actions(),
            effects_view(r.effects@) == self.effects(),
            forall|i: int| 0 <= i < r.effects@.len() ==> (#[trigger] r.effects@[i]).scope == self.scope(),
    {
        DispatchBatch {
            version: KERNEL_API_VERSION,
            generation: self.generation,
            scope: self.scope,
            source,
            actions: self.actions,
            effects: self.effects,
        }
    }
}

/// The kind of an action given as JSON: its `kind` string.
pub open spec fn action_kind(v: JView) -> Option<Seq<char>> {
    match v {
        JView::Obj(es) => match seq_get(es, "kind"@) {
            Some(JView::Str(k)) => Some(k),
            _ => None,
        },
        _ => None,
    }
}

/// An action given as JSON has a kind that is not blank.
pub open spec fn valid_action(v: JView) -> bool {
    action_kind(v) matches Some(k) && !blank(k)
}

/// The payload of an action given as JSON; null when it has none.
pub open spec fn action_payload(v: JView) -> JView {
    match v {
        JView::Obj(es) => match seq_get(es, "payload"@) {
            Some(p) => p,
            None => JView::Null,
        },
        _ => JView::Null,
    }
}

/// The error of a middleware stage, naming the root, phase and stage.
pub open spec fn stage_error(root: RootKind, phase: Phase, sequence: u64, what: Seq<char>) -> Seq<char> {
    "middleware "@ + root_kind_name(root) + "/"@ + phase_name(phase) + " stage "@ + decimal_digits(sequence as nat) + what
}

fn stage_error_text(root: RootKind, phase: Phase, sequence: u64, what: &str) -> (r: String)
    ensures
        r@ == stage_error(root, phase, sequence, what@),
{
    let mut m = chars_of("middleware ");
    extend_chars(&mut m, &chars_of(root.as_str()));
    extend_chars(&mut m, &chars_of("/"));
    extend_chars(&mut m, &chars_of(phase.name()));
    extend_chars(&mut m, &chars_of(" stage "));
    push_unsigned(&mut m, sequence);
    extend_chars(&mut m, &chars_of(what));
    string_of(m.as_slice())
}

/// What a stage returned: its table, an empty one for nil, an error
/// for anything else.
pub fn stage_reply(returned: JsonValue, root: RootKind, phase: Phase, sequence: u64) -> (r: Result<JsonObject, HostError>)
    ensures
        match jview(returned) {
            JView::Null => r matches Ok(o) && o.entries_view() == Seq::<(Seq<char>, JView)>::empty(),
            JView::Obj(es) => r matches Ok(o) && o.entries_view() == es,
            _ => r matches Err(HostError::Lua(m)) && m@ == stage_error(root, phase, sequence, " must return a table or nil"@),
        },
{
    match returned {
        JsonValue::Null => Ok(JsonObject::new()),
        JsonValue::Object(o) => Ok(o),
        _ => Err(HostError::Lua(stage_error_text(root, phase, sequence, " must return a table or nil"))),
    }
}

fn action_kind_of(v: &JsonValue) -> (r: Option<String>)
    ensures
        match r {
            Some(k) => action_kind(jview(*v)) == Some(k@),
            None => action_kind(jview(*v)) is None,
        },
{
    match v {
        JsonValue::Object(o) => match o.get("kind") {
            Some(JsonValue::String(k)) => Some(k.clone()),
            _ => None,
        },
        _ => None,
    }
}

fn action_payload_of(v: &JsonValue) -> (r: JsonValue)
    ensures
        jview(r) == action_payload(jview(*v)),
{
    match v {
        JsonValue::Object(o) => match o.get("payload") {
            Some(p) => p.copy(),
            None => JsonValue::Null,
        },
        _ => JsonValue::Null,
    }
}

/// The actions a stage returned, checked: at most a batch of them, each
/// with a kind.
pub fn replacement_actions(values: &Vec<JsonValue>, root: RootKind, phase: Phase, sequence: u64) -> (r: Result<Vec<JsonValue>, HostError>)
    ensures
        values@.len() > MAX_BATCH_ITEMS ==> (r matches Err(HostError::Lua(m))
            && m@ == stage_error(root, phase, sequence, " returned more than 1024 actions"@)),
        values@.len() <= MAX_BATCH_ITEMS && (exists|i: int| 0 <= i < values@.len() && !valid_action(jview(#[trigger] values@[i])))
            ==> (r matches Err(HostError::Lua(m)) && m@ == stage_error(root, phase, sequence, " returned an action without a kind"@)),
        values@.len() <= MAX_BATCH_ITEMS && (forall|i: int| 0 <= i < values@.len() ==> valid_action(jview(#[trigger] values@[i])))
            ==> (r matches Ok(v) && crate::json::jviews(v@) == crate::json::jviews(values@)),
{
    if values.len() > MAX_BATCH_ITEMS {
        return Err(HostError::Lua(stage_error_text(root, phase, sequence, " returned more than 1024 actions")));
    }
    let mut i: usize = 0;
    while i < values.len()
        invariant
            i <= values@.len(),
            values@.len() <= MAX_BATCH_ITEMS,
            forall|k: int| 0 <= k < i ==> valid_action(jview(#[trigger] values@[k])),
        decreases values@.len() - i,
    {
        let valid = match action_kind_of(&values[i]) {
            Some(k) => trim_chars(&chars_of(k.as_str())).len() > 0,
            None => false,
        };
        if !valid {
            assert(!valid_action(jview(values@[i as int])));
            return Err(HostError::Lua(stage_error_text(root, phase, sequence, " returned an action without a kind")));
        }
        i += 1;
    }
    Ok(crate::json::copy_array(values))
}

/// Actions numbered in list order from the JSON a stage returned: each
/// with its kind (empty when missing) and payload (null when missing).
pub fn actions_from_values(values: &Vec<JsonValue>) -> (r: Vec<Action>)
    ensures
        r@.len() == values@.len(),
        forall|i: int| 0 <= i < values@.len() ==> action_view(#[trigger] r@[i]) == (i as u64, match action_kind(jview(values@[i])) {
            Some(k) => k,
            None => Seq::<char>::empty(),
        }, action_payload(jview(values@[i]))),
{
    let mut out: Vec<Action> = Vec::new();
    let mut i: usize = 0;
    while i < values.len()
        invariant
            i <= values@.len(),
            out@.len() == i,
            forall|k: int| 0 <= k < i ==> action_view(#[trigger] out@[k]) == (k as u64, match action_kind(jview(values@[k])) {
                Some(kd) => kd,
                None => Seq::<char>::empty(),
            }, action_payload(jview(values@[k]))),
        decreases values@.len() - i,
    {
        let kind = match action_kind_of(&values[i]) {
            Some(k) => k,
            None => String::new(),
        };
        let payload = action_payload_of(&values[i]);
        out.push(Action { sequence: i as u64, kind, payload });
        i += 1;
    }
    out
}

/// An action as the JSON a stage sees: its kind and payload.
pub open spec fn action_json(kind: Seq<char>, payload: JView) -> JView {
    JView::Obj(seq![("kind"@, JView::Str(kind)), ("payload"@, payload)])
}

/// The actions as the JSON a stage sees.
pub fn json_actions(actions: &Vec<Action>) -> (r: Vec<JsonValue>)
    ensures
        r@.len() == actions@.len(),
        forall|i: int| 0 <= i < actions@.len() ==> jview(#[trigger] r@[i]) == action_json(actions@[i].kind@, jview(actions@[i].payload)),
{
    let mut out: Vec<JsonValue> = Vec::new();
    let mut i: usize = 0;
    while i < actions.len()
        invariant
            i <= actions@.len(),
            out@.len() == i,
            forall|k: int| 0 <= k < i ==> jview(#[trigger] out@[k]) == action_json(actions@[k].kind@, jview(actions@[k].payload)),
        decreases actions@.len() - i,
    {
        proof {
            reveal_strlit("kind");
            reveal_strlit("payload");
            assert("kind"@.len() == 4 && "payload"@.len() == 7);
        }
        let mut o = JsonObject::new();
        o.insert("kind", JsonValue::String(actions[i].kind.clone()));
        let ghost e1 = o.entries_view();
        assert(e1 =~= seq![("kind"@, JView::Str(actions@[i as int].kind@))]);
        proof {
            crate::json::lemma_seq_find(e1, "payload"@);
        }
        o.insert("payload", actions[i].payload.copy());
        proof {
            assert(o.entries_view() =~= seq![("kind"@, JView::Str(actions@[i as int].kind@)), ("payload"@, jview(actions@[i as int].payload))]);
        }
        out.push(JsonValue::Object(o));
        i += 1;
    }
    out
}

/// The snapshot a stage receives.
pub open spec fn snapshot_entries(root: RootKind, phase: Phase, event: JView, context: Option<JView>, actions: Seq<JView>) -> Seq<(Seq<char>, JView)> {
    let head = seq![
        ("version"@, JView::Number(JsonNumber::PosInt(KERNEL_API_VERSION as u64))),
        ("root"@, JView::Str(root_kind_name(root))),
        ("phase"@, JView::Str(phase_name(phase))),
        ("event"@, event),
    ];
    match context {
        Some(c) => head + seq![("context"@, c), ("actions"@, JView::Arr(actions))],
        None => head + seq![("actions"@, JView::Arr(actions))],
    }
}

/// The snapshot a stage receives: the kernel version, root, phase,
/// event, context (event stages only) and the actions so far.
pub fn stage_snapshot(root: RootKind, phase: Phase, event: &JsonValue, context: Option<&JsonValue>, actions: &Vec<JsonValue>) -> (r: JsonValue)
    ensures
        jview(r) == JView::Obj(snapshot_entries(root, phase, jview(*event), match context {
            Some(c) => Some(jview(*c)),
            None => None,
        }, crate::json::jviews(actions@))),
{
    proof {
        reveal_strlit("version");
        reveal_strlit("root");
        reveal_strlit("phase");
        reveal_strlit("event");
        reveal_strlit("context");
        reveal_strlit("actions");
    }
    proof {
        assert("version"@.len() == 7 && "root"@.len() == 4 && "phase"@.len() == 5 && "event"@.len() == 5);
        assert("context"@.len() == 7 && "actions"@.len() == 7);
        assert("version"@[0] == 'v' && "context"@[0] == 'c' && "actions"@[0] == 'a');
        assert("phase"@[0] == 'p' && "event"@[0] == 'e');
    }
    let mut o = JsonObject::new();
    let ghost e0 = o.entries_view();
    assert(seq_find(e0, "version"@) is None);
    o.insert("version", JsonValue::Number(JsonNumber::PosInt(KERNEL_API_VERSION as u64)));
    let ghost e1 = o.entries_view();
    proof {
        crate::json::lemma_seq_find(e1, "root"@);
    }
    o.insert("root", JsonValue::String(text_of(root.as_str())));
    let ghost e2 = o.entries_view();
    proof {
        crate::json::lemma_seq_find(e2, "phase"@);
    }
    o.insert("phase", JsonValue::String(text_of(phase.name())));
    let ghost e3 = o.entries_view();
    proof {
        crate::json::lemma_seq_find(e3, "event"@);
    }
    o.insert("event", event.copy());
    let ghost e4 = o.entries_view();
    proof {
        crate::json::lemma_seq_find(e4, "context"@);
        crate::json::lemma_seq_find(e4, "actions"@);
    }
    match context {
        Some(c) => {
            o.insert("context", c.copy());
            proof {
                crate::json::lemma_seq_find(o.entries_view(), "actions"@);
            }
        },
        None => {},
    }
    o.insert("actions", JsonValue::Array(crate::json::copy_array(actions)));
    let ghost ctx = match context {
        Some(c) => Some(jview(*c)),
        None => None::<JView>,
    };
    assert(o.entries_view() =~= snapshot_entries(root, phase, jview(*event), ctx, crate::json::jviews(actions@)));
    JsonValue::Object(o)
}

/// The actions numbered from the JSON a stage returned, as plain values.
pub open spec fn actions_from(vals: Seq<JView>) -> Seq<(u64, Seq<char>, JView)> {
    Seq::new(vals.len(), |i: int| (i as u64, match action_kind(vals[i]) {
        Some(k) => k,
        None => Seq::<char>::empty(),
    }, action_payload(vals[i])))
}

/// The actions a stage returned pass the checks.
pub open spec fn acceptable_actions(vals: Seq<JView>) -> bool {
    vals.len() <= MAX_BATCH_ITEMS && forall|i: int| 0 <= i < vals.len() ==> valid_action(#[trigger] vals[i])
}

/// The error for actions a stage returned that fail the checks.
pub open spec fn actions_error(vals: Seq<JView>, root: RootKind, phase: Phase, sequence: u64) -> Seq<char> {
    if vals.len() > MAX_BATCH_ITEMS {
        stage_error(root, phase, sequence, " returned more than 1024 actions"@)
    } else {
        stage_error(root, phase, sequence, " returned an action without a kind"@)
    }
}

fn checked_actions(values: &Vec<JsonValue>, root: RootKind, phase: Phase, sequence: u64) -> (r: Result<Vec<JsonValue>, HostError>)
    ensures
        acceptable_actions(crate::json::jviews(values@)) ==> (r matches Ok(v) && crate::json::jviews(v@) == crate::json::jviews(values@)),
        !acceptable_actions(crate::json::jviews(values@)) ==> (r matches Err(HostError::Lua(m))
            && m@ == actions_error(crate::json::jviews(values@), root, phase, sequence)),
{
    proof {
        crate::json::lemma_jviews(values@);
    }
    let r = replacement_actions(values, root, phase, sequence);
    proof {
        let vs = crate::json::jviews(values@);
        if vs.len() <= MAX_BATCH_ITEMS && !acceptable_actions(vs) {
            let i = choose|i: int| 0 <= i < vs.len() && !valid_action(#[trigger] vs[i]);
            assert(!valid_action(jview(values@[i])));
        }
        if acceptable_actions(vs) {
            assert forall|i: int| 0 <= i < values@.len() implies valid_action(jview(#[trigger] values@[i])) by {
                assert(valid_action(vs[i]));
            }
        }
    }
    r
}

fn numbered_actions(values: &Vec<JsonValue>) -> (r: Vec<Action>)
    ensures
        actions_view(r@) == actions_from(crate::json::jviews(values@)),
{
    proof {
        crate::json::lemma_jviews(values@);
    }
    let r = actions_from_values(values);
    assert(actions_view(r@) =~= actions_from(crate::json::jviews(values@)));
    r
}

/// The event middleware chain in progress: the event after the stages
/// so far, the actions they queued, and whether one stopped the chain.
pub struct EventPipeline {
    pub stopped: bool,
    pub event: JsonValue,
    pub actions: Vec<Action>,
}

impl EventPipeline {
    /// A chain that has run no stage yet.
    pub fn new(event: JsonValue) -> (r: EventPipeline)
        ensures
            !r.stopped,
            jview(r.event) == jview(event),
            r.actions@.len() == 0,
    {
        EventPipeline { stopped: false, event, actions: Vec::new() }
    }

    /// Applies the table an event stage returned: an `event` replaces the
    /// event, an `actions` array (checked) replaces the queued actions,
    /// and `stop = true` stops the chain.
    pub fn apply_reply(&mut self, reply: &JsonObject, root: RootKind, sequence: u64) -> (r: Result<(), HostError>)
        ensures
            jview(final(self).event) == match seq_get(reply.entries_view(), "event"@) {
                Some(e) => e,
                None => jview(old(self).event),
            },
            match seq_get(reply.entries_view(), "actions"@) {
                Some(JView::Arr(vals)) => if acceptable_actions(vals) {
                    actions_view(final(self).actions@) == actions_from(vals)
                } else {
                    (r matches Err(HostError::Lua(m)) && m@ == actions_error(vals, root, Phase::Event, sequence))
                        && actions_view(final(self).actions@) == actions_view(old(self).actions@)
                        && final(self).stopped == old(self).stopped
                },
                _ => actions_view(final(self).actions@) == actions_view(old(self).actions@),
            },
            r is Ok ==> final(self).stopped == (old(self).stopped || seq_get(reply.entries_view(), "stop"@) == Some(JView::Bool(true))),
    {
        match reply.get("event") {
            Some(e) => {
                self.event = e.copy();
            },
            None => {},
        }
        match reply.get("actions") {
            Some(JsonValue::Array(values)) => {
                let checked = checked_actions(values, root, Phase::Event, sequence);
                match checked {
                    Ok(v) => {
                        let numbered = numbered_actions(&v);
                        self.actions = numbered;
                    },
                    Err(e) => {
                        return Err(e);
                    },
                }
            },
            _ => {},
        }
        match reply.get("stop") {
            Some(JsonValue::Bool(true)) => {
                self.stopped = true;
            },
            _ => {},
        }
        Ok(())
    }
}

/// Applies the table a render stage returned: an `actions` array
/// (checked) replaces the actions; an empty one suppresses them all.
pub fn apply_render_reply(actions: &mut Vec<JsonValue>, reply: &JsonObject, root: RootKind, sequence: u64) -> (r: Result<(), HostError>)
    ensures
        match seq_get(reply.entries_view(), "actions"@) {
            Some(JView::Arr(vals)) => if acceptable_actions(vals) {
                r is Ok && crate::json::jviews(final(actions)@) == vals
            } else {
                (r matches Err(HostError::Lua(m)) && m@ == actions_error(vals, root, Phase::Render, sequence))
                    && crate::json::jviews(final(actions)@) == crate::json::jviews(old(actions)@)
            },
            _ => r is Ok && crate::json::jviews(final(actions)@) == crate::json::jviews(old(actions)@),
        },
{
    match reply.get("actions") {
        Some(JsonValue::Array(values)) => {
            let checked = checked_actions(values, root, Phase::Render, sequence);
            match checked {
                Ok(v) => {
                    *actions = v;
                    Ok(())
                },
                Err(e) => Err(e),
            }
        },
        _ => Ok(()),
    }
}

/// The settled actions of a render chain, numbered in list order.
pub fn settle_actions(values: &Vec<JsonValue>) -> (r: Vec<Action>)
    ensures
        actions_view(r@) == actions_from(crate::json::jviews(values@)),
{
    numbered_actions(values)
}

} // verus!
