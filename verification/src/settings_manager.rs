//! Settings: global settings overridden by trusted project settings with a
//! one-level nested merge, migrations of old formats, and typed access
//! with defaults.
//!
//! Loading and saving the configuration files is the host's part: the
//! manager takes what was loaded and tells which fields changed since the
//! last save.

use vstd::prelude::*;

use crate::json::{
    entries_map, jview, lemma_seq_find, obj_map, seq_find, seq_get, seq_insert, seq_remove, JView, JsonNumber,
    JsonObject, JsonValue,
};
use crate::text::{chars_eq, chars_of, string_of};

verus! {

/// The idle timeout of HTTP connections when none is configured.
pub const DEFAULT_HTTP_IDLE_TIMEOUT_MS: u64 = 300_000;

/// The two settings scopes.
#[derive(Clone, Copy, Debug, PartialEq, Eq, Structural)]
pub enum SettingsScope {
    Global,
    Project,
}

impl SettingsScope {
    /// The scope's name.
    pub fn name(self) -> (r: &'static str)
        ensures
            r@ == (match self {
                SettingsScope::Global => "global"@,
                SettingsScope::Project => "project"@,
            }),
    {
        match self {
            SettingsScope::Global => "global",
            SettingsScope::Project => "project",
        }
    }
}

/// Errors of the settings layer: a storage failure, or a message.
pub enum SettingsManagerError {
    Io(String),
    Message(String),
}

impl SettingsManagerError {
    /// The error's text.
    pub fn message(&self) -> (r: String)
        ensures
            r@ == (match self {
                SettingsManagerError::Io(m) => "io error: "@ + m@,
                SettingsManagerError::Message(m) => m@,
            }),
    {
        match self {
            SettingsManagerError::Io(m) => string_of(crate::text::concat_chars(&chars_of("io error: "), &chars_of(m.as_str())).as_slice()),
            SettingsManagerError::Message(m) => string_of(chars_of(m.as_str()).as_slice()),
        }
    }
}

/// A recorded settings error and its scope.
pub struct SettingsError {
    pub scope: SettingsScope,
    pub error: String,
}

/// Options for creating a settings manager.
#[derive(Clone, Copy, Debug)]
pub struct SettingsManagerCreateOptions {
    /// Whether the project is trusted; trusted when not given.
    pub project_trusted: Option<bool>,
}

impl Default for SettingsManagerCreateOptions {
    fn default() -> (r: Self)
        ensures
            r.project_trusted is None,
    {
        SettingsManagerCreateOptions { project_trusted: None }
    }
}

/// Where settings live: the two configuration files, or memory.
pub enum SettingsStorage {
    File { global_settings_path: String, project_settings_path: String },
    InMemory { global: Option<String>, project: Option<String> },
}

impl SettingsStorage {
    /// The configuration files: `<agent_dir>/config.lua` and
    /// `<cwd>/.pi/config.lua`.
    pub fn file(cwd: &str, agent_dir: &str) -> (r: Self)
        ensures
            r matches SettingsStorage::File { global_settings_path, project_settings_path }
                && global_settings_path@ == crate::packages::path_push(agent_dir@, "config.lua"@)
                && project_settings_path@ == crate::packages::path_push(crate::packages::path_push(cwd@, ".pi"@), "config.lua"@),
    {
        let global_settings_path = crate::packages::path_join(agent_dir, "config.lua");
        let dot_pi = crate::packages::path_join(cwd, ".pi");
        let project_settings_path = crate::packages::path_join(dot_pi.as_str(), "config.lua");
        SettingsStorage::File { global_settings_path, project_settings_path }
    }

    /// Empty in-memory storage.
    pub fn in_memory() -> (r: Self)
        ensures
            r matches SettingsStorage::InMemory { global, project } && global is None && project is None,
    {
        SettingsStorage::InMemory { global: None, project: None }
    }
}

/// Compaction settings.
#[derive(Clone, Copy, Debug, PartialEq, Eq, Structural)]
pub struct CompactionSettings {
    pub enabled: bool,
    pub reserve_tokens: u64,
    pub keep_recent_tokens: u64,
}

/// Branch summary settings.
#[derive(Clone, Copy, Debug, PartialEq, Eq, Structural)]
pub struct BranchSummarySettings {
    pub reserve_tokens: u64,
    pub skip_prompt: bool,
}

/// Retry settings.
#[derive(Clone, Copy, Debug, PartialEq, Eq, Structural)]
pub struct RetrySettings {
    pub enabled: bool,
    pub max_retries: u64,
    pub base_delay_ms: u64,
}

/// Provider retry settings.
#[derive(Clone, Copy, Debug, PartialEq, Eq, Structural)]
pub struct ProviderRetrySettings {
    pub timeout_ms: Option<u64>,
    pub max_retries: Option<u64>,
    pub max_retry_delay_ms: u64,
}

/// A model's thinking level.
#[derive(Clone, Copy, Debug, PartialEq, Eq, Structural)]
pub enum ThinkingLevel {
    Off,
    Minimal,
    Low,
    Medium,
    High,
    XHigh,
    Max,
}

/// The name of a thinking level.
pub open spec fn thinking_level_name(l: ThinkingLevel) -> Seq<char> {
    match l {
        ThinkingLevel::Off => "off"@,
        ThinkingLevel::Minimal => "minimal"@,
        ThinkingLevel::Low => "low"@,
        ThinkingLevel::Medium => "medium"@,
        ThinkingLevel::High => "high"@,
        ThinkingLevel::XHigh => "xhigh"@,
        ThinkingLevel::Max => "max"@,
    }
}

impl ThinkingLevel {
    /// The level's name.
    pub fn name(self) -> (r: &'static str)
        ensures
            r@ == thinking_level_name(self),
    {
        match self {
            ThinkingLevel::Off => "off",
            ThinkingLevel::Minimal => "minimal",
            ThinkingLevel::Low => "low",
            ThinkingLevel::Medium => "medium",
            ThinkingLevel::High => "high",
            ThinkingLevel::XHigh => "xhigh",
            ThinkingLevel::Max => "max",
        }
    }
}

/// The thinking level a name gives.
pub open spec fn spec_parse_thinking_level(s: Seq<char>) -> Option<ThinkingLevel> {
    if s == "off"@ {
        Some(ThinkingLevel::Off)
    } else if s == "minimal"@ {
        Some(ThinkingLevel::Minimal)
    } else if s == "low"@ {
        Some(ThinkingLevel::Low)
    } else if s == "medium"@ {
        Some(ThinkingLevel::Medium)
    } else if s == "high"@ {
        Some(ThinkingLevel::High)
    } else if s == "xhigh"@ {
        Some(ThinkingLevel::XHigh)
    } else if s == "max"@ {
        Some(ThinkingLevel::Max)
    } else {
        None
    }
}

fn is_lit(v: &Vec<char>, lit: &str) -> (r: bool)
    ensures
        r == (v@ == lit@),
{
    chars_eq(v, &chars_of(lit))
}

/// The thinking level a name gives (`off` … `max`), if any.
pub fn parse_thinking_level(level: &str) -> (r: Option<ThinkingLevel>)
    ensures
        r == spec_parse_thinking_level(level@),
{
    let v = chars_of(level);
    if is_lit(&v, "off") {
        Some(ThinkingLevel::Off)
    } else if is_lit(&v, "minimal") {
        Some(ThinkingLevel::Minimal)
    } else if is_lit(&v, "low") {
        Some(ThinkingLevel::Low)
    } else if is_lit(&v, "medium") {
        Some(ThinkingLevel::Medium)
    } else if is_lit(&v, "high") {
        Some(ThinkingLevel::High)
    } else if is_lit(&v, "xhigh") {
        Some(ThinkingLevel::XHigh)
    } else if is_lit(&v, "max") {
        Some(ThinkingLevel::Max)
    } else {
        None
    }
}

/// `~` is the home folder and `~/rest` a path in it; other paths stay.
pub open spec fn spec_expand_tilde(path: Seq<char>, home: Seq<char>) -> Seq<char> {
    if path == "~"@ {
        home
    } else if crate::text::starts_with(path, "~/"@) {
        crate::packages::path_push(home, path.skip(2))
    } else {
        path
    }
}

/// Expands a leading `~` to the home folder (see `spec_expand_tilde`).
pub fn expand_tilde_path(path: &str, home: &str) -> (r: String)
    ensures
        r@ == spec_expand_tilde(path@, home@),
{
    proof {
        reveal_strlit("~/");
        assert("~/"@.len() == 2);
    }
    let v = chars_of(path);
    if is_lit(&v, "~") {
        return string_of(chars_of(home).as_slice());
    }
    if crate::text::starts_with_str(&v, "~/") {
        let rest = crate::text::copy_range(&v, 2, v.len());
        assert(rest@ =~= path@.skip(2));
        let rest_s = string_of(rest.as_slice());
        return crate::packages::path_join(home, rest_s.as_str());
    }
    string_of(v.as_slice())
}

// ---------------------------------------------------------------------------
// Merge
// ---------------------------------------------------------------------------

/// Entries with more entries set one by one (see `seq_insert`).
pub open spec fn insert_all(es: Seq<(Seq<char>, JView)>, more: Seq<(Seq<char>, JView)>) -> Seq<(Seq<char>, JView)>
    decreases more.len(),
{
    if more.len() == 0 {
        es
    } else {
        seq_insert(insert_all(es, more.drop_last()), more.last().0, more.last().1)
    }
}

/// The merged value of a key: when both the base value and the override
/// are objects, the base object with the override's entries set;
/// otherwise the override.
pub open spec fn merged_value(base: Seq<(Seq<char>, JView)>, k: Seq<char>, over: JView) -> JView {
    match (seq_get(base, k), over) {
        (Some(JView::Obj(bo)), JView::Obj(oo)) => JView::Obj(insert_all(bo, oo)),
        _ => over,
    }
}

/// The entries of `base` with each override set to its merged value.
pub open spec fn spec_deep_merge(base: Seq<(Seq<char>, JView)>, over: Seq<(Seq<char>, JView)>) -> Seq<(Seq<char>, JView)>
    decreases over.len(),
{
    if over.len() == 0 {
        base
    } else {
        seq_insert(spec_deep_merge(base, over.drop_last()), over.last().0, merged_value(base, over.last().0, over.last().1))
    }
}

fn merge_nested(base: &JsonObject, over: &JsonObject) -> (r: JsonObject)
    ensures
        r.entries_view() == insert_all(base.entries_view(), over.entries_view()),
{
    let mut merged = base.copy();
    let n = over.entry_count();
    let ghost ov = over.entries_view();
    let mut j: usize = 0;
    assert(ov.take(0) =~= Seq::<(Seq<char>, JView)>::empty());
    while j < n
        invariant
            j <= n,
            n == ov.len(),
            ov == over.entries_view(),
            merged.entries_view() == insert_all(base.entries_view(), ov.take(j as int)),
        decreases n - j,
    {
        let (k, v) = over.entry_at(j);
        assert(ov.take(j + 1).drop_last() =~= ov.take(j as int));
        merged.insert(k.as_str(), v.copy());
        j += 1;
    }
    assert(ov.take(n as int) =~= ov);
    merged
}

/// Merges override settings over base settings: an override wins, but
/// when both values are objects they merge one level (the override's
/// entries set in the base object); arrays and other values replace.
pub fn deep_merge_settings(base: &JsonObject, overrides: &JsonObject) -> (r: JsonObject)
    ensures
        r.entries_view() == spec_deep_merge(base.entries_view(), overrides.entries_view()),
{
    let mut result = base.copy();
    let n = overrides.entry_count();
    let ghost ov = overrides.entries_view();
    let ghost bv = base.entries_view();
    let mut i: usize = 0;
    assert(ov.take(0) =~= Seq::<(Seq<char>, JView)>::empty());
    while i < n
        invariant
            i <= n,
            n == ov.len(),
            ov == overrides.entries_view(),
            bv == base.entries_view(),
            result.entries_view() == spec_deep_merge(bv, ov.take(i as int)),
        decreases n - i,
    {
        let (key, over_value) = overrides.entry_at(i);
        assert(ov.take(i + 1).drop_last() =~= ov.take(i as int));
        assert(ov.take(i + 1).last() == ov[i as int]);
        let value = match (base.get(key.as_str()), over_value) {
            (Some(JsonValue::Object(bo)), JsonValue::Object(oo)) => JsonValue::Object(merge_nested(bo, oo)),
            _ => over_value.copy(),
        };
        assert(jview(value) == merged_value(bv, key@, jview(*over_value)));
        result.insert(key.as_str(), value);
        i += 1;
    }
    assert(ov.take(n as int) =~= ov);
    result
}


/// Setting several entries keeps keys distinct and their map is the
/// union in which the later entries win.
pub proof fn lemma_insert_all(es: Seq<(Seq<char>, JView)>, more: Seq<(Seq<char>, JView)>)
    requires
        crate::json::distinct_keys(es),
        crate::json::distinct_keys(more),
    ensures
        crate::json::distinct_keys(insert_all(es, more)),
        entries_map(insert_all(es, more)) == entries_map(es).union_prefer_right(entries_map(more)),
    decreases more.len(),
{
    if more.len() == 0 {
        assert(entries_map(es).union_prefer_right(entries_map(more)) =~= entries_map(es));
    } else {
        let init = more.drop_last();
        assert(crate::json::distinct_keys(init)) by {
            assert forall|i: int, j: int| 0 <= i < j < init.len() implies (#[trigger] init[i]).0 != (#[trigger] init[j]).0 by {
                assert(init[i] == more[i] && init[j] == more[j]);
            }
        }
        lemma_insert_all(es, init);
        crate::json::lemma_seq_insert(insert_all(es, init), more.last().0, more.last().1);
        assert(entries_map(more) == entries_map(init).insert(more.last().0, more.last().1));
        assert(entries_map(insert_all(es, more)) =~= entries_map(es).union_prefer_right(entries_map(more)));
    }
}

/// The value a merge gives a key that an override sets.
pub open spec fn merged_entry(bm: Map<Seq<char>, JView>, k: Seq<char>, over: JView) -> JView {
    if bm.contains_key(k) && bm[k] is Obj && over is Obj {
        JView::Obj(insert_all(bm[k]->Obj_0, over->Obj_0))
    } else {
        over
    }
}

/// Merging keeps every key of both sides: a key the overrides set gets
/// the override (objects on both sides merge one level), any other key
/// keeps the base value.
pub proof fn law_deep_merge(base: Seq<(Seq<char>, JView)>, over: Seq<(Seq<char>, JView)>)
    requires
        crate::json::distinct_keys(base),
        crate::json::distinct_keys(over),
    ensures
        crate::json::distinct_keys(spec_deep_merge(base, over)),
        entries_map(spec_deep_merge(base, over)) == Map::new(
            |k: Seq<char>| entries_map(base).contains_key(k) || entries_map(over).contains_key(k),
            |k: Seq<char>| if entries_map(over).contains_key(k) {
                merged_entry(entries_map(base), k, entries_map(over)[k])
            } else {
                entries_map(base)[k]
            },
        ),
    decreases over.len(),
{
    let bm = entries_map(base);
    let target = Map::new(
        |k: Seq<char>| entries_map(base).contains_key(k) || entries_map(over).contains_key(k),
        |k: Seq<char>| if entries_map(over).contains_key(k) {
            merged_entry(entries_map(base), k, entries_map(over)[k])
        } else {
            entries_map(base)[k]
        },
    );
    if over.len() == 0 {
        assert(entries_map(base) =~= target);
    } else {
        let init = over.drop_last();
        assert(crate::json::distinct_keys(init)) by {
            assert forall|i: int, j: int| 0 <= i < j < init.len() implies (#[trigger] init[i]).0 != (#[trigger] init[j]).0 by {
                assert(init[i] == over[i] && init[j] == over[j]);
            }
        }
        law_deep_merge(base, init);
        let (k, v) = over.last();
        crate::json::lemma_seq_insert(spec_deep_merge(base, init), k, merged_value(base, k, v));
        crate::json::lemma_seq_get(base, k);
        assert(merged_value(base, k, v) == merged_entry(bm, k, v));
        assert(entries_map(over) == entries_map(init).insert(k, v));
        assert(entries_map(spec_deep_merge(base, over)) =~= target);
    }
}

/// A one-level merge of two objects (each holding a key once) is the
/// union of their maps in which the override wins.
pub proof fn law_nested_merge(bo: Seq<(Seq<char>, JView)>, oo: Seq<(Seq<char>, JView)>)
    requires
        crate::json::distinct_keys(bo),
        crate::json::distinct_keys(oo),
    ensures
        obj_map(JView::Obj(insert_all(bo, oo))) == entries_map(bo).union_prefer_right(entries_map(oo)),
{
    lemma_insert_all(bo, oo);
}

// ---------------------------------------------------------------------------
// Migrations
// ---------------------------------------------------------------------------

/// `queueMode` becomes `steeringMode` unless that is set.
pub open spec fn migrate_queue_mode(es: Seq<(Seq<char>, JView)>) -> Seq<(Seq<char>, JView)> {
    match (seq_get(es, "queueMode"@), seq_get(es, "steeringMode"@)) {
        (Some(v), None) => seq_insert(seq_remove(es, "queueMode"@), "steeringMode"@, v),
        _ => es,
    }
}

/// A boolean `websockets` becomes `transport` (`websocket` or `sse`)
/// unless that is set.
pub open spec fn migrate_websockets(es: Seq<(Seq<char>, JView)>) -> Seq<(Seq<char>, JView)> {
    match (seq_get(es, "transport"@), seq_get(es, "websockets"@)) {
        (None, Some(JView::Bool(b))) => seq_remove(
            seq_insert(es, "transport"@, JView::Str(if b { "websocket"@ } else { "sse"@ })),
            "websockets"@,
        ),
        _ => es,
    }
}

/// An object `skills` lends its `enableSkillCommands` to the top level
/// (unless set there) and becomes its non-empty `customDirectories`
/// array, or goes.
pub open spec fn migrate_skills(es: Seq<(Seq<char>, JView)>) -> Seq<(Seq<char>, JView)> {
    match seq_get(es, "skills"@) {
        Some(JView::Obj(sk)) => {
            let es1 = match (seq_get(sk, "enableSkillCommands"@), seq_get(es, "enableSkillCommands"@)) {
                (Some(v), None) => seq_insert(es, "enableSkillCommands"@, v),
                _ => es,
            };
            match seq_get(sk, "customDirectories"@) {
                Some(JView::Arr(d)) => if d.len() > 0 {
                    seq_insert(es1, "skills"@, JView::Arr(d))
                } else {
                    seq_remove(es1, "skills"@)
                },
                _ => seq_remove(es1, "skills"@),
            }
        },
        _ => es,
    }
}

/// Whether a retry object's provider has a non-null `maxRetryDelayMs`.
pub open spec fn provider_has_delay(r: Seq<(Seq<char>, JView)>) -> bool {
    match seq_get(r, "provider"@) {
        Some(JView::Obj(p)) => match seq_get(p, "maxRetryDelayMs"@) {
            Some(v) => v != JView::Null,
            None => false,
        },
        _ => false,
    }
}

/// The provider object of a retry object, or an empty one.
pub open spec fn provider_of(r: Seq<(Seq<char>, JView)>) -> Seq<(Seq<char>, JView)> {
    match seq_get(r, "provider"@) {
        Some(JView::Obj(p)) => p,
        _ => Seq::empty(),
    }
}

/// A numeric `retry.maxDelayMs` moves to `retry.provider.maxRetryDelayMs`
/// unless that is set (and not null); `retry.maxDelayMs` always goes.
pub open spec fn migrate_retry(es: Seq<(Seq<char>, JView)>) -> Seq<(Seq<char>, JView)> {
    match seq_get(es, "retry"@) {
        Some(JView::Obj(r)) => {
            let r1 = match seq_get(r, "maxDelayMs"@) {
                Some(JView::Number(n)) => if !provider_has_delay(r) {
                    seq_insert(r, "provider"@, JView::Obj(seq_insert(provider_of(r), "maxRetryDelayMs"@, JView::Number(n))))
                } else {
                    r
                },
                _ => r,
            };
            seq_insert(es, "retry"@, JView::Obj(seq_remove(r1, "maxDelayMs"@)))
        },
        _ => es,
    }
}

/// Every migration, in order.
pub open spec fn spec_migrate(es: Seq<(Seq<char>, JView)>) -> Seq<(Seq<char>, JView)> {
    migrate_retry(migrate_skills(migrate_websockets(migrate_queue_mode(es))))
}

/// Removing or setting a key other than `q` leaves the value of `q`.
proof fn lemma_get_kept(es: Seq<(Seq<char>, JView)>, q: Seq<char>)
    ensures
        forall|k: Seq<char>, v: JView| k != q ==> #[trigger] seq_get(seq_insert(es, k, v), q) == seq_get(es, q),
        forall|k: Seq<char>| k != q ==> #[trigger] seq_get(seq_remove(es, k), q) == seq_get(es, q),
{
    assert forall|k: Seq<char>, v: JView| k != q implies #[trigger] seq_get(seq_insert(es, k, v), q) == seq_get(es, q) by {
        crate::json::lemma_seq_get_insert(es, k, v, q);
    }
    assert forall|k: Seq<char>| k != q implies #[trigger] seq_get(seq_remove(es, k), q) == seq_get(es, q) by {
        crate::json::lemma_seq_get_remove(es, k, q);
    }
}

/// Migrating settings with a boolean `websockets` and no `transport`
/// sets `transport` to `websocket` when it was `true` and to `sse` when
/// it was `false`, and drops `websockets`.
pub proof fn law_migrate_websockets(es: Seq<(Seq<char>, JView)>, b: bool)
    requires
        crate::json::distinct_keys(es),
        seq_get(es, "transport"@) is None,
        seq_get(es, "websockets"@) == Some(JView::Bool(b)),
    ensures
        b ==> seq_get(spec_migrate(es), "transport"@) == Some(JView::Str("websocket"@)),
        !b ==> seq_get(spec_migrate(es), "transport"@) == Some(JView::Str("sse"@)),
        seq_get(spec_migrate(es), "websockets"@) is None,
{
    reveal_strlit("transport");
    reveal_strlit("websockets");
    reveal_strlit("queueMode");
    reveal_strlit("steeringMode");
    reveal_strlit("skills");
    reveal_strlit("enableSkillCommands");
    reveal_strlit("retry");
    reveal_strlit("websocket");
    reveal_strlit("sse");
    let t = "transport"@;
    let w = "websockets"@;
    assert("queueMode"@[0] != t[0] && "queueMode"@[0] != w[0]);
    assert("steeringMode"@[0] != t[0] && "steeringMode"@[0] != w[0]);
    assert("skills"@[0] != t[0] && "skills"@[0] != w[0]);
    assert("enableSkillCommands"@[0] != t[0] && "enableSkillCommands"@[0] != w[0]);
    assert("retry"@[0] != t[0] && "retry"@[0] != w[0]);
    assert(t[0] != w[0]);
    // queueMode -> steeringMode
    lemma_get_kept(es, t);
    lemma_get_kept(es, w);
    let e1 = migrate_queue_mode(es);
    match (seq_get(es, "queueMode"@), seq_get(es, "steeringMode"@)) {
        (Some(v), None) => {
            let r = seq_remove(es, "queueMode"@);
            crate::json::lemma_seq_get_remove(es, "queueMode"@, t);
            lemma_get_kept(r, t);
            lemma_get_kept(r, w);
            crate::json::lemma_seq_insert(r, "steeringMode"@, v);
            assert(e1 == seq_insert(r, "steeringMode"@, v));
            assert(seq_get(r, t) == seq_get(es, t));
            assert(seq_get(r, w) == seq_get(es, w));
            assert(seq_get(seq_insert(r, "steeringMode"@, v), t) == seq_get(r, t));
            assert(seq_get(seq_insert(r, "steeringMode"@, v), w) == seq_get(r, w));
        },
        _ => {
            assert(e1 == es);
        },
    }
    assert(crate::json::distinct_keys(e1));
    assert(seq_get(e1, t) is None);
    assert(seq_get(e1, w) == Some(JView::Bool(b)));
    // websockets -> transport
    let val = JView::Str(if b { "websocket"@ } else { "sse"@ });
    let e1i = seq_insert(e1, t, val);
    crate::json::lemma_seq_insert(e1, t, val);
    crate::json::lemma_seq_get_insert(e1, t, val, t);
    crate::json::lemma_seq_get_remove(e1i, w, t);
    crate::json::lemma_seq_get_remove(e1i, w, w);
    let e2 = migrate_websockets(e1);
    assert(e2 == seq_remove(e1i, w));
    assert(seq_get(e2, t) == Some(val));
    assert(seq_get(e2, w) is None);
    // skills
    lemma_get_kept(e2, t);
    lemma_get_kept(e2, w);
    let e3 = migrate_skills(e2);
    match seq_get(e2, "skills"@) {
        Some(JView::Obj(sk)) => {
            let es1 = match (seq_get(sk, "enableSkillCommands"@), seq_get(e2, "enableSkillCommands"@)) {
                (Some(v), None) => {
                    assert(seq_get(seq_insert(e2, "enableSkillCommands"@, v), t) == seq_get(e2, t));
                    assert(seq_get(seq_insert(e2, "enableSkillCommands"@, v), w) == seq_get(e2, w));
                    seq_insert(e2, "enableSkillCommands"@, v)
                },
                _ => e2,
            };
            lemma_get_kept(es1, t);
            lemma_get_kept(es1, w);
            assert(seq_get(es1, t) == Some(val));
            assert(seq_get(es1, w) is None);
            assert(seq_get(seq_remove(es1, "skills"@), t) == Some(val));
            assert(seq_get(seq_remove(es1, "skills"@), w) is None);
            match seq_get(sk, "customDirectories"@) {
                Some(JView::Arr(d)) => {
                    assert(seq_get(seq_insert(es1, "skills"@, JView::Arr(d)), t) == Some(val));
                    assert(seq_get(seq_insert(es1, "skills"@, JView::Arr(d)), w) is None);
                },
                _ => {},
            }
        },
        _ => {},
    }
    assert(seq_get(e3, t) == Some(val));
    assert(seq_get(e3, w) is None);
    // retry
    lemma_get_kept(e3, t);
    lemma_get_kept(e3, w);
    match seq_get(e3, "retry"@) {
        Some(JView::Obj(r)) => {
            let r1 = match seq_get(r, "maxDelayMs"@) {
                Some(JView::Number(n)) => if !provider_has_delay(r) {
                    seq_insert(r, "provider"@, JView::Obj(seq_insert(provider_of(r), "maxRetryDelayMs"@, JView::Number(n))))
                } else {
                    r
                },
                _ => r,
            };
            let nv = JView::Obj(seq_remove(r1, "maxDelayMs"@));
            assert(spec_migrate(es) == seq_insert(e3, "retry"@, nv));
            assert(seq_get(seq_insert(e3, "retry"@, nv), t) == Some(val));
            assert(seq_get(seq_insert(e3, "retry"@, nv), w) is None);
        },
        _ => {
            assert(spec_migrate(es) == e3);
        },
    }
}

fn text(lit: &str) -> (r: JsonValue)
    ensures
        jview(r) == JView::Str(lit@),
{
    JsonValue::String(string_of(chars_of(lit).as_slice()))
}

/// Migrates old settings formats to the current ones (see
/// `spec_migrate`).
pub fn migrate_settings(settings: &mut JsonObject)
    ensures
        final(settings).entries_view() == spec_migrate(old(settings).entries_view()),
{
    let _ = settings.entry_count();
    let ghost e0 = settings.entries_view();
    // queueMode -> steeringMode
    if settings.contains_key("queueMode") && !settings.contains_key("steeringMode") {
        proof {
            crate::json::lemma_seq_get(e0, "queueMode"@);
            crate::json::lemma_seq_get(e0, "steeringMode"@);
        }
        match settings.remove("queueMode") {
            Some(value) => settings.insert("steeringMode", value),
            None => {},
        }
    }
    let _ = settings.entry_count();
    let ghost e1 = settings.entries_view();
    assert(e1 == migrate_queue_mode(e0)) by {
        crate::json::lemma_seq_get(e0, "queueMode"@);
        crate::json::lemma_seq_get(e0, "steeringMode"@);
    }
    // websockets -> transport
    if !settings.contains_key("transport") {
        let flag = match settings.get("websockets") {
            Some(JsonValue::Bool(b)) => Some(*b),
            _ => None,
        };
        if let Some(b) = flag {
            settings.insert("transport", text(if b { "websocket" } else { "sse" }));
            settings.remove("websockets");
        }
    }
    let _ = settings.entry_count();
    let ghost e2 = settings.entries_view();
    assert(e2 == migrate_websockets(e1)) by {
        crate::json::lemma_seq_get(e1, "transport"@);
    }
    // skills object -> array
    let skills = match settings.get("skills") {
        Some(JsonValue::Object(sk)) => Some(sk.copy()),
        _ => None,
    };
    if let Some(sk) = skills {
        if let Some(enable) = sk.get("enableSkillCommands") {
            if !settings.contains_key("enableSkillCommands") {
                settings.insert("enableSkillCommands", enable.copy());
            }
        }
        proof {
            crate::json::lemma_seq_get(e2, "enableSkillCommands"@);
        }
        let dirs = match sk.get("customDirectories") {
            Some(JsonValue::Array(d)) => if d.len() > 0 {
                Some(JsonValue::Array(crate::json::copy_array(d)))
            } else {
                None
            },
            _ => None,
        };
        match dirs {
            Some(d) => settings.insert("skills", d),
            None => {
                settings.remove("skills");
            },
        }
    }
    let ghost e3 = settings.entries_view();
    assert(e3 == migrate_skills(e2));
    // retry.maxDelayMs -> retry.provider.maxRetryDelayMs
    let retry = match settings.get("retry") {
        Some(JsonValue::Object(r)) => Some(r.copy()),
        _ => None,
    };
    if let Some(mut r) = retry {
        let ghost rv = r.entries_view();
        let max_delay = match r.get("maxDelayMs") {
            Some(JsonValue::Number(n)) => Some(n.copy()),
            _ => None,
        };
        if let Some(n) = max_delay {
            let provider = match r.get("provider") {
                Some(JsonValue::Object(p)) => Some(p.copy()),
                _ => None,
            };
            let has_value = match &provider {
                Some(p) => match p.get("maxRetryDelayMs") {
                    Some(JsonValue::Null) => false,
                    Some(_) => true,
                    None => false,
                },
                None => false,
            };
            assert(has_value == provider_has_delay(rv));
            if !has_value {
                let mut p = match provider {
                    Some(p) => p,
                    None => JsonObject::new(),
                };
                p.insert("maxRetryDelayMs", JsonValue::Number(n));
                r.insert("provider", JsonValue::Object(p));
            }
        }
        r.remove("maxDelayMs");
        settings.insert("retry", JsonValue::Object(r));
    }
    assert(settings.entries_view() == migrate_retry(e3));
}

// ---------------------------------------------------------------------------
// Reading values
// ---------------------------------------------------------------------------

/// A string value.
pub open spec fn str_of(v: Option<JView>) -> Option<Seq<char>> {
    match v {
        Some(JView::Str(s)) => Some(s),
        _ => None,
    }
}

/// A boolean value, or the default.
pub open spec fn bool_or(v: Option<JView>, d: bool) -> bool {
    match v {
        Some(JView::Bool(b)) => b,
        _ => d,
    }
}

/// A non-negative integer value.
pub open spec fn u64_of(v: Option<JView>) -> Option<u64> {
    match v {
        Some(JView::Number(JsonNumber::PosInt(n))) => Some(n),
        _ => None,
    }
}

/// A non-negative integer value, or the default.
pub open spec fn u64_or(v: Option<JView>, d: u64) -> u64 {
    match u64_of(v) {
        Some(n) => n,
        None => d,
    }
}

/// The value of a key of an object-valued key.
pub open spec fn nested(es: Seq<(Seq<char>, JView)>, k: Seq<char>, nk: Seq<char>) -> Option<JView> {
    match seq_get(es, k) {
        Some(JView::Obj(o)) => seq_get(o, nk),
        _ => None,
    }
}

/// The strings among values, in order.
pub open spec fn strings_in(a: Seq<JView>) -> Seq<Seq<char>>
    decreases a.len(),
{
    if a.len() == 0 {
        Seq::empty()
    } else {
        let before = strings_in(a.drop_last());
        match a.last() {
            JView::Str(s) => before.push(s),
            _ => before,
        }
    }
}

/// The strings of an array-valued key (none when it is not an array).
pub open spec fn string_array(es: Seq<(Seq<char>, JView)>, k: Seq<char>) -> Seq<Seq<char>> {
    match seq_get(es, k) {
        Some(JView::Arr(a)) => strings_in(a),
        _ => Seq::empty(),
    }
}

/// An optional string as a plain value.
pub open spec fn opt_str(o: Option<String>) -> Option<Seq<char>> {
    match o {
        Some(s) => Some(s@),
        None => None,
    }
}

/// An optional JSON value as a plain value.
pub open spec fn opt_json(o: Option<&JsonValue>) -> Option<JView> {
    match o {
        Some(v) => Some(jview(*v)),
        None => None,
    }
}

fn str_value(v: Option<&JsonValue>) -> (r: Option<String>)
    ensures
        opt_str(r) == str_of(opt_json(v)),
{
    match v {
        Some(JsonValue::String(s)) => Some(string_of(chars_of(s.as_str()).as_slice())),
        _ => None,
    }
}

fn bool_value(v: Option<&JsonValue>, d: bool) -> (r: bool)
    ensures
        r == bool_or(opt_json(v), d),
{
    match v {
        Some(JsonValue::Bool(b)) => *b,
        _ => d,
    }
}

fn u64_value(v: Option<&JsonValue>) -> (r: Option<u64>)
    ensures
        r == u64_of(opt_json(v)),
{
    match v {
        Some(JsonValue::Number(JsonNumber::PosInt(n))) => Some(*n),
        _ => None,
    }
}

fn nested_get<'a>(o: &'a JsonObject, key: &str, nk: &str) -> (r: Option<&'a JsonValue>)
    ensures
        opt_json(r) == nested(o.entries_view(), key@, nk@),
{
    match o.get(key) {
        Some(JsonValue::Object(inner)) => inner.get(nk),
        _ => None,
    }
}

pub(crate) fn strings_of(a: &Vec<JsonValue>) -> (r: Vec<String>)
    ensures
        crate::path::strings_view(r@) == strings_in(crate::json::jviews(a@)),
{
    proof {
        crate::json::lemma_jviews(a@);
    }
    let ghost av = crate::json::jviews(a@);
    let mut out: Vec<String> = Vec::new();
    let mut i: usize = 0;
    assert(av.take(0) =~= Seq::<JView>::empty());
    while i < a.len()
        invariant
            i <= a@.len(),
            av == crate::json::jviews(a@),
            av.len() == a@.len(),
            forall|k: int| 0 <= k < a@.len() ==> #[trigger] av[k] == jview(a@[k]),
            crate::path::strings_view(out@) == strings_in(av.take(i as int)),
        decreases a@.len() - i,
    {
        assert(av.take(i + 1).drop_last() =~= av.take(i as int));
        assert(av.take(i + 1).last() == jview(a@[i as int]));
        let ghost before = crate::path::strings_view(out@);
        match &a[i] {
            JsonValue::String(s) => {
                out.push(string_of(chars_of(s.as_str()).as_slice()));
                assert(crate::path::strings_view(out@) =~= before.push(s@));
            },
            _ => {},
        }
        i += 1;
    }
    assert(av.take(a@.len() as int) =~= av);
    out
}

fn array_strings(v: Option<&JsonValue>) -> (r: Vec<String>)
    ensures
        crate::path::strings_view(r@) == match opt_json(v) {
            Some(JView::Arr(a)) => strings_in(a),
            _ => Seq::<Seq<char>>::empty(),
        },
{
    match v {
        Some(JsonValue::Array(a)) => strings_of(a),
        _ => {
            let r: Vec<String> = Vec::new();
            assert(crate::path::strings_view(r@) =~= Seq::<Seq<char>>::empty());
            r
        },
    }
}

// ---------------------------------------------------------------------------
// The manager
// ---------------------------------------------------------------------------

/// What a write of one scope's configuration needs: the scope's
/// settings, the fields changed since the last write, and the nested
/// keys changed in object-valued fields.
pub struct WriteRequest {
    pub snapshot: JsonObject,
    pub fields: Vec<String>,
    pub nested_fields: Vec<(String, String)>,
}

/// Settings: global and (trusted) project settings, their merge, and the
/// fields changed since they were last written.
pub struct SettingsManager {
    global_settings: JsonObject,
    project_settings: JsonObject,
    settings: JsonObject,
    project_trusted: bool,
    modified_fields: Vec<String>,
    modified_nested_fields: Vec<(String, String)>,
    modified_project_fields: Vec<String>,
    global_load_error: Option<String>,
    project_load_error: Option<String>,
    errors: Vec<SettingsError>,
}

/// A set of strings as plain values.
pub open spec fn string_set(v: Seq<String>) -> Set<Seq<char>> {
    Set::new(|s: Seq<char>| exists|i: int| 0 <= i < v.len() && v[i]@ == s)
}

/// A set of string pairs as plain values.
pub open spec fn pair_set(v: Seq<(String, String)>) -> Set<(Seq<char>, Seq<char>)> {
    Set::new(|p: (Seq<char>, Seq<char>)| exists|i: int| 0 <= i < v.len() && v[i].0@ == p.0 && v[i].1@ == p.1)
}

/// Recorded errors as plain values.
pub open spec fn errors_view(v: Seq<SettingsError>) -> Seq<(SettingsScope, Seq<char>)> {
    Seq::new(v.len(), |i: int| (v[i].scope, v[i].error@))
}

fn add_once(v: &mut Vec<String>, s: &str)
    ensures
        string_set(final(v)@) == string_set(old(v)@).insert(s@),
{
    let target = chars_of(s);
    let mut i: usize = 0;
    while i < v.len()
        invariant
            i <= v@.len(),
            target@ == s@,
            forall|k: int| 0 <= k < i ==> v@[k]@ != s@,
        decreases v@.len() - i,
    {
        if chars_eq(&chars_of(v[i].as_str()), &target) {
            assert(string_set(v@) =~= string_set(v@).insert(s@));
            return;
        }
        i += 1;
    }
    let ghost before = v@;
    v.push(string_of(target.as_slice()));
    assert forall|x: Seq<char>| #[trigger] string_set(v@).contains(x) <==> string_set(before).insert(s@).contains(x) by {
        if string_set(v@).contains(x) {
            let i = choose|i: int| 0 <= i < v@.len() && v@[i]@ == x;
            if i < before.len() {
                assert(v@[i] == before[i]);
            }
        }
        if string_set(before).contains(x) {
            let i = choose|i: int| 0 <= i < before.len() && before[i]@ == x;
            assert(v@[i] == before[i]);
        }
        if x == s@ {
            assert(v@[before.len() as int]@ == x);
        }
    }
    assert(string_set(v@) =~= string_set(before).insert(s@));
}

fn add_pair_once(v: &mut Vec<(String, String)>, a: &str, b: &str)
    ensures
        pair_set(final(v)@) == pair_set(old(v)@).insert((a@, b@)),
{
    let ta = chars_of(a);
    let tb = chars_of(b);
    let mut i: usize = 0;
    while i < v.len()
        invariant
            i <= v@.len(),
            ta@ == a@,
            tb@ == b@,
            forall|k: int| 0 <= k < i ==> !(v@[k].0@ == a@ && v@[k].1@ == b@),
        decreases v@.len() - i,
    {
        if chars_eq(&chars_of(v[i].0.as_str()), &ta) && chars_eq(&chars_of(v[i].1.as_str()), &tb) {
            assert(pair_set(v@) =~= pair_set(v@).insert((a@, b@)));
            return;
        }
        i += 1;
    }
    let ghost before = v@;
    v.push((string_of(ta.as_slice()), string_of(tb.as_slice())));
    assert forall|x: (Seq<char>, Seq<char>)| #[trigger] pair_set(v@).contains(x) <==> pair_set(before).insert((a@, b@)).contains(x) by {
        if pair_set(v@).contains(x) {
            let i = choose|i: int| 0 <= i < v@.len() && v@[i].0@ == x.0 && v@[i].1@ == x.1;
            if i < before.len() {
                assert(v@[i] == before[i]);
            }
        }
        if pair_set(before).contains(x) {
            let i = choose|i: int| 0 <= i < before.len() && before[i].0@ == x.0 && before[i].1@ == x.1;
            assert(v@[i] == before[i]);
        }
        if x == (a@, b@) {
            assert(v@[before.len() as int].0@ == x.0);
        }
    }
    assert(pair_set(v@) =~= pair_set(before).insert((a@, b@)));
}

fn copy_strings(v: &Vec<String>) -> (r: Vec<String>)
    ensures
        crate::path::strings_view(r@) == crate::path::strings_view(v@),
        string_set(r@) == string_set(v@),
{
    let mut out: Vec<String> = Vec::new();
    let mut i: usize = 0;
    while i < v.len()
        invariant
            i <= v@.len(),
            out@.len() == i,
            forall|k: int| 0 <= k < i ==> #[trigger] out@[k]@ == v@[k]@,
        decreases v@.len() - i,
    {
        out.push(v[i].clone());
        i += 1;
    }
    assert(crate::path::strings_view(out@) =~= crate::path::strings_view(v@));
    assert(string_set(out@) =~= string_set(v@)) by {
        assert forall|x: Seq<char>| string_set(out@).contains(x) <==> string_set(v@).contains(x) by {
            if string_set(out@).contains(x) {
                let i = choose|i: int| 0 <= i < out@.len() && out@[i]@ == x;
                assert(v@[i]@ == x);
            }
            if string_set(v@).contains(x) {
                let i = choose|i: int| 0 <= i < v@.len() && v@[i]@ == x;
                assert(out@[i]@ == x);
            }
        }
    }
    out
}

const UNTRUSTED_WRITE: &'static str = "Project is not trusted; refusing to write project settings";

impl SettingsManager {
    /// The global settings.
    pub closed spec fn global(self) -> Seq<(Seq<char>, JView)> {
        self.global_settings.entries_view()
    }

    /// The project settings.
    pub closed spec fn project(self) -> Seq<(Seq<char>, JView)> {
        self.project_settings.entries_view()
    }

    /// The merged settings that the accessors read.
    pub closed spec fn merged(self) -> Seq<(Seq<char>, JView)> {
        self.settings.entries_view()
    }

    /// Whether the project is trusted.
    pub closed spec fn trusted(self) -> bool {
        self.project_trusted
    }

    /// The global fields changed since they were last written.
    pub closed spec fn modified(self) -> Set<Seq<char>> {
        string_set(self.modified_fields@)
    }

    /// The global nested keys changed since they were last written.
    pub closed spec fn modified_nested(self) -> Set<(Seq<char>, Seq<char>)> {
        pair_set(self.modified_nested_fields@)
    }

    /// The project fields changed since they were last written.
    pub closed spec fn project_modified(self) -> Set<Seq<char>> {
        string_set(self.modified_project_fields@)
    }

    /// The errors of the last loads.
    pub closed spec fn load_errors(self) -> (Option<Seq<char>>, Option<Seq<char>>) {
        (opt_str(self.global_load_error), opt_str(self.project_load_error))
    }

    /// The recorded errors.
    pub closed spec fn recorded(self) -> Seq<(SettingsScope, Seq<char>)> {
        errors_view(self.errors@)
    }
}


/// What a load gives: migrated settings, or nothing after an error.
pub open spec fn loaded(r: Result<JsonObject, String>) -> Seq<(Seq<char>, JView)> {
    match r {
        Ok(o) => spec_migrate(o.entries_view()),
        Err(_) => Seq::empty(),
    }
}

/// The entries of an object value, or none.
pub open spec fn obj_or_empty(v: Option<JView>) -> Seq<(Seq<char>, JView)> {
    match v {
        Some(JView::Obj(es)) => es,
        _ => Seq::empty(),
    }
}

/// `new` is `old` with the global settings `g` and the field `key` (and
/// the nested key, if any) marked changed; the merge is recomputed.
pub open spec fn global_set(
    new: SettingsManager,
    old: SettingsManager,
    g: Seq<(Seq<char>, JView)>,
    key: Seq<char>,
    nested_key: Option<Seq<char>>,
) -> bool {
    &&& new.global() == g
    &&& new.project() == old.project()
    &&& new.merged() == spec_deep_merge(g, old.project())
    &&& new.trusted() == old.trusted()
    &&& new.modified() == old.modified().insert(key)
    &&& new.modified_nested() == match nested_key {
        Some(nk) => old.modified_nested().insert((key, nk)),
        None => old.modified_nested(),
    }
    &&& new.project_modified() == old.project_modified()
    &&& new.load_errors() == old.load_errors()
    &&& new.recorded() == old.recorded()
}

/// `new` is `old` after a project field was set: refused when the
/// project is not trusted; else the field is set, marked changed, and
/// the merge recomputed.
pub open spec fn project_set(
    new: SettingsManager,
    old: SettingsManager,
    key: Seq<char>,
    v: JView,
    r: Result<(), SettingsManagerError>,
) -> bool {
    if !old.trusted() {
        &&& r matches Err(SettingsManagerError::Message(m)) && m@ == "Project is not trusted; refusing to write project settings"@
        &&& new == old
    } else {
        &&& r is Ok
        &&& new.project() == seq_insert(old.project(), key, v)
        &&& new.global() == old.global()
        &&& new.merged() == spec_deep_merge(old.global(), new.project())
        &&& new.trusted() == old.trusted()
        &&& new.modified() == old.modified()
        &&& new.modified_nested() == old.modified_nested()
        &&& new.project_modified() == old.project_modified().insert(key)
        &&& new.load_errors() == old.load_errors()
        &&& new.recorded() == old.recorded()
    }
}

fn load_result(r: Result<JsonObject, String>) -> (out: (JsonObject, Option<String>))
    ensures
        out.0.entries_view() == loaded(r),
        opt_str(out.1) == match r {
            Ok(_) => None::<Seq<char>>,
            Err(e) => Some(e@),
        },
{
    match r {
        Ok(o) => {
            let mut o = o;
            migrate_settings(&mut o);
            (o, None)
        },
        Err(e) => (JsonObject::new(), Some(e)),
    }
}

fn copy_error(e: &Option<String>) -> (r: Option<String>)
    ensures
        opt_str(r) == opt_str(*e),
{
    match e {
        Some(m) => Some(m.clone()),
        None => None,
    }
}

impl SettingsManager {
    /// A manager over loaded settings: each scope's load result (its
    /// settings, migrated, or an error, recorded); an untrusted project's
    /// settings are ignored. The project is trusted unless the options
    /// say otherwise.
    pub fn from_loaded(
        global: Result<JsonObject, String>,
        project: Result<JsonObject, String>,
        options: SettingsManagerCreateOptions,
    ) -> (r: Self)
        ensures
            r.trusted() == match options.project_trusted {
                Some(t) => t,
                None => true,
            },
            r.global() == loaded(global),
            r.project() == if r.trusted() { loaded(project) } else { Seq::empty() },
            r.merged() == spec_deep_merge(r.global(), r.project()),
            r.modified() == Set::<Seq<char>>::empty(),
            r.modified_nested() == Set::<(Seq<char>, Seq<char>)>::empty(),
            r.project_modified() == Set::<Seq<char>>::empty(),
            r.load_errors() == (
                match global { Ok(_) => None::<Seq<char>>, Err(e) => Some(e@) },
                if r.trusted() { match project { Ok(_) => None::<Seq<char>>, Err(e) => Some(e@) } } else { None },
            ),
            r.recorded() == (match global {
                Ok(_) => Seq::<(SettingsScope, Seq<char>)>::empty(),
                Err(e) => seq![(SettingsScope::Global, e@)],
            }) + (if r.trusted() {
                match project {
                    Ok(_) => Seq::<(SettingsScope, Seq<char>)>::empty(),
                    Err(e) => seq![(SettingsScope::Project, e@)],
                }
            } else {
                Seq::empty()
            }),
    {
        let project_trusted = match options.project_trusted {
            Some(t) => t,
            None => true,
        };
        let (global_settings, global_load_error) = load_result(global);
        let (project_settings, project_load_error) = if project_trusted {
            load_result(project)
        } else {
            (JsonObject::new(), None)
        };
        let mut errors: Vec<SettingsError> = Vec::new();
        if let Some(error) = &global_load_error {
            errors.push(SettingsError { scope: SettingsScope::Global, error: error.clone() });
        }
        let ghost first = errors_view(errors@);
        if let Some(error) = &project_load_error {
            errors.push(SettingsError { scope: SettingsScope::Project, error: error.clone() });
        }
        let settings = deep_merge_settings(&global_settings, &project_settings);
        let r = SettingsManager {
            global_settings,
            project_settings,
            settings,
            project_trusted,
            modified_fields: Vec::new(),
            modified_nested_fields: Vec::new(),
            modified_project_fields: Vec::new(),
            global_load_error,
            project_load_error,
            errors,
        };
        assert(r.modified() =~= Set::<Seq<char>>::empty());
        assert(r.modified_nested() =~= Set::<(Seq<char>, Seq<char>)>::empty());
        assert(r.project_modified() =~= Set::<Seq<char>>::empty());
        assert(r.recorded() =~= (match global {
            Ok(_) => Seq::<(SettingsScope, Seq<char>)>::empty(),
            Err(e) => seq![(SettingsScope::Global, e@)],
        }) + (if r.trusted() {
            match project {
                Ok(_) => Seq::<(SettingsScope, Seq<char>)>::empty(),
                Err(e) => seq![(SettingsScope::Project, e@)],
            }
        } else {
            Seq::empty()
        }));
        r
    }

    /// A trusted manager whose global settings are the given ones
    /// (migrated) and whose project settings are empty.
    pub fn in_memory(settings: JsonObject) -> (r: Self)
        ensures
            r.trusted(),
            r.global() == spec_migrate(settings.entries_view()),
            r.project() == Seq::<(Seq<char>, JView)>::empty(),
            r.merged() == spec_deep_merge(r.global(), r.project()),
            r.modified() == Set::<Seq<char>>::empty(),
            r.recorded() == Seq::<(SettingsScope, Seq<char>)>::empty(),
    {
        let r = Self::from_loaded(Ok(settings), Ok(JsonObject::new()), SettingsManagerCreateOptions { project_trusted: None });
        assert(spec_migrate(Seq::<(Seq<char>, JView)>::empty()) == Seq::<(Seq<char>, JView)>::empty()) by {
            lemma_migrate_empty();
        }
        assert(r.recorded() =~= Seq::<(SettingsScope, Seq<char>)>::empty());
        r
    }

    /// A copy of the global settings.
    pub fn get_global_settings(&self) -> (r: JsonObject)
        ensures
            r.entries_view() == self.global(),
    {
        self.global_settings.copy()
    }

    /// A copy of the project settings.
    pub fn get_project_settings(&self) -> (r: JsonObject)
        ensures
            r.entries_view() == self.project(),
    {
        self.project_settings.copy()
    }

    /// Whether the project is trusted.
    pub fn is_project_trusted(&self) -> (r: bool)
        ensures
            r == self.trusted(),
    {
        self.project_trusted
    }

    fn record_error(&mut self, scope: SettingsScope, error: String)
        ensures
            final(self).recorded() == old(self).recorded().push((scope, error@)),
            final(self).global() == old(self).global(),
            final(self).project() == old(self).project(),
            final(self).merged() == old(self).merged(),
            final(self).trusted() == old(self).trusted(),
            final(self).modified() == old(self).modified(),
            final(self).modified_nested() == old(self).modified_nested(),
            final(self).project_modified() == old(self).project_modified(),
            final(self).load_errors() == old(self).load_errors(),
    {
        let ghost before = errors_view(self.errors@);
        self.errors.push(SettingsError { scope, error });
        assert(errors_view(self.errors@) =~= before.push((scope, error@)));
    }

    fn remerge(&mut self)
        ensures
            final(self).merged() == spec_deep_merge(old(self).global(), old(self).project()),
            final(self).global() == old(self).global(),
            final(self).project() == old(self).project(),
            final(self).trusted() == old(self).trusted(),
            final(self).modified() == old(self).modified(),
            final(self).modified_nested() == old(self).modified_nested(),
            final(self).project_modified() == old(self).project_modified(),
            final(self).load_errors() == old(self).load_errors(),
            final(self).recorded() == old(self).recorded(),
    {
        self.settings = deep_merge_settings(&self.global_settings, &self.project_settings);
    }

    /// Trusts or distrusts the project. Distrusting drops the project
    /// settings; trusting takes the project's load result (its settings,
    /// migrated, or an error, recorded). Either way the project's changed
    /// fields are forgotten; nothing happens when trust is unchanged.
    pub fn set_project_trusted(&mut self, trusted: bool, project: Result<JsonObject, String>)
        ensures
            old(self).trusted() == trusted ==> *final(self) == *old(self),
            old(self).trusted() != trusted ==> {
                &&& final(self).trusted() == trusted
                &&& final(self).project() == if trusted { loaded(project) } else { Seq::empty() }
                &&& final(self).global() == old(self).global()
                &&& final(self).merged() == spec_deep_merge(old(self).global(), final(self).project())
                &&& final(self).project_modified() == Set::<Seq<char>>::empty()
                &&& final(self).modified() == old(self).modified()
                &&& final(self).load_errors().0 == old(self).load_errors().0
                &&& final(self).load_errors().1 == if trusted { match project { Ok(_) => None::<Seq<char>>, Err(e) => Some(e@) } } else { None }
                &&& final(self).recorded() == old(self).recorded() + if trusted {
                    match project {
                        Ok(_) => Seq::<(SettingsScope, Seq<char>)>::empty(),
                        Err(e) => seq![(SettingsScope::Project, e@)],
                    }
                } else {
                    Seq::empty()
                }
            },
    {
        if self.project_trusted == trusted {
            return;
        }
        self.project_trusted = trusted;
        self.modified_project_fields = Vec::new();
        assert(string_set(self.modified_project_fields@) =~= Set::<Seq<char>>::empty());
        if !trusted {
            self.project_settings = JsonObject::new();
            self.project_load_error = None;
            self.remerge();
            assert(old(self).recorded() + Seq::<(SettingsScope, Seq<char>)>::empty() =~= old(self).recorded());
            return;
        }
        let (project_settings, project_load_error) = load_result(project);
        self.project_settings = project_settings;
        let ghost before = self.recorded();
        if let Some(error) = &project_load_error {
            self.record_error(SettingsScope::Project, error.clone());
        }
        self.project_load_error = project_load_error;
        self.remerge();
        assert(self.recorded() =~= old(self).recorded() + match project {
            Ok(_) => Seq::<(SettingsScope, Seq<char>)>::empty(),
            Err(e) => seq![(SettingsScope::Project, e@)],
        });
    }

    /// Reloads both scopes from their load results; an untrusted
    /// project's result is ignored. Only when both loaded are they
    /// published (and every changed-field mark dropped); a failure is
    /// recorded per scope and returned (both failures in one message).
    pub fn try_reload(&mut self, global: Result<JsonObject, String>, project: Result<JsonObject, String>) -> (r: Result<(), SettingsManagerError>)
        ensures
            ({
                let p_err = if old(self).trusted() { project is Err } else { false };
                (r is Ok <==> (global is Ok && !p_err))
                && (r is Ok ==> {
                    &&& final(self).global() == loaded(global)
                    &&& final(self).project() == if old(self).trusted() { loaded(project) } else { Seq::empty() }
                    &&& final(self).merged() == spec_deep_merge(final(self).global(), final(self).project())
                    &&& final(self).modified() == Set::<Seq<char>>::empty()
                    &&& final(self).modified_nested() == Set::<(Seq<char>, Seq<char>)>::empty()
                    &&& final(self).project_modified() == Set::<Seq<char>>::empty()
                    &&& final(self).load_errors() == (None::<Seq<char>>, None::<Seq<char>>)
                    &&& final(self).recorded() == old(self).recorded()
                })
                && (r is Err ==> {
                    &&& final(self).global() == old(self).global()
                    &&& final(self).project() == old(self).project()
                    &&& final(self).merged() == old(self).merged()
                    &&& final(self).recorded() == old(self).recorded()
                        + (match global { Ok(_) => Seq::<(SettingsScope, Seq<char>)>::empty(), Err(e) => seq![(SettingsScope::Global, e@)] })
                        + (if p_err { match project { Ok(_) => Seq::<(SettingsScope, Seq<char>)>::empty(), Err(e) => seq![(SettingsScope::Project, e@)] } } else { Seq::empty() })
                })
            }),
            final(self).trusted() == old(self).trusted(),
    {
        let project = if self.project_trusted { project } else { Ok(JsonObject::new()) };
        proof {
            lemma_migrate_empty();
        }
        match (global, project) {
            (Ok(g), Ok(p)) => {
                let (g, _) = load_result(Ok(g));
                let (p, _) = load_result(Ok(p));
                self.global_settings = g;
                self.project_settings = p;
                self.global_load_error = None;
                self.project_load_error = None;
                self.modified_fields = Vec::new();
                self.modified_nested_fields = Vec::new();
                self.modified_project_fields = Vec::new();
                assert(string_set(self.modified_fields@) =~= Set::<Seq<char>>::empty());
                assert(pair_set(self.modified_nested_fields@) =~= Set::<(Seq<char>, Seq<char>)>::empty());
                assert(string_set(self.modified_project_fields@) =~= Set::<Seq<char>>::empty());
                self.remerge();
                Ok(())
            },
            (Err(e), Ok(_)) => {
                self.global_load_error = Some(e.clone());
                self.record_error(SettingsScope::Global, e.clone());
                assert(self.recorded() =~= old(self).recorded() + seq![(SettingsScope::Global, e@)] + Seq::<(SettingsScope, Seq<char>)>::empty());
                Err(SettingsManagerError::Message(e))
            },
            (Ok(_), Err(e)) => {
                self.project_load_error = Some(e.clone());
                self.record_error(SettingsScope::Project, e.clone());
                assert(self.recorded() =~= old(self).recorded() + Seq::<(SettingsScope, Seq<char>)>::empty() + seq![(SettingsScope::Project, e@)]);
                Err(SettingsManagerError::Message(e))
            },
            (Err(g), Err(p)) => {
                self.global_load_error = Some(g.clone());
                self.project_load_error = Some(p.clone());
                self.record_error(SettingsScope::Global, g.clone());
                self.record_error(SettingsScope::Project, p.clone());
                assert(self.recorded() =~= old(self).recorded() + seq![(SettingsScope::Global, g@)] + seq![(SettingsScope::Project, p@)]);
                let mut m = chars_of("global config: ");
                crate::text::extend_chars(&mut m, &chars_of(g.as_str()));
                crate::text::extend_chars(&mut m, &chars_of("; project config: "));
                crate::text::extend_chars(&mut m, &chars_of(p.as_str()));
                Err(SettingsManagerError::Message(string_of(m.as_slice())))
            },
        }
    }

    /// Merges overrides over the merged settings (see
    /// `deep_merge_settings`).
    pub fn apply_overrides(&mut self, overrides: &JsonObject)
        ensures
            final(self).merged() == spec_deep_merge(old(self).merged(), overrides.entries_view()),
            final(self).global() == old(self).global(),
            final(self).project() == old(self).project(),
            final(self).trusted() == old(self).trusted(),
            final(self).modified() == old(self).modified(),
            final(self).recorded() == old(self).recorded(),
    {
        self.settings = deep_merge_settings(&self.settings, overrides);
    }

    /// Takes the recorded errors.
    pub fn drain_errors(&mut self) -> (r: Vec<SettingsError>)
        ensures
            errors_view(r@) == old(self).recorded(),
            final(self).recorded() == Seq::<(SettingsScope, Seq<char>)>::empty(),
            final(self).global() == old(self).global(),
            final(self).merged() == old(self).merged(),
    {
        let mut taken: Vec<SettingsError> = Vec::new();
        std::mem::swap(&mut taken, &mut self.errors);
        assert(errors_view(self.errors@) =~= Seq::<(SettingsScope, Seq<char>)>::empty());
        taken
    }

    /// What writing a scope needs, unless its last load failed (or, for
    /// the project, it is not trusted): the scope's settings and the
    /// fields (and nested keys) changed since the last write.
    pub fn write_request(&self, scope: SettingsScope) -> (r: Option<WriteRequest>)
        ensures
            r is Some <==> match scope {
                SettingsScope::Global => self.load_errors().0 is None,
                SettingsScope::Project => self.trusted() && self.load_errors().1 is None,
            },
            r matches Some(w) ==> match scope {
                SettingsScope::Global => w.snapshot.entries_view() == self.global()
                    && string_set(w.fields@) == self.modified()
                    && pair_set(w.nested_fields@) == self.modified_nested(),
                SettingsScope::Project => w.snapshot.entries_view() == self.project()
                    && string_set(w.fields@) == self.project_modified()
                    && pair_set(w.nested_fields@) == Set::<(Seq<char>, Seq<char>)>::empty(),
            },
    {
        match scope {
            SettingsScope::Global => {
                if self.global_load_error.is_some() {
                    return None;
                }
                let mut nested: Vec<(String, String)> = Vec::new();
                let mut i: usize = 0;
                while i < self.modified_nested_fields.len()
                    invariant
                        i <= self.modified_nested_fields@.len(),
                        nested@.len() == i,
                        forall|k: int| 0 <= k < i ==> (#[trigger] nested@[k]).0@ == self.modified_nested_fields@[k].0@
                            && nested@[k].1@ == self.modified_nested_fields@[k].1@,
                    decreases self.modified_nested_fields@.len() - i,
                {
                    nested.push((self.modified_nested_fields[i].0.clone(), self.modified_nested_fields[i].1.clone()));
                    i += 1;
                }
                assert(pair_set(nested@) =~= pair_set(self.modified_nested_fields@)) by {
                    assert forall|x: (Seq<char>, Seq<char>)| pair_set(nested@).contains(x) <==> pair_set(self.modified_nested_fields@).contains(x) by {
                        if pair_set(nested@).contains(x) {
                            let k = choose|k: int| 0 <= k < nested@.len() && nested@[k].0@ == x.0 && nested@[k].1@ == x.1;
                            assert(self.modified_nested_fields@[k].0@ == x.0);
                        }
                        if pair_set(self.modified_nested_fields@).contains(x) {
                            let k = choose|k: int| 0 <= k < self.modified_nested_fields@.len() && self.modified_nested_fields@[k].0@ == x.0 && self.modified_nested_fields@[k].1@ == x.1;
                            assert(nested@[k].0@ == x.0);
                        }
                    }
                }
                Some(WriteRequest { snapshot: self.global_settings.copy(), fields: copy_strings(&self.modified_fields), nested_fields: nested })
            },
            SettingsScope::Project => {
                if !self.project_trusted || self.project_load_error.is_some() {
                    return None;
                }
                let nested: Vec<(String, String)> = Vec::new();
                assert(pair_set(nested@) =~= Set::<(Seq<char>, Seq<char>)>::empty());
                Some(WriteRequest { snapshot: self.project_settings.copy(), fields: copy_strings(&self.modified_project_fields), nested_fields: nested })
            },
        }
    }

    /// Reports a write's outcome: success forgets the scope's changed
    /// fields; a failure is recorded.
    pub fn finish_write(&mut self, scope: SettingsScope, result: Result<(), String>)
        ensures
            match result {
                Ok(()) => (match scope {
                    SettingsScope::Global => final(self).modified() == Set::<Seq<char>>::empty()
                        && final(self).modified_nested() == Set::<(Seq<char>, Seq<char>)>::empty()
                        && final(self).project_modified() == old(self).project_modified(),
                    SettingsScope::Project => final(self).project_modified() == Set::<Seq<char>>::empty()
                        && final(self).modified() == old(self).modified()
                        && final(self).modified_nested() == old(self).modified_nested(),
                }) && final(self).recorded() == old(self).recorded(),
                Err(e) => final(self).recorded() == old(self).recorded().push((scope, e@))
                    && final(self).modified() == old(self).modified()
                    && final(self).project_modified() == old(self).project_modified(),
            },
            final(self).global() == old(self).global(),
            final(self).project() == old(self).project(),
            final(self).merged() == old(self).merged(),
            final(self).trusted() == old(self).trusted(),
    {
        match result {
            Ok(()) => match scope {
                SettingsScope::Global => {
                    self.modified_fields = Vec::new();
                    self.modified_nested_fields = Vec::new();
                    assert(string_set(self.modified_fields@) =~= Set::<Seq<char>>::empty());
                    assert(pair_set(self.modified_nested_fields@) =~= Set::<(Seq<char>, Seq<char>)>::empty());
                },
                SettingsScope::Project => {
                    self.modified_project_fields = Vec::new();
                    assert(string_set(self.modified_project_fields@) =~= Set::<Seq<char>>::empty());
                },
            },
            Err(e) => self.record_error(scope, e),
        }
    }
}

proof fn lemma_migrate_empty()
    ensures
        spec_migrate(Seq::<(Seq<char>, JView)>::empty()) == Seq::<(Seq<char>, JView)>::empty(),
{
    let e = Seq::<(Seq<char>, JView)>::empty();
    assert(seq_find(e, "queueMode"@) is None);
    assert(seq_find(e, "transport"@) is None);
    assert(seq_find(e, "websockets"@) is None);
    assert(seq_find(e, "skills"@) is None);
    assert(seq_find(e, "retry"@) is None);
}


fn strings_value(values: &Vec<String>) -> (r: JsonValue)
    ensures
        jview(r) == JView::Arr(Seq::new(values@.len(), |i: int| JView::Str(values@[i]@))),
{
    let mut out: Vec<JsonValue> = Vec::new();
    let mut i: usize = 0;
    while i < values.len()
        invariant
            i <= values@.len(),
            out@.len() == i,
            forall|k: int| 0 <= k < i ==> jview(#[trigger] out@[k]) == JView::Str(values@[k]@),
        decreases values@.len() - i,
    {
        out.push(JsonValue::String(values[i].clone()));
        i += 1;
    }
    proof {
        crate::json::lemma_jviews(out@);
        assert(crate::json::jviews(out@) =~= Seq::new(values@.len(), |i: int| JView::Str(values@[i]@)));
    }
    JsonValue::Array(out)
}

/// A list of strings as a plain JSON array.
pub open spec fn strings_json(values: Seq<String>) -> JView {
    JView::Arr(Seq::new(values.len(), |i: int| JView::Str(values[i]@)))
}

/// The tree filter modes.
pub open spec fn valid_tree_filter(m: Seq<char>) -> bool {
    m == "default"@ || m == "no-tools"@ || m == "user-only"@ || m == "labeled-only"@ || m == "all"@
}

impl SettingsManager {
    fn mark_modified(&mut self, field: &str, nested_key: Option<&str>)
        ensures
            final(self).modified() == old(self).modified().insert(field@),
            final(self).modified_nested() == match nested_key {
                Some(nk) => old(self).modified_nested().insert((field@, nk@)),
                None => old(self).modified_nested(),
            },
            final(self).global() == old(self).global(),
            final(self).project() == old(self).project(),
            final(self).merged() == old(self).merged(),
            final(self).trusted() == old(self).trusted(),
            final(self).project_modified() == old(self).project_modified(),
            final(self).load_errors() == old(self).load_errors(),
            final(self).recorded() == old(self).recorded(),
    {
        add_once(&mut self.modified_fields, field);
        if let Some(nk) = nested_key {
            add_pair_once(&mut self.modified_nested_fields, field, nk);
        }
    }

    fn set_global(&mut self, key: &str, value: JsonValue)
        ensures
            global_set(*final(self), *old(self), seq_insert(old(self).global(), key@, jview(value)), key@, None),
    {
        self.global_settings.insert(key, value);
        self.mark_modified(key, None);
        self.remerge();
    }

    fn set_global_opt(&mut self, key: &str, value: Option<JsonValue>)
        ensures
            global_set(*final(self), *old(self), match value {
                Some(v) => seq_insert(old(self).global(), key@, jview(v)),
                None => seq_remove(old(self).global(), key@),
            }, key@, None),
    {
        match value {
            Some(v) => self.global_settings.insert(key, v),
            None => {
                self.global_settings.remove(key);
            },
        }
        self.mark_modified(key, None);
        self.remerge();
    }

    fn set_global_nested(&mut self, key: &str, nested_key: &str, value: JsonValue)
        ensures
            global_set(
                *final(self),
                *old(self),
                seq_insert(old(self).global(), key@, JView::Obj(seq_insert(obj_or_empty(seq_get(old(self).global(), key@)), nested_key@, jview(value)))),
                key@,
                Some(nested_key@),
            ),
    {
        let mut inner = match self.global_settings.get(key) {
            Some(JsonValue::Object(o)) => o.copy(),
            _ => JsonObject::new(),
        };
        inner.insert(nested_key, value);
        self.global_settings.insert(key, JsonValue::Object(inner));
        self.mark_modified(key, Some(nested_key));
        self.remerge();
    }

    fn update_project_settings(&mut self, key: &str, value: JsonValue) -> (r: Result<(), SettingsManagerError>)
        ensures
            project_set(*final(self), *old(self), key@, jview(value), r),
    {
        if !self.project_trusted {
            return Err(SettingsManagerError::Message(string_of(chars_of(UNTRUSTED_WRITE).as_slice())));
        }
        self.project_settings.insert(key, value);
        add_once(&mut self.modified_project_fields, key);
        self.remerge();
        Ok(())
    }

    fn merged_str(&self, key: &str) -> (r: Option<String>)
        ensures
            opt_str(r) == str_of(seq_get(self.merged(), key@)),
    {
        str_value(self.settings.get(key))
    }

    fn merged_bool(&self, key: &str, d: bool) -> (r: bool)
        ensures
            r == bool_or(seq_get(self.merged(), key@), d),
    {
        bool_value(self.settings.get(key), d)
    }

    fn nested_bool(&self, key: &str, nk: &str, d: bool) -> (r: bool)
        ensures
            r == bool_or(nested(self.merged(), key@, nk@), d),
    {
        bool_value(nested_get(&self.settings, key, nk), d)
    }

    fn nested_u64(&self, key: &str, nk: &str, d: u64) -> (r: u64)
        ensures
            r == u64_or(nested(self.merged(), key@, nk@), d),
    {
        match u64_value(nested_get(&self.settings, key, nk)) {
            Some(n) => n,
            None => d,
        }
    }

    /// A copy of the merged value of a top-level setting.
    pub fn setting(&self, key: &str) -> (r: Option<JsonValue>)
        ensures
            match r {
                Some(v) => seq_get(self.merged(), key@) == Some(jview(v)),
                None => seq_get(self.merged(), key@) is None,
            },
    {
        match self.settings.get(key) {
            Some(v) => Some(v.copy()),
            None => None,
        }
    }

    /// A copy of the merged value of a setting nested one level down.
    pub fn nested_setting(&self, key: &str, nested_key: &str) -> (r: Option<JsonValue>)
        ensures
            match r {
                Some(v) => nested(self.merged(), key@, nested_key@) == Some(jview(v)),
                None => nested(self.merged(), key@, nested_key@) is None,
            },
    {
        match nested_get(&self.settings, key, nested_key) {
            Some(v) => Some(v.copy()),
            None => None,
        }
    }

    fn string_list(&self, key: &str) -> (r: Vec<String>)
        ensures
            crate::path::strings_view(r@) == string_array(self.merged(), key@),
    {
        array_strings(self.settings.get(key))
    }

    fn optional_string_list(&self, key: &str) -> (r: Option<Vec<String>>)
        ensures
            match r {
                Some(v) => seq_get(self.merged(), key@) matches Some(JView::Arr(_))
                    && crate::path::strings_view(v@) == string_array(self.merged(), key@),
                None => !(seq_get(self.merged(), key@) matches Some(JView::Arr(_))),
            },
    {
        match self.settings.get(key) {
            Some(JsonValue::Array(_)) => Some(self.string_list(key)),
            _ => None,
        }
    }

    /// The last changelog version seen.
    pub fn get_last_changelog_version(&self) -> (r: Option<String>)
        ensures
            opt_str(r) == str_of(seq_get(self.merged(), "lastChangelogVersion"@)),
    {
        self.merged_str("lastChangelogVersion")
    }

    /// Sets the last changelog version seen.
    pub fn set_last_changelog_version(&mut self, version: &str)
        ensures
            global_set(*final(self), *old(self), seq_insert(old(self).global(), "lastChangelogVersion"@, JView::Str(version@)), "lastChangelogVersion"@, None),
    {
        self.set_global("lastChangelogVersion", text(version));
    }

    /// The sessions folder, `~` expanded against `home`.
    pub fn get_session_dir(&self, home: &str) -> (r: Option<String>)
        ensures
            opt_str(r) == match str_of(seq_get(self.merged(), "sessionDir"@)) {
                Some(d) => Some(spec_expand_tilde(d, home@)),
                None => None,
            },
    {
        match self.merged_str("sessionDir") {
            Some(d) => Some(expand_tilde_path(d.as_str(), home)),
            None => None,
        }
    }

    /// The default provider.
    pub fn get_default_provider(&self) -> (r: Option<String>)
        ensures
            opt_str(r) == str_of(seq_get(self.merged(), "defaultProvider"@)),
    {
        self.merged_str("defaultProvider")
    }

    /// The default model.
    pub fn get_default_model(&self) -> (r: Option<String>)
        ensures
            opt_str(r) == str_of(seq_get(self.merged(), "defaultModel"@)),
    {
        self.merged_str("defaultModel")
    }

    /// Sets the default provider.
    pub fn set_default_provider(&mut self, provider: &str)
        ensures
            global_set(*final(self), *old(self), seq_insert(old(self).global(), "defaultProvider"@, JView::Str(provider@)), "defaultProvider"@, None),
    {
        self.set_global("defaultProvider", text(provider));
    }

    /// Sets the default model.
    pub fn set_default_model(&mut self, model_id: &str)
        ensures
            global_set(*final(self), *old(self), seq_insert(old(self).global(), "defaultModel"@, JView::Str(model_id@)), "defaultModel"@, None),
    {
        self.set_global("defaultModel", text(model_id));
    }

    /// Sets the default provider and model together.
    pub fn set_default_model_and_provider(&mut self, provider: &str, model_id: &str)
        ensures
            final(self).global() == seq_insert(seq_insert(old(self).global(), "defaultProvider"@, JView::Str(provider@)), "defaultModel"@, JView::Str(model_id@)),
            final(self).project() == old(self).project(),
            final(self).merged() == spec_deep_merge(final(self).global(), final(self).project()),
            final(self).modified() == old(self).modified().insert("defaultProvider"@).insert("defaultModel"@),
            final(self).recorded() == old(self).recorded(),
    {
        self.global_settings.insert("defaultProvider", text(provider));
        self.global_settings.insert("defaultModel", text(model_id));
        self.mark_modified("defaultProvider", None);
        self.mark_modified("defaultModel", None);
        self.remerge();
    }

    /// How steering messages queue: `one-at-a-time` unless set non-empty.
    pub fn get_steering_mode(&self) -> (r: String)
        ensures
            r@ == match str_of(seq_get(self.merged(), "steeringMode"@)) {
                Some(m) => if m.len() > 0 { m } else { "one-at-a-time"@ },
                None => "one-at-a-time"@,
            },
    {
        match self.merged_str("steeringMode") {
            Some(m) => if m.unicode_len() > 0 { m } else { string_of(chars_of("one-at-a-time").as_slice()) },
            None => string_of(chars_of("one-at-a-time").as_slice()),
        }
    }

    /// Sets the steering mode.
    pub fn set_steering_mode(&mut self, mode: &str)
        ensures
            global_set(*final(self), *old(self), seq_insert(old(self).global(), "steeringMode"@, JView::Str(mode@)), "steeringMode"@, None),
    {
        self.set_global("steeringMode", text(mode));
    }

    /// How follow-up messages queue: `one-at-a-time` unless set non-empty.
    pub fn get_follow_up_mode(&self) -> (r: String)
        ensures
            r@ == match str_of(seq_get(self.merged(), "followUpMode"@)) {
                Some(m) => if m.len() > 0 { m } else { "one-at-a-time"@ },
                None => "one-at-a-time"@,
            },
    {
        match self.merged_str("followUpMode") {
            Some(m) => if m.unicode_len() > 0 { m } else { string_of(chars_of("one-at-a-time").as_slice()) },
            None => string_of(chars_of("one-at-a-time").as_slice()),
        }
    }

    /// Sets the follow-up mode.
    pub fn set_follow_up_mode(&mut self, mode: &str)
        ensures
            global_set(*final(self), *old(self), seq_insert(old(self).global(), "followUpMode"@, JView::Str(mode@)), "followUpMode"@, None),
    {
        self.set_global("followUpMode", text(mode));
    }

    /// The theme.
    pub fn get_theme(&self) -> (r: Option<String>)
        ensures
            opt_str(r) == str_of(seq_get(self.merged(), "theme"@)),
    {
        self.merged_str("theme")
    }

    /// Sets the theme.
    pub fn set_theme(&mut self, theme: &str)
        ensures
            global_set(*final(self), *old(self), seq_insert(old(self).global(), "theme"@, JView::Str(theme@)), "theme"@, None),
    {
        self.set_global("theme", text(theme));
    }

    /// The default thinking level, when set to a valid name.
    pub fn get_default_thinking_level(&self) -> (r: Option<ThinkingLevel>)
        ensures
            r == match str_of(seq_get(self.merged(), "defaultThinkingLevel"@)) {
                Some(n) => spec_parse_thinking_level(n),
                None => None,
            },
    {
        match self.merged_str("defaultThinkingLevel") {
            Some(n) => parse_thinking_level(n.as_str()),
            None => None,
        }
    }

    /// Sets the default thinking level (by name).
    pub fn set_default_thinking_level(&mut self, level: ThinkingLevel)
        ensures
            global_set(*final(self), *old(self), seq_insert(old(self).global(), "defaultThinkingLevel"@, JView::Str(thinking_level_name(level))), "defaultThinkingLevel"@, None),
    {
        self.set_global("defaultThinkingLevel", text(level.name()));
    }

    /// The transport: `auto` unless set.
    pub fn get_transport(&self) -> (r: String)
        ensures
            r@ == match str_of(seq_get(self.merged(), "transport"@)) {
                Some(t) => t,
                None => "auto"@,
            },
    {
        match self.merged_str("transport") {
            Some(t) => t,
            None => string_of(chars_of("auto").as_slice()),
        }
    }

    /// Sets the transport.
    pub fn set_transport(&mut self, transport: &str)
        ensures
            global_set(*final(self), *old(self), seq_insert(old(self).global(), "transport"@, JView::Str(transport@)), "transport"@, None),
    {
        self.set_global("transport", text(transport));
    }
}

impl SettingsManager {
    /// Whether compaction is on (default on).
    pub fn get_compaction_enabled(&self) -> (r: bool)
        ensures
            r == bool_or(nested(self.merged(), "compaction"@, "enabled"@), true),
    {
        self.nested_bool("compaction", "enabled", true)
    }

    /// Turns compaction on or off.
    pub fn set_compaction_enabled(&mut self, enabled: bool)
        ensures
            global_set(
                *final(self),
                *old(self),
                seq_insert(old(self).global(), "compaction"@, JView::Obj(seq_insert(obj_or_empty(seq_get(old(self).global(), "compaction"@)), "enabled"@, JView::Bool(enabled)))),
                "compaction"@,
                Some("enabled"@),
            ),
    {
        self.set_global_nested("compaction", "enabled", JsonValue::Bool(enabled));
    }

    /// The tokens compaction reserves (default 16384).
    pub fn get_compaction_reserve_tokens(&self) -> (r: u64)
        ensures
            r == u64_or(nested(self.merged(), "compaction"@, "reserveTokens"@), 16384),
    {
        self.nested_u64("compaction", "reserveTokens", 16384)
    }

    /// The recent tokens compaction keeps (default 20000).
    pub fn get_compaction_keep_recent_tokens(&self) -> (r: u64)
        ensures
            r == u64_or(nested(self.merged(), "compaction"@, "keepRecentTokens"@), 20000),
    {
        self.nested_u64("compaction", "keepRecentTokens", 20000)
    }

    /// The compaction settings.
    pub fn get_compaction_settings(&self) -> (r: CompactionSettings)
        ensures
            r.enabled == bool_or(nested(self.merged(), "compaction"@, "enabled"@), true),
            r.reserve_tokens == u64_or(nested(self.merged(), "compaction"@, "reserveTokens"@), 16384),
            r.keep_recent_tokens == u64_or(nested(self.merged(), "compaction"@, "keepRecentTokens"@), 20000),
    {
        CompactionSettings {
            enabled: self.get_compaction_enabled(),
            reserve_tokens: self.get_compaction_reserve_tokens(),
            keep_recent_tokens: self.get_compaction_keep_recent_tokens(),
        }
    }

    /// The branch summary settings (defaults: 16384 tokens, prompt shown).
    pub fn get_branch_summary_settings(&self) -> (r: BranchSummarySettings)
        ensures
            r.reserve_tokens == u64_or(nested(self.merged(), "branchSummary"@, "reserveTokens"@), 16384),
            r.skip_prompt == bool_or(nested(self.merged(), "branchSummary"@, "skipPrompt"@), false),
    {
        BranchSummarySettings {
            reserve_tokens: self.nested_u64("branchSummary", "reserveTokens", 16384),
            skip_prompt: self.get_branch_summary_skip_prompt(),
        }
    }

    /// Whether the branch summary prompt is skipped (default no).
    pub fn get_branch_summary_skip_prompt(&self) -> (r: bool)
        ensures
            r == bool_or(nested(self.merged(), "branchSummary"@, "skipPrompt"@), false),
    {
        self.nested_bool("branchSummary", "skipPrompt", false)
    }

    /// Whether retries are on (default on).
    pub fn get_retry_enabled(&self) -> (r: bool)
        ensures
            r == bool_or(nested(self.merged(), "retry"@, "enabled"@), true),
    {
        self.nested_bool("retry", "enabled", true)
    }

    /// Turns retries on or off.
    pub fn set_retry_enabled(&mut self, enabled: bool)
        ensures
            global_set(
                *final(self),
                *old(self),
                seq_insert(old(self).global(), "retry"@, JView::Obj(seq_insert(obj_or_empty(seq_get(old(self).global(), "retry"@)), "enabled"@, JView::Bool(enabled)))),
                "retry"@,
                Some("enabled"@),
            ),
    {
        self.set_global_nested("retry", "enabled", JsonValue::Bool(enabled));
    }

    /// The retry settings (defaults: on, 3 retries, 2000 ms).
    pub fn get_retry_settings(&self) -> (r: RetrySettings)
        ensures
            r.enabled == bool_or(nested(self.merged(), "retry"@, "enabled"@), true),
            r.max_retries == u64_or(nested(self.merged(), "retry"@, "maxRetries"@), 3),
            r.base_delay_ms == u64_or(nested(self.merged(), "retry"@, "baseDelayMs"@), 2000),
    {
        RetrySettings {
            enabled: self.get_retry_enabled(),
            max_retries: self.nested_u64("retry", "maxRetries", 3),
            base_delay_ms: self.nested_u64("retry", "baseDelayMs", 2000),
        }
    }

    /// Sets the HTTP idle timeout.
    pub fn set_http_idle_timeout_ms(&mut self, timeout_ms: u64)
        ensures
            global_set(*final(self), *old(self), seq_insert(old(self).global(), "httpIdleTimeoutMs"@, JView::Number(JsonNumber::PosInt(timeout_ms))), "httpIdleTimeoutMs"@, None),
    {
        self.set_global("httpIdleTimeoutMs", JsonValue::Number(JsonNumber::PosInt(timeout_ms)));
    }

    /// The provider retry settings from `retry.provider` (delay default
    /// 60000 ms).
    pub fn get_provider_retry_settings(&self) -> (r: ProviderRetrySettings)
        ensures
            ({
                let p = match nested(self.merged(), "retry"@, "provider"@) {
                    Some(JView::Obj(es)) => es,
                    _ => Seq::<(Seq<char>, JView)>::empty(),
                };
                &&& r.timeout_ms == u64_of(seq_get(p, "timeoutMs"@))
                &&& r.max_retries == u64_of(seq_get(p, "maxRetries"@))
                &&& r.max_retry_delay_ms == u64_or(seq_get(p, "maxRetryDelayMs"@), 60000)
            }),
    {
        let empty = JsonObject::new();
        let provider = match nested_get(&self.settings, "retry", "provider") {
            Some(JsonValue::Object(p)) => p,
            _ => &empty,
        };
        ProviderRetrySettings {
            timeout_ms: u64_value(provider.get("timeoutMs")),
            max_retries: u64_value(provider.get("maxRetries")),
            max_retry_delay_ms: match u64_value(provider.get("maxRetryDelayMs")) {
                Some(n) => n,
                None => 60000,
            },
        }
    }

    /// Whether thinking blocks are hidden (default no).
    pub fn get_hide_thinking_block(&self) -> (r: bool)
        ensures
            r == bool_or(seq_get(self.merged(), "hideThinkingBlock"@), false),
    {
        self.merged_bool("hideThinkingBlock", false)
    }

    /// Hides or shows thinking blocks.
    pub fn set_hide_thinking_block(&mut self, hide: bool)
        ensures
            global_set(*final(self), *old(self), seq_insert(old(self).global(), "hideThinkingBlock"@, JView::Bool(hide)), "hideThinkingBlock"@, None),
    {
        self.set_global("hideThinkingBlock", JsonValue::Bool(hide));
    }

    /// The shell path.
    pub fn get_shell_path(&self) -> (r: Option<String>)
        ensures
            opt_str(r) == str_of(seq_get(self.merged(), "shellPath"@)),
    {
        self.merged_str("shellPath")
    }

    /// Sets or clears the shell path.
    pub fn set_shell_path(&mut self, path: Option<&str>)
        ensures
            global_set(*final(self), *old(self), match path {
                Some(v) => seq_insert(old(self).global(), "shellPath"@, JView::Str(v@)),
                None => seq_remove(old(self).global(), "shellPath"@),
            }, "shellPath"@, None),
    {
        let value = match path {
            Some(v) => Some(text(v)),
            None => None,
        };
        self.set_global_opt("shellPath", value);
    }

    /// Whether startup is quiet (default no).
    pub fn get_quiet_startup(&self) -> (r: bool)
        ensures
            r == bool_or(seq_get(self.merged(), "quietStartup"@), false),
    {
        self.merged_bool("quietStartup", false)
    }

    /// Makes startup quiet or not.
    pub fn set_quiet_startup(&mut self, quiet: bool)
        ensures
            global_set(*final(self), *old(self), seq_insert(old(self).global(), "quietStartup"@, JView::Bool(quiet)), "quietStartup"@, None),
    {
        self.set_global("quietStartup", JsonValue::Bool(quiet));
    }

    /// The default project trust of the global settings: `always`,
    /// `never`, or else `ask`.
    pub fn get_default_project_trust(&self) -> (r: &'static str)
        ensures
            r@ == match str_of(seq_get(self.global(), "defaultProjectTrust"@)) {
                Some(t) => if t == "always"@ { "always"@ } else if t == "never"@ { "never"@ } else { "ask"@ },
                None => "ask"@,
            },
    {
        match str_value(self.global_settings.get("defaultProjectTrust")) {
            Some(t) => {
                let v = chars_of(t.as_str());
                if is_lit(&v, "always") {
                    "always"
                } else if is_lit(&v, "never") {
                    "never"
                } else {
                    "ask"
                }
            },
            None => "ask",
        }
    }

    /// Sets the default project trust.
    pub fn set_default_project_trust(&mut self, default_project_trust: &str)
        ensures
            global_set(*final(self), *old(self), seq_insert(old(self).global(), "defaultProjectTrust"@, JView::Str(default_project_trust@)), "defaultProjectTrust"@, None),
    {
        self.set_global("defaultProjectTrust", text(default_project_trust));
    }

    /// The shell command prefix.
    pub fn get_shell_command_prefix(&self) -> (r: Option<String>)
        ensures
            opt_str(r) == str_of(seq_get(self.merged(), "shellCommandPrefix"@)),
    {
        self.merged_str("shellCommandPrefix")
    }

    /// Sets or clears the shell command prefix.
    pub fn set_shell_command_prefix(&mut self, prefix: Option<&str>)
        ensures
            global_set(*final(self), *old(self), match prefix {
                Some(v) => seq_insert(old(self).global(), "shellCommandPrefix"@, JView::Str(v@)),
                None => seq_remove(old(self).global(), "shellCommandPrefix"@),
            }, "shellCommandPrefix"@, None),
    {
        let value = match prefix {
            Some(v) => Some(text(v)),
            None => None,
        };
        self.set_global_opt("shellCommandPrefix", value);
    }

    /// The npm command, when set as an array (its strings).
    pub fn get_npm_command(&self) -> (r: Option<Vec<String>>)
        ensures
            match r {
                Some(v) => seq_get(self.merged(), "npmCommand"@) matches Some(JView::Arr(_))
                    && crate::path::strings_view(v@) == string_array(self.merged(), "npmCommand"@),
                None => !(seq_get(self.merged(), "npmCommand"@) matches Some(JView::Arr(_))),
            },
    {
        self.optional_string_list("npmCommand")
    }

    /// Sets or clears the npm command.
    pub fn set_npm_command(&mut self, command: Option<&Vec<String>>)
        ensures
            global_set(*final(self), *old(self), match command {
                Some(c) => seq_insert(old(self).global(), "npmCommand"@, strings_json(c@)),
                None => seq_remove(old(self).global(), "npmCommand"@),
            }, "npmCommand"@, None),
    {
        let value = match command {
            Some(c) => Some(strings_value(c)),
            None => None,
        };
        self.set_global_opt("npmCommand", value);
    }

    /// Whether the changelog is collapsed (default no).
    pub fn get_collapse_changelog(&self) -> (r: bool)
        ensures
            r == bool_or(seq_get(self.merged(), "collapseChangelog"@), false),
    {
        self.merged_bool("collapseChangelog", false)
    }

    /// Collapses the changelog or not.
    pub fn set_collapse_changelog(&mut self, collapse: bool)
        ensures
            global_set(*final(self), *old(self), seq_insert(old(self).global(), "collapseChangelog"@, JView::Bool(collapse)), "collapseChangelog"@, None),
    {
        self.set_global("collapseChangelog", JsonValue::Bool(collapse));
    }

    /// Whether install telemetry is on (default on).
    pub fn get_enable_install_telemetry(&self) -> (r: bool)
        ensures
            r == bool_or(seq_get(self.merged(), "enableInstallTelemetry"@), true),
    {
        self.merged_bool("enableInstallTelemetry", true)
    }

    /// Turns install telemetry on or off.
    pub fn set_enable_install_telemetry(&mut self, enabled: bool)
        ensures
            global_set(*final(self), *old(self), seq_insert(old(self).global(), "enableInstallTelemetry"@, JView::Bool(enabled)), "enableInstallTelemetry"@, None),
    {
        self.set_global("enableInstallTelemetry", JsonValue::Bool(enabled));
    }

    /// The configured packages (copies), or none when not an array.
    pub fn get_packages(&self) -> (r: Vec<JsonValue>)
        ensures
            crate::json::jviews(r@) == match seq_get(self.merged(), "packages"@) {
                Some(JView::Arr(a)) => a,
                _ => Seq::<JView>::empty(),
            },
    {
        match self.settings.get("packages") {
            Some(JsonValue::Array(a)) => crate::json::copy_array(a),
            _ => {
                let r: Vec<JsonValue> = Vec::new();
                proof {
                    crate::json::lemma_jviews(r@);
                }
                r
            },
        }
    }

    /// Sets the global packages.
    pub fn set_packages(&mut self, packages: Vec<JsonValue>)
        ensures
            global_set(*final(self), *old(self), seq_insert(old(self).global(), "packages"@, JView::Arr(crate::json::jviews(packages@))), "packages"@, None),
    {
        self.set_global("packages", JsonValue::Array(packages));
    }

    /// Sets the project packages; refused when the project is not
    /// trusted.
    pub fn set_project_packages(&mut self, packages: Vec<JsonValue>) -> (r: Result<(), SettingsManagerError>)
        ensures
            project_set(*final(self), *old(self), "packages"@, JView::Arr(crate::json::jviews(packages@)), r),
    {
        self.update_project_settings("packages", JsonValue::Array(packages))
    }

    /// The extension paths.
    pub fn get_extension_paths(&self) -> (r: Vec<String>)
        ensures
            crate::path::strings_view(r@) == string_array(self.merged(), "extensions"@),
    {
        self.string_list("extensions")
    }

    /// Sets the global extension paths.
    pub fn set_extension_paths(&mut self, paths: &Vec<String>)
        ensures
            global_set(*final(self), *old(self), seq_insert(old(self).global(), "extensions"@, strings_json(paths@)), "extensions"@, None),
    {
        self.set_global("extensions", strings_value(paths));
    }

    /// Sets the project extension paths; refused when the project is not
    /// trusted.
    pub fn set_project_extension_paths(&mut self, paths: &Vec<String>) -> (r: Result<(), SettingsManagerError>)
        ensures
            project_set(*final(self), *old(self), "extensions"@, strings_json(paths@), r),
    {
        self.update_project_settings("extensions", strings_value(paths))
    }

    /// The skill paths.
    pub fn get_skill_paths(&self) -> (r: Vec<String>)
        ensures
            crate::path::strings_view(r@) == string_array(self.merged(), "skills"@),
    {
        self.string_list("skills")
    }

    /// Sets the global skill paths.
    pub fn set_skill_paths(&mut self, paths: &Vec<String>)
        ensures
            global_set(*final(self), *old(self), seq_insert(old(self).global(), "skills"@, strings_json(paths@)), "skills"@, None),
    {
        self.set_global("skills", strings_value(paths));
    }

    /// Sets the project skill paths; refused when the project is not
    /// trusted.
    pub fn set_project_skill_paths(&mut self, paths: &Vec<String>) -> (r: Result<(), SettingsManagerError>)
        ensures
            project_set(*final(self), *old(self), "skills"@, strings_json(paths@), r),
    {
        self.update_project_settings("skills", strings_value(paths))
    }

    /// The prompt template paths.
    pub fn get_prompt_template_paths(&self) -> (r: Vec<String>)
        ensures
            crate::path::strings_view(r@) == string_array(self.merged(), "prompts"@),
    {
        self.string_list("prompts")
    }

    /// Sets the global prompt template paths.
    pub fn set_prompt_template_paths(&mut self, paths: &Vec<String>)
        ensures
            global_set(*final(self), *old(self), seq_insert(old(self).global(), "prompts"@, strings_json(paths@)), "prompts"@, None),
    {
        self.set_global("prompts", strings_value(paths));
    }

    /// Sets the project prompt template paths; refused when the project is not
    /// trusted.
    pub fn set_project_prompt_template_paths(&mut self, paths: &Vec<String>) -> (r: Result<(), SettingsManagerError>)
        ensures
            project_set(*final(self), *old(self), "prompts"@, strings_json(paths@), r),
    {
        self.update_project_settings("prompts", strings_value(paths))
    }

    /// The theme paths.
    pub fn get_theme_paths(&self) -> (r: Vec<String>)
        ensures
            crate::path::strings_view(r@) == string_array(self.merged(), "themes"@),
    {
        self.string_list("themes")
    }

    /// Sets the global theme paths.
    pub fn set_theme_paths(&mut self, paths: &Vec<String>)
        ensures
            global_set(*final(self), *old(self), seq_insert(old(self).global(), "themes"@, strings_json(paths@)), "themes"@, None),
    {
        self.set_global("themes", strings_value(paths));
    }

    /// Sets the project theme paths; refused when the project is not
    /// trusted.
    pub fn set_project_theme_paths(&mut self, paths: &Vec<String>) -> (r: Result<(), SettingsManagerError>)
        ensures
            project_set(*final(self), *old(self), "themes"@, strings_json(paths@), r),
    {
        self.update_project_settings("themes", strings_value(paths))
    }

    /// Whether skill commands are on (default on).
    pub fn get_enable_skill_commands(&self) -> (r: bool)
        ensures
            r == bool_or(seq_get(self.merged(), "enableSkillCommands"@), true),
    {
        self.merged_bool("enableSkillCommands", true)
    }

    /// Turns skill commands on or off.
    pub fn set_enable_skill_commands(&mut self, enabled: bool)
        ensures
            global_set(*final(self), *old(self), seq_insert(old(self).global(), "enableSkillCommands"@, JView::Bool(enabled)), "enableSkillCommands"@, None),
    {
        self.set_global("enableSkillCommands", JsonValue::Bool(enabled));
    }

    /// The thinking budgets (a copy).
    pub fn get_thinking_budgets(&self) -> (r: Option<JsonValue>)
        ensures
            match r {
                Some(v) => seq_get(self.merged(), "thinkingBudgets"@) == Some(jview(v)),
                None => seq_get(self.merged(), "thinkingBudgets"@) is None,
            },
    {
        match self.settings.get("thinkingBudgets") {
            Some(v) => Some(v.copy()),
            None => None,
        }
    }

    /// Whether images are shown (default yes).
    pub fn get_show_images(&self) -> (r: bool)
        ensures
            r == bool_or(nested(self.merged(), "terminal"@, "showImages"@), true),
    {
        self.nested_bool("terminal", "showImages", true)
    }

    /// Shows images or not.
    pub fn set_show_images(&mut self, show: bool)
        ensures
            global_set(
                *final(self),
                *old(self),
                seq_insert(old(self).global(), "terminal"@, JView::Obj(seq_insert(obj_or_empty(seq_get(old(self).global(), "terminal"@)), "showImages"@, JView::Bool(show)))),
                "terminal"@,
                Some("showImages"@),
            ),
    {
        self.set_global_nested("terminal", "showImages", JsonValue::Bool(show));
    }

    /// Sets the image width in cells (at least one).
    pub fn set_image_width_cells(&mut self, width: u64)
        ensures
            global_set(
                *final(self),
                *old(self),
                seq_insert(old(self).global(), "terminal"@, JView::Obj(seq_insert(
                    obj_or_empty(seq_get(old(self).global(), "terminal"@)),
                    "imageWidthCells"@,
                    JView::Number(JsonNumber::PosInt(if width < 1 { 1 } else { width })),
                ))),
                "terminal"@,
                Some("imageWidthCells"@),
            ),
    {
        let w = if width < 1 { 1 } else { width };
        self.set_global_nested("terminal", "imageWidthCells", JsonValue::Number(JsonNumber::PosInt(w)));
    }

    /// Whether the screen clears when content shrinks: the setting, else
    /// whether `PI_CLEAR_ON_SHRINK` is `1` (given by the host).
    pub fn get_clear_on_shrink(&self, env_clear_on_shrink_is_one: bool) -> (r: bool)
        ensures
            r == bool_or(nested(self.merged(), "terminal"@, "clearOnShrink"@), env_clear_on_shrink_is_one),
    {
        self.nested_bool("terminal", "clearOnShrink", env_clear_on_shrink_is_one)
    }

    /// Clears on shrink or not.
    pub fn set_clear_on_shrink(&mut self, enabled: bool)
        ensures
            global_set(
                *final(self),
                *old(self),
                seq_insert(old(self).global(), "terminal"@, JView::Obj(seq_insert(obj_or_empty(seq_get(old(self).global(), "terminal"@)), "clearOnShrink"@, JView::Bool(enabled)))),
                "terminal"@,
                Some("clearOnShrink"@),
            ),
    {
        self.set_global_nested("terminal", "clearOnShrink", JsonValue::Bool(enabled));
    }

    /// Whether terminal progress is shown (default no).
    pub fn get_show_terminal_progress(&self) -> (r: bool)
        ensures
            r == bool_or(nested(self.merged(), "terminal"@, "showTerminalProgress"@), false),
    {
        self.nested_bool("terminal", "showTerminalProgress", false)
    }

    /// Shows terminal progress or not.
    pub fn set_show_terminal_progress(&mut self, enabled: bool)
        ensures
            global_set(
                *final(self),
                *old(self),
                seq_insert(old(self).global(), "terminal"@, JView::Obj(seq_insert(obj_or_empty(seq_get(old(self).global(), "terminal"@)), "showTerminalProgress"@, JView::Bool(enabled)))),
                "terminal"@,
                Some("showTerminalProgress"@),
            ),
    {
        self.set_global_nested("terminal", "showTerminalProgress", JsonValue::Bool(enabled));
    }

    /// Whether images are resized (default yes).
    pub fn get_image_auto_resize(&self) -> (r: bool)
        ensures
            r == bool_or(nested(self.merged(), "images"@, "autoResize"@), true),
    {
        self.nested_bool("images", "autoResize", true)
    }

    /// Resizes images or not.
    pub fn set_image_auto_resize(&mut self, enabled: bool)
        ensures
            global_set(
                *final(self),
                *old(self),
                seq_insert(old(self).global(), "images"@, JView::Obj(seq_insert(obj_or_empty(seq_get(old(self).global(), "images"@)), "autoResize"@, JView::Bool(enabled)))),
                "images"@,
                Some("autoResize"@),
            ),
    {
        self.set_global_nested("images", "autoResize", JsonValue::Bool(enabled));
    }

    /// Whether images are blocked (default no).
    pub fn get_block_images(&self) -> (r: bool)
        ensures
            r == bool_or(nested(self.merged(), "images"@, "blockImages"@), false),
    {
        self.nested_bool("images", "blockImages", false)
    }

    /// Blocks images or not.
    pub fn set_block_images(&mut self, blocked: bool)
        ensures
            global_set(
                *final(self),
                *old(self),
                seq_insert(old(self).global(), "images"@, JView::Obj(seq_insert(obj_or_empty(seq_get(old(self).global(), "images"@)), "blockImages"@, JView::Bool(blocked)))),
                "images"@,
                Some("blockImages"@),
            ),
    {
        self.set_global_nested("images", "blockImages", JsonValue::Bool(blocked));
    }

    /// The enabled model patterns, when set as an array (its strings).
    pub fn get_enabled_models(&self) -> (r: Option<Vec<String>>)
        ensures
            match r {
                Some(v) => seq_get(self.merged(), "enabledModels"@) matches Some(JView::Arr(_))
                    && crate::path::strings_view(v@) == string_array(self.merged(), "enabledModels"@),
                None => !(seq_get(self.merged(), "enabledModels"@) matches Some(JView::Arr(_))),
            },
    {
        self.optional_string_list("enabledModels")
    }

    /// Sets or clears the enabled model patterns.
    pub fn set_enabled_models(&mut self, patterns: Option<&Vec<String>>)
        ensures
            global_set(*final(self), *old(self), match patterns {
                Some(c) => seq_insert(old(self).global(), "enabledModels"@, strings_json(c@)),
                None => seq_remove(old(self).global(), "enabledModels"@),
            }, "enabledModels"@, None),
    {
        let value = match patterns {
            Some(c) => Some(strings_value(c)),
            None => None,
        };
        self.set_global_opt("enabledModels", value);
    }

    /// The double-escape action: `tree` unless set.
    pub fn get_double_escape_action(&self) -> (r: String)
        ensures
            r@ == match str_of(seq_get(self.merged(), "doubleEscapeAction"@)) {
                Some(a) => a,
                None => "tree"@,
            },
    {
        match self.merged_str("doubleEscapeAction") {
            Some(a) => a,
            None => string_of(chars_of("tree").as_slice()),
        }
    }

    /// Sets the double-escape action.
    pub fn set_double_escape_action(&mut self, action: &str)
        ensures
            global_set(*final(self), *old(self), seq_insert(old(self).global(), "doubleEscapeAction"@, JView::Str(action@)), "doubleEscapeAction"@, None),
    {
        self.set_global("doubleEscapeAction", text(action));
    }

    /// The tree filter mode: the setting when valid, else `default`.
    pub fn get_tree_filter_mode(&self) -> (r: String)
        ensures
            r@ == match str_of(seq_get(self.merged(), "treeFilterMode"@)) {
                Some(m) => if valid_tree_filter(m) { m } else { "default"@ },
                None => "default"@,
            },
    {
        match self.merged_str("treeFilterMode") {
            Some(m) => {
                let v = chars_of(m.as_str());
                if is_lit(&v, "default") || is_lit(&v, "no-tools") || is_lit(&v, "user-only") || is_lit(&v, "labeled-only") || is_lit(&v, "all") {
                    m
                } else {
                    string_of(chars_of("default").as_slice())
                }
            },
            None => string_of(chars_of("default").as_slice()),
        }
    }

    /// Sets the tree filter mode.
    pub fn set_tree_filter_mode(&mut self, mode: &str)
        ensures
            global_set(*final(self), *old(self), seq_insert(old(self).global(), "treeFilterMode"@, JView::Str(mode@)), "treeFilterMode"@, None),
    {
        self.set_global("treeFilterMode", text(mode));
    }

    /// Whether the hardware cursor shows: the setting, else whether
    /// `PI_HARDWARE_CURSOR` is `1` (given by the host).
    pub fn get_show_hardware_cursor(&self, env_hardware_cursor_is_one: bool) -> (r: bool)
        ensures
            r == bool_or(seq_get(self.merged(), "showHardwareCursor"@), env_hardware_cursor_is_one),
    {
        self.merged_bool("showHardwareCursor", env_hardware_cursor_is_one)
    }

    /// Shows the hardware cursor or not.
    pub fn set_show_hardware_cursor(&mut self, enabled: bool)
        ensures
            global_set(*final(self), *old(self), seq_insert(old(self).global(), "showHardwareCursor"@, JView::Bool(enabled)), "showHardwareCursor"@, None),
    {
        self.set_global("showHardwareCursor", JsonValue::Bool(enabled));
    }

    /// The editor's horizontal padding (default 0).
    pub fn get_editor_padding_x(&self) -> (r: u64)
        ensures
            r == u64_or(seq_get(self.merged(), "editorPaddingX"@), 0),
    {
        match u64_value(self.settings.get("editorPaddingX")) {
            Some(n) => n,
            None => 0,
        }
    }

    /// Sets the editor's horizontal padding (at most 3).
    pub fn set_editor_padding_x(&mut self, padding: u64)
        ensures
            global_set(*final(self), *old(self), seq_insert(old(self).global(), "editorPaddingX"@, JView::Number(JsonNumber::PosInt(if padding > 3 { 3 } else { padding }))), "editorPaddingX"@, None),
    {
        let p = if padding > 3 { 3 } else { padding };
        self.set_global("editorPaddingX", JsonValue::Number(JsonNumber::PosInt(p)));
    }

    /// The most autocomplete entries shown (default 5).
    pub fn get_autocomplete_max_visible(&self) -> (r: u64)
        ensures
            r == u64_or(seq_get(self.merged(), "autocompleteMaxVisible"@), 5),
    {
        match u64_value(self.settings.get("autocompleteMaxVisible")) {
            Some(n) => n,
            None => 5,
        }
    }

    /// Sets the most autocomplete entries shown (between 3 and 20).
    pub fn set_autocomplete_max_visible(&mut self, max_visible: u64)
        ensures
            global_set(*final(self), *old(self), seq_insert(old(self).global(), "autocompleteMaxVisible"@, JView::Number(JsonNumber::PosInt(
                if max_visible < 3 { 3 } else if max_visible > 20 { 20 } else { max_visible },
            ))), "autocompleteMaxVisible"@, None),
    {
        let v = if max_visible < 3 { 3 } else if max_visible > 20 { 20 } else { max_visible };
        self.set_global("autocompleteMaxVisible", JsonValue::Number(JsonNumber::PosInt(v)));
    }

    /// The indent of code blocks in markdown (default two spaces).
    pub fn get_code_block_indent(&self) -> (r: String)
        ensures
            r@ == match str_of(nested(self.merged(), "markdown"@, "codeBlockIndent"@)) {
                Some(i) => i,
                None => "  "@,
            },
    {
        match str_value(nested_get(&self.settings, "markdown", "codeBlockIndent")) {
            Some(i) => i,
            None => string_of(chars_of("  ").as_slice()),
        }
    }

    /// The warnings settings (a copy), or an empty object.
    pub fn get_warnings(&self) -> (r: JsonObject)
        ensures
            r.entries_view() == obj_or_empty(seq_get(self.merged(), "warnings"@)),
    {
        match self.settings.get("warnings") {
            Some(JsonValue::Object(o)) => o.copy(),
            _ => JsonObject::new(),
        }
    }

    /// Sets the warnings settings.
    pub fn set_warnings(&mut self, warnings: JsonObject)
        ensures
            global_set(*final(self), *old(self), seq_insert(old(self).global(), "warnings"@, JView::Obj(warnings.entries_view())), "warnings"@, None),
    {
        self.set_global("warnings", JsonValue::Object(warnings));
    }
}

/// A global setting that the project does not set reads back, after the
/// merge, as written; one the project sets to a non-object reads as the
/// project's.
pub proof fn law_global_setting_visible(
    g: Seq<(Seq<char>, JView)>,
    p: Seq<(Seq<char>, JView)>,
    key: Seq<char>,
    v: JView,
)
    requires
        crate::json::distinct_keys(g),
        crate::json::distinct_keys(p),
    ensures
        seq_get(p, key) is None ==> seq_get(spec_deep_merge(seq_insert(g, key, v), p), key) == Some(v),
        (seq_get(p, key) matches Some(pv) && !(pv is Obj)) ==> seq_get(spec_deep_merge(seq_insert(g, key, v), p), key) == seq_get(p, key),
{
    crate::json::lemma_seq_insert(g, key, v);
    let g2 = seq_insert(g, key, v);
    law_deep_merge(g2, p);
    crate::json::lemma_seq_get(spec_deep_merge(g2, p), key);
    crate::json::lemma_seq_get(p, key);
    crate::json::lemma_seq_get(g2, key);
}
} // verus!
