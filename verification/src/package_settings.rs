//! The `packages` setting: how configured sources are named, matched,
//! added, removed and deduplicated.
//!
//! Two sources are the same package when their identities agree: the
//! npm name, the Git host and path, or the resolved local path. A local
//! path written in the settings is read against its scope's base folder;
//! one given as input is read against the working folder.

use vstd::prelude::*;

use crate::json::{copy_array, jview, jviews, lemma_jviews, seq_get, seq_insert, JView, JsonObject, JsonValue};
use crate::packages::{
    base_dir_for_scope, parse_source, path_push, resolve_path_from_base, spec_parse_git_url, spec_parse_npm,
    spec_parse_source_kind, spec_resolve_path_from_base, ParsedSource, Scope,
};
use crate::settings_manager::{global_set, project_set, SettingsManager};
use crate::path::{climb, dot, spec_climb};
use crate::text::{
    chars_eq, chars_of, extend_chars, join_with, lemma_split_on_nonempty, seqs_of, spec_trim, split_chars, split_on, string_of,
};

verus! {

/// The folder a scope's local paths are read against.
pub open spec fn scope_base(scope: Scope, cwd: Seq<char>, agent_dir: Seq<char>) -> Seq<char> {
    if scope == Scope::Project {
        path_push(cwd, ".pi"@)
    } else if scope == Scope::User {
        agent_dir
    } else {
        cwd
    }
}

/// The identity of a source string, local paths resolved against `base`:
/// `npm:<name>`, `git:<host>/<path>` or `local:<resolved path>`.
pub open spec fn spec_source_key(source: Seq<char>, base: Seq<char>, home: Seq<char>) -> Seq<char> {
    let kind = spec_parse_source_kind(source);
    if kind == 0 {
        "npm:"@ + spec_parse_npm(spec_trim(source.skip(4))).0
    } else if kind == 1 {
        let g = spec_parse_git_url(source).unwrap();
        "git:"@ + g.1 + "/"@ + g.2
    } else {
        "local:"@ + spec_resolve_path_from_base(source, base, home)
    }
}

fn source_key(source: &str, base: &str, home: &str) -> (r: String)
    ensures
        r@ == spec_source_key(source@, base@, home@),
{
    let parsed = parse_source(source);
    let mut out: Vec<char>;
    match &parsed {
        ParsedSource::Npm(n) => {
            out = chars_of("npm:");
            extend_chars(&mut out, &chars_of(n.name.as_str()));
        },
        ParsedSource::Git(g) => {
            out = chars_of("git:");
            extend_chars(&mut out, &chars_of(g.host.as_str()));
            extend_chars(&mut out, &chars_of("/"));
            extend_chars(&mut out, &chars_of(g.path.as_str()));
        },
        ParsedSource::Local(l) => {
            let resolved = resolve_path_from_base(l.path.as_str(), base, home);
            out = chars_of("local:");
            extend_chars(&mut out, &chars_of(resolved.as_str()));
        },
    }
    string_of(out.as_slice())
}

/// The identity of a source string in a scope (the user scope when none
/// is given); versions and refs do not take part in it.
pub fn get_package_identity(source: &str, scope: Option<Scope>, cwd: &str, agent_dir: &str, home: &str) -> (r: String)
    ensures
        r@ == spec_source_key(
            source@,
            scope_base(match scope { Some(s) => s, None => Scope::User }, cwd@, agent_dir@),
            home@,
        ),
{
    let s = match scope {
        Some(s) => s,
        None => Scope::User,
    };
    let base = base_dir_for_scope(s, cwd, agent_dir);
    source_key(source, base.as_str(), home)
}

/// The key a source is matched by: local paths are read against the
/// scope's base folder, or against the working folder when no scope is
/// given.
pub fn source_match_key(source: &str, scope: Option<Scope>, cwd: &str, agent_dir: &str, home: &str) -> (r: String)
    ensures
        r@ == spec_source_key(
            source@,
            match scope { Some(s) => scope_base(s, cwd@, agent_dir@), None => cwd@ },
            home@,
        ),
{
    match scope {
        Some(s) => {
            let base = base_dir_for_scope(s, cwd, agent_dir);
            source_key(source, base.as_str(), home)
        },
        None => source_key(source, cwd, home),
    }
}

/// The source of a `packages` entry: the string itself, the `source`
/// string of an object, or empty.
pub open spec fn spec_package_source(p: JView) -> Seq<char> {
    match p {
        JView::Str(s) => s,
        JView::Obj(es) => match seq_get(es, "source"@) {
            Some(JView::Str(s)) => s,
            _ => Seq::<char>::empty(),
        },
        _ => Seq::<char>::empty(),
    }
}

/// The source of a `packages` entry.
pub fn package_source_string(package: &JsonValue) -> (r: String)
    ensures
        r@ == spec_package_source(jview(*package)),
{
    match package {
        JsonValue::String(s) => s.clone(),
        JsonValue::Object(m) => match m.get("source") {
            Some(JsonValue::String(s)) => s.clone(),
            _ => String::new(),
        },
        _ => String::new(),
    }
}

/// Whether a `packages` entry of a scope (whose base folder is `base`)
/// names the same package as the input source.
pub open spec fn source_matches(p: JView, input: Seq<char>, base: Seq<char>, cwd: Seq<char>, home: Seq<char>) -> bool {
    spec_source_key(spec_package_source(p), base, home) == spec_source_key(input, cwd, home)
}

fn keys_equal(a: &String, b: &String) -> (r: bool)
    ensures
        r == (a@ == b@),
{
    chars_eq(&chars_of(a.as_str()), &chars_of(b.as_str()))
}

/// Whether a `packages` entry of `scope` names the same package as the
/// input source.
pub fn package_sources_match(existing: &JsonValue, input: &str, scope: Scope, cwd: &str, agent_dir: &str, home: &str) -> (r: bool)
    ensures
        r == source_matches(jview(*existing), input@, scope_base(scope, cwd@, agent_dir@), cwd@, home@),
{
    let left = source_match_key(package_source_string(existing).as_str(), Some(scope), cwd, agent_dir, home);
    let right = source_match_key(input, None, cwd, agent_dir, home);
    keys_equal(&left, &right)
}

/// `i` is the first entry of `ps` that names the input source.
pub open spec fn is_first_match(ps: Seq<JView>, i: int, input: Seq<char>, base: Seq<char>, cwd: Seq<char>, home: Seq<char>) -> bool {
    &&& 0 <= i < ps.len()
    &&& source_matches(ps[i], input, base, cwd, home)
    &&& forall|j: int| 0 <= j < i ==> !source_matches(#[trigger] ps[j], input, base, cwd, home)
}

/// An entry with its source replaced: an object keeps its other fields.
pub open spec fn with_source(p: JView, source: Seq<char>) -> JView {
    match p {
        JView::Obj(es) => JView::Obj(seq_insert(es, "source"@, JView::Str(source))),
        _ => JView::Str(source),
    }
}

/// The `packages` entries after adding a source stored as `normalized`:
/// the first entry naming the same package gets the new source, unless
/// it already has it (then nothing changes: `None`); with no such entry
/// the source is appended.
pub open spec fn spec_add_source(
    ps: Seq<JView>,
    input: Seq<char>,
    normalized: Seq<char>,
    base: Seq<char>,
    cwd: Seq<char>,
    home: Seq<char>,
) -> Option<Seq<JView>> {
    if exists|i: int| is_first_match(ps, i, input, base, cwd, home) {
        let i = choose|i: int| is_first_match(ps, i, input, base, cwd, home);
        if spec_package_source(ps[i]) == normalized {
            None
        } else {
            Some(ps.update(i, with_source(ps[i], normalized)))
        }
    } else {
        Some(ps.push(JView::Str(normalized)))
    }
}

proof fn lemma_first_match_unique(ps: Seq<JView>, i: int, k: int, input: Seq<char>, base: Seq<char>, cwd: Seq<char>, home: Seq<char>)
    requires
        is_first_match(ps, i, input, base, cwd, home),
        is_first_match(ps, k, input, base, cwd, home),
    ensures
        i == k,
{
    if i < k {
        assert(!source_matches(ps[i], input, base, cwd, home));
    } else if k < i {
        assert(!source_matches(ps[k], input, base, cwd, home));
    }
}

fn replace_source(p: &JsonValue, normalized: &str) -> (r: JsonValue)
    ensures
        jview(r) == with_source(jview(*p), normalized@),
{
    match p {
        JsonValue::Object(m) => {
            let mut next = m.copy();
            next.insert("source", JsonValue::String(normalized.to_owned()));
            JsonValue::Object(next)
        },
        _ => JsonValue::String(normalized.to_owned()),
    }
}

/// The entries of the `packages` array of a settings object; none when
/// it is missing or not an array.
pub open spec fn packages_of(es: Seq<(Seq<char>, JView)>) -> Seq<JView> {
    match seq_get(es, "packages"@) {
        Some(JView::Arr(a)) => a,
        _ => Seq::<JView>::empty(),
    }
}

fn packages_in(settings: &JsonObject) -> (r: Vec<JsonValue>)
    ensures
        jviews(r@) == packages_of(settings.entries_view()),
{
    match settings.get("packages") {
        Some(JsonValue::Array(a)) => copy_array(a),
        _ => {
            let r: Vec<JsonValue> = Vec::new();
            proof {
                lemma_jviews(r@);
            }
            r
        },
    }
}

/// The `packages` entries of a scope's settings after adding `source`,
/// stored as `normalized`; `None` when the matching entry already holds
/// it.
pub fn add_source_to_packages(
    settings: &JsonObject,
    source: &str,
    normalized: &str,
    scope: Scope,
    cwd: &str,
    agent_dir: &str,
    home: &str,
) -> (r: Option<Vec<JsonValue>>)
    ensures
        match r {
            Some(v) => spec_add_source(packages_of(settings.entries_view()), source@, normalized@,
                scope_base(scope, cwd@, agent_dir@), cwd@, home@) == Some(jviews(v@)),
            None => spec_add_source(packages_of(settings.entries_view()), source@, normalized@,
                scope_base(scope, cwd@, agent_dir@), cwd@, home@) is None,
        },
{
    let packages = packages_in(settings);
    let ghost ps = jviews(packages@);
    let ghost base = scope_base(scope, cwd@, agent_dir@);
    proof {
        lemma_jviews(packages@);
    }
    let mut i: usize = 0;
    while i < packages.len()
        invariant
            i <= packages@.len(),
            ps == jviews(packages@),
            ps == packages_of(settings.entries_view()),
            ps.len() == packages@.len(),
            forall|k: int| 0 <= k < packages@.len() ==> #[trigger] ps[k] == jview(packages@[k]),
            base == scope_base(scope, cwd@, agent_dir@),
            forall|j: int| 0 <= j < i ==> !source_matches(#[trigger] ps[j], source@, base, cwd@, home@),
        decreases packages@.len() - i,
    {
        if package_sources_match(&packages[i], source, scope, cwd, agent_dir, home) {
            proof {
                assert(is_first_match(ps, i as int, source@, base, cwd@, home@));
                assert forall|k: int| is_first_match(ps, k, source@, base, cwd@, home@) implies k == i by {
                    lemma_first_match_unique(ps, i as int, k, source@, base, cwd@, home@);
                }
            }
            let existing = package_source_string(&packages[i]);
            let norm = normalized.to_owned();
            if keys_equal(&existing, &norm) {
                return None;
            }
            let replaced = replace_source(&packages[i], normalized);
            let mut next = copy_array(&packages);
            proof {
                lemma_jviews(next@);
            }
            let ghost copied = next@;
            next.set(i, replaced);
            proof {
                lemma_jviews(next@);
                assert(jviews(next@) =~= ps.update(i as int, with_source(ps[i as int], normalized@))) by {
                    assert forall|k: int| 0 <= k < ps.len() && k != i implies jviews(next@)[k] == ps[k] by {
                        assert(next@[k] == copied[k]);
                        assert(jviews(copied)[k] == jview(copied[k]));
                    }
                }
            }
            return Some(next);
        }
        i += 1;
    }
    let mut next = copy_array(&packages);
    let ghost copied = next@;
    let added = JsonValue::String(normalized.to_owned());
    assert(jview(added) == JView::Str(normalized@));
    next.push(added);
    proof {
        assert(next@.subrange(0, next@.len() - 1) =~= copied);
        assert(next@[next@.len() - 1] == added);
        assert(jviews(next@) == jviews(copied).push(JView::Str(normalized@)));
        assert(!exists|k: int| is_first_match(ps, k, source@, base, cwd@, home@));
    }
    Some(next)
}

/// Keeps the entries that do not name the input source.
pub open spec fn keep_unmatched(ps: Seq<JView>, input: Seq<char>, base: Seq<char>, cwd: Seq<char>, home: Seq<char>) -> Seq<JView>
    decreases ps.len(),
{
    if ps.len() == 0 {
        Seq::<JView>::empty()
    } else {
        let kept = keep_unmatched(ps.drop_last(), input, base, cwd, home);
        if source_matches(ps.last(), input, base, cwd, home) {
            kept
        } else {
            kept.push(ps.last())
        }
    }
}

/// The `packages` entries after removing those that name the input
/// source; `None` when the setting is not an array or nothing is removed.
pub open spec fn spec_remove_source(
    es: Seq<(Seq<char>, JView)>,
    input: Seq<char>,
    base: Seq<char>,
    cwd: Seq<char>,
    home: Seq<char>,
) -> Option<Seq<JView>> {
    match seq_get(es, "packages"@) {
        Some(JView::Arr(ps)) => {
            let kept = keep_unmatched(ps, input, base, cwd, home);
            if kept.len() == ps.len() {
                None
            } else {
                Some(kept)
            }
        },
        _ => None,
    }
}

/// The `packages` entries of a scope's settings without those that name
/// `source`; `None` when there is no such array or nothing matched.
pub fn remove_source_from_packages(
    settings: &JsonObject,
    source: &str,
    scope: Scope,
    cwd: &str,
    agent_dir: &str,
    home: &str,
) -> (r: Option<Vec<JsonValue>>)
    ensures
        match r {
            Some(v) => spec_remove_source(settings.entries_view(), source@, scope_base(scope, cwd@, agent_dir@), cwd@, home@)
                == Some(jviews(v@)),
            None => spec_remove_source(settings.entries_view(), source@, scope_base(scope, cwd@, agent_dir@), cwd@, home@) is None,
        },
{
    let values = match settings.get("packages") {
        Some(JsonValue::Array(a)) => a,
        _ => {
            return None;
        },
    };
    let ghost ps = jviews(values@);
    let ghost base = scope_base(scope, cwd@, agent_dir@);
    proof {
        lemma_jviews(values@);
    }
    let mut next: Vec<JsonValue> = Vec::new();
    let mut i: usize = 0;
    proof {
        lemma_jviews(next@);
        assert(ps.take(0) =~= Seq::<JView>::empty());
    }
    while i < values.len()
        invariant
            i <= values@.len(),
            ps == jviews(values@),
            ps.len() == values@.len(),
            forall|k: int| 0 <= k < values@.len() ==> #[trigger] ps[k] == jview(values@[k]),
            base == scope_base(scope, cwd@, agent_dir@),
            jviews(next@) == keep_unmatched(ps.take(i as int), source@, base, cwd@, home@),
        decreases values@.len() - i,
    {
        let ghost t = ps.take(i + 1);
        assert(t.drop_last() =~= ps.take(i as int));
        assert(t.last() == ps[i as int]);
        if !package_sources_match(&values[i], source, scope, cwd, agent_dir, home) {
            let ghost before = next@;
            next.push(values[i].copy());
            assert(next@.subrange(0, next@.len() - 1) =~= before);
        }
        i += 1;
    }
    assert(ps.take(values@.len() as int) =~= ps);
    proof {
        lemma_keep_len(ps, source@, base, cwd@, home@);
        lemma_jviews(next@);
    }
    if next.len() == values.len() {
        None
    } else {
        Some(next)
    }
}

proof fn lemma_keep_len(ps: Seq<JView>, input: Seq<char>, base: Seq<char>, cwd: Seq<char>, home: Seq<char>)
    ensures
        keep_unmatched(ps, input, base, cwd, home).len() <= ps.len(),
    decreases ps.len(),
{
    if ps.len() > 0 {
        lemma_keep_len(ps.drop_last(), input, base, cwd, home);
    }
}

/// Adds a source to a scope's `packages` setting, stored as `normalized`
/// (see [`add_source_to_packages`]); says whether the settings changed.
/// Project settings are refused while the project is not trusted.
pub fn add_source_to_settings(
    settings: &mut SettingsManager,
    source: &str,
    normalized: &str,
    scope: Scope,
    cwd: &str,
    agent_dir: &str,
    home: &str,
) -> (r: bool)
    ensures
        ({
            let es = if scope == Scope::Project { old(settings).project() } else { old(settings).global() };
            match spec_add_source(packages_of(es), source@, normalized@, scope_base(scope, cwd@, agent_dir@), cwd@, home@) {
                None => !r && *final(settings) == *old(settings),
                Some(next) => if scope == Scope::Project {
                    &&& r == old(settings).trusted()
                    &&& r ==> project_set(*final(settings), *old(settings), "packages"@, JView::Arr(next), Ok(()))
                    &&& !r ==> *final(settings) == *old(settings)
                } else {
                    &&& r
                    &&& global_set(*final(settings), *old(settings),
                        seq_insert(old(settings).global(), "packages"@, JView::Arr(next)), "packages"@, None)
                },
            }
        }),
{
    let current = if scope == Scope::Project { settings.get_project_settings() } else { settings.get_global_settings() };
    match add_source_to_packages(&current, source, normalized, scope, cwd, agent_dir, home) {
        None => false,
        Some(next) => {
            if scope == Scope::Project {
                settings.set_project_packages(next).is_ok()
            } else {
                settings.set_packages(next);
                true
            }
        },
    }
}

/// Removes the entries naming a source from a scope's `packages`
/// setting; says whether the settings changed. Project settings are
/// refused while the project is not trusted.
pub fn remove_source_from_settings(
    settings: &mut SettingsManager,
    source: &str,
    scope: Scope,
    cwd: &str,
    agent_dir: &str,
    home: &str,
) -> (r: bool)
    ensures
        ({
            let es = if scope == Scope::Project { old(settings).project() } else { old(settings).global() };
            match spec_remove_source(es, source@, scope_base(scope, cwd@, agent_dir@), cwd@, home@) {
                None => !r && *final(settings) == *old(settings),
                Some(next) => if scope == Scope::Project {
                    &&& r == old(settings).trusted()
                    &&& r ==> project_set(*final(settings), *old(settings), "packages"@, JView::Arr(next), Ok(()))
                    &&& !r ==> *final(settings) == *old(settings)
                } else {
                    &&& r
                    &&& global_set(*final(settings), *old(settings),
                        seq_insert(old(settings).global(), "packages"@, JView::Arr(next)), "packages"@, None)
                },
            }
        }),
{
    let current = if scope == Scope::Project { settings.get_project_settings() } else { settings.get_global_settings() };
    match remove_source_from_packages(&current, source, scope, cwd, agent_dir, home) {
        None => false,
        Some(next) => {
            if scope == Scope::Project {
                settings.set_project_packages(next).is_ok()
            } else {
                settings.set_packages(next);
                true
            }
        },
    }
}

/// Source strings with their scope, as plain values.
pub open spec fn pairs_view(v: Seq<(String, Scope)>) -> Seq<(Seq<char>, Scope)> {
    Seq::new(v.len(), |i: int| (v[i].0@, v[i].1))
}

/// The non-empty sources of `packages` entries, each with `scope`.
pub open spec fn sources_in(ps: Seq<JView>, scope: Scope) -> Seq<(Seq<char>, Scope)>
    decreases ps.len(),
{
    if ps.len() == 0 {
        Seq::<(Seq<char>, Scope)>::empty()
    } else {
        let init = sources_in(ps.drop_last(), scope);
        let s = spec_package_source(ps.last());
        if s.len() > 0 {
            init.push((s, scope))
        } else {
            init
        }
    }
}

fn append_sources(out: &mut Vec<(String, Scope)>, settings: &JsonObject, scope: Scope)
    ensures
        pairs_view(final(out)@) == pairs_view(old(out)@) + sources_in(packages_of(settings.entries_view()), scope),
{
    let packages = packages_in(settings);
    let ghost ps = jviews(packages@);
    let ghost start = pairs_view(out@);
    proof {
        lemma_jviews(packages@);
        assert(ps.take(0) =~= Seq::<JView>::empty());
        assert(start + sources_in(ps.take(0), scope) =~= start);
    }
    let mut i: usize = 0;
    while i < packages.len()
        invariant
            i <= packages@.len(),
            ps == jviews(packages@),
            ps == packages_of(settings.entries_view()),
            ps.len() == packages@.len(),
            forall|k: int| 0 <= k < packages@.len() ==> #[trigger] ps[k] == jview(packages@[k]),
            start == pairs_view(old(out)@),
            pairs_view(out@) == start + sources_in(ps.take(i as int), scope),
        decreases packages@.len() - i,
    {
        let ghost t = ps.take(i + 1);
        assert(t.drop_last() =~= ps.take(i as int));
        assert(t.last() == ps[i as int]);
        let source = package_source_string(&packages[i]);
        if chars_of(source.as_str()).len() > 0 {
            let ghost before = pairs_view(out@);
            proof {
                assert(source@.len() > 0);
            }
            out.push((source, scope));
            assert(pairs_view(out@) =~= before.push((spec_package_source(ps[i as int]), scope)));
        } else {
            proof {
                assert(source@.len() == 0);
            }
        }
        i += 1;
    }
    assert(ps.take(packages@.len() as int) =~= ps);
}

/// Every configured package source with its scope: the project's first,
/// then the user's; entries without a source are skipped.
pub fn configured_package_sources(settings: &SettingsManager) -> (r: Vec<(String, Scope)>)
    ensures
        pairs_view(r@) == sources_in(packages_of(settings.project()), Scope::Project)
            + sources_in(packages_of(settings.global()), Scope::User),
{
    let mut out: Vec<(String, Scope)> = Vec::new();
    assert(pairs_view(out@) =~= Seq::<(Seq<char>, Scope)>::empty());
    let project = settings.get_project_settings();
    append_sources(&mut out, &project, Scope::Project);
    let global = settings.get_global_settings();
    append_sources(&mut out, &global, Scope::User);
    out
}

/// The identity of a configured source in its scope.
pub open spec fn entry_identity(e: (Seq<char>, Scope), cwd: Seq<char>, agent_dir: Seq<char>, home: Seq<char>) -> Seq<char> {
    spec_source_key(e.0, scope_base(e.1, cwd, agent_dir), home)
}

/// `acc[k]` has the identity of `p`.
pub open spec fn same_identity_at(
    acc: Seq<(Seq<char>, Scope)>,
    k: int,
    p: (Seq<char>, Scope),
    cwd: Seq<char>,
    agent_dir: Seq<char>,
    home: Seq<char>,
) -> bool {
    0 <= k < acc.len() && entry_identity(acc[k], cwd, agent_dir, home) == entry_identity(p, cwd, agent_dir, home)
}

/// Some entry of `acc` has the identity of `p`.
pub open spec fn has_identity_of(
    acc: Seq<(Seq<char>, Scope)>,
    p: (Seq<char>, Scope),
    cwd: Seq<char>,
    agent_dir: Seq<char>,
    home: Seq<char>,
) -> bool {
    exists|k: int| same_identity_at(acc, k, p, cwd, agent_dir, home)
}

/// One step of deduplication: a new identity is appended; a project
/// entry replaces a user entry of the same identity; otherwise the
/// entry kept first stays.
pub open spec fn dedupe_step(
    acc: Seq<(Seq<char>, Scope)>,
    p: (Seq<char>, Scope),
    cwd: Seq<char>,
    agent_dir: Seq<char>,
    home: Seq<char>,
) -> Seq<(Seq<char>, Scope)> {
    if exists|k: int| same_identity_at(acc, k, p, cwd, agent_dir, home) {
        let k = choose|k: int| same_identity_at(acc, k, p, cwd, agent_dir, home);
        if p.1 == Scope::Project && acc[k].1 == Scope::User {
            acc.update(k, p)
        } else {
            acc
        }
    } else {
        acc.push(p)
    }
}

/// The deduplicated sources, in the order their identities first occur.
pub open spec fn spec_dedupe(ps: Seq<(Seq<char>, Scope)>, cwd: Seq<char>, agent_dir: Seq<char>, home: Seq<char>) -> Seq<(Seq<char>, Scope)>
    decreases ps.len(),
{
    if ps.len() == 0 {
        Seq::<(Seq<char>, Scope)>::empty()
    } else {
        dedupe_step(spec_dedupe(ps.drop_last(), cwd, agent_dir, home), ps.last(), cwd, agent_dir, home)
    }
}

/// No two entries share an identity.
pub open spec fn distinct_identities(acc: Seq<(Seq<char>, Scope)>, cwd: Seq<char>, agent_dir: Seq<char>, home: Seq<char>) -> bool {
    forall|i: int, j: int|
        0 <= i < j < acc.len() ==> entry_identity(#[trigger] acc[i], cwd, agent_dir, home) != entry_identity(
            #[trigger] acc[j],
            cwd,
            agent_dir,
            home,
        )
}

/// One source per identity: a project entry wins over a user entry of
/// the same package, and otherwise the first entry is kept. Identities
/// come out in the order they first occur.
pub fn dedupe_packages(packages: &Vec<(String, Scope)>, cwd: &str, agent_dir: &str, home: &str) -> (r: Vec<(String, Scope)>)
    ensures
        pairs_view(r@) == spec_dedupe(pairs_view(packages@), cwd@, agent_dir@, home@),
        distinct_identities(pairs_view(r@), cwd@, agent_dir@, home@),
        forall|i: int|
            0 <= i < packages@.len() ==> has_identity_of(pairs_view(r@), #[trigger] pairs_view(packages@)[i], cwd@, agent_dir@, home@),
{
    let ghost pv = pairs_view(packages@);
    let mut kept: Vec<(String, Scope)> = Vec::new();
    let mut ids: Vec<String> = Vec::new();
    let mut i: usize = 0;
    proof {
        assert(pv.take(0) =~= Seq::<(Seq<char>, Scope)>::empty());
        assert(pairs_view(kept@) =~= Seq::<(Seq<char>, Scope)>::empty());
    }
    while i < packages.len()
        invariant
            i <= packages@.len(),
            pv == pairs_view(packages@),
            pairs_view(kept@) == spec_dedupe(pv.take(i as int), cwd@, agent_dir@, home@),
            ids@.len() == kept@.len(),
            forall|k: int| 0 <= k < ids@.len() ==> #[trigger] ids@[k]@ == entry_identity(pairs_view(kept@)[k], cwd@, agent_dir@, home@),
            distinct_identities(pairs_view(kept@), cwd@, agent_dir@, home@),
            forall|j: int| 0 <= j < i ==> has_identity_of(pairs_view(kept@), #[trigger] pairs_view(packages@)[j], cwd@, agent_dir@, home@),
        decreases packages@.len() - i,
    {
        let ghost acc = pairs_view(kept@);
        let ghost p = pv[i as int];
        let ghost t = pv.take(i + 1);
        assert(t.drop_last() =~= pv.take(i as int));
        assert(t.last() == p);
        let source = &packages[i].0;
        let scope = packages[i].1;
        assert(p == (source@, scope));
        let id = get_package_identity(source.as_str(), Some(scope), cwd, agent_dir, home);
        let mut k: usize = 0;
        let mut found: Option<usize> = None;
        while k < ids.len()
            invariant_except_break
                found is None,
            invariant
                k <= ids@.len(),
                ids@.len() == kept@.len(),
                acc == pairs_view(kept@),
                forall|m: int| 0 <= m < ids@.len() ==> #[trigger] ids@[m]@ == entry_identity(acc[m], cwd@, agent_dir@, home@),
                id@ == entry_identity(p, cwd@, agent_dir@, home@),
                forall|m: int| 0 <= m < k ==> !same_identity_at(acc, m, p, cwd@, agent_dir@, home@),
            ensures
                match found {
                    Some(f) => same_identity_at(acc, f as int, p, cwd@, agent_dir@, home@),
                    None => forall|m: int| 0 <= m < acc.len() ==> !same_identity_at(acc, m, p, cwd@, agent_dir@, home@),
                },
            decreases ids@.len() - k,
        {
            if keys_equal(&ids[k], &id) {
                found = Some(k);
                break;
            }
            k += 1;
        }
        match found {
            Some(f) => {
                proof {
                    assert forall|m: int| same_identity_at(acc, m, p, cwd@, agent_dir@, home@) implies m == f by {
                        if m != f {
                            if m < f {
                                assert(entry_identity(acc[m], cwd@, agent_dir@, home@) != entry_identity(acc[f as int], cwd@, agent_dir@, home@));
                            } else {
                                assert(entry_identity(acc[f as int], cwd@, agent_dir@, home@) != entry_identity(acc[m], cwd@, agent_dir@, home@));
                            }
                        }
                    }
                }
                if scope == Scope::Project && kept[f].1 == Scope::User {
                    kept.set(f, (source.clone(), scope));
                    assert(pairs_view(kept@) =~= acc.update(f as int, p));
                }
                proof {
                    assert forall|j: int| 0 <= j <= i implies
                        has_identity_of(pairs_view(kept@), #[trigger] pairs_view(packages@)[j], cwd@, agent_dir@, home@) by {
                        if j < i {
                            let m = choose|m: int| same_identity_at(acc, m, pairs_view(packages@)[j], cwd@, agent_dir@, home@);
                            if m == f {
                                assert(entry_identity(pairs_view(kept@)[m], cwd@, agent_dir@, home@) == entry_identity(acc[m], cwd@, agent_dir@, home@));
                            } else {
                                assert(pairs_view(kept@)[m] == acc[m]);
                            }
                            assert(same_identity_at(pairs_view(kept@), m, pairs_view(packages@)[j], cwd@, agent_dir@, home@));
                        } else {
                            assert(same_identity_at(pairs_view(kept@), f as int, pairs_view(packages@)[j], cwd@, agent_dir@, home@));
                        }
                    }
                }
            },
            None => {
                kept.push((source.clone(), scope));
                ids.push(id);
                assert(pairs_view(kept@) =~= acc.push(p));
                proof {
                    assert forall|j: int| 0 <= j <= i implies
                        has_identity_of(pairs_view(kept@), #[trigger] pairs_view(packages@)[j], cwd@, agent_dir@, home@) by {
                        if j < i {
                            let m = choose|m: int| same_identity_at(acc, m, pairs_view(packages@)[j], cwd@, agent_dir@, home@);
                            assert(pairs_view(kept@)[m] == acc[m]);
                            assert(same_identity_at(pairs_view(kept@), m, pairs_view(packages@)[j], cwd@, agent_dir@, home@));
                        } else {
                            assert(same_identity_at(pairs_view(kept@), acc.len() as int, pairs_view(packages@)[j], cwd@, agent_dir@, home@));
                        }
                    }
                    assert forall|a: int, b: int| 0 <= a < b < pairs_view(kept@).len() implies
                        entry_identity(#[trigger] pairs_view(kept@)[a], cwd@, agent_dir@, home@) != entry_identity(
                            #[trigger] pairs_view(kept@)[b], cwd@, agent_dir@, home@) by {
                        if b == acc.len() {
                            assert(!same_identity_at(acc, a, p, cwd@, agent_dir@, home@));
                        }
                    }
                }
            },
        }
        i += 1;
    }
    assert(pv.take(packages@.len() as int) =~= pv);
    kept
}

/// The segments that `Path::components` keeps: empty and `.` segments
/// are dropped.
pub open spec fn keep_segments(segs: Seq<Seq<char>>) -> Seq<Seq<char>>
    decreases segs.len(),
{
    if segs.len() == 0 {
        Seq::<Seq<char>>::empty()
    } else {
        let kept = keep_segments(segs.drop_last());
        let s = segs.last();
        if s.len() == 0 || s == dot() {
            kept
        } else {
            kept.push(s)
        }
    }
}

/// The components of a path as `Path::components` gives them: `/` first
/// for an absolute path, or `.` first for a relative path that starts
/// with one, then the segments other than empty ones and `.`.
pub open spec fn path_components(p: Seq<char>) -> Seq<Seq<char>> {
    let segs = split_on(p, '/');
    if p.len() > 0 && p[0] == '/' {
        seq![seq!['/']] + keep_segments(segs)
    } else if segs[0] == dot() {
        seq![dot()] + keep_segments(segs.skip(1))
    } else {
        keep_segments(segs)
    }
}

fn components(p: &str) -> (r: Vec<Vec<char>>)
    ensures
        seqs_of(r@) == path_components(p@),
{
    let chars = chars_of(p);
    let segs = split_chars(&chars, '/');
    let ghost ss = seqs_of(segs@);
    proof {
        lemma_split_on_nonempty(p@, '/');
    }
    let mut out: Vec<Vec<char>> = Vec::new();
    let mut start: usize = 0;
    if chars.len() > 0 && chars[0] == '/' {
        let root = vec!['/'];
        assert(root@ =~= seq!['/']);
        out.push(root);
        assert(seqs_of(out@) =~= seq![seq!['/']]);
    } else if segs[0].len() == 1 && segs[0][0] == '.' {
        assert(ss[0] =~= dot());
        let cur = vec!['.'];
        assert(cur@ =~= dot());
        out.push(cur);
        assert(seqs_of(out@) =~= seq![dot()]);
        start = 1;
    } else {
        assert(ss[0] != dot());
        assert(seqs_of(out@) =~= Seq::<Seq<char>>::empty());
    }
    let ghost lead = seqs_of(out@);
    proof {
        assert(ss.subrange(start as int, start as int) =~= Seq::<Seq<char>>::empty());
        assert(seqs_of(out@) =~= lead + keep_segments(ss.subrange(start as int, start as int)));
    }
    let mut j: usize = start;
    while j < segs.len()
        invariant
            start <= j <= segs@.len(),
            ss == seqs_of(segs@),
            seqs_of(out@) == lead + keep_segments(ss.subrange(start as int, j as int)),
        decreases segs@.len() - j,
    {
        let ghost t = ss.subrange(start as int, j + 1);
        assert(t.drop_last() =~= ss.subrange(start as int, j as int));
        assert(t.last() == segs@[j as int]@);
        let seg = &segs[j];
        let is_dot = seg.len() == 1 && seg[0] == '.';
        if is_dot {
            assert(seg@ =~= dot());
        }
        if seg.len() > 0 && !is_dot {
            let ghost before = seqs_of(out@);
            out.push(seg.clone());
            assert(seqs_of(out@) =~= before.push(seg@));
        }
        j += 1;
    }
    proof {
        assert(ss.subrange(0, ss.len() as int) =~= ss);
        assert(ss.subrange(1, ss.len() as int) =~= ss.skip(1));
        assert(Seq::<Seq<char>>::empty() + keep_segments(ss) =~= keep_segments(ss));
    }
    out
}

/// The way from `base` to `target` over their components: `..` for each
/// component of `base` past the common ones, then the rest of `target`.
pub open spec fn spec_path_diff(base: Seq<char>, target: Seq<char>) -> Seq<char> {
    spec_climb(path_components(base), path_components(target))
}

/// The relative path from `base` to `target`, both taken as written
/// (the caller resolves links first); empty when they are the same.
pub fn path_diff(base: &str, target: &str) -> (r: String)
    ensures
        r@ == spec_path_diff(base@, target@),
{
    let b = components(base);
    let t = components(target);
    climb(&b, &t)
}

/// How a local source is written in a scope's settings: relative to the
/// scope's base folder, `.` for the folder itself.
pub open spec fn spec_relative_settings_source(canonical_base: Seq<char>, canonical_target: Seq<char>) -> Seq<char> {
    let d = spec_path_diff(canonical_base, canonical_target);
    if d.len() == 0 {
        dot()
    } else {
        d
    }
}

/// How a local source is written in a scope's settings, from the
/// resolved base folder and source path.
pub fn relative_settings_source(canonical_base: &str, canonical_target: &str) -> (r: String)
    ensures
        r@ == spec_relative_settings_source(canonical_base@, canonical_target@),
{
    let d = path_diff(canonical_base, canonical_target);
    if chars_of(d.as_str()).len() == 0 {
        let r = string_of(&['.']);
        assert(r@ =~= dot());
        r
    } else {
        d
    }
}

/// For a local source, the scope's base folder and the source resolved
/// against the working folder: the two paths that decide how it is
/// written in the settings. Other sources are written as given: `None`.
pub fn local_source_paths(source: &str, scope: Scope, cwd: &str, agent_dir: &str, home: &str) -> (r: Option<(String, String)>)
    ensures
        match r {
            Some((b, t)) => spec_parse_source_kind(source@) == 2 && b@ == scope_base(scope, cwd@, agent_dir@)
                && t@ == spec_resolve_path_from_base(source@, cwd@, home@),
            None => spec_parse_source_kind(source@) != 2,
        },
{
    match parse_source(source) {
        ParsedSource::Local(l) => {
            let base = base_dir_for_scope(scope, cwd, agent_dir);
            let resolved = resolve_path_from_base(l.path.as_str(), cwd, home);
            Some((base, resolved))
        },
        _ => None,
    }
}

/// Whether the components of `p` begin with those of `root`
/// (`Path::starts_with`).
pub open spec fn components_start_with(p: Seq<char>, root: Seq<char>) -> bool {
    let pc = path_components(p);
    let rc = path_components(root);
    rc.len() <= pc.len() && pc.take(rc.len() as int) == rc
}

/// `part` joined onto an install root (already resolved), refused when
/// the result leaves the root.
pub open spec fn spec_managed_path(root: Seq<char>, part: Seq<char>) -> Result<Seq<char>, Seq<char>> {
    let candidate = path_push(root, part);
    if components_start_with(candidate, root) {
        Ok(candidate)
    } else {
        Err("Refusing to use path outside package install root: "@ + candidate)
    }
}

/// Joins `part` onto a resolved install root; an error when the result
/// is not inside the root.
pub fn managed_path(root: &str, part: &str) -> (r: Result<String, String>)
    ensures
        match r {
            Ok(p) => spec_managed_path(root@, part@) == Ok::<Seq<char>, Seq<char>>(p@),
            Err(e) => spec_managed_path(root@, part@) == Err::<Seq<char>, Seq<char>>(e@),
        },
{
    let candidate = crate::packages::path_join(root, part);
    let pc = components(candidate.as_str());
    let rc = components(root);
    let mut inside = rc.len() <= pc.len();
    if inside {
        let mut k: usize = 0;
        while k < rc.len()
            invariant_except_break
                inside,
            invariant
                k <= rc@.len(),
                rc@.len() <= pc@.len(),
                forall|m: int| 0 <= m < k ==> seqs_of(pc@)[m] == seqs_of(rc@)[m],
            ensures
                inside ==> forall|m: int| 0 <= m < rc@.len() ==> seqs_of(pc@)[m] == seqs_of(rc@)[m],
                !inside ==> seqs_of(pc@).take(rc@.len() as int) != seqs_of(rc@),
            decreases rc@.len() - k,
        {
            if !chars_eq(&pc[k], &rc[k]) {
                assert(seqs_of(pc@).take(rc@.len() as int)[k as int] != seqs_of(rc@)[k as int]);
                inside = false;
                break;
            }
            k += 1;
        }
    }
    if inside {
        assert(seqs_of(pc@).take(rc@.len() as int) =~= seqs_of(rc@));
        Ok(candidate)
    } else {
        let mut msg = chars_of("Refusing to use path outside package install root: ");
        extend_chars(&mut msg, &chars_of(candidate.as_str()));
        Err(string_of(msg.as_slice()))
    }
}

} // verus!
