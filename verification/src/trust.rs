//! Project trust: the trust store's decisions, the prompt options, and
//! the decision order that resolves whether a project is trusted.
//!
//! The store maps normalized project paths to `true` (trusted), `false`
//! (not trusted) or `null` (no decision); a lookup walks from the project
//! folder up through its ancestors and takes the first decision. The
//! text of `trust.json` is parsed, checked and written here; reading and writing
//! the file under its lock, and resolving paths against the file system,
//! happen around these functions.

use vstd::prelude::*;

use crate::path::{dirname, join, spec_dirname, spec_join, strings_view};
use crate::paths::{resolve_path, spec_resolve_path};
use crate::json::{json_from_serde, jview, JView, JsonValue};
use crate::text::{chars_eq, chars_of, debug_quote, debug_quoted, extend_chars, string_of};

verus! {

/// Failures of the trust store's file handling.
pub enum TrustError {
    Read { path: String, message: String },
    Invalid { path: String, message: String },
    Write { path: String, message: String },
    Lock { path: String, message: String },
}

/// The message of a trust store error.
pub open spec fn trust_error_text(e: TrustError) -> Seq<char> {
    match e {
        TrustError::Read { path, message } => "failed to read trust store "@ + path@ + ": "@ + message@,
        TrustError::Invalid { path, message } => "invalid trust store "@ + path@ + ": "@ + message@,
        TrustError::Write { path, message } => "failed to write trust store "@ + path@ + ": "@ + message@,
        TrustError::Lock { path, message } => "failed to acquire trust store lock "@ + path@ + ": "@ + message@,
    }
}

impl TrustError {
    /// The error's message, as displayed.
    pub fn message(&self) -> (s: String)
        ensures
            s@ == trust_error_text(*self),
    {
        let mut out: Vec<char> = Vec::new();
        let (head, path, message) = match self {
            TrustError::Read { path, message } => ("failed to read trust store ", path, message),
            TrustError::Invalid { path, message } => ("invalid trust store ", path, message),
            TrustError::Write { path, message } => ("failed to write trust store ", path, message),
            TrustError::Lock { path, message } => ("failed to acquire trust store lock ", path, message),
        };
        extend_chars(&mut out, &chars_of(head));
        extend_chars(&mut out, &chars_of(path.as_str()));
        extend_chars(&mut out, &chars_of(": "));
        extend_chars(&mut out, &chars_of(message.as_str()));
        assert(out@ =~= trust_error_text(*self));
        string_of(out.as_slice())
    }
}

/// A stored decision and the folder it was recorded for.
pub struct TrustEntry {
    pub path: String,
    pub decision: bool,
}

/// A change to the store: `decision = None` deletes the entry.
pub struct TrustUpdate {
    pub path: String,
    pub decision: Option<bool>,
}

/// One prompt choice with the store updates it implies (session-only
/// choices carry none).
pub struct TrustOption {
    pub label: String,
    pub trusted: bool,
    pub updates: Vec<TrustUpdate>,
    pub saved_path: Option<String>,
}

/// The contents of `trust.json`: each folder's decision (`None` for an
/// explicit `null`), one entry per folder.
pub struct TrustFile {
    pub entries: Vec<(String, Option<bool>)>,
}

/// Whether no folder occurs twice.
pub open spec fn keys_unique(e: Seq<(String, Option<bool>)>) -> bool {
    forall|i: int, j: int| 0 <= i < j < e.len() ==> e[i].0@ != e[j].0@
}

/// The decision recorded for `key`, if the file has an entry for it.
pub open spec fn file_lookup(e: Seq<(String, Option<bool>)>, key: Seq<char>) -> Option<Option<bool>>
    decreases e.len(),
{
    if e.len() == 0 {
        None
    } else if e.last().0@ == key {
        Some(e.last().1)
    } else {
        file_lookup(e.drop_last(), key)
    }
}

proof fn lemma_file_lookup_at(e: Seq<(String, Option<bool>)>, key: Seq<char>, i: int)
    requires
        keys_unique(e),
        0 <= i < e.len(),
        e[i].0@ == key,
    ensures
        file_lookup(e, key) == Some(e[i].1),
    decreases e.len(),
{
    if i < e.len() - 1 {
        lemma_file_lookup_at(e.drop_last(), key, i);
    }
}

proof fn lemma_file_lookup_none(e: Seq<(String, Option<bool>)>, key: Seq<char>)
    requires
        forall|j: int| 0 <= j < e.len() ==> e[j].0@ != key,
    ensures
        file_lookup(e, key) is None,
    decreases e.len(),
{
    if e.len() > 0 {
        lemma_file_lookup_none(e.drop_last(), key);
    }
}

proof fn lemma_file_lookup_some(e: Seq<(String, Option<bool>)>, key: Seq<char>)
    ensures
        file_lookup(e, key) is Some ==> exists|j: int| 0 <= j < e.len() && e[j].0@ == key,
    decreases e.len(),
{
    if e.len() > 0 && e.last().0@ != key {
        lemma_file_lookup_some(e.drop_last(), key);
        if file_lookup(e, key) is Some {
            let j = choose|j: int| 0 <= j < e.drop_last().len() && e.drop_last()[j].0@ == key;
            assert(e[j].0@ == key);
        }
    }
}

/// The value `serde_json` parses a JSON text to, as a plain value; none
/// when it refuses the text.
pub uninterp spec fn parsed_json(text: Seq<char>) -> Option<JView>;

/// `serde_json::from_str` into a JSON value: the parsed value, or the
/// parser's message. What it parses a text to is named, not stated.
#[verifier::external_body]
fn parse_json(text: &str) -> (r: Result<JsonValue, String>)
    ensures
        r is Err <==> parsed_json(text@) is None,
        r matches Ok(v) ==> parsed_json(text@) == Some(jview(v)),
{
    match serde_json::from_str::<serde_json::Value>(text) {
        Ok(v) => Ok(json_from_serde(&v)),
        Err(e) => Err(e.to_string()),
    }
}

/// The entries of a trust file as plain values.
pub open spec fn decisions_view(e: Seq<(String, Option<bool>)>) -> Seq<(Seq<char>, Option<bool>)> {
    Seq::new(e.len(), |i: int| (e[i].0@, e[i].1))
}

/// The text `serde_json::to_string_pretty` gives for the JSON object that
/// maps each folder of `entries` to `true`, `false` or `null`.
pub uninterp spec fn pretty_decisions(entries: Seq<(Seq<char>, Option<bool>)>) -> Seq<char>;

/// `serde_json::to_string_pretty` on the object that maps each folder to
/// its decision (`null` for none), or the serializer's message. The text
/// is named as a function of the entries, not stated: serde_json's map
/// keeps its keys sorted and the pretty printer indents by two spaces, and
/// nothing here proves either.
#[verifier::external_body]
fn decisions_pretty_json(entries: &Vec<(String, Option<bool>)>) -> (r: Result<String, String>)
    ensures
        r matches Ok(s) ==> s@ == pretty_decisions(decisions_view(entries@)),
{
    let map: serde_json::Map<String, serde_json::Value> = entries
        .iter()
        .map(|(k, d)| (k.clone(), serde_json::Value::from(*d)))
        .collect();
    serde_json::to_string_pretty(&serde_json::Value::Object(map)).map_err(|e| e.to_string())
}

/// The text written to the trust file at `path`: the decisions as a
/// pretty JSON object, then a newline; a serializer failure is a write
/// error for `path`.
pub fn trust_file_text(path: &str, data: &TrustFile) -> (r: Result<String, TrustError>)
    ensures
        r matches Ok(s) ==> s@ == pretty_decisions(decisions_view(data.entries@)) + seq!['\n'],
        r matches Err(e) ==> (e matches TrustError::Write { path: p, .. } && p@ == path@),
{
    match decisions_pretty_json(&data.entries) {
        Ok(body) => {
            let mut out = chars_of(body.as_str());
            out.push('\n');
            Ok(string_of(out.as_slice()))
        },
        Err(message) => Err(TrustError::Write { path: string_of(chars_of(path).as_slice()), message }),
    }
}

/// A stored value as a decision: `true`, `false`, or `null` for none.
pub open spec fn decision_of(v: JView) -> Option<Option<bool>> {
    match v {
        JView::Bool(b) => Some(Some(b)),
        JView::Null => Some(None),
        _ => None,
    }
}

/// The position of the first entry whose value is not a decision.
pub open spec fn first_bad_entry(es: Seq<(Seq<char>, JView)>) -> Option<int>
    decreases es.len(),
{
    if es.len() == 0 {
        None
    } else {
        match first_bad_entry(es.drop_last()) {
            Some(i) => Some(i),
            None => if decision_of(es.last().1) is None { Some(es.len() - 1) } else { None },
        }
    }
}

proof fn lemma_first_bad_entry(es: Seq<(Seq<char>, JView)>, n: int)
    requires
        0 <= n <= es.len(),
    ensures
        first_bad_entry(es.take(n)) is None <==> forall|j: int| 0 <= j < n ==> decision_of(#[trigger] es[j].1) is Some,
        first_bad_entry(es.take(n)) matches Some(i) ==> 0 <= i < n && decision_of(es[i].1) is None
            && forall|j: int| 0 <= j < i ==> decision_of(#[trigger] es[j].1) is Some,
    decreases n,
{
    if n > 0 {
        assert(es.take(n).drop_last() =~= es.take(n - 1));
        lemma_first_bad_entry(es, n - 1);
    }
}

/// Whether `f` holds, in order, each entry's key and decision.
pub open spec fn trust_entries_are(f: Seq<(String, Option<bool>)>, es: Seq<(Seq<char>, JView)>) -> bool {
    &&& f.len() == es.len()
    &&& forall|i: int| 0 <= i < es.len() ==> (#[trigger] f[i]).0@ == es[i].0 && decision_of(es[i].1) == Some(f[i].1)
}

/// The trust store held in a parsed `trust.json`: it must be an object
/// whose values are `true`, `false` or `null`; the error names the first
/// value that is not.
pub fn trust_file_from_json(path: &str, v: &JsonValue) -> (r: Result<TrustFile, TrustError>)
    ensures
        match jview(*v) {
            JView::Obj(es) => match first_bad_entry(es) {
                Some(i) => r matches Err(TrustError::Invalid { path: p, message: m }) && p@ == path@
                    && m@ == "value for "@ + debug_quoted(es[i].0) + " must be true, false, or null"@,
                None => r matches Ok(f) && f.wf() && trust_entries_are(f.entries@, es),
            },
            _ => r matches Err(TrustError::Invalid { path: p, message: m }) && p@ == path@
                && m@ == "expected an object"@,
        },
{
    proof {
        reveal_strlit("expected an object");
    }
    let o = match v {
        JsonValue::Object(o) => o,
        _ => return Err(TrustError::Invalid { path: path.to_owned(), message: "expected an object".to_owned() }),
    };
    let ghost es = o.entries_view();
    assert(jview(*v) == JView::Obj(es));
    let n = o.entry_count();
    let mut entries: Vec<(String, Option<bool>)> = Vec::new();
    let mut i: usize = 0;
    while i < n
        invariant
            n == es.len(),
            es == o.entries_view(),
            jview(*v) == JView::Obj(es),
            i <= n,
            forall|a: int, b: int| 0 <= a < b < es.len() ==> (#[trigger] es[a]).0 != (#[trigger] es[b]).0,
            trust_entries_are(entries@, es.take(i as int)),
            forall|j: int| 0 <= j < i ==> decision_of(#[trigger] es[j].1) is Some,
        decreases n - i,
    {
        let (key, value) = o.entry_at(i);
        assert((key@, jview(*value)) == es[i as int]);
        let decision = match value {
            JsonValue::Bool(b) => Some(*b),
            JsonValue::Null => None,
            _ => {
                proof {
                    assert(decision_of(es[i as int].1) is None);
                    lemma_first_bad_prefix(es, i + 1);
                }
                let mut m = chars_of("value for ");
                extend_chars(&mut m, &chars_of(debug_quote(key.as_str()).as_str()));
                extend_chars(&mut m, &chars_of(" must be true, false, or null"));
                assert(m@ == "value for "@ + debug_quoted(es[i as int].0) + " must be true, false, or null"@);
                assert(first_bad_entry(es) == Some(i as int));
                let message = string_of(m.as_slice());
                assert(message@ == "value for "@ + debug_quoted(es[i as int].0) + " must be true, false, or null"@);
                return Err(TrustError::Invalid { path: path.to_owned(), message });
            },
        };
        entries.push((key.clone(), decision));
        proof {
            assert forall|j: int| 0 <= j < i + 1 implies (#[trigger] entries@[j]).0@ == es.take(i + 1)[j].0
                && decision_of(es.take(i + 1)[j].1) == Some(entries@[j].1) by {
                if j < i {
                    assert(es.take(i + 1)[j] == es.take(i as int)[j]);
                }
            }
        }
        i += 1;
    }
    proof {
        assert(es.take(n as int) =~= es);
        lemma_first_bad_entry(es, n as int);
    }
    let f = TrustFile { entries };
    assert(f.wf()) by {
        assert forall|a: int, b: int| 0 <= a < b < f.entries@.len() implies f.entries@[a].0@ != f.entries@[b].0@ by {
            assert(es[a].0 != es[b].0);
        }
    }
    Ok(f)
}

/// `first_bad_entry` of a prefix that ends at the first bad entry.
proof fn lemma_first_bad_prefix(es: Seq<(Seq<char>, JView)>, n: int)
    requires
        0 < n <= es.len(),
        decision_of(es[n - 1].1) is None,
        forall|j: int| 0 <= j < n - 1 ==> decision_of(#[trigger] es[j].1) is Some,
    ensures
        first_bad_entry(es) == Some(n - 1),
    decreases es.len() - n,
{
    if n == es.len() {
        assert(es.drop_last() =~= es.take(n - 1));
        lemma_first_bad_entry(es, n - 1);
    } else {
        let init = es.drop_last();
        assert forall|j: int| 0 <= j < n - 1 implies decision_of(#[trigger] init[j].1) is Some by {
            assert(init[j] == es[j]);
        }
        assert(init[n - 1] == es[n - 1]);
        lemma_first_bad_prefix(init, n);
    }
}

/// The trust store held in the text of `trust.json`: a text that is not
/// JSON is a read error carrying the parser's message; the parsed value
/// is then checked as [`trust_file_from_json`] checks it.
pub fn read_trust_text(path: &str, content: &str) -> (r: Result<TrustFile, TrustError>)
    ensures
        parsed_json(content@) is None <==> r is Err && (r matches Err(TrustError::Read { path: p, message: _ })),
        r matches Err(TrustError::Read { path: p, message: _ }) ==> p@ == path@,
        parsed_json(content@) matches Some(v) ==> match v {
            JView::Obj(es) => match first_bad_entry(es) {
                Some(i) => r matches Err(TrustError::Invalid { path: p, message: m }) && p@ == path@
                    && m@ == "value for "@ + debug_quoted(es[i].0) + " must be true, false, or null"@,
                None => r matches Ok(f) && f.wf() && trust_entries_are(f.entries@, es),
            },
            _ => r matches Err(TrustError::Invalid { path: p, message: m }) && p@ == path@
                && m@ == "expected an object"@,
        },
{
    match parse_json(content) {
        Ok(v) => trust_file_from_json(path, &v),
        Err(e) => Err(TrustError::Read { path: path.to_owned(), message: e }),
    }
}

impl TrustFile {
    /// One entry per folder.
    pub open spec fn wf(&self) -> bool {
        keys_unique(self.entries@)
    }

    /// The decision recorded for `key`, if any.
    pub open spec fn spec_get(&self, key: Seq<char>) -> Option<Option<bool>> {
        file_lookup(self.entries@, key)
    }

    pub fn new() -> (f: TrustFile)
        ensures
            f.wf(),
            forall|k: Seq<char>| f.spec_get(k) is None,
    {
        TrustFile { entries: Vec::new() }
    }

    fn find(&self, key: &Vec<char>) -> (r: Option<usize>)
        requires
            self.wf(),
        ensures
            r matches Some(i) ==> i < self.entries@.len() && self.entries@[i as int].0@ == key@,
            r is None ==> forall|j: int| 0 <= j < self.entries@.len() ==> self.entries@[j].0@ != key@,
    {
        let mut i: usize = 0;
        while i < self.entries.len()
            invariant
                i <= self.entries@.len(),
                forall|j: int| 0 <= j < i ==> self.entries@[j].0@ != key@,
            decreases self.entries@.len() - i,
        {
            if chars_eq(&chars_of(self.entries[i].0.as_str()), key) {
                return Some(i);
            }
            i += 1;
        }
        None
    }

    /// The decision recorded for `key`: `None` when there is no entry,
    /// `Some(None)` for an explicit `null`.
    pub fn get(&self, key: &str) -> (r: Option<Option<bool>>)
        requires
            self.wf(),
        ensures
            r == self.spec_get(key@),
    {
        let k = chars_of(key);
        match self.find(&k) {
            Some(i) => {
                proof {
                    lemma_file_lookup_at(self.entries@, key@, i as int);
                }
                Some(self.entries[i].1)
            },
            None => {
                proof {
                    lemma_file_lookup_none(self.entries@, key@);
                }
                None
            },
        }
    }

    /// Records `decision` for `key`, replacing any earlier entry.
    pub fn insert(&mut self, key: &str, decision: Option<bool>)
        requires
            old(self).wf(),
        ensures
            final(self).wf(),
            final(self).spec_get(key@) == Some(decision),
            forall|k: Seq<char>| k != key@ ==> #[trigger] final(self).spec_get(k) == old(self).spec_get(k),
    {
        let k = chars_of(key);
        let ghost before = self.entries@;
        match self.find(&k) {
            Some(i) => {
                self.entries.set(i, (key.to_owned(), decision));
                proof {
                    assert forall|a: int, b: int| 0 <= a < b < self.entries@.len() implies self.entries@[a].0@ != self.entries@[b].0@ by {
                        assert(self.entries@[a].0@ == before[a].0@);
                        assert(self.entries@[b].0@ == before[b].0@);
                    }
                    lemma_file_lookup_at(self.entries@, key@, i as int);
                    assert forall|kk: Seq<char>| kk != key@ implies #[trigger] file_lookup(self.entries@, kk) == file_lookup(before, kk) by {
                        lemma_file_lookup_some(before, kk);
                        lemma_file_lookup_some(self.entries@, kk);
                        if exists|j: int| 0 <= j < before.len() && before[j].0@ == kk {
                            let j = choose|j: int| 0 <= j < before.len() && before[j].0@ == kk;
                            lemma_file_lookup_at(before, kk, j);
                            lemma_file_lookup_at(self.entries@, kk, j);
                        } else {
                            lemma_file_lookup_none(before, kk);
                            lemma_file_lookup_none(self.entries@, kk);
                        }
                    }
                }
            },
            None => {
                self.entries.push((key.to_owned(), decision));
                proof {
                    assert(self.entries@.drop_last() =~= before);
                    assert forall|a: int, b: int| 0 <= a < b < self.entries@.len() implies self.entries@[a].0@ != self.entries@[b].0@ by {
                        if b < before.len() {
                            assert(self.entries@[a] == before[a]);
                            assert(self.entries@[b] == before[b]);
                        }
                    }
                }
            },
        }
    }

    /// Deletes the entry for `key`, if any.
    pub fn remove(&mut self, key: &str)
        requires
            old(self).wf(),
        ensures
            final(self).wf(),
            final(self).spec_get(key@) is None,
            forall|k: Seq<char>| k != key@ ==> #[trigger] final(self).spec_get(k) == old(self).spec_get(k),
    {
        let k = chars_of(key);
        let ghost before = self.entries@;
        let mut kept: Vec<(String, Option<bool>)> = Vec::new();
        let mut i: usize = 0;
        while i < self.entries.len()
            invariant
                i <= self.entries@.len(),
                self.entries@ == before,
                keys_unique(before),
                k@ == key@,
                keys_unique(kept@),
                forall|j: int| 0 <= j < kept@.len() ==> kept@[j].0@ != key@,
                forall|kk: Seq<char>| kk != key@ ==> #[trigger] file_lookup(kept@, kk) == file_lookup(before.take(i as int), kk),
                forall|j: int| #![trigger kept@[j]] 0 <= j < kept@.len() ==> exists|m: int| 0 <= m < i && #[trigger] before[m].0@ == kept@[j].0@,
            decreases self.entries@.len() - i,
        {
            let ghost pre = kept@;
            assert(before.take(i + 1).drop_last() =~= before.take(i as int));
            if !chars_eq(&chars_of(self.entries[i].0.as_str()), &k) {
                let e = (string_of(chars_of(self.entries[i].0.as_str()).as_slice()), self.entries[i].1);
                kept.push(e);
                proof {
                    let t = before.take(i + 1);
                    assert(kept@.drop_last() =~= pre);
                    assert(t.last() == before[i as int]);
                    assert(kept@.last().0@ == t.last().0@ && kept@.last().1 == t.last().1);
                    assert forall|kk: Seq<char>| kk != key@ implies #[trigger] file_lookup(kept@, kk) == file_lookup(t, kk) by {
                        if kept@.last().0@ != kk {
                            assert(file_lookup(kept@, kk) == file_lookup(pre, kk));
                        }
                    }
                    assert forall|a: int, b: int| 0 <= a < b < kept@.len() implies kept@[a].0@ != kept@[b].0@ by {
                        if b == kept@.len() - 1 {
                            let m = choose|m: int| 0 <= m < i && #[trigger] before[m].0@ == kept@[a].0@;
                            assert(before[m].0@ != before[i as int].0@);
                        }
                    }
                    assert forall|j: int| #![trigger kept@[j]] 0 <= j < kept@.len() implies exists|m: int| 0 <= m < i + 1 && #[trigger] before[m].0@ == kept@[j].0@ by {
                        if j == kept@.len() - 1 {
                            assert(before[i as int].0@ == kept@[j].0@);
                        } else {
                            let m = choose|m: int| 0 <= m < i && #[trigger] before[m].0@ == pre[j].0@;
                            assert(before[m].0@ == kept@[j].0@);
                        }
                    }
                }
            } else {
                proof {
                    let t = before.take(i + 1);
                    assert(t.last() == before[i as int]);
                    assert forall|kk: Seq<char>| kk != key@ implies #[trigger] file_lookup(kept@, kk) == file_lookup(t, kk) by {
                        assert(file_lookup(t, kk) == file_lookup(before.take(i as int), kk));
                    }
                    assert forall|j: int| #![trigger kept@[j]] 0 <= j < kept@.len() implies exists|m: int| 0 <= m < i + 1 && #[trigger] before[m].0@ == kept@[j].0@ by {
                        let m = choose|m: int| 0 <= m < i && #[trigger] before[m].0@ == kept@[j].0@;
                    }
                }
            }
            i += 1;
        }
        assert(before.take(before.len() as int) =~= before);
        self.entries = kept;
        proof {
            lemma_file_lookup_none(self.entries@, key@);
        }
    }
}

/// The first decision (`true` or `false`; `null` falls through) found
/// walking from `path` up through its ancestors, with the folder it
/// belongs to.
pub open spec fn nearest_decision(e: Seq<(String, Option<bool>)>, path: Seq<char>) -> Option<(Seq<char>, bool)>
    decreases (if path == seq!['.'] { 0 } else { path.len() + 1 }),
{
    match file_lookup(e, path) {
        Some(Some(d)) => Some((path, d)),
        _ => {
            let parent = spec_dirname(path);
            if parent == path {
                None
            } else {
                proof {
                    crate::path::lemma_dirname_shorter(path);
                }
                nearest_decision(e, parent)
            }
        },
    }
}

/// Walks `path` and its ancestors for the first recorded decision.
fn find_nearest_trust_entry(data: &TrustFile, path: &str) -> (r: Option<TrustEntry>)
    requires
        data.wf(),
    ensures
        match nearest_decision(data.entries@, path@) {
            Some((p, d)) => r matches Some(t) && t.path@ == p && t.decision == d,
            None => r is None,
        },
{
    let mut current = string_of(chars_of(path).as_slice());
    loop
        invariant
            data.wf(),
            nearest_decision(data.entries@, path@) == nearest_decision(data.entries@, current@),
        decreases (if current@ == seq!['.'] { 0 } else { current@.len() + 1 }),
    {
        if let Some(Some(decision)) = data.get(current.as_str()) {
            return Some(TrustEntry { path: current, decision });
        }
        let parent = dirname(current.as_str());
        if chars_eq(&chars_of(parent.as_str()), &chars_of(current.as_str())) {
            return None;
        }
        proof {
            crate::path::lemma_dirname_shorter(current@);
        }
        current = parent;
    }
}

/// Where the decisions live: `trust.json` under the agent directory.
pub struct ProjectTrustStore {
    trust_path: String,
}

impl ProjectTrustStore {
    pub closed spec fn spec_trust_path(&self) -> Seq<char> {
        self.trust_path@
    }

    /// The store of the agent directory `agent_dir` (already resolved).
    pub fn new(agent_dir: &str) -> (s: ProjectTrustStore)
        ensures
            s.spec_trust_path() == spec_join(seq![agent_dir@, "trust.json"@]),
    {
        let parts = vec![agent_dir.to_owned(), "trust.json".to_owned()];
        assert(strings_view(parts@) =~= seq![agent_dir@, "trust.json"@]);
        ProjectTrustStore { trust_path: join(parts.as_slice()) }
    }

    /// The path of `trust.json`.
    pub fn trust_path(&self) -> (r: &str)
        ensures
            r@ == self.spec_trust_path(),
    {
        self.trust_path.as_str()
    }

    /// The nearest-ancestor decision for the (normalized) folder `cwd`,
    /// or `None` when undecided.
    pub fn get(&self, data: &TrustFile, cwd: &str) -> (r: Option<bool>)
        requires
            data.wf(),
        ensures
            match nearest_decision(data.entries@, cwd@) {
                Some((_, d)) => r == Some(d),
                None => r is None,
            },
    {
        match self.get_entry(data, cwd) {
            Some(e) => Some(e.decision),
            None => None,
        }
    }

    /// The nearest-ancestor entry for the (normalized) folder `cwd`.
    pub fn get_entry(&self, data: &TrustFile, cwd: &str) -> (r: Option<TrustEntry>)
        requires
            data.wf(),
        ensures
            match nearest_decision(data.entries@, cwd@) {
                Some((p, d)) => r matches Some(t) && t.path@ == p && t.decision == d,
                None => r is None,
            },
    {
        find_nearest_trust_entry(data, cwd)
    }

    /// Records `decision` for the (normalized) folder `cwd`; `None`
    /// deletes its entry.
    pub fn set(&self, data: &mut TrustFile, cwd: &str, decision: Option<bool>)
        requires
            old(data).wf(),
        ensures
            final(data).wf(),
            decision is None ==> final(data).spec_get(cwd@) is None,
            decision matches Some(d) ==> final(data).spec_get(cwd@) == Some(Some(d)),
            forall|k: Seq<char>| k != cwd@ ==> #[trigger] final(data).spec_get(k) == old(data).spec_get(k),
    {
        match decision {
            None => data.remove(cwd),
            Some(d) => data.insert(cwd, Some(d)),
        }
    }

    /// Applies updates (paths already normalized) in order.
    pub fn set_many(&self, data: &mut TrustFile, updates: &[TrustUpdate])
        requires
            old(data).wf(),
        ensures
            final(data).wf(),
            forall|k: Seq<char>| #[trigger] final(data).spec_get(k) == applied(old(data).spec_get(k), updates@, k, updates@.len() as int),
    {
        let mut i: usize = 0;
        while i < updates.len()
            invariant
                data.wf(),
                i <= updates@.len(),
                forall|k: Seq<char>| #[trigger] data.spec_get(k) == applied(old(data).spec_get(k), updates@, k, i as int),
            decreases updates@.len() - i,
        {
            let u = &updates[i];
            self.set(data, u.path.as_str(), u.decision);
            i += 1;
        }
    }
}

/// What the entry for `k` becomes after the first `n` updates.
pub open spec fn applied(start: Option<Option<bool>>, updates: Seq<TrustUpdate>, k: Seq<char>, n: int) -> Option<Option<bool>>
    decreases n,
{
    if n <= 0 {
        start
    } else {
        let before = applied(start, updates, k, n - 1);
        let u = updates[n - 1];
        if u.path@ == k {
            match u.decision {
                None => None,
                Some(d) => Some(Some(d)),
            }
        } else {
            before
        }
    }
}

/// A stored decision is read back: after `set(cwd, Some(d))`, the
/// nearest decision for `cwd` is `d`, recorded for `cwd` itself.
pub proof fn law_set_then_get(before: TrustFile, after: TrustFile, cwd: Seq<char>, d: bool)
    requires
        after.wf(),
        after.spec_get(cwd) == Some(Some(d)),
    ensures
        nearest_decision(after.entries@, cwd) == Some((cwd, d)),
{
}

/// The project folder as the store keys it: `cwd` resolved against the
/// process's working folder (`~` expanded with `home`). Symbolic links
/// are then resolved on the file system by the caller.
pub fn project_trust_path(cwd: &str, home: &str, process_cwd: &str) -> (r: String)
    ensures
        r@ == spec_resolve_path(cwd@, process_cwd@, false, home@, process_cwd@),
{
    resolve_path(cwd, process_cwd, false, home, process_cwd)
}

/// The parent of the (normalized) project folder, or `None` at the root.
pub fn project_trust_parent_path(cwd: &str) -> (r: Option<String>)
    ensures
        spec_dirname(cwd@) == cwd@ ==> r is None,
        spec_dirname(cwd@) != cwd@ ==> (r matches Some(p) && p@ == spec_dirname(cwd@)),
        (cwd@.len() > 0 && cwd@[0] == '/') ==> (r matches Some(p) ==> p@.len() < cwd@.len() && cwd@.take(p@.len() as int) == p@),
{
    proof {
        if cwd@.len() > 0 && cwd@[0] == '/' && spec_dirname(cwd@) != cwd@ {
            crate::path::law_dirname_is_prefix(cwd@);
        }
    }
    let parent = dirname(cwd);
    if chars_eq(&chars_of(parent.as_str()), &chars_of(cwd)) {
        None
    } else {
        Some(parent)
    }
}

/// The question a frontend asks before trusting `cwd`.
pub fn format_project_trust_prompt(cwd: &str) -> (r: String)
    ensures
        r@ == "Trust project folder?\n"@ + cwd@
            + "\n\nThis allows pi to load .pi settings and resources, install missing project packages, and execute project extensions."@,
{
    let mut out = chars_of("Trust project folder?\n");
    extend_chars(&mut out, &chars_of(cwd));
    extend_chars(&mut out, &chars_of("\n\nThis allows pi to load .pi settings and resources, install missing project packages, and execute project extensions."));
    string_of(out.as_slice())
}


/// What a prompt option amounts to: its label, whether it trusts, the
/// store updates it implies, and the folder it saves a decision for.
pub open spec fn option_view(o: TrustOption) -> (Seq<char>, bool, Seq<(Seq<char>, Option<bool>)>, Option<Seq<char>>) {
    (
        o.label@,
        o.trusted,
        Seq::new(o.updates@.len(), |i: int| (o.updates@[i].path@, o.updates@[i].decision)),
        match o.saved_path { Some(p) => Some(p@), None => None },
    )
}

/// The prompt options for the (normalized) project folder `path`, in
/// order: trust; trust the parent folder (when there is one); trust for
/// this session only (when asked for); do not trust; do not trust for this
/// session only (when asked for).
pub open spec fn spec_trust_options(path: Seq<char>, session_only: bool) -> Seq<(Seq<char>, bool, Seq<(Seq<char>, Option<bool>)>, Option<Seq<char>>)> {
    let parent = spec_dirname(path);
    let trust = seq![("Trust"@, true, seq![(path, Some(true))], Some(path))];
    let with_parent = if parent != path {
        trust.push(("Trust parent folder ("@ + parent + ")"@, true, seq![(parent, Some(true)), (path, None)], Some(parent)))
    } else {
        trust
    };
    let with_session = if session_only {
        with_parent.push(("Trust (this session only)"@, true, Seq::empty(), None))
    } else {
        with_parent
    };
    let with_deny = with_session.push(("Do not trust"@, false, seq![(path, Some(false))], Some(path)));
    if session_only {
        with_deny.push(("Do not trust (this session only)"@, false, Seq::empty(), None))
    } else {
        with_deny
    }
}

fn update(path: &str, decision: Option<bool>) -> (u: TrustUpdate)
    ensures
        u.path@ == path@,
        u.decision == decision,
{
    TrustUpdate { path: path.to_owned(), decision }
}

/// The prompt options for the (normalized) project folder `cwd`.
pub fn project_trust_options(cwd: &str, include_session_only: bool) -> (r: Vec<TrustOption>)
    ensures
        r@.len() == spec_trust_options(cwd@, include_session_only).len(),
        forall|i: int| 0 <= i < r@.len() ==> option_view(#[trigger] r@[i]) == spec_trust_options(cwd@, include_session_only)[i],
{
    let ghost want = spec_trust_options(cwd@, include_session_only);
    let mut options: Vec<TrustOption> = Vec::new();
    let ghost mut views: Seq<(Seq<char>, bool, Seq<(Seq<char>, Option<bool>)>, Option<Seq<char>>)> = Seq::empty();
    let t = TrustOption {
        label: "Trust".to_owned(),
        trusted: true,
        updates: vec![update(cwd, Some(true))],
        saved_path: Some(cwd.to_owned()),
    };
    assert(option_view(t) =~= ("Trust"@, true, seq![(cwd@, Some(true))], Some(cwd@)));
    options.push(t);
    proof { views = views.push(option_view(t)); }
    match project_trust_parent_path(cwd) {
        Some(parent) => {
            let mut label = chars_of("Trust parent folder (");
            extend_chars(&mut label, &chars_of(parent.as_str()));
            extend_chars(&mut label, &chars_of(")"));
            let o = TrustOption {
                label: string_of(label.as_slice()),
                trusted: true,
                updates: vec![update(parent.as_str(), Some(true)), update(cwd, None)],
                saved_path: Some(parent),
            };
            assert(option_view(o) =~= ("Trust parent folder ("@ + spec_dirname(cwd@) + ")"@, true,
                seq![(spec_dirname(cwd@), Some(true)), (cwd@, None)], Some(spec_dirname(cwd@))));
            proof { views = views.push(option_view(o)); }
            options.push(o);
        },
        None => {},
    }
    if include_session_only {
        let o = TrustOption { label: "Trust (this session only)".to_owned(), trusted: true, updates: Vec::new(), saved_path: None };
        assert(option_view(o) =~= ("Trust (this session only)"@, true, Seq::<(Seq<char>, Option<bool>)>::empty(), None::<Seq<char>>));
        proof { views = views.push(option_view(o)); }
        options.push(o);
    }
    let o = TrustOption {
        label: "Do not trust".to_owned(),
        trusted: false,
        updates: vec![update(cwd, Some(false))],
        saved_path: Some(cwd.to_owned()),
    };
    assert(option_view(o) =~= ("Do not trust"@, false, seq![(cwd@, Some(false))], Some(cwd@)));
    proof { views = views.push(option_view(o)); }
    options.push(o);
    if include_session_only {
        let o = TrustOption { label: "Do not trust (this session only)".to_owned(), trusted: false, updates: Vec::new(), saved_path: None };
        assert(option_view(o) =~= ("Do not trust (this session only)"@, false, Seq::<(Seq<char>, Option<bool>)>::empty(), None::<Seq<char>>));
        proof { views = views.push(option_view(o)); }
        options.push(o);
    }
    assert(views =~= want);
    assert forall|i: int| 0 <= i < options@.len() implies option_view(#[trigger] options@[i]) == want[i] by {
        assert(views[i] == option_view(options@[i]));
    }
    options
}

/// `cwd/.pi`, the project's configuration folder.
pub open spec fn config_dir_of(cwd: Seq<char>) -> Seq<char> {
    spec_join(seq![cwd, ".pi"@])
}

/// `dir/.agents/skills`.
pub open spec fn skills_dir_of(dir: Seq<char>) -> Seq<char> {
    spec_join(seq![dir, ".agents"@, "skills"@])
}

/// Whether the (normalized) project folder holds a `.pi` configuration
/// folder; `dir_exists` answers for the file system, and the result is
/// its answer for `cwd/.pi`.
pub fn has_project_config_dir<F: Fn(&str) -> bool>(cwd: &str, dir_exists: &F) -> (r: bool)
    requires
        forall|p: &str| #[trigger] dir_exists.requires((p,)),
    ensures
        exists|p: &str| p@ == config_dir_of(cwd@) && dir_exists.ensures((p,), r),
{
    let parts = vec![cwd.to_owned(), ".pi".to_owned()];
    assert(strings_view(parts@) =~= seq![cwd@, ".pi"@]);
    let dir = join(parts.as_slice());
    let d = dir.as_str();
    let r = dir_exists(d);
    assert(d@ == config_dir_of(cwd@));
    r
}

/// `dir` with its last segment dropped `n` times.
pub open spec fn ancestor(dir: Seq<char>, n: nat) -> Seq<char>
    decreases n,
{
    if n == 0 {
        dir
    } else {
        spec_dirname(ancestor(dir, (n - 1) as nat))
    }
}

proof fn lemma_ancestor_fixed(dir: Seq<char>, k: nat, m: nat)
    requires
        spec_dirname(ancestor(dir, k)) == ancestor(dir, k),
        k <= m,
    ensures
        ancestor(dir, m) == ancestor(dir, k),
    decreases m - k,
{
    if m > k {
        lemma_ancestor_fixed(dir, k, (m - 1) as nat);
    }
}

/// The file system answered `answer` for the folder `dir`.
pub open spec fn answered<F: Fn(&str) -> bool>(dir_exists: &F, dir: Seq<char>, answer: bool) -> bool {
    exists|p: &str| p@ == dir && dir_exists.ensures((p,), answer)
}

/// Whether the (normalized) project folder has anything to trust: a
/// `.pi` folder in it, or an `.agents/skills` folder in it or any of its
/// ancestors, as `dir_exists` answers for each.
pub fn has_project_trust_inputs<F: Fn(&str) -> bool>(cwd: &str, dir_exists: &F) -> (r: bool)
    requires
        forall|p: &str| #[trigger] dir_exists.requires((p,)),
    ensures
        r ==> answered(dir_exists, config_dir_of(cwd@), true) || exists|n: nat|
            answered(dir_exists, skills_dir_of(#[trigger] ancestor(cwd@, n)), true),
        !r ==> answered(dir_exists, config_dir_of(cwd@), false),
        !r ==> forall|n: nat| answered(dir_exists, skills_dir_of(#[trigger] ancestor(cwd@, n)), false),
{
    if has_project_config_dir(cwd, dir_exists) {
        return true;
    }
    let ghost first = cwd@;
    let ghost mut steps: nat = 0;
    let mut current = cwd.to_owned();
    loop
        invariant
            forall|p: &str| #[trigger] dir_exists.requires((p,)),
            first == cwd@,
            answered(dir_exists, config_dir_of(first), false),
            current@ == ancestor(first, steps),
            forall|n: nat| n < steps ==> answered(dir_exists, skills_dir_of(#[trigger] ancestor(first, n)), false),
        decreases (if current@ == seq!['.'] { 0 } else { current@.len() + 1 }),
    {
        let parts = vec![current.clone(), ".agents".to_owned(), "skills".to_owned()];
        assert(strings_view(parts@) =~= seq![current@, ".agents"@, "skills"@]);
        let dir = join(parts.as_slice());
        let d = dir.as_str();
        let found = dir_exists(d);
        assert(d@ == skills_dir_of(ancestor(first, steps)));
        if found {
            assert(answered(dir_exists, skills_dir_of(ancestor(first, steps)), true));
            return true;
        }
        assert(answered(dir_exists, skills_dir_of(ancestor(first, steps)), false));
        let parent = dirname(current.as_str());
        if chars_eq(&chars_of(parent.as_str()), &chars_of(current.as_str())) {
            proof {
                assert forall|n: nat| answered(dir_exists, skills_dir_of(#[trigger] ancestor(first, n)), false) by {
                    if n > steps {
                        lemma_ancestor_fixed(first, steps, n);
                    }
                }
            }
            return false;
        }
        proof {
            crate::path::lemma_dirname_shorter(current@);
            assert(ancestor(first, steps + 1) == spec_dirname(ancestor(first, steps)));
            steps = steps + 1;
        }
        current = parent;
    }
}

/// A `project_trust` handler's answer as the decision reads it: its
/// `trusted` string and its `remember` flag, where present.
pub struct TrustAnswer {
    pub trusted: Option<String>,
    pub remember: Option<bool>,
}

/// One handler's outcome: its source and its answer, no answer, or its
/// error.
pub struct TrustOutcome {
    pub source: String,
    pub result: Result<Option<TrustAnswer>, String>,
}

/// The answer that settles the event: trusted when `trusted` is `"yes"`,
/// remembered when `remember` is `true`.
#[derive(Debug, Clone, Copy, PartialEq, Eq, Structural)]
pub struct TrustEventResult {
    pub trusted: bool,
    pub remember: bool,
}

/// Whether an answer leaves the decision open (`trusted` is `"undecided"`).
pub open spec fn undecided(a: TrustAnswer) -> bool {
    a.trusted matches Some(t) && t@ == "undecided"@
}

/// Folds the outcomes `outcomes[..n]`: `Some` with the answer of the
/// first handler that decided, and the errors of the failing handlers
/// before it (a handler without an answer counts as failing).
pub open spec fn spec_fold(outcomes: Seq<TrustOutcome>, n: int) -> (Option<TrustEventResult>, Seq<(Seq<char>, Seq<char>)>)
    decreases n,
{
    if n <= 0 {
        (None, Seq::empty())
    } else {
        let (found, errors) = spec_fold(outcomes, n - 1);
        if found is Some {
            (found, errors)
        } else {
            let o = outcomes[n - 1];
            match o.result {
                Err(e) => (None, errors.push((o.source@, e@))),
                Ok(None) => (None, errors.push((o.source@, "project_trust handler returned no result"@))),
                Ok(Some(a)) => if undecided(a) {
                    (None, errors)
                } else {
                    (Some(TrustEventResult {
                        trusted: a.trusted matches Some(t) && t@ == "yes"@,
                        remember: a.remember == Some(true),
                    }), errors)
                },
            }
        }
    }
}

fn is_lit_str(s: &String, lit: &str) -> (r: bool)
    ensures
        r == (s@ == lit@),
{
    chars_eq(&chars_of(s.as_str()), &chars_of(lit))
}

fn copy_string(s: &String) -> (r: String)
    ensures
        r@ == s@,
{
    string_of(chars_of(s.as_str()).as_slice())
}

/// Folds the `project_trust` outcomes: the first handler whose answer is
/// not `"undecided"` wins; failing handlers before it are collected as
/// `(source, error)`.
pub fn trust_event_result(outcomes: &[TrustOutcome]) -> (r: (Option<TrustEventResult>, Vec<(String, String)>))
    ensures
        r.0 == spec_fold(outcomes@, outcomes@.len() as int).0,
        r.1@.len() == spec_fold(outcomes@, outcomes@.len() as int).1.len(),
        forall|i: int| 0 <= i < r.1@.len() ==> ((#[trigger] r.1@[i]).0@, r.1@[i].1@) == spec_fold(outcomes@, outcomes@.len() as int).1[i],
{
    let mut errors: Vec<(String, String)> = Vec::new();
    let mut i: usize = 0;
    while i < outcomes.len()
        invariant
            i <= outcomes@.len(),
            spec_fold(outcomes@, i as int).0 is None,
            errors@.len() == spec_fold(outcomes@, i as int).1.len(),
            forall|k: int| 0 <= k < errors@.len() ==> ((#[trigger] errors@[k]).0@, errors@[k].1@) == spec_fold(outcomes@, i as int).1[k],
        decreases outcomes@.len() - i,
    {
        let o = &outcomes[i];
        let ghost before = errors@;
        match &o.result {
            Err(e) => {
                errors.push((copy_string(&o.source), copy_string(e)));
                assert forall|k: int| 0 <= k < errors@.len() implies ((#[trigger] errors@[k]).0@, errors@[k].1@) == spec_fold(outcomes@, i + 1).1[k] by {
                    if k < before.len() {
                        assert(errors@[k] == before[k]);
                    }
                }
            },
            Ok(None) => {
                errors.push((copy_string(&o.source), "project_trust handler returned no result".to_owned()));
                assert forall|k: int| 0 <= k < errors@.len() implies ((#[trigger] errors@[k]).0@, errors@[k].1@) == spec_fold(outcomes@, i + 1).1[k] by {
                    if k < before.len() {
                        assert(errors@[k] == before[k]);
                    }
                }
            },
            Ok(Some(a)) => {
                let is_undecided = match &a.trusted {
                    Some(t) => is_lit_str(t, "undecided"),
                    None => false,
                };
                if !is_undecided {
                    let trusted = match &a.trusted {
                        Some(t) => is_lit_str(t, "yes"),
                        None => false,
                    };
                    let remember = match a.remember {
                        Some(b) => b,
                        None => false,
                    };
                    let res = TrustEventResult { trusted, remember };
                    proof {
                        lemma_fold_settled(outcomes@, i as int + 1, outcomes@.len() as int);
                    }
                    return (Some(res), errors);
                }
            },
        }
        i += 1;
    }
    (None, errors)
}

proof fn lemma_fold_settled(outcomes: Seq<TrustOutcome>, n: int, m: int)
    requires
        1 <= n <= m,
        spec_fold(outcomes, n).0 is Some,
    ensures
        spec_fold(outcomes, m) == spec_fold(outcomes, n),
    decreases m - n,
{
    if m > n {
        lemma_fold_settled(outcomes, n, m - 1);
    }
}

/// What the decision comes to: decided, or the frontend must ask.
#[derive(Debug, Clone, Copy, PartialEq, Eq, Structural)]
pub enum TrustResolution {
    Decided(bool),
    Ask,
}

/// Inputs to [`resolve_project_trusted`]: the (normalized) project folder,
/// the store, an explicit override, the `defaultProjectTrust` setting
/// (`"always"`, `"never"`, or anything else meaning ask) and the folded
/// extension answer.
pub struct ResolveProjectTrust<'a> {
    pub cwd: &'a str,
    pub store: &'a ProjectTrustStore,
    pub trust_override: Option<bool>,
    pub default_project_trust: Option<&'a str>,
    pub extension_result: Option<TrustEventResult>,
}

/// The decision order: an explicit override; no trust inputs (trusted);
/// the extension answer; the stored decision; the default setting; ask.
pub open spec fn spec_resolution(
    trust_override: Option<bool>,
    has_inputs: bool,
    extension: Option<TrustEventResult>,
    stored: Option<bool>,
    default: Option<Seq<char>>,
) -> TrustResolution {
    if trust_override is Some {
        TrustResolution::Decided(trust_override->0)
    } else if !has_inputs {
        TrustResolution::Decided(true)
    } else if extension is Some {
        TrustResolution::Decided(extension->0.trusted)
    } else if stored is Some {
        TrustResolution::Decided(stored->0)
    } else if default == Some("always"@) {
        TrustResolution::Decided(true)
    } else if default == Some("never"@) {
        TrustResolution::Decided(false)
    } else {
        TrustResolution::Ask
    }
}

/// Resolves whether the project is trusted, given whether it has trust
/// inputs and the store's contents; a remembered extension answer is
/// recorded in `data` (which the caller writes back).
pub fn resolve_project_trusted(options: &ResolveProjectTrust<'_>, has_inputs: bool, data: &mut TrustFile) -> (r: TrustResolution)
    requires
        old(data).wf(),
    ensures
        final(data).wf(),
        r == spec_resolution(
            options.trust_override,
            has_inputs,
            options.extension_result,
            match nearest_decision(old(data).entries@, options.cwd@) { Some((_, d)) => Some(d), None => None },
            match options.default_project_trust { Some(s) => Some(s@), None => None },
        ),
        (options.trust_override is None && has_inputs && (options.extension_result is Some && options.extension_result->0.remember))
            ==> final(data).spec_get(options.cwd@) == Some(Some(options.extension_result->0.trusted))
                && forall|k: Seq<char>| k != options.cwd@ ==> #[trigger] final(data).spec_get(k) == old(data).spec_get(k),
        !(options.trust_override is None && has_inputs && (options.extension_result is Some && options.extension_result->0.remember))
            ==> final(data).entries@ == old(data).entries@,
{
    if let Some(trusted) = options.trust_override {
        return TrustResolution::Decided(trusted);
    }
    if !has_inputs {
        return TrustResolution::Decided(true);
    }
    if let Some(result) = options.extension_result {
        if result.remember {
            options.store.set(data, options.cwd, Some(result.trusted));
        }
        return TrustResolution::Decided(result.trusted);
    }
    if let Some(decision) = options.store.get(data, options.cwd) {
        return TrustResolution::Decided(decision);
    }
    let default = match options.default_project_trust {
        Some(s) => s,
        None => "ask",
    };
    let d = chars_of(default);
    proof {
        reveal_strlit("ask");
        reveal_strlit("always");
        reveal_strlit("never");
        assert("ask"@.len() == 3);
        assert("always"@.len() == 6);
    }
    if chars_eq(&d, &chars_of("always")) {
        TrustResolution::Decided(true)
    } else if chars_eq(&d, &chars_of("never")) {
        TrustResolution::Decided(false)
    } else {
        TrustResolution::Ask
    }
}

/// Records a prompted pick: its updates (paths already normalized) are
/// applied in order; session-only picks change nothing.
pub fn save_trust_option(store: &ProjectTrustStore, data: &mut TrustFile, option: &TrustOption)
    requires
        old(data).wf(),
    ensures
        final(data).wf(),
        forall|k: Seq<char>| #[trigger] final(data).spec_get(k) == applied(old(data).spec_get(k), option.updates@, k, option.updates@.len() as int),
{
    if option.updates.len() == 0 {
        return;
    }
    store.set_many(data, option.updates.as_slice());
}
} // verus!
