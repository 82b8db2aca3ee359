//! JSON values as the settings logic holds them.
//!
//! An object keeps each key once. Numbers are integers as written, or,
//! for a fractional number, its JSON text.

use vstd::prelude::*;

use serde_json::Value as Outside;

use crate::text::{chars_eq, chars_of};

verus! {

/// A JSON number: a non-negative integer, a negative integer, or a
/// fractional number given by its JSON text.
#[derive(Debug)]
pub enum JsonNumber {
    PosInt(u64),
    NegInt(i64),
    Float(String),
}

impl JsonNumber {
    /// A copy of the number.
    pub fn copy(&self) -> (r: JsonNumber)
        ensures
            r == *self,
    {
        match self {
            JsonNumber::PosInt(n) => JsonNumber::PosInt(*n),
            JsonNumber::NegInt(n) => JsonNumber::NegInt(*n),
            JsonNumber::Float(t) => JsonNumber::Float(t.clone()),
        }
    }
}

/// A JSON value.
#[derive(Debug)]
pub enum JsonValue {
    Null,
    Bool(bool),
    Number(JsonNumber),
    String(String),
    Array(Vec<JsonValue>),
    Object(JsonObject),
}

/// `serde_json::Value`, the tree that the outside parsers give back.
#[verifier::external_type_specification]
#[verifier::external_body]
pub struct ExSerdeJsonValue(serde_json::Value);

/// Turns a `serde_json::Value` into a [`JsonValue`], node for node:
/// objects keep the outside map's entries in its order (its keys are
/// distinct, as the object's invariant asks), numbers are told apart as
/// `serde_json::Number::as_u64` / `as_i64` tell them (else kept as text).
#[verifier::external_body]
pub(crate) fn json_from_serde(v: &serde_json::Value) -> JsonValue {
    match v {
        Outside::Null => JsonValue::Null,
        Outside::Bool(b) => JsonValue::Bool(*b),
        Outside::Number(n) => JsonValue::Number(match (n.as_u64(), n.as_i64()) {
            (Some(u), _) => JsonNumber::PosInt(u),
            (None, Some(i)) => JsonNumber::NegInt(i),
            (None, None) => JsonNumber::Float(n.to_string()),
        }),
        Outside::String(t) => JsonValue::String(t.clone()),
        Outside::Array(a) => JsonValue::Array(a.iter().map(json_from_serde).collect()),
        Outside::Object(o) => JsonValue::Object(JsonObject { entries: o.iter().map(|(k, x)| (k.clone(), json_from_serde(x))).collect() }),
    }
}

/// A JSON object: its entries, each key once, in insertion order.
#[derive(Debug)]
pub struct JsonObject {
    entries: Vec<(String, JsonValue)>,
}

/// A JSON value as a plain value.
pub enum JView {
    Null,
    Bool(bool),
    Number(JsonNumber),
    Str(Seq<char>),
    Arr(Seq<JView>),
    Obj(Seq<(Seq<char>, JView)>),
}

/// The plain value of a JSON value.
pub open spec fn jview(j: JsonValue) -> JView
    decreases j, 3int,
{
    match j {
        JsonValue::Null => JView::Null,
        JsonValue::Bool(b) => JView::Bool(b),
        JsonValue::Number(n) => JView::Number(n),
        JsonValue::String(s) => JView::Str(s@),
        JsonValue::Array(a) => JView::Arr(jviews(a@)),
        JsonValue::Object(o) => JView::Obj(obj_entries(o)),
    }
}

/// The plain entries of an object, in order.
pub closed spec fn obj_entries(o: JsonObject) -> Seq<(Seq<char>, JView)>
    decreases o, 2int,
{
    jentries(o.entries@)
}

/// The plain values of a sequence of JSON values.
pub open spec fn jviews(s: Seq<JsonValue>) -> Seq<JView>
    decreases s, 1int,
{
    if s.len() == 0 {
        Seq::empty()
    } else {
        jviews(s.subrange(0, s.len() - 1)).push(jview(s[s.len() - 1]))
    }
}

/// The plain entries of an object.
pub open spec fn jentries(s: Seq<(String, JsonValue)>) -> Seq<(Seq<char>, JView)>
    decreases s, 1int,
{
    if s.len() == 0 {
        Seq::empty()
    } else {
        jentries(s.subrange(0, s.len() - 1)).push((s[s.len() - 1].0@, jview(s[s.len() - 1].1)))
    }
}

/// The map of a sequence of entries (a later entry wins).
pub open spec fn entries_map(es: Seq<(Seq<char>, JView)>) -> Map<Seq<char>, JView>
    decreases es.len(),
{
    if es.len() == 0 {
        Map::empty()
    } else {
        entries_map(es.drop_last()).insert(es.last().0, es.last().1)
    }
}

/// The map of a plain object.
pub open spec fn obj_map(v: JView) -> Map<Seq<char>, JView> {
    match v {
        JView::Obj(es) => entries_map(es),
        _ => Map::empty(),
    }
}

/// Whether no key occurs twice.
pub open spec fn keys_unique(es: Seq<(String, JsonValue)>) -> bool {
    forall|i: int, j: int| 0 <= i < j < es.len() ==> (#[trigger] es[i]).0@ != (#[trigger] es[j]).0@
}

/// The first position of a key among plain entries.
pub open spec fn seq_find(es: Seq<(Seq<char>, JView)>, k: Seq<char>) -> Option<int>
    decreases es.len(),
{
    if es.len() == 0 {
        None
    } else {
        match seq_find(es.drop_last(), k) {
            Some(i) => Some(i),
            None => if es.last().0 == k { Some(es.len() - 1) } else { None },
        }
    }
}

/// Entries with a key set: in place where the key is, else appended.
pub open spec fn seq_insert(es: Seq<(Seq<char>, JView)>, k: Seq<char>, v: JView) -> Seq<(Seq<char>, JView)> {
    match seq_find(es, k) {
        Some(i) => es.update(i, (k, v)),
        None => es.push((k, v)),
    }
}

/// Entries without a key.
pub open spec fn seq_remove(es: Seq<(Seq<char>, JView)>, k: Seq<char>) -> Seq<(Seq<char>, JView)> {
    match seq_find(es, k) {
        Some(i) => es.remove(i),
        None => es,
    }
}

/// The value of a key among plain entries.
pub open spec fn seq_get(es: Seq<(Seq<char>, JView)>, k: Seq<char>) -> Option<JView> {
    match seq_find(es, k) {
        Some(i) => Some(es[i].1),
        None => None,
    }
}

pub proof fn lemma_seq_find(es: Seq<(Seq<char>, JView)>, k: Seq<char>)
    ensures
        seq_find(es, k) matches Some(i) ==> 0 <= i < es.len() && es[i].0 == k && forall|j: int| 0 <= j < i ==> es[j].0 != k,
        seq_find(es, k) is None ==> forall|j: int| 0 <= j < es.len() ==> es[j].0 != k,
    decreases es.len(),
{
    if es.len() > 0 {
        lemma_seq_find(es.drop_last(), k);
        assert forall|j: int| 0 <= j < es.len() - 1 implies es.drop_last()[j] == es[j] by {}
    }
}

impl JsonObject {
    #[verifier::type_invariant]
    spec fn inv(self) -> bool {
        keys_unique(self.entries@)
    }

    /// The plain entries of the object.
    pub open spec fn entries_view(self) -> Seq<(Seq<char>, JView)> {
        obj_entries(self)
    }
}

impl View for JsonObject {
    type V = Map<Seq<char>, JView>;

    open spec fn view(&self) -> Map<Seq<char>, JView> {
        entries_map(self.entries_view())
    }
}

pub proof fn lemma_jviews(s: Seq<JsonValue>)
    ensures
        jviews(s).len() == s.len(),
        forall|i: int| 0 <= i < s.len() ==> #[trigger] jviews(s)[i] == jview(s[i]),
    decreases s.len(),
{
    if s.len() > 0 {
        let init = s.subrange(0, s.len() - 1);
        lemma_jviews(init);
        assert forall|i: int| 0 <= i < s.len() implies #[trigger] jviews(s)[i] == jview(s[i]) by {
            if i < s.len() - 1 {
                assert(init[i] == s[i]);
            }
        }
    }
}

pub proof fn lemma_jentries(s: Seq<(String, JsonValue)>)
    ensures
        jentries(s).len() == s.len(),
        forall|i: int| 0 <= i < s.len() ==> #[trigger] jentries(s)[i] == (s[i].0@, jview(s[i].1)),
    decreases s.len(),
{
    if s.len() > 0 {
        let init = s.subrange(0, s.len() - 1);
        lemma_jentries(init);
        assert forall|i: int| 0 <= i < s.len() implies #[trigger] jentries(s)[i] == (s[i].0@, jview(s[i].1)) by {
            if i < s.len() - 1 {
                assert(init[i] == s[i]);
            }
        }
    }
}

/// With distinct keys, the map holds exactly the entries.
pub proof fn lemma_entries_map(es: Seq<(Seq<char>, JView)>)
    requires
        forall|i: int, j: int| 0 <= i < j < es.len() ==> (#[trigger] es[i]).0 != (#[trigger] es[j]).0,
    ensures
        forall|k: Seq<char>| #[trigger] entries_map(es).contains_key(k) <==> exists|i: int| 0 <= i < es.len() && es[i].0 == k,
        forall|i: int| 0 <= i < es.len() ==> entries_map(es)[(#[trigger] es[i]).0] == es[i].1,
    decreases es.len(),
{
    if es.len() > 0 {
        let init = es.drop_last();
        lemma_entries_map(init);
        let m = entries_map(es);
        assert forall|k: Seq<char>| #[trigger] m.contains_key(k) <==> exists|i: int| 0 <= i < es.len() && es[i].0 == k by {
            if m.contains_key(k) && k != es.last().0 {
                assert(entries_map(init).contains_key(k));
                let i = choose|i: int| 0 <= i < init.len() && init[i].0 == k;
                assert(es[i] == init[i]);
            }
            if exists|i: int| 0 <= i < es.len() && es[i].0 == k {
                let i = choose|i: int| 0 <= i < es.len() && es[i].0 == k;
                if i < es.len() - 1 {
                    assert(init[i] == es[i]);
                }
            }
        }
        assert forall|i: int| 0 <= i < es.len() implies m[(#[trigger] es[i]).0] == es[i].1 by {
            if i < es.len() - 1 {
                assert(init[i] == es[i]);
                assert(es[i].0 != es[es.len() - 1].0);
            }
        }
    }
}

proof fn lemma_object_keys(o: JsonObject)
    requires
        keys_unique(o.entries@),
    ensures
        forall|k: Seq<char>| #[trigger] o@.contains_key(k) <==> exists|i: int| 0 <= i < o.entries@.len() && o.entries@[i].0@ == k,
        forall|i: int| 0 <= i < o.entries@.len() ==> o@[(#[trigger] o.entries@[i]).0@] == jview(o.entries@[i].1),
{
    let es = jentries(o.entries@);
    lemma_jentries(o.entries@);
    assert forall|i: int, j: int| 0 <= i < j < es.len() implies (#[trigger] es[i]).0 != (#[trigger] es[j]).0 by {
        assert(es[i].0 == o.entries@[i].0@);
        assert(es[j].0 == o.entries@[j].0@);
    }
    lemma_entries_map(es);
    assert forall|k: Seq<char>| #[trigger] o@.contains_key(k) <==> exists|i: int| 0 <= i < o.entries@.len() && o.entries@[i].0@ == k by {
        if o@.contains_key(k) {
            let i = choose|i: int| 0 <= i < es.len() && es[i].0 == k;
            assert(o.entries@[i].0@ == k);
        }
        if exists|i: int| 0 <= i < o.entries@.len() && o.entries@[i].0@ == k {
            let i = choose|i: int| 0 <= i < o.entries@.len() && o.entries@[i].0@ == k;
            assert(es[i].0 == k);
        }
    }
    assert forall|i: int| 0 <= i < o.entries@.len() implies o@[(#[trigger] o.entries@[i]).0@] == jview(o.entries@[i].1) by {
        assert(es[i] == (o.entries@[i].0@, jview(o.entries@[i].1)));
    }
}

fn copy_string(s: &String) -> (r: String)
    ensures
        r@ == s@,
{
    s.clone()
}

impl JsonValue {
    /// A copy of the value.
    pub fn copy(&self) -> (r: JsonValue)
        ensures
            jview(r) == jview(*self),
        decreases *self,
    {
        match self {
            JsonValue::Null => JsonValue::Null,
            JsonValue::Bool(b) => JsonValue::Bool(*b),
            JsonValue::Number(n) => JsonValue::Number(n.copy()),
            JsonValue::String(s) => JsonValue::String(copy_string(s)),
            JsonValue::Array(a) => {
                let mut out: Vec<JsonValue> = Vec::new();
                let mut i: usize = 0;
                while i < a.len()
                    invariant
                        i <= a@.len(),
                        *self == JsonValue::Array(*a),
                        out@.len() == i,
                        forall|k: int| 0 <= k < i ==> jview(#[trigger] out@[k]) == jview(a@[k]),
                    decreases a@.len() - i,
                {
                    proof {
                        assert(decreases_to!(*self => (*self)->Array_0));
                        assert(decreases_to!((*self)->Array_0 => ((*self)->Array_0)@));
                        assert(decreases_to!(((*self)->Array_0)@ => ((*self)->Array_0)@[i as int]));
                    }
                    out.push(a[i].copy());
                    i += 1;
                }
                proof {
                    lemma_jviews(out@);
                    lemma_jviews(a@);
                    assert(jviews(out@) =~= jviews(a@));
                }
                JsonValue::Array(out)
            },
            JsonValue::Object(o) => JsonValue::Object(o.copy()),
        }
    }
}

impl JsonObject {
    /// An object without entries.
    pub fn new() -> (r: JsonObject)
        ensures
            r@ == Map::<Seq<char>, JView>::empty(),
            r.entries_view() == Seq::<(Seq<char>, JView)>::empty(),
    {
        let r = JsonObject { entries: Vec::new() };
        assert(r.entries_view() =~= Seq::<(Seq<char>, JView)>::empty());
        r
    }

    /// A copy of the object.
    pub fn copy(&self) -> (r: JsonObject)
        ensures
            r.entries_view() == self.entries_view(),
            r@ == self@,
        decreases *self,
    {
        proof {
            use_type_invariant(self);
        }
        let es = &self.entries;
        let mut out: Vec<(String, JsonValue)> = Vec::new();
        let mut i: usize = 0;
        while i < es.len()
            invariant
                i <= es@.len(),
                *es == self.entries,
                keys_unique(es@),
                out@.len() == i,
                forall|k: int| 0 <= k < i ==> (#[trigger] out@[k]).0@ == es@[k].0@ && jview(out@[k].1) == jview(es@[k].1),
            decreases es@.len() - i,
        {
            proof {
                assert(decreases_to!(*self => self.entries));
                assert(decreases_to!(self.entries => self.entries@));
                assert(decreases_to!(self.entries@ => self.entries@[i as int]));
                assert(decreases_to!(self.entries@[i as int] => self.entries@[i as int].1));
            }
            let v = es[i].1.copy();
            out.push((copy_string(&es[i].0), v));
            i += 1;
        }
        proof {
            lemma_jentries(out@);
            lemma_jentries(es@);
            assert(jentries(out@) =~= jentries(es@));
            assert forall|a: int, b: int| 0 <= a < b < out@.len() implies (#[trigger] out@[a]).0@ != (#[trigger] out@[b]).0@ by {
                assert(es@[a].0@ != es@[b].0@);
            }
        }
        JsonObject { entries: out }
    }

    fn find(&self, key: &str) -> (r: Option<usize>)
        ensures
            r matches Some(i) ==> i < self.entries@.len() && self.entries@[i as int].0@ == key@,
            r is None ==> forall|i: int| 0 <= i < self.entries@.len() ==> self.entries@[i].0@ != key@,
    {
        let k = chars_of(key);
        let mut i: usize = 0;
        while i < self.entries.len()
            invariant
                i <= self.entries@.len(),
                k@ == key@,
                forall|j: int| 0 <= j < i ==> self.entries@[j].0@ != key@,
            decreases self.entries@.len() - i,
        {
            if chars_eq(&chars_of(self.entries[i].0.as_str()), &k) {
                return Some(i);
            }
            i += 1;
        }
        None
    }

    /// Whether the object has the key.
    pub fn contains_key(&self, key: &str) -> (r: bool)
        ensures
            r == self@.contains_key(key@),
    {
        proof {
            use_type_invariant(self);
            lemma_object_keys(*self);
        }
        self.find(key).is_some()
    }

    /// The value of a key.
    pub fn get(&self, key: &str) -> (r: Option<&JsonValue>)
        ensures
            r matches Some(v) ==> self@.contains_key(key@) && jview(*v) == self@[key@],
            r is None ==> !self@.contains_key(key@),
            seq_get(self.entries_view(), key@) == match r {
                Some(v) => Some(jview(*v)),
                None => None::<JView>,
            },
    {
        proof {
            use_type_invariant(self);
            lemma_object_keys(*self);
            lemma_jentries(self.entries@);
            lemma_seq_find(jentries(self.entries@), key@);
        }
        match self.find(key) {
            Some(i) => {
                proof {
                    let es = jentries(self.entries@);
                    assert(es[i as int].0 == self.entries@[i as int].0@);
                    match seq_find(es, key@) {
                        Some(g) => {
                            assert(es[g].0 == self.entries@[g].0@);
                            if g < i {
                                assert(self.entries@[g].0@ != self.entries@[i as int].0@);
                            }
                        },
                        None => {},
                    }
                }
                Some(&self.entries[i].1)
            },
            None => {
                proof {
                    let es = jentries(self.entries@);
                    if let Some(g) = seq_find(es, key@) {
                        assert(es[g].0 == self.entries@[g].0@);
                    }
                }
                None
            },
        }
    }

    /// Sets a key's value.
    pub fn insert(&mut self, key: &str, value: JsonValue)
        ensures
            final(self)@ == old(self)@.insert(key@, jview(value)),
            final(self).entries_view() == seq_insert(old(self).entries_view(), key@, jview(value)),
    {
        proof {
            use_type_invariant(&*self);
            lemma_object_keys(*self);
        }
        let ghost before = self@;
        let ghost old_entries = self.entries@;
        let found = self.find(key);
        let mut entries: Vec<(String, JsonValue)> = Vec::new();
        std::mem::swap(&mut entries, &mut self.entries);
        let name = crate::text::string_of(chars_of(key).as_slice());
        let ghost vv = jview(value);
        match found {
            Some(i) => {
                entries.set(i, (name, value));
            },
            None => {
                entries.push((name, value));
            },
        }
        proof {
            assert forall|a: int, b: int| 0 <= a < b < entries@.len() implies (#[trigger] entries@[a]).0@ != (#[trigger] entries@[b]).0@ by {
                if found is None && b == old_entries.len() {
                    assert(entries@[a] == old_entries[a]);
                } else {
                    if let Some(i) = found {
                        if a != i {
                            assert(entries@[a] == old_entries[a]);
                        }
                        if b != i {
                            assert(entries@[b] == old_entries[b]);
                        }
                    } else {
                        assert(entries@[a] == old_entries[a]);
                        assert(entries@[b] == old_entries[b]);
                    }
                }
            }
        }
        self.entries = entries;
        proof {
            lemma_object_keys(*self);
            assert forall|k: Seq<char>| #[trigger] self@.contains_key(k) <==> before.insert(key@, vv).contains_key(k) by {
                if self@.contains_key(k) && k != key@ {
                    let i = choose|i: int| 0 <= i < self.entries@.len() && self.entries@[i].0@ == k;
                    if let Some(f) = found {
                        assert(i != f);
                    }
                    assert(self.entries@[i] == old_entries[i]);
                }
                if before.contains_key(k) && k != key@ {
                    let i = choose|i: int| 0 <= i < old_entries.len() && old_entries[i].0@ == k;
                    if let Some(f) = found {
                        assert(i != f);
                    }
                    assert(self.entries@[i] == old_entries[i]);
                }
                if k == key@ {
                    match found {
                        Some(f) => assert(self.entries@[f as int].0@ == k),
                        None => assert(self.entries@[old_entries.len() as int].0@ == k),
                    }
                }
            }
            assert forall|k: Seq<char>| #[trigger] self@.contains_key(k) implies self@[k] == before.insert(key@, vv)[k] by {
                let i = choose|i: int| 0 <= i < self.entries@.len() && self.entries@[i].0@ == k;
                if k != key@ {
                    if let Some(f) = found {
                        assert(i != f);
                    }
                    assert(self.entries@[i] == old_entries[i]);
                }
            }
            assert(self@ =~= before.insert(key@, vv));
            lemma_jentries(self.entries@);
            lemma_jentries(old_entries);
            lemma_seq_find(jentries(old_entries), key@);
            match found {
                Some(f) => {
                    assert(seq_find(jentries(old_entries), key@) == Some(f as int)) by {
                        assert(jentries(old_entries)[f as int].0 == old_entries[f as int].0@);
                        match seq_find(jentries(old_entries), key@) {
                            Some(g) => {
                                assert(jentries(old_entries)[g].0 == old_entries[g].0@);
                                if g < f {
                                    assert(old_entries[g].0@ != old_entries[f as int].0@);
                                }
                            },
                            None => {},
                        }
                    }
                    assert(jentries(self.entries@) =~= jentries(old_entries).update(f as int, (key@, vv)));
                },
                None => {
                    assert(seq_find(jentries(old_entries), key@) is None) by {
                        if seq_find(jentries(old_entries), key@) is Some {
                            let g = seq_find(jentries(old_entries), key@)->0;
                            assert(jentries(old_entries)[g].0 == old_entries[g].0@);
                        }
                    }
                    assert(jentries(self.entries@) =~= jentries(old_entries).push((key@, vv)));
                },
            }
        }
    }

    /// Removes a key, giving back its value.
    pub fn remove(&mut self, key: &str) -> (r: Option<JsonValue>)
        ensures
            final(self)@ == old(self)@.remove(key@),
            final(self).entries_view() == seq_remove(old(self).entries_view(), key@),
            r matches Some(v) ==> old(self)@.contains_key(key@) && jview(v) == old(self)@[key@],
            r is None ==> !old(self)@.contains_key(key@),
    {
        proof {
            use_type_invariant(&*self);
            lemma_object_keys(*self);
        }
        let ghost before = self@;
        let ghost old_entries = self.entries@;
        let found = match self.find(key) {
            Some(i) => i,
            None => {
                assert(!before.contains_key(key@));
                assert(before.remove(key@) =~= before);
                proof {
                    lemma_jentries(old_entries);
                    lemma_seq_find(jentries(old_entries), key@);
                    if seq_find(jentries(old_entries), key@) is Some {
                        let g = seq_find(jentries(old_entries), key@)->0;
                        assert(jentries(old_entries)[g].0 == old_entries[g].0@);
                    }
                }
                return None;
            },
        };
        let mut entries: Vec<(String, JsonValue)> = Vec::new();
        std::mem::swap(&mut entries, &mut self.entries);
        let (_, value) = entries.remove(found);
        proof {
            assert forall|a: int, b: int| 0 <= a < b < entries@.len() implies (#[trigger] entries@[a]).0@ != (#[trigger] entries@[b]).0@ by {
                let oa = if a < found { a } else { a + 1 };
                let ob = if b < found { b } else { b + 1 };
                assert(entries@[a] == old_entries[oa]);
                assert(entries@[b] == old_entries[ob]);
            }
        }
        self.entries = entries;
        proof {
            lemma_object_keys(*self);
            assert forall|k: Seq<char>| #[trigger] self@.contains_key(k) <==> before.remove(key@).contains_key(k) by {
                if self@.contains_key(k) {
                    let i = choose|i: int| 0 <= i < self.entries@.len() && self.entries@[i].0@ == k;
                    let oi = if i < found { i } else { i + 1 };
                    assert(self.entries@[i] == old_entries[oi]);
                    assert(oi != found);
                }
                if before.contains_key(k) && k != key@ {
                    let oi = choose|oi: int| 0 <= oi < old_entries.len() && old_entries[oi].0@ == k;
                    assert(oi != found);
                    let i = if oi < found { oi } else { oi - 1 };
                    assert(self.entries@[i] == old_entries[oi]);
                }
            }
            assert forall|k: Seq<char>| #[trigger] self@.contains_key(k) implies self@[k] == before.remove(key@)[k] by {
                let i = choose|i: int| 0 <= i < self.entries@.len() && self.entries@[i].0@ == k;
                let oi = if i < found { i } else { i + 1 };
                assert(self.entries@[i] == old_entries[oi]);
            }
            assert(self@ =~= before.remove(key@));
            lemma_jentries(self.entries@);
            lemma_jentries(old_entries);
            lemma_seq_find(jentries(old_entries), key@);
            assert(seq_find(jentries(old_entries), key@) == Some(found as int)) by {
                assert(jentries(old_entries)[found as int].0 == old_entries[found as int].0@);
                match seq_find(jentries(old_entries), key@) {
                    Some(g) => {
                        assert(jentries(old_entries)[g].0 == old_entries[g].0@);
                        if g < found {
                            assert(old_entries[g].0@ != old_entries[found as int].0@);
                        }
                    },
                    None => {},
                }
            }
            assert(jentries(self.entries@) =~= jentries(old_entries).remove(found as int));
        }
        Some(value)
    }

    /// The number of keys.
    pub fn len(&self) -> (r: usize)
        ensures
            r == self@.dom().len(),
    {
        proof {
            use_type_invariant(self);
            lemma_object_keys(*self);
            lemma_key_count(*self);
        }
        self.entries.len()
    }

    /// The key and value at a position of the object's entries.
    pub fn entry_at(&self, i: usize) -> (r: (&String, &JsonValue))
        requires
            i < self.entries_view().len(),
        ensures
            (r.0@, jview(*r.1)) == self.entries_view()[i as int],
    {
        proof {
            lemma_jentries(self.entries@);
        }
        (&self.entries[i].0, &self.entries[i].1)
    }

    /// The number of entries; their keys are distinct and their map is
    /// the object.
    pub fn entry_count(&self) -> (r: usize)
        ensures
            r == self.entries_view().len(),
            forall|i: int, j: int| 0 <= i < j < self.entries_view().len() ==> (#[trigger] self.entries_view()[i]).0 != (#[trigger] self.entries_view()[j]).0,
            forall|k: Seq<char>| #[trigger] self@.contains_key(k) <==> exists|i: int| 0 <= i < self.entries_view().len() && self.entries_view()[i].0 == k,
            forall|i: int| 0 <= i < self.entries_view().len() ==> self@[(#[trigger] self.entries_view()[i]).0] == self.entries_view()[i].1,
    {
        proof {
            use_type_invariant(self);
            lemma_jentries(self.entries@);
            let es = self.entries_view();
            assert forall|i: int, j: int| 0 <= i < j < es.len() implies (#[trigger] es[i]).0 != (#[trigger] es[j]).0 by {
                assert(es[i].0 == self.entries@[i].0@);
                assert(es[j].0 == self.entries@[j].0@);
            }
            lemma_entries_map(es);
        }
        self.entries.len()
    }
}

proof fn lemma_key_count(o: JsonObject)
    requires
        keys_unique(o.entries@),
    ensures
        o@.dom().len() == o.entries@.len(),
{
    lemma_jentries(o.entries@);
    let es = jentries(o.entries@);
    assert forall|i: int, j: int| 0 <= i < j < es.len() implies (#[trigger] es[i]).0 != (#[trigger] es[j]).0 by {
        assert(es[i].0 == o.entries@[i].0@);
        assert(es[j].0 == o.entries@[j].0@);
    }
    lemma_map_count(es);
}

proof fn lemma_map_count(es: Seq<(Seq<char>, JView)>)
    requires
        forall|i: int, j: int| 0 <= i < j < es.len() ==> (#[trigger] es[i]).0 != (#[trigger] es[j]).0,
    ensures
        entries_map(es).dom().len() == es.len(),
        entries_map(es).dom().finite(),
    decreases es.len(),
{
    if es.len() > 0 {
        let init = es.drop_last();
        lemma_map_count(init);
        lemma_entries_map(init);
        assert(!entries_map(init).contains_key(es.last().0)) by {
            if entries_map(init).contains_key(es.last().0) {
                let i = choose|i: int| 0 <= i < init.len() && init[i].0 == es.last().0;
                assert(es[i] == init[i]);
            }
        }
    }
}


/// Whether plain entries hold each key once.
pub open spec fn distinct_keys(es: Seq<(Seq<char>, JView)>) -> bool {
    forall|i: int, j: int| 0 <= i < j < es.len() ==> (#[trigger] es[i]).0 != (#[trigger] es[j]).0
}

/// The value of a key among entries with distinct keys is the map's.
pub proof fn lemma_seq_get(es: Seq<(Seq<char>, JView)>, k: Seq<char>)
    requires
        distinct_keys(es),
    ensures
        seq_get(es, k) == (if entries_map(es).contains_key(k) { Some(entries_map(es)[k]) } else { None::<JView> }),
{
    lemma_entries_map(es);
    lemma_seq_find(es, k);
    if let Some(i) = seq_find(es, k) {
        assert(entries_map(es)[es[i].0] == es[i].1);
    } else {
        if entries_map(es).contains_key(k) {
            let i = choose|i: int| 0 <= i < es.len() && es[i].0 == k;
        }
    }
}

/// The value of a key is the one at its first position.
pub proof fn lemma_seq_get_at(es: Seq<(Seq<char>, JView)>, k: Seq<char>, i: int)
    requires
        0 <= i < es.len(),
        es[i].0 == k,
        forall|j: int| 0 <= j < i ==> es[j].0 != k,
    ensures
        seq_get(es, k) == Some(es[i].1),
{
    lemma_seq_find(es, k);
    if let Some(f) = seq_find(es, k) {
        if f < i {
            assert(es[f].0 != k);
        } else if f > i {
            assert(es[i].0 != k);
        }
    }
}

/// A key at no position has no value.
pub proof fn lemma_seq_get_none(es: Seq<(Seq<char>, JView)>, k: Seq<char>)
    requires
        forall|j: int| 0 <= j < es.len() ==> es[j].0 != k,
    ensures
        seq_get(es, k) is None,
{
    lemma_seq_find(es, k);
}

/// Setting a key gives it its value and leaves every other key's value.
pub proof fn lemma_seq_get_insert(es: Seq<(Seq<char>, JView)>, k: Seq<char>, v: JView, q: Seq<char>)
    ensures
        seq_get(seq_insert(es, k, v), q) == (if q == k { Some(v) } else { seq_get(es, q) }),
{
    lemma_seq_find(es, k);
    lemma_seq_find(es, q);
    let r = seq_insert(es, k, v);
    match seq_find(es, k) {
        Some(i) => {
            if q == k {
                lemma_seq_get_at(r, q, i);
            } else {
                match seq_find(es, q) {
                    Some(j) => {
                        assert forall|m: int| 0 <= m < j implies r[m].0 != q by {
                            assert(m == i || r[m] == es[m]);
                        }
                        lemma_seq_get_at(r, q, j);
                    },
                    None => {
                        assert forall|m: int| 0 <= m < r.len() implies r[m].0 != q by {
                            assert(m == i || r[m] == es[m]);
                        }
                        lemma_seq_get_none(r, q);
                    },
                }
            }
        },
        None => {
            if q == k {
                assert forall|m: int| 0 <= m < es.len() implies r[m].0 != q by {
                    assert(r[m] == es[m]);
                }
                lemma_seq_get_at(r, q, es.len() as int);
            } else {
                match seq_find(es, q) {
                    Some(j) => {
                        assert forall|m: int| 0 <= m < j implies r[m].0 != q by {
                            assert(r[m] == es[m]);
                        }
                        lemma_seq_get_at(r, q, j);
                    },
                    None => {
                        assert forall|m: int| 0 <= m < r.len() implies r[m].0 != q by {
                            if m < es.len() {
                                assert(r[m] == es[m]);
                            }
                        }
                        lemma_seq_get_none(r, q);
                    },
                }
            }
        },
    }
}

/// Removing a key leaves every other key's value; with distinct keys the
/// removed key has none left, and the keys stay distinct.
pub proof fn lemma_seq_get_remove(es: Seq<(Seq<char>, JView)>, k: Seq<char>, q: Seq<char>)
    ensures
        q != k ==> seq_get(seq_remove(es, k), q) == seq_get(es, q),
        distinct_keys(es) ==> seq_get(seq_remove(es, k), k) is None && distinct_keys(seq_remove(es, k)),
{
    lemma_seq_find(es, k);
    lemma_seq_find(es, q);
    let r = seq_remove(es, k);
    match seq_find(es, k) {
        Some(i) => {
            assert(r.len() == es.len() - 1);
            assert forall|m: int| 0 <= m < r.len() implies #[trigger] r[m] == (if m < i { es[m] } else { es[m + 1] }) by {}
            if q != k {
                match seq_find(es, q) {
                    Some(j) => {
                        let jj = if j < i { j } else { j - 1 };
                        assert(j != i);
                        assert(r[jj] == es[j]);
                        assert forall|m: int| 0 <= m < jj implies r[m].0 != q by {
                            if m < i {
                                assert(r[m] == es[m]);
                            } else {
                                assert(r[m] == es[m + 1]);
                            }
                        }
                        lemma_seq_get_at(r, q, jj);
                    },
                    None => {
                        assert forall|m: int| 0 <= m < r.len() implies r[m].0 != q by {
                            if m < i {
                                assert(r[m] == es[m]);
                            } else {
                                assert(r[m] == es[m + 1]);
                            }
                        }
                        lemma_seq_get_none(r, q);
                    },
                }
            }
            if distinct_keys(es) {
                assert forall|m: int| 0 <= m < r.len() implies r[m].0 != k by {
                    if m < i {
                        assert(r[m] == es[m]);
                    } else {
                        assert(r[m] == es[m + 1]);
                        assert(es[i].0 != es[m + 1].0);
                    }
                }
                lemma_seq_get_none(r, k);
                assert forall|a: int, b: int| 0 <= a < b < r.len() implies (#[trigger] r[a]).0 != (#[trigger] r[b]).0 by {
                    let a2 = if a < i { a } else { a + 1 };
                    let b2 = if b < i { b } else { b + 1 };
                    assert(r[a] == es[a2]);
                    assert(r[b] == es[b2]);
                    assert(es[a2].0 != es[b2].0);
                }
            }
        },
        None => {
            lemma_seq_get_none(es, k);
        },
    }
}

/// Setting a key keeps keys distinct and sets it in the map.
pub proof fn lemma_seq_insert(es: Seq<(Seq<char>, JView)>, k: Seq<char>, v: JView)
    requires
        distinct_keys(es),
    ensures
        distinct_keys(seq_insert(es, k, v)),
        entries_map(seq_insert(es, k, v)) == entries_map(es).insert(k, v),
{
    lemma_seq_find(es, k);
    lemma_entries_map(es);
    let r = seq_insert(es, k, v);
    match seq_find(es, k) {
        Some(i) => {
            assert forall|a: int, b: int| 0 <= a < b < r.len() implies (#[trigger] r[a]).0 != (#[trigger] r[b]).0 by {
                assert(r[a].0 == es[a].0);
                assert(r[b].0 == es[b].0);
            }
            lemma_entries_map(r);
            assert forall|q: Seq<char>| #[trigger] entries_map(r).contains_key(q) <==> entries_map(es).insert(k, v).contains_key(q) by {
                if entries_map(r).contains_key(q) {
                    let j = choose|j: int| 0 <= j < r.len() && r[j].0 == q;
                    assert(es[j].0 == q);
                }
                if entries_map(es).contains_key(q) {
                    let j = choose|j: int| 0 <= j < es.len() && es[j].0 == q;
                    assert(r[j].0 == q);
                }
                if q == k {
                    assert(r[i].0 == q);
                }
            }
            assert forall|q: Seq<char>| #[trigger] entries_map(r).contains_key(q) implies entries_map(r)[q] == entries_map(es).insert(k, v)[q] by {
                let j = choose|j: int| 0 <= j < r.len() && r[j].0 == q;
                assert(entries_map(r)[r[j].0] == r[j].1);
                if j != i {
                    assert(r[j] == es[j]);
                    assert(entries_map(es)[es[j].0] == es[j].1);
                }
            }
            assert(entries_map(r) =~= entries_map(es).insert(k, v));
        },
        None => {
            assert forall|a: int, b: int| 0 <= a < b < r.len() implies (#[trigger] r[a]).0 != (#[trigger] r[b]).0 by {
                assert(r[a] == es[a]);
                if b < es.len() {
                    assert(r[b] == es[b]);
                }
            }
            assert(r.drop_last() =~= es);
        },
    }
}

/// A copy of an array's values.
pub fn copy_array(a: &Vec<JsonValue>) -> (r: Vec<JsonValue>)
    ensures
        jviews(r@) == jviews(a@),
{
    let mut out: Vec<JsonValue> = Vec::new();
    let mut i: usize = 0;
    while i < a.len()
        invariant
            i <= a@.len(),
            out@.len() == i,
            forall|k: int| 0 <= k < i ==> jview(#[trigger] out@[k]) == jview(a@[k]),
        decreases a@.len() - i,
    {
        out.push(a[i].copy());
        i += 1;
    }
    proof {
        lemma_jviews(out@);
        lemma_jviews(a@);
        assert(jviews(out@) =~= jviews(a@));
    }
    out
}
} // verus!
