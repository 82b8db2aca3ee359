//! Tool argument checking against a plain JSON schema: values are first
//! coerced to the schema's single type where a host round trip lost it,
//! then checked; errors name the path and what was expected.

use vstd::prelude::*;

use crate::json::{jview, lemma_seq_find, seq_find, seq_get, seq_insert, JView, JsonNumber, JsonObject, JsonValue};
use crate::settings_manager::strings_in;
use crate::text::{chars_eq, chars_of, concat_chars, extend_chars, string_of};

verus! {

/// The number a JSON number text gives (as `serde_json` parses it).
pub uninterp spec fn parsed_json_number(text: Seq<char>) -> Option<JsonNumber>;

/// `serde_json::Number`'s `FromStr`: the number a JSON number text
/// gives, told apart as a non-negative integer, a negative integer or a
/// fractional number (kept as its text); none when the text is not a
/// JSON number. Its result is named, not stated.
#[verifier::external_body]
fn parse_json_number(text: &str) -> (r: Option<JsonNumber>)
    ensures
        r == parsed_json_number(text@),
{
    match text.parse::<serde_json::Number>() {
        Ok(n) => Some(match (n.as_u64(), n.as_i64()) {
            (Some(u), _) => JsonNumber::PosInt(u),
            (None, Some(i)) => JsonNumber::NegInt(i),
            (None, None) => JsonNumber::Float(n.to_string()),
        }),
        Err(_) => None,
    }
}

/// The path of a child: its name at the root, else the path, `.` and
/// the name.
pub open spec fn child_path(path: Seq<char>, child: Seq<char>) -> Seq<char> {
    if path == "root"@ { child } else { path + "."@ + child }
}

/// The parts joined with a separator between consecutive parts.
pub open spec fn join_sep(parts: Seq<Seq<char>>, sep: Seq<char>) -> Seq<char>
    decreases parts.len(),
{
    if parts.len() == 0 {
        Seq::empty()
    } else if parts.len() == 1 {
        parts[0]
    } else {
        join_sep(parts.drop_last(), sep) + sep + parts.last()
    }
}

/// The types a schema's `type` accepts: one name, or the names in an
/// array.
pub open spec fn accepted_types(t: Option<JView>) -> Seq<Seq<char>> {
    match t {
        Some(JView::Str(k)) => seq![k],
        Some(JView::Arr(ks)) => strings_in(ks),
        _ => Seq::empty(),
    }
}

/// A number as a 64-bit signed integer, when it is one.
pub open spec fn as_i64(n: JsonNumber) -> Option<int> {
    match n {
        JsonNumber::PosInt(u) => if u <= i64::MAX { Some(u as int) } else { None },
        JsonNumber::NegInt(i) => Some(i as int),
        JsonNumber::Float(_) => None,
    }
}

/// Whether a value has a schema type (an unknown type name matches).
pub open spec fn spec_matches_type(v: JView, kind: Seq<char>) -> bool {
    if kind == "object"@ {
        v is Obj
    } else if kind == "array"@ {
        v is Arr
    } else if kind == "string"@ {
        v is Str
    } else if kind == "number"@ {
        v is Number
    } else if kind == "integer"@ {
        v matches JView::Number(n) && !(n is Float)
    } else if kind == "boolean"@ {
        v is Bool
    } else if kind == "null"@ {
        v is Null
    } else {
        true
    }
}

/// A value coerced to a type where a host round trip may have lost it:
/// an empty object to an empty array; a number's text, a boolean (1 or
/// 0) or null (0) to a number; `"true"`, `"false"`, 1 or 0 to a boolean;
/// null (`""`) or a boolean (its name) to a string; `""`, 0 or `false`
/// to null. Anything else stays.
pub open spec fn spec_coerce(v: JView, kind: Seq<char>) -> JView {
    if kind == "array"@ {
        match v {
            JView::Obj(es) => if es.len() == 0 { JView::Arr(Seq::empty()) } else { v },
            _ => v,
        }
    } else if kind == "number"@ || kind == "integer"@ {
        match v {
            JView::Str(t) => match parsed_json_number(t) {
                Some(n) => JView::Number(n),
                None => v,
            },
            JView::Bool(f) => JView::Number(JsonNumber::PosInt(if f { 1 } else { 0 })),
            JView::Null => JView::Number(JsonNumber::PosInt(0)),
            _ => v,
        }
    } else if kind == "boolean"@ {
        match v {
            JView::Str(t) => if t == "true"@ { JView::Bool(true) } else if t == "false"@ { JView::Bool(false) } else { v },
            JView::Number(n) => if as_i64(n) == Some(1int) { JView::Bool(true) } else if as_i64(n) == Some(0int) { JView::Bool(false) } else { v },
            _ => v,
        }
    } else if kind == "string"@ {
        match v {
            JView::Null => JView::Str(Seq::empty()),
            JView::Bool(f) => JView::Str(if f { "true"@ } else { "false"@ }),
            _ => v,
        }
    } else if kind == "null"@ {
        match v {
            JView::Str(t) => if t.len() == 0 { JView::Null } else { v },
            JView::Number(n) => if as_i64(n) == Some(0int) { JView::Null } else { v },
            JView::Bool(f) => if !f { JView::Null } else { v },
            _ => v,
        }
    } else {
        v
    }
}

/// Whether a value has one of the types.
pub open spec fn any_type_matches(v: JView, kinds: Seq<Seq<char>>) -> bool {
    exists|i: int| 0 <= i < kinds.len() && spec_matches_type(v, #[trigger] kinds[i])
}

/// The type error's text.
pub open spec fn type_message(kinds: Seq<Seq<char>>) -> Seq<char> {
    if kinds.len() == 1 { "must be "@ + kinds[0] } else { "must be either "@ + join_sep(kinds, " or "@) }
}

/// The names an object lacks, in order.
pub open spec fn missing_names(names: Seq<Seq<char>>, map: Seq<(Seq<char>, JView)>) -> Seq<Seq<char>>
    decreases names.len(),
{
    if names.len() == 0 {
        Seq::empty()
    } else {
        let before = missing_names(names.drop_last(), map);
        if seq_get(map, names.last()) is None { before.push(names.last()) } else { before }
    }
}

/// The one error for an object's missing required properties, addressed
/// at the first missing one, or none.
pub open spec fn required_errors(schema: Seq<(Seq<char>, JView)>, map: Seq<(Seq<char>, JView)>, path: Seq<char>) -> Seq<Seq<char>> {
    let names = match seq_get(schema, "required"@) {
        Some(JView::Arr(a)) => strings_in(a),
        _ => Seq::empty(),
    };
    let missing = missing_names(names, map);
    if missing.len() > 0 {
        seq![child_path(path, missing[0]) + ": must have required properties "@ + join_sep(missing, ", "@)]
    } else {
        Seq::empty()
    }
}

/// A key's value is part of its object.
pub proof fn lemma_get_decreases(es: Seq<(Seq<char>, JView)>, k: Seq<char>)
    requires
        seq_get(es, k) is Some,
    ensures
        decreases_to!(JView::Obj(es) => seq_get(es, k)->0),
{
    lemma_seq_find(es, k);
    let i = seq_find(es, k)->0;
    assert(decreases_to!(JView::Obj(es) => JView::Obj(es)->Obj_0));
    assert(decreases_to!(es => es[i]));
    assert(decreases_to!(es[i] => es[i].1));
    assert(decreases_to!(JView::Obj(es) => es[i].1));
}

/// A value checked against a schema at a path: the coerced value and the
/// errors, in order. An object schema with a `type` coerces to a single
/// type and, when the value has none of the types, gives one error and
/// stops; then an object value's missing `required` properties give one
/// error and its `properties` are checked in the schema's order; then an
/// array value's elements are checked against `items`.
pub open spec fn check(schema: JView, value: JView, path: Seq<char>) -> (JView, Seq<Seq<char>>)
    decreases schema, 2int, 0int,
{
    match schema {
        JView::Obj(es) => {
            let kinds = accepted_types(seq_get(es, "type"@));
            let v1 = if kinds.len() == 1 { spec_coerce(value, kinds[0]) } else { value };
            if kinds.len() > 0 && !any_type_matches(v1, kinds) {
                (v1, seq![path + ": "@ + type_message(kinds)])
            } else {
                let (v2, e1) = match v1 {
                    JView::Obj(map) => {
                        let req = required_errors(es, map, path);
                        match seq_get(es, "properties"@) {
                            Some(JView::Obj(props)) => {
                                proof {
                                    lemma_get_decreases(es, "properties"@);
                                }
                                let (m2, ep) = check_props(props, map, path);
                                (JView::Obj(m2), req + ep)
                            },
                            _ => (v1, req),
                        }
                    },
                    _ => (v1, Seq::empty()),
                };
                match (seq_get(es, "items"@), v2) {
                    (Some(items), JView::Arr(vals)) => {
                        proof {
                            lemma_get_decreases(es, "items"@);
                        }
                        let (vs, e2) = check_items(items, vals, path);
                        (JView::Arr(vs), e1 + e2)
                    },
                    _ => (v2, e1),
                }
            }
        },
        _ => (value, Seq::empty()),
    }
}

/// A schema of type `integer` takes exactly the whole numbers: a whole
/// number passes unchanged, a fractional one is refused with exactly
/// `<path>: must be integer`, and whatever passes comes out whole.
pub proof fn law_integer_type(es: Seq<(Seq<char>, JView)>, v: JView, path: Seq<char>)
    requires
        seq_get(es, "type"@) == Some(JView::Str("integer"@)),
    ensures
        (v matches JView::Number(n) && n is Float) ==> check(JView::Obj(es), v, path).1 == seq![path + ": must be integer"@],
        check(JView::Obj(es), v, path).1.len() == 0 ==> (check(JView::Obj(es), v, path).0 matches JView::Number(n)
            && (n is PosInt || n is NegInt)),
        (v matches JView::Number(n) && !(n is Float)) ==> check(JView::Obj(es), v, path) == (v, Seq::<Seq<char>>::empty()),
{
    reveal_strlit("integer");
    reveal_strlit("object");
    reveal_strlit("array");
    reveal_strlit("string");
    reveal_strlit("number");
    reveal_strlit("must be ");
    let k = "integer"@;
    assert(k != "object"@ && k != "array"@ && k != "string"@ && k != "number"@) by {
        assert(k[0] != "object"@[0] && k[0] != "array"@[0] && k[0] != "string"@[0] && k[0] != "number"@[0]);
    }
    let kinds = accepted_types(seq_get(es, "type"@));
    assert(kinds == seq![k]);
    let v1 = spec_coerce(v, k);
    if v matches JView::Number(n) && n is Float {
        assert(v1 == v);
        assert(!spec_matches_type(v1, k));
        assert(!any_type_matches(v1, kinds));
        assert(type_message(kinds) == "must be "@ + k);
        reveal_strlit(": ");
        reveal_strlit(": must be integer");
        assert(path + ": "@ + ("must be "@ + k) =~= path + ": must be integer"@);
        assert(check(JView::Obj(es), v, path).1 == seq![path + ": "@ + type_message(kinds)]);
    }
    if !any_type_matches(v1, kinds) {
        assert(check(JView::Obj(es), v, path).1.len() == 1);
    } else {
        assert(spec_matches_type(v1, kinds[0]));
        assert(v1 matches JView::Number(n) && !(n is Float));
        assert(!(v1 is Obj) && !(v1 is Arr));
        assert(check(JView::Obj(es), v, path).0 == v1);
    }
}

/// An object's properties checked in the order of the schema's
/// `properties` (those the object has).
pub open spec fn check_props(props: Seq<(Seq<char>, JView)>, map: Seq<(Seq<char>, JView)>, path: Seq<char>) -> (Seq<(Seq<char>, JView)>, Seq<Seq<char>>)
    decreases props, 1int, 0int,
{
    if props.len() == 0 {
        (map, Seq::empty())
    } else {
        let (m1, e1) = check_props(props.subrange(0, props.len() - 1), map, path);
        let name = props[props.len() - 1].0;
        match seq_get(m1, name) {
            Some(child) => {
                let (c2, e2) = check(props[props.len() - 1].1, child, child_path(path, name));
                (seq_insert(m1, name, c2), e1 + e2)
            },
            None => (m1, e1),
        }
    }
}

/// An array's elements checked against `items`, in order, at paths
/// ending in their indices.
pub open spec fn check_items(items: JView, vals: Seq<JView>, path: Seq<char>) -> (Seq<JView>, Seq<Seq<char>>)
    decreases items, 3int, vals.len(),
{
    if vals.len() == 0 {
        (Seq::empty(), Seq::empty())
    } else {
        let (vs, e1) = check_items(items, vals.drop_last(), path);
        let (v, e2) = check(items, vals.last(), child_path(path, crate::error::decimal_digits((vals.len() - 1) as nat)));
        (vs.push(v), e1 + e2)
    }
}


fn is_lit(v: &Vec<char>, lit: &str) -> (r: bool)
    ensures
        r == (v@ == lit@),
{
    chars_eq(v, &chars_of(lit))
}

fn child_path_chars(path: &Vec<char>, child: &Vec<char>) -> (r: Vec<char>)
    ensures
        r@ == child_path(path@, child@),
{
    if is_lit(path, "root") {
        crate::text::copy_range(child, 0, child.len())
    } else {
        let mut r = concat_chars(path, &chars_of("."));
        extend_chars(&mut r, child);
        r
    }
}

fn join_sep_chars(parts: &Vec<String>, sep: &str) -> (r: Vec<char>)
    ensures
        r@ == join_sep(crate::path::strings_view(parts@), sep@),
{
    let ghost ps = crate::path::strings_view(parts@);
    let mut out: Vec<char> = Vec::new();
    let mut i: usize = 0;
    assert(ps.take(0) =~= Seq::<Seq<char>>::empty());
    while i < parts.len()
        invariant
            i <= parts@.len(),
            ps == crate::path::strings_view(parts@),
            out@ == join_sep(ps.take(i as int), sep@),
        decreases parts@.len() - i,
    {
        assert(ps.take(i + 1).drop_last() =~= ps.take(i as int));
        assert(ps.take(i + 1).last() == parts@[i as int]@);
        if i > 0 {
            extend_chars(&mut out, &chars_of(sep));
        } else {
            assert(ps.take(1)[0] == parts@[0]@);
        }
        extend_chars(&mut out, &chars_of(parts[i].as_str()));
        i += 1;
    }
    assert(ps.take(ps.len() as int) =~= ps);
    out
}

fn accepted_types_exec(t: Option<&JsonValue>) -> (r: Vec<String>)
    ensures
        crate::path::strings_view(r@) == accepted_types(crate::settings_manager::opt_json(t)),
{
    match t {
        Some(JsonValue::String(k)) => {
            let r = vec![k.clone()];
            assert(crate::path::strings_view(r@) =~= seq![k@]);
            r
        },
        Some(JsonValue::Array(ks)) => crate::settings_manager::strings_of(ks),
        _ => {
            let r: Vec<String> = Vec::new();
            assert(crate::path::strings_view(r@) =~= Seq::<Seq<char>>::empty());
            r
        },
    }
}

fn as_i64_exec(n: &JsonNumber) -> (r: Option<i64>)
    ensures
        match r {
            Some(i) => as_i64(*n) == Some(i as int),
            None => as_i64(*n) is None,
        },
{
    match n {
        JsonNumber::PosInt(u) => if *u <= 9223372036854775807u64 { Some(*u as i64) } else { None },
        JsonNumber::NegInt(i) => Some(*i),
        JsonNumber::Float(_) => None,
    }
}

fn matches_type(v: &JsonValue, kind: &Vec<char>) -> (r: bool)
    ensures
        r == spec_matches_type(jview(*v), kind@),
{
    if is_lit(kind, "object") {
        matches!(v, JsonValue::Object(_))
    } else if is_lit(kind, "array") {
        matches!(v, JsonValue::Array(_))
    } else if is_lit(kind, "string") {
        matches!(v, JsonValue::String(_))
    } else if is_lit(kind, "number") {
        matches!(v, JsonValue::Number(_))
    } else if is_lit(kind, "integer") {
        match v {
            JsonValue::Number(JsonNumber::Float(_)) => false,
            JsonValue::Number(_) => true,
            _ => false,
        }
    } else if is_lit(kind, "boolean") {
        matches!(v, JsonValue::Bool(_))
    } else if is_lit(kind, "null") {
        matches!(v, JsonValue::Null)
    } else {
        true
    }
}

fn text_value(lit: &str) -> (r: JsonValue)
    ensures
        jview(r) == JView::Str(lit@),
{
    JsonValue::String(string_of(chars_of(lit).as_slice()))
}

fn coerce(v: JsonValue, kind: &Vec<char>) -> (r: JsonValue)
    ensures
        jview(r) == spec_coerce(jview(v), kind@),
{
    if is_lit(kind, "array") {
        match v {
            JsonValue::Object(o) => if o.entry_count() == 0 { JsonValue::Array(Vec::new()) } else { JsonValue::Object(o) },
            other => other,
        }
    } else if is_lit(kind, "number") || is_lit(kind, "integer") {
        match v {
            JsonValue::String(t) => match parse_json_number(t.as_str()) {
                Some(n) => JsonValue::Number(n),
                None => JsonValue::String(t),
            },
            JsonValue::Bool(f) => JsonValue::Number(JsonNumber::PosInt(if f { 1 } else { 0 })),
            JsonValue::Null => JsonValue::Number(JsonNumber::PosInt(0)),
            other => other,
        }
    } else if is_lit(kind, "boolean") {
        match v {
            JsonValue::String(t) => {
                let c = chars_of(t.as_str());
                if is_lit(&c, "true") {
                    JsonValue::Bool(true)
                } else if is_lit(&c, "false") {
                    JsonValue::Bool(false)
                } else {
                    JsonValue::String(t)
                }
            },
            JsonValue::Number(n) => match as_i64_exec(&n) {
                Some(1) => JsonValue::Bool(true),
                Some(0) => JsonValue::Bool(false),
                _ => JsonValue::Number(n),
            },
            other => other,
        }
    } else if is_lit(kind, "string") {
        match v {
            JsonValue::Null => JsonValue::String(string_of(Vec::<char>::new().as_slice())),
            JsonValue::Bool(f) => text_value(if f { "true" } else { "false" }),
            other => other,
        }
    } else if is_lit(kind, "null") {
        match v {
            JsonValue::String(t) => if t.unicode_len() == 0 { JsonValue::Null } else { JsonValue::String(t) },
            JsonValue::Number(n) => match as_i64_exec(&n) {
                Some(0) => JsonValue::Null,
                _ => JsonValue::Number(n),
            },
            JsonValue::Bool(f) => if !f { JsonValue::Null } else { JsonValue::Bool(f) },
            other => other,
        }
    } else {
        v
    }
}

fn any_type_matches_exec(v: &JsonValue, kinds: &Vec<String>) -> (r: bool)
    ensures
        r == any_type_matches(jview(*v), crate::path::strings_view(kinds@)),
{
    let ghost ks = crate::path::strings_view(kinds@);
    let mut i: usize = 0;
    while i < kinds.len()
        invariant
            i <= kinds@.len(),
            ks == crate::path::strings_view(kinds@),
            forall|j: int| 0 <= j < i ==> !spec_matches_type(jview(*v), #[trigger] ks[j]),
        decreases kinds@.len() - i,
    {
        assert(ks[i as int] == kinds@[i as int]@);
        if matches_type(v, &chars_of(kinds[i].as_str())) {
            return true;
        }
        i += 1;
    }
    false
}

fn missing_exec(names: &Vec<String>, map: &JsonObject) -> (r: Vec<String>)
    ensures
        crate::path::strings_view(r@) == missing_names(crate::path::strings_view(names@), map.entries_view()),
{
    let ghost ns = crate::path::strings_view(names@);
    let mut out: Vec<String> = Vec::new();
    let mut i: usize = 0;
    assert(ns.take(0) =~= Seq::<Seq<char>>::empty());
    while i < names.len()
        invariant
            i <= names@.len(),
            ns == crate::path::strings_view(names@),
            crate::path::strings_view(out@) == missing_names(ns.take(i as int), map.entries_view()),
        decreases names@.len() - i,
    {
        assert(ns.take(i + 1).drop_last() =~= ns.take(i as int));
        assert(ns.take(i + 1).last() == names@[i as int]@);
        let ghost before = crate::path::strings_view(out@);
        if map.get(names[i].as_str()).is_none() {
            out.push(names[i].clone());
            assert(crate::path::strings_view(out@) =~= before.push(names@[i as int]@));
        }
        i += 1;
    }
    assert(ns.take(ns.len() as int) =~= ns);
    out
}

fn push_error(errors: &mut Vec<String>, e: Vec<char>)
    ensures
        crate::path::strings_view(final(errors)@) == crate::path::strings_view(old(errors)@).push(e@),
{
    let ghost before = crate::path::strings_view(errors@);
    errors.push(string_of(e.as_slice()));
    assert(crate::path::strings_view(errors@) =~= before.push(e@));
}

/// Checks a value against a schema at a path (see `check`), appending
/// the errors.
fn check_value(schema: &JsonValue, value: JsonValue, path: &Vec<char>, errors: &mut Vec<String>) -> (r: JsonValue)
    ensures
        jview(r) == check(jview(*schema), jview(value), path@).0,
        crate::path::strings_view(final(errors)@) == crate::path::strings_view(old(errors)@) + check(jview(*schema), jview(value), path@).1,
    decreases jview(*schema), 2int, 0int,
{
    let ghost start = crate::path::strings_view(errors@);
    let ghost ov = jview(value);
    let object = match schema {
        JsonValue::Object(o) => o,
        _ => {
            assert(start + Seq::<Seq<char>>::empty() =~= start);
            return value;
        },
    };
    let ghost es = object.entries_view();
    let kinds = accepted_types_exec(object.get("type"));
    let ghost ks = crate::path::strings_view(kinds@);
    let v1 = if kinds.len() == 1 {
        assert(ks[0] == kinds@[0]@);
        coerce(value, &chars_of(kinds[0].as_str()))
    } else {
        value
    };
    if kinds.len() > 0 && !any_type_matches_exec(&v1, &kinds) {
        let mut message = if kinds.len() == 1 {
            assert(ks[0] == kinds@[0]@);
            concat_chars(&chars_of("must be "), &chars_of(kinds[0].as_str()))
        } else {
            concat_chars(&chars_of("must be either "), &join_sep_chars(&kinds, " or "))
        };
        let mut e = concat_chars(path, &chars_of(": "));
        extend_chars(&mut e, &message);
        push_error(errors, e);
        assert(crate::path::strings_view(errors@) =~= start + seq![path@ + ": "@ + type_message(ks)]);
        return v1;
    }
    let ghost v1v = jview(v1);
    let v2 = match v1 {
        JsonValue::Object(mut map) => {
            let ghost map0 = map.entries_view();
            let names = match object.get("required") {
                Some(JsonValue::Array(a)) => crate::settings_manager::strings_of(a),
                _ => Vec::new(),
            };
            assert(crate::path::strings_view(names@) == match seq_get(es, "required"@) {
                Some(JView::Arr(a)) => strings_in(a),
                _ => Seq::<Seq<char>>::empty(),
            }) by {
                if !(seq_get(es, "required"@) matches Some(JView::Arr(_))) {
                    assert(crate::path::strings_view(names@) =~= Seq::<Seq<char>>::empty());
                }
            }
            let missing = missing_exec(&names, &map);
            if missing.len() > 0 {
                let mut e = child_path_chars(path, &chars_of(missing[0].as_str()));
                extend_chars(&mut e, &chars_of(": must have required properties "));
                extend_chars(&mut e, &join_sep_chars(&missing, ", "));
                push_error(errors, e);
            }
            let ghost after_req = crate::path::strings_view(errors@);
            assert(after_req == start + required_errors(es, map0, path@)) by {
                if missing.len() == 0 {
                    assert(start + Seq::<Seq<char>>::empty() =~= start);
                }
            }
            match object.get("properties") {
                Some(JsonValue::Object(props)) => {
                    let ghost pes = props.entries_view();
                    let n = props.entry_count();
                    let mut j: usize = 0;
                    assert(pes.subrange(0, 0) =~= Seq::<(Seq<char>, JView)>::empty());
                    assert(after_req + Seq::<Seq<char>>::empty() =~= after_req);
                    while j < n
                        invariant
                            j <= n,
                            n == pes.len(),
                            pes == props.entries_view(),
                            es == object.entries_view(),
                            jview(*schema) == JView::Obj(es),
                            seq_get(es, "properties"@) == Some(JView::Obj(pes)),
                            map.entries_view() == check_props(pes.subrange(0, j as int), map0, path@).0,
                            crate::path::strings_view(errors@) == after_req + check_props(pes.subrange(0, j as int), map0, path@).1,
                        decreases n - j,
                    {
                        let (name, ps) = props.entry_at(j);
                        proof {
                            lemma_get_decreases(es, "properties"@);
                            let po = JView::Obj(pes);
                            assert(decreases_to!(po => po->Obj_0));
                            assert(po->Obj_0 == pes);
                            assert(decreases_to!(pes => pes[j as int]));
                            assert(decreases_to!(pes[j as int] => pes[j as int].1));
                            assert(decreases_to!(jview(*schema) => jview(*ps)));
                        }
                        assert(pes.subrange(0, j + 1).subrange(0, j as int) =~= pes.subrange(0, j as int));
                        assert(pes.subrange(0, j + 1)[j as int] == pes[j as int]);
                        let child = match map.get(name.as_str()) {
                            Some(c) => Some(c.copy()),
                            None => None,
                        };
                        match child {
                            Some(c) => {
                                let ghost before_errors = crate::path::strings_view(errors@);
                                let cp = child_path_chars(path, &chars_of(name.as_str()));
                                let c2 = check_value(ps, c, &cp, errors);
                                map.insert(name.as_str(), c2);
                                assert(crate::path::strings_view(errors@) =~= after_req + check_props(pes.subrange(0, j + 1), map0, path@).1);
                            },
                            None => {},
                        }
                        j += 1;
                    }
                    assert(pes.subrange(0, n as int) =~= pes);
                    JsonValue::Object(map)
                },
                _ => JsonValue::Object(map),
            }
        },
        other => {
            assert(start + Seq::<Seq<char>>::empty() =~= start);
            other
        },
    };
    let ghost after_obj = crate::path::strings_view(errors@);
    match (object.get("items"), v2) {
        (Some(items), JsonValue::Array(vals)) => {
            let ghost vv = crate::json::jviews(vals@);
            proof {
                crate::json::lemma_jviews(vals@);
            }
            let mut out: Vec<JsonValue> = Vec::new();
            let mut i: usize = 0;
            assert(vv.take(0) =~= Seq::<JView>::empty());
            assert(after_obj + Seq::<Seq<char>>::empty() =~= after_obj);
            while i < vals.len()
                invariant
                    i <= vals@.len(),
                    vv == crate::json::jviews(vals@),
                    vv.len() == vals@.len(),
                    forall|k: int| 0 <= k < vals@.len() ==> #[trigger] vv[k] == jview(vals@[k]),
                    es == object.entries_view(),
                    jview(*schema) == JView::Obj(es),
                    seq_get(es, "items"@) == Some(jview(*items)),
                    crate::json::jviews(out@) == check_items(jview(*items), vv.take(i as int), path@).0,
                    crate::path::strings_view(errors@) == after_obj + check_items(jview(*items), vv.take(i as int), path@).1,
                decreases vals@.len() - i,
            {
                proof {
                    lemma_get_decreases(es, "items"@);
                }
                assert(vv.take(i + 1).drop_last() =~= vv.take(i as int));
                assert(vv.take(i + 1).last() == jview(vals@[i as int]));
                let mut digits: Vec<char> = Vec::new();
                crate::error::push_unsigned(&mut digits, i as u64);
                assert(digits@ =~= crate::error::decimal_digits(i as nat));
                let cp = child_path_chars(path, &digits);
                let ghost before_out = crate::json::jviews(out@);
                let ghost old_out = out@;
                let v = check_value(items, vals[i].copy(), &cp, errors);
                let ghost vj = jview(v);
                out.push(v);
                proof {
                    assert(out@.subrange(0, out@.len() - 1) =~= old_out);
                    assert(out@[out@.len() - 1] == v);
                    assert(crate::json::jviews(out@) =~= before_out.push(vj));
                }
                assert(crate::path::strings_view(errors@) =~= after_obj + check_items(jview(*items), vv.take(i + 1), path@).1);
                i += 1;
            }
            assert(vv.take(vals@.len() as int) =~= vv);
            JsonValue::Array(out)
        },
        (_, other) => other,
    }
}

/// A failed argument check: the tool, the error lines and how the
/// arguments read.
#[derive(Debug)]
pub struct SchemaError {
    pub tool: String,
    pub details: String,
    pub received: String,
}

impl SchemaError {
    /// The error's text.
    pub fn message(&self) -> (r: String)
        ensures
            r@ == "Validation failed for tool \""@ + self.tool@ + "\":\n"@ + self.details@ + "\n\nReceived arguments:\n"@ + self.received@,
    {
        let mut m = chars_of("Validation failed for tool \"");
        extend_chars(&mut m, &chars_of(self.tool.as_str()));
        extend_chars(&mut m, &chars_of("\":\n"));
        extend_chars(&mut m, &chars_of(self.details.as_str()));
        extend_chars(&mut m, &chars_of("\n\nReceived arguments:\n"));
        extend_chars(&mut m, &chars_of(self.received.as_str()));
        string_of(m.as_slice())
    }
}

/// The error lines, each as `  - ` and the error, one per line.
pub open spec fn detail_lines(errors: Seq<Seq<char>>) -> Seq<char>
    decreases errors.len(),
{
    if errors.len() == 0 {
        Seq::empty()
    } else if errors.len() == 1 {
        "  - "@ + errors[0]
    } else {
        detail_lines(errors.drop_last()) + "\n"@ + "  - "@ + errors.last()
    }
}

/// Checks a tool's arguments against its schema: the coerced arguments
/// when nothing failed, else an error with the error lines (see `check`)
/// and `received`, the arguments as the host rendered them.
pub fn validate_tool_arguments(tool: &str, schema: &JsonValue, arguments: &JsonValue, received: &str) -> (r: Result<JsonValue, SchemaError>)
    ensures
        ({
            let (v, errs) = check(jview(*schema), jview(*arguments), "root"@);
            match r {
                Ok(value) => errs.len() == 0 && jview(value) == v,
                Err(e) => errs.len() > 0 && e.tool@ == tool@ && e.details@ == detail_lines(errs) && e.received@ == received@,
            }
        }),
{
    let mut errors: Vec<String> = Vec::new();
    let value = check_value(schema, arguments.copy(), &chars_of("root"), &mut errors);
    assert(crate::path::strings_view(errors@) =~= check(jview(*schema), jview(*arguments), "root"@).1);
    if errors.len() == 0 {
        return Ok(value);
    }
    let ghost es = crate::path::strings_view(errors@);
    let mut details: Vec<char> = Vec::new();
    let mut i: usize = 0;
    assert(es.take(0) =~= Seq::<Seq<char>>::empty());
    while i < errors.len()
        invariant
            i <= errors@.len(),
            es == crate::path::strings_view(errors@),
            details@ == detail_lines(es.take(i as int)),
        decreases errors@.len() - i,
    {
        assert(es.take(i + 1).drop_last() =~= es.take(i as int));
        assert(es.take(i + 1).last() == errors@[i as int]@);
        if i > 0 {
            details.push('\n');
            proof {
                reveal_strlit("\n");
            }
        } else {
            assert(es.take(1)[0] == errors@[0]@);
        }
        let ghost before = details@;
        extend_chars(&mut details, &chars_of("  - "));
        extend_chars(&mut details, &chars_of(errors[i].as_str()));
        assert(i > 0 ==> details@ =~= detail_lines(es.take(i as int)) + "\n"@ + "  - "@ + errors@[i as int]@) by {
            reveal_strlit("\n");
        }
        i += 1;
    }
    assert(es.take(es.len() as int) =~= es);
    Err(SchemaError {
        tool: string_of(chars_of(tool).as_slice()),
        details: string_of(details.as_slice()),
        received: string_of(chars_of(received).as_slice()),
    })
}
} // verus!
