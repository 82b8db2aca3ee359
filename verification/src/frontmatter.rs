//! Markdown frontmatter: a document that starts with `---` and has a
//! later `\n---` holds YAML between them and a body after.
//!
//! The YAML is parsed by `serde_yaml`; this module finds it and the body,
//! and turns the parsed value into the frontmatter object.

use vstd::prelude::*;

use crate::json::{json_from_serde, jview, JView, JsonObject, JsonValue};
use crate::text::{chars_of, copy_range, find_chars, first_occurrence, spec_trim, starts_with, starts_with_str, string_of, trim_chars};

verus! {

/// `s` with `\r\n` and then lone `\r` made `\n`.
pub open spec fn normalize_newlines(s: Seq<char>) -> Seq<char>
    decreases s.len(),
{
    if s.len() == 0 {
        s
    } else if s[0] == '\r' && s.len() >= 2 && s[1] == '\n' {
        seq!['\n'] + normalize_newlines(s.skip(2))
    } else if s[0] == '\r' {
        seq!['\n'] + normalize_newlines(s.skip(1))
    } else {
        seq![s[0]] + normalize_newlines(s.skip(1))
    }
}

fn normalize_chars(v: &Vec<char>) -> (r: Vec<char>)
    ensures
        r@ == normalize_newlines(v@),
{
    let mut out: Vec<char> = Vec::new();
    let mut i: usize = 0;
    assert(v@.skip(0) =~= v@);
    assert(out@ + normalize_newlines(v@.skip(0)) =~= normalize_newlines(v@));
    while i < v.len()
        invariant
            i <= v@.len(),
            out@ + normalize_newlines(v@.skip(i as int)) == normalize_newlines(v@),
        decreases v@.len() - i,
    {
        let ghost rest = v@.skip(i as int);
        if v[i] == '\r' && i + 1 < v.len() && v[i + 1] == '\n' {
            assert(rest.skip(2) =~= v@.skip(i + 2));
            out.push('\n');
            assert(out@ + normalize_newlines(v@.skip(i + 2)) =~= normalize_newlines(v@)) by {
                assert(normalize_newlines(rest) == seq!['\n'] + normalize_newlines(rest.skip(2)));
            }
            i += 2;
        } else {
            assert(rest.skip(1) =~= v@.skip(i + 1));
            let c = if v[i] == '\r' { '\n' } else { v[i] };
            out.push(c);
            assert(out@ + normalize_newlines(v@.skip(i + 1)) =~= normalize_newlines(v@)) by {
                assert(normalize_newlines(rest) == seq![c] + normalize_newlines(rest.skip(1)));
            }
            i += 1;
        }
    }
    assert(v@.skip(v@.len() as int) =~= Seq::<char>::empty());
    assert(out@ + Seq::<char>::empty() =~= out@);
    out
}

/// A document's frontmatter parts: the YAML to parse (with the line
/// break that the closing delimiter consumed), when there is any, and the
/// body.
pub struct FrontmatterParts {
    pub yaml: Option<String>,
    pub body: String,
}

/// The YAML and body of a document (newlines normalized): no YAML and
/// the whole text when it does not start with `---` or has no closing
/// `\n---`; otherwise the text between the opening line and the closing
/// delimiter (none when blank) and the trimmed rest after the delimiter.
pub open spec fn spec_split_frontmatter(text: Seq<char>) -> (Option<Seq<char>>, Seq<char>) {
    let n = normalize_newlines(text);
    if !starts_with(n, "---"@) {
        (None, n)
    } else {
        match first_occurrence(n, "\n---"@, 0) {
            None => (None, n),
            Some(end) => {
                let raw = if end <= 4 { Seq::<char>::empty() } else { n.subrange(4, end) };
                let body = spec_trim(n.skip(end + 4));
                if spec_trim(raw).len() == 0 {
                    (None, body)
                } else {
                    (Some(raw.push('\n')), body)
                }
            },
        }
    }
}

/// Splits a document into its frontmatter YAML and body (see
/// `spec_split_frontmatter`).
pub fn split_frontmatter(text: &str) -> (r: FrontmatterParts)
    ensures
        (match r.yaml { Some(y) => Some(y@), None => None::<Seq<char>> }, r.body@) == spec_split_frontmatter(text@),
{
    proof {
        reveal_strlit("\n---");
        assert("\n---"@.len() == 4);
    }
    let n = normalize_chars(&chars_of(text));
    if !starts_with_str(&n, "---") {
        return FrontmatterParts { yaml: None, body: string_of(n.as_slice()) };
    }
    let end = match find_chars(&n, &chars_of("\n---")) {
        None => return FrontmatterParts { yaml: None, body: string_of(n.as_slice()) },
        Some(e) => e,
    };
    let raw = if end <= 4 { Vec::new() } else { copy_range(&n, 4, end) };
    assert(raw@ =~= (if end <= 4 { Seq::<char>::empty() } else { n@.subrange(4, end as int) }));
    let rest = copy_range(&n, end + 4, n.len());
    assert(rest@ =~= n@.skip(end + 4));
    let body = string_of(trim_chars(&rest).as_slice());
    if trim_chars(&raw).len() == 0 {
        return FrontmatterParts { yaml: None, body };
    }
    let mut yaml = raw;
    yaml.push('\n');
    FrontmatterParts { yaml: Some(string_of(yaml.as_slice())), body }
}

/// The frontmatter object of a parsed YAML value: the value itself when
/// it is an object, else an empty object (a null document, a scalar, a
/// list).
pub fn frontmatter_object(parsed: JsonValue) -> (r: JsonObject)
    ensures
        r.entries_view() == match crate::json::jview(parsed) {
            JView::Obj(es) => es,
            _ => Seq::<(Seq<char>, JView)>::empty(),
        },
{
    match parsed {
        JsonValue::Object(o) => o,
        _ => JsonObject::new(),
    }
}


/// The value `serde_yaml` parses a YAML text to, as a plain JSON value;
/// none when it refuses the text.
pub uninterp spec fn parsed_yaml(text: Seq<char>) -> Option<JView>;

/// `serde_yaml::from_str` into a JSON value: the parsed document, or the
/// parser's message. What it parses a text to is named, not stated.
#[verifier::external_body]
fn parse_yaml(text: &str) -> (r: Result<JsonValue, String>)
    ensures
        r is Err <==> parsed_yaml(text@) is None,
        r matches Ok(v) ==> parsed_yaml(text@) == Some(jview(v)),
{
    match serde_yaml::from_str::<serde_json::Value>(text) {
        Ok(v) => Ok(json_from_serde(&v)),
        Err(e) => Err(e.to_string()),
    }
}

/// A document split into its frontmatter object and its body.
pub struct FrontmatterDocument {
    pub frontmatter: JsonObject,
    pub body: String,
}

/// The frontmatter entries and body of a document: no entries when there
/// is no YAML or it parses to something other than an object; none when
/// the YAML does not parse.
pub open spec fn spec_frontmatter(text: Seq<char>) -> Option<(Seq<(Seq<char>, JView)>, Seq<char>)> {
    let (yaml, body) = spec_split_frontmatter(text);
    match yaml {
        None => Some((Seq::empty(), body)),
        Some(y) => match parsed_yaml(y) {
            None => None,
            Some(JView::Obj(es)) => Some((es, body)),
            Some(_) => Some((Seq::empty(), body)),
        },
    }
}

/// Parses a document's YAML frontmatter and body; an error (the YAML
/// parser's message) only when the YAML does not parse.
pub fn parse_frontmatter(text: &str) -> (r: Result<FrontmatterDocument, String>)
    ensures
        r is Err <==> spec_frontmatter(text@) is None,
        r matches Ok(d) ==> spec_frontmatter(text@) == Some((d.frontmatter.entries_view(), d.body@)),
{
    let parts = split_frontmatter(text);
    match parts.yaml {
        None => Ok(FrontmatterDocument { frontmatter: JsonObject::new(), body: parts.body }),
        Some(y) => match parse_yaml(y.as_str()) {
            Ok(v) => Ok(FrontmatterDocument { frontmatter: frontmatter_object(v), body: parts.body }),
            Err(e) => Err(e),
        },
    }
}

} // verus!
