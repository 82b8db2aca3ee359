use pi_rs_host::frontmatter::{frontmatter_object, split_frontmatter};
use pi_rs_host::json::{JsonObject, JsonValue};

fn split(text: &str) -> (Option<String>, String) {
    let parts = split_frontmatter(text);
    (parts.yaml, parts.body)
}

fn yaml(y: &str, body: &str) -> (Option<String>, String) {
    (Some(y.to_string()), body.to_string())
}

fn plain(body: &str) -> (Option<String>, String) {
    (None, body.to_string())
}

#[test]
fn no_frontmatter_keeps_full_body() {
    assert_eq!(split("hello world"), plain("hello world"));
    assert_eq!(split(""), plain(""));
}

#[test]
fn basic_split() {
    assert_eq!(
        split("---\nname: my-skill\ndescription: Does something useful\n---\n\nBody text here.\n"),
        yaml("name: my-skill\ndescription: Does something useful\n", "Body text here.")
    );
}

#[test]
fn empty_and_unclosed() {
    assert_eq!(split("---\n---\n\nBody.\n"), plain("Body."));
    let text = "---\nname: skill\nNo closing delimiter here.";
    assert_eq!(split(text), plain(text));
    let indented = "  ---\nname: indented\n---\nBody (delimiter indented)";
    assert_eq!(split(indented), plain(indented));
}

#[test]
fn newlines_are_normalized() {
    assert_eq!(split("---\r\nname: win\r\n---\r\nBody after CRLF.\r\n"), yaml("name: win\n", "Body after CRLF."));
    assert_eq!(split("---\rname: cr\r---\rBody after CR.\r"), yaml("name: cr\n", "Body after CR."));
    assert_eq!(split("a\r\r\nb"), plain("a\n\nb"));
}

#[test]
fn delimiter_edges() {
    assert_eq!(
        split("---\nname: nl\n---End of body, dash not followed by newline"),
        yaml("name: nl\n", "End of body, dash not followed by newline")
    );
    assert_eq!(split("---\nname: x\n---\n"), yaml("name: x\n", ""));
    assert_eq!(split("---\nname: snippet\n---"), yaml("name: snippet\n", ""));
    assert_eq!(split("---\na: ----\n---\nBody"), yaml("a: ----\n", "Body"));
    assert_eq!(
        split("---\ndescription: |\n  Multi-line\n  text.\n---\nBody"),
        yaml("description: |\n  Multi-line\n  text.\n", "Body")
    );
}

#[test]
fn parsed_values_become_objects() {
    assert_eq!(frontmatter_object(JsonValue::Null).entry_count(), 0);
    assert_eq!(frontmatter_object(JsonValue::Bool(true)).entry_count(), 0);
    let mut o = JsonObject::new();
    o.insert("name", JsonValue::String("x".to_string()));
    let kept = frontmatter_object(JsonValue::Object(o));
    assert!(kept.contains_key("name"));
}

fn parse(text: &str) -> pi_rs_host::frontmatter::FrontmatterDocument {
    pi_rs_host::frontmatter::parse_frontmatter(text).expect("frontmatter parses")
}

fn get_str(doc: &pi_rs_host::frontmatter::FrontmatterDocument, key: &str) -> Option<String> {
    match doc.frontmatter.get(key) {
        Some(JsonValue::String(s)) => Some(s.clone()),
        _ => None,
    }
}

#[test]
fn no_frontmatter_returns_empty_object_full_body() {
    let doc = parse("hello world");
    assert_eq!(doc.frontmatter.entry_count(), 0);
    assert_eq!(doc.body, "hello world");
}

#[test]
fn basic_frontmatter() {
    let doc = parse("---\nname: my-skill\ndescription: Does something useful\n---\n\nBody text here.\n");
    assert_eq!(get_str(&doc, "name"), Some("my-skill".to_string()));
    assert_eq!(get_str(&doc, "description"), Some("Does something useful".to_string()));
    assert_eq!(doc.body, "Body text here.");
}

#[test]
fn empty_frontmatter_returns_empty_object() {
    let doc = parse("---\n---\n\nBody.\n");
    assert_eq!(doc.frontmatter.entry_count(), 0);
    assert_eq!(doc.body, "Body.");
}

#[test]
fn crlf_and_cr_are_normalized_like_pi() {
    let doc = parse("---\r\nname: win\r\n---\r\nBody after CRLF.\r\n");
    assert_eq!(get_str(&doc, "name"), Some("win".to_string()));
    assert_eq!(doc.body, "Body after CRLF.");
    let cr = parse("---\rname: cr\r---\rBody after CR.\r");
    assert_eq!(get_str(&cr, "name"), Some("cr".to_string()));
    assert_eq!(cr.body, "Body after CR.");
}

#[test]
fn invalid_yaml_raises() {
    let err = pi_rs_host::frontmatter::parse_frontmatter("---\nname: [unclosed\n---\nBody");
    assert!(matches!(err, Err(ref m) if !m.is_empty()));
}

#[test]
fn dash_inside_yaml_is_data() {
    let doc = parse("---\na: ----\n---\nBody");
    assert_eq!(get_str(&doc, "a"), Some("----".to_string()));
    assert_eq!(doc.body, "Body");
}

#[test]
fn multiline_yaml() {
    let doc = parse("---\ndescription: |\n  Multi-line\n  text.\n---\nBody");
    assert_eq!(get_str(&doc, "description"), Some("Multi-line\ntext.\n".to_string()));
}

#[test]
fn scalar_values() {
    let doc = parse("---\ncount: 42\nenabled: true\n---\nBody");
    assert!(matches!(doc.frontmatter.get("count"), Some(JsonValue::Number(pi_rs_host::json::JsonNumber::PosInt(42)))));
    assert!(matches!(doc.frontmatter.get("enabled"), Some(JsonValue::Bool(true))));
}

#[test]
fn list_values() {
    let doc = parse("---\ntags:\n  - a\n  - b\n---\nBody");
    match doc.frontmatter.get("tags") {
        Some(JsonValue::Array(items)) => {
            assert_eq!(items.len(), 2);
            assert!(matches!(&items[0], JsonValue::String(s) if s == "a"));
            assert!(matches!(&items[1], JsonValue::String(s) if s == "b"));
        }
        _ => panic!("expected a list"),
    }
}

#[test]
fn scalar_document_gives_empty_object() {
    let doc = parse("---\njust text\n---\nBody");
    assert_eq!(doc.frontmatter.entry_count(), 0);
    assert_eq!(doc.body, "Body");
}

#[test]
fn no_closing_delimiter_returns_full_body() {
    let text = "---\nname: skill\nNo closing delimiter here.";
    let doc = parse(text);
    assert_eq!(doc.frontmatter.entry_count(), 0);
    assert_eq!(doc.body, text);
}

#[test]
fn closing_not_followed_by_newline_still_counts() {
    let doc = parse("---\nname: nl\n---End of body, dash not followed by newline");
    assert_eq!(get_str(&doc, "name"), Some("nl".to_string()));
    assert_eq!(doc.body, "End of body, dash not followed by newline");
}

#[test]
fn empty_body_no_frontmatter_line() {
    let doc = parse("---\nname: x\n---\n");
    assert_eq!(get_str(&doc, "name"), Some("x".to_string()));
    assert_eq!(doc.body, "");
}

#[test]
fn indented_delimiters_are_not_frontmatter() {
    let doc = parse("  ---\nname: indented\n---\nBody (delimiter indented)");
    assert_eq!(doc.frontmatter.entry_count(), 0);
    assert_eq!(doc.body, "  ---\nname: indented\n---\nBody (delimiter indented)");
}

#[test]
fn empty_string() {
    let doc = parse("");
    assert_eq!(doc.frontmatter.entry_count(), 0);
    assert_eq!(doc.body, "");
}

#[test]
fn frontmatter_only_no_body() {
    let doc = parse("---\nname: snippet\n---");
    assert_eq!(get_str(&doc, "name"), Some("snippet".to_string()));
    assert_eq!(doc.body, "");
}
