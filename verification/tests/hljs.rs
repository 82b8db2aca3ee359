use pi_rs_host::hljs::{escape_html, Emitter};
use pi_rs_host::model_registry::{request_auth, ResolvedRequestAuth};

#[test]
fn escape_html_replaces_the_five_characters() {
    assert_eq!(escape_html("a < b && c > \"d\" 'e'"), "a &lt; b &amp;&amp; c &gt; &quot;d&quot; &#x27;e&#x27;");
    assert_eq!(escape_html(""), "");
    assert_eq!(escape_html("plain ünïcode"), "plain ünïcode");
}

#[test]
fn emitter_nests_spans_and_closes_them() {
    let mut e = Emitter::new();
    e.open_node("keyword");
    e.add_text("if <x>");
    e.open_node("string");
    e.add_text("'s'");
    e.close_all_nodes();
    assert_eq!(
        e.value(),
        "<span class=\"hljs-keyword\">if &lt;x&gt;<span class=\"hljs-string\">&#x27;s&#x27;</span></span>"
    );
    e.close_node();
    e.close_all_nodes();
    assert!(e.value().ends_with("</span></span>"));
    assert!(!e.value().ends_with("</span></span></span>"));
}

#[test]
fn keywords_and_sublanguages() {
    let mut e = Emitter::new();
    e.add_keyword("", "built_in");
    assert_eq!(e.value(), "");
    e.add_keyword("fn", "keyword");
    e.add_sublanguage("<b>x</b>", Some("rust"));
    e.add_sublanguage("raw", None);
    assert_eq!(
        e.value(),
        "<span class=\"hljs-keyword\">fn</span><span class=\"rust\"><b>x</b></span>raw"
    );
}

#[test]
fn request_auth_drops_empty_headers() {
    match request_auth(Some("k".to_string()), Some(vec![])) {
        ResolvedRequestAuth::Resolved { api_key, headers } => {
            assert_eq!(api_key.as_deref(), Some("k"));
            assert!(headers.is_none());
        }
        ResolvedRequestAuth::Failed { .. } => panic!("no failure expected"),
    }
    match request_auth(None, Some(vec![("x-a".to_string(), "1".to_string())])) {
        ResolvedRequestAuth::Resolved { api_key, headers } => {
            assert!(api_key.is_none());
            assert_eq!(headers, Some(vec![("x-a".to_string(), "1".to_string())]));
        }
        ResolvedRequestAuth::Failed { .. } => panic!("no failure expected"),
    }
}
