use pi_rs_host::json::{JsonObject, JsonValue};
use pi_rs_host::package_settings::{
    add_source_to_packages, add_source_to_settings, configured_package_sources, dedupe_packages,
    get_package_identity, local_source_paths, managed_path, package_source_string, package_sources_match,
    path_diff, relative_settings_source, remove_source_from_packages, remove_source_from_settings,
    source_match_key,
};
use pi_rs_host::packages::Scope;
use pi_rs_host::settings_manager::{SettingsManager, SettingsManagerCreateOptions};

const CWD: &str = "/work/proj";
const AGENT: &str = "/home/u/.pi/agent";
const HOME: &str = "/home/u";

fn s(text: &str) -> JsonValue {
    JsonValue::String(text.to_string())
}

fn with_packages(values: Vec<JsonValue>) -> JsonObject {
    let mut o = JsonObject::new();
    o.insert("packages", JsonValue::Array(values));
    o
}

fn source_object(source: &str, extra: bool) -> JsonValue {
    let mut o = JsonObject::new();
    o.insert("source", s(source));
    if extra {
        o.insert("extensions", JsonValue::Array(vec![s("a.lua")]));
    }
    JsonValue::Object(o)
}

fn sources(values: &[JsonValue]) -> Vec<String> {
    values.iter().map(package_source_string).collect()
}

#[test]
fn identities_ignore_versions_and_refs() {
    assert_eq!(get_package_identity("npm:left-pad@1.3.0", None, CWD, AGENT, HOME), "npm:left-pad");
    assert_eq!(get_package_identity("npm:@scope/pkg@2", Some(Scope::Project), CWD, AGENT, HOME), "npm:@scope/pkg");
    assert_eq!(
        get_package_identity("git:github.com/a/b@v1", None, CWD, AGENT, HOME),
        get_package_identity("https://github.com/a/b.git", None, CWD, AGENT, HOME)
    );
    assert_eq!(get_package_identity("git:github.com/a/b@v1", None, CWD, AGENT, HOME), "git:github.com/a/b");
}

#[test]
fn local_identities_resolve_against_the_scope() {
    assert_eq!(get_package_identity("./ext", Some(Scope::Project), CWD, AGENT, HOME), "local:/work/proj/.pi/ext");
    assert_eq!(get_package_identity("./ext", None, CWD, AGENT, HOME), "local:/home/u/.pi/agent/ext");
    assert_eq!(get_package_identity("./ext", Some(Scope::Temporary), CWD, AGENT, HOME), "local:/work/proj/ext");
    assert_eq!(source_match_key("./ext", None, CWD, AGENT, HOME), "local:/work/proj/ext");
    assert_eq!(source_match_key("~/x", None, CWD, AGENT, HOME), "local:/home/u/x");
}

#[test]
fn entry_sources_and_matching() {
    assert_eq!(package_source_string(&s("npm:a")), "npm:a");
    assert_eq!(package_source_string(&source_object("npm:b", true)), "npm:b");
    assert_eq!(package_source_string(&JsonValue::Bool(true)), "");
    assert!(package_sources_match(&s("npm:a@1"), "npm:a@2", Scope::User, CWD, AGENT, HOME));
    assert!(!package_sources_match(&s("npm:a"), "npm:ab", Scope::User, CWD, AGENT, HOME));
    // A stored relative path is read against the scope's folder, the input against the working folder.
    assert!(package_sources_match(&s("../ext"), "./ext", Scope::Project, CWD, AGENT, HOME));
}

#[test]
fn adding_appends_replaces_or_leaves_alone() {
    let settings = with_packages(vec![s("npm:a@1"), source_object("npm:b@1", true)]);
    let added = add_source_to_packages(&settings, "npm:c", "npm:c", Scope::User, CWD, AGENT, HOME).unwrap();
    assert_eq!(sources(&added), vec!["npm:a@1", "npm:b@1", "npm:c"]);

    let replaced = add_source_to_packages(&settings, "npm:b@2", "npm:b@2", Scope::User, CWD, AGENT, HOME).unwrap();
    assert_eq!(sources(&replaced), vec!["npm:a@1", "npm:b@2"]);
    match &replaced[1] {
        JsonValue::Object(o) => assert!(o.get("extensions").is_some()),
        _ => panic!("the object entry keeps its fields"),
    }

    assert!(add_source_to_packages(&settings, "npm:a@1", "npm:a@1", Scope::User, CWD, AGENT, HOME).is_none());

    let empty = JsonObject::new();
    let first = add_source_to_packages(&empty, "npm:a", "npm:a", Scope::User, CWD, AGENT, HOME).unwrap();
    assert_eq!(sources(&first), vec!["npm:a"]);
}

#[test]
fn removing_drops_every_match() {
    let settings = with_packages(vec![s("npm:a@1"), s("npm:b"), source_object("npm:a@2", false)]);
    let kept = remove_source_from_packages(&settings, "npm:a", Scope::User, CWD, AGENT, HOME).unwrap();
    assert_eq!(sources(&kept), vec!["npm:b"]);
    assert!(remove_source_from_packages(&settings, "npm:zzz", Scope::User, CWD, AGENT, HOME).is_none());
    assert!(remove_source_from_packages(&JsonObject::new(), "npm:a", Scope::User, CWD, AGENT, HOME).is_none());
}

#[test]
fn settings_changes_respect_project_trust() {
    let mut manager = SettingsManager::in_memory(JsonObject::new());
    assert!(add_source_to_settings(&mut manager, "npm:a", "npm:a", Scope::User, CWD, AGENT, HOME));
    assert!(!add_source_to_settings(&mut manager, "npm:a", "npm:a", Scope::User, CWD, AGENT, HOME));
    assert!(add_source_to_settings(&mut manager, "npm:b", "npm:b", Scope::Project, CWD, AGENT, HOME));
    let listed = configured_package_sources(&manager);
    assert_eq!(listed, vec![("npm:b".to_string(), Scope::Project), ("npm:a".to_string(), Scope::User)]);
    assert!(remove_source_from_settings(&mut manager, "npm:a", Scope::User, CWD, AGENT, HOME));
    assert!(!remove_source_from_settings(&mut manager, "npm:a", Scope::User, CWD, AGENT, HOME));

    let mut untrusted = SettingsManager::from_loaded(
        Ok(JsonObject::new()),
        Ok(JsonObject::new()),
        SettingsManagerCreateOptions { project_trusted: Some(false) },
    );
    assert!(!add_source_to_settings(&mut untrusted, "npm:b", "npm:b", Scope::Project, CWD, AGENT, HOME));
    assert!(configured_package_sources(&untrusted).is_empty());
}

#[test]
fn configured_sources_skip_empty_entries() {
    let mut manager = SettingsManager::in_memory(with_packages(vec![s("npm:a"), JsonValue::Null, source_object("", false)]));
    assert_eq!(configured_package_sources(&manager), vec![("npm:a".to_string(), Scope::User)]);
    manager.set_packages(vec![]);
    assert!(configured_package_sources(&manager).is_empty());
}

#[test]
fn dedupe_prefers_project_then_first() {
    let input = vec![
        ("npm:a@1".to_string(), Scope::User),
        ("npm:b".to_string(), Scope::User),
        ("npm:a@2".to_string(), Scope::Project),
        ("npm:a@3".to_string(), Scope::Project),
        ("npm:b@9".to_string(), Scope::User),
    ];
    let out = dedupe_packages(&input, CWD, AGENT, HOME);
    assert_eq!(out, vec![("npm:a@2".to_string(), Scope::Project), ("npm:b".to_string(), Scope::User)]);
    assert!(dedupe_packages(&vec![], CWD, AGENT, HOME).is_empty());
}

#[test]
fn local_sources_are_written_relative_to_the_scope() {
    let (base, target) = local_source_paths("./ext", Scope::Project, CWD, AGENT, HOME).unwrap();
    assert_eq!(base, "/work/proj/.pi");
    assert_eq!(target, "/work/proj/ext");
    assert_eq!(relative_settings_source(&base, &target), "../ext");
    assert_eq!(relative_settings_source("/a/b", "/a/b"), ".");
    assert!(local_source_paths("npm:a", Scope::User, CWD, AGENT, HOME).is_none());
}

#[test]
fn path_diff_walks_components() {
    assert_eq!(path_diff("/a/b/c", "/a/d"), "../../d");
    assert_eq!(path_diff("/a/./b/", "/a/b"), "");
    assert_eq!(path_diff("/a", "/a/b/c"), "b/c");
    assert_eq!(path_diff("./x", "./x/y"), "y");
}

#[test]
fn managed_paths_stay_inside_the_root() {
    assert_eq!(managed_path("/r/git", "github.com").unwrap(), "/r/git/github.com");
    assert_eq!(
        managed_path("/r/git", "/etc").unwrap_err(),
        "Refusing to use path outside package install root: /etc"
    );
}
