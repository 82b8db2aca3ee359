use pi_rs_host::error::HostError;
use pi_rs_host::kernel::{DeclarationKind, RootKind};
use pi_rs_host::order::{sort_indices, text_less, SortKey};
use pi_rs_host::registry::{Phase, Registrations};

fn chars(s: &str) -> Vec<char> {
    s.chars().collect()
}

fn conflict(e: Result<(), String>) -> String {
    e.unwrap_err()
}

#[test]
fn text_order_is_the_order_of_str() {
    for (a, b) in [("a", "b"), ("a", "ab"), ("", "a"), ("b", "a"), ("abc", "abc"), ("Z", "a"), ("é", "z")] {
        assert_eq!(text_less(&chars(a), &chars(b)), a < b, "{a:?} < {b:?}");
    }
}

#[test]
fn sorting_is_stable_by_key() {
    let key = |rank: i64, tie: u64, first: &str| SortKey { rank, tie, first: chars(first), second: vec![] };
    let keys = vec![key(2, 0, "a"), key(1, 5, "z"), key(1, 5, "b"), key(1, 0, "z"), key(2, 0, "a")];
    assert_eq!(sort_indices(&keys), vec![3, 2, 1, 0, 4]);
    assert!(sort_indices(&vec![]).is_empty());
}

#[test]
fn roots_register_and_conflict() {
    let mut r = Registrations::new();
    assert!(r.register_root(RootKind::Agent, "main", true, 0, "pkg-b", 1).is_ok());
    assert_eq!(
        conflict(r.register_root(RootKind::Agent, "main", true, 0, "pkg-a", 2)),
        "pi-rs-host conflict:root conflict for agent/main: pkg-a <> pkg-b"
    );
    assert_eq!(conflict(r.register_root(RootKind::Agent, "  ", true, 0, "p", 1)), "root id must be a non-empty string");
    assert_eq!(
        conflict(r.register_root(RootKind::Agent, "x", true, 0, "p", 0)),
        "kernel declarations require a package scope"
    );
    assert!(r.register_root(RootKind::Session, "main", true, 0, "pkg-a", 2).is_ok());
}

#[test]
fn resolution_takes_the_single_highest_priority_active_root() {
    let mut r = Registrations::new();
    match r.resolve_root(RootKind::Agent) {
        Err(HostError::UnknownRoot(k)) => assert_eq!(k, "agent"),
        _ => panic!("no root yet"),
    }
    r.register_root(RootKind::Agent, "low", true, 1, "a", 1).unwrap();
    r.register_root(RootKind::Agent, "off", false, 9, "b", 2).unwrap();
    r.register_root(RootKind::Agent, "high", true, 5, "c", 3).unwrap();
    let winner = r.resolve_root(RootKind::Agent).ok().unwrap();
    assert_eq!(winner.id, "high");
    assert_eq!(winner.source, "c");
    assert_eq!(winner.scope, 3);
    r.register_root(RootKind::Agent, "rival", true, 5, "b2", 4).unwrap();
    r.register_root(RootKind::Agent, "alpha", true, 5, "b2", 4).unwrap();
    match r.resolve_root(RootKind::Agent) {
        Err(HostError::Conflict(m)) => assert_eq!(m, "root agent priority 5: b2:alpha, b2:rival, c:high"),
        _ => panic!("a conflict was expected"),
    }
}

#[test]
fn negative_priorities_are_named_in_conflicts() {
    let mut r = Registrations::new();
    r.register_root(RootKind::Frontend, "x", true, -3, "s1", 1).unwrap();
    r.register_root(RootKind::Frontend, "y", true, -3, "s0", 2).unwrap();
    match r.resolve_root(RootKind::Frontend) {
        Err(HostError::Conflict(m)) => assert_eq!(m, "root frontend priority -3: s0:y, s1:x"),
        _ => panic!("a conflict was expected"),
    }
}

#[test]
fn declarations_are_listed_by_order_source_and_id() {
    let mut r = Registrations::new();
    r.register_declaration(DeclarationKind::Tool, Some("zeta"), 0, "b", 1).unwrap();
    r.register_declaration(DeclarationKind::Tool, Some("alpha"), 0, "b", 1).unwrap();
    r.register_declaration(DeclarationKind::Tool, Some("first"), -1, "z", 2).unwrap();
    r.register_declaration(DeclarationKind::Command, Some("other"), -5, "a", 3).unwrap();
    r.register_declaration(DeclarationKind::Tool, Some("mid"), 0, "a", 3).unwrap();
    let ids: Vec<String> = r.registered_declarations(DeclarationKind::Tool).into_iter().map(|d| d.id).collect();
    assert_eq!(ids, vec!["first", "mid", "alpha", "zeta"]);
    assert_eq!(
        conflict(r.register_declaration(DeclarationKind::Tool, None, 0, "a", 3)),
        "declaration id/name must be a non-empty string"
    );
    assert_eq!(
        conflict(r.register_declaration(DeclarationKind::Tool, Some("mid"), 0, "x", 9)),
        "pi-rs-host conflict:declaration conflict for tool/mid: a <> x"
    );
}

#[test]
fn removing_a_source_drops_its_names() {
    let mut r = Registrations::new();
    r.register_root(RootKind::Agent, "main", true, 0, "a", 1).unwrap();
    r.register_root(RootKind::Session, "main", true, 0, "b", 2).unwrap();
    r.register_declaration(DeclarationKind::Theme, Some("dark"), 0, "a", 1).unwrap();
    r.remove_source("a");
    assert!(matches!(r.resolve_root(RootKind::Agent), Err(HostError::UnknownRoot(_))));
    assert!(r.resolve_root(RootKind::Session).is_ok());
    assert!(r.registered_declarations(DeclarationKind::Theme).is_empty());
    assert!(r.register_root(RootKind::Agent, "main", true, 0, "c", 3).is_ok());
}

#[test]
fn stages_run_by_order_then_registration() {
    let mut r = Registrations::new();
    assert_eq!(r.register_stage(RootKind::Agent, Phase::Event, Some("late"), 5, "a", 1), Ok(0));
    assert_eq!(r.register_stage(RootKind::Agent, Phase::Event, Some("early"), -1, "b", 2), Ok(1));
    assert_eq!(r.register_stage(RootKind::Agent, Phase::Event, Some("tie"), 5, "b", 2), Ok(2));
    assert_eq!(r.register_stage(RootKind::Agent, Phase::Render, Some("r"), 0, "b", 2), Ok(3));
    let ids: Vec<String> = r.resolve_stages(RootKind::Agent, Phase::Event).into_iter().map(|s| s.id).collect();
    assert_eq!(ids, vec!["early", "late", "tie"]);
    // The owner may register a name again: it replaces the stage and moves it last among equals.
    assert_eq!(r.register_stage(RootKind::Agent, Phase::Event, Some("late"), 5, "a", 1), Ok(4));
    let ids: Vec<String> = r.resolve_stages(RootKind::Agent, Phase::Event).into_iter().map(|s| s.id).collect();
    assert_eq!(ids, vec!["early", "tie", "late"]);
    assert_eq!(
        r.register_stage(RootKind::Agent, Phase::Event, Some("late"), 5, "z", 7),
        Err("pi-rs-host conflict:middleware conflict for agent/event/late: a <> z".to_string())
    );
    assert_eq!(
        r.register_stage(RootKind::Agent, Phase::Event, Some(" "), 0, "a", 1),
        Err("middleware id must be a non-empty string".to_string())
    );
    r.remove_scope(2);
    let ids: Vec<String> = r.resolve_stages(RootKind::Agent, Phase::Event).into_iter().map(|s| s.id).collect();
    assert_eq!(ids, vec!["late"]);
    assert!(r.resolve_stages(RootKind::Agent, Phase::Render).is_empty());
}

#[test]
fn stage_registrations_are_bounded() {
    let mut r = Registrations::new();
    for i in 0..64 {
        assert!(r.register_stage(RootKind::Session, Phase::Render, Some(&format!("s{i}")), 0, "p", 1).is_ok());
    }
    assert_eq!(
        r.register_stage(RootKind::Session, Phase::Render, Some("one-more"), 0, "p", 1),
        Err("middleware registrations exceed 64 stages".to_string())
    );
    assert_eq!(Phase::Event.name(), "event");
    assert_eq!(Phase::Render.name(), "render");
}
