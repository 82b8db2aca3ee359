use pi_rs_host::error::HostError;
use pi_rs_host::kernel::{Control, DeclarationKind, RootKind, ScopeId};

#[test]
fn root_and_declaration_kinds_have_their_names() {
    assert_eq!(RootKind::Application.as_str(), "application");
    assert_eq!(RootKind::Agent.as_str(), "agent");
    assert_eq!(RootKind::Frontend.as_str(), "frontend");
    assert_eq!(RootKind::Session.as_str(), "session");
    assert_eq!(DeclarationKind::UiSlot.as_str(), "ui_slot");
    assert_eq!(DeclarationKind::Keymap.as_str(), "keymap");
    assert_eq!(DeclarationKind::Tool.as_str(), "tool");
}

#[test]
fn create_scope_conflicts_while_source_is_live() {
    let mut c = Control::new();
    let a = c.create_scope("pkg-a".to_owned()).ok().unwrap();
    assert_eq!(a.get(), 1);
    match c.create_scope("pkg-a".to_owned()) {
        Err(HostError::Conflict(msg)) => assert_eq!(msg, "package source \"pkg-a\" is already loaded"),
        _ => panic!("expected a conflict"),
    }
    // The refused attempt used up id 2.
    let b = c.create_scope("pkg-b".to_owned()).ok().unwrap();
    assert_eq!(b.get(), 3);
    assert!(c.dispose(a).is_ok());
    let again = c.create_scope("pkg-a".to_owned()).ok().unwrap();
    assert_eq!(again.get(), 4);
}

#[test]
fn dispose_cancels_clears_and_bumps_generation() {
    let mut c = Control::new();
    let s = c.create_scope("pkg".to_owned()).ok().unwrap();
    let r1 = c.register_resource(s).ok().unwrap();
    let _r2 = c.register_resource(s).ok().unwrap();
    c.release_resource(s, r1);
    let stats = c.stats(s).ok().unwrap();
    assert!(!stats.disposed && !stats.cancelled);
    assert_eq!(stats.resources, 1);
    assert_eq!(c.generation().get(), 1);
    assert!(c.dispose(s).is_ok());
    assert_eq!(c.generation().get(), 2);
    let stats = c.stats(s).ok().unwrap();
    assert!(stats.disposed && stats.cancelled);
    assert_eq!(stats.resources, 0);
    assert!(matches!(c.dispose(s), Err(HostError::DisposedScope(1))));
    assert!(matches!(c.register_resource(s), Err(HostError::DisposedScope(1))));
    assert!(matches!(c.token_cancelled(s), Err(HostError::DisposedScope(1))));
    assert!(matches!(c.stats(ScopeId::from_raw(9)), Err(HostError::UnknownScope(9))));
}

#[test]
fn handles_go_stale_after_dispose() {
    let mut c = Control::new();
    let s = c.create_scope("pkg".to_owned()).ok().unwrap();
    let h = c.issue_handle(42u32);
    assert_eq!(c.read_handle(&h).ok(), Some(&42));
    assert!(c.dispose(s).is_ok());
    match c.read_handle(&h) {
        Err(HostError::StaleHandle { handle, current }) => {
            assert_eq!(handle, 1);
            assert_eq!(current, 2);
        }
        _ => panic!("expected a stale handle"),
    }
}

#[test]
fn active_scopes_lists_live_sources_in_order() {
    let mut c = Control::new();
    let a = c.create_scope("a".to_owned()).ok().unwrap();
    let _b = c.create_scope("b".to_owned()).ok().unwrap();
    let _c2 = c.create_scope("c".to_owned()).ok().unwrap();
    assert!(c.dispose(a).is_ok());
    let live: Vec<(u64, String)> = c.active_scopes().into_iter().map(|(id, s)| (id.get(), s)).collect();
    assert_eq!(live, vec![(2, "b".to_owned()), (3, "c".to_owned())]);
    assert_eq!(c.scope_source(a).ok().unwrap(), "a");
    c.cancel_token(ScopeId::from_raw(2));
    assert_eq!(c.token_cancelled(ScopeId::from_raw(2)).ok(), Some(true));
    assert_eq!(c.token_cancelled(ScopeId::from_raw(3)).ok(), Some(false));
}

#[test]
fn lua_messages_are_classified() {
    assert!(matches!(
        HostError::from_lua_message("boom pi-rs-host watchdog: too long".to_owned(), 250),
        HostError::Timeout(250)
    ));
    assert!(matches!(
        HostError::from_lua_message("x pi-rs-host cancelled".to_owned(), 1),
        HostError::Cancelled
    ));
    match HostError::from_lua_message("err: pi-rs-host conflict:  tool 'x' twice \nstack".to_owned(), 1) {
        HostError::Conflict(m) => assert_eq!(m, "tool 'x' twice"),
        _ => panic!("expected a conflict"),
    }
    match HostError::from_lua_message("plain".to_owned(), 1) {
        HostError::Lua(m) => assert_eq!(m, "plain"),
        _ => panic!("expected a lua error"),
    }
    assert_eq!(HostError::Timeout(-5).message(), "handler timed out (watchdog, -5ms of continuous Lua execution)");
    assert_eq!(
        HostError::StaleHandle { handle: 3, current: 10 }.message(),
        "stale read handle generation 3; current generation is 10"
    );
}

#[test]
fn failed_load_disposes_its_scope_and_frees_the_source() {
    let mut c = Control::new();
    let s = c.create_scope("pkg".to_owned()).ok().unwrap();
    match c.finish_load("pkg".to_owned(), s, Err(HostError::Lua("syntax error".to_owned()))) {
        Err(HostError::Lua(m)) => assert_eq!(m, "syntax error"),
        _ => panic!("expected the VM's error"),
    }
    assert_eq!(c.generation().get(), 2);
    let again = c.create_scope("pkg".to_owned()).ok().unwrap();
    let h = c.finish_load("pkg".to_owned(), again, Ok(())).ok().unwrap();
    assert_eq!(h.source(), "pkg");
    assert_eq!(h.scope().get(), again.get());
    assert_eq!(h.generation().get(), 2);
    assert!(c.create_scope("pkg".to_owned()).is_err());
}
