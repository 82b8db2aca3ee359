use pi_rs_host::dispatch::{
    apply_render_reply, json_actions, replacement_actions, settle_actions, stage_reply, stage_snapshot,
    Action, EventPipeline, QueueList, Transaction,
};
use pi_rs_host::error::HostError;
use pi_rs_host::json::{JsonNumber, JsonObject, JsonValue};
use pi_rs_host::kernel::{Generation, RootKind, ScopeId};
use pi_rs_host::registry::Phase;

fn s(text: &str) -> JsonValue {
    JsonValue::String(text.to_string())
}

fn object(entries: Vec<(&str, JsonValue)>) -> JsonObject {
    let mut o = JsonObject::new();
    for (k, v) in entries {
        o.insert(k, v);
    }
    o
}

fn action(kind: &str) -> JsonValue {
    JsonValue::Object(object(vec![("kind", s(kind)), ("payload", JsonValue::Number(JsonNumber::PosInt(7)))]))
}

fn lua_error(r: Result<(), HostError>) -> String {
    match r {
        Err(HostError::Lua(m)) => m,
        _ => panic!("a Lua error was expected"),
    }
}

#[test]
fn queues_number_items_across_both_lists() {
    let mut t = Transaction::begin(Generation::from_raw(3), ScopeId::from_raw(9));
    assert!(t.queue(QueueList::Actions, "notify", s("hi"), 4).is_ok());
    assert!(t.queue(QueueList::Effects, "fs.write", JsonValue::Null, 4).is_ok());
    assert!(t.queue(QueueList::Actions, "render", JsonValue::Bool(true), 4).is_ok());
    assert_eq!(t.queue(QueueList::Actions, " ", JsonValue::Null, 4), Err("action/effect kind must be a non-empty string".to_string()));
    assert_eq!(
        t.queue(QueueList::Effects, "big", JsonValue::Null, 1_048_577),
        Err("action/effect payload exceeds 1048576 bytes".to_string())
    );
    let batch = t.finish("pkg".to_string());
    assert_eq!(batch.version, 1);
    assert_eq!(batch.generation.get(), 3);
    assert_eq!(batch.source, "pkg");
    let actions: Vec<(u64, String)> = batch.actions.iter().map(|a| (a.sequence, a.kind.clone())).collect();
    assert_eq!(actions, vec![(0, "notify".to_string()), (2, "render".to_string())]);
    assert_eq!(batch.effects.len(), 1);
    assert_eq!(batch.effects[0].sequence, 1);
    assert_eq!(batch.effects[0].scope.get(), 9);
}

#[test]
fn a_full_list_refuses_more() {
    let mut t = Transaction::begin(Generation::from_raw(0), ScopeId::from_raw(1));
    for _ in 0..1024 {
        t.queue(QueueList::Effects, "e", JsonValue::Null, 4).unwrap();
    }
    assert_eq!(t.queue(QueueList::Effects, "e", JsonValue::Null, 4), Err("dispatch exceeds 1024 queued effects".to_string()));
    assert!(t.queue(QueueList::Actions, "a", JsonValue::Null, 4).is_ok());
}

#[test]
fn stage_replies_must_be_tables() {
    assert!(stage_reply(JsonValue::Null, RootKind::Agent, Phase::Event, 3).unwrap().len() == 0);
    assert!(stage_reply(JsonValue::Object(object(vec![("stop", JsonValue::Bool(true))])), RootKind::Agent, Phase::Event, 3).is_ok());
    match stage_reply(s("nope"), RootKind::Agent, Phase::Render, 12) {
        Err(HostError::Lua(m)) => assert_eq!(m, "middleware agent/render stage 12 must return a table or nil"),
        _ => panic!("an error was expected"),
    }
}

#[test]
fn replacement_actions_need_kinds() {
    assert!(replacement_actions(&vec![action("a")], RootKind::Session, Phase::Event, 0).is_ok());
    match replacement_actions(&vec![action("a"), action("  ")], RootKind::Session, Phase::Event, 4) {
        Err(HostError::Lua(m)) => assert_eq!(m, "middleware session/event stage 4 returned an action without a kind"),
        _ => panic!("an error was expected"),
    }
    let many: Vec<JsonValue> = (0..1025).map(|_| action("a")).collect();
    match replacement_actions(&many, RootKind::Session, Phase::Render, 1) {
        Err(HostError::Lua(m)) => assert_eq!(m, "middleware session/render stage 1 returned more than 1024 actions"),
        _ => panic!("an error was expected"),
    }
}

#[test]
fn event_replies_replace_and_stop() {
    let mut p = EventPipeline::new(s("start"));
    p.apply_reply(&object(vec![("event", s("next"))]), RootKind::Agent, 0).unwrap();
    assert!(!p.stopped);
    p.apply_reply(&object(vec![("actions", JsonValue::Array(vec![action("x"), action("y")]))]), RootKind::Agent, 1).unwrap();
    let kinds: Vec<(u64, String)> = p.actions.iter().map(|a| (a.sequence, a.kind.clone())).collect();
    assert_eq!(kinds, vec![(0, "x".to_string()), (1, "y".to_string())]);
    let bad = object(vec![("actions", JsonValue::Array(vec![JsonValue::Null]))]);
    assert_eq!(lua_error(p.apply_reply(&bad, RootKind::Agent, 2)), "middleware agent/event stage 2 returned an action without a kind");
    assert_eq!(p.actions.len(), 2);
    p.apply_reply(&object(vec![("stop", JsonValue::Bool(true))]), RootKind::Agent, 3).unwrap();
    assert!(p.stopped);
    match &p.event {
        JsonValue::String(e) => assert_eq!(e, "next"),
        _ => panic!("the replaced event stays"),
    }
}

#[test]
fn render_replies_replace_or_suppress() {
    let mut actions = vec![action("a")];
    apply_render_reply(&mut actions, &JsonObject::new(), RootKind::Agent, 0).unwrap();
    assert_eq!(actions.len(), 1);
    apply_render_reply(&mut actions, &object(vec![("actions", JsonValue::Array(vec![]))]), RootKind::Agent, 1).unwrap();
    assert!(actions.is_empty());
    let settled = settle_actions(&vec![action("k"), JsonValue::Object(object(vec![("kind", s("bare"))]))]);
    assert_eq!(settled.len(), 2);
    assert_eq!(settled[1].sequence, 1);
    assert!(matches!(settled[1].payload, JsonValue::Null));
}

#[test]
fn snapshots_carry_the_stage_context() {
    let acts = json_actions(&vec![Action { sequence: 0, kind: "k".to_string(), payload: JsonValue::Bool(false) }]);
    let snap = stage_snapshot(RootKind::Frontend, Phase::Event, &s("ev"), Some(&s("ctx")), &acts);
    match snap {
        JsonValue::Object(o) => {
            assert!(o.get("context").is_some());
            assert!(matches!(o.get("version"), Some(JsonValue::Number(JsonNumber::PosInt(1)))));
            assert!(matches!(o.get("phase"), Some(JsonValue::String(p)) if p == "event"));
            match o.get("actions") {
                Some(JsonValue::Array(a)) => assert_eq!(a.len(), 1),
                _ => panic!("actions are an array"),
            }
        }
        _ => panic!("a snapshot is an object"),
    }
    let render = stage_snapshot(RootKind::Frontend, Phase::Render, &s("ev"), None, &vec![]);
    match render {
        JsonValue::Object(o) => assert!(o.get("context").is_none()),
        _ => panic!("a snapshot is an object"),
    }
}
