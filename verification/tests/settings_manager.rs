use pi_rs_host::json::{JsonNumber, JsonObject, JsonValue};
use pi_rs_host::settings_manager::{
    deep_merge_settings, expand_tilde_path, migrate_settings, parse_thinking_level, SettingsManager,
    SettingsManagerCreateOptions, SettingsScope, SettingsStorage, ThinkingLevel, DEFAULT_HTTP_IDLE_TIMEOUT_MS,
};

fn s(text: &str) -> JsonValue {
    JsonValue::String(text.to_string())
}

fn n(value: u64) -> JsonValue {
    JsonValue::Number(JsonNumber::PosInt(value))
}

fn arr(values: Vec<JsonValue>) -> JsonValue {
    JsonValue::Array(values)
}

fn object(entries: Vec<(&str, JsonValue)>) -> JsonObject {
    let mut o = JsonObject::new();
    for (k, v) in entries {
        o.insert(k, v);
    }
    o
}

fn obj(entries: Vec<(&str, JsonValue)>) -> JsonValue {
    JsonValue::Object(object(entries))
}

/// A canonical rendering: object keys sorted.
fn render(v: &JsonValue) -> String {
    match v {
        JsonValue::Null => "null".to_string(),
        JsonValue::Bool(b) => b.to_string(),
        JsonValue::Number(JsonNumber::PosInt(x)) => x.to_string(),
        JsonValue::Number(JsonNumber::NegInt(x)) => x.to_string(),
        JsonValue::Number(JsonNumber::Float(t)) => t.clone(),
        JsonValue::String(t) => format!("{t:?}"),
        JsonValue::Array(a) => format!("[{}]", a.iter().map(render).collect::<Vec<_>>().join(",")),
        JsonValue::Object(o) => render_object(o),
    }
}

fn render_object(o: &JsonObject) -> String {
    let mut parts: Vec<String> = (0..o.entry_count())
        .map(|i| {
            let (k, v) = o.entry_at(i);
            format!("{k:?}:{}", render(v))
        })
        .collect();
    parts.sort();
    format!("{{{}}}", parts.join(","))
}

fn get(o: &JsonObject, key: &str) -> Option<String> {
    o.get(key).map(render)
}

#[test]
fn deep_merge_project_wins_nested_one_level() {
    let global = object(vec![
        ("theme", s("dark")),
        ("compaction", obj(vec![("enabled", JsonValue::Bool(true)), ("reserveTokens", n(1))])),
        ("extensions", arr(vec![s("a")])),
    ]);
    let project = object(vec![("compaction", obj(vec![("enabled", JsonValue::Bool(false))])), ("extensions", arr(vec![s("b")]))]);
    let merged = deep_merge_settings(&global, &project);
    assert_eq!(get(&merged, "theme"), Some(render(&s("dark"))));
    assert_eq!(
        get(&merged, "compaction"),
        Some(render(&obj(vec![("enabled", JsonValue::Bool(false)), ("reserveTokens", n(1))])))
    );
    assert_eq!(get(&merged, "extensions"), Some(render(&arr(vec![s("b")]))));
}

#[test]
fn migrations_match_spec() {
    let mut settings = object(vec![
        ("queueMode", s("all")),
        ("websockets", JsonValue::Bool(true)),
        ("skills", obj(vec![("enableSkillCommands", JsonValue::Bool(false)), ("customDirectories", arr(vec![s("x")]))])),
        ("retry", obj(vec![("maxDelayMs", n(1234)), ("provider", obj(vec![("timeoutMs", n(5))]))])),
    ]);
    migrate_settings(&mut settings);
    assert_eq!(get(&settings, "steeringMode"), Some(render(&s("all"))));
    assert!(!settings.contains_key("queueMode"));
    assert_eq!(get(&settings, "transport"), Some(render(&s("websocket"))));
    assert!(!settings.contains_key("websockets"));
    assert_eq!(get(&settings, "enableSkillCommands"), Some(render(&JsonValue::Bool(false))));
    assert_eq!(get(&settings, "skills"), Some(render(&arr(vec![s("x")]))));
    assert_eq!(
        get(&settings, "retry"),
        Some(render(&obj(vec![("provider", obj(vec![("timeoutMs", n(5)), ("maxRetryDelayMs", n(1234))]))])))
    );
}

#[test]
fn migration_skills_object_without_dirs_is_dropped() {
    let mut settings = object(vec![("skills", obj(vec![("enableSkillCommands", JsonValue::Bool(true))]))]);
    migrate_settings(&mut settings);
    assert!(!settings.contains_key("skills"));
}

#[test]
fn migration_keeps_set_targets() {
    let mut settings = object(vec![
        ("queueMode", s("all")),
        ("steeringMode", s("one")),
        ("transport", s("sse")),
        ("websockets", JsonValue::Bool(true)),
        ("retry", obj(vec![("maxDelayMs", n(7)), ("provider", obj(vec![("maxRetryDelayMs", n(9))]))])),
    ]);
    migrate_settings(&mut settings);
    assert_eq!(get(&settings, "queueMode"), Some(render(&s("all"))));
    assert_eq!(get(&settings, "steeringMode"), Some(render(&s("one"))));
    assert!(settings.contains_key("websockets"));
    assert_eq!(get(&settings, "retry"), Some(render(&obj(vec![("provider", obj(vec![("maxRetryDelayMs", n(9))]))]))));
}

#[test]
fn in_memory_initial_settings_are_migrated() {
    let manager = SettingsManager::in_memory(object(vec![("queueMode", s("all"))]));
    assert_eq!(manager.get_steering_mode(), "all");
}

#[test]
fn apply_overrides_wins_over_merged() {
    let mut manager = SettingsManager::in_memory(object(vec![("theme", s("dark"))]));
    manager.apply_overrides(&object(vec![("theme", s("cli-override"))]));
    assert_eq!(manager.get_theme().as_deref(), Some("cli-override"));
}

#[test]
fn in_memory_defaults_and_setters_without_timeouts() {
    let mut manager = SettingsManager::in_memory(JsonObject::new());
    assert_eq!(manager.get_steering_mode(), "one-at-a-time");
    assert_eq!(manager.get_transport(), "auto");
    assert!(manager.get_compaction_enabled());
    assert_eq!(manager.get_compaction_reserve_tokens(), 16384);
    assert_eq!(manager.get_retry_settings().max_retries, 3);
    assert_eq!(manager.get_provider_retry_settings().max_retry_delay_ms, 60000);
    assert_eq!(manager.get_default_project_trust(), "ask");
    assert_eq!(manager.get_double_escape_action(), "tree");
    assert_eq!(manager.get_tree_filter_mode(), "default");
    assert_eq!(manager.get_autocomplete_max_visible(), 5);
    assert_eq!(manager.get_code_block_indent(), "  ");
    manager.set_default_model_and_provider("acme", "model-large-4");
    assert_eq!(manager.get_default_provider().as_deref(), Some("acme"));
    assert_eq!(manager.get_default_model().as_deref(), Some("model-large-4"));
    manager.set_default_thinking_level(ThinkingLevel::High);
    assert_eq!(manager.get_default_thinking_level(), Some(ThinkingLevel::High));
    assert!(manager.drain_errors().is_empty());
}

#[test]
fn clamped_integer_setters() {
    let mut manager = SettingsManager::in_memory(JsonObject::new());
    manager.set_editor_padding_x(9);
    assert_eq!(manager.get_editor_padding_x(), 3);
    manager.set_autocomplete_max_visible(1);
    assert_eq!(manager.get_autocomplete_max_visible(), 3);
    manager.set_autocomplete_max_visible(50);
    assert_eq!(manager.get_autocomplete_max_visible(), 20);
    manager.set_image_width_cells(0);
    let terminal = manager.get_global_settings();
    assert_eq!(get(&terminal, "terminal"), Some(render(&obj(vec![("imageWidthCells", n(1))]))));
}

#[test]
fn project_overrides_global_and_untrusted_project_is_ignored() {
    let global = object(vec![("theme", s("dark")), ("compaction", obj(vec![("reserveTokens", n(5))]))]);
    let project = object(vec![("theme", s("light")), ("compaction", obj(vec![("enabled", JsonValue::Bool(false))]))]);
    let trusted = SettingsManager::from_loaded(Ok(global), Ok(project), SettingsManagerCreateOptions::default());
    assert_eq!(trusted.get_theme().as_deref(), Some("light"));
    assert!(!trusted.get_compaction_enabled());
    assert_eq!(trusted.get_compaction_reserve_tokens(), 5);

    let global = object(vec![("theme", s("dark"))]);
    let project = object(vec![("theme", s("evil"))]);
    let mut untrusted = SettingsManager::from_loaded(Ok(global), Ok(project), SettingsManagerCreateOptions { project_trusted: Some(false) });
    assert_eq!(untrusted.get_theme().as_deref(), Some("dark"));
    let refused = untrusted.set_project_extension_paths(&vec!["x".to_string()]);
    assert_eq!(refused.unwrap_err().message(), "Project is not trusted; refusing to write project settings");
    assert!(untrusted.write_request(SettingsScope::Project).is_none());
}

#[test]
fn load_errors_are_recorded_and_block_writes() {
    let mut manager = SettingsManager::from_loaded(Err("bad lua".to_string()), Ok(JsonObject::new()), SettingsManagerCreateOptions::default());
    manager.set_theme("light");
    assert_eq!(manager.get_theme().as_deref(), Some("light"));
    assert!(manager.write_request(SettingsScope::Global).is_none());
    let errors = manager.drain_errors();
    assert_eq!(errors.len(), 1);
    assert_eq!(errors[0].scope, SettingsScope::Global);
    assert_eq!(errors[0].error, "bad lua");
    assert!(manager.drain_errors().is_empty());
}

#[test]
fn writes_carry_changed_fields_and_reset_them() {
    let mut manager = SettingsManager::in_memory(object(vec![("theme", s("dark")), ("unknownKey", n(42))]));
    manager.set_theme("light");
    manager.set_compaction_enabled(false);
    let request = manager.write_request(SettingsScope::Global).unwrap();
    let mut fields = request.fields.clone();
    fields.sort();
    assert_eq!(fields, vec!["compaction".to_string(), "theme".to_string()]);
    assert_eq!(request.nested_fields, vec![("compaction".to_string(), "enabled".to_string())]);
    assert_eq!(get(&request.snapshot, "unknownKey"), Some("42".to_string()));
    manager.finish_write(SettingsScope::Global, Ok(()));
    assert!(manager.write_request(SettingsScope::Global).unwrap().fields.is_empty());
    manager.finish_write(SettingsScope::Global, Err("disk full".to_string()));
    assert_eq!(manager.drain_errors()[0].error, "disk full");
}

#[test]
fn reload_publishes_only_when_both_scopes_load() {
    let mut manager = SettingsManager::in_memory(object(vec![("theme", s("dark"))]));
    let failed = manager.try_reload(Err("g".to_string()), Err("p".to_string()));
    assert_eq!(failed.unwrap_err().message(), "global config: g; project config: p");
    assert_eq!(manager.get_theme().as_deref(), Some("dark"));
    assert!(manager.try_reload(Ok(object(vec![("theme", s("external"))])), Ok(JsonObject::new())).is_ok());
    assert_eq!(manager.get_theme().as_deref(), Some("external"));
}

#[test]
fn trusting_loads_the_project() {
    let mut manager = SettingsManager::from_loaded(
        Ok(object(vec![("theme", s("dark"))])),
        Ok(JsonObject::new()),
        SettingsManagerCreateOptions { project_trusted: Some(false) },
    );
    manager.set_project_trusted(true, Ok(object(vec![("theme", s("project"))])));
    assert!(manager.is_project_trusted());
    assert_eq!(manager.get_theme().as_deref(), Some("project"));
    manager.set_project_trusted(false, Ok(JsonObject::new()));
    assert_eq!(manager.get_theme().as_deref(), Some("dark"));
}

#[test]
fn paths_and_lists() {
    let mut manager = SettingsManager::in_memory(object(vec![("extensions", arr(vec![s("a"), n(3), s("b")]))]));
    assert_eq!(manager.get_extension_paths(), vec!["a".to_string(), "b".to_string()]);
    assert!(manager.get_npm_command().is_none());
    manager.set_npm_command(Some(&vec!["pnpm".to_string()]));
    assert_eq!(manager.get_npm_command(), Some(vec!["pnpm".to_string()]));
    manager.set_npm_command(None);
    assert!(manager.get_npm_command().is_none());
    assert_eq!(manager.set_project_skill_paths(&vec!["s".to_string()]).is_ok(), true);
    assert_eq!(manager.get_skill_paths(), vec!["s".to_string()]);
}

#[test]
fn small_helpers() {
    assert_eq!(DEFAULT_HTTP_IDLE_TIMEOUT_MS, 300_000);
    assert_eq!(parse_thinking_level("xhigh"), Some(ThinkingLevel::XHigh));
    assert_eq!(parse_thinking_level("huge"), None);
    assert_eq!(expand_tilde_path("~", "/home/u"), "/home/u");
    assert_eq!(expand_tilde_path("~/sessions", "/home/u"), "/home/u/sessions");
    assert_eq!(expand_tilde_path("/abs", "/home/u"), "/abs");
    assert_eq!(SettingsScope::Project.name(), "project");
    match SettingsStorage::file("/p", "/a") {
        SettingsStorage::File { global_settings_path, project_settings_path } => {
            assert_eq!(global_settings_path, "/a/config.lua");
            assert_eq!(project_settings_path, "/p/.pi/config.lua");
        }
        _ => panic!("file storage expected"),
    }
    let manager = SettingsManager::in_memory(object(vec![("sessionDir", s("~/sessions"))]));
    assert_eq!(manager.get_session_dir("/home/u").as_deref(), Some("/home/u/sessions"));
}

#[test]
fn raw_setting_values_are_copies_of_the_merge() {
    let manager = SettingsManager::in_memory(object(vec![
        ("httpIdleTimeoutMs", s("disabled")),
        ("terminal", obj(vec![("imageWidthCells", n(80))])),
    ]));
    assert_eq!(manager.setting("httpIdleTimeoutMs").map(|v| render(&v)), Some("\"disabled\"".to_string()));
    assert!(manager.setting("missing").is_none());
    assert_eq!(manager.nested_setting("terminal", "imageWidthCells").map(|v| render(&v)), Some("80".to_string()));
    assert!(manager.nested_setting("terminal", "other").is_none());
}
