use pi_rs_host::config_value::{
    command_output, get_config_value_env_var_names, get_missing_config_value_env_var_names,
    is_command_config_value, is_config_value_configured, resolve_config_value,
    resolve_config_value_or_throw, resolve_config_value_uncached, CommandCache, EnvVars,
    Resolution,
};

fn value(r: Resolution) -> Option<String> {
    match r {
        Resolution::Resolved(v) => v,
        Resolution::RunCommand(cmd) => panic!("unexpected command request: {cmd}"),
    }
}

fn resolve(config: &str, env: &EnvVars, cache: &CommandCache) -> Option<String> {
    value(resolve_config_value(config, env, cache))
}

fn no_env() -> EnvVars {
    EnvVars::new()
}

#[test]
fn literals_pass_through() {
    assert_eq!(resolve("sk-plain", &no_env(), &CommandCache::new()), Some("sk-plain".into()));
}

#[test]
fn dollar_escapes() {
    let cache = CommandCache::new();
    assert_eq!(resolve("a$$b", &no_env(), &cache), Some("a$b".into()));
    assert_eq!(resolve("a$!b", &no_env(), &cache), Some("a!b".into()));
}

#[test]
fn env_template_resolves_and_missing_is_none() {
    let mut env = EnvVars::new();
    env.insert("PI_RS_RCV_TEST_VAR".to_owned(), "hello".to_owned());
    let cache = CommandCache::new();
    assert_eq!(
        resolve("pre-$PI_RS_RCV_TEST_VAR-post", &env, &cache),
        Some("pre-hello-post".into())
    );
    assert_eq!(resolve("${PI_RS_RCV_TEST_VAR}!", &env, &cache), Some("hello!".into()));
    assert_eq!(resolve("$PI_RS_RCV_TEST_MISSING", &env, &cache), None);
    assert_eq!(
        get_missing_config_value_env_var_names("$PI_RS_RCV_TEST_MISSING", &env),
        vec!["PI_RS_RCV_TEST_MISSING".to_owned()]
    );
}

#[test]
fn unterminated_brace_is_literal_dollar() {
    assert_eq!(resolve("a${b", &no_env(), &CommandCache::new()), Some("a${b".into()));
}

#[test]
fn invalid_brace_name_is_literal() {
    assert_eq!(
        resolve("${not valid}", &no_env(), &CommandCache::new()),
        Some("${not valid}".into())
    );
}

#[test]
fn command_values_execute_and_cache() {
    let env = no_env();
    let mut cache = CommandCache::new();
    cache.clear();
    assert!(is_command_config_value("!echo hi"));
    // The first resolution asks for the command; `sh -c "echo hi"` exits 0
    // printing "hi\n", and its outcome is recorded.
    match resolve_config_value("!echo hi", &env, &cache) {
        Resolution::RunCommand(cmd) => assert_eq!(cmd, "echo hi"),
        Resolution::Resolved(_) => panic!("nothing was cached yet"),
    }
    cache.record("!echo hi", command_output(true, "hi\n"));
    assert_eq!(resolve("!echo hi", &env, &cache), Some("hi".into()));
    // Failed commands resolve to None (`false` exits 1).
    cache.record("!false", command_output(false, ""));
    assert_eq!(resolve("!false", &env, &cache), None);
}

#[test]
fn or_throw_error_messages_match_spec() {
    let env = no_env();
    let err = resolve_config_value_or_throw(
        "!false",
        "API key for provider \"x\"",
        &env,
        command_output(false, ""),
    )
    .unwrap_err()
    .message();
    assert_eq!(
        err,
        "Failed to resolve API key for provider \"x\" from shell command: false"
    );
    let err = resolve_config_value_or_throw("$PI_RS_RCV_TEST_MISSING2", "API key", &env, None)
        .unwrap_err()
        .message();
    assert_eq!(
        err,
        "Failed to resolve API key from environment variable: PI_RS_RCV_TEST_MISSING2"
    );
}

#[test]
fn or_throw_lists_every_missing_variable() {
    let env = no_env();
    let err = resolve_config_value_or_throw("$A-${B}-$A", "token", &env, None)
        .unwrap_err()
        .message();
    assert_eq!(err, "Failed to resolve token from environment variables: A, B");
    let mut env = EnvVars::new();
    env.insert("A".to_owned(), "1".to_owned());
    env.insert("B".to_owned(), "2".to_owned());
    assert_eq!(
        resolve_config_value_or_throw("$A-${B}-$A", "token", &env, None).ok(),
        Some("1-2-1".to_owned())
    );
}

#[test]
fn names_are_distinct_and_commands_have_none() {
    assert_eq!(
        get_config_value_env_var_names("$A $B_2 ${A} $$C $9"),
        vec!["A".to_owned(), "B_2".to_owned()]
    );
    assert!(get_config_value_env_var_names("!echo $HOME").is_empty());
}

#[test]
fn empty_variables_count_as_missing() {
    let mut env = EnvVars::new();
    env.insert("EMPTY".to_owned(), String::new());
    assert!(!is_config_value_configured("$EMPTY", &env));
    assert!(is_config_value_configured("plain", &env));
    assert_eq!(resolve("$EMPTY", &env, &CommandCache::new()), None);
}

#[test]
fn later_insert_shadows_earlier() {
    let mut env = EnvVars::new();
    env.insert("V".to_owned(), "old".to_owned());
    env.insert("V".to_owned(), "new".to_owned());
    assert_eq!(env.get("V"), Some("new".to_owned()));
    assert_eq!(resolve("$V", &env, &CommandCache::new()), Some("new".into()));
}

#[test]
fn uncached_resolution_always_asks_for_the_command() {
    let mut cache = CommandCache::new();
    cache.record("!echo hi", Some("hi".to_owned()));
    match resolve_config_value_uncached("!echo hi", &no_env()) {
        Resolution::RunCommand(cmd) => assert_eq!(cmd, "echo hi"),
        Resolution::Resolved(_) => panic!("uncached resolution must run the command"),
    }
    cache.clear();
    match resolve_config_value("!echo hi", &no_env(), &cache) {
        Resolution::RunCommand(_) => {}
        Resolution::Resolved(_) => panic!("cleared cache must forget outcomes"),
    }
}

#[test]
fn command_output_trims_and_rejects_blank() {
    assert_eq!(command_output(true, "  value \t\n"), Some("value".to_owned()));
    assert_eq!(command_output(true, " \n"), None);
    assert_eq!(command_output(false, "value"), None);
}
