use pi_rs_host::trust::{
    format_project_trust_prompt, project_trust_options, project_trust_parent_path, project_trust_path,
    resolve_project_trusted, save_trust_option, trust_event_result, has_project_trust_inputs, has_project_config_dir,
    ProjectTrustStore, ResolveProjectTrust, TrustAnswer, TrustEventResult, TrustFile, TrustOutcome, TrustResolution, TrustUpdate,
};

#[test]
fn trust_paths() {
    assert_eq!(project_trust_path("proj", "/home/u", "/work"), "/work/proj");
    assert_eq!(project_trust_path("~/p", "/home/u", "/work"), "/home/u/p");
    assert_eq!(project_trust_parent_path("/work/proj").as_deref(), Some("/work"));
    assert!(project_trust_parent_path("/").is_none());
}

#[test]
fn prompt_text() {
    assert_eq!(
        format_project_trust_prompt("/w/p"),
        "Trust project folder?\n/w/p\n\nThis allows pi to load .pi settings and resources, install missing project packages, and execute project extensions."
    );
}

#[test]
fn options_in_order() {
    let opts = project_trust_options("/w/p", true);
    let labels: Vec<&str> = opts.iter().map(|o| o.label.as_str()).collect();
    assert_eq!(
        labels,
        vec!["Trust", "Trust parent folder (/w)", "Trust (this session only)", "Do not trust", "Do not trust (this session only)"]
    );
    assert_eq!(opts[1].updates.len(), 2);
    assert_eq!(opts[1].updates[0].path, "/w");
    assert_eq!(opts[1].updates[0].decision, Some(true));
    assert_eq!(opts[1].updates[1].path, "/w/p");
    assert_eq!(opts[1].updates[1].decision, None);
    assert!(opts[2].updates.is_empty() && opts[2].saved_path.is_none());
    let root = project_trust_options("/", false);
    let labels: Vec<&str> = root.iter().map(|o| o.label.as_str()).collect();
    assert_eq!(labels, vec!["Trust", "Do not trust"]);
}

#[test]
fn store_walks_ancestors_and_skips_null() {
    let store = ProjectTrustStore::new("/agent");
    assert_eq!(store.trust_path(), "/agent/trust.json");
    let mut data = TrustFile::new();
    store.set(&mut data, "/w", Some(true));
    store.set(&mut data, "/w/p", None);
    data.insert("/w/p/q", None);
    assert_eq!(store.get(&data, "/w/p/q"), Some(true));
    let e = store.get_entry(&data, "/w/p/q").unwrap();
    assert_eq!(e.path, "/w");
    store.set(&mut data, "/w/p", Some(false));
    assert_eq!(store.get(&data, "/w/p/q"), Some(false));
    assert_eq!(store.get(&data, "/other"), None);
    store.set_many(&mut data, &[TrustUpdate { path: "/w/p".to_owned(), decision: None }]);
    assert_eq!(store.get(&data, "/w/p/q"), Some(true));
}

fn outcome(source: &str, result: Result<Option<(Option<&str>, Option<bool>)>, &str>) -> TrustOutcome {
    TrustOutcome {
        source: source.to_owned(),
        result: result
            .map(|o| o.map(|(t, r)| TrustAnswer { trusted: t.map(str::to_owned), remember: r }))
            .map_err(str::to_owned),
    }
}

#[test]
fn event_fold_first_decision_wins() {
    let outcomes = vec![
        outcome("a", Err("boom")),
        outcome("b", Ok(None)),
        outcome("c", Ok(Some((Some("undecided"), None)))),
        outcome("d", Ok(Some((Some("yes"), Some(true))))),
        outcome("e", Ok(Some((Some("no"), None)))),
    ];
    let (result, errors) = trust_event_result(&outcomes);
    assert_eq!(result, Some(TrustEventResult { trusted: true, remember: true }));
    assert_eq!(
        errors,
        vec![
            ("a".to_owned(), "boom".to_owned()),
            ("b".to_owned(), "project_trust handler returned no result".to_owned())
        ]
    );
    let (result, errors) = trust_event_result(&[outcome("x", Ok(Some((Some("maybe"), Some(false)))))]);
    assert_eq!(result, Some(TrustEventResult { trusted: false, remember: false }));
    assert!(errors.is_empty());
    let (result, _) = trust_event_result(&[]);
    assert!(result.is_none());
}

#[test]
fn resolution_order() {
    let store = ProjectTrustStore::new("/agent");
    let mut data = TrustFile::new();
    let mk = |o: Option<bool>, d: Option<&'static str>, e: Option<TrustEventResult>| (o, d, e);
    let cases = [
        (mk(Some(false), Some("always"), None), true, TrustResolution::Decided(false)),
        (mk(None, Some("never"), None), false, TrustResolution::Decided(true)),
        (mk(None, Some("never"), Some(TrustEventResult { trusted: true, remember: false })), true, TrustResolution::Decided(true)),
        (mk(None, Some("always"), None), true, TrustResolution::Decided(true)),
        (mk(None, Some("never"), None), true, TrustResolution::Decided(false)),
        (mk(None, None, None), true, TrustResolution::Ask),
        (mk(None, Some("bogus"), None), true, TrustResolution::Ask),
    ];
    for ((o, d, e), inputs, want) in cases {
        let opts = ResolveProjectTrust { cwd: "/w/p", store: &store, trust_override: o, default_project_trust: d, extension_result: e };
        assert_eq!(resolve_project_trusted(&opts, inputs, &mut data), want);
    }
    // A remembered extension answer is stored and then read back.
    let opts = ResolveProjectTrust {
        cwd: "/w/p",
        store: &store,
        trust_override: None,
        default_project_trust: None,
        extension_result: Some(TrustEventResult { trusted: false, remember: true }),
    };
    assert_eq!(resolve_project_trusted(&opts, true, &mut data), TrustResolution::Decided(false));
    assert_eq!(data.get("/w/p"), Some(Some(false)));
    let opts = ResolveProjectTrust { cwd: "/w/p/sub", store: &store, trust_override: None, default_project_trust: Some("always"), extension_result: None };
    assert_eq!(resolve_project_trusted(&opts, true, &mut data), TrustResolution::Decided(false));
}

#[test]
fn saving_options() {
    let store = ProjectTrustStore::new("/agent");
    let mut data = TrustFile::new();
    let opts = project_trust_options("/w/p", true);
    save_trust_option(&store, &mut data, &opts[2]);
    assert_eq!(data.get("/w/p"), None);
    save_trust_option(&store, &mut data, &opts[0]);
    assert_eq!(data.get("/w/p"), Some(Some(true)));
    save_trust_option(&store, &mut data, &opts[1]);
    assert_eq!(data.get("/w"), Some(Some(true)));
    assert_eq!(data.get("/w/p"), None);
}

#[test]
fn trust_inputs_probe_the_file_system() {
    let only_pi = |p: &str| p == "/w/p/.pi";
    assert!(has_project_config_dir("/w/p", &only_pi));
    assert!(has_project_trust_inputs("/w/p", &only_pi));
    let skills_above = |p: &str| p == "/w/.agents/skills";
    assert!(!has_project_config_dir("/w/p", &skills_above));
    assert!(has_project_trust_inputs("/w/p", &skills_above));
    let nothing = |_: &str| false;
    assert!(!has_project_trust_inputs("/w/p", &nothing));
}

#[test]
fn trust_text_reads_decisions() {
    let f = match pi_rs_host::trust::read_trust_text("/a/trust.json", "{\"/p\": true, \"/q\": false, \"/r\": null}") {
        Ok(f) => f,
        Err(_) => panic!("expected a trust file"),
    };
    assert_eq!(f.get("/p"), Some(Some(true)));
    assert_eq!(f.get("/q"), Some(Some(false)));
    assert_eq!(f.get("/r"), Some(None));
    assert_eq!(f.get("/s"), None);
}

#[test]
fn trust_text_must_be_an_object_of_decisions() {
    match pi_rs_host::trust::read_trust_text("/a/trust.json", "[1]") {
        Err(pi_rs_host::trust::TrustError::Invalid { path, message }) => {
            assert_eq!(path, "/a/trust.json");
            assert_eq!(message, "expected an object");
        }
        _ => panic!("expected invalid"),
    }
    match pi_rs_host::trust::read_trust_text("/a/trust.json", "{\"/p\": true, \"/q\": 1}") {
        Err(pi_rs_host::trust::TrustError::Invalid { message, .. }) => {
            assert_eq!(message, "value for \"/q\" must be true, false, or null");
        }
        _ => panic!("expected invalid"),
    }
    match pi_rs_host::trust::read_trust_text("/a/trust.json", "{not json") {
        Err(pi_rs_host::trust::TrustError::Read { path, message }) => {
            assert_eq!(path, "/a/trust.json");
            assert!(!message.is_empty());
        }
        _ => panic!("expected a read error"),
    }
}

#[test]
fn trust_file_text_sorts_keys_and_indents() {
    let data = TrustFile { entries: vec![("/b".to_owned(), Some(true)), ("/a".to_owned(), None), ("/c \"q\"".to_owned(), Some(false))] };
    let text = pi_rs_host::trust::trust_file_text("/agent/trust.json", &data).ok().unwrap();
    assert_eq!(text, "{\n  \"/a\": null,\n  \"/b\": true,\n  \"/c \\\"q\\\"\": false\n}\n");
    let empty = TrustFile::new();
    assert_eq!(pi_rs_host::trust::trust_file_text("/agent/trust.json", &empty).ok().unwrap(), "{}\n");
}

#[test]
fn trust_file_text_reads_back() {
    let data = TrustFile { entries: vec![("/w/p".to_owned(), Some(true)), ("/w".to_owned(), Some(false))] };
    let text = pi_rs_host::trust::trust_file_text("/t.json", &data).ok().unwrap();
    let back = pi_rs_host::trust::read_trust_text("/t.json", &text).ok().unwrap();
    let mut got = back.entries.clone();
    got.sort();
    assert_eq!(got, vec![("/w".to_owned(), Some(false)), ("/w/p".to_owned(), Some(true))]);
}
