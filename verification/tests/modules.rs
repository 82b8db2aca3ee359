use pi_rs_host::modules::{nil_factory_error, validate_module_identity, Dependency, ModuleState, Modules, RequireStart};

fn dep(alias: &str, name: &str, version: &str) -> Dependency {
    Dependency { alias: alias.to_string(), name: name.to_string(), version: version.to_string() }
}

#[test]
fn identities_must_not_be_blank() {
    assert!(validate_module_identity("json", "1.0").is_ok());
    assert_eq!(validate_module_identity(" ", "1").unwrap_err(), "module name must be a non-empty string");
    assert_eq!(validate_module_identity("json", "").unwrap_err(), "module version must be a non-empty string");
}

#[test]
fn definitions_sort_and_check_dependencies() {
    let mut m = Modules::new();
    m.define("app", "1", &vec![dep("zeta", "z", "1"), dep("alpha", "a", "2")], "pkg", 1).unwrap();
    assert_eq!(
        m.define("app", "1", &vec![], "other", 2).unwrap_err(),
        "module app@1 is already defined by pkg"
    );
    assert_eq!(
        m.define("bad", "1", &vec![dep("b", "x", " "), dep("a", "", "1")], "pkg", 1).unwrap_err(),
        "module name must be a non-empty string"
    );
    assert_eq!(
        m.define("bad", "1", &vec![dep("  ", "x", "1")], "pkg", 1).unwrap_err(),
        "module dependency alias must be a non-empty string"
    );
    let listed = m.list();
    assert_eq!(listed.len(), 1);
    assert_eq!(listed[0].3, ModuleState::Defined);
    assert_eq!(ModuleState::Loading.name(), "loading");
    match m.begin_require("app", "1", "main").unwrap() {
        RequireStart::Load { source, dependencies } => {
            assert_eq!(source, "pkg");
            let aliases: Vec<String> = dependencies.into_iter().map(|d| d.alias).collect();
            assert_eq!(aliases, vec!["alpha", "zeta"]);
        }
        RequireStart::Loaded => panic!("not loaded yet"),
    }
}

#[test]
fn requiring_loads_once_and_detects_cycles() {
    let mut m = Modules::new();
    m.define("a", "1", &vec![dep("b", "b", "1")], "pa", 1).unwrap();
    m.define("b", "1", &vec![dep("a", "a", "1")], "pb", 2).unwrap();
    assert!(matches!(m.begin_require("a", "1", "main"), Ok(RequireStart::Load { .. })));
    assert!(matches!(m.begin_require("b", "1", "pa"), Ok(RequireStart::Load { .. })));
    assert_eq!(
        m.begin_require("a", "1", "pb").err().unwrap(),
        "module dependency cycle: a@1 -> b@1 -> a@1"
    );
    assert_eq!(
        m.finish_require("b", "1", Err("boom".to_string())).unwrap_err(),
        "module b@1 from pb: boom"
    );
    assert_eq!(m.list()[1].3, ModuleState::Defined);
    assert!(m.finish_require("a", "1", Ok(())).is_ok());
    assert!(matches!(m.begin_require("a", "1", "main"), Ok(RequireStart::Loaded)));
    assert_eq!(
        m.begin_require("c", "2", "main").err().unwrap(),
        "module \"c\" version \"2\" is not defined (required by main)"
    );
    assert_eq!(nil_factory_error("a", "1"), "module a@1 factory returned nil");
}
