use pi_rs_host::hljs::HljsError;
use pi_rs_host::package::PackageSource;
use pi_rs_host::timer::{ResourceRegistry, TimerRegistry};
use pi_rs_host::{HostConfig, DEFAULT_DISPATCH_TIMEOUT_MS};

#[test]
fn timers_fire_when_due() {
    let mut timers: TimerRegistry<&str> = TimerRegistry::new();
    let once = timers.set(100, None, "once");
    let every = timers.set(100, Some(50), "every");
    assert_eq!((once, every), (1, 2));
    assert_eq!(timers.count(), 2);
    assert_eq!(timers.next_due(), Some(100));
    let fired: Vec<(u64, u64, &str)> = timers.take_due(120).into_iter().map(|t| (t.id, t.due, t.func)).collect();
    assert_eq!(fired, vec![(1, 100, "once")]);
    assert_eq!(timers.count(), 1);
    assert_eq!(timers.next_due(), Some(150));
    let fired: Vec<(u64, u64)> = timers.take_due(160).into_iter().map(|t| (t.id, t.due)).collect();
    assert_eq!(fired, vec![(2, 210)]);
    assert_eq!(timers.next_due(), Some(210));
    assert!(timers.clear(every));
    assert!(!timers.clear(every));
    assert_eq!(timers.next_due(), None);
    timers.set(0, Some(5), "x");
    assert_eq!(timers.dispose_all(), 1);
    assert_eq!(timers.count(), 0);
}

#[test]
fn resources_dispose_newest_first() {
    let mut resources: ResourceRegistry<u32> = ResourceRegistry::new();
    resources.register("process", "p1".to_string(), 1);
    resources.register("timer.timeout", "timer-1".to_string(), 2);
    resources.register("socket", "s1".to_string(), 3);
    assert_eq!(resources.len(), 3);
    assert!(resources.unregister("timer.timeout", "timer-1"));
    assert!(!resources.unregister("timer.timeout", "timer-1"));
    assert_eq!(resources.list(), vec![("process".to_string(), "p1".to_string()), ("socket".to_string(), "s1".to_string())]);
    assert_eq!(resources.dispose_all(), vec![3, 1]);
    assert_eq!(resources.len(), 0);
}

#[test]
fn package_sources_resolve() {
    let read = |p: &str| -> Result<String, String> {
        if p == "/pkg.lua" { Ok("return 1".to_string()) } else { Err("not found".to_string()) }
    };
    let embedded = PackageSource::Embedded { name: "core", source: "x" }.resolve(&read).ok().unwrap();
    assert_eq!((embedded.source_key.as_str(), embedded.source.as_str()), ("<core>", "x"));
    let memory = PackageSource::Memory { key: "mem", source: "y" }.resolve(&read).ok().unwrap();
    assert_eq!((memory.source_key.as_str(), memory.source.as_str()), ("mem", "y"));
    let file = PackageSource::File { path: "/pkg.lua" }.resolve(&read).ok().unwrap();
    assert_eq!((file.source_key.as_str(), file.source.as_str()), ("/pkg.lua", "return 1"));
    let missing = PackageSource::File { path: "/missing.lua" }.resolve(&read);
    match missing {
        Err(e) => assert_eq!(e.message(), "io: read '/missing.lua': not found"),
        Ok(_) => panic!("a missing file resolves to an error"),
    }
}

#[test]
fn host_config_and_hljs_errors() {
    let config = HostConfig::default();
    assert_eq!(config.dispatch_timeout_ms, DEFAULT_DISPATCH_TIMEOUT_MS);
    assert_eq!(config.dispatch_timeout_ms, 5000);
    assert!(config.cwd.is_none());
    assert_eq!(HljsError::UnknownLanguage("cobol".to_string()).message(), "Unknown language: \"cobol\"");
    assert_eq!(HljsError::Catalog("bad".to_string()).message(), "hljs catalog: bad");
}
