use std::any::Any;
use std::sync::atomic::{AtomicUsize, Ordering};
use std::sync::{Arc, Mutex};

use pi_rs_host::lifecycle::{Epoch, Generation, HostLifecycle, Scope};

type Dispose = Box<dyn FnOnce() + Send>;
type OnChange = Box<dyn FnMut(&str) + Send>;
type Stored = Box<dyn Any + Send>;
type Lifecycle = HostLifecycle<Dispose, OnChange, Stored>;

const THEME: &str = "theme";
const MODE: &str = "mode";
const MODEL: &str = "model";
const UNDECLARED: &str = "undeclared";

fn scope() -> Scope<Dispose, OnChange> {
    Scope::default()
}

fn run(disposes: Vec<Dispose>) {
    for dispose in disposes {
        dispose();
    }
}

/// Commits a value and fires the reactions the lifecycle names.
fn set(lc: &mut Lifecycle, key: &str, value: Stored) {
    let readers = lc.set(key, value);
    for id in readers {
        if let Some(cb) = lc.units[id].on_change.as_mut() {
            cb(key);
        }
    }
}

#[test]
fn drain_leaves_no_residue() {
    let mut lc = Lifecycle::new();
    set(&mut lc, THEME, Box::new("dark"));

    let disposed = Arc::new(Mutex::new(Vec::new()));
    let d = Arc::clone(&disposed);
    let d2 = Arc::clone(&disposed);
    let d3 = Arc::clone(&disposed);
    lc.mount(
        scope()
            .track(Box::new(move || d.lock().unwrap().push("vm")))
            .track(Box::new(move || d2.lock().unwrap().push("process")))
            .track(Box::new(move || d3.lock().unwrap().push("session"))),
    );
    run(lc.drain());
    assert_eq!(disposed.lock().unwrap()[..], ["session", "process", "vm"]);
    assert!(lc.is_empty(), "residue after drain");
    assert_eq!(lc.get(THEME).and_then(|v| v.downcast_ref::<&str>()), Some(&"dark"));
}

#[test]
fn dispose_runs_at_most_once() {
    let mut lc = Lifecycle::new();
    let count = Arc::new(AtomicUsize::new(0));
    let c = Arc::clone(&count);
    let id = lc.mount(scope().track(Box::new(move || {
        c.fetch_add(1, Ordering::Relaxed);
    })));
    run(lc.dispose(id));
    run(lc.dispose(id));
    run(lc.drain());
    assert_eq!(count.load(Ordering::Relaxed), 1);
}

#[test]
fn drain_respects_topological_order() {
    let mut lc = Lifecycle::new();
    let order = Arc::new(Mutex::new(Vec::new()));
    let b = Arc::clone(&order);
    let base = lc.mount(scope().track(Box::new(move || b.lock().unwrap().push("base"))));
    let o = Arc::clone(&order);
    let unit = lc.mount(scope().track(Box::new(move || o.lock().unwrap().push("unit"))));
    lc.depends_on(unit, base);
    run(lc.drain());
    assert_eq!(order.lock().unwrap()[..], ["base", "unit"]);
}

#[test]
fn set_notifies_only_declared_readers() {
    let mut lc = Lifecycle::new();
    let theme_hits = Arc::new(AtomicUsize::new(0));
    let mode_hits = Arc::new(AtomicUsize::new(0));

    let th = Arc::clone(&theme_hits);
    lc.mount(
        scope()
            .on_change(Box::new(move |k: &str| {
                assert_eq!(k, THEME, "theme reader got non-theme key");
                th.fetch_add(1, Ordering::Relaxed);
            }))
            .with_read(THEME),
    );
    let mh = Arc::clone(&mode_hits);
    lc.mount(
        scope()
            .on_change(Box::new(move |k: &str| {
                assert_eq!(k, MODE, "mode reader got non-mode key");
                mh.fetch_add(1, Ordering::Relaxed);
            }))
            .with_read(MODE),
    );

    set(&mut lc, MODE, Box::new("command"));
    assert_eq!(theme_hits.load(Ordering::Relaxed), 0);
    assert_eq!(mode_hits.load(Ordering::Relaxed), 1);

    set(&mut lc, THEME, Box::new("light"));
    assert_eq!(theme_hits.load(Ordering::Relaxed), 1);
    assert_eq!(mode_hits.load(Ordering::Relaxed), 1);

    set(&mut lc, UNDECLARED, Box::new(1));
    assert_eq!(theme_hits.load(Ordering::Relaxed), 1);
    assert_eq!(mode_hits.load(Ordering::Relaxed), 1);
}

#[test]
fn disposed_scope_stops_reacting() {
    let mut lc = Lifecycle::new();
    let hits = Arc::new(AtomicUsize::new(0));
    let h = Arc::clone(&hits);
    let id = lc.mount(scope().with_read(MODEL).on_change(Box::new(move |_: &str| {
        h.fetch_add(1, Ordering::Relaxed);
    })));
    set(&mut lc, MODEL, Box::new("v1"));
    assert_eq!(hits.load(Ordering::Relaxed), 1);
    run(lc.dispose(id));
    set(&mut lc, MODEL, Box::new("v2"));
    assert_eq!(hits.load(Ordering::Relaxed), 1, "disposed scope raced");
}

#[test]
fn epoch_gates_reload() {
    let e1 = Epoch::new(MODEL, "app", "1.0", "sha-abc");
    let same = Epoch::new(MODEL, "app", "1.0", "sha-abc");
    let version_bump = Epoch::new(MODEL, "app", "1.1", "sha-abc");
    let schema_bump = Epoch::new(MODEL, "app", "1.0", "sha-def");

    let generation = Generation { value: 7, epoch: e1 };
    assert!(!generation.reloads_on(&same), "same epoch must not reload");
    assert!(generation.reloads_on(&version_bump), "version bump reloads");
    assert!(generation.reloads_on(&schema_bump), "schema hash bump reloads");

    let gen2 = Generation { value: 8, epoch: schema_bump.clone() };
    assert!(!gen2.reloads_on(&schema_bump));
    assert!(gen2.reloads_on(&same));
}

#[test]
fn set_then_get_reads_back_the_value() {
    let mut lc = Lifecycle::new();
    assert!(!lc.has(THEME));
    set(&mut lc, THEME, Box::new("dark"));
    set(&mut lc, MODE, Box::new("command"));
    set(&mut lc, THEME, Box::new("light"));
    assert_eq!(lc.get(THEME).and_then(|v| v.downcast_ref::<&str>()), Some(&"light"));
    assert_eq!(lc.get(MODE).and_then(|v| v.downcast_ref::<&str>()), Some(&"command"));
    assert!(lc.get(UNDECLARED).is_none());
}

#[test]
fn drain_falls_back_to_reverse_registration_on_a_cycle() {
    let mut lc = Lifecycle::new();
    let order = Arc::new(Mutex::new(Vec::new()));
    let a1 = Arc::clone(&order);
    let a = lc.mount(scope().track(Box::new(move || a1.lock().unwrap().push("a"))));
    let b1 = Arc::clone(&order);
    let b = lc.mount(scope().track(Box::new(move || b1.lock().unwrap().push("b"))));
    lc.depends_on(a, b);
    lc.depends_on(b, a);
    let (ord, topo) = lc.drain_order();
    assert_eq!(ord, vec![b, a]);
    assert_eq!(topo, 0);
    run(lc.drain());
    assert_eq!(order.lock().unwrap()[..], ["b", "a"]);
    assert!(lc.drain().is_empty());
}

#[test]
fn drain_places_free_units_before_a_cycle() {
    let mut lc = Lifecycle::new();
    let c = lc.mount(scope());
    let a = lc.mount(scope());
    let b = lc.mount(scope());
    let d = lc.mount(scope());
    lc.depends_on(a, b);
    lc.depends_on(b, a);
    lc.depends_on(d, a);
    let (ord, topo) = lc.drain_order();
    assert_eq!(topo, 1);
    assert_eq!(ord, vec![c, d, b, a]);
}
