use pi_rs_host::effects::{EffectError, ProcessEvent, ProcessOutput, ProcessOutputKind};
use pi_rs_host::exec::{ExecCollector, ExecStep};

#[test]
fn output_is_gathered_until_exit() {
    let mut c = ExecCollector::new();
    assert!(matches!(c.on_event(Some(ProcessEvent::Output(ProcessOutputKind::Stdout, b"hel".to_vec()))), ExecStep::Continue));
    assert!(matches!(c.on_event(Some(ProcessEvent::Output(ProcessOutputKind::Stderr, b"warn".to_vec()))), ExecStep::Continue));
    assert!(matches!(c.on_event(Some(ProcessEvent::Output(ProcessOutputKind::Stdout, vec![b'l', b'o', 0xff]))), ExecStep::Continue));
    match c.on_event(Some(ProcessEvent::Exit(ProcessOutput { code: 3, killed: false }))) {
        ExecStep::Finished(r) => {
            assert_eq!(r.stdout, "hello\u{fffd}");
            assert_eq!(r.stderr, "warn");
            assert_eq!(r.code, 3);
            assert!(!r.killed);
        }
        _ => panic!("the run was expected to finish"),
    }
}

#[test]
fn timeouts_kill_and_other_errors_fail() {
    let mut c = ExecCollector::new();
    c.on_event(Some(ProcessEvent::Output(ProcessOutputKind::Stdout, b"partial".to_vec())));
    match c.on_event(Some(ProcessEvent::Error(EffectError::Timeout))) {
        ExecStep::Finished(r) => {
            assert_eq!(r.stdout, "partial");
            assert!(r.killed);
            assert_eq!(r.code, 0);
        }
        _ => panic!("a killed result was expected"),
    }
    match c.on_event(Some(ProcessEvent::Error(EffectError::OutputLimit(10)))) {
        ExecStep::Failed(m) => assert_eq!(m, "effect output exceeded 10 bytes"),
        _ => panic!("a failure was expected"),
    }
    match c.on_event(None) {
        ExecStep::Failed(m) => assert_eq!(m, "process effect ended without a result"),
        _ => panic!("a failure was expected"),
    }
}

#[test]
fn refused_requests() {
    let killed = ExecCollector::request_failed(EffectError::Cancelled, true).ok().unwrap();
    assert!(killed.killed && killed.stdout.is_empty());
    assert_eq!(ExecCollector::request_failed(EffectError::Cancelled, false).err().unwrap(), "effect cancelled");
    assert_eq!(
        ExecCollector::request_failed(EffectError::Invalid("bad".to_string()), true).err().unwrap(),
        "invalid effect request: bad"
    );
}
