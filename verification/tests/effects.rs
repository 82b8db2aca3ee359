use pi_rs_host::effects::{file_stat, fs_io_error, safe_temp_prefix};
use pi_rs_host::effects::{process_run_step, ProcessRunAction, ProcessRunEvent, ProcessRunState};
use pi_rs_host::effects::{write_text_step, WriteTextAction, WriteTextEvent, WriteTextState};
use pi_rs_host::effects::{read_image_step, ReadImageAction, ReadImageEvent, ReadImageState};
use pi_rs_host::effects::{
    base_mime_type, env_truthy, extension_for_image_mime_type, is_wayland, is_wsl, preferred_mime, Duration,
    EffectCounters, EffectError, EffectOptions, EffectRequest, EffectTimeout, CryptoRequest,
    DEFAULT_MAX_OUTPUT_BYTES, DEFAULT_STREAM_CAPACITY,
};

fn env(pairs: &[(&str, &str)]) -> Vec<(String, String)> {
    pairs.iter().map(|(k, v)| ((*k).to_owned(), (*v).to_owned())).collect()
}

#[test]
fn options_constructors_and_validation() {
    let b = EffectOptions::bounded(Duration::from_millis(1500));
    assert_eq!(b.timeout, EffectTimeout::After(Duration { secs: 1, nanos: 500_000_000 }));
    assert_eq!(b.stream_capacity, DEFAULT_STREAM_CAPACITY);
    assert_eq!(b.max_output_bytes, DEFAULT_MAX_OUTPUT_BYTES);
    assert!(b.validate().is_ok());
    let l = EffectOptions::long_lived();
    assert_eq!(l.timeout, EffectTimeout::Disabled);
    assert!(l.validate().is_ok());

    let msg = |o: EffectOptions| match o.validate() {
        Err(EffectError::Invalid(m)) => m,
        _ => panic!("expected invalid"),
    };
    assert_eq!(msg(EffectOptions { stream_capacity: 0, ..l }), "stream_capacity must be in 1..=32");
    assert_eq!(msg(EffectOptions { stream_capacity: 33, ..l }), "stream_capacity must be in 1..=32");
    assert!(EffectOptions { stream_capacity: 32, ..l }.validate().is_ok());
    assert_eq!(msg(EffectOptions { max_output_bytes: 0, ..l }), "max_output_bytes must be greater than zero");
    assert_eq!(
        msg(EffectOptions::bounded(Duration::from_secs(0))),
        "timeout must be greater than zero or explicitly disabled"
    );
    let req = EffectRequest::Crypto(CryptoRequest::RandomUuid, b);
    assert_eq!(*req.options(), b);
    assert_eq!(EffectError::OutputLimit(10).message(), "effect output exceeded 10 bytes");
}

#[test]
fn counters_track_leases_and_peaks() {
    let mut c = EffectCounters::new();
    c.lease_acquired(1);
    c.lease_acquired(1);
    c.lease_acquired(2);
    c.enqueued();
    c.enqueued();
    c.dequeued();
    let s = c.stats();
    assert_eq!((s.active, s.queued, s.peak_active, s.peak_queued), (3, 1, 3, 2));
    c.lease_released(1);
    assert!(c.scope_active(1));
    c.lease_released(1);
    assert!(!c.scope_active(1));
    assert!(c.scope_active(2));
    c.lease_released(2);
    let s = c.stats();
    assert_eq!((s.active, s.peak_active), (0, 3));
    assert!(!c.scope_active(2));
}

#[test]
fn clipboard_environment() {
    assert!(env_truthy(&env(&[("A", "1")]), "A"));
    assert!(!env_truthy(&env(&[("A", "")]), "A"));
    assert!(!env_truthy(&env(&[]), "A"));
    assert!(is_wayland(&env(&[("WAYLAND_DISPLAY", "wayland-0")])));
    assert!(is_wayland(&env(&[("XDG_SESSION_TYPE", "wayland")])));
    assert!(!is_wayland(&env(&[("XDG_SESSION_TYPE", "x11")])));
    assert!(is_wsl(&env(&[("WSLENV", "x")]), None));
    assert!(is_wsl(&env(&[]), Some("Linux version 5.15 (Microsoft@Microsoft.com)")));
    assert!(!is_wsl(&env(&[]), Some("Linux version 6.1 generic")));
}

#[test]
fn mime_types() {
    assert_eq!(base_mime_type(" Image/PNG ; charset=x"), "image/png");
    assert_eq!(extension_for_image_mime_type("image/jpeg"), Some("jpg"));
    assert_eq!(extension_for_image_mime_type("IMAGE/WEBP;q=1"), Some("webp"));
    assert_eq!(extension_for_image_mime_type("image/gif"), Some("gif"));
    assert_eq!(extension_for_image_mime_type("image/bmp"), None);
    let types = |v: &[&str]| v.iter().map(|s| (*s).to_owned()).collect::<Vec<_>>();
    assert_eq!(preferred_mime(&types(&["text/plain", " image/gif", "image/jpeg "])).as_deref(), Some("image/jpeg"));
    assert_eq!(preferred_mime(&types(&["image/bmp ", "text/html"])).as_deref(), Some("image/bmp"));
    assert_eq!(preferred_mime(&types(&["text/html"])), None);
}


fn run_of(a: &ReadImageAction) -> (String, Vec<String>, u64) {
    match a {
        ReadImageAction::Run { program, args, timeout_secs } => (program.clone(), args.clone(), *timeout_secs),
        _ => panic!("expected a run"),
    }
}

fn strs(v: &[&str]) -> Vec<String> {
    v.iter().map(|s| s.to_string()).collect()
}

#[test]
fn read_image_gate() {
    let (s, a) = read_image_step(ReadImageState::Start, ReadImageEvent::Begin { termux: true, linux: true, wayland: true, wsl: false });
    assert!(matches!(s, ReadImageState::Done));
    assert!(matches!(a, ReadImageAction::Finish(None)));
    let (_, a) = read_image_step(ReadImageState::Start, ReadImageEvent::Begin { termux: false, linux: false, wayland: true, wsl: false });
    assert!(matches!(a, ReadImageAction::Finish(None)));
    let (_, a) = read_image_step(ReadImageState::Start, ReadImageEvent::Begin { termux: false, linux: true, wayland: false, wsl: false });
    assert!(matches!(a, ReadImageAction::Finish(None)));
    let (s, a) = read_image_step(ReadImageState::Start, ReadImageEvent::Begin { termux: false, linux: true, wayland: false, wsl: true });
    assert!(matches!(s, ReadImageState::ListingWayland));
    assert_eq!(run_of(&a), ("wl-paste".to_string(), strs(&["--list-types"]), 1));
}

#[test]
fn read_image_wayland_reads_preferred_type() {
    let (s, a) = read_image_step(ReadImageState::ListingWayland, ReadImageEvent::Output(Some(b"text/plain\r\n  image/gif\nimage/png; x\n\n".to_vec())));
    assert!(matches!(s, ReadImageState::ReadingWayland { ref mime } if mime == "image/png; x"));
    assert_eq!(run_of(&a), ("wl-paste".to_string(), strs(&["--type", "image/png; x", "--no-newline"]), 3));
    let (s, a) = read_image_step(s, ReadImageEvent::Output(Some(vec![1, 2, 3])));
    assert!(matches!(s, ReadImageState::Done));
    match a {
        ReadImageAction::Finish(Some((bytes, mime))) => {
            assert_eq!(bytes, vec![1, 2, 3]);
            assert_eq!(mime, "image/png");
        }
        _ => panic!("expected an image"),
    }
}

#[test]
fn read_image_unsupported_type_is_converted() {
    let state = ReadImageState::ReadingWayland { mime: "image/bmp".to_string() };
    let (s, a) = read_image_step(state, ReadImageEvent::Output(Some(vec![9])));
    assert!(matches!(s, ReadImageState::Converting));
    assert!(matches!(a, ReadImageAction::ConvertToPng { ref bytes } if bytes == &vec![9u8]));
    let (s, a) = read_image_step(s, ReadImageEvent::Converted(Some(vec![7])));
    assert!(matches!(s, ReadImageState::Done));
    assert!(matches!(a, ReadImageAction::Finish(Some((ref b, ref m))) if b == &vec![7u8] && m == "image/png"));
}

#[test]
fn read_image_falls_back_to_xclip() {
    let (s, a) = read_image_step(ReadImageState::ListingWayland, ReadImageEvent::Output(None));
    assert!(matches!(s, ReadImageState::ListingX11));
    assert_eq!(run_of(&a), ("xclip".to_string(), strs(&["-selection", "clipboard", "-t", "TARGETS", "-o"]), 1));
    let (s, a) = read_image_step(s, ReadImageEvent::Output(Some(b"TARGETS\nimage/jpeg\n".to_vec())));
    match &s {
        ReadImageState::ReadingX11 { tries, next } => {
            assert_eq!(tries, &strs(&["image/jpeg", "image/png", "image/jpeg", "image/webp", "image/gif"]));
            assert_eq!(*next, 0);
        }
        _ => panic!("expected xclip reads"),
    }
    assert_eq!(run_of(&a), ("xclip".to_string(), strs(&["-selection", "clipboard", "-t", "image/jpeg", "-o"]), 3));
    let (s, a) = read_image_step(s, ReadImageEvent::Output(Some(Vec::new())));
    assert_eq!(run_of(&a).1[3], "image/png");
    let state = ReadImageState::ReadingX11 { tries: strs(&["image/gif"]), next: 0 };
    let (s2, a2) = read_image_step(state, ReadImageEvent::Output(None));
    assert!(matches!(s2, ReadImageState::Done));
    assert!(matches!(a2, ReadImageAction::Finish(None)));
    let (_, a) = read_image_step(s, ReadImageEvent::Output(Some(vec![5])));
    assert!(matches!(a, ReadImageAction::Finish(Some((_, ref m))) if m == "image/png"));
}

fn write_run_of(a: &WriteTextAction) -> (String, Vec<String>, String) {
    match a {
        WriteTextAction::Run { program, args, input } => (program.clone(), args.clone(), input.clone()),
        _ => panic!("expected a run"),
    }
}

#[test]
fn process_run_failed_spawn_exits_with_one() {
    let (s, a) = process_run_step(ProcessRunState::Starting { max_output: 10 }, ProcessRunEvent::Spawned(false));
    assert!(matches!(s, ProcessRunState::Done));
    assert!(matches!(a, ProcessRunAction::EmitExit { code: 1, killed: false }));
}

#[test]
fn process_run_forwards_then_reports_exit() {
    let (s, a) = process_run_step(ProcessRunState::Starting { max_output: 10 }, ProcessRunEvent::Spawned(true));
    assert!(matches!(a, ProcessRunAction::Wait));
    let (s, a) = process_run_step(s, ProcessRunEvent::Chunk { stderr: false, bytes: vec![1, 2, 3] });
    assert!(matches!(a, ProcessRunAction::Forward { stderr: false, ref bytes } if bytes == &vec![1u8, 2, 3]));
    assert!(matches!(s, ProcessRunState::Running { total: 3, .. }));
    let (s, a) = process_run_step(s, ProcessRunEvent::Exited(Some(Some(7))));
    assert!(matches!(a, ProcessRunAction::StartGrace));
    let (s, a) = process_run_step(s, ProcessRunEvent::ReadEnded { stderr: false });
    assert!(matches!(a, ProcessRunAction::Wait));
    let (s, a) = process_run_step(s, ProcessRunEvent::ReadEnded { stderr: true });
    assert!(matches!(s, ProcessRunState::Done));
    assert!(matches!(a, ProcessRunAction::EmitExit { code: 7, killed: false }));
}

#[test]
fn process_run_signal_exit_and_grace() {
    let running = ProcessRunState::Running { total: 0, stdout_open: true, stderr_open: true, status: None, max_output: 5 };
    let (s, _) = process_run_step(running, ProcessRunEvent::Exited(Some(None)));
    let (s, a) = process_run_step(s, ProcessRunEvent::GraceOver);
    assert!(matches!(s, ProcessRunState::Done));
    assert!(matches!(a, ProcessRunAction::EmitExit { code: 0, killed: false }));
}

#[test]
fn process_run_output_limit_terminates() {
    let running = ProcessRunState::Running { total: 4, stdout_open: true, stderr_open: true, status: None, max_output: 5 };
    let (s, a) = process_run_step(running, ProcessRunEvent::Chunk { stderr: true, bytes: vec![0, 0] });
    assert!(matches!(s, ProcessRunState::Terminating { error: EffectError::OutputLimit(5) }));
    assert!(matches!(a, ProcessRunAction::Terminate));
    let (s, a) = process_run_step(s, ProcessRunEvent::Terminated);
    assert!(matches!(s, ProcessRunState::Done));
    assert!(matches!(a, ProcessRunAction::EmitError(EffectError::OutputLimit(5))));
}

#[test]
fn process_run_cancel_and_timeout() {
    let running = || ProcessRunState::Running { total: 0, stdout_open: true, stderr_open: false, status: None, max_output: 5 };
    let (s, a) = process_run_step(running(), ProcessRunEvent::Cancelled);
    assert!(matches!(s, ProcessRunState::Terminating { error: EffectError::Cancelled }));
    assert!(matches!(a, ProcessRunAction::Terminate));
    let (s, _) = process_run_step(running(), ProcessRunEvent::TimedOut);
    assert!(matches!(s, ProcessRunState::Terminating { error: EffectError::Timeout }));
    let (s, a) = process_run_step(ProcessRunState::Done, ProcessRunEvent::GraceOver);
    assert!(matches!(s, ProcessRunState::Done));
    assert!(matches!(a, ProcessRunAction::Wait));
}

#[test]
fn write_text_on_macos_runs_pbcopy() {
    let (s, a) = write_text_step(WriteTextState::Start, WriteTextEvent::Begin {
        text: "hi".to_owned(), env: env(&[]), platform: "darwin".to_owned(),
    });
    assert_eq!(write_run_of(&a), ("pbcopy".to_owned(), Vec::new(), "hi".to_owned()));
    let (s, a) = write_text_step(s, WriteTextEvent::Ran(true));
    assert!(matches!(s, WriteTextState::Done));
    assert!(matches!(a, WriteTextAction::Finish(None)));
}

#[test]
fn write_text_linux_falls_back_through_commands() {
    let e = env(&[("WAYLAND_DISPLAY", "wayland-0"), ("DISPLAY", ":0")]);
    let (s, a) = write_text_step(WriteTextState::Start, WriteTextEvent::Begin {
        text: "x".to_owned(), env: e, platform: "linux".to_owned(),
    });
    assert_eq!(write_run_of(&a), ("wl-copy".to_owned(), Vec::new(), "x".to_owned()));
    let (s, a) = write_text_step(s, WriteTextEvent::Ran(false));
    assert_eq!(write_run_of(&a), ("xclip".to_owned(), strs(&["-selection", "clipboard"]), "x".to_owned()));
    let (s, a) = write_text_step(s, WriteTextEvent::Ran(false));
    assert_eq!(write_run_of(&a), ("xsel".to_owned(), strs(&["--clipboard", "--input"]), "x".to_owned()));
    let (s, a) = write_text_step(s, WriteTextEvent::Ran(false));
    assert!(matches!(s, WriteTextState::AwaitOsc { copied: false }));
    assert!(matches!(a, WriteTextAction::WriteTerminal(ref q) if q == "\x1b]52;c;eA==\x07"));
    let (s, a) = write_text_step(s, WriteTextEvent::Wrote(false));
    assert!(matches!(s, WriteTextState::Done));
    assert!(matches!(a, WriteTextAction::Finish(Some(ref m)) if m == "Failed to copy to clipboard"));
}

#[test]
fn write_text_termux_and_remote_session() {
    let e = env(&[("TERMUX_VERSION", ""), ("SSH_CONNECTION", "1 2 3 4")]);
    let (s, a) = write_text_step(WriteTextState::Start, WriteTextEvent::Begin {
        text: "ab".to_owned(), env: e, platform: "linux".to_owned(),
    });
    assert_eq!(write_run_of(&a), ("termux-clipboard-set".to_owned(), Vec::new(), "ab".to_owned()));
    let (s, a) = write_text_step(s, WriteTextEvent::Ran(true));
    assert!(matches!(s, WriteTextState::AwaitOsc { copied: true }));
    assert!(matches!(a, WriteTextAction::WriteTerminal(ref q) if q == "\x1b]52;c;YWI=\x07"));
    let (_, a) = write_text_step(s, WriteTextEvent::Wrote(false));
    assert!(matches!(a, WriteTextAction::Finish(None)));
}

#[test]
fn write_text_other_platform_uses_osc52() {
    let (s, a) = write_text_step(WriteTextState::Start, WriteTextEvent::Begin {
        text: "x".to_owned(), env: env(&[]), platform: "freebsd".to_owned(),
    });
    assert!(matches!(s, WriteTextState::AwaitOsc { copied: false }));
    assert!(matches!(a, WriteTextAction::WriteTerminal(_)));
    let (_, a) = write_text_step(s, WriteTextEvent::Wrote(true));
    assert!(matches!(a, WriteTextAction::Finish(None)));
    let (s, a) = write_text_step(WriteTextState::Done, WriteTextEvent::Ran(true));
    assert!(matches!(s, WriteTextState::Done));
    assert!(matches!(a, WriteTextAction::Finish(None)));
}

#[test]
fn temp_prefix_replaces_unsafe_characters() {
    assert_eq!(safe_temp_prefix("my log/ä.txt"), "my-log--.txt");
    assert_eq!(safe_temp_prefix("pi_run-1.A"), "pi_run-1.A");
    assert_eq!(safe_temp_prefix(""), "");
}

#[test]
fn file_stat_kind_and_time() {
    let s = file_stat(true, false, 4, Some(12));
    assert_eq!(s.kind, "dir");
    assert_eq!(s.size, 4);
    assert_eq!(s.modified_ms, 12);
    assert_eq!(file_stat(false, true, 0, None).kind, "file");
    assert_eq!(file_stat(false, true, 0, None).modified_ms, 0);
    assert_eq!(file_stat(false, false, 0, Some(u128::MAX)).kind, "other");
    assert_eq!(file_stat(false, false, 0, Some(u128::MAX)).modified_ms, i64::MAX);
}

#[test]
fn fs_error_message() {
    match fs_io_error("read_file", "/tmp/x", "No such file or directory (os error 2)") {
        EffectError::Io(m) => assert_eq!(m, "read_file '/tmp/x': No such file or directory (os error 2)"),
        _ => panic!("expected an I/O error"),
    }
}
