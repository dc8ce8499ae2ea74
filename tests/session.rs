use spectertty::cli::{Cli, CompressionMode, ConfigError, TokenMode};
use spectertty::frame::FrameType;
use spectertty::processor::OutputProcessor;
use spectertty::session::{SessionMonitor, KILL_REASON, OVERFLOW_REASON};

fn monitor(idle: u64, budget: u64, grace: u64) -> SessionMonitor {
    SessionMonitor::new(80, 24, idle, budget, grace, 0).ok().unwrap()
}

fn config(cols: u16, rows: u16, idle: u64, buffer: usize, patterns: &[&str]) -> Cli {
    Cli {
        json: true,
        socket: None,
        bind: None,
        cols,
        rows,
        idle,
        token_mode: TokenMode::Raw,
        prompt_regex: patterns.iter().map(|p| p.to_string()).collect(),
        buffer,
        overflow_timeout: 5000,
        record: None,
        capsule: false,
        sandbox_profile: None,
        state_dir: None,
        compress: CompressionMode::Plain,
        verbose: false,
        command: "sh".to_string(),
        args: vec![],
    }
}

#[test]
fn construction_rejects_zero_settings() {
    assert!(SessionMonitor::new(1, 1, 1, 1, 0, 0).is_ok());
    assert!(SessionMonitor::new(200, 50, 5000, 8388608, 5000, 9).is_ok());
    assert!(matches!(SessionMonitor::new(0, 24, 200, 10, 0, 0), Err(ConfigError::InvalidWindowSize)));
    assert!(matches!(SessionMonitor::new(80, 0, 200, 10, 0, 0), Err(ConfigError::InvalidWindowSize)));
    assert!(matches!(SessionMonitor::new(80, 24, 0, 10, 0, 0), Err(ConfigError::InvalidIdleTimeout)));
    assert!(matches!(SessionMonitor::new(80, 24, 200, 0, 0, 0), Err(ConfigError::InvalidBufferSize)));
}

#[test]
fn validation_reports_first_problem() {
    assert!(config(120, 40, 200, 8388608, &["\\$ $"]).validate().is_ok());
    assert!(matches!(config(0, 40, 0, 0, &[]).validate(), Err(ConfigError::InvalidWindowSize)));
    assert!(matches!(config(120, 40, 0, 0, &[]).validate(), Err(ConfigError::InvalidIdleTimeout)));
    assert!(matches!(config(120, 40, 200, 0, &[]).validate(), Err(ConfigError::InvalidBufferSize)));
    match config(120, 40, 200, 1, &["ok", "(", "["]).validate() {
        Err(ConfigError::InvalidPromptPattern(p)) => assert_eq!(p, "("),
        _ => panic!("expected an invalid pattern"),
    }
}

#[test]
fn durations_come_from_milliseconds() {
    let c = config(1, 1, 250, 1, &[]);
    assert_eq!(c.idle_duration().as_millis(), 250);
    assert_eq!(c.overflow_timeout().as_millis(), 5000);
}

#[test]
fn idle_is_reported_once_per_quiet_period() {
    let mut m = monitor(200, 1000, 1000);
    assert!(m.on_tick(100).frames.is_empty());
    let t = m.on_tick(200);
    assert_eq!(t.frames.len(), 1);
    assert_eq!(t.frames[0].frame_type, FrameType::Idle);
    assert_eq!(t.frames[0].dur_ms, Some(200));
    assert!(!t.kill);
    assert!(m.on_tick(300).frames.is_empty());
    assert!(m.on_tick(900).frames.is_empty());
    m.on_output(b"x", 950);
    assert!(m.on_tick(1100).frames.is_empty());
    let again = m.on_tick(1160);
    assert_eq!(again.frames.len(), 1);
    assert_eq!(again.frames[0].dur_ms, Some(210));
}

#[test]
fn steady_activity_never_goes_idle() {
    let mut m = monitor(200, 1000, 1000);
    let mut now = 0;
    for _ in 0..20 {
        now += 150;
        let _ = m.on_input(b"k", now);
        assert!(m.on_tick(now + 100).frames.is_empty());
    }
}

#[test]
fn idle_precedes_output_of_a_slow_command() {
    let mut m = monitor(200, 1000, 1000);
    let t = m.on_tick(250);
    assert_eq!(t.frames[0].frame_type, FrameType::Idle);
    assert!(t.frames[0].dur_ms.unwrap() >= 200);
    let o = m.on_output(b"late\n", 300);
    assert_eq!(o[0].frame_type, FrameType::Stdout);
}

#[test]
fn hello_then_exit_in_raw_mode() {
    let mut m = monitor(200, 1000, 1000);
    let mut p = OutputProcessor::new(TokenMode::Raw).ok().unwrap();
    let mut seen = Vec::new();
    for f in m.on_output(b"Hello\n", 10) {
        seen.extend(p.process_frame(f));
    }
    for f in m.on_exit(0, None) {
        seen.extend(p.process_frame(f));
    }
    assert_eq!(seen.len(), 2);
    assert_eq!(seen[0].frame_type, FrameType::Stdout);
    assert_eq!(seen[0].data.as_deref(), Some("Hello\n"));
    assert_eq!(seen[1].frame_type, FrameType::Exit);
    assert_eq!(seen[1].code, Some(0));
    assert!(!m.is_alive());
}

#[test]
fn exit_codes_and_signals_are_kept() {
    let mut m = monitor(200, 1000, 1000);
    assert!(m.is_alive());
    let r = m.on_exit(3, None);
    assert_eq!(r[0].code, Some(3));
    assert!(m.on_exit(0, None).is_empty());
    assert!(m.on_output(b"more", 5).is_empty());
    assert!(m.on_tick(10_000).frames.is_empty());
    assert!(m.on_input(b"late", 20).is_none());
    assert!(m.on_resize(100, 30, 30).is_none());
    let mut s = monitor(200, 1000, 1000);
    let k = s.on_exit(0, Some("SIGKILL".to_string()));
    assert_eq!(k.len(), 1);
    assert_eq!(k[0].frame_type, FrameType::Signal);
    assert_eq!(k[0].signal.as_deref(), Some("SIGKILL"));
}

#[test]
fn resize_reports_new_size() {
    let mut m = monitor(200, 1000, 1000);
    let f = m.on_resize(200, 50, 0).unwrap();
    assert_eq!(f.frame_type, FrameType::Resize);
    assert_eq!(f.cols, Some(200));
    assert_eq!(f.rows, Some(50));
}

#[test]
fn input_is_mirrored_and_decoded_lossily() {
    let mut m = monitor(200, 1000, 1000);
    let f = m.on_input(b"ls\n", 0).unwrap();
    assert_eq!(f.frame_type, FrameType::Stdin);
    assert_eq!(f.data.as_deref(), Some("ls\n"));
    let o = m.on_output(&[0xff, b'a'], 1);
    assert_eq!(o[0].data.as_deref(), Some("\u{fffd}a"));
}

#[test]
fn overflow_escalates_to_kill() {
    let mut m = monitor(100_000, 10, 1000);
    let r = m.on_output(&[b'x'; 20], 0);
    assert_eq!(r.len(), 2);
    assert_eq!(r[1].frame_type, FrameType::Overflow);
    assert_eq!(r[1].reason.as_deref(), Some(OVERFLOW_REASON));
    assert!(m.on_output(b"y", 10).len() == 1);
    let early = m.on_tick(500);
    assert!(!early.kill && early.frames.is_empty());
    let late = m.on_tick(1000);
    assert!(late.kill);
    assert_eq!(late.frames.len(), 1);
    assert_eq!(late.frames[0].frame_type, FrameType::CapsuleKill);
    assert_eq!(late.frames[0].reason.as_deref(), Some(KILL_REASON));
    assert!(!m.on_tick(5000).kill);
}

#[test]
fn draining_cancels_overflow() {
    let mut m = monitor(100_000, 10, 1000);
    assert_eq!(m.on_output(&[b'x'; 20], 0).len(), 2);
    m.on_drain(15);
    let t = m.on_tick(2000);
    assert!(!t.kill && t.frames.is_empty());
    assert_eq!(m.on_output(&[b'x'; 20], 2100).len(), 2);
}

#[test]
fn delivered_stdout_drains_its_text() {
    let mut m = monitor(100_000, 10, 1000);
    let out = m.on_output(&[b'x'; 20], 0);
    assert_eq!(out.len(), 2);
    m.on_delivered(&out[1]);
    assert!(m.on_tick(1000).kill);
    let mut n = monitor(100_000, 10, 1000);
    let out = n.on_output(&[b'x'; 20], 0);
    n.on_delivered(&out[0]);
    let t = n.on_tick(1000);
    assert!(!t.kill && t.frames.is_empty());
}
