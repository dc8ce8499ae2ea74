use spectertty::frame::{Frame, FrameType};
use spectertty::recorder::{encode_event, encode_header, AsciinemaRecorder, RecordingManager};

#[test]
fn event_lines_have_six_decimals() {
    assert_eq!(encode_event(1_500_000, 'o', "hi\n"), "[1.500000, \"o\", \"hi\\n\"]");
    assert_eq!(encode_event(0, 'i', "x"), "[0.000000, \"i\", \"x\"]");
    assert_eq!(encode_event(12_000_042, 'o', "\"q\""), "[12.000042, \"o\", \"\\\"q\\\"\"]");
}

#[test]
fn header_line_is_exact() {
    let h = encode_header(80, 24, 1700000000, &Some("ls -l".to_string()), "/bin/bash", "xterm");
    assert_eq!(
        h,
        "{\"version\": 2, \"width\": 80, \"height\": 24, \"timestamp\": 1700000000, \"title\": \"SpecterTTY Recording\", \"command\": \"ls -l\", \"env\": {\"SHELL\": \"/bin/bash\", \"TERM\": \"xterm\"}}"
    );
    let bare = encode_header(1, 2, 0, &None, "/bin/sh", "xterm-256color");
    assert_eq!(
        bare,
        "{\"version\": 2, \"width\": 1, \"height\": 2, \"timestamp\": 0, \"title\": \"SpecterTTY Recording\", \"env\": {\"SHELL\": \"/bin/sh\", \"TERM\": \"xterm-256color\"}}"
    );
}

#[test]
fn recording_keeps_order_and_time() {
    let mut r = AsciinemaRecorder::new(80, 24, None, "/bin/sh".to_string(), "xterm".to_string());
    r.record_frame_at(&Frame::at(FrameType::Stdout, 0).with_data("a".to_string()), 100);
    r.record_frame_at(&Frame::at(FrameType::Idle, 0).with_duration(5), 200);
    r.record_frame_at(&Frame::at(FrameType::Stdin, 0).with_data("b".to_string()), 50);
    r.record_frame_at(&Frame::at(FrameType::Resize, 0).with_size(100, 30), 300);
    r.record_frame_at(&Frame::at(FrameType::Stderr, 0).with_data("e".to_string()), 400);
    r.record_frame_at(&Frame::at(FrameType::Resize, 0), 500);
    let lines = r.take_lines();
    assert_eq!(lines.len(), 5);
    assert!(lines[0].starts_with("{\"version\": 2, \"width\": 80, \"height\": 24, "));
    assert_eq!(lines[1], "[0.000100, \"o\", \"a\"]");
    assert_eq!(lines[2], "[0.000100, \"i\", \"b\"]");
    assert_eq!(lines[3], "[0.000300, \"o\", \"# Terminal resized\\r\\n\"]");
    assert_eq!(lines[4], "[0.000400, \"o\", \"e\"]");
    assert!(r.take_lines().is_empty());
    r.finish();
    assert!(r.is_finished());
    r.record_frame_at(&Frame::at(FrameType::Stdout, 0).with_data("late".to_string()), 900);
    assert!(r.take_lines().is_empty());
}

#[test]
fn manager_records_only_while_active() {
    let mut m = RecordingManager::new();
    assert!(!m.is_recording());
    m.record_frame(&Frame::new(FrameType::Stdout).with_data("lost".to_string()));
    assert!(m.take_lines().is_empty());
    m.start_recording(120, 40, Some("sh".to_string()), "/bin/sh".to_string(), "xterm".to_string());
    assert!(m.is_recording());
    m.record_frame(&Frame::new(FrameType::Stdout).with_data("kept".to_string()));
    let lines = m.stop_recording();
    assert_eq!(lines.len(), 2);
    assert!(lines[0].contains("\"command\": \"sh\""));
    assert!(lines[1].ends_with(", \"o\", \"kept\"]"));
    assert!(!m.is_recording());
    assert!(m.stop_recording().is_empty());
}

#[test]
fn payload_escaping_follows_json() {
    assert_eq!(
        encode_event(0, 'o', "\u{1}\u{1b}\u{e9}\u{7f}\t\u{8}\u{c}\\/"),
        "[0.000000, \"o\", \"\\u0001\\u001b\u{e9}\u{7f}\\t\\b\\f\\\\/\"]"
    );
}
