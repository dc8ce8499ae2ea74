use spectertty::cli::TokenMode;
use spectertty::frame::{Frame, FrameType};
use spectertty::pattern::Pattern;
use spectertty::processor::OutputProcessor;

fn out(text: &str) -> Frame {
    Frame::new(FrameType::Stdout).with_data(text.to_string())
}

fn data_of(f: &Frame) -> String {
    f.data.clone().unwrap()
}

#[test]
fn builders_set_only_their_fields() {
    let f = Frame::at(FrameType::Exit, 7).with_exit_code(3);
    assert_eq!(f.ts, 7);
    assert_eq!(f.frame_type, FrameType::Exit);
    assert_eq!(f.code, Some(3));
    assert!(f.data.is_none() && f.cols.is_none() && f.reason.is_none());
    let r = Frame::at(FrameType::Resize, 0).with_size(80, 24);
    assert_eq!((r.cols, r.rows), (Some(80), Some(24)));
    let i = Frame::at(FrameType::Idle, 0).with_duration(250);
    assert_eq!(i.dur_ms, Some(250));
    let s = Frame::at(FrameType::Signal, 0).with_signal("SIGTERM".to_string());
    assert_eq!(s.signal.as_deref(), Some("SIGTERM"));
    let p = Frame::at(FrameType::Prompt, 0).with_regex("\\$ $".to_string());
    assert_eq!(p.regex.as_deref(), Some("\\$ $"));
    let k = Frame::at(FrameType::CapsuleKill, 0).with_reason("why".to_string());
    assert_eq!(k.reason.as_deref(), Some("why"));
}

#[test]
fn binary_data_is_base64() {
    let f = Frame::at(FrameType::Stdout, 0).with_binary_data(b"hi".to_vec());
    assert_eq!(f.data.as_deref(), Some("aGk="));
    assert_eq!(f.binary, Some(true));
    let g = Frame::at(FrameType::Stdout, 0).with_binary_data(vec![0xff, 0x00, 0x10]);
    assert_eq!(g.data.as_deref(), Some("/wAQ"));
}

#[test]
fn raw_mode_passes_everything() {
    let mut p = OutputProcessor::new(TokenMode::Raw).ok().unwrap();
    let r = p.process_frame(out("\x1b[31mred\x1b[0m  "));
    assert_eq!(r.len(), 1);
    assert_eq!(data_of(&r[0]), "\x1b[31mred\x1b[0m  ");
    assert_eq!(r[0].frame_type, FrameType::Stdout);
}

#[test]
fn compact_strips_and_emits_complete_line() {
    let mut p = OutputProcessor::new(TokenMode::Compact).ok().unwrap();
    let r = p.process_frame(out("\x1b[1;31mHello\x1b[0m   \r\n"));
    assert_eq!(r.len(), 1);
    assert_eq!(data_of(&r[0]), "Hello\n");
    assert_eq!(r[0].frame_type, FrameType::Stdout);
}

#[test]
fn compact_trims_each_line_keeping_indentation() {
    let mut p = OutputProcessor::new(TokenMode::Compact).ok().unwrap();
    let r = p.process_frame(out("a  \r  b \t\n"));
    assert_eq!(r.len(), 1);
    assert_eq!(data_of(&r[0]), "a\n  b\n");
}

#[test]
fn compact_keeps_stderr_kind() {
    let mut p = OutputProcessor::new(TokenMode::Compact).ok().unwrap();
    let r = p.process_frame(Frame::new(FrameType::Stderr).with_data("oops\n".to_string()));
    assert_eq!(r.len(), 1);
    assert_eq!(r[0].frame_type, FrameType::Stderr);
    assert_eq!(data_of(&r[0]), "oops\n");
}

#[test]
fn compact_coalesces_fragments_until_newline() {
    let mut p = OutputProcessor::new(TokenMode::Compact).ok().unwrap();
    assert!(p.process_frame(out("abc")).is_empty());
    assert!(p.process_frame(out("def")).is_empty());
    let r = p.process_frame(out("g\n"));
    assert_eq!(r.len(), 1);
    assert_eq!(data_of(&r[0]), "abcdefg\n");
    assert!(p.flush_buffer().is_empty());
}

#[test]
fn compact_emits_when_buffer_passes_limit() {
    let mut p = OutputProcessor::new(TokenMode::Compact).ok().unwrap();
    let a = "a".repeat(300);
    let b = "b".repeat(212);
    assert!(p.process_frame(out(&a)).is_empty());
    assert!(p.process_frame(out(&b)).is_empty());
    let r = p.process_frame(out("c"));
    assert_eq!(r.len(), 1);
    assert_eq!(data_of(&r[0]), format!("{}{}c", a, b));
}

#[test]
fn compact_limit_counts_bytes() {
    let mut p = OutputProcessor::new(TokenMode::Compact).ok().unwrap();
    let wide = "\u{e9}".repeat(257);
    let r = p.process_frame(out(&wide));
    assert_eq!(r.len(), 1);
    assert_eq!(data_of(&r[0]), wide);
}

#[test]
fn progress_duplicates_are_suppressed() {
    let mut p = OutputProcessor::new(TokenMode::Compact).ok().unwrap();
    let first = p.process_frame(out("downloading 50%\r"));
    assert_eq!(first.len(), 1);
    assert_eq!(first[0].frame_type, FrameType::LineUpdate);
    assert_eq!(data_of(&first[0]), "downloading 50%\n");
    let second = p.process_frame(out("\x1b[2Kdownloading 50%\r"));
    assert!(second.is_empty());
    let third = p.process_frame(out("downloading 60%\r"));
    assert_eq!(third.len(), 1);
    assert_eq!(data_of(&third[0]), "downloading 60%\n");
}

#[test]
fn progress_glyphs_and_bars_are_recognised() {
    let mut p = OutputProcessor::new(TokenMode::Parsed).ok().unwrap();
    let r = p.process_frame(out("\u{2588}\u{2588}\u{2591}"));
    assert_eq!(r.len(), 1);
    assert_eq!(r[0].frame_type, FrameType::LineUpdate);
    let b = p.process_frame(out("[==>   ]"));
    assert_eq!(b.len(), 1);
    assert_eq!(b[0].frame_type, FrameType::LineUpdate);
    let k = p.process_frame(out("installing deps"));
    assert_eq!(k.len(), 1);
    assert_eq!(k[0].frame_type, FrameType::LineUpdate);
}

#[test]
fn progress_keywords_are_case_sensitive() {
    let mut p = OutputProcessor::new(TokenMode::Compact).ok().unwrap();
    assert!(p.process_frame(out("Loading")).is_empty());
    let r = p.flush_buffer();
    assert_eq!(r.len(), 1);
    assert_eq!(r[0].frame_type, FrameType::Stdout);
    assert_eq!(data_of(&r[0]), "Loading");
}

#[test]
fn other_frames_pass_compact_unchanged() {
    let mut p = OutputProcessor::new(TokenMode::Compact).ok().unwrap();
    let r = p.process_frame(Frame::at(FrameType::Resize, 5).with_size(10, 20));
    assert_eq!(r.len(), 1);
    assert_eq!(r[0].frame_type, FrameType::Resize);
    assert_eq!((r[0].cols, r[0].rows), (Some(10), Some(20)));
    let s = p.process_frame(Frame::at(FrameType::Stdout, 5));
    assert_eq!(s.len(), 1);
    assert!(s[0].data.is_none());
}

#[test]
fn flush_drains_partial_line_once() {
    let mut p = OutputProcessor::new(TokenMode::Compact).ok().unwrap();
    assert!(p.process_frame(out("partial")).is_empty());
    let r = p.flush_buffer();
    assert_eq!(r.len(), 1);
    assert_eq!(data_of(&r[0]), "partial");
    assert!(p.flush_buffer().is_empty());
}

#[test]
fn stripping_clean_text_changes_nothing() {
    let mut p = OutputProcessor::new(TokenMode::Compact).ok().unwrap();
    let once = p.process_frame(out("\x1b[32mok\x1b[0m done\n"));
    let cleaned = data_of(&once[0]);
    assert_eq!(cleaned, "ok done\n");
    let twice = p.process_frame(out(&cleaned));
    assert_eq!(data_of(&twice[0]), cleaned);
}

#[test]
fn stripping_repeats_until_none_is_left() {
    let mut p = OutputProcessor::new(TokenMode::Compact).ok().unwrap();
    let r = p.process_frame(out("\x1b\x1b[m[1mX\n"));
    assert_eq!(data_of(&r[0]), "X\n");
    assert!(p.process_frame(out("\x1b\x1b[0m[0m")).is_empty());
    let f = p.flush_buffer();
    assert!(f.is_empty());
    let again = p.process_frame(out("X\n"));
    assert_eq!(data_of(&again[0]), "X\n");
}

#[test]
fn carriage_returns_become_line_ends() {
    let mut p = OutputProcessor::new(TokenMode::Compact).ok().unwrap();
    let r = p.process_frame(out("a\rb\rc\rd"));
    assert_eq!(r.len(), 1);
    assert_eq!(r[0].frame_type, FrameType::Stdout);
    assert_eq!(data_of(&r[0]), "a\nb\nc\nd");
    let two = p.process_frame(out("e\r\nf\rg"));
    assert_eq!(two.len(), 1);
    assert_eq!(two[0].frame_type, FrameType::Stdout);
    assert_eq!(data_of(&two[0]), "e\nf\ng");
}

#[test]
fn patterns_compile_or_fail() {
    assert!(Pattern::new("(").is_err());
    let p = Pattern::new("a+").ok().unwrap();
    assert!(p.is_match("caat"));
    assert!(!p.is_match("xyz"));
}

#[test]
fn new_frames_carry_the_clock() {
    let f = Frame::new(FrameType::Ping);
    assert!(f.ts > 1_600_000_000_000_000);
    assert_eq!(f.frame_type, FrameType::Ping);
    assert!(f.data.is_none() && f.binary.is_none() && f.dur_ms.is_none());
}

#[test]
fn progress_shapes_follow_the_pattern() {
    let mut p = OutputProcessor::new(TokenMode::Compact).ok().unwrap();
    let pct = p.process_frame(out("done 7%"));
    assert_eq!(pct[0].frame_type, FrameType::LineUpdate);
    let spin = p.process_frame(out("\u{25d0} working"));
    assert_eq!(spin[0].frame_type, FrameType::LineUpdate);
    assert!(p.process_frame(out("[abc] %5")).is_empty());
    let r = p.flush_buffer();
    assert_eq!(r[0].frame_type, FrameType::Stdout);
    assert_eq!(data_of(&r[0]), "[abc] %5");
}
