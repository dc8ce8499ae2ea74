//! The frame: one typed event of the protocol, built by a chain of `with_*`
//! steps from a bare frame of a given type.

use vstd::prelude::*;

verus! {

/// The closed set of frame kinds.
#[derive(Clone, Copy, Debug, PartialEq, Eq, Structural)]
pub enum FrameType {
    Stdout,
    Stdin,
    Stderr,
    Cursor,
    Resize,
    ResizeAck,
    Prompt,
    Idle,
    LineUpdate,
    Overflow,
    Signal,
    Exit,
    Stopped,
    Continued,
    CapsuleKill,
    Ping,
    Pong,
}

/// One event. `ts` is the creation time in microseconds since the Unix
/// epoch; the optional fields are set only where the kind needs them.
#[derive(Clone, Debug)]
pub struct Frame {
    pub ts: u64,
    pub frame_type: FrameType,
    pub data: Option<String>,
    pub binary: Option<bool>,
    pub cols: Option<u16>,
    pub rows: Option<u16>,
    pub code: Option<i32>,
    pub signal: Option<String>,
    pub regex: Option<String>,
    pub dur_ms: Option<u64>,
    pub reason: Option<String>,
}

/// The mathematical value of a frame: its text fields as character sequences.
pub struct FrameView {
    pub ts: u64,
    pub frame_type: FrameType,
    pub data: Option<Seq<char>>,
    pub binary: Option<bool>,
    pub cols: Option<u16>,
    pub rows: Option<u16>,
    pub code: Option<i32>,
    pub signal: Option<Seq<char>>,
    pub regex: Option<Seq<char>>,
    pub dur_ms: Option<u64>,
    pub reason: Option<Seq<char>>,
}

pub open spec fn text_view(o: Option<String>) -> Option<Seq<char>> {
    match o {
        Some(s) => Some(s@),
        None => None,
    }
}

impl View for Frame {
    type V = FrameView;

    open spec fn view(&self) -> FrameView {
        FrameView {
            ts: self.ts,
            frame_type: self.frame_type,
            data: text_view(self.data),
            binary: self.binary,
            cols: self.cols,
            rows: self.rows,
            code: self.code,
            signal: text_view(self.signal),
            regex: text_view(self.regex),
            dur_ms: self.dur_ms,
            reason: text_view(self.reason),
        }
    }
}

/// A frame of kind `t` made at `ts`, with no optional field set.
pub open spec fn bare(t: FrameType, ts: u64) -> FrameView {
    FrameView {
        ts,
        frame_type: t,
        data: None,
        binary: None,
        cols: None,
        rows: None,
        code: None,
        signal: None,
        regex: None,
        dur_ms: None,
        reason: None,
    }
}

/// The views of a sequence of frames.
pub open spec fn views(s: Seq<Frame>) -> Seq<FrameView> {
    s.map_values(|f: Frame| f@)
}

/// The standard base64 encoding, with padding, of `b`.
pub uninterp spec fn base64_standard(b: Seq<u8>) -> Seq<char>;

/// Relies on `base64`'s `STANDARD` engine `encode`: padded standard base64.
/// Its length computation overflows only beyond half the address space.
#[verifier::external_body]
fn encode_base64(b: &[u8]) -> (r: String)
    requires
        b@.len() <= usize::MAX / 2,
    ensures
        r@ == base64_standard(b@),
{
    base64::Engine::encode(&base64::engine::general_purpose::STANDARD, b)
}

/// Relies on `SystemTime::now`: the wall-clock time in microseconds since the
/// Unix epoch (0 for a clock set before it). Nothing is known of its value.
#[verifier::external_body]
pub(crate) fn unix_micros() -> (r: u64) {
    match std::time::SystemTime::now().duration_since(std::time::UNIX_EPOCH) {
        Ok(d) => d.as_micros() as u64,
        Err(_) => 0,
    }
}

impl Frame {
    /// A bare frame of kind `frame_type`, stamped with the current time.
    pub fn new(frame_type: FrameType) -> (r: Frame)
        ensures
            r@ == bare(frame_type, r.ts),
    {
        Frame::at(frame_type, unix_micros())
    }

    /// A bare frame of kind `frame_type`, stamped with `ts`.
    pub fn at(frame_type: FrameType, ts: u64) -> (r: Frame)
        ensures
            r@ == bare(frame_type, ts),
    {
        Frame {
            ts,
            frame_type,
            data: None,
            binary: None,
            cols: None,
            rows: None,
            code: None,
            signal: None,
            regex: None,
            dur_ms: None,
            reason: None,
        }
    }

    /// Sets the text payload.
    pub fn with_data(self, data: String) -> (r: Frame)
        ensures
            r@ == (FrameView { data: Some(data@), ..self@ }),
    {
        let mut f = self;
        f.data = Some(data);
        f
    }

    /// Sets the payload to the base64 text of `data` and marks it binary.
    pub fn with_binary_data(self, data: Vec<u8>) -> (r: Frame)
        requires
            data@.len() <= usize::MAX / 2,
        ensures
            r@ == (FrameView { data: Some(base64_standard(data@)), binary: Some(true), ..self@ }),
    {
        let mut f = self;
        f.data = Some(encode_base64(data.as_slice()));
        f.binary = Some(true);
        f
    }

    /// Sets the window size.
    pub fn with_size(self, cols: u16, rows: u16) -> (r: Frame)
        ensures
            r@ == (FrameView { cols: Some(cols), rows: Some(rows), ..self@ }),
    {
        let mut f = self;
        f.cols = Some(cols);
        f.rows = Some(rows);
        f
    }

    /// Sets the exit code.
    pub fn with_exit_code(self, code: i32) -> (r: Frame)
        ensures
            r@ == (FrameView { code: Some(code), ..self@ }),
    {
        let mut f = self;
        f.code = Some(code);
        f
    }

    /// Sets the signal name.
    pub fn with_signal(self, signal: String) -> (r: Frame)
        ensures
            r@ == (FrameView { signal: Some(signal@), ..self@ }),
    {
        let mut f = self;
        f.signal = Some(signal);
        f
    }

    /// Sets the matched prompt pattern.
    pub fn with_regex(self, regex: String) -> (r: Frame)
        ensures
            r@ == (FrameView { regex: Some(regex@), ..self@ }),
    {
        let mut f = self;
        f.regex = Some(regex);
        f
    }

    /// Sets the duration in milliseconds.
    pub fn with_duration(self, dur_ms: u64) -> (r: Frame)
        ensures
            r@ == (FrameView { dur_ms: Some(dur_ms), ..self@ }),
    {
        let mut f = self;
        f.dur_ms = Some(dur_ms);
        f
    }

    /// Sets the free-text reason.
    pub fn with_reason(self, reason: String) -> (r: Frame)
        ensures
            r@ == (FrameView { reason: Some(reason@), ..self@ }),
    {
        let mut f = self;
        f.reason = Some(reason);
        f
    }
}

} // verus!
