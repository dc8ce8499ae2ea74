//! Session recording in the asciinema v2 replay format: a header line, then
//! one `[elapsed, code, payload]` line per recorded event. The recorder
//! produces the lines; its owner writes them to the destination and flushes.

use vstd::prelude::*;
use crate::frame::{text_view, unix_micros, Frame, FrameType, FrameView};
use crate::text::{
    absent, chars_of, count_char, lemma_count_char_absent, lemma_count_char_concat, string_from,
};

verus! {

#[verifier::external_type_specification]
#[verifier::external_body]
pub struct ExInstant(std::time::Instant);

/// Title written into every recording header.
pub const TITLE: &'static str = "SpecterTTY Recording";

/// Text written, as output, in place of a resize.
pub const RESIZE_NOTE: &'static str = "# Terminal resized\r\n";

/// The lowercase hexadecimal digit `d`.
pub open spec fn hex_digit(d: nat) -> char {
    if d < 10 {
        digit_char(d)
    } else if d == 10 {
        'a'
    } else if d == 11 {
        'b'
    } else if d == 12 {
        'c'
    } else if d == 13 {
        'd'
    } else if d == 14 {
        'e'
    } else {
        'f'
    }
}

/// How one character is written inside a JSON string: the quote, the
/// backslash and the control characters are escaped, all else is kept.
pub open spec fn json_escape_char(c: char) -> Seq<char> {
    if c == '"' {
        seq!['\\', '"']
    } else if c == '\\' {
        seq!['\\', '\\']
    } else if c == '\u{8}' {
        seq!['\\', 'b']
    } else if c == '\t' {
        seq!['\\', 't']
    } else if c == '\n' {
        seq!['\\', 'n']
    } else if c == '\u{c}' {
        seq!['\\', 'f']
    } else if c == '\r' {
        seq!['\\', 'r']
    } else if (c as u32) < 0x20 {
        seq!['\\', 'u', '0', '0', hex_digit((c as u32 / 16) as nat), hex_digit((c as u32 % 16) as nat)]
    } else {
        seq![c]
    }
}

/// The escaped characters of `s`, in order.
pub open spec fn json_escaped(s: Seq<char>) -> Seq<char>
    decreases s.len(),
{
    if s.len() == 0 {
        Seq::empty()
    } else {
        json_escaped(s.drop_last()) + json_escape_char(s.last())
    }
}

/// The JSON string literal that stands for `s`.
pub open spec fn json_string(s: Seq<char>) -> Seq<char> {
    seq!['"'] + json_escaped(s) + seq!['"']
}

proof fn lemma_json_escaped_one_line(s: Seq<char>)
    ensures
        absent(json_escaped(s), '\n'),
    decreases s.len(),
{
    if s.len() > 0 {
        lemma_json_escaped_one_line(s.drop_last());
        let a = json_escaped(s.drop_last());
        let e = json_escape_char(s.last());
        assert forall|i: int| 0 <= i < (a + e).len() implies #[trigger] (a + e)[i] != '\n' by {
            if i >= a.len() {
                assert((a + e)[i] == e[i - a.len()]);
            }
        }
    }
}

/// A JSON string literal holds no raw newline.
pub proof fn lemma_json_string_one_line(s: Seq<char>)
    ensures
        count_char(json_string(s), '\n') == 0,
{
    lemma_json_escaped_one_line(s);
    let w = json_string(s);
    assert forall|i: int| 0 <= i < w.len() implies w[i] != '\n' by {
        if 0 < i < w.len() - 1 {
            assert(w[i] == json_escaped(s)[i - 1]);
        }
    }
    lemma_count_char_absent(w, '\n');
}

/// Relies on `serde_json::Value::String` and its `Display`: compact output
/// writes a string as `json_string` does.
#[verifier::external_body]
fn quote_json(s: &str) -> (r: String)
    ensures
        r@ == json_string(s@),
{
    serde_json::Value::String(s.to_owned()).to_string()
}

/// Relies on `Instant::now`.
#[verifier::external_body]
fn instant_now() -> std::time::Instant {
    std::time::Instant::now()
}

/// Relies on `Instant::elapsed`: microseconds since `start`, whatever they are.
#[verifier::external_body]
fn micros_since(start: &std::time::Instant) -> u64 {
    start.elapsed().as_micros() as u64
}

/// The decimal digit `d`.
pub open spec fn digit_char(d: nat) -> char {
    if d == 0 { '0' } else if d == 1 { '1' } else if d == 2 { '2' } else if d == 3 { '3' }
    else if d == 4 { '4' } else if d == 5 { '5' } else if d == 6 { '6' } else if d == 7 { '7' }
    else if d == 8 { '8' } else { '9' }
}

/// `n` in decimal, without leading zeros.
pub open spec fn decimal(n: nat) -> Seq<char>
    decreases n,
{
    if n < 10 {
        seq![digit_char(n)]
    } else {
        decimal(n / 10).push(digit_char(n % 10))
    }
}

/// `d` left-padded with `'0'` to `width` characters.
pub open spec fn zero_pad(d: Seq<char>, width: nat) -> Seq<char> {
    if d.len() >= width {
        d
    } else {
        Seq::new((width - d.len()) as nat, |i: int| '0') + d
    }
}

/// `us` microseconds as seconds with six decimals.
pub open spec fn seconds_text(us: u64) -> Seq<char> {
    decimal((us / 1_000_000) as nat) + seq!['.'] + zero_pad(decimal((us % 1_000_000) as nat), 6)
}

/// The code and payload that a frame is recorded with, if any: output and
/// error text as output (`o`), input as input (`i`), a resize as a note on
/// the output; nothing for the other kinds.
pub open spec fn event_of(f: FrameView) -> Option<(char, Seq<char>)> {
    let payload = match f.data {
        Some(d) => d,
        None => Seq::empty(),
    };
    if f.frame_type == FrameType::Stdout || f.frame_type == FrameType::Stderr {
        Some(('o', payload))
    } else if f.frame_type == FrameType::Stdin {
        Some(('i', payload))
    } else if f.frame_type == FrameType::Resize && f.cols is Some && f.rows is Some {
        Some(('o', RESIZE_NOTE@))
    } else {
        None
    }
}

/// The line of one event.
pub open spec fn event_line(elapsed: u64, code: char, payload: Seq<char>) -> Seq<char> {
    seq!['['] + seconds_text(elapsed) + seq![',', ' ', '"', code, '"', ',', ' '] + json_string(
        payload,
    ) + seq![']']
}

/// The header line.
pub open spec fn header_line(
    width: u16,
    height: u16,
    timestamp: u64,
    command: Option<Seq<char>>,
    shell: Seq<char>,
    term: Seq<char>,
) -> Seq<char> {
    "{\"version\": 2, \"width\": "@ + decimal(width as nat) + ", \"height\": "@ + decimal(
        height as nat,
    ) + ", \"timestamp\": "@ + decimal(timestamp as nat) + ", \"title\": "@ + json_string(TITLE@)
        + match command {
        Some(c) => ", \"command\": "@ + json_string(c),
        None => Seq::empty(),
    } + ", \"env\": {\"SHELL\": "@ + json_string(shell) + ", \"TERM\": "@ + json_string(term)
        + "}}"@
}

/// The state of a recorder: the lines not yet handed out, the last elapsed
/// time recorded, and whether it has finished.
pub struct RecorderView {
    pub lines: Seq<Seq<char>>,
    pub last_elapsed: u64,
    pub finished: bool,
}

/// One frame offered to the recorder `elapsed` microseconds after it started.
pub open spec fn record_step(r: RecorderView, f: FrameView, elapsed: u64) -> RecorderView {
    match event_of(f) {
        Some((code, payload)) if !r.finished => {
            let t = if elapsed > r.last_elapsed { elapsed } else { r.last_elapsed };
            RecorderView { lines: r.lines.push(event_line(t, code, payload)), last_elapsed: t, ..r }
        },
        _ => r,
    }
}

proof fn lemma_decimal_one_line(n: nat)
    ensures
        count_char(decimal(n), '\n') == 0,
        forall|i: int| 0 <= i < decimal(n).len() ==> decimal(n)[i] != '\n',
    decreases n,
{
    if n >= 10 {
        lemma_decimal_one_line(n / 10);
    }
    lemma_count_char_absent(decimal(n), '\n');
}

proof fn lemma_seconds_one_line(us: u64)
    ensures
        count_char(seconds_text(us), '\n') == 0,
{
    let whole = decimal((us / 1_000_000) as nat);
    let frac = decimal((us % 1_000_000) as nat);
    lemma_decimal_one_line((us / 1_000_000) as nat);
    lemma_decimal_one_line((us % 1_000_000) as nat);
    let padded = zero_pad(frac, 6);
    assert forall|i: int| 0 <= i < padded.len() implies padded[i] != '\n' by {
        if frac.len() < 6 && i >= 6 - frac.len() {
            assert(padded[i] == frac[i - (6 - frac.len())]);
        }
    }
    lemma_count_char_absent(padded, '\n');
    lemma_count_char_absent(seq!['.'], '\n');
    lemma_count_char_concat(whole, seq!['.'], '\n');
    lemma_count_char_concat(whole + seq!['.'], padded, '\n');
}

/// Appends `s` to `out`.
fn push_text(out: &mut Vec<char>, s: &str)
    ensures
        final(out)@ == old(out)@ + s@,
{
    let mut c = chars_of(s);
    out.append(&mut c);
}

/// Appends `n` in decimal to `out`.
fn push_decimal(out: &mut Vec<char>, n: u64)
    ensures
        final(out)@ == old(out)@ + decimal(n as nat),
    decreases n,
{
    if n >= 10 {
        push_decimal(out, n / 10);
    }
    let d = n % 10;
    let c = if d == 0 { '0' } else if d == 1 { '1' } else if d == 2 { '2' } else if d == 3 { '3' }
    else if d == 4 { '4' } else if d == 5 { '5' } else if d == 6 { '6' } else if d == 7 { '7' }
    else if d == 8 { '8' } else { '9' };
    out.push(c);
}

/// Appends `us` microseconds as seconds with six decimals to `out`.
fn push_seconds(out: &mut Vec<char>, us: u64)
    ensures
        final(out)@ == old(out)@ + seconds_text(us),
{
    push_decimal(out, us / 1_000_000);
    out.push('.');
    let mut frac: Vec<char> = Vec::new();
    push_decimal(&mut frac, us % 1_000_000);
    let ghost d = frac@;
    let mut k: usize = frac.len();
    let ghost base = out@;
    while k < 6
        invariant
            frac@ == d,
            d.len() <= k <= 6 || (k == d.len() && k > 6),
            out@ == base + Seq::new((k - d.len()) as nat, |i: int| '0'),
        decreases 6 - k,
    {
        out.push('0');
        k = k + 1;
        assert(out@ =~= base + Seq::new((k - d.len()) as nat, |i: int| '0'));
    }
    out.append(&mut frac);
    proof {
        if d.len() >= 6 {
            assert(out@ =~= base + d);
        }
    }
}

/// The line of one event; unless the code is a newline, it holds none.
pub fn encode_event(elapsed: u64, code: char, payload: &str) -> (r: String)
    ensures
        r@ == event_line(elapsed, code, payload@),
        code != '\n' ==> count_char(r@, '\n') == 0,
{
    let mut out: Vec<char> = Vec::new();
    out.push('[');
    push_seconds(&mut out, elapsed);
    out.push(',');
    out.push(' ');
    out.push('"');
    out.push(code);
    out.push('"');
    out.push(',');
    out.push(' ');
    let q = quote_json(payload);
    proof {
        lemma_json_string_one_line(payload@);
    }
    push_text(&mut out, q.as_str());
    out.push(']');
    assert(out@ =~= event_line(elapsed, code, payload@));
    proof {
        let head = seq!['['];
        let mid = seq![',', ' ', '"', code, '"', ',', ' '];
        lemma_seconds_one_line(elapsed);
        if code != '\n' {
            lemma_count_char_absent(head, '\n');
            lemma_count_char_absent(mid, '\n');
            lemma_count_char_absent(seq![']'], '\n');
            lemma_count_char_concat(head, seconds_text(elapsed), '\n');
            lemma_count_char_concat(head + seconds_text(elapsed), mid, '\n');
            lemma_count_char_concat(head + seconds_text(elapsed) + mid, q@, '\n');
            lemma_count_char_concat(head + seconds_text(elapsed) + mid + q@, seq![']'], '\n');
        }
    }
    string_from(out.as_slice())
}

/// The header line.
pub fn encode_header(
    width: u16,
    height: u16,
    timestamp: u64,
    command: &Option<String>,
    shell: &str,
    term: &str,
) -> (r: String)
    ensures
        r@ == header_line(
            width,
            height,
            timestamp,
            text_view(*command),
            shell@,
            term@,
        ),
{
    let mut out: Vec<char> = Vec::new();
    push_text(&mut out, "{\"version\": 2, \"width\": ");
    push_decimal(&mut out, width as u64);
    push_text(&mut out, ", \"height\": ");
    push_decimal(&mut out, height as u64);
    push_text(&mut out, ", \"timestamp\": ");
    push_decimal(&mut out, timestamp);
    push_text(&mut out, ", \"title\": ");
    let title = quote_json(TITLE);
    push_text(&mut out, title.as_str());
    let ghost before_command = out@;
    match command {
        Some(c) => {
            push_text(&mut out, ", \"command\": ");
            let q = quote_json(c.as_str());
            push_text(&mut out, q.as_str());
        },
        None => {},
    }
    push_text(&mut out, ", \"env\": {\"SHELL\": ");
    let s = quote_json(shell);
    push_text(&mut out, s.as_str());
    push_text(&mut out, ", \"TERM\": ");
    let t = quote_json(term);
    push_text(&mut out, t.as_str());
    push_text(&mut out, "}}");
    assert(out@ =~= header_line(
        width,
        height,
        timestamp,
        text_view(*command),
        shell@,
        term@,
    ));
    string_from(out.as_slice())
}

/// Frames offered at the elapsed times `ts`, in order.
pub open spec fn record_all(r: RecorderView, fs: Seq<FrameView>, ts: Seq<u64>) -> RecorderView
    decreases fs.len(),
{
    if fs.len() == 0 || ts.len() == 0 {
        r
    } else {
        record_step(record_all(r, fs.drop_last(), ts.drop_last()), fs.last(), ts.last())
    }
}

/// The events that frames offered at `ts` become, each with the elapsed time
/// it is written with, starting after an event at `last`; and the last such time.
pub open spec fn record_trace(last: u64, fs: Seq<FrameView>, ts: Seq<u64>) -> (
    u64,
    Seq<(u64, char, Seq<char>)>,
)
    decreases fs.len(),
{
    if fs.len() == 0 || ts.len() == 0 {
        (last, Seq::empty())
    } else {
        let (l, evs) = record_trace(last, fs.drop_last(), ts.drop_last());
        match event_of(fs.last()) {
            Some((code, payload)) => {
                let t = if ts.last() > l { ts.last() } else { l };
                (t, evs.push((t, code, payload)))
            },
            None => (l, evs),
        }
    }
}

/// The code and payload of every frame of `fs` that is recorded, in order.
pub open spec fn recorded_events(fs: Seq<FrameView>) -> Seq<(char, Seq<char>)>
    decreases fs.len(),
{
    if fs.len() == 0 {
        Seq::empty()
    } else {
        match event_of(fs.last()) {
            Some(e) => recorded_events(fs.drop_last()).push(e),
            None => recorded_events(fs.drop_last()),
        }
    }
}

/// The lines of a trace of events.
pub open spec fn trace_lines(evs: Seq<(u64, char, Seq<char>)>) -> Seq<Seq<char>> {
    evs.map_values(|e: (u64, char, Seq<char>)| event_line(e.0, e.1, e.2))
}

/// Recording keeps order and time: while the recorder is open, the frames
/// offered to it add one line each for exactly the recorded frames, in the
/// order offered, and the elapsed times on those lines never decrease and
/// never fall below the last one already written.
pub proof fn lemma_recording_order(r: RecorderView, fs: Seq<FrameView>, ts: Seq<u64>)
    requires
        !r.finished,
        fs.len() == ts.len(),
    ensures
        record_all(r, fs, ts).lines == r.lines + trace_lines(record_trace(r.last_elapsed, fs, ts).1),
        record_all(r, fs, ts).last_elapsed == record_trace(r.last_elapsed, fs, ts).0,
        record_trace(r.last_elapsed, fs, ts).1.map_values(
            |e: (u64, char, Seq<char>)| (e.1, e.2),
        ) == recorded_events(fs),
        forall|i: int, j: int|
            0 <= i <= j < record_trace(r.last_elapsed, fs, ts).1.len() ==> r.last_elapsed
                <= #[trigger] record_trace(r.last_elapsed, fs, ts).1[i].0 <= #[trigger] record_trace(
                r.last_elapsed,
                fs,
                ts,
            ).1[j].0 <= record_trace(r.last_elapsed, fs, ts).0,
        r.last_elapsed <= record_trace(r.last_elapsed, fs, ts).0,
        !record_all(r, fs, ts).finished,
    decreases fs.len(),
{
    if fs.len() == 0 {
        assert(r.lines + trace_lines(Seq::empty()) == r.lines);
        assert(Seq::<(u64, char, Seq<char>)>::empty().map_values(
            |e: (u64, char, Seq<char>)| (e.1, e.2),
        ) == Seq::<(char, Seq<char>)>::empty());
    } else {
        lemma_recording_order(r, fs.drop_last(), ts.drop_last());
        let (l, evs) = record_trace(r.last_elapsed, fs.drop_last(), ts.drop_last());
        match event_of(fs.last()) {
            Some((code, payload)) => {
                let t = if ts.last() > l { ts.last() } else { l };
                assert(trace_lines(evs.push((t, code, payload))) == trace_lines(evs).push(
                    event_line(t, code, payload),
                ));
                assert(evs.push((t, code, payload)).map_values(
                    |e: (u64, char, Seq<char>)| (e.1, e.2),
                ) == evs.map_values(|e: (u64, char, Seq<char>)| (e.1, e.2)).push((code, payload)));
                let all = evs.push((t, code, payload));
                assert forall|i: int, j: int| 0 <= i <= j < all.len() implies r.last_elapsed
                    <= #[trigger] all[i].0 <= #[trigger] all[j].0 <= t by {
                    if j < evs.len() {
                        assert(all[i] == evs[i] && all[j] == evs[j]);
                    } else if i < evs.len() {
                        assert(all[i] == evs[i]);
                    }
                }
            },
            None => {},
        }
    }
}

/// A recorder: the header line first, then one line per recorded frame.
pub struct AsciinemaRecorder {
    lines: Vec<String>,
    start: std::time::Instant,
    last_elapsed: u64,
    finished: bool,
}

/// The texts of a sequence of strings.
pub open spec fn texts(v: Seq<String>) -> Seq<Seq<char>> {
    v.map_values(|s: String| s@)
}

impl View for AsciinemaRecorder {
    type V = RecorderView;

    closed spec fn view(&self) -> RecorderView {
        RecorderView { lines: texts(self.lines@), last_elapsed: self.last_elapsed, finished: self.finished }
    }
}

impl AsciinemaRecorder {
    /// A recorder for a `width` x `height` terminal running `command`, whose
    /// environment has the shell `shell` and terminal type `term`; its header
    /// line is ready, stamped with the current time.
    pub fn new(width: u16, height: u16, command: Option<String>, shell: String, term: String) -> (r:
        AsciinemaRecorder)
        ensures
            exists|timestamp: u64|
                r@ == (RecorderView {
                    lines: seq![
                        #[trigger] header_line(
                            width,
                            height,
                            timestamp,
                            text_view(command),
                            shell@,
                            term@,
                        ),
                    ],
                    last_elapsed: 0,
                    finished: false,
                }),
    {
        let timestamp = unix_micros() / 1_000_000;
        let header = encode_header(width, height, timestamp, &command, shell.as_str(), term.as_str());
        let lines = vec![header];
        let r = AsciinemaRecorder { lines, start: instant_now(), last_elapsed: 0, finished: false };
        assert(texts(r.lines@) =~= seq![header@]);
        r
    }

    /// Records `frame` at the time elapsed since the recorder started.
    pub fn record_frame(&mut self, frame: &Frame)
        ensures
            exists|elapsed: u64| final(self)@ == #[trigger] record_step(old(self)@, frame@, elapsed),
            forall|i: int|
                old(self)@.lines.len() <= i < final(self)@.lines.len() ==> count_char(
                    #[trigger] final(self)@.lines[i],
                    '\n',
                ) == 0,
    {
        let elapsed = micros_since(&self.start);
        self.record_frame_at(frame, elapsed);
    }

    /// Records `frame` as offered `elapsed` microseconds after the start; a
    /// clock that went back is held at the last time recorded.
    pub fn record_frame_at(&mut self, frame: &Frame, elapsed: u64)
        ensures
            final(self)@ == record_step(old(self)@, frame@, elapsed),
            forall|i: int|
                old(self)@.lines.len() <= i < final(self)@.lines.len() ==> count_char(
                    #[trigger] final(self)@.lines[i],
                    '\n',
                ) == 0,
    {
        if self.finished {
            return;
        }
        let code = match frame.frame_type {
            FrameType::Stdout | FrameType::Stderr => 'o',
            FrameType::Stdin => 'i',
            FrameType::Resize => {
                if frame.cols.is_some() && frame.rows.is_some() {
                    'o'
                } else {
                    return;
                }
            },
            _ => {
                return;
            },
        };
        let t = if elapsed > self.last_elapsed {
            elapsed
        } else {
            self.last_elapsed
        };
        let line = if frame.frame_type == FrameType::Resize {
            encode_event(t, code, RESIZE_NOTE)
        } else {
            match &frame.data {
                Some(d) => encode_event(t, code, d.as_str()),
                None => {
                    proof {
                        reveal_strlit("");
                        assert(""@ =~= Seq::<char>::empty());
                    }
                    encode_event(t, code, "")
                },
            }
        };
        let ghost ev = event_of(frame@)->0;
        assert(line@ == event_line(t, ev.0, ev.1));
        let ghost before = self.lines@;
        self.lines.push(line);
        assert(texts(self.lines@) =~= texts(before).push(line@));
        self.last_elapsed = t;
    }

    /// Hands out the lines not yet handed out, oldest first.
    pub fn take_lines(&mut self) -> (r: Vec<String>)
        ensures
            texts(r@) == old(self)@.lines,
            final(self)@ == (RecorderView { lines: Seq::empty(), ..old(self)@ }),
    {
        let mut r: Vec<String> = Vec::new();
        std::mem::swap(&mut r, &mut self.lines);
        assert(texts(self.lines@) =~= Seq::empty());
        r
    }

    /// Ends the recording: later frames are not recorded.
    pub fn finish(&mut self)
        ensures
            final(self)@ == (RecorderView { finished: true, ..old(self)@ }),
    {
        self.finished = true;
    }

    /// Whether the recording has ended.
    pub fn is_finished(&self) -> (r: bool)
        ensures
            r == self@.finished,
    {
        self.finished
    }
}

/// At most one active recorder for a session.
pub struct RecordingManager {
    recorder: Option<AsciinemaRecorder>,
}

impl View for RecordingManager {
    type V = Option<RecorderView>;

    closed spec fn view(&self) -> Option<RecorderView> {
        match self.recorder {
            Some(r) => Some(r@),
            None => None,
        }
    }
}

impl RecordingManager {
    /// A manager with no recording.
    pub fn new() -> (r: RecordingManager)
        ensures
            r@ is None,
    {
        RecordingManager { recorder: None }
    }

    /// Starts a recording, replacing any earlier one.
    pub fn start_recording(
        &mut self,
        width: u16,
        height: u16,
        command: Option<String>,
        shell: String,
        term: String,
    )
        ensures
            final(self)@ is Some,
            exists|timestamp: u64|
                final(self)@ == Some(
                    RecorderView {
                        lines: seq![
                            #[trigger] header_line(
                                width,
                                height,
                                timestamp,
                                text_view(command),
                                shell@,
                                term@,
                            ),
                        ],
                        last_elapsed: 0,
                        finished: false,
                    },
                ),
    {
        self.recorder = Some(AsciinemaRecorder::new(width, height, command, shell, term));
    }

    /// Records `frame` when a recording is active.
    pub fn record_frame(&mut self, frame: &Frame)
        ensures
            old(self)@ is None ==> final(self)@ is None,
            old(self)@ is Some ==> exists|elapsed: u64|
                final(self)@ == Some(#[trigger] record_step(old(self)@->0, frame@, elapsed)),
    {
        let ghost s0 = self@;
        let mut taken: Option<AsciinemaRecorder> = None;
        std::mem::swap(&mut taken, &mut self.recorder);
        match taken {
            Some(mut r) => {
                let ghost before = r@;
                assert(before == s0->0);
                r.record_frame(frame);
                let ghost e = choose|e: u64| r@ == #[trigger] record_step(before, frame@, e);
                self.recorder = Some(r);
                assert(self@ == Some(record_step(s0->0, frame@, e)));
            },
            None => {},
        }
    }

    /// Hands out the active recording's lines not yet handed out.
    pub fn take_lines(&mut self) -> (r: Vec<String>)
        ensures
            old(self)@ is None ==> r@.len() == 0 && final(self)@ is None,
            old(self)@ is Some ==> texts(r@) == old(self)@->0.lines && final(self)@ == Some(
                RecorderView { lines: Seq::empty(), ..old(self)@->0 },
            ),
    {
        match &mut self.recorder {
            Some(rec) => rec.take_lines(),
            None => Vec::new(),
        }
    }

    /// Ends the active recording, if any, and hands out its remaining lines;
    /// afterwards nothing is recorded. A second call finds nothing to end.
    pub fn stop_recording(&mut self) -> (r: Vec<String>)
        ensures
            final(self)@ is None,
            old(self)@ is None ==> r@.len() == 0,
            old(self)@ is Some ==> texts(r@) == old(self)@->0.lines,
    {
        let mut taken: Option<AsciinemaRecorder> = None;
        std::mem::swap(&mut taken, &mut self.recorder);
        match taken {
            Some(mut rec) => {
                rec.finish();
                rec.take_lines()
            },
            None => Vec::new(),
        }
    }

    /// Whether a recording is active.
    pub fn is_recording(&self) -> (r: bool)
        ensures
            r == self@ is Some,
    {
        self.recorder.is_some()
    }
}

} // verus!
