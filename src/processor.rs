//! The output pipeline: a per-run transform from raw frames to the frames
//! that are emitted, selected by the token mode.

use vstd::prelude::*;
use vstd::string::StrSliceExecFns;
use crate::cli::TokenMode;
use crate::frame::{bare, views, Frame, FrameType, FrameView};
use crate::pattern::{
    erase_matches, find_in, has_csi, lemma_csi_in_prefix, lemma_csi_in_suffix, lemma_csi_same_span,
    lemma_csi_shape, lemma_csi_split_at_newline, lemma_strip_all_leaves_none, lemma_strip_csi_pass, csi_len, progress_shape, strip_csi, regex_valid, strip_all, Pattern, PatternError, CSI_PATTERN,
    PROGRESS_PATTERN,
};
use crate::text::{
    absent, chars_of, contains_seq, contains_word, count_char, count_of, last_newline,
    lemma_count_char_present, lemma_last_newline_shape, lemma_normalize_fixed, lemma_normalize_no_cr, lemma_trim_end_shape, lemma_trim_lines_absent,
    lemma_trim_lines_idempotent, normalize,
    normalize_newlines, string_from, trim_end, trim_line_ends, trim_lines,
};

verus! {

/// Byte size past which the line buffer is emitted even without a newline.
pub const LINE_LIMIT: usize = 512;

/// Bytes that `c` takes in UTF-8.
pub open spec fn char_width(c: char) -> nat {
    if (c as u32) < 0x80 {
        1
    } else if (c as u32) < 0x800 {
        2
    } else if (c as u32) < 0x10000 {
        3
    } else {
        4
    }
}

/// Bytes that `s` takes in UTF-8.
pub open spec fn utf8_len(s: Seq<char>) -> nat
    decreases s.len(),
{
    if s.len() == 0 {
        0
    } else {
        utf8_len(s.drop_last()) + char_width(s.last())
    }
}

/// A payload with control sequences removed until none is left, line ends
/// normalised and trailing whitespace trimmed from every line.
pub open spec fn clean(s: Seq<char>) -> Seq<char> {
    trim_lines(normalize_newlines(strip_all(s)))
}

proof fn lemma_normalize_prefix(s: Seq<char>, m: int)
    requires
        0 <= m <= normalize_newlines(s).len(),
        forall|k: int| 0 <= k < m ==> #[trigger] normalize_newlines(s)[k] != '\n',
    ensures
        s.len() >= m,
        forall|k: int| 0 <= k < m ==> s[k] == #[trigger] normalize_newlines(s)[k],
    decreases s.len(),
{
    if s.len() > 0 && m > 0 {
        let t = normalize_newlines(s);
        assert(t[0] != '\n');
        let rest = normalize_newlines(s.skip(1));
        assert(t == seq![s[0]] + rest);
        assert forall|k: int| 0 <= k < m - 1 implies #[trigger] rest[k] != '\n' by {
            assert(rest[k] == t[k + 1]);
        }
        lemma_normalize_prefix(s.skip(1), m - 1);
        assert forall|k: int| 0 <= k < m implies s[k] == #[trigger] t[k] by {
            if k > 0 {
                assert(rest[k - 1] == t[k]);
                assert(s.skip(1)[k - 1] == s[k]);
            }
        }
    }
}

proof fn lemma_normalize_keeps_none(s: Seq<char>)
    requires
        !has_csi(s),
    ensures
        !has_csi(normalize_newlines(s)),
    decreases s.len(),
{
    let t = normalize_newlines(s);
    if s.len() > 0 && has_csi(t) {
        let n: int = if s.len() >= 2 && s[0] == '\r' && s[1] == '\n' { 2 } else { 1 };
        let rest = normalize_newlines(s.skip(n));
        assert(t == seq![t[0]] + rest);
        let i = choose|i: int| 0 <= i < t.len() && #[trigger] csi_len(t.skip(i)) > 0;
        if i > 0 {
            assert(t.skip(i) == rest.skip(i - 1));
            assert(csi_len(rest.skip(i - 1)) > 0);
            if !has_csi(s.skip(n)) {
                lemma_normalize_keeps_none(s.skip(n));
            }
            lemma_csi_in_suffix(s, n);
        } else {
            assert(t.skip(0) == t);
            lemma_csi_shape(t);
            lemma_normalize_prefix(s, csi_len(t));
            lemma_csi_same_span(t, s);
            assert(s.skip(0) == s);
            assert(csi_len(s.skip(0)) > 0);
        }
    }
}

proof fn lemma_trim_keeps_none(s: Seq<char>)
    requires
        !has_csi(s),
    ensures
        !has_csi(trim_lines(s)),
    decreases s.len(),
{
    let k = last_newline(s);
    if 0 <= k < s.len() {
        let a = trim_lines(s.take(k));
        let b = trim_end(s.skip(k + 1));
        if has_csi(a + seq!['\n'] + b) {
            lemma_csi_split_at_newline(a, b);
            if has_csi(a) {
                if !has_csi(s.take(k)) {
                    lemma_trim_keeps_none(s.take(k));
                }
                lemma_csi_in_prefix(s, k);
            } else {
                lemma_trim_end_shape(s.skip(k + 1));
                lemma_csi_in_prefix(s.skip(k + 1), b.len() as int);
                lemma_csi_in_suffix(s, k + 1);
            }
        }
    } else {
        lemma_trim_end_shape(s);
        if has_csi(trim_end(s)) {
            lemma_csi_in_prefix(s, trim_end(s).len() as int);
        }
    }
}

/// Cleaned text holds no control sequence: stripping leaves none, and
/// neither normalising line ends nor trimming lines can form one.
pub proof fn lemma_clean_leaves_none(s: Seq<char>)
    ensures
        !has_csi(clean(s)),
{
    lemma_strip_all_leaves_none(s);
    lemma_normalize_keeps_none(strip_all(s));
    lemma_trim_keeps_none(normalize_newlines(strip_all(s)));
}

proof fn lemma_strip_csi_keeps_char(s: Seq<char>, c: char)
    requires
        c == '\n' || c == '\r',
        !absent(s, c),
    ensures
        !absent(strip_csi(s), c),
    decreases s.len(),
{
    let i = choose|i: int| 0 <= i < s.len() && s[i] == c;
    if csi_len(s) > 0 {
        let m = csi_len(s);
        lemma_csi_shape(s);
        assert(i >= m);
        assert(s.skip(m)[i - m] == c);
        lemma_strip_csi_keeps_char(s.skip(m), c);
    } else {
        let rest = strip_csi(s.skip(1));
        if i == 0 {
            assert((seq![s[0]] + rest)[0] == c);
        } else {
            assert(s.skip(1)[i - 1] == c);
            lemma_strip_csi_keeps_char(s.skip(1), c);
            let j = choose|j: int| 0 <= j < rest.len() && rest[j] == c;
            assert((seq![s[0]] + rest)[j + 1] == c);
        }
    }
}

proof fn lemma_strip_all_keeps_char(s: Seq<char>, c: char)
    requires
        c == '\n' || c == '\r',
        !absent(s, c),
    ensures
        !absent(strip_all(s), c),
    decreases s.len(),
{
    lemma_strip_csi_pass(s);
    if has_csi(s) {
        lemma_strip_csi_keeps_char(s, c);
        lemma_strip_all_keeps_char(strip_csi(s), c);
    }
}

proof fn lemma_normalize_keeps_break(s: Seq<char>)
    requires
        !absent(s, '\n') || !absent(s, '\r'),
    ensures
        !absent(normalize_newlines(s), '\n'),
    decreases s.len(),
{
    let t = normalize_newlines(s);
    if s[0] == '\r' || s[0] == '\n' {
        assert(t[0] == '\n');
    } else {
        let rest = normalize_newlines(s.skip(1));
        assert(t == seq![s[0]] + rest);
        let i = choose|i: int| 0 <= i < s.len() && (s[i] == '\n' || s[i] == '\r');
        assert(s.skip(1)[i - 1] == s[i]);
        lemma_normalize_keeps_break(s.skip(1));
        let j = choose|j: int| 0 <= j < rest.len() && rest[j] == '\n';
        assert(t[j + 1] == '\n');
    }
}

/// A line terminator in a payload survives cleaning as a newline.
pub proof fn lemma_terminator_survives(s: Seq<char>)
    requires
        !absent(s, '\n') || !absent(s, '\r'),
    ensures
        count_char(clean(s), '\n') > 0,
{
    if !absent(s, '\n') {
        lemma_strip_all_keeps_char(s, '\n');
    } else {
        lemma_strip_all_keeps_char(s, '\r');
    }
    let n = normalize_newlines(strip_all(s));
    lemma_normalize_keeps_break(strip_all(s));
    lemma_last_newline_shape(n);
    let k = last_newline(n);
    let c = clean(s);
    assert(0 <= k);
    let a = trim_lines(n.take(k));
    assert(c[a.len() as int] == '\n');
    lemma_count_char_present(c, '\n', a.len() as int);
}

/// Cleaning is idempotent: cleaning already cleaned text yields it unchanged.
pub proof fn lemma_clean_idempotent(s: Seq<char>)
    ensures
        clean(clean(s)) == clean(s),
{
    let c = clean(s);
    lemma_clean_leaves_none(s);
    assert(strip_all(c) == c);
    lemma_normalize_no_cr(strip_all(s));
    lemma_trim_lines_absent(normalize_newlines(strip_all(s)), '\r');
    lemma_normalize_fixed(c);
    lemma_trim_lines_idempotent(normalize_newlines(strip_all(s)));
}

/// Whether cleaned text reads as a transient progress indicator: a
/// progress glyph, percentage, bar or keyword, or more than two carriage
/// returns.
pub open spec fn is_progress(t: Seq<char>) -> bool {
    progress_shape(t) || contains_seq(t, "downloading"@) || contains_seq(
        t,
        "installing"@,
    ) || contains_seq(t, "loading"@) || contains_seq(t, "progress"@) || count_char(t, '\r') > 2
}

/// Whether a frame carries terminal output text.
pub open spec fn is_output(f: FrameView) -> bool {
    (f.frame_type == FrameType::Stdout || f.frame_type == FrameType::Stderr) && f.data is Some
}

/// The state of a processor.
pub struct ProcessorView {
    pub mode: TokenMode,
    pub line_buffer: Seq<char>,
    pub last_line_update: Option<Seq<char>>,
    pub queued: Seq<FrameView>,
}

/// One frame through the compact transform: the next state and what is emitted.
pub open spec fn compact_step(p: ProcessorView, f: FrameView) -> (ProcessorView, Seq<FrameView>) {
    if is_output(f) {
        let c = clean(f.data->0);
        if is_progress(c) {
            if p.last_line_update == Some(c) {
                (p, Seq::empty())
            } else {
                (
                    ProcessorView { last_line_update: Some(c), ..p },
                    seq![FrameView { frame_type: FrameType::LineUpdate, data: Some(c), ..f }],
                )
            }
        } else {
            let buf = p.line_buffer + c;
            if count_char(c, '\n') > 0 || utf8_len(buf) > LINE_LIMIT {
                (
                    ProcessorView { line_buffer: Seq::empty(), ..p },
                    seq![FrameView { data: Some(buf), ..f }],
                )
            } else {
                (ProcessorView { line_buffer: buf, ..p }, Seq::empty())
            }
        }
    } else {
        (p, seq![f])
    }
}

/// One frame through the processor, by its mode.
pub open spec fn process_step(p: ProcessorView, f: FrameView) -> (ProcessorView, Seq<FrameView>) {
    match p.mode {
        TokenMode::Raw => (p, seq![f]),
        _ => compact_step(p, f),
    }
}

/// A sequence of frames through the processor, in order: the final state and
/// everything emitted.
pub open spec fn process_all(p: ProcessorView, fs: Seq<FrameView>) -> (ProcessorView, Seq<FrameView>)
    decreases fs.len(),
{
    if fs.len() == 0 {
        (p, Seq::empty())
    } else {
        let (q, out) = process_all(p, fs.drop_last());
        let (q2, out2) = process_step(q, fs.last());
        (q2, out + out2)
    }
}

/// The cleaned payloads of `fs`, concatenated in order.
pub open spec fn cleaned_concat(fs: Seq<FrameView>) -> Seq<char>
    decreases fs.len(),
{
    if fs.len() == 0 {
        Seq::empty()
    } else {
        cleaned_concat(fs.drop_last()) + clean(fs.last().data->0)
    }
}

/// A `stdout` fragment whose cleaned text is no progress indicator.
pub open spec fn plain_fragment(f: FrameView) -> bool {
    f.frame_type == FrameType::Stdout && f.data is Some && !is_progress(clean(f.data->0))
}

proof fn lemma_utf8_len_concat(a: Seq<char>, b: Seq<char>)
    ensures
        utf8_len(a + b) == utf8_len(a) + utf8_len(b),
    decreases b.len(),
{
    if b.len() == 0 {
        assert(a + b == a);
    } else {
        assert((a + b).drop_last() == a + b.drop_last());
        lemma_utf8_len_concat(a, b.drop_last());
    }
}

/// Progress de-duplication: when two output frames in a row clean to the
/// same progress text, the second emits nothing, and the first emits at most
/// one frame: a `line_update` with that text unless that text was already
/// the last one reported.
pub proof fn lemma_progress_dedup(p: ProcessorView, f1: FrameView, f2: FrameView)
    requires
        p.mode != TokenMode::Raw,
        is_output(f1),
        is_output(f2),
        clean(f1.data->0) == clean(f2.data->0),
        is_progress(clean(f1.data->0)),
    ensures
        process_step(process_step(p, f1).0, f2).1 == Seq::<FrameView>::empty(),
        process_step(p, f1).1.len() <= 1,
        p.last_line_update == Some(clean(f1.data->0)) ==> process_step(p, f1).1.len() == 0,
        p.last_line_update != Some(clean(f1.data->0)) ==> process_step(p, f1).1.len() == 1
            && process_step(p, f1).1[0].frame_type == FrameType::LineUpdate
            && process_step(p, f1).1[0].data == Some(clean(f1.data->0)),
{
}

/// Coalescing: `stdout` fragments that are no progress text, hold no newline
/// once cleaned, and keep the buffer within `LINE_LIMIT` bytes emit nothing
/// and accumulate; the next such fragment whose payload holds a line
/// terminator, or that takes the buffer past the limit, emits exactly one
/// frame holding the whole concatenation.
pub proof fn lemma_coalescing(p: ProcessorView, fs: Seq<FrameView>, last: FrameView)
    requires
        p.mode != TokenMode::Raw,
        forall|i: int|
            0 <= i < fs.len() ==> plain_fragment(#[trigger] fs[i]) && count_char(
                clean(fs[i].data->0),
                '\n',
            ) == 0,
        utf8_len(p.line_buffer + cleaned_concat(fs)) <= LINE_LIMIT,
    ensures
        process_all(p, fs).1 == Seq::<FrameView>::empty(),
        process_all(p, fs).0 == (ProcessorView { line_buffer: p.line_buffer + cleaned_concat(fs), ..p }),
        plain_fragment(last) && (!absent(last.data->0, '\n') || !absent(last.data->0, '\r')
            || utf8_len(
            p.line_buffer + cleaned_concat(fs.push(last)),
        ) > LINE_LIMIT) ==> process_all(p, fs.push(last)).1 == seq![
            FrameView { data: Some(p.line_buffer + cleaned_concat(fs.push(last))), ..last },
        ],
    decreases fs.len(),
{
    if fs.len() == 0 {
        assert(p.line_buffer + cleaned_concat(fs) == p.line_buffer);
    } else {
        let init = fs.drop_last();
        assert forall|i: int| 0 <= i < init.len() implies plain_fragment(#[trigger] init[i])
            && count_char(clean(init[i].data->0), '\n') == 0 by {
            assert(init[i] == fs[i]);
        }
        let c = clean(fs.last().data->0);
        assert(p.line_buffer + cleaned_concat(fs) == (p.line_buffer + cleaned_concat(init)) + c);
        lemma_utf8_len_concat(p.line_buffer + cleaned_concat(init), c);
        lemma_coalescing(p, init, fs.last());
        assert(fs.len() - 1 < fs.len() && plain_fragment(fs[fs.len() - 1]));
    }
    if plain_fragment(last) && (!absent(last.data->0, '\n') || !absent(last.data->0, '\r')) {
        lemma_terminator_survives(last.data->0);
    }
    assert(fs.push(last).drop_last() == fs);
    assert(p.line_buffer + cleaned_concat(fs.push(last)) == (p.line_buffer + cleaned_concat(fs)) + clean(last.data->0));
    assert(Seq::<FrameView>::empty() + seq![
        FrameView { data: Some(p.line_buffer + cleaned_concat(fs.push(last))), ..last },
    ] == seq![FrameView { data: Some(p.line_buffer + cleaned_concat(fs.push(last))), ..last }]);
}

/// Raw mode passes every sequence of frames through unchanged.
pub proof fn lemma_raw_passes_all(p: ProcessorView, fs: Seq<FrameView>)
    requires
        p.mode == TokenMode::Raw,
    ensures
        process_all(p, fs) == (p, fs),
    decreases fs.len(),
{
    if fs.len() > 0 {
        lemma_raw_passes_all(p, fs.drop_last());
        assert(fs.drop_last() + seq![fs.last()] == fs);
    } else {
        assert(fs == Seq::<FrameView>::empty());
    }
}

/// Transforms frames according to a token mode.
pub struct OutputProcessor {
    mode: TokenMode,
    line_buffer: Vec<char>,
    ansi_strip: Pattern,
    progress: Pattern,
    last_line_update: Option<String>,
    frame_buffer: Vec<Frame>,
}

impl View for OutputProcessor {
    type V = ProcessorView;

    closed spec fn view(&self) -> ProcessorView {
        ProcessorView {
            mode: self.mode,
            line_buffer: self.line_buffer@,
            last_line_update: match self.last_line_update {
                Some(s) => Some(s@),
                None => None,
            },
            queued: views(self.frame_buffer@),
        }
    }
}

/// Bytes that `c` takes in UTF-8.
fn utf8_width(c: char) -> (r: usize)
    ensures
        r == char_width(c),
{
    let u = c as u32;
    if u < 0x80 {
        1
    } else if u < 0x800 {
        2
    } else if u < 0x10000 {
        3
    } else {
        4
    }
}

/// Whether `s` takes more than `limit` bytes in UTF-8.
fn utf8_exceeds(s: &[char], limit: usize) -> (r: bool)
    requires
        limit < usize::MAX - 4,
    ensures
        r == (utf8_len(s@) > limit),
{
    let mut total: usize = 0;
    let mut i: usize = 0;
    while i < s.len()
        invariant
            i <= s@.len(),
            limit < usize::MAX - 4,
            total == if utf8_len(s@.take(i as int)) > limit + 1 {
                (limit + 1) as nat
            } else {
                utf8_len(s@.take(i as int))
            },
        decreases s@.len() - i,
    {
        assert(s@.take(i + 1).drop_last() == s@.take(i as int));
        total = total + utf8_width(s[i]);
        if total > limit + 1 {
            total = limit + 1;
        }
        i = i + 1;
    }
    assert(s@.take(i as int) == s@);
    total > limit
}

impl OutputProcessor {
    /// The two built-in patterns are in place.
    pub closed spec fn wf(&self) -> bool {
        self.ansi_strip@ == CSI_PATTERN@ && self.progress@ == PROGRESS_PATTERN@
    }

    /// A processor in `mode` with empty buffers; fails only if a built-in
    /// pattern does not compile.
    pub fn new(mode: TokenMode) -> (r: Result<OutputProcessor, PatternError>)
        ensures
            r is Ok <==> regex_valid(CSI_PATTERN@) && regex_valid(PROGRESS_PATTERN@),
            r is Ok ==> r->Ok_0.wf() && r->Ok_0@ == (ProcessorView {
                mode,
                line_buffer: Seq::empty(),
                last_line_update: None,
                queued: Seq::empty(),
            }),
    {
        let ansi_strip = Pattern::new(CSI_PATTERN)?;
        let progress = Pattern::new(PROGRESS_PATTERN)?;
        let r = OutputProcessor {
            mode,
            line_buffer: Vec::new(),
            ansi_strip,
            progress,
            last_line_update: None,
            frame_buffer: Vec::new(),
        };
        assert(views(r.frame_buffer@) =~= Seq::empty());
        Ok(r)
    }

    /// Passes `frame` through the transform of this processor's mode; returns
    /// the frames to emit, possibly none.
    pub fn process_frame(&mut self, frame: Frame) -> (r: Vec<Frame>)
        requires
            old(self).wf(),
        ensures
            final(self).wf(),
            (final(self)@, views(r@)) == process_step(old(self)@, frame@),
    {
        match self.mode {
            TokenMode::Raw => {
                let r = vec![frame];
                assert(views(r@) =~= seq![frame@]);
                r
            },
            TokenMode::Compact => self.process_compact(frame),
            TokenMode::Parsed => self.process_parsed(frame),
        }
    }

    fn process_compact(&mut self, frame: Frame) -> (r: Vec<Frame>)
        requires
            old(self).wf(),
        ensures
            final(self).wf(),
            (final(self)@, views(r@)) == compact_step(old(self)@, frame@),
    {
        let is_out = (frame.frame_type == FrameType::Stdout || frame.frame_type
            == FrameType::Stderr) && frame.data.is_some();
        if !is_out {
            let r = vec![frame];
            assert(views(r@) =~= seq![frame@]);
            return r;
        }
        let mut cleaned = match &frame.data {
            Some(d) => self.clean_output(d.as_str()),
            None => Vec::new(),
        };
        if self.is_progress_update(cleaned.as_slice()) {
            return self.handle_progress_update(frame, cleaned);
        }
        let has_newline = count_of(cleaned.as_slice(), '\n') > 0;
        self.line_buffer.append(&mut cleaned);
        if has_newline || utf8_exceeds(self.line_buffer.as_slice(), LINE_LIMIT) {
            let text = string_from(self.line_buffer.as_slice());
            self.line_buffer = Vec::new();
            let mut f = frame;
            f.data = Some(text);
            let r = vec![f];
            assert(views(r@) =~= seq![f@]);
            r
        } else {
            let r: Vec<Frame> = Vec::new();
            assert(views(r@) =~= Seq::empty());
            r
        }
    }

    /// The parsed mode: the compact transform, with no further pass yet.
    fn process_parsed(&mut self, frame: Frame) -> (r: Vec<Frame>)
        requires
            old(self).wf(),
        ensures
            final(self).wf(),
            (final(self)@, views(r@)) == compact_step(old(self)@, frame@),
    {
        self.process_compact(frame)
    }

    /// The cleaned characters of `data`.
    pub fn clean_output(&self, data: &str) -> (r: Vec<char>)
        requires
            self.wf(),
        ensures
            r@ == clean(data@),
    {
        let mut stripped: String = data.to_owned();
        let mut done = false;
        while !done
            invariant
                self.wf(),
                strip_all(stripped@) == strip_all(data@),
                done ==> strip_all(stripped@) == stripped@,
            decreases stripped@.len() + if done {
                0int
            } else {
                1int
            },
        {
            let next = erase_matches(&self.ansi_strip, stripped.as_str());
            proof {
                lemma_strip_csi_pass(stripped@);
            }
            if next.as_str().unicode_len() < stripped.as_str().unicode_len() {
                stripped = next;
            } else {
                done = true;
            }
        }
        let chars = chars_of(stripped.as_str());
        let normalized = normalize(chars.as_slice());
        trim_line_ends(normalized.as_slice())
    }

    fn is_progress_update(&self, data: &[char]) -> (r: bool)
        requires
            self.wf(),
        ensures
            r == is_progress(data@),
    {
        let text = string_from(data);
        find_in(&self.progress, text.as_str()) || contains_word(
            data,
            chars_of("downloading").as_slice(),
        ) || contains_word(data, chars_of("installing").as_slice()) || contains_word(
            data,
            chars_of("loading").as_slice(),
        ) || contains_word(data, chars_of("progress").as_slice()) || count_of(data, '\r') > 2
    }

    fn handle_progress_update(&mut self, frame: Frame, cleaned: Vec<char>) -> (r: Vec<Frame>)
        requires
            old(self).wf(),
            is_output(frame@),
            cleaned@ == clean(frame@.data->0),
            is_progress(cleaned@),
        ensures
            final(self).wf(),
            (final(self)@, views(r@)) == compact_step(old(self)@, frame@),
    {
        let text = string_from(cleaned.as_slice());
        let same = match &self.last_line_update {
            Some(prev) => *prev == text,
            None => false,
        };
        if same {
            let r: Vec<Frame> = Vec::new();
            assert(views(r@) =~= Seq::empty());
            r
        } else {
            let mut f = frame;
            f.frame_type = FrameType::LineUpdate;
            f.data = Some(text.clone());
            self.last_line_update = Some(text);
            let r = vec![f];
            assert(views(r@) =~= seq![f@]);
            r
        }
    }

    /// Drains the line buffer, when it holds anything, as a final `stdout`
    /// frame, followed by any queued frames; leaves both empty.
    pub fn flush_buffer(&mut self) -> (r: Vec<Frame>)
        requires
            old(self).wf(),
        ensures
            final(self).wf(),
            final(self)@ == (ProcessorView {
                line_buffer: Seq::empty(),
                queued: Seq::empty(),
                ..old(self)@
            }),
            old(self)@.line_buffer.len() == 0 ==> views(r@) == old(self)@.queued,
            old(self)@.line_buffer.len() > 0 ==> views(r@) == seq![
                FrameView { data: Some(old(self)@.line_buffer), ..bare(FrameType::Stdout, r@[0].ts) },
            ] + old(self)@.queued,
    {
        let mut frames: Vec<Frame> = Vec::new();
        if self.line_buffer.len() > 0 {
            let f = Frame::new(FrameType::Stdout).with_data(string_from(self.line_buffer.as_slice()));
            frames.push(f);
            self.line_buffer = Vec::new();
        }
        let ghost head = views(frames@);
        let mut queued = Vec::new();
        std::mem::swap(&mut queued, &mut self.frame_buffer);
        let ghost q = views(queued@);
        frames.append(&mut queued);
        assert(views(frames@) =~= head + q);
        assert(views(self.frame_buffer@) =~= Seq::empty());
        assert(self.line_buffer@ =~= Seq::empty());
        frames
    }
}

} // verus!
