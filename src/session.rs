//! The decisions of a terminal session, apart from the terminal itself: when
//! to report idleness, how output, input and resizes become frames, when the
//! child's exit is reported, and how an undrained backlog escalates to a
//! forced kill. The caller owns the pseudo-terminal and the clock; it hands
//! each event here, with the time in milliseconds of a monotonic clock, and
//! sends the frames that come back.

use vstd::prelude::*;
use vstd::utf8::{decode_utf8, encode_utf8, valid_utf8};
use crate::cli::ConfigError;
use crate::frame::{bare, views, Frame, FrameType, FrameView};

verus! {

/// Reason carried by an `overflow` frame.
pub const OVERFLOW_REASON: &'static str = "undelivered output exceeds the buffer budget";

/// Reason carried by a `capsule_kill` frame.
pub const KILL_REASON: &'static str = "backlog not drained within the overflow grace period";

/// The text of `b` decoded as UTF-8, each invalid sequence replaced by U+FFFD.
pub uninterp spec fn utf8_lossy(b: Seq<u8>) -> Seq<char>;

/// Relies on `String::from_utf8_lossy`: valid UTF-8 decodes to its characters,
/// anything else with replacement characters.
#[verifier::external_body]
fn decode_lossy(b: &[u8]) -> (r: String)
    ensures
        r@ == utf8_lossy(b@),
        valid_utf8(b@) ==> r@ == decode_utf8(b@),
{
    String::from_utf8_lossy(b).into_owned()
}

/// The state of a session's decisions.
pub struct MonitorView {
    pub idle_timeout: u64,
    pub last_activity: u64,
    pub idle_reported: bool,
    pub exited: bool,
    pub budget: u64,
    pub grace: u64,
    pub backlog: u64,
    pub overflow_since: Option<u64>,
    pub killed: bool,
}

/// A frame with its time stamp set aside.
pub open spec fn unstamped(f: FrameView) -> FrameView {
    FrameView { ts: 0, ..f }
}

/// Frames with their time stamps set aside.
pub open spec fn unstamped_all(s: Seq<FrameView>) -> Seq<FrameView> {
    s.map_values(|f: FrameView| unstamped(f))
}

/// `a + b`, or `u64::MAX` when that overflows.
pub open spec fn sat_add(a: u64, b: u64) -> u64 {
    if a + b > u64::MAX {
        u64::MAX
    } else {
        (a + b) as u64
    }
}

/// Activity at `now`: the idle timer restarts from it.
pub open spec fn touch(s: MonitorView, now: u64) -> MonitorView {
    MonitorView { last_activity: now, idle_reported: false, ..s }
}

/// Whether a check at `now` finds the idle threshold newly crossed.
pub open spec fn idle_due(s: MonitorView, now: u64) -> bool {
    !s.exited && !s.idle_reported && now >= s.last_activity && now - s.last_activity
        >= s.idle_timeout
}

/// The idle part of a periodic check.
pub open spec fn idle_part(s: MonitorView, now: u64) -> (MonitorView, Seq<FrameView>) {
    if idle_due(s, now) {
        (
            MonitorView { idle_reported: true, ..s },
            seq![FrameView { dur_ms: Some((now - s.last_activity) as u64), ..bare(FrameType::Idle, 0) }],
        )
    } else {
        (s, Seq::empty())
    }
}

/// Whether a check at `now` finds the grace period over with the backlog
/// still above budget.
pub open spec fn kill_due(s: MonitorView, now: u64) -> bool {
    !s.exited && !s.killed && s.backlog > s.budget && s.overflow_since is Some && now
        >= s.overflow_since->0 && now - s.overflow_since->0 >= s.grace
}

/// The back-pressure part of a periodic check: the frames, and whether the
/// child must be killed.
pub open spec fn kill_part(s: MonitorView, now: u64) -> (MonitorView, Seq<FrameView>, bool) {
    if kill_due(s, now) {
        (
            MonitorView { killed: true, ..s },
            seq![FrameView { reason: Some(KILL_REASON@), ..bare(FrameType::CapsuleKill, 0) }],
            true,
        )
    } else {
        (s, Seq::empty(), false)
    }
}

/// A periodic check at `now`.
pub open spec fn tick_step(s: MonitorView, now: u64) -> (MonitorView, Seq<FrameView>, bool) {
    let (s1, idle) = idle_part(s, now);
    let (s2, kill, must_kill) = kill_part(s1, now);
    (s2, idle + kill, must_kill)
}

/// The bytes that `t` takes in UTF-8, as a string's length reports them.
pub open spec fn text_bytes(t: Seq<char>) -> u64 {
    (encode_utf8(t).len() as usize) as u64
}

/// Output decoded to `text`, whose payload takes `n` bytes, at `now`.
pub open spec fn output_step(s: MonitorView, text: Seq<char>, n: u64, now: u64) -> (
    MonitorView,
    Seq<FrameView>,
) {
    if s.exited {
        (s, Seq::empty())
    } else {
        let t = touch(s, now);
        let backlog = sat_add(s.backlog, n);
        let out = seq![FrameView { data: Some(text), ..bare(FrameType::Stdout, 0) }];
        if backlog > s.budget && s.overflow_since is None {
            (
                MonitorView { backlog, overflow_since: Some(now), ..t },
                out + seq![FrameView { reason: Some(OVERFLOW_REASON@), ..bare(FrameType::Overflow, 0) }],
            )
        } else {
            (MonitorView { backlog, ..t }, out)
        }
    }
}

/// The consumer took `n` bytes off the backlog.
pub open spec fn drain_step(s: MonitorView, n: u64) -> MonitorView {
    let backlog = if n >= s.backlog { 0 } else { (s.backlog - n) as u64 };
    MonitorView {
        backlog,
        overflow_since: if backlog <= s.budget { None } else { s.overflow_since },
        ..s
    }
}

/// The child ended with `code`, or by the signal `signal`.
pub open spec fn exit_step(s: MonitorView, code: i32, signal: Option<Seq<char>>) -> (
    MonitorView,
    Seq<FrameView>,
) {
    if s.exited {
        (s, Seq::empty())
    } else {
        (
            MonitorView { exited: true, ..s },
            match signal {
                Some(name) => seq![FrameView { signal: Some(name), ..bare(FrameType::Signal, 0) }],
                None => seq![FrameView { code: Some(code), ..bare(FrameType::Exit, 0) }],
            },
        )
    }
}

/// An event as the idle timer sees it.
pub enum SessionEvent {
    /// Output, input or a resize at the given time.
    Activity(u64),
    /// A periodic check at the given time.
    Check(u64),
}

/// How many frames of kind `k` stand in `s`.
pub open spec fn count_kind(s: Seq<FrameView>, k: FrameType) -> nat
    decreases s.len(),
{
    if s.len() == 0 {
        0
    } else {
        count_kind(s.drop_last(), k) + if s.last().frame_type == k {
            1nat
        } else {
            0nat
        }
    }
}

/// The `idle` frames that a run of events produces.
pub open spec fn idle_frames(s: MonitorView, es: Seq<SessionEvent>) -> nat
    decreases es.len(),
{
    if es.len() == 0 {
        0
    } else {
        match es[0] {
            SessionEvent::Activity(t) => idle_frames(touch(s, t), es.skip(1)),
            SessionEvent::Check(t) => count_kind(tick_step(s, t).1, FrameType::Idle) + idle_frames(
                tick_step(s, t).0,
                es.skip(1),
            ),
        }
    }
}

/// Whether every check in `es` comes less than `timeout` after the latest
/// activity (`last` standing for the activity before the run).
pub open spec fn checks_close(last: u64, es: Seq<SessionEvent>, timeout: u64) -> bool
    decreases es.len(),
{
    if es.len() == 0 {
        true
    } else {
        match es[0] {
            SessionEvent::Activity(t) => checks_close(t, es.skip(1), timeout),
            SessionEvent::Check(t) => t < last + timeout && checks_close(last, es.skip(1), timeout),
        }
    }
}

proof fn lemma_tick_idle_count(s: MonitorView, t: u64)
    ensures
        count_kind(tick_step(s, t).1, FrameType::Idle) == if idle_due(s, t) {
            1nat
        } else {
            0nat
        },
        tick_step(s, t).0.last_activity == s.last_activity,
        tick_step(s, t).0.exited == s.exited,
        tick_step(s, t).0.idle_reported == (s.idle_reported || idle_due(s, t)),
{
    let (s1, idle) = idle_part(s, t);
    let (s2, kill, k) = kill_part(s1, t);
    lemma_count_kind_concat(idle, kill, FrameType::Idle);
    if kill.len() > 0 {
        lemma_count_kind_single(kill[0], FrameType::Idle);
        assert(kill == seq![kill[0]]);
    }
    if idle.len() > 0 {
        lemma_count_kind_single(idle[0], FrameType::Idle);
        assert(idle == seq![idle[0]]);
    }
}

proof fn lemma_count_kind_single(x: FrameView, k: FrameType)
    ensures
        count_kind(seq![x], k) == if x.frame_type == k {
            1nat
        } else {
            0nat
        },
{
    assert(seq![x].drop_last() == Seq::<FrameView>::empty());
    assert(count_kind(Seq::<FrameView>::empty(), k) == 0);
    assert(seq![x].last() == x);
}

/// Idle reporting never fires while activity keeps coming: when every check
/// falls less than the timeout after the latest activity, no `idle` frame is
/// produced.
pub proof fn lemma_no_idle_while_active(s: MonitorView, es: Seq<SessionEvent>)
    requires
        checks_close(s.last_activity, es, s.idle_timeout),
    ensures
        idle_frames(s, es) == 0,
    decreases es.len(),
{
    if es.len() > 0 {
        match es[0] {
            SessionEvent::Activity(t) => {
                lemma_no_idle_while_active(touch(s, t), es.skip(1));
            },
            SessionEvent::Check(t) => {
                lemma_tick_idle_count(s, t);
                lemma_no_idle_while_active(tick_step(s, t).0, es.skip(1));
            },
        }
    }
}

/// Whether a check in `es` falls at least `timeout` after `a`.
pub open spec fn gap_reached(a: u64, es: Seq<SessionEvent>, timeout: u64) -> bool {
    exists|i: int|
        0 <= i < es.len() && (#[trigger] es[i] matches SessionEvent::Check(t) && t >= a && t - a
            >= timeout)
}

proof fn lemma_checks_only(s: MonitorView, es: Seq<SessionEvent>)
    requires
        !s.exited,
        forall|i: int| 0 <= i < es.len() ==> #[trigger] es[i] is Check,
    ensures
        idle_frames(s, es) == if !s.idle_reported && gap_reached(s.last_activity, es, s.idle_timeout) {
            1nat
        } else {
            0nat
        },
    decreases es.len(),
{
    if es.len() > 0 {
        let t = es[0]->Check_0;
        let rest = es.skip(1);
        lemma_tick_idle_count(s, t);
        assert forall|i: int| 0 <= i < rest.len() implies #[trigger] rest[i] is Check by {
            assert(rest[i] == es[i + 1]);
        }
        lemma_checks_only(tick_step(s, t).0, rest);
        if gap_reached(s.last_activity, es, s.idle_timeout) && !idle_due(s, t) {
            let i = choose|i: int|
                0 <= i < es.len() && (#[trigger] es[i] matches SessionEvent::Check(u) && u
                    >= s.last_activity && u - s.last_activity >= s.idle_timeout);
            if !s.idle_reported {
                assert(i > 0);
                assert(rest[i - 1] == es[i]);
            }
        }
        if gap_reached(s.last_activity, rest, s.idle_timeout) {
            let i = choose|i: int|
                0 <= i < rest.len() && (#[trigger] rest[i] matches SessionEvent::Check(u) && u
                    >= s.last_activity && u - s.last_activity >= s.idle_timeout);
            assert(es[i + 1] == rest[i]);
        }
    }
}

/// Idle reporting is edge-triggered: after activity at `a`, a run of checks
/// with no further activity yields exactly one `idle` frame when some check
/// falls at least the timeout after `a`, and none otherwise.
pub proof fn lemma_one_idle_per_gap(s: MonitorView, a: u64, es: Seq<SessionEvent>)
    requires
        !s.exited,
        forall|i: int| 0 <= i < es.len() ==> #[trigger] es[i] is Check,
    ensures
        idle_frames(touch(s, a), es) == if gap_reached(a, es, s.idle_timeout) {
            1nat
        } else {
            0nat
        },
{
    lemma_checks_only(touch(s, a), es);
}

/// Checks at the times `ts`, in order: the final state, the frames, and
/// whether any of them decided a kill.
pub open spec fn check_all(s: MonitorView, ts: Seq<u64>) -> (MonitorView, Seq<FrameView>, bool)
    decreases ts.len(),
{
    if ts.len() == 0 {
        (s, Seq::empty(), false)
    } else {
        let (q, out, k) = check_all(s, ts.drop_last());
        let (q2, out2, k2) = tick_step(q, ts.last());
        (q2, out + out2, k || k2)
    }
}

proof fn lemma_checks_before_grace(s: MonitorView, t: u64, ts: Seq<u64>)
    requires
        s.overflow_since == Some(t),
        !s.killed,
        forall|i: int| 0 <= i < ts.len() ==> #[trigger] ts[i] < t + s.grace,
    ensures
        !check_all(s, ts).2,
        check_all(s, ts).0 == (MonitorView {
            idle_reported: check_all(s, ts).0.idle_reported,
            ..s
        }),
        count_kind(check_all(s, ts).1, FrameType::CapsuleKill) == 0,
    decreases ts.len(),
{
    if ts.len() > 0 {
        let init = ts.drop_last();
        assert forall|i: int| 0 <= i < init.len() implies #[trigger] init[i] < t + s.grace by {
            assert(init[i] == ts[i]);
        }
        lemma_checks_before_grace(s, t, init);
        let (q, out, k) = check_all(s, init);
        let now = ts.last();
        assert(ts[ts.len() - 1] < t + s.grace);
        let (q1, idle) = idle_part(q, now);
        assert(!kill_due(q1, now));
        lemma_count_kind_concat(out, idle, FrameType::CapsuleKill);
        if idle.len() > 0 {
            lemma_count_kind_single(idle[0], FrameType::CapsuleKill);
            assert(idle == seq![idle[0]]);
        }
        assert(tick_step(q, now).1 == idle + Seq::<FrameView>::empty());
        assert(idle + Seq::<FrameView>::empty() == idle);
    }
}

proof fn lemma_count_kind_concat(a: Seq<FrameView>, b: Seq<FrameView>, k: FrameType)
    ensures
        count_kind(a + b, k) == count_kind(a, k) + count_kind(b, k),
    decreases b.len(),
{
    if b.len() == 0 {
        assert(a + b == a);
    } else {
        assert((a + b).drop_last() == a + b.drop_last());
        lemma_count_kind_concat(a, b.drop_last(), k);
    }
}

/// Back-pressure escalates: output that lifts the backlog above the budget
/// at `t` yields an `overflow` frame right behind its `stdout` frame; checks
/// before the grace period has passed kill nothing; the first check once it
/// has passed, with nothing drained, decides the kill and emits `capsule_kill`.
pub proof fn lemma_overflow_escalates(
    s: MonitorView,
    text: Seq<char>,
    n: u64,
    t: u64,
    checks: Seq<u64>,
    late: u64,
)
    requires
        !s.exited,
        !s.killed,
        s.overflow_since is None,
        sat_add(s.backlog, n) > s.budget,
        forall|i: int| 0 <= i < checks.len() ==> #[trigger] checks[i] < t + s.grace,
        late >= t + s.grace,
    ensures
        output_step(s, text, n, t).1.len() == 2,
        output_step(s, text, n, t).1[0].frame_type == FrameType::Stdout,
        output_step(s, text, n, t).1[1].frame_type == FrameType::Overflow,
        !check_all(output_step(s, text, n, t).0, checks).2,
        count_kind(check_all(output_step(s, text, n, t).0, checks).1, FrameType::CapsuleKill) == 0,
        tick_step(check_all(output_step(s, text, n, t).0, checks).0, late).2,
        tick_step(check_all(output_step(s, text, n, t).0, checks).0, late).1.last().frame_type
            == FrameType::CapsuleKill,
{
    let s1 = output_step(s, text, n, t).0;
    lemma_checks_before_grace(s1, t, checks);
}

/// A command that prints and then exits: its output comes as a `stdout`
/// frame with the decoded text, its exit as one `exit` frame with the real
/// code, and afterwards neither output, input, resizes nor checks produce
/// anything.
pub proof fn lemma_output_then_exit(
    s: MonitorView,
    text: Seq<char>,
    n: u64,
    t: u64,
    code: i32,
    later: u64,
)
    requires
        !s.exited,
    ensures
        output_step(s, text, n, t).1[0] == (FrameView {
            data: Some(text),
            ..bare(FrameType::Stdout, 0)
        }),
        exit_step(output_step(s, text, n, t).0, code, None).1 == seq![
            FrameView { code: Some(code), ..bare(FrameType::Exit, 0) },
        ],
        exit_step(output_step(s, text, n, t).0, code, None).0.exited,
        output_step(exit_step(output_step(s, text, n, t).0, code, None).0, text, n, later).1.len()
            == 0,
        tick_step(exit_step(output_step(s, text, n, t).0, code, None).0, later).1.len() == 0,
        !tick_step(exit_step(output_step(s, text, n, t).0, code, None).0, later).2,
{
}

/// A command silent past the idle timeout: a check at or after the
/// threshold reports one `idle` frame whose duration is at least the
/// timeout, before any output.
pub proof fn lemma_silence_reports_idle(s: MonitorView, t: u64)
    requires
        !s.exited,
        !s.idle_reported,
        t >= s.last_activity + s.idle_timeout,
    ensures
        tick_step(s, t).1[0] == (FrameView {
            dur_ms: Some((t - s.last_activity) as u64),
            ..bare(FrameType::Idle, 0)
        }),
        tick_step(s, t).1[0].dur_ms->0 >= s.idle_timeout,
        tick_step(s, t).0.idle_reported,
{
}

/// What a periodic check decided.
pub struct Tick {
    pub frames: Vec<Frame>,
    /// The child must be killed now.
    pub kill: bool,
}

/// The decisions of one session.
pub struct SessionMonitor {
    idle_timeout: u64,
    last_activity: u64,
    idle_reported: bool,
    exited: bool,
    budget: u64,
    grace: u64,
    backlog: u64,
    overflow_since: Option<u64>,
    killed: bool,
}

impl View for SessionMonitor {
    type V = MonitorView;

    closed spec fn view(&self) -> MonitorView {
        MonitorView {
            idle_timeout: self.idle_timeout,
            last_activity: self.last_activity,
            idle_reported: self.idle_reported,
            exited: self.exited,
            budget: self.budget,
            grace: self.grace,
            backlog: self.backlog,
            overflow_since: self.overflow_since,
            killed: self.killed,
        }
    }
}

/// The text of a string constant.
fn text_of(s: &str) -> (r: String)
    ensures
        r@ == s@,
{
    s.to_owned()
}

impl SessionMonitor {
    /// A session for a `cols` x `rows` window, reporting idleness after
    /// `idle_timeout` ms, tolerating `budget` undelivered bytes for `grace` ms,
    /// started at `now`. Fails exactly when a size, the timeout or the budget
    /// is zero.
    pub fn new(cols: u16, rows: u16, idle_timeout: u64, budget: u64, grace: u64, now: u64) -> (r:
        Result<SessionMonitor, ConfigError>)
        ensures
            r is Ok <==> (cols > 0 && rows > 0 && idle_timeout > 0 && budget > 0),
            (r matches Err(ConfigError::InvalidWindowSize)) <==> (cols == 0 || rows == 0),
            (r matches Err(ConfigError::InvalidIdleTimeout)) <==> (cols > 0 && rows > 0
                && idle_timeout == 0),
            (r matches Err(ConfigError::InvalidBufferSize)) <==> (cols > 0 && rows > 0
                && idle_timeout > 0 && budget == 0),
            r is Ok ==> r->Ok_0@ == (MonitorView {
                idle_timeout,
                last_activity: now,
                idle_reported: false,
                exited: false,
                budget,
                grace,
                backlog: 0,
                overflow_since: None,
                killed: false,
            }),
    {
        if cols == 0 || rows == 0 {
            return Err(ConfigError::InvalidWindowSize);
        }
        if idle_timeout == 0 {
            return Err(ConfigError::InvalidIdleTimeout);
        }
        if budget == 0 {
            return Err(ConfigError::InvalidBufferSize);
        }
        Ok(SessionMonitor {
            idle_timeout,
            last_activity: now,
            idle_reported: false,
            exited: false,
            budget,
            grace,
            backlog: 0,
            overflow_since: None,
            killed: false,
        })
    }

    /// Whether the child has not yet been seen to exit.
    pub fn is_alive(&self) -> (r: bool)
        ensures
            r == !self@.exited,
    {
        !self.exited
    }

    /// A chunk read from the terminal at `now`: a `stdout` frame with its
    /// text, whose byte size joins the backlog, and an `overflow` frame when
    /// the backlog first exceeds the budget.
    /// Nothing once the child has exited.
    pub fn on_output(&mut self, chunk: &[u8], now: u64) -> (r: Vec<Frame>)
        ensures
            (final(self)@, unstamped_all(views(r@))) == output_step(
                old(self)@,
                utf8_lossy(chunk@),
                text_bytes(utf8_lossy(chunk@)),
                now,
            ),
    {
        if self.exited {
            let r: Vec<Frame> = Vec::new();
            assert(unstamped_all(views(r@)) =~= Seq::empty());
            return r;
        }
        let text = decode_lossy(chunk);
        let n = text.as_str().len() as u64;
        self.last_activity = now;
        self.idle_reported = false;
        self.backlog = if self.backlog > u64::MAX - n {
            u64::MAX
        } else {
            self.backlog + n
        };
        let f = Frame::new(FrameType::Stdout).with_data(text);
        let mut r = vec![f];
        if self.backlog > self.budget && self.overflow_since.is_none() {
            self.overflow_since = Some(now);
            let o = Frame::new(FrameType::Overflow).with_reason(text_of(OVERFLOW_REASON));
            r.push(o);
            assert(unstamped_all(views(r@)) =~= seq![unstamped(f@), unstamped(o@)]);
        } else {
            assert(unstamped_all(views(r@)) =~= seq![unstamped(f@)]);
        }
        r
    }

    /// Input written to the terminal at `now`: mirrored as a `stdin` frame;
    /// nothing once the child has exited.
    pub fn on_input(&mut self, data: &[u8], now: u64) -> (r: Option<Frame>)
        ensures
            old(self)@.exited ==> r is None && final(self)@ == old(self)@,
            !old(self)@.exited ==> final(self)@ == touch(old(self)@, now) && r is Some && r->0@ == (
            FrameView { data: Some(utf8_lossy(data@)), ..bare(FrameType::Stdin, r->0.ts) }),
    {
        if self.exited {
            return None;
        }
        self.last_activity = now;
        self.idle_reported = false;
        Some(Frame::new(FrameType::Stdin).with_data(decode_lossy(data)))
    }

    /// The window resized to `cols` x `rows` at `now`: a `resize` frame;
    /// nothing once the child has exited.
    pub fn on_resize(&mut self, cols: u16, rows: u16, now: u64) -> (r: Option<Frame>)
        ensures
            old(self)@.exited ==> r is None && final(self)@ == old(self)@,
            !old(self)@.exited ==> final(self)@ == touch(old(self)@, now) && r is Some && r->0@ == (
            FrameView { cols: Some(cols), rows: Some(rows), ..bare(FrameType::Resize, r->0.ts) }),
    {
        if self.exited {
            return None;
        }
        self.last_activity = now;
        self.idle_reported = false;
        Some(Frame::new(FrameType::Resize).with_size(cols, rows))
    }

    /// The consumer took `n` bytes of payload off the backlog.
    pub fn on_drain(&mut self, n: u64)
        ensures
            final(self)@ == drain_step(old(self)@, n),
    {
        self.backlog = if n >= self.backlog {
            0
        } else {
            self.backlog - n
        };
        if self.backlog <= self.budget {
            self.overflow_since = None;
        }
    }

    /// The consumer took `frame` off the stream: a `stdout` frame drains the
    /// bytes of its text, as `on_output` counted them; other frames drain
    /// nothing.
    pub fn on_delivered(&mut self, frame: &Frame)
        ensures
            final(self)@ == drain_step(
                old(self)@,
                if frame@.frame_type == FrameType::Stdout && frame@.data is Some {
                    text_bytes(frame@.data->0)
                } else {
                    0
                },
            ),
    {
        let n: u64 = match &frame.data {
            Some(d) => if frame.frame_type == FrameType::Stdout {
                d.as_str().len() as u64
            } else {
                0
            },
            None => 0,
        };
        self.on_drain(n);
    }

    /// The periodic check at `now`: an `idle` frame when the threshold has
    /// been crossed since the last activity and not yet reported, then a
    /// `capsule_kill` frame, with the kill decision, when an overflow has
    /// outlasted the grace period.
    pub fn on_tick(&mut self, now: u64) -> (r: Tick)
        ensures
            (final(self)@, unstamped_all(views(r.frames@)), r.kill) == tick_step(old(self)@, now),
    {
        let mut frames: Vec<Frame> = Vec::new();
        let ghost s0 = self@;
        if !self.exited && !self.idle_reported && now >= self.last_activity && now
            - self.last_activity >= self.idle_timeout {
            self.idle_reported = true;
            frames.push(Frame::new(FrameType::Idle).with_duration(now - self.last_activity));
        }
        let ghost idle = unstamped_all(views(frames@));
        assert(idle =~= idle_part(s0, now).1);
        let mut kill = false;
        let due = match self.overflow_since {
            Some(t0) => !self.exited && !self.killed && self.backlog > self.budget && now >= t0
                && now - t0 >= self.grace,
            None => false,
        };
        if due {
            self.killed = true;
            kill = true;
            frames.push(Frame::new(FrameType::CapsuleKill).with_reason(text_of(KILL_REASON)));
        }
        assert(unstamped_all(views(frames@)) =~= idle + kill_part(idle_part(s0, now).0, now).1);
        Tick { frames, kill }
    }

    /// The child ended, with `code` or by the signal `signal`: one `exit` or
    /// `signal` frame, the first time only.
    pub fn on_exit(&mut self, code: i32, signal: Option<String>) -> (r: Vec<Frame>)
        ensures
            (final(self)@, unstamped_all(views(r@))) == exit_step(
                old(self)@,
                code,
                match signal {
                    Some(s) => Some(s@),
                    None => None,
                },
            ),
    {
        if self.exited {
            let r: Vec<Frame> = Vec::new();
            assert(unstamped_all(views(r@)) =~= Seq::empty());
            return r;
        }
        self.exited = true;
        let f = match signal {
            Some(name) => Frame::new(FrameType::Signal).with_signal(name),
            None => Frame::new(FrameType::Exit).with_exit_code(code),
        };
        let r = vec![f];
        assert(unstamped_all(views(r@)) =~= seq![unstamped(f@)]);
        r
    }
}

} // verus!
