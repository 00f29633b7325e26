//! Click rates and the deadline-driven click scheduler.
//!
//! Time is measured in nanoseconds on a monotonic clock chosen by the
//! caller; the scheduler never reads a clock itself.
use vstd::prelude::*;

verus! {

pub const MIN_CPS: u32 = 1;
pub const DEFAULT_CPS: u32 = 20;
pub const MAX_CPS: u32 = 600;

/// Nanoseconds in one second.
pub const NANOS_PER_SECOND: u64 = 1_000_000_000;

/// A synthetic press never lasts longer than this many nanoseconds.
pub const PRESS_CAP_NANOS: u64 = 5_000_000;

/// The latest instant, in nanoseconds, that the scheduler accepts as "now":
/// one second short of `u64::MAX`, so that every deadline it derives fits.
pub const MAX_TIME_NANOS: u64 = 18_446_744_072_709_551_615;

/// The accepted click rates, in clicks per second.
pub open spec fn cps_in_range(cps: int) -> bool {
    MIN_CPS <= cps <= MAX_CPS
}

pub fn valid_cps(cps: u32) -> (r: bool)
    ensures
        r == cps_in_range(cps as int),
{
    MIN_CPS <= cps && cps <= MAX_CPS
}

/// The message given for a rate outside the accepted range.
pub open spec fn cps_error_text() -> Seq<char> {
    "CPS must be between 1 and 600."@
}

pub fn cps_error() -> (s: String)
    ensures
        s@ == cps_error_text(),
{
    String::from_str("CPS must be between 1 and 600.")
}

/// The click period, in nanoseconds, for `cps` clicks per second.
pub open spec fn interval_of(cps: int) -> int {
    (NANOS_PER_SECOND as int) / cps
}

/// How long a synthetic press is held for a click period `period`: half the
/// period, but never more than `PRESS_CAP_NANOS`.
pub open spec fn press_of(period: int) -> int {
    if (PRESS_CAP_NANOS as int) <= period / 2 {
        PRESS_CAP_NANOS as int
    } else {
        period / 2
    }
}

pub fn cps_interval(cps: u32) -> (nanos: u64)
    requires
        cps >= 1,
    ensures
        nanos == interval_of(cps as int),
{
    NANOS_PER_SECOND / (cps as u64)
}

pub fn press_duration(click_period: u64) -> (nanos: u64)
    ensures
        nanos == press_of(click_period as int),
{
    let half = click_period / 2;
    if PRESS_CAP_NANOS <= half {
        PRESS_CAP_NANOS
    } else {
        half
    }
}

/// Where synthetic button transitions go.
pub trait FrameSink {
    /// The button transitions this sink has delivered, oldest first.
    /// Implementations written outside verified code cannot define it and
    /// keep this default; nothing proved here about the frames such a sink
    /// delivered carries over to it. `AccountedSink` is a verified sink over
    /// any `ButtonOutput`.
    closed spec fn delivered(&self) -> Seq<bool> {
        Seq::empty()
    }

    /// The errors with which this sink has refused frames, oldest first.
    /// The same default applies to implementations outside verified code.
    closed spec fn refusals(&self) -> Seq<std::io::Error> {
        Seq::empty()
    }

    /// Emit one button transition. Each call is one synchronization frame:
    /// it is either delivered, or refused with the error returned.
    fn emit_button_frame(&mut self, down: bool) -> (r: std::io::Result<()>)
        ensures
            r is Ok ==> final(self).delivered() == old(self).delivered().push(down)
                && final(self).refusals() == old(self).refusals(),
            r matches Err(e) ==> final(self).delivered() == old(self).delivered()
                && final(self).refusals() == old(self).refusals().push(e),
    ;
}

/// A sink that keeps every frame it is given, in order.
pub struct FrameRecorder {
    frames: Vec<bool>,
}

impl FrameRecorder {
    pub fn new() -> (r: Self)
        ensures
            r.delivered() == Seq::<bool>::empty(),
            r.refusals() == Seq::<std::io::Error>::empty(),
    {
        FrameRecorder { frames: Vec::new() }
    }

    /// The frames delivered so far.
    pub fn frames(&self) -> (f: &Vec<bool>)
        ensures
            f@ == self.delivered(),
    {
        &self.frames
    }
}

proof fn lemma_push_changes<A>(s: Seq<A>, e: A)
    ensures
        s.push(e) != s,
{
    assert(s.push(e).len() != s.len());
}

/// A recorder never refuses a frame.
pub proof fn lemma_recorder_never_refuses(r: &FrameRecorder)
    ensures
        r.refusals() == Seq::<std::io::Error>::empty(),
{
}

impl FrameSink for FrameRecorder {
    closed spec fn delivered(&self) -> Seq<bool> {
        self.frames@
    }

    closed spec fn refusals(&self) -> Seq<std::io::Error> {
        Seq::empty()
    }

    fn emit_button_frame(&mut self, down: bool) -> (r: std::io::Result<()>)
        ensures
            r is Ok,
    {
        self.frames.push(down);
        Ok(())
    }
}

/// A button output that can fail, such as a virtual mouse. Nothing is
/// assumed of what it does.
pub trait ButtonOutput {
    /// Send one button transition as one synchronization frame.
    fn send_button(&mut self, down: bool) -> std::io::Result<()>;
}

/// A sink over a button output that keeps account of the transitions the
/// output accepted and of the errors with which it refused others.
pub struct AccountedSink<O: ButtonOutput> {
    pub output: O,
    sent: Ghost<Seq<bool>>,
    refused: Ghost<Seq<std::io::Error>>,
}

impl<O: ButtonOutput> AccountedSink<O> {
    /// The output this sink sends to.
    pub closed spec fn device(&self) -> O {
        self.output
    }

    pub fn new(output: O) -> (s: Self)
        ensures
            s.device() == output,
            s.delivered() == Seq::<bool>::empty(),
            s.refusals() == Seq::<std::io::Error>::empty(),
    {
        AccountedSink { output, sent: Ghost(Seq::empty()), refused: Ghost(Seq::empty()) }
    }
}

impl<O: ButtonOutput> FrameSink for AccountedSink<O> {
    closed spec fn delivered(&self) -> Seq<bool> {
        self.sent@
    }

    closed spec fn refusals(&self) -> Seq<std::io::Error> {
        self.refused@
    }

    fn emit_button_frame(&mut self, down: bool) -> (r: std::io::Result<()>) {
        match self.output.send_button(down) {
            Ok(()) => {
                self.sent = Ghost(self.sent@.push(down));
                Ok(())
            },
            Err(e) => {
                self.refused = Ghost(self.refused@.push(e));
                Err(e)
            },
        }
    }
}

#[derive(Clone, Copy, Debug, PartialEq, Eq, Structural)]
pub enum SchedulerCommand {
    Hold(bool),
    Shutdown,
}

/// What the scheduler's thread got while it waited: a command, the timeout
/// at the earliest deadline, or the end of all commands.
#[derive(Clone, Copy, Debug, PartialEq, Eq, Structural)]
pub enum SchedulerEvent {
    Command(SchedulerCommand),
    Timeout,
    Disconnected,
}

/// Deadline-driven click scheduler state, independent of evdev and real time.
pub struct Scheduler {
    hold_period: u64,
    holding: bool,
    button_down: bool,
    next_press: Option<u64>,
    release_deadline: Option<u64>,
}

/// The scheduler's state as mathematics: the click period, whether the
/// physical button is held, whether the synthetic button is down, and the
/// two pending deadlines.
pub struct SchedulerView {
    pub period: int,
    pub holding: bool,
    pub button_down: bool,
    pub next_press: Option<int>,
    pub release_deadline: Option<int>,
}

pub open spec fn as_time(t: Option<u64>) -> Option<int> {
    match t {
        Some(x) => Some(x as int),
        None => None,
    }
}

impl View for Scheduler {
    type V = SchedulerView;

    closed spec fn view(&self) -> SchedulerView {
        SchedulerView {
            period: self.hold_period as int,
            holding: self.holding,
            button_down: self.button_down,
            next_press: as_time(self.next_press),
            release_deadline: as_time(self.release_deadline),
        }
    }
}

/// The invariant of every scheduler: a period of at least one nanosecond and
/// at most a second, deadlines that fit, a next press only while holding,
/// and a release deadline only while the synthetic button is down.
pub open spec fn well_formed(v: SchedulerView) -> bool {
    &&& 1 <= v.period <= NANOS_PER_SECOND
    &&& (v.next_press matches Some(t) ==> 0 <= t <= MAX_TIME_NANOS + v.period && v.holding)
    &&& (v.release_deadline matches Some(t) ==> 0 <= t <= MAX_TIME_NANOS + press_of(v.period)
        && v.button_down)
}

/// The synthetic button's state agrees with its deadlines: while it is down,
/// its release comes before any further press. Every state the scheduler
/// reaches without an output error is consistent.
pub open spec fn consistent(v: SchedulerView) -> bool {
    v.button_down && v.next_press is Some ==> (v.release_deadline matches Some(r) && r
        < v.next_press->0)
}

/// The earlier of two optional deadlines.
pub open spec fn earliest(a: Option<int>, b: Option<int>) -> Option<int> {
    match (a, b) {
        (Some(x), Some(y)) => Some(
            if x <= y {
                x
            } else {
                y
            },
        ),
        (Some(x), None) => Some(x),
        (None, Some(y)) => Some(y),
        (None, None) => None,
    }
}

pub open spec fn deadline_of(v: SchedulerView) -> Option<int> {
    earliest(v.next_press, v.release_deadline)
}

/// Whether some deadline has come at `now`.
pub open spec fn due(v: SchedulerView, now: int) -> bool {
    deadline_of(v) matches Some(d) && d <= now
}

/// The state once the synthetic button has been released.
pub open spec fn released(v: SchedulerView) -> SchedulerView {
    SchedulerView { release_deadline: None, button_down: false, ..v }
}

/// The state once future presses are cancelled and the release is no
/// longer pending; the button is still as it was.
pub open spec fn cancelled(v: SchedulerView) -> SchedulerView {
    SchedulerView { holding: false, next_press: None, release_deadline: None, ..v }
}

/// Handling the earliest deadline: the next state and the frame emitted.
/// A release deadline goes first; a press schedules its release one press
/// duration later and, while the button is held, the next press exactly one
/// period after this one.
pub open spec fn step(v: SchedulerView) -> (SchedulerView, Option<bool>) {
    let d = deadline_of(v)->0;
    if v.release_deadline == Some(d) {
        (
            released(v),
            if v.button_down {
                Some(false)
            } else {
                None
            },
        )
    } else {
        (
            SchedulerView {
                next_press: if v.holding {
                    Some(d + v.period)
                } else {
                    None
                },
                button_down: true,
                release_deadline: Some(d + press_of(v.period)),
                ..v
            },
            Some(true),
        )
    }
}

/// The state left when the frame of `step(v)` could not be emitted.
pub open spec fn failed_step(v: SchedulerView) -> SchedulerView {
    let d = deadline_of(v)->0;
    if v.release_deadline == Some(d) {
        SchedulerView { release_deadline: None, ..v }
    } else {
        SchedulerView { next_press: None, ..v }
    }
}

/// How much work is left until no deadline is due at `now`.
pub open spec fn backlog(v: SchedulerView, now: int) -> nat {
    let presses: nat = match v.next_press {
        Some(t) => if t <= now {
            (now + 1 - t) as nat
        } else {
            0
        },
        None => 0,
    };
    let release: nat = match v.release_deadline {
        Some(t) => if t <= now {
            1
        } else {
            0
        },
        None => 0,
    };
    2 * presses + release
}

/// Handling every deadline due at `now`, earliest first: the final state and
/// the frames emitted, in order.
pub open spec fn settle(v: SchedulerView, now: int) -> (SchedulerView, Seq<bool>)
    decreases backlog(v, now),
    when v.period >= 1
{
    if due(v, now) {
        let (w, frame) = step(v);
        let (u, frames) = settle(w, now);
        (
            u,
            match frame {
                Some(b) => seq![b] + frames,
                None => frames,
            },
        )
    } else {
        (v, seq![])
    }
}

/// The state after the first `k` due deadlines at `now` have been handled.
pub open spec fn steps(v: SchedulerView, now: int, k: nat) -> SchedulerView
    decreases k,
{
    if k == 0 || !due(v, now) {
        v
    } else {
        steps(step(v).0, now, (k - 1) as nat)
    }
}

/// The frame a step emits, as a sequence of at most one frame.
pub open spec fn frame_seq(f: Option<bool>) -> Seq<bool> {
    match f {
        Some(b) => seq![b],
        None => Seq::empty(),
    }
}

/// The frames emitted while the first `k` due deadlines at `now` are
/// handled.
pub open spec fn emitted(v: SchedulerView, now: int, k: nat) -> Seq<bool>
    decreases k,
{
    if k == 0 || !due(v, now) {
        Seq::empty()
    } else {
        frame_seq(step(v).1) + emitted(step(v).0, now, (k - 1) as nat)
    }
}

proof fn lemma_emitted_next(v: SchedulerView, now: int, k: nat)
    requires
        due(steps(v, now, k), now),
    ensures
        emitted(v, now, k + 1) == emitted(v, now, k) + frame_seq(step(steps(v, now, k)).1),
    decreases k,
{
    assert(due(v, now));
    if k > 0 {
        lemma_emitted_next(step(v).0, now, (k - 1) as nat);
        assert(steps(v, now, k) == steps(step(v).0, now, (k - 1) as nat));
        assert(emitted(v, now, k + 1) == frame_seq(step(v).1) + emitted(step(v).0, now, k));
        assert(emitted(v, now, k + 1) =~= emitted(v, now, k) + frame_seq(
            step(steps(v, now, k)).1,
        ));
    } else {
        assert(emitted(step(v).0, now, 0) =~= Seq::<bool>::empty());
        assert(emitted(v, now, 1) =~= emitted(v, now, 0) + frame_seq(step(steps(v, now, 0)).1));
    }
}

/// A command's effect: the next state, the frames emitted and whether the
/// scheduler keeps running.
pub open spec fn command_effect(v: SchedulerView, c: SchedulerCommand, now: int) -> (
    SchedulerView,
    Seq<bool>,
    bool,
) {
    let release_frames = if v.button_down {
        seq![false]
    } else {
        Seq::empty()
    };
    match c {
        SchedulerCommand::Hold(true) => (
            SchedulerView {
                holding: true,
                next_press: if v.next_press is None && !v.button_down {
                    Some(now)
                } else {
                    v.next_press
                },
                ..v
            },
            Seq::empty(),
            true,
        ),
        SchedulerCommand::Hold(false) => (released(cancelled(v)), release_frames, true),
        SchedulerCommand::Shutdown => (released(cancelled(v)), release_frames, false),
    }
}

proof fn lemma_step_well_formed(v: SchedulerView, now: int)
    requires
        well_formed(v),
        due(v, now),
        now <= MAX_TIME_NANOS,
    ensures
        well_formed(step(v).0),
        well_formed(failed_step(v)),
        backlog(step(v).0, now) < backlog(v, now),
        consistent(v) ==> consistent(step(v).0),
        consistent(v) ==> step(v).1 == Some(!v.button_down),
        consistent(v) ==> step(v).0.button_down == !v.button_down,
        step(v).0.period == v.period,
{
}

proof fn lemma_steps_next(v: SchedulerView, now: int, k: nat)
    requires
        due(steps(v, now, k), now),
    ensures
        steps(v, now, k + 1) == step(steps(v, now, k)).0,
    decreases k,
{
    assert(due(v, now));
    if k > 0 {
        lemma_steps_next(step(v).0, now, (k - 1) as nat);
        assert(steps(v, now, k + 1) == steps(step(v).0, now, k));
    } else {
        assert(steps(v, now, 1) == steps(step(v).0, now, 0));
    }
}

/// Whether `frames` alternate between press and release, starting from a
/// button that is down exactly when `start_down` holds.
pub open spec fn alternates(start_down: bool, frames: Seq<bool>) -> bool {
    forall|i: int|
        0 <= i < frames.len() ==> #[trigger] frames[i] == if i == 0 {
            !start_down
        } else {
            !frames[i - 1]
        }
}

/// Each click is a press frame and a separate release frame: handling due
/// deadlines from a consistent state emits frames that alternate, starting
/// with the transition away from the button's current state; the button
/// ends in the state of the last frame and the state stays consistent.
pub proof fn lemma_frames_alternate(v: SchedulerView, now: int)
    requires
        well_formed(v),
        consistent(v),
        now <= MAX_TIME_NANOS,
    ensures
        alternates(v.button_down, settle(v, now).1),
        settle(v, now).0.button_down == if settle(v, now).1.len() == 0 {
            v.button_down
        } else {
            settle(v, now).1.last()
        },
        consistent(settle(v, now).0),
    decreases backlog(v, now),
{
    if due(v, now) {
        lemma_step_well_formed(v, now);
        let w = step(v).0;
        lemma_frames_alternate(w, now);
        let rest = settle(w, now).1;
        let frames = settle(v, now).1;
        assert(frames == seq![!v.button_down] + rest);
        assert forall|i: int| 0 <= i < frames.len() implies #[trigger] frames[i] == if i == 0 {
            !v.button_down
        } else {
            !frames[i - 1]
        } by {
            if i > 0 {
                assert(frames[i] == rest[i - 1]);
                if i > 1 {
                    assert(frames[i - 1] == rest[i - 2]);
                }
            }
        }
        if rest.len() > 0 {
            assert(frames.last() == rest.last());
        }
    }
}

/// Handling due deadlines leaves none due, keeps the state well formed and
/// keeps the period.
pub proof fn lemma_settle_completes(v: SchedulerView, now: int)
    requires
        well_formed(v),
        now <= MAX_TIME_NANOS,
    ensures
        !due(settle(v, now).0, now),
        well_formed(settle(v, now).0),
        settle(v, now).0.period == v.period,
    decreases backlog(v, now),
{
    if due(v, now) {
        lemma_step_well_formed(v, now);
        lemma_settle_completes(step(v).0, now);
    }
}

/// Presses keep their phase: however late deadlines are handled, the next
/// press stays a whole number of periods after the press that was pending.
pub proof fn lemma_presses_keep_phase(v: SchedulerView, now: int, first: int)
    requires
        well_formed(v),
        now <= MAX_TIME_NANOS,
        v.next_press == Some(first),
    ensures
        settle(v, now).0.next_press matches Some(t) ==> exists|k: nat|
            t == #[trigger] periods_after(first, k, v.period),
    decreases backlog(v, now),
{
    if due(v, now) {
        lemma_step_well_formed(v, now);
        let w = step(v).0;
        let d = deadline_of(v)->0;
        if v.release_deadline == Some(d) {
            lemma_presses_keep_phase(w, now, first);
        } else if w.next_press is Some {
            assert(w.next_press == Some(first + v.period));
            lemma_presses_keep_phase(w, now, first + v.period);
            if let Some(t) = settle(v, now).0.next_press {
                let k = choose|k: nat| t == #[trigger] periods_after(first + v.period, k, w.period);
                let p = v.period;
                assert((k + 1) * p == k * p + p) by (nonlinear_arith);
                assert(t == periods_after(first, (k + 1) as nat, v.period));
            }
        } else {
            lemma_settle_completes(w, now);
            assert(settle(w, now).0.next_press is None) by {
                lemma_no_press_stays_none(w, now);
            }
        }
    } else {
        assert(first == periods_after(first, 0, v.period));
    }
}

/// The instant `k` whole periods after `first`.
pub open spec fn periods_after(first: int, k: nat, period: int) -> int {
    first + k * period
}

proof fn lemma_no_press_stays_none(v: SchedulerView, now: int)
    requires
        well_formed(v),
        now <= MAX_TIME_NANOS,
        v.next_press is None,
    ensures
        settle(v, now).0.next_press is None,
    decreases backlog(v, now),
{
    if due(v, now) {
        lemma_step_well_formed(v, now);
        lemma_no_press_stays_none(step(v).0, now);
    }
}

/// Shutdown releases the button at most once: it emits a release only when
/// the button is down, leaves nothing scheduled, and a second shutdown or
/// any later deadline handling emits nothing.
pub proof fn lemma_shutdown_releases_once(v: SchedulerView, now: int, later: int)
    requires
        well_formed(v),
    ensures
        ({
            let (w, frames, running) = command_effect(v, SchedulerCommand::Shutdown, now);
            &&& !running
            &&& frames == if v.button_down {
                seq![false]
            } else {
                Seq::<bool>::empty()
            }
            &&& !w.button_down && w.next_press is None && w.release_deadline is None
            &&& command_effect(w, SchedulerCommand::Shutdown, later).1.len() == 0
            &&& settle(w, later).1.len() == 0
        }),
{
    let w = command_effect(v, SchedulerCommand::Shutdown, now).0;
    assert(!due(w, later));
}

/// Releasing the physical button cancels every future press: whatever time
/// deadlines are handled at afterwards, no frame is emitted.
pub proof fn lemma_release_cancels_presses(v: SchedulerView, now: int, later: int)
    requires
        well_formed(v),
    ensures
        settle(command_effect(v, SchedulerCommand::Hold(false), now).0, later).1.len() == 0,
        command_effect(v, SchedulerCommand::Hold(false), now).0.next_press is None,
{
    let w = command_effect(v, SchedulerCommand::Hold(false), now).0;
    assert(!due(w, later));
}

/// Holding the button while idle presses at once, and schedules the next
/// press exactly one period later.
pub proof fn lemma_hold_presses_now(v: SchedulerView, now: int)
    requires
        well_formed(v),
        consistent(v),
        !v.button_down,
        v.next_press is None,
        0 <= now <= MAX_TIME_NANOS,
    ensures
        ({
            let w = command_effect(v, SchedulerCommand::Hold(true), now).0;
            &&& w.next_press == Some(now)
            &&& settle(w, now).1.len() > 0
            &&& settle(w, now).1[0]
            &&& settle(w, now).0.next_press == Some(now + v.period)
        }),
{
    let w = command_effect(v, SchedulerCommand::Hold(true), now).0;
    assert(v.release_deadline is None);
    lemma_step_well_formed(w, now);
    let u = step(w).0;
    assert(u.next_press == Some(now + v.period));
    if due(u, now) {
        lemma_step_well_formed(u, now);
        let x = step(u).0;
        assert(u.release_deadline == Some(now + press_of(v.period)));
        assert(x.next_press == Some(now + v.period));
        assert(!due(x, now));
        assert(settle(x, now).0 == x);
        assert(settle(u, now).0 == x);
    } else {
        assert(settle(u, now).0 == u);
    }
    assert(settle(w, now).1 == seq![true] + settle(u, now).1);
    assert(settle(w, now).0 == settle(u, now).0);
}

/// The frames delivered so far agree with the synthetic button: they
/// alternate starting with a press, and the button is down exactly when the
/// last frame was a press.
pub open spec fn tracks(v: SchedulerView, frames: Seq<bool>) -> bool {
    &&& alternates(false, frames)
    &&& v.button_down == (frames.len() > 0 && frames.last())
}

proof fn lemma_alternates_concat(a: Seq<bool>, b: Seq<bool>, down: bool)
    requires
        alternates(false, a),
        down == (a.len() > 0 && a.last()),
        alternates(down, b),
    ensures
        alternates(false, a + b),
{
    let c = a + b;
    assert forall|i: int| 0 <= i < c.len() implies #[trigger] c[i] == if i == 0 {
        !false
    } else {
        !c[i - 1]
    } by {
        if i < a.len() {
            assert(c[i] == a[i]);
            if i > 0 {
                assert(c[i - 1] == a[i - 1]);
            }
        } else if i == a.len() {
            assert(c[i] == b[0]);
            if i > 0 {
                assert(c[i - 1] == a.last());
            }
        } else {
            assert(c[i] == b[i - a.len()]);
            assert(c[i - 1] == b[i - a.len() - 1]);
        }
    }
}

/// Frames alternate across calls: handling due deadlines from a consistent
/// state whose button agrees with the frames delivered so far keeps the
/// state consistent and the delivered frames in agreement with the button.
pub proof fn lemma_settle_tracks(v: SchedulerView, frames: Seq<bool>, now: int)
    requires
        well_formed(v),
        consistent(v),
        tracks(v, frames),
        now <= MAX_TIME_NANOS,
    ensures
        consistent(settle(v, now).0),
        tracks(settle(v, now).0, frames + settle(v, now).1),
{
    lemma_frames_alternate(v, now);
    let f = settle(v, now).1;
    lemma_alternates_concat(frames, f, v.button_down);
    if f.len() == 0 {
        assert(frames + f =~= frames);
    } else {
        assert((frames + f).last() == f.last());
    }
}

/// Frames alternate across calls: a command keeps the delivered frames in
/// agreement with the button, and keeps the state consistent.
pub proof fn lemma_command_tracks(
    v: SchedulerView,
    frames: Seq<bool>,
    c: SchedulerCommand,
    now: int,
)
    requires
        tracks(v, frames),
    ensures
        consistent(v) ==> consistent(command_effect(v, c, now).0),
        tracks(command_effect(v, c, now).0, frames + command_effect(v, c, now).1),
{
    let f = command_effect(v, c, now).1;
    if v.button_down && c != SchedulerCommand::Hold(true) {
        assert(f == seq![false]);
        lemma_alternates_concat(frames, f, v.button_down);
        assert((frames + f).last() == false);
    } else {
        assert(f =~= Seq::<bool>::empty());
        assert(frames + f =~= frames);
    }
}

/// The output does not depend on how often deadlines are handled: handling
/// them at `t1` and then at `t2` gives the state and the frames that
/// handling them once at `t2` gives.
pub proof fn lemma_settle_split(v: SchedulerView, t1: int, t2: int)
    requires
        well_formed(v),
        t1 <= t2 <= MAX_TIME_NANOS,
    ensures
        settle(settle(v, t1).0, t2).0 == settle(v, t2).0,
        settle(v, t1).1 + settle(settle(v, t1).0, t2).1 == settle(v, t2).1,
    decreases backlog(v, t1),
{
    if due(v, t1) {
        lemma_step_well_formed(v, t1);
        let w = step(v).0;
        lemma_settle_split(w, t1, t2);
        assert(due(v, t2));
        let f = frame_seq(step(v).1);
        assert(settle(v, t1).1 == f + settle(w, t1).1);
        assert(settle(v, t2).1 == f + settle(w, t2).1);
        assert(settle(v, t1).0 == settle(w, t1).0);
        assert(settle(v, t2).0 == settle(w, t2).0);
        assert(f + settle(w, t1).1 + settle(settle(w, t1).0, t2).1 =~= f + (settle(w, t1).1
            + settle(settle(w, t1).0, t2).1));
    } else {
        assert(settle(v, t1).1 =~= Seq::<bool>::empty());
        assert(settle(v, t1).1 + settle(v, t2).1 =~= settle(v, t2).1);
    }
}

impl Scheduler {
    pub fn new(cps: u32) -> (s: Self)
        requires
            1 <= cps <= NANOS_PER_SECOND,
        ensures
            s@ == (SchedulerView {
                period: interval_of(cps as int),
                holding: false,
                button_down: false,
                next_press: None,
                release_deadline: None,
            }),
            well_formed(s@),
            consistent(s@),
    {
        assert(1 <= (NANOS_PER_SECOND as int) / (cps as int) <= NANOS_PER_SECOND) by (nonlinear_arith)
            requires
                1 <= cps <= NANOS_PER_SECOND,
        ;
        Self {
            hold_period: cps_interval(cps),
            holding: false,
            button_down: false,
            next_press: None,
            release_deadline: None,
        }
    }

    pub fn deadline(&self) -> (d: Option<u64>)
        ensures
            as_time(d) == deadline_of(self@),
    {
        match (self.next_press, self.release_deadline) {
            (Some(a), Some(b)) => Some(
                if a <= b {
                    a
                } else {
                    b
                },
            ),
            (Some(a), None) => Some(a),
            (None, Some(b)) => Some(b),
            (None, None) => None,
        }
    }

    pub fn command<S: FrameSink>(
        &mut self,
        command: SchedulerCommand,
        now: u64,
        sink: &mut S,
    ) -> (r: std::io::Result<bool>)
        requires
            well_formed(old(self)@),
            now <= MAX_TIME_NANOS,
        ensures
            well_formed(final(self)@),
            (command == SchedulerCommand::Hold(true) || !old(self)@.button_down) ==> r is Ok,
            r is Ok <==> final(sink).refusals() == old(sink).refusals(),
            r matches Ok(running) ==> {
                let (w, frames, keep) = command_effect(old(self)@, command, now as int);
                &&& final(self)@ == w
                &&& final(sink).delivered() == old(sink).delivered() + frames
                &&& running == keep
            },
            r matches Err(e) ==> {
                &&& final(self)@ == cancelled(old(self)@)
                &&& final(sink).delivered() == old(sink).delivered()
                &&& final(sink).refusals() == old(sink).refusals().push(e)
            },
            consistent(old(self)@) ==> consistent(final(self)@),
            r is Ok && tracks(old(self)@, old(sink).delivered()) ==> tracks(
                final(self)@,
                final(sink).delivered(),
            ),
    {
        proof {
            if tracks(old(self)@, old(sink).delivered()) {
                lemma_command_tracks(old(self)@, old(sink).delivered(), command, now as int);
            }
        }
        match command {
            SchedulerCommand::Hold(true) => {
                self.holding = true;
                if self.next_press.is_none() && !self.button_down {
                    self.next_press = Some(now);
                }
                assert(sink.delivered() == old(sink).delivered() + Seq::<bool>::empty());
                Ok(true)
            },
            SchedulerCommand::Hold(false) => {
                self.holding = false;
                self.next_press = None;
                match self.release_if_down(sink) {
                    Ok(()) => Ok(true),
                    Err(e) => {
                        proof {
                            lemma_push_changes(old(sink).refusals(), e);
                        }
                        Err(e)
                    },
                }
            },
            SchedulerCommand::Shutdown => {
                self.holding = false;
                self.next_press = None;
                match self.release_if_down(sink) {
                    Ok(()) => Ok(false),
                    Err(e) => {
                        proof {
                            lemma_push_changes(old(sink).refusals(), e);
                        }
                        Err(e)
                    },
                }
            },
        }
    }

    pub fn advance<S: FrameSink>(&mut self, now: u64, sink: &mut S) -> (r: std::io::Result<()>)
        requires
            well_formed(old(self)@),
            now <= MAX_TIME_NANOS,
        ensures
            well_formed(final(self)@),
            settle(old(self)@, now as int).1.len() == 0 ==> r is Ok,
            r is Ok <==> final(sink).refusals() == old(sink).refusals(),
            r is Ok ==> final(self)@ == settle(old(self)@, now as int).0 && final(sink).delivered()
                == old(sink).delivered() + settle(old(self)@, now as int).1,
            r is Ok ==> !due(final(self)@, now as int),
            r matches Err(e) ==> final(sink).refusals() == old(sink).refusals().push(e)
                && exists|k: nat|
                {
                    let w = #[trigger] steps(old(self)@, now as int, k);
                    &&& due(w, now as int)
                    &&& final(self)@ == failed_step(w)
                    &&& final(sink).delivered() == old(sink).delivered() + emitted(
                        old(self)@,
                        now as int,
                        k,
                    )
                },
            r is Ok && consistent(old(self)@) ==> consistent(final(self)@),
            r is Ok && consistent(old(self)@) && tracks(old(self)@, old(sink).delivered())
                ==> tracks(final(self)@, final(sink).delivered()),
    {
        let ghost start = self@;
        let ghost delivered0 = sink.delivered();
        let ghost refused0 = sink.refusals();
        let ghost mut k: nat = 0;
        let ghost mut sent: Seq<bool> = Seq::empty();
        proof {
            lemma_settle_completes(start, now as int);
            if consistent(start) {
                lemma_frames_alternate(start, now as int);
                if tracks(start, delivered0) {
                    lemma_settle_tracks(start, delivered0, now as int);
                }
            }
        }
        loop
            invariant
                well_formed(self@),
                now <= MAX_TIME_NANOS,
                self@ == steps(start, now as int, k),
                settle(start, now as int).0 == settle(self@, now as int).0,
                settle(start, now as int).1 == sent + settle(self@, now as int).1,
                sink.delivered() == delivered0 + sent,
                sent == emitted(start, now as int, k),
                sink.refusals() == refused0,
                start == old(self)@,
                well_formed(start),
                delivered0 == old(sink).delivered(),
                refused0 == old(sink).refusals(),
                consistent(start) ==> consistent(settle(start, now as int).0),
                consistent(start) && tracks(start, delivered0) ==> tracks(
                    settle(start, now as int).0,
                    delivered0 + settle(start, now as int).1,
                ),
            decreases backlog(self@, now as int),
        {
            let deadline = match self.deadline() {
                Some(d) => d,
                None => {
                    assert(sent == sent + Seq::<bool>::empty());
                    proof {
                        lemma_settle_completes(start, now as int);
                    }
                    return Ok(());
                },
            };
            if deadline > now {
                assert(sent == sent + Seq::<bool>::empty());
                proof {
                    lemma_settle_completes(start, now as int);
                }
                return Ok(());
            }
            proof {
                lemma_step_well_formed(self@, now as int);
                lemma_steps_next(start, now as int, k);
                lemma_emitted_next(start, now as int, k);
            }
            let ghost before = self@;
            let is_release = match self.release_deadline {
                Some(t) => t == deadline,
                None => false,
            };
            if is_release {
                match self.release_if_down(sink) {
                    Ok(()) => {},
                    Err(e) => {
                        assert(due(steps(start, now as int, k), now as int));
                        proof {
                            lemma_push_changes(refused0, e);
                        }
                        return Err(e);
                    },
                }
                proof {
                    if before.button_down {
                        assert(settle(before, now as int).1 == seq![false] + settle(
                            self@,
                            now as int,
                        ).1);
                        assert(sent + settle(before, now as int).1 == (sent + seq![false])
                            + settle(self@, now as int).1);
                        sent = sent + seq![false];
                    } else {
                        assert(sent + frame_seq(step(before).1) =~= sent);
                    }
                    k = k + 1;
                }
            } else {
                self.next_press = None;
                match sink.emit_button_frame(true) {
                    Ok(()) => {},
                    Err(e) => {
                        assert(due(steps(start, now as int, k), now as int));
                        proof {
                            lemma_push_changes(refused0, e);
                        }
                        return Err(e);
                    },
                }
                self.button_down = true;
                let period = self.hold_period;
                self.release_deadline = Some(deadline + press_duration(period));
                if self.holding {
                    self.next_press = Some(deadline + period);
                }
                proof {
                    assert(self@ == step(before).0);
                    assert(settle(before, now as int).1 == seq![true] + settle(
                        self@,
                        now as int,
                    ).1);
                    assert(sent + settle(before, now as int).1 == (sent + seq![true]) + settle(
                        self@,
                        now as int,
                    ).1);
                    sent = sent + seq![true];
                    k = k + 1;
                }
            }
        }
    }

    /// How long to wait from `now` for the next command: until the earliest
    /// deadline (not at all when it has passed), or without limit when none
    /// is pending.
    pub fn wait_from(&self, now: u64) -> (w: Option<u64>)
        ensures
            match deadline_of(self@) {
                Some(d) => w == Some(
                    if d > now {
                        (d - now) as u64
                    } else {
                        0u64
                    },
                ),
                None => w is None,
            },
    {
        match self.deadline() {
            Some(d) => Some(
                if d > now {
                    d - now
                } else {
                    0
                },
            ),
            None => None,
        }
    }

    /// Handles what the waiting thread got: a command is carried out, a
    /// timeout handles the due deadlines, and the end of commands shuts the
    /// scheduler down. Returns whether to keep running.
    pub fn handle<S: FrameSink>(&mut self, event: SchedulerEvent, now: u64, sink: &mut S) -> (r:
        std::io::Result<bool>)
        requires
            well_formed(old(self)@),
            now <= MAX_TIME_NANOS,
        ensures
            well_formed(final(self)@),
            r is Ok <==> final(sink).refusals() == old(sink).refusals(),
            r matches Err(e) ==> final(sink).refusals() == old(sink).refusals().push(e),
            r is Ok && consistent(old(self)@) ==> consistent(final(self)@),
            r is Ok && consistent(old(self)@) && tracks(old(self)@, old(sink).delivered())
                ==> tracks(final(self)@, final(sink).delivered()),
            match event {
                SchedulerEvent::Command(c) => {
                    &&& (c == SchedulerCommand::Hold(true) || !old(self)@.button_down) ==> r is Ok
                    &&& r matches Ok(running) ==> {
                        let (w, frames, keep) = command_effect(old(self)@, c, now as int);
                        &&& final(self)@ == w
                        &&& final(sink).delivered() == old(sink).delivered() + frames
                        &&& running == keep
                    }
                    &&& r is Err ==> final(self)@ == cancelled(old(self)@)
                        && final(sink).delivered() == old(sink).delivered()
                },
                SchedulerEvent::Timeout => {
                    &&& settle(old(self)@, now as int).1.len() == 0 ==> r is Ok
                    &&& r matches Ok(running) ==> {
                        &&& running
                        &&& final(self)@ == settle(old(self)@, now as int).0
                        &&& final(sink).delivered() == old(sink).delivered() + settle(
                            old(self)@,
                            now as int,
                        ).1
                    }
                    &&& r is Err ==> exists|k: nat|
                        {
                            let w = #[trigger] steps(old(self)@, now as int, k);
                            &&& due(w, now as int)
                            &&& final(self)@ == failed_step(w)
                            &&& final(sink).delivered() == old(sink).delivered() + emitted(
                                old(self)@,
                                now as int,
                                k,
                            )
                        }
                },
                SchedulerEvent::Disconnected => {
                    &&& !old(self)@.button_down ==> r is Ok
                    &&& r matches Ok(running) ==> {
                        let (w, frames, keep) = command_effect(
                            old(self)@,
                            SchedulerCommand::Shutdown,
                            now as int,
                        );
                        &&& final(self)@ == w
                        &&& final(sink).delivered() == old(sink).delivered() + frames
                        &&& !running
                    }
                    &&& r is Err ==> final(self)@ == cancelled(old(self)@)
                        && final(sink).delivered() == old(sink).delivered()
                },
            },
    {
        match event {
            SchedulerEvent::Command(c) => self.command(c, now, sink),
            SchedulerEvent::Timeout => match self.advance(now, sink) {
                Ok(()) => Ok(true),
                Err(e) => Err(e),
            },
            SchedulerEvent::Disconnected => match self.command(SchedulerCommand::Shutdown, now, sink) {
                Ok(_) => Ok(false),
                Err(e) => Err(e),
            },
        }
    }

    fn release_if_down<S: FrameSink>(&mut self, sink: &mut S) -> (r: std::io::Result<()>)
        requires
            well_formed(SchedulerView { release_deadline: None, ..old(self)@ }),
        ensures
            !old(self)@.button_down ==> r is Ok,
            r is Ok ==> final(self)@ == released(old(self)@) && final(sink).delivered()
                == old(sink).delivered() + (if old(self)@.button_down {
                seq![false]
            } else {
                Seq::empty()
            }) && final(sink).refusals() == old(sink).refusals(),
            r matches Err(e) ==> final(self)@ == (SchedulerView {
                release_deadline: None,
                ..old(self)@
            }) && final(sink).delivered() == old(sink).delivered() && final(sink).refusals()
                == old(sink).refusals().push(e),
    {
        self.release_deadline = None;
        if self.button_down {
            match sink.emit_button_frame(false) {
                Ok(()) => {},
                Err(e) => return Err(e),
            }
            self.button_down = false;
        } else {
            assert(sink.delivered() == old(sink).delivered() + Seq::<bool>::empty());
        }
        Ok(())
    }
}

} // verus!
