use ec::click::{
    cps_error, cps_interval, press_duration, valid_cps, FrameSink, Scheduler, SchedulerCommand,
    DEFAULT_CPS, MAX_CPS, MIN_CPS,
};
use ec::click::SchedulerEvent;
use std::io;
use std::time::Duration;

#[derive(Default)]
struct Frames(Vec<Vec<bool>>);

impl FrameSink for Frames {
    fn emit_button_frame(&mut self, down: bool) -> io::Result<()> {
        self.0.push(vec![down]);
        Ok(())
    }
}

const START: u64 = 7_000_000_000;

fn nanos(duration: Duration) -> u64 {
    duration.as_nanos() as u64
}

#[test]
fn interval() {
    assert_eq!(Duration::from_nanos(cps_interval(MIN_CPS)), Duration::from_secs(1));
    assert_eq!(Duration::from_nanos(cps_interval(20)), Duration::from_millis(50));
    assert_eq!(
        Duration::from_nanos(press_duration(cps_interval(5))),
        Duration::from_millis(5)
    );
    assert_eq!(
        Duration::from_nanos(press_duration(cps_interval(20))),
        Duration::from_millis(5)
    );
    assert_eq!(
        Duration::from_nanos(press_duration(cps_interval(100))),
        Duration::from_millis(5)
    );
    assert_eq!(
        Duration::from_nanos(cps_interval(MAX_CPS)),
        Duration::from_nanos(1_666_666)
    );
    assert_eq!(
        Duration::from_nanos(press_duration(cps_interval(MAX_CPS))),
        Duration::from_nanos(833_333)
    );
}

#[test]
fn one_click_is_two_separate_frames() {
    let start = START;
    let mut scheduler = Scheduler::new(20);
    let mut frames = Frames::default();
    scheduler
        .command(SchedulerCommand::Hold(true), start, &mut frames)
        .unwrap();
    scheduler.advance(start, &mut frames).unwrap();
    scheduler
        .advance(start + nanos(Duration::from_millis(5)), &mut frames)
        .unwrap();
    assert_eq!(frames.0, vec![vec![true], vec![false]]);
    assert!(frames.0.iter().all(|frame| frame.len() == 1));
}

#[test]
fn maximum_rate_keeps_transitions_in_separate_frames() {
    let start = START;
    let mut scheduler = Scheduler::new(MAX_CPS);
    let mut frames = Frames::default();
    scheduler
        .command(SchedulerCommand::Hold(true), start, &mut frames)
        .unwrap();
    scheduler.advance(start, &mut frames).unwrap();
    scheduler
        .advance(start + nanos(Duration::from_nanos(833_333)), &mut frames)
        .unwrap();
    assert_eq!(frames.0, vec![vec![true], vec![false]]);
}

#[test]
fn next_press_deadline_does_not_drift_from_late_release_processing() {
    let start = START;
    let period = cps_interval(MAX_CPS);
    let mut scheduler = Scheduler::new(MAX_CPS);
    let mut frames = Frames::default();
    scheduler
        .command(SchedulerCommand::Hold(true), start, &mut frames)
        .unwrap();
    scheduler.advance(start, &mut frames).unwrap();
    scheduler
        .advance(start + nanos(Duration::from_millis(1)), &mut frames)
        .unwrap();
    assert_eq!(scheduler.deadline(), Some(start + period));
}

#[test]
fn shutdown_while_pressed_emits_final_release_only_once() {
    let start = START;
    let mut scheduler = Scheduler::new(20);
    let mut frames = Frames::default();
    scheduler
        .command(SchedulerCommand::Hold(true), start, &mut frames)
        .unwrap();
    scheduler.advance(start, &mut frames).unwrap();
    assert!(!scheduler
        .command(SchedulerCommand::Shutdown, start, &mut frames)
        .unwrap());
    assert_eq!(frames.0, vec![vec![true], vec![false]]);
    scheduler
        .command(SchedulerCommand::Shutdown, start, &mut frames)
        .unwrap();
    assert_eq!(frames.0.len(), 2);
}

#[test]
fn physical_release_cancels_future_presses() {
    let start = START;
    let mut scheduler = Scheduler::new(20);
    let mut frames = Frames::default();
    scheduler
        .command(SchedulerCommand::Hold(true), start, &mut frames)
        .unwrap();
    scheduler.advance(start, &mut frames).unwrap();
    scheduler
        .command(
            SchedulerCommand::Hold(false),
            start + nanos(Duration::from_millis(1)),
            &mut frames,
        )
        .unwrap();
    scheduler
        .advance(start + nanos(Duration::from_secs(1)), &mut frames)
        .unwrap();
    assert_eq!(frames.0, vec![vec![true], vec![false]]);
}

struct Failing;

impl FrameSink for Failing {
    fn emit_button_frame(&mut self, _down: bool) -> io::Result<()> {
        Err(io::Error::other("fake uinput failure"))
    }
}

#[test]
fn output_errors_are_propagated() {
    let start = START;
    let mut scheduler = Scheduler::new(20);
    scheduler
        .command(SchedulerCommand::Hold(true), start, &mut Failing)
        .unwrap();
    assert_eq!(
        scheduler
            .advance(start, &mut Failing)
            .unwrap_err()
            .to_string(),
        "fake uinput failure"
    );
}

#[test]
fn rate_bounds_and_message() {
    assert!(!valid_cps(0));
    assert!(valid_cps(MIN_CPS));
    assert!(valid_cps(DEFAULT_CPS));
    assert!(valid_cps(MAX_CPS));
    assert!(!valid_cps(MAX_CPS + 1));
    assert_eq!(cps_error(), "CPS must be between 1 and 600.");
    assert_eq!(press_duration(3), 1);
    assert_eq!(press_duration(0), 0);
}

#[test]
fn late_advance_catches_up_on_every_missed_click() {
    let start = START;
    let period = cps_interval(20);
    let mut scheduler = Scheduler::new(20);
    let mut frames = Frames::default();
    scheduler
        .command(SchedulerCommand::Hold(true), start, &mut frames)
        .unwrap();
    scheduler.advance(start + 2 * period, &mut frames).unwrap();
    assert_eq!(
        frames.0,
        vec![
            vec![true],
            vec![false],
            vec![true],
            vec![false],
            vec![true]
        ]
    );
    assert_eq!(scheduler.deadline(), Some(start + 2 * period + 5_000_000));
}

#[test]
fn idle_scheduler_has_no_deadline_and_emits_nothing() {
    let mut scheduler = Scheduler::new(DEFAULT_CPS);
    let mut frames = Frames::default();
    assert_eq!(scheduler.deadline(), None);
    scheduler.advance(START, &mut frames).unwrap();
    assert!(frames.0.is_empty());
    assert!(scheduler
        .command(SchedulerCommand::Hold(false), START, &mut frames)
        .unwrap());
    assert!(frames.0.is_empty());
}

#[test]
fn hold_while_pressed_waits_for_the_scheduled_press() {
    let start = START;
    let mut scheduler = Scheduler::new(20);
    let mut frames = Frames::default();
    scheduler
        .command(SchedulerCommand::Hold(true), start, &mut frames)
        .unwrap();
    scheduler.advance(start, &mut frames).unwrap();
    scheduler
        .command(SchedulerCommand::Hold(true), start + 1, &mut frames)
        .unwrap();
    assert_eq!(scheduler.deadline(), Some(start + 5_000_000));
    assert_eq!(frames.0, vec![vec![true]]);
}

#[test]
fn failed_release_keeps_button_down_until_shutdown() {
    let start = START;
    let mut scheduler = Scheduler::new(20);
    let mut frames = Frames::default();
    scheduler
        .command(SchedulerCommand::Hold(true), start, &mut frames)
        .unwrap();
    scheduler.advance(start, &mut frames).unwrap();
    assert!(scheduler
        .command(SchedulerCommand::Hold(false), start, &mut Failing)
        .is_err());
    assert_eq!(scheduler.deadline(), None);
    assert!(!scheduler
        .command(SchedulerCommand::Shutdown, start, &mut frames)
        .unwrap());
    assert_eq!(frames.0, vec![vec![true], vec![false]]);
}

#[test]
fn recorder_keeps_every_frame_in_order() {
    let start = START;
    let mut scheduler = Scheduler::new(100);
    let mut recorder = ec::click::FrameRecorder::new();
    scheduler
        .command(SchedulerCommand::Hold(true), start, &mut recorder)
        .unwrap();
    scheduler
        .advance(start + cps_interval(100), &mut recorder)
        .unwrap();
    assert_eq!(recorder.frames(), &vec![true, false, true]);
}

#[test]
fn waiting_and_handling_events() {
    let start = START;
    let mut scheduler = Scheduler::new(20);
    let mut frames = Frames::default();
    assert_eq!(scheduler.wait_from(start), None);
    assert!(scheduler
        .handle(SchedulerEvent::Command(SchedulerCommand::Hold(true)), start, &mut frames)
        .unwrap());
    assert_eq!(scheduler.wait_from(start + 3), Some(0));
    assert!(scheduler
        .handle(SchedulerEvent::Timeout, start, &mut frames)
        .unwrap());
    assert_eq!(scheduler.wait_from(start + 1_000_000), Some(4_000_000));
    assert!(!scheduler
        .handle(SchedulerEvent::Disconnected, start + 1, &mut frames)
        .unwrap());
    assert_eq!(frames.0, vec![vec![true], vec![false]]);
}

/// Accepts a fixed number of frames, then refuses every later one.
struct RefusesAfter {
    accepted: Vec<bool>,
    limit: usize,
}

impl FrameSink for RefusesAfter {
    fn emit_button_frame(&mut self, down: bool) -> io::Result<()> {
        if self.accepted.len() < self.limit {
            self.accepted.push(down);
            Ok(())
        } else {
            Err(io::Error::other("device gone"))
        }
    }
}

#[test]
fn refused_frame_ends_advance_with_the_sinks_error() {
    let start = START;
    let mut scheduler = Scheduler::new(20);
    let mut sink = RefusesAfter { accepted: Vec::new(), limit: 1 };
    scheduler
        .command(SchedulerCommand::Hold(true), start, &mut sink)
        .unwrap();
    let error = scheduler
        .advance(start + nanos(Duration::from_millis(120)), &mut sink)
        .unwrap_err();
    assert_eq!(error.to_string(), "device gone");
    assert_eq!(sink.accepted, vec![true]);
    // The press was delivered and the release refused: the button is still
    // down, so a shutdown tries the release again.
    let mut frames = Frames::default();
    assert!(!scheduler
        .command(SchedulerCommand::Shutdown, start, &mut frames)
        .unwrap());
    assert_eq!(frames.0, vec![vec![false]]);
}

#[test]
fn output_does_not_depend_on_how_often_deadlines_are_handled() {
    let start = START;
    let mut once = Scheduler::new(20);
    let mut often = Scheduler::new(20);
    let mut a = ec::click::FrameRecorder::new();
    let mut b = ec::click::FrameRecorder::new();
    once.command(SchedulerCommand::Hold(true), start, &mut a).unwrap();
    often.command(SchedulerCommand::Hold(true), start, &mut b).unwrap();
    once.advance(start + nanos(Duration::from_millis(120)), &mut a).unwrap();
    for ms in [0u64, 3, 5, 49, 50, 51, 100, 120, 120] {
        often.advance(start + nanos(Duration::from_millis(ms)), &mut b).unwrap();
    }
    assert_eq!(a.frames(), b.frames());
    assert_eq!(a.frames(), &vec![true, false, true, false, true, false]);
    assert_eq!(once.deadline(), often.deadline());
    assert_eq!(once.deadline(), Some(start + nanos(Duration::from_millis(150))));
}

/// An output that records what it sends and refuses once it has sent
/// `limit` transitions.
struct Output {
    sent: Vec<bool>,
    limit: usize,
}

impl ec::click::ButtonOutput for Output {
    fn send_button(&mut self, down: bool) -> io::Result<()> {
        if self.sent.len() < self.limit {
            self.sent.push(down);
            Ok(())
        } else {
            Err(io::Error::other("uinput refused"))
        }
    }
}

#[test]
fn accounted_sink_passes_frames_and_errors_through() {
    let start = START;
    let mut scheduler = Scheduler::new(20);
    let mut sink = ec::click::AccountedSink::new(Output { sent: Vec::new(), limit: 3 });
    scheduler
        .command(SchedulerCommand::Hold(true), start, &mut sink)
        .unwrap();
    let error = scheduler
        .advance(start + nanos(Duration::from_millis(120)), &mut sink)
        .unwrap_err();
    assert_eq!(error.to_string(), "uinput refused");
    assert_eq!(sink.output.sent, vec![true, false, true]);
}
