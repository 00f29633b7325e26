use ec::click;
use ec::runtime::{
    decode_status, encode_status, environ_has_marker, lock_path, parse_start_ticks, start_allowed,
    startup_next,
    status_path, status_report, worker_cps_from, StartupAction, StartupEvent, Status, StopAction,
    StopEvent, Stopping,
};
use ec::Error;

fn message(error: Error) -> String {
    match error {
        Error::Message(text) => text,
        Error::Io { operation, .. } => panic!("unexpected I/O error from {operation}"),
    }
}

#[test]
fn status_roundtrip_preserves_identity() {
    let status = Status {
        pid: 42,
        start_ticks: 99,
        executable: b"/path with spaces/ec".to_vec(),
        cps: click::MAX_CPS,
        device: "Example Mouse".into(),
    };
    assert_eq!(decode_status(&encode_status(&status)), Some(status));
}

#[test]
fn status_format_is_exact() {
    let status = Status {
        pid: 7,
        start_ticks: 1234,
        executable: b"/bin/ec".to_vec(),
        cps: 20,
        device: "M\0x".into(),
    };
    let bytes = encode_status(&status);
    assert_eq!(bytes, b"EC2\x007\x001234\x0020\x00/bin/ec\x00M\0x".to_vec());
    assert_eq!(decode_status(&bytes), Some(status));
}

#[test]
fn corrupt_status_is_refused() {
    for bytes in [
        b"old or corrupt state".as_slice(),
        b"EC1\x001\x002\x003\x00/x\x00d",
        b"EC2\x001\x002\x003\x00/x",
        b"EC2\x00-1\x002\x003\x00/x\x00d",
        b"EC2\x004294967296\x002\x003\x00/x\x00d",
        b"EC2\x001\x002\x003\x00/x\x00\xff",
    ] {
        assert_eq!(decode_status(bytes), None);
    }
    assert_eq!(
        decode_status(b"EC2\x00+1\x0018446744073709551615\x003\x00\x00").map(|s| s.start_ticks),
        Some(u64::MAX)
    );
}

#[test]
fn runtime_files_live_in_the_directory() {
    assert_eq!(lock_path(b"/run/user/1/ec"), b"/run/user/1/ec/ec.lock".to_vec());
    assert_eq!(status_path(b"/run/user/1/ec/"), b"/run/user/1/ec/ec.status".to_vec());
}

#[test]
fn worker_environment() {
    assert!(matches!(worker_cps_from(None, Some("20")), Ok(None)));
    assert!(matches!(worker_cps_from(Some(b"0"), Some("20")), Ok(None)));
    assert!(matches!(worker_cps_from(Some(b"1"), Some("20")), Ok(Some(20))));
    assert_eq!(
        message(worker_cps_from(Some(b"1"), None).unwrap_err()),
        "internal worker CPS is missing"
    );
    assert_eq!(
        message(worker_cps_from(Some(b"1"), Some("fast")).unwrap_err()),
        "internal worker CPS is invalid"
    );
    assert_eq!(
        message(worker_cps_from(Some(b"1"), Some("601")).unwrap_err()),
        "CPS must be between 1 and 600."
    );
}

#[test]
fn start_ticks_come_from_the_twentieth_field_after_the_name() {
    let stat = "4242 (ec (worker)) S 1 4242 4242 0 -1 4194560 100 0 0 0 1 2 0 0 20 0 1 0 987654 12345 67 18446744073709551615";
    assert_eq!(parse_start_ticks(stat), Some(987654));
    assert_eq!(parse_start_ticks("no parenthesis here"), None);
    assert_eq!(parse_start_ticks("1 (x) S 1 2"), None);
}

#[test]
fn worker_marker_must_be_a_whole_entry() {
    assert!(environ_has_marker(b"HOME=/h\0EC_INTERNAL_WORKER=1\0"));
    assert!(environ_has_marker(b"EC_INTERNAL_WORKER=1"));
    assert!(!environ_has_marker(b"EC_INTERNAL_WORKER=10\0"));
    assert!(!environ_has_marker(b"XEC_INTERNAL_WORKER=1\0"));
    assert!(!environ_has_marker(b""));
}

#[test]
fn status_report_names_rate_device_and_pid() {
    let status = Status {
        pid: 4242,
        start_ticks: 1,
        executable: b"/usr/bin/ec".to_vec(),
        cps: 100,
        device: "Example Mouse".into(),
    };
    assert_eq!(
        status_report(Some(&status)),
        "EC is running at 100 CPS.\nDevice: Example Mouse\nPID: 4242"
    );
    assert_eq!(status_report(None), "EC is not running.");
}

#[test]
fn startup_waits_for_the_worker_to_record_itself() {
    let log = b"/run/user/1000/ec/ec.log";
    assert_eq!(
        startup_next(7, log, StartupEvent::Expired(false)),
        StartupAction::ReadStatus
    );
    assert_eq!(
        startup_next(7, log, StartupEvent::Recorded(Some(7))),
        StartupAction::Started
    );
    assert_eq!(
        startup_next(7, log, StartupEvent::Recorded(Some(8))),
        StartupAction::CheckExit
    );
    assert_eq!(
        startup_next(7, log, StartupEvent::Recorded(None)),
        StartupAction::CheckExit
    );
    assert_eq!(
        startup_next(7, log, StartupEvent::Exited(None)),
        StartupAction::Pause
    );
}

#[test]
fn startup_failures_point_at_the_log() {
    let log = b"/run/user/1000/ec/ec.log";
    assert_eq!(
        startup_next(7, log, StartupEvent::Exited(Some("exit status: 1".into()))),
        StartupAction::Failed(
            "background worker exited during startup (exit status: 1); see /run/user/1000/ec/ec.log"
                .into()
        )
    );
    assert_eq!(
        startup_next(7, b"/tmp/\xffec.log", StartupEvent::Expired(true)),
        StartupAction::Failed(
            "background worker did not report ready within 5 seconds; see /tmp/\u{fffd}ec.log"
                .into()
        )
    );
}

#[test]
fn stale_record_is_cleared_without_signal() {
    let mut stopping = Stopping { pid: 31, signalled: false };
    assert_eq!(stopping.next(StopEvent::Alive(false)), StopAction::Done(false));
    assert!(!stopping.signalled);
}

#[test]
fn live_worker_is_signalled_once_then_watched() {
    let mut stopping = Stopping { pid: 31, signalled: false };
    assert_eq!(stopping.next(StopEvent::Alive(true)), StopAction::Signal);
    assert_eq!(stopping.next(StopEvent::Signal(None)), StopAction::StartTimer);
    assert!(stopping.signalled);
    assert_eq!(stopping.next(StopEvent::Expired(false)), StopAction::Check);
    assert_eq!(stopping.next(StopEvent::Alive(true)), StopAction::Pause);
    assert_eq!(stopping.next(StopEvent::Expired(false)), StopAction::Check);
    assert_eq!(stopping.next(StopEvent::Alive(false)), StopAction::Done(true));
}

#[test]
fn stop_failures_name_the_worker() {
    let mut stopping = Stopping { pid: 31, signalled: false };
    assert_eq!(
        stopping.next(StopEvent::Signal(Some("Operation not permitted (os error 1)".into()))),
        StopAction::Failed("failed to signal EC worker 31: Operation not permitted (os error 1)".into())
    );
    let mut waiting = Stopping { pid: 31, signalled: true };
    assert_eq!(
        waiting.next(StopEvent::Expired(true)),
        StopAction::Failed("EC worker 31 did not stop within 5 seconds".into())
    );
}

#[test]
fn a_second_worker_is_refused() {
    assert!(start_allowed(false).is_ok());
    assert_eq!(
        message(start_allowed(true).unwrap_err()),
        "EC is already running. Run `ec stop` first."
    );
}
