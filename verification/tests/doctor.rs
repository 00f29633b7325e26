use ec::doctor::{
    grab_check, runtime_check, session_label, start_with, uinput_check, Check, GrabProbe,
    Readiness, UinputProbe,
};
use ec::input::Candidate;
use ec::Error;
use std::cell::Cell;

fn report(ready: bool) -> Readiness {
    Readiness {
        linux: ready,
        session: "test",
        uinput: if ready {
            Check::Ready("available".into())
        } else {
            Check::Failed("denied".into())
        },
        device: Ok(Candidate {
            path: b"/dev/input/by-id/test-event-mouse".to_vec(),
            name: "Test mouse".into(),
            strong: true,
        }),
        grab: Check::Ready("valid".into()),
        runtime: Check::Ready("ready".into()),
    }
}

#[test]
fn failed_preflight_prevents_spawn_callback() {
    let called = Cell::new(false);
    assert!(start_with(report(false), || {
        called.set(true);
        Ok(())
    })
    .is_err());
    assert!(!called.get());
}

#[test]
fn successful_preflight_permits_spawn_callback() {
    let called = Cell::new(false);
    start_with(report(true), || {
        called.set(true);
        Ok(())
    })
    .unwrap();
    assert!(called.get());
}

#[test]
fn readiness_needs_every_check() {
    assert!(report(true).ready());
    assert!(!report(false).ready());
    let mut missing_device = report(true);
    missing_device.device = Err("no mouse".into());
    assert!(!missing_device.ready());
    let mut no_grab = report(true);
    no_grab.grab = Check::Failed("busy".into());
    assert!(!no_grab.ready());
    assert_eq!(no_grab.grab.text(), "busy");
    assert!(!no_grab.grab.ok());
}

#[test]
fn preflight_failure_message_and_spawn_errors() {
    match start_with(report(false), || Ok(())) {
        Err(Error::Message(text)) => {
            assert_eq!(text, "readiness preflight failed; EC was not started")
        }
        _ => panic!("expected a preflight failure"),
    }
    match start_with(report(true), || Err(Error::Message("spawn failed".into()))) {
        Err(Error::Message(text)) => assert_eq!(text, "spawn failed"),
        _ => panic!("expected the spawn error"),
    }
}

#[test]
fn sessions_are_named() {
    assert_eq!(session_label(true, true), "Wayland");
    assert_eq!(session_label(false, true), "X11");
    assert_eq!(session_label(false, false), "not detected");
}

fn shown(check: Check) -> (bool, String) {
    match check {
        Check::Ready(text) => (true, text),
        Check::Failed(text) => (false, text),
    }
}

#[test]
fn probes_become_checks() {
    assert_eq!(shown(uinput_check(UinputProbe::Missing)), (false, "missing".into()));
    assert_eq!(shown(uinput_check(UinputProbe::Opened)), (true, "available".into()));
    assert_eq!(
        shown(uinput_check(UinputProbe::Refused("Permission denied (os error 13)".into()))),
        (false, "inaccessible: Permission denied (os error 13)".into())
    );
    let path = b"/dev/input/by-id/usb-x-event-mouse";
    assert_eq!(shown(grab_check(path, GrabProbe::NoDevice)), (false, "not tested".into()));
    assert_eq!(
        shown(grab_check(path, GrabProbe::OpenFailed("busy".into()))),
        (false, "cannot open /dev/input/by-id/usb-x-event-mouse: busy".into())
    );
    assert_eq!(
        shown(grab_check(path, GrabProbe::GrabFailed("busy".into()))),
        (false, "cannot exclusively grab /dev/input/by-id/usb-x-event-mouse: busy".into())
    );
    assert_eq!(
        shown(grab_check(path, GrabProbe::ReleaseFailed("gone".into()))),
        (false, "failed to release test grab: gone".into())
    );
    assert_eq!(shown(grab_check(path, GrabProbe::Released)), (true, "valid".into()));
    assert_eq!(shown(runtime_check(Ok(true))), (true, "ready (EC running)".into()));
    assert_eq!(shown(runtime_check(Ok(false))), (true, "ready".into()));
    assert_eq!(
        shown(runtime_check(Err("XDG_RUNTIME_DIR is not set".into()))),
        (false, "XDG_RUNTIME_DIR is not set".into())
    );
}
