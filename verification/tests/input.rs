use ec::input::{
    accepts_device, choose_strong, configured_choice, disconnected_message, is_candidate,
    no_left_button_message, poll_outcome, run_result,
    resolves_to_event_node, route_event, select, Candidate, DeviceFacts, Discovery, PollOutcome,
    Route, VIRTUAL_NAME,
};
use ec::Error;

#[derive(Clone, Debug, Eq, PartialEq)]
enum Event {
    Move(i32, i32),
    Wheel(i32, i32),
    Button(u16, bool),
    Disconnect,
}

#[derive(Clone, Debug, Eq, PartialEq)]
enum Output {
    Forward(Event),
    Hold(bool),
    Error,
}

struct Processor {
    target: u16,
}

impl Processor {
    fn event(&self, event: Event) -> Output {
        match event {
            Event::Button(key, down) if key == self.target => Output::Hold(down),
            Event::Disconnect => Output::Error,
            other => Output::Forward(other),
        }
    }
}

fn message(error: Error) -> String {
    match error {
        Error::Message(text) => text,
        Error::Io { operation, .. } => panic!("unexpected I/O error from {operation}"),
    }
}

#[test]
fn movement_and_wheels_are_unchanged() {
    let processor = Processor { target: 1 };
    for event in [Event::Move(4, -2), Event::Wheel(1, -1)] {
        assert_eq!(processor.event(event.clone()), Output::Forward(event));
    }
}

#[test]
fn unrelated_button_is_unchanged() {
    let processor = Processor { target: 1 };
    let event = Event::Button(2, true);
    assert_eq!(processor.event(event.clone()), Output::Forward(event));
}

#[test]
fn left_button_controls_hold_state() {
    let processor = Processor { target: 1 };
    assert_eq!(processor.event(Event::Button(1, true)), Output::Hold(true));
    assert_eq!(
        processor.event(Event::Button(1, false)),
        Output::Hold(false)
    );
}

#[test]
fn disconnect_is_clean_error() {
    let processor = Processor { target: 1 };
    assert_eq!(processor.event(Event::Disconnect), Output::Error);
}

#[test]
fn unsuitable_sources_are_filtered() {
    assert!(!is_candidate(VIRTUAL_NAME, true, true, false));
    assert!(!is_candidate("Keyboard", false, true, false));
    assert!(!is_candidate("Touchpad", true, true, false));
    assert!(!is_candidate("Tablet", true, true, true));
    assert!(is_candidate("Mouse", true, true, false));
}

#[test]
fn excludes_virtual() {
    assert!(!is_candidate(VIRTUAL_NAME, true, true, false));
    assert!(!is_candidate("Keyboard", false, true, false));
    assert!(!is_candidate("Touchpad", true, true, false));
    assert!(!is_candidate("Tablet", true, true, true));
    assert!(is_candidate("Mouse", true, true, false));
}

#[test]
fn ambiguous_candidates_are_refused() {
    let candidate = |path: &str| Candidate {
        path: path.as_bytes().to_vec(),
        name: "Mouse".into(),
        strong: true,
    };
    assert!(choose_strong(&[candidate("/dev/a"), candidate("/dev/b")]).is_none());
    assert_eq!(
        choose_strong(&[candidate("/dev/a")]).map(|item| item.path),
        Some(b"/dev/a".to_vec())
    );
}

#[test]
fn names_are_compared_without_ascii_case() {
    assert!(!is_candidate("USB TOUCHPAD", true, true, false));
    assert!(!is_candidate("SynPS/2 TrackPad", true, true, false));
    assert!(is_candidate("ec virtual mouse", true, true, false));
    assert!(!is_candidate("Mouse", false, true, false));
    assert!(!is_candidate("Mouse", true, false, false));
}

#[test]
fn left_button_events_are_routed() {
    assert_eq!(route_event(1, 0x110, 1), Route::Hold(true));
    assert_eq!(route_event(1, 0x110, 0), Route::Hold(false));
    assert_eq!(route_event(1, 0x110, 2), Route::Drop);
    assert_eq!(route_event(1, 0x111, 1), Route::Forward);
    assert_eq!(route_event(2, 0x110, 1), Route::Forward);
}

#[test]
fn poll_results_are_classified() {
    assert_eq!(poll_outcome(-1, true, 0), PollOutcome::Retry);
    assert_eq!(poll_outcome(-1, false, 0), PollOutcome::Failed);
    assert_eq!(poll_outcome(0, false, 0), PollOutcome::Idle);
    assert_eq!(poll_outcome(1, false, 0x10), PollOutcome::Disconnected);
    assert_eq!(poll_outcome(1, false, 0x08), PollOutcome::Disconnected);
    assert_eq!(poll_outcome(1, false, 0x20), PollOutcome::Disconnected);
    assert_eq!(poll_outcome(1, false, 0x01), PollOutcome::Readable);
}

fn facts(name: Option<&str>, keyboard: bool) -> DeviceFacts {
    DeviceFacts {
        name: name.map(|n| n.to_string()),
        relative_xy: true,
        left_button: true,
        absolute_axes: false,
        keyboard,
        bus_type: 3,
        vendor: 0x46d,
    }
}

#[test]
fn discovery_records_candidates_and_diagnostics() {
    let mut discovery = Discovery::new();
    discovery.note_event_node();
    discovery.note_opened(b"/dev/input/event3".to_vec(), &facts(Some("USB Mouse"), false), None);
    discovery.note_opened(
        b"/dev/input/event4".to_vec(),
        &facts(Some("Gaming Keyboard"), true),
        None,
    );
    discovery.note_opened(
        b"/dev/input/event5".to_vec(),
        &facts(None, false),
        Some(b"/dev/input/by-id/x-event-mouse".to_vec()),
    );
    let mut virtual_mouse = facts(Some("Other"), false);
    virtual_mouse.bus_type = 6;
    virtual_mouse.vendor = 0x4543;
    assert!(!accepts_device(&virtual_mouse));
    discovery.note_opened(b"/dev/input/event6".to_vec(), &virtual_mouse, None);
    assert_eq!(
        discovery.candidates,
        vec![
            Candidate {
                path: b"/dev/input/event3".to_vec(),
                name: "USB Mouse".into(),
                strong: true
            },
            Candidate {
                path: b"/dev/input/event4".to_vec(),
                name: "Gaming Keyboard".into(),
                strong: false
            },
            Candidate {
                path: b"/dev/input/by-id/x-event-mouse".to_vec(),
                name: "Unknown mouse".into(),
                strong: true
            },
        ]
    );
    assert_eq!(discovery.incompatible, vec![b"/dev/input/event6".to_vec()]);
    for n in 0..20 {
        discovery.note_permission_denied(format!("/dev/input/event{n}").into_bytes());
    }
    assert_eq!(discovery.permission_denied.len(), 16);
}

#[test]
fn selection_explains_what_was_found() {
    let missing = Discovery::missing();
    assert_eq!(
        message(select(&missing).unwrap_err()),
        "/dev/input is missing.\nEC could not select one physical mouse safely.\nRun:\n  ec setup"
    );
    let mut empty = Discovery::new();
    assert_eq!(
        message(select(&empty).unwrap_err()),
        "No input event nodes were found.\nEC could not select one physical mouse safely.\nRun:\n  ec setup"
    );
    empty.note_event_node();
    empty.note_permission_denied(b"/dev/input/event0".to_vec());
    empty.note_permission_denied(b"/dev/input/event\xff".to_vec());
    assert_eq!(
        message(select(&empty).unwrap_err()),
        "Input event nodes are present but unreadable.\nPermission denied:\n  /dev/input/event0\n  /dev/input/event\u{fffd}\nEC could not select one physical mouse safely.\nRun:\n  ec setup"
    );
    empty.note_opened(b"/dev/input/event9".to_vec(), &facts(Some("Touchpad"), false), None);
    empty.note_open_failure(b"/dev/input/event8".to_vec(), "busy".into());
    assert_eq!(
        message(select(&empty).unwrap_err()),
        "Readable input devices were found, but none is a compatible physical mouse.\nSome event nodes were also inaccessible:\n  /dev/input/event0\n  /dev/input/event\u{fffd}\nOther event-node open failures:\n  /dev/input/event8: busy\nEC could not select one physical mouse safely.\nRun:\n  ec setup"
    );
}

#[test]
fn selection_of_several_or_one_mouse() {
    let mut found = Discovery::new();
    found.note_event_node();
    found.note_opened(b"/dev/input/event3".to_vec(), &facts(Some("A Mouse"), false), None);
    found.note_opened(b"/dev/input/event4".to_vec(), &facts(Some("B Mouse"), false), None);
    assert_eq!(
        message(select(&found).unwrap_err()),
        "Candidate devices:\n  /dev/input/event3  A Mouse\n  /dev/input/event4  B Mouse\nMultiple compatible mice were found.\nRun:\n  ec setup"
    );
    let mut single = Discovery::new();
    single.note_opened(b"/dev/input/event3".to_vec(), &facts(Some("A Mouse"), false), None);
    single.note_opened(b"/dev/input/event7".to_vec(), &facts(Some("Pointer"), true), None);
    let chosen = select(&single).unwrap();
    assert_eq!(chosen.path, b"/dev/input/event3".to_vec());
    assert_eq!(chosen.name, "A Mouse");
}

#[test]
fn configured_mouse_problems_say_to_rerun_setup() {
    assert_eq!(
        message(configured_choice(Err("gone".into())).unwrap_err()),
        "The configured mouse is unavailable or no longer compatible.\nRun:\n  ec setup\n\ngone"
    );
    let mouse = Candidate {
        path: b"/dev/input/by-id/x-event-mouse".to_vec(),
        name: "M".into(),
        strong: true,
    };
    assert_eq!(configured_choice(Ok(mouse.clone())).unwrap(), mouse);
}

#[test]
fn event_nodes_are_recognized() {
    assert!(resolves_to_event_node(b"/dev/input/event3"));
    assert!(resolves_to_event_node(b"/dev//input/event3/"));
    assert!(!resolves_to_event_node(b"/dev/input/mouse0"));
    assert!(!resolves_to_event_node(b"/dev/input/by-id/event3"));
    assert!(!resolves_to_event_node(b"dev/input/event3"));
}

#[test]
fn candidates_are_sorted_in_path_order() {
    let mut discovery = Discovery::new();
    for path in [
        "/dev/input/event9",
        "/dev/input/by-id/usb-b-event-mouse",
        "/dev/input-x/event1",
        "/dev/input/event10",
    ] {
        discovery.note_opened(path.as_bytes().to_vec(), &facts(Some("Mouse"), false), None);
    }
    discovery.sort_candidates();
    let order: Vec<Vec<u8>> = discovery.candidates.iter().map(|c| c.path.clone()).collect();
    let mut expected: Vec<std::path::PathBuf> = [
        "/dev/input/event9",
        "/dev/input/by-id/usb-b-event-mouse",
        "/dev/input-x/event1",
        "/dev/input/event10",
    ]
    .iter()
    .map(std::path::PathBuf::from)
    .collect();
    expected.sort();
    let expected: Vec<Vec<u8>> = expected
        .iter()
        .map(|p| p.to_str().unwrap().as_bytes().to_vec())
        .collect();
    assert_eq!(order, expected);
    assert_eq!(order[0], b"/dev/input/by-id/usb-b-event-mouse".to_vec());
    assert_eq!(order[3], b"/dev/input-x/event1".to_vec());
}

#[test]
fn equal_paths_keep_their_order_when_sorted() {
    let mut discovery = Discovery::new();
    for (path, name) in [
        ("/dev/input/event5", "First"),
        ("/dev/input/event2", "Second"),
        ("/dev/input//event5", "Third"),
        ("/dev/input/event5/", "Fourth"),
    ] {
        discovery.note_opened(path.as_bytes().to_vec(), &facts(Some(name), false), None);
    }
    discovery.sort_candidates();
    let names: Vec<&str> = discovery.candidates.iter().map(|c| c.name.as_str()).collect();
    assert_eq!(names, vec!["Second", "First", "Third", "Fourth"]);
}

#[test]
fn device_messages_name_the_path() {
    assert_eq!(
        disconnected_message(b"/dev/input/by-id/usb-x-event-mouse"),
        "input device /dev/input/by-id/usb-x-event-mouse disconnected"
    );
    assert_eq!(
        no_left_button_message(b"/dev/input/event3"),
        "input device /dev/input/event3 does not support the required left button"
    );
}

#[test]
fn scheduler_failure_wins_over_event_loop_error() {
    let loop_error = || Err(Error::Message("input device /dev/input/event3 disconnected".into()));
    match run_result(Err(std::io::Error::other("uinput gone")), loop_error(), "Mouse".into()) {
        Err(Error::Io { operation, path, source }) => {
            assert_eq!(operation, "emit synthetic mouse button frame");
            assert_eq!(path, VIRTUAL_NAME);
            assert_eq!(source.to_string(), "uinput gone");
        }
        other => panic!("unexpected {other:?}"),
    }
    match run_result(Ok(()), loop_error(), "Mouse".into()) {
        Err(Error::Message(text)) => {
            assert_eq!(text, "input device /dev/input/event3 disconnected")
        }
        other => panic!("unexpected {other:?}"),
    }
    assert_eq!(run_result(Ok(()), Ok(()), "Mouse".into()).unwrap(), "Mouse");
}
