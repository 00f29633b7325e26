use ec::config::{
    device_config_text, join_path, parse_device_config, path_for, validate_stable_path,
};
use ec::Error;

fn message(error: Error) -> String {
    match error {
        Error::Message(text) => text,
        Error::Io { operation, .. } => panic!("unexpected I/O error from {operation}"),
    }
}

#[test]
fn stable_paths_are_strict() {
    assert!(validate_stable_path(b"/dev/input/by-id/usb-x-event-mouse").is_ok());
    for bad in [
        "dev/input/by-id/x-event-mouse",
        "/dev/input/event2",
        "/dev/input/by-id/x",
        "/dev/input/by-id/a/usb-x-event-mouse",
    ] {
        assert!(validate_stable_path(bad.as_bytes()).is_err(), "{bad}");
    }
}

#[test]
fn normalized_stable_paths_are_accepted() {
    for good in [
        "//dev/input/by-id/usb-x-event-mouse",
        "/dev/./input//by-id/usb-x-event-mouse/",
    ] {
        assert!(validate_stable_path(good.as_bytes()).is_ok(), "{good}");
    }
    for bad in ["/dev/input/by-id/../by-id/x-event-mouse", "/", ""] {
        assert_eq!(
            message(validate_stable_path(bad.as_bytes()).unwrap_err()),
            "configured mouse path must be an absolute /dev/input/by-id/*-event-mouse path"
        );
    }
}

#[test]
fn resolves_xdg_then_home_fallback() {
    assert_eq!(
        path_for(Some(b"/xdg".to_vec()), Some(b"/home/me".to_vec())).unwrap(),
        b"/xdg/ec/device".to_vec()
    );
    assert_eq!(
        path_for(None, Some(b"/home/me".to_vec())).unwrap(),
        b"/home/me/.config/ec/device".to_vec()
    );
    assert_eq!(
        path_for(Some(Vec::new()), Some(b"/home/me".to_vec())).unwrap(),
        b"/home/me/.config/ec/device".to_vec()
    );
    assert!(path_for(None, None).is_err());
}

#[test]
fn joining_follows_path_rules() {
    assert_eq!(join_path(b"/a/", b"b"), b"/a/b".to_vec());
    assert_eq!(join_path(b"", b"b"), b"b".to_vec());
    assert_eq!(join_path(b"/a", b"/b"), b"/b".to_vec());
    assert_eq!(
        message(path_for(None, None).unwrap_err()),
        "HOME is unset; cannot locate EC configuration"
    );
}

#[test]
fn written_configuration_reads_back() {
    let selected = b"/dev/input/by-id/usb-x-event-mouse";
    let text = device_config_text(selected);
    assert_eq!(text, b"/dev/input/by-id/usb-x-event-mouse\n".to_vec());
    assert_eq!(parse_device_config(&text).unwrap(), selected.to_vec());
}

#[test]
fn malformed_device_configurations_are_refused() {
    let cases: [(&[u8], &str); 6] = [
        (
            b"/dev/input/by-id/x-event-mouse",
            "device configuration must contain exactly one nonempty path and a final newline",
        ),
        (
            b"/dev/input/by-id/x-event-mouse\nextra\n",
            "device configuration must contain exactly one nonempty path and a final newline",
        ),
        (
            b"/dev/input/by-id/x-event-mouse\0\n",
            "device configuration contains a NUL byte",
        ),
        (b"\xff\n", "device configuration is not UTF-8"),
        (
            b" \t\n",
            "device configuration must contain exactly one nonempty path and a final newline",
        ),
        (
            b"/dev/input/event3\n",
            "configured mouse path must be an absolute /dev/input/by-id/*-event-mouse path",
        ),
    ];
    for (content, expected) in cases {
        assert_eq!(message(parse_device_config(content).unwrap_err()), expected);
    }
}

#[test]
fn invalid_utf8_paths_are_written_as_displayed() {
    let text = device_config_text(b"/dev/input/by-id/\xff-event-mouse");
    assert_eq!(
        text,
        "/dev/input/by-id/\u{fffd}-event-mouse\n".as_bytes().to_vec()
    );
}

#[test]
fn io_failures_name_the_operation_and_path() {
    match ec::io_failure(
        "read device configuration",
        b"/tmp/\xffx",
        std::io::Error::other("boom"),
    ) {
        Error::Io {
            operation,
            path,
            source,
        } => {
            assert_eq!(operation, "read device configuration");
            assert_eq!(path, "/tmp/\u{fffd}x");
            assert_eq!(source.to_string(), "boom");
        }
        Error::Message(_) => panic!("expected an I/O error"),
    }
}
