use ec::input::Candidate;
use ec::config::EntryFacts;
use ec::setup::{
    access_message, check_rule_target, parse_selection, rule_is_current, selection_report,
    setup_candidates,
    setup_next, shell_quote, udevadm_commands, udevadm_line, udevadm_outcome, SetupEvent,
    SetupStep, RULES,
};
use ec::Error;

fn message(error: Error) -> String {
    match error {
        Error::Message(text) => text,
        Error::Io { operation, .. } => panic!("unexpected I/O error from {operation}"),
    }
}

#[test]
fn canonical_rule_is_narrow() {
    assert!(RULES.ends_with('\n'));
    assert!(RULES.contains("static_node=uinput"));
    assert!(RULES.contains("TAG+=\"uaccess\""));
    assert!(RULES.contains("ID_INPUT_MOUSE"));
    assert!(RULES.contains("ID_INPUT_TOUCHPAD"));
    for forbidden in ["MODE=", "0666", "GROUP=", "KEYBOARD"] {
        assert!(!RULES.contains(forbidden));
    }
}

#[test]
fn quotes_executable_safely() {
    assert_eq!(shell_quote("/home/og/ec"), "/home/og/ec");
    assert_eq!(shell_quote("/a b/ec's"), "'/a b/ec'\\''s'");
}

#[test]
fn quoting_covers_non_ascii_and_empty_runs() {
    assert_eq!(shell_quote("''"), "''\\'''\\'''");
    assert_eq!(shell_quote("/é"), "'/é'");
    assert_eq!(shell_quote(""), "");
    assert_eq!(
        access_message("/a b/ec"),
        "EC needs one-time system device access.\n\nRun:\n  sudo '/a b/ec' setup\n\nThen run:\n  ec setup"
    );
}

#[test]
fn udevadm_steps_are_exact() {
    assert_eq!(
        udevadm_commands(),
        vec![
            vec!["control", "--reload-rules"],
            vec![
                "trigger",
                "--subsystem-match=misc",
                "--sysname-match=uinput"
            ],
            vec!["trigger", "--subsystem-match=input"],
            vec!["settle"]
        ]
    );
}

#[test]
fn selection_answers() {
    assert_eq!(parse_selection("2\n", 3).unwrap(), 1);
    assert_eq!(parse_selection("1\r\n", 3).unwrap(), 0);
    assert_eq!(parse_selection("3", 3).unwrap(), 2);
    assert_eq!(
        message(parse_selection("\n", 3).unwrap_err()),
        "Mouse selection cancelled; no configuration was changed."
    );
    for bad in ["0\n", "4\n", "x\n", "1\r", " 1\n"] {
        assert_eq!(
            message(parse_selection(bad, 3).unwrap_err()),
            "Invalid selection; no configuration was changed."
        );
    }
}

#[test]
fn setup_offers_only_strong_stable_mice() {
    let candidate = |path: &str, strong: bool| Candidate {
        path: path.as_bytes().to_vec(),
        name: "Mouse".into(),
        strong,
    };
    let offered = setup_candidates(vec![
        candidate("/dev/input/event3", true),
        candidate("/dev/input/by-id/a-event-mouse", false),
        candidate("/dev/input/by-id/b-event-mouse", true),
        candidate("/dev/input/by-id/c-event-mouse", true),
    ]);
    assert_eq!(
        offered,
        vec![
            candidate("/dev/input/by-id/b-event-mouse", true),
            candidate("/dev/input/by-id/c-event-mouse", true)
        ]
    );
}

fn shell_read(word: &str) -> String {
    let chars: Vec<char> = word.chars().collect();
    let mut out = String::new();
    let mut quoted = false;
    let mut i = 0;
    while i < chars.len() {
        let c = chars[i];
        if quoted {
            if c == '\'' {
                quoted = false;
            } else {
                out.push(c);
            }
        } else if c == '\'' {
            quoted = true;
        } else if c == '\\' && i + 1 < chars.len() {
            i += 1;
            out.push(chars[i]);
        } else {
            out.push(c);
        }
        i += 1;
    }
    out
}

#[test]
fn quoted_words_read_back_unchanged() {
    for value in ["/home/og/ec", "/a b/ec's", "'", "it's a 'test'", "", "$HOME/\\x", "é"] {
        assert_eq!(shell_read(&shell_quote(value)), value);
    }
}

#[test]
fn numbered_answers_select_that_mouse() {
    for count in 1..=12usize {
        for k in 1..=count {
            assert_eq!(parse_selection(&format!("{k}\n"), count).unwrap(), k - 1);
        }
    }
}

#[test]
fn udevadm_stops_at_the_failed_command() {
    let commands = udevadm_commands();
    assert_eq!(udevadm_line(&commands[1]), "udevadm trigger --subsystem-match=misc --sysname-match=uinput");
    assert!(udevadm_outcome(&commands[0], true).is_ok());
    assert_eq!(
        message(udevadm_outcome(&commands[3], false).unwrap_err()),
        "udevadm settle failed"
    );
    assert_eq!(
        message(udevadm_outcome(&commands[0], false).unwrap_err()),
        "udevadm control --reload-rules failed"
    );
}

#[test]
fn rule_target_must_be_a_regular_file() {
    let file = EntryFacts { is_symlink: false, is_dir: false, is_file: true, owner: 0 };
    let link = EntryFacts { is_symlink: true, is_dir: false, is_file: false, owner: 0 };
    let dir = EntryFacts { is_symlink: false, is_dir: true, is_file: false, owner: 0 };
    assert!(check_rule_target(b"/etc/udev/rules.d/70-ec.rules", &file).is_ok());
    for facts in [link, dir] {
        assert_eq!(
            message(check_rule_target(b"/etc/udev/rules.d/70-ec.rules", &facts).unwrap_err()),
            "refusing unsafe udev rule target /etc/udev/rules.d/70-ec.rules"
        );
    }
}

#[test]
fn setup_steps_follow_access_configuration_and_offer() {
    assert_eq!(setup_next(SetupEvent::Access(false)), SetupStep::NeedAccess);
    assert_eq!(setup_next(SetupEvent::Access(true)), SetupStep::ReadConfig);
    assert_eq!(setup_next(SetupEvent::Configured(true)), SetupStep::KeepConfigured);
    assert_eq!(setup_next(SetupEvent::Configured(false)), SetupStep::Discover);
    assert_eq!(
        setup_next(SetupEvent::Offered { count: 0, interactive: true }),
        SetupStep::Refuse {
            show_menu: false,
            message: "No readable compatible mouse with a stable /dev/input/by-id/*-event-mouse path was found.".into()
        }
    );
    assert_eq!(
        setup_next(SetupEvent::Offered { count: 1, interactive: false }),
        SetupStep::TakeOnly
    );
    assert_eq!(
        setup_next(SetupEvent::Offered { count: 2, interactive: false }),
        SetupStep::Refuse {
            show_menu: true,
            message: "Interactive selection is required; no configuration was changed.".into()
        }
    );
    assert_eq!(
        setup_next(SetupEvent::Offered { count: 2, interactive: true }),
        SetupStep::Ask
    );
}

#[test]
fn selection_is_reported_by_name_and_path() {
    let c = Candidate {
        path: b"/dev/input/by-id/usb-x-event-mouse".to_vec(),
        name: "X Mouse".into(),
        strong: true,
    };
    assert_eq!(
        selection_report(&c),
        "Selected mouse     X Mouse\nDevice path        /dev/input/by-id/usb-x-event-mouse"
    );
}

#[test]
fn only_the_exact_rule_counts_as_installed() {
    assert!(rule_is_current(RULES.as_bytes()));
    assert!(!rule_is_current(b"old\n"));
    assert!(!rule_is_current(&RULES.as_bytes()[..RULES.len() - 1]));
}
