use ec::cli::{parse_action, Action, HELP};

#[test]
fn help_contains_only_the_minimal_surface() {
    let help = HELP.to_string();
    for accepted in [
        "ec start",
        "ec <CPS>",
        "ec stop",
        "ec status",
        "ec setup",
        "ec doctor",
    ] {
        assert!(help.contains(accepted));
    }
    for removed in [
        "test",
        "config",
        "burst",
        "background",
        "verbose",
        "version",
    ] {
        assert!(!help.contains(removed));
    }
}

#[test]
fn action_words_and_rates_are_read() {
    assert_eq!(parse_action("start"), Ok(Action::Start(20)));
    for cps in [1, 20, 100, 600] {
        assert_eq!(parse_action(&cps.to_string()), Ok(Action::Start(cps)));
    }
    assert_eq!(parse_action("+7"), Ok(Action::Start(7)));
    assert_eq!(parse_action("stop"), Ok(Action::Stop));
    assert_eq!(parse_action("status"), Ok(Action::Status));
    assert_eq!(parse_action("setup"), Ok(Action::Setup));
    assert_eq!(parse_action("doctor"), Ok(Action::Doctor));
}

#[test]
fn out_of_range_rates_are_refused() {
    for value in ["0", "601", "4294967295"] {
        assert_eq!(
            parse_action(value),
            Err("CPS must be between 1 and 600.".to_string())
        );
    }
}

#[test]
fn unknown_words_are_refused() {
    for value in ["test", "config", "abc", "", "-5", "4294967296", "Start"] {
        assert_eq!(
            parse_action(value),
            Err(format!(
                "unknown command or CPS `{value}`; expected start, stop, status, setup, doctor, or 1–600"
            ))
        );
    }
}

#[test]
fn every_rate_in_range_starts_at_that_rate() {
    for cps in 0u32..=700 {
        let parsed = parse_action(&cps.to_string());
        if (1..=600).contains(&cps) {
            assert_eq!(parsed, Ok(Action::Start(cps)));
        } else {
            assert_eq!(parsed, Err("CPS must be between 1 and 600.".to_string()));
        }
    }
}
