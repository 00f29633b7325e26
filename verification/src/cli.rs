//! The command-line surface: one optional action word or click rate.
use crate::click::{cps_error, cps_error_text, cps_in_range, valid_cps, DEFAULT_CPS};
use crate::text::{
    char_codes, decimal_chars, lemma_decimal_chars_roundtrip, parse_u64_str, parsed_unsigned,
    value_of,
};
use vstd::prelude::*;

verus! {

/// The help text, shown for `ec`, `ec --help` and `ec -h`.
pub const HELP: &'static str = "EC generates repeated left mouse clicks.

Usage:
  ec start
  ec <CPS>
  ec stop
  ec status
  ec setup
  ec doctor

Commands:
  start     Start EC at 20 CPS
  stop      Stop EC
  status    Show EC status
  setup     Configure device access and mouse selection
  doctor    Check system readiness

Arguments:
  <CPS>     Start EC at 1–600 CPS

Examples:
  ec start
  ec 100
  ec 600
  ec stop
  ec status
  ec setup
  ec doctor";

#[derive(Clone, Copy, Debug, PartialEq, Eq, Structural)]
pub enum Action {
    Start(u32),
    Stop,
    Status,
    Setup,
    Doctor,
}

/// The parsed command line: no action means "show help".
pub struct Cli {
    pub action: Option<Action>,
}

/// The message for an argument that is neither a command nor a number.
pub open spec fn unknown_argument_text(value: Seq<char>) -> Seq<char> {
    "unknown command or CPS `"@ + value
        + "`; expected start, stop, status, setup, doctor, or 1–600"@
}

/// What the single positional argument means.
pub open spec fn action_for(value: Seq<char>) -> Result<Action, Seq<char>> {
    if value == "start"@ {
        Ok(Action::Start(DEFAULT_CPS))
    } else if value == "stop"@ {
        Ok(Action::Stop)
    } else if value == "status"@ {
        Ok(Action::Status)
    } else if value == "setup"@ {
        Ok(Action::Setup)
    } else if value == "doctor"@ {
        Ok(Action::Doctor)
    } else {
        match parsed_unsigned(char_codes(value), u32::MAX as int) {
            None => Err(unknown_argument_text(value)),
            Some(cps) => if cps_in_range(cps) {
                Ok(Action::Start(cps as u32))
            } else {
                Err(cps_error_text())
            },
        }
    }
}

/// Whether two strings hold the same characters.
pub fn str_equal(a: &str, b: &str) -> (r: bool)
    ensures
        r == (a@ == b@),
{
    let n = a.unicode_len();
    if n != b.unicode_len() {
        return false;
    }
    let mut i: usize = 0;
    while i < n
        invariant
            n == a@.len(),
            n == b@.len(),
            i <= n,
            forall|j: int| 0 <= j < i ==> a@[j] == b@[j],
        decreases n - i,
    {
        if a.get_char(i) != b.get_char(i) {
            return false;
        }
        i = i + 1;
    }
    assert(a@ =~= b@);
    true
}

/// Reads the single positional argument: an action word, or a click rate
/// that starts EC at that rate.
pub fn parse_action(value: &str) -> (r: Result<Action, String>)
    ensures
        match r {
            Ok(action) => action_for(value@) == Ok::<Action, Seq<char>>(action),
            Err(message) => action_for(value@) == Err::<Action, Seq<char>>(message@),
        },
{
    if str_equal(value, "start") {
        Ok(Action::Start(DEFAULT_CPS))
    } else if str_equal(value, "stop") {
        Ok(Action::Stop)
    } else if str_equal(value, "status") {
        Ok(Action::Status)
    } else if str_equal(value, "setup") {
        Ok(Action::Setup)
    } else if str_equal(value, "doctor") {
        Ok(Action::Doctor)
    } else {
        let parsed = parse_u64_str(value);
        match parsed {
            Some(n) if n <= u32::MAX as u64 => {
                let cps = n as u32;
                if valid_cps(cps) {
                    Ok(Action::Start(cps))
                } else {
                    Err(cps_error())
                }
            },
            _ => {
                proof {
                    assert(parsed_unsigned(char_codes(value@), u32::MAX as int) is None) by {
                        if parsed is Some {
                            assert(value_of(parsed) == parsed_unsigned(
                                char_codes(value@),
                                u64::MAX as int,
                            ));
                        }
                    }
                }
                let mut message = String::from_str("unknown command or CPS `");
                message.append(value);
                message.append("`; expected start, stop, status, setup, doctor, or 1–600");
                Err(message)
            },
        }
    }
}

/// `ec <CPS>` starts EC at exactly that rate for every rate from 1 to 600
/// written in decimal, and refuses every other rate a `u32` can hold with
/// the range message.
pub proof fn lemma_rate_argument(n: u32)
    ensures
        cps_in_range(n as int) ==> action_for(decimal_chars(n as nat)) == Ok::<Action, Seq<char>>(
            Action::Start(n),
        ),
        !cps_in_range(n as int) ==> action_for(decimal_chars(n as nat)) == Err::<Action, Seq<char>>(
            cps_error_text(),
        ),
{
    let text = decimal_chars(n as nat);
    lemma_decimal_chars_roundtrip(n as nat, u32::MAX as int);
    reveal_strlit("start");
    reveal_strlit("stop");
    reveal_strlit("status");
    reveal_strlit("setup");
    reveal_strlit("doctor");
    assert(text != "start"@ && text != "stop"@ && text != "status"@ && text != "setup"@ && text
        != "doctor"@) by {
        assert(crate::text::is_digit_code(text[0] as int));
    }
}

} // verus!
