//! The readiness report and the rule that EC starts only when every check
//! has passed.
use crate::input::Candidate;
use crate::setup::{shell_quote, shell_word};
use crate::text::{display_bytes, lossy_text};
use crate::{message, Error};
use vstd::prelude::*;

verus! {

/// The outcome of one readiness check, with the text shown for it.
#[derive(Debug)]
pub enum Check {
    Ready(String),
    Failed(String),
}

impl Check {
    pub fn ok(&self) -> (r: bool)
        ensures
            r == self is Ready,
    {
        match self {
            Check::Ready(_) => true,
            Check::Failed(_) => false,
        }
    }

    pub fn text(&self) -> (s: &str)
        ensures
            s@ == match self {
                Check::Ready(t) => t@,
                Check::Failed(t) => t@,
            },
    {
        match self {
            Check::Ready(t) => t.as_str(),
            Check::Failed(t) => t.as_str(),
        }
    }
}

/// Everything EC needs before it may start.
#[derive(Debug)]
pub struct Readiness {
    pub linux: bool,
    pub session: &'static str,
    pub uinput: Check,
    pub device: Result<Candidate, String>,
    pub grab: Check,
    pub runtime: Check,
}

impl Readiness {
    /// Ready when the system is Linux, uinput is usable, a mouse was chosen,
    /// it can be grabbed, and the runtime directory is usable.
    pub open spec fn is_ready(&self) -> bool {
        &&& self.linux
        &&& self.uinput is Ready
        &&& self.device is Ok
        &&& self.grab is Ready
        &&& self.runtime is Ready
    }

    pub fn ready(&self) -> (r: bool)
        ensures
            r == self.is_ready(),
            r == (self.linux && self.uinput is Ready && self.device is Ok && self.grab is Ready
                && self.runtime is Ready),
    {
        self.linux && self.uinput.ok() && self.device.is_ok() && self.grab.ok()
            && self.runtime.ok()
    }
}

/// A report is ready exactly when every check passed: the system is Linux,
/// uinput is usable, a mouse was chosen, it can be grabbed, and the runtime
/// directory is usable. A single failed check makes it not ready.
pub proof fn lemma_ready_needs_every_check(r: Readiness)
    ensures
        r.is_ready() ==> r.linux,
        r.is_ready() ==> r.uinput is Ready,
        r.is_ready() ==> r.device is Ok,
        r.is_ready() ==> r.grab is Ready,
        r.is_ready() ==> r.runtime is Ready,
        r.linux && r.uinput is Ready && r.device is Ok && r.grab is Ready && r.runtime is Ready
            ==> r.is_ready(),
{
}

pub open spec fn preflight_failed_text() -> Seq<char> {
    "readiness preflight failed; EC was not started"@
}

/// Starts EC through `spawn` only when the report is ready; otherwise fails
/// without calling it.
pub fn start_with<F>(report: Readiness, spawn: F) -> (r: Result<(), Error>)
    where
        F: FnOnce() -> Result<(), Error>,
    requires
        report.is_ready() ==> call_requires(spawn, ()),
    ensures
        !report.is_ready() ==> (r matches Err(e) && e.is_message(preflight_failed_text())),
        report.is_ready() ==> call_ensures(spawn, (), r),
{
    if !report.ready() {
        return Err(message("readiness preflight failed; EC was not started"));
    }
    spawn()
}

/// The graphical session in use, from whether `WAYLAND_DISPLAY` and
/// `DISPLAY` are set.
pub fn session_label(wayland: bool, x11: bool) -> (s: &'static str)
    ensures
        s@ == if wayland {
            "Wayland"@
        } else if x11 {
            "X11"@
        } else {
            "not detected"@
        },
{
    if wayland {
        "Wayland"
    } else if x11 {
        "X11"
    } else {
        "not detected"
    }
}

/// One line of the readiness report: the label padded to 17 columns, a
/// space, and the value.
pub open spec fn row(padded_label: Seq<char>, value: Seq<char>) -> Seq<char> {
    padded_label + value + "\n"@
}

pub open spec fn check_text(c: Check) -> Seq<char> {
    match c {
        Check::Ready(t) => t@,
        Check::Failed(t) => t@,
    }
}

/// The first three rows of the report.
pub open spec fn report_head(r: Readiness) -> Seq<char> {
    row(
        "System            "@,
        if r.linux {
            "Linux"@
        } else {
            "unsupported"@
        },
    ) + row("Session           "@, r.session@) + row("uinput            "@, check_text(r.uinput))
}

/// The hint shown under a failed uinput check when the executable's path
/// is known.
pub open spec fn access_hint(r: Readiness, exe: Option<Seq<char>>) -> Seq<char> {
    if !(r.uinput is Ready) && exe is Some {
        "  EC needs one-time system device access.\n  Run:\n    sudo "@ + shell_word(exe->0)
            + " setup\n"@
    } else {
        Seq::empty()
    }
}

/// The rows about the chosen mouse, or why there is none.
pub open spec fn device_rows(r: Readiness) -> Seq<char> {
    match r.device {
        Ok(c) => row("Configured mouse  "@, c.name@) + row("Device path       "@, lossy_text(c.path@)),
        Err(e) => row("Input device      "@, "not ready"@) + "  "@ + e@ + "\n"@,
    }
}

/// The last rows and the verdict.
pub open spec fn report_tail(r: Readiness) -> Seq<char> {
    row("Permissions       "@, check_text(r.grab)) + row("Runtime           "@, check_text(r.runtime))
        + if r.is_ready() {
        "\nEC is ready.\n"@
    } else {
        "\nEC is not ready.\n"@
    }
}

/// The readiness report as printed, given the resolved executable path
/// used in the hint for missing uinput access (when it could be found).
pub open spec fn report_text(r: Readiness, exe: Option<Seq<char>>) -> Seq<char> {
    report_head(r) + access_hint(r, exe) + device_rows(r) + report_tail(r)
}

fn push_row(out: &mut String, padded_label: &str, value: &str)
    ensures
        final(out)@ == old(out)@ + row(padded_label@, value@),
{
    out.append(padded_label);
    out.append(value);
    out.append("\n");
    assert(final(out)@ =~= old(out)@ + row(padded_label@, value@));
}

fn head_text(report: &Readiness) -> (s: String)
    ensures
        s@ == report_head(*report),
{
    let mut out = String::new();
    push_row(
        &mut out,
        "System            ",
        if report.linux {
            "Linux"
        } else {
            "unsupported"
        },
    );
    push_row(&mut out, "Session           ", report.session);
    push_row(&mut out, "uinput            ", report.uinput.text());
    assert(out@ =~= report_head(*report));
    out
}

fn hint_text(report: &Readiness, exe: Option<&str>) -> (s: String)
    ensures
        s@ == access_hint(
            *report,
            match exe {
                Some(e) => Some(e@),
                None => None,
            },
        ),
{
    let mut out = String::new();
    if !report.uinput.ok() {
        match exe {
            Some(e) => {
                out.append("  EC needs one-time system device access.\n  Run:\n    sudo ");
                let quoted = shell_quote(e);
                out.append(quoted.as_str());
                out.append(" setup\n");
            },
            None => {},
        }
    }
    out
}

fn device_text(report: &Readiness) -> (s: String)
    ensures
        s@ == device_rows(*report),
{
    let mut out = String::new();
    match &report.device {
        Ok(candidate) => {
            push_row(&mut out, "Configured mouse  ", candidate.name.as_str());
            let shown = display_bytes(candidate.path.as_slice());
            push_row(&mut out, "Device path       ", shown.as_str());
        },
        Err(error) => {
            push_row(&mut out, "Input device      ", "not ready");
            out.append("  ");
            out.append(error.as_str());
            out.append("\n");
        },
    }
    out
}

fn tail_text(report: &Readiness) -> (s: String)
    ensures
        s@ == report_tail(*report),
{
    let mut out = String::new();
    push_row(&mut out, "Permissions       ", report.grab.text());
    push_row(&mut out, "Runtime           ", report.runtime.text());
    if report.ready() {
        out.append("\nEC is ready.\n");
    } else {
        out.append("\nEC is not ready.\n");
    }
    out
}

/// The readiness report, one labelled line per check.
pub fn render_text(report: &Readiness, exe: Option<&str>) -> (s: String)
    ensures
        s@ == report_text(
            *report,
            match exe {
                Some(e) => Some(e@),
                None => None,
            },
        ),
{
    let mut out = head_text(report);
    let hint = hint_text(report, exe);
    out.append(hint.as_str());
    let device = device_text(report);
    out.append(device.as_str());
    let tail = tail_text(report);
    out.append(tail.as_str());
    out
}

/// What trying to open `/dev/uinput` for reading and writing found.
pub enum UinputProbe {
    /// The node does not exist.
    Missing,
    /// It opened.
    Opened,
    /// Opening it failed with this error.
    Refused(String),
}

/// The uinput check for what the probe found.
pub fn uinput_check(probe: UinputProbe) -> (c: Check)
    ensures
        match probe {
            UinputProbe::Missing => c matches Check::Failed(t) && t@ == "missing"@,
            UinputProbe::Opened => c matches Check::Ready(t) && t@ == "available"@,
            UinputProbe::Refused(e) => c matches Check::Failed(t) && t@ == "inaccessible: "@ + e@,
        },
{
    match probe {
        UinputProbe::Missing => Check::Failed(String::from_str("missing")),
        UinputProbe::Opened => Check::Ready(String::from_str("available")),
        UinputProbe::Refused(e) => {
            let mut t = String::from_str("inaccessible: ");
            t.append(e.as_str());
            Check::Failed(t)
        },
    }
}

/// What a trial exclusive grab of the chosen mouse found.
pub enum GrabProbe {
    /// No mouse was chosen, so nothing was tried.
    NoDevice,
    /// Opening the device failed with this error.
    OpenFailed(String),
    /// Grabbing it failed with this error.
    GrabFailed(String),
    /// Releasing the grab failed with this error.
    ReleaseFailed(String),
    /// It was grabbed and released.
    Released,
}

/// The permissions check for what the trial grab of the mouse at `path`
/// found.
pub fn grab_check(path: &[u8], probe: GrabProbe) -> (c: Check)
    ensures
        match probe {
            GrabProbe::NoDevice => c matches Check::Failed(t) && t@ == "not tested"@,
            GrabProbe::OpenFailed(e) => c matches Check::Failed(t) && t@ == "cannot open "@
                + lossy_text(path@) + ": "@ + e@,
            GrabProbe::GrabFailed(e) => c matches Check::Failed(t) && t@
                == "cannot exclusively grab "@ + lossy_text(path@) + ": "@ + e@,
            GrabProbe::ReleaseFailed(e) => c matches Check::Failed(t) && t@
                == "failed to release test grab: "@ + e@,
            GrabProbe::Released => c matches Check::Ready(t) && t@ == "valid"@,
        },
{
    match probe {
        GrabProbe::NoDevice => Check::Failed(String::from_str("not tested")),
        GrabProbe::OpenFailed(e) => {
            let mut t = String::from_str("cannot open ");
            let shown = display_bytes(path);
            t.append(shown.as_str());
            t.append(": ");
            t.append(e.as_str());
            Check::Failed(t)
        },
        GrabProbe::GrabFailed(e) => {
            let mut t = String::from_str("cannot exclusively grab ");
            let shown = display_bytes(path);
            t.append(shown.as_str());
            t.append(": ");
            t.append(e.as_str());
            Check::Failed(t)
        },
        GrabProbe::ReleaseFailed(e) => {
            let mut t = String::from_str("failed to release test grab: ");
            t.append(e.as_str());
            Check::Failed(t)
        },
        GrabProbe::Released => Check::Ready(String::from_str("valid")),
    }
}

/// The runtime check: whether the runtime directory and status could be
/// read and a worker is running, or the error that stopped the reading.
pub fn runtime_check(status: Result<bool, String>) -> (c: Check)
    ensures
        match status {
            Ok(true) => c matches Check::Ready(t) && t@ == "ready (EC running)"@,
            Ok(false) => c matches Check::Ready(t) && t@ == "ready"@,
            Err(e) => c matches Check::Failed(t) && t@ == e@,
        },
{
    match status {
        Ok(true) => Check::Ready(String::from_str("ready (EC running)")),
        Ok(false) => Check::Ready(String::from_str("ready")),
        Err(e) => Check::Failed(e),
    }
}

} // verus!
