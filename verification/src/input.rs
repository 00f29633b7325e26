//! Which input devices are physical mice EC may take over, how one is
//! chosen, what is said when none can be, and how each input event of the
//! chosen mouse is handled.
use crate::cli::str_equal;
use crate::config::{
    append_bytes, byte_views, components, dev_name, dot, input_name, path_components, slash,
};
use crate::text::{contains_at, contains_seq, display_bytes, lossy_text, starts_with};
use crate::Error;
use vstd::prelude::*;

verus! {

/// The name of EC's own virtual mouse.
pub const VIRTUAL_NAME: &'static str = "EC Virtual Mouse";

/// The vendor id of EC's own virtual mouse.
pub const EC_VENDOR: u16 = 0x4543;

/// At most this many paths are kept for each kind of diagnostic.
pub const DIAGNOSTIC_LIMIT: usize = 16;

/// The name given to a device that reports none.
pub const UNKNOWN_NAME: &'static str = "Unknown mouse";

/// `evdev::BusType::BUS_VIRTUAL`, the bus of virtual devices: 6.
#[verifier::external_body]
fn bus_virtual() -> (bus: u16)
    ensures
        bus == 6,
{
    evdev::BusType::BUS_VIRTUAL.0
}

/// `evdev::EventType::KEY`, the type of key and button events: 1.
#[verifier::external_body]
fn key_event_type() -> (t: u16)
    ensures
        t == 1,
{
    evdev::EventType::KEY.0
}

/// `evdev::KeyCode::BTN_LEFT`, the left mouse button: 0x110.
#[verifier::external_body]
fn left_button_code() -> (code: u16)
    ensures
        code == 0x110,
{
    evdev::KeyCode::BTN_LEFT.0
}

/// The character as `char::to_ascii_lowercase` gives it: `A`..`Z` become
/// `a`..`z`, every other character is kept.
fn lower_char(c: char) -> (r: char)
    ensures
        r == ascii_lower(c),
{
    if 'A' <= c && c <= 'Z' {
        ((c as u8) + 32) as char
    } else {
        c
    }
}

pub open spec fn ascii_lower(c: char) -> char {
    if 'A' <= c <= 'Z' {
        ((c as u32) + 32) as char
    } else {
        c
    }
}

/// `str::to_ascii_lowercase` as characters.
pub open spec fn lower(s: Seq<char>) -> Seq<char> {
    s.map_values(|c: char| ascii_lower(c))
}

/// Whether the ASCII-lowercased `hay` holds `needle` at `at`.
fn lower_matches_at(hay: &str, needle: &str, at: usize) -> (r: bool)
    requires
        at + needle@.len() <= hay@.len(),
        hay@.len() <= usize::MAX,
    ensures
        r == contains_at(lower(hay@), needle@, at as int),
{
    let m = needle.unicode_len();
    let mut k: usize = 0;
    while k < m
        invariant
            m == needle@.len(),
            at + m <= hay@.len(),
            hay@.len() <= usize::MAX,
            k <= m,
            forall|j: int| 0 <= j < k ==> ascii_lower(hay@[at + j]) == needle@[j],
        decreases m - k,
    {
        if lower_char(hay.get_char(at + k)) != needle.get_char(k) {
            assert(lower(hay@).subrange(at as int, at + m)[k as int] != needle@[k as int]);
            return false;
        }
        k = k + 1;
    }
    assert(lower(hay@).subrange(at as int, at + m) =~= needle@);
    true
}

/// Whether the ASCII-lowercased `hay` holds `needle` anywhere.
pub fn lower_contains(hay: &str, needle: &str) -> (r: bool)
    ensures
        r == contains_seq(lower(hay@), needle@),
{
    let n = hay.unicode_len();
    let m = needle.unicode_len();
    if m > n {
        assert(!contains_seq(lower(hay@), needle@));
        return false;
    }
    if m == 0 {
        assert(lower(hay@).subrange(0, 0) =~= needle@);
        assert(contains_at(lower(hay@), needle@, 0));
        return true;
    }
    let mut at: usize = 0;
    while at <= n - m
        invariant
            n == hay@.len(),
            m == needle@.len(),
            0 < m <= n,
            at <= n - m + 1,
            forall|p: int| 0 <= p < at ==> !contains_at(lower(hay@), needle@, p),
        decreases n - m + 1 - at,
    {
        if lower_matches_at(hay, needle, at) {
            return true;
        }
        at = at + 1;
    }
    assert forall|p: int| !contains_at(lower(hay@), needle@, p) by {
        if 0 <= p < at {
        }
    }
    false
}

/// Whether a device with this name and these capabilities is a physical
/// mouse: relative X and Y axes and a left button, no absolute axes, not
/// EC's own virtual mouse, and not a touchpad or trackpad.
pub open spec fn is_mouse(name: Seq<char>, relative_xy: bool, left_button: bool, absolute: bool) -> bool {
    &&& name != VIRTUAL_NAME@
    &&& !contains_seq(lower(name), "touchpad"@)
    &&& !contains_seq(lower(name), "trackpad"@)
    &&& relative_xy
    &&& left_button
    &&& !absolute
}

pub fn is_candidate(
    name: &str,
    has_relative_xy: bool,
    has_left_button: bool,
    has_absolute_axes: bool,
) -> (r: bool)
    ensures
        r == is_mouse(name@, has_relative_xy, has_left_button, has_absolute_axes),
{
    !str_equal(name, VIRTUAL_NAME) && !lower_contains(name, "touchpad") && !lower_contains(
        name,
        "trackpad",
    ) && has_relative_xy && has_left_button && !has_absolute_axes
}

/// A physical mouse EC could use.
#[derive(Clone, Debug, PartialEq, Eq)]
pub struct Candidate {
    pub path: Vec<u8>,
    pub name: String,
    pub strong: bool,
}

/// What an opened event device reports about itself.
pub struct DeviceFacts {
    pub name: Option<String>,
    pub relative_xy: bool,
    pub left_button: bool,
    pub absolute_axes: bool,
    pub keyboard: bool,
    pub bus_type: u16,
    pub vendor: u16,
}

pub open spec fn name_or_unknown(name: Option<String>) -> Seq<char> {
    match name {
        Some(n) => n@,
        None => UNKNOWN_NAME@,
    }
}

/// Whether the device is EC's own virtual mouse, by name or by identity.
pub open spec fn is_ec_device(name: Option<Seq<char>>, bus_type: u16, vendor: u16) -> bool {
    name == Some(VIRTUAL_NAME@) || (bus_type == 6 && vendor == EC_VENDOR)
}

pub open spec fn facts_name(f: DeviceFacts) -> Option<Seq<char>> {
    match f.name {
        Some(n) => Some(n@),
        None => None,
    }
}

/// Whether an opened device is a candidate mouse.
pub open spec fn accepts(f: DeviceFacts) -> bool {
    is_mouse(name_or_unknown(f.name), f.relative_xy, f.left_button, f.absolute_axes)
        && !is_ec_device(facts_name(f), f.bus_type, f.vendor)
}

/// Whether a candidate is clearly a mouse even without a stable path: it is
/// not also a keyboard and its name says "mouse".
pub open spec fn named_mouse(f: DeviceFacts) -> bool {
    !f.keyboard && (f.name matches Some(n) && contains_seq(lower(n@), "mouse"@))
}

/// A candidate without a stable path is strong exactly when the device is
/// not also a keyboard and its name contains "mouse", ignoring ASCII case.
pub proof fn lemma_named_mouse(f: DeviceFacts)
    ensures
        named_mouse(f) ==> !f.keyboard,
        named_mouse(f) ==> f.name is Some && contains_seq(lower(f.name->0@), "mouse"@),
        !f.keyboard && f.name is Some && contains_seq(lower(f.name->0@), "mouse"@) ==> named_mouse(
            f,
        ),
{
}

pub fn is_ec_identity(name: Option<&str>, bus_type: u16, vendor: u16) -> (r: bool)
    ensures
        r == is_ec_device(
            match name {
                Some(n) => Some(n@),
                None => None,
            },
            bus_type,
            vendor,
        ),
{
    let by_name = match name {
        Some(n) => str_equal(n, VIRTUAL_NAME),
        None => false,
    };
    by_name || (bus_type == bus_virtual() && vendor == EC_VENDOR)
}

pub fn accepts_device(facts: &DeviceFacts) -> (r: bool)
    ensures
        r == accepts(*facts),
{
    let name: &str = match &facts.name {
        Some(n) => n.as_str(),
        None => UNKNOWN_NAME,
    };
    let own = match &facts.name {
        Some(n) => is_ec_identity(Some(n.as_str()), facts.bus_type, facts.vendor),
        None => is_ec_identity(None, facts.bus_type, facts.vendor),
    };
    is_candidate(name, facts.relative_xy, facts.left_button, facts.absolute_axes) && !own
}

/// What discovery found under `/dev/input`.
pub struct Discovery {
    pub input_missing: bool,
    pub event_nodes: usize,
    pub candidates: Vec<Candidate>,
    pub incompatible: Vec<Vec<u8>>,
    pub permission_denied: Vec<Vec<u8>>,
    pub open_failures: Vec<(Vec<u8>, String)>,
}

pub open spec fn path_views(v: Seq<Vec<u8>>) -> Seq<Seq<u8>> {
    v.map_values(|p: Vec<u8>| p@)
}

/// A path pushed onto a bounded diagnostic list, which keeps only the first
/// `DIAGNOSTIC_LIMIT` entries.
pub open spec fn noted(list: Seq<Seq<u8>>, path: Seq<u8>) -> Seq<Seq<u8>> {
    if list.len() < DIAGNOSTIC_LIMIT {
        list.push(path)
    } else {
        list
    }
}

/// Each diagnostic list keeps at most `DIAGNOSTIC_LIMIT` paths, and keeps
/// every path until it is full.
pub proof fn lemma_diagnostics_bounded(list: Seq<Seq<u8>>, path: Seq<u8>)
    requires
        list.len() <= DIAGNOSTIC_LIMIT,
    ensures
        noted(list, path).len() <= DIAGNOSTIC_LIMIT,
        list.len() < DIAGNOSTIC_LIMIT ==> noted(list, path).last() == path,
        noted(list, path).take(list.len() as int) == list,
{
    assert(noted(list, path).take(list.len() as int) =~= list);
}

impl Discovery {
    /// Nothing found yet.
    pub fn new() -> (d: Self)
        ensures
            !d.input_missing,
            d.event_nodes == 0,
            d.candidates@.len() == 0,
            d.incompatible@.len() == 0,
            d.permission_denied@.len() == 0,
            d.open_failures@.len() == 0,
    {
        Discovery {
            input_missing: false,
            event_nodes: 0,
            candidates: Vec::new(),
            incompatible: Vec::new(),
            permission_denied: Vec::new(),
            open_failures: Vec::new(),
        }
    }

    /// The input directory could not be read.
    pub fn missing() -> (d: Self)
        ensures
            d.input_missing,
            d.event_nodes == 0,
            d.candidates@.len() == 0,
            d.incompatible@.len() == 0,
            d.permission_denied@.len() == 0,
            d.open_failures@.len() == 0,
    {
        let mut d = Discovery::new();
        d.input_missing = true;
        d
    }

    /// Counts one more `event*` node.
    pub fn note_event_node(&mut self)
        requires
            old(self).event_nodes < usize::MAX,
        ensures
            final(self).event_nodes == old(self).event_nodes + 1,
            final(self).input_missing == old(self).input_missing,
            final(self).candidates == old(self).candidates,
            final(self).incompatible == old(self).incompatible,
            final(self).permission_denied == old(self).permission_denied,
            final(self).open_failures == old(self).open_failures,
    {
        self.event_nodes = self.event_nodes + 1;
    }

    /// Records an opened device: a candidate when it is one, with its stable
    /// path when it has one; otherwise an incompatible node.
    pub fn note_opened(&mut self, path: Vec<u8>, facts: &DeviceFacts, stable: Option<Vec<u8>>)
        ensures
            final(self).event_nodes == old(self).event_nodes,
            final(self).input_missing == old(self).input_missing,
            final(self).permission_denied == old(self).permission_denied,
            final(self).open_failures == old(self).open_failures,
            accepts(*facts) ==> {
                &&& final(self).incompatible == old(self).incompatible
                &&& final(self).candidates@.len() == old(self).candidates@.len() + 1
                &&& final(self).candidates@.take(old(self).candidates@.len() as int)
                    == old(self).candidates@
                &&& ({
                    let c = final(self).candidates@.last();
                    &&& c.path@ == (match stable {
                        Some(s) => s@,
                        None => path@,
                    })
                    &&& c.name@ == name_or_unknown(facts.name)
                    &&& c.strong == (stable is Some || named_mouse(*facts))
                    &&& c.strong == (stable is Some || (!facts.keyboard && (facts.name matches Some(
                        n,
                    ) && contains_seq(lower(n@), "mouse"@))))
                })
            },
            !accepts(*facts) ==> {
                &&& final(self).candidates == old(self).candidates
                &&& path_views(final(self).incompatible@) == noted(
                    path_views(old(self).incompatible@),
                    path@,
                )
            },
    {
        if accepts_device(facts) {
            let name = match &facts.name {
                Some(n) => n.clone(),
                None => String::from_str(UNKNOWN_NAME),
            };
            let mouse_named = match &facts.name {
                Some(n) => lower_contains(n.as_str(), "mouse"),
                None => false,
            };
            let strong = stable.is_some() || (!facts.keyboard && mouse_named);
            let chosen = match stable {
                Some(s) => s,
                None => path,
            };
            self.candidates.push(Candidate { path: chosen, name, strong });
            assert(self.candidates@.take(old(self).candidates@.len() as int) =~= old(
                self,
            ).candidates@);
        } else if self.incompatible.len() < DIAGNOSTIC_LIMIT {
            let ghost before = self.incompatible@;
            self.incompatible.push(path);
            assert(path_views(self.incompatible@) =~= path_views(before).push(path@));
        }
    }

    /// Records a node that could not be opened for lack of permission.
    pub fn note_permission_denied(&mut self, path: Vec<u8>)
        ensures
            final(self).event_nodes == old(self).event_nodes,
            final(self).input_missing == old(self).input_missing,
            final(self).candidates == old(self).candidates,
            final(self).incompatible == old(self).incompatible,
            final(self).open_failures == old(self).open_failures,
            path_views(final(self).permission_denied@) == noted(
                path_views(old(self).permission_denied@),
                path@,
            ),
    {
        if self.permission_denied.len() < DIAGNOSTIC_LIMIT {
            let ghost before = self.permission_denied@;
            self.permission_denied.push(path);
            assert(path_views(self.permission_denied@) =~= path_views(before).push(path@));
        }
    }

    /// Records a node that could not be opened for another reason.
    pub fn note_open_failure(&mut self, path: Vec<u8>, error: String)
        ensures
            final(self).event_nodes == old(self).event_nodes,
            final(self).input_missing == old(self).input_missing,
            final(self).candidates == old(self).candidates,
            final(self).incompatible == old(self).incompatible,
            final(self).permission_denied == old(self).permission_denied,
            old(self).open_failures@.len() < DIAGNOSTIC_LIMIT ==> final(self).open_failures@
                == old(self).open_failures@.push((path, error)),
            old(self).open_failures@.len() >= DIAGNOSTIC_LIMIT ==> final(self).open_failures
                == old(self).open_failures,
    {
        if self.open_failures.len() < DIAGNOSTIC_LIMIT {
            self.open_failures.push((path, error));
        }
    }
}

/// The index of the only strong candidate, if exactly one is strong.
pub open spec fn sole_strong(c: Seq<Candidate>) -> Option<int> {
    if exists|i: int| 0 <= i < c.len() && c[i].strong && forall|j: int|
        0 <= j < c.len() && j != i ==> !c[j].strong {
        Some(
            choose|i: int|
                0 <= i < c.len() && c[i].strong && forall|j: int|
                    0 <= j < c.len() && j != i ==> !c[j].strong,
        )
    } else {
        None
    }
}

fn copy_candidate(c: &Candidate) -> (r: Candidate)
    ensures
        r.path@ == c.path@,
        r.name == c.name,
        r.strong == c.strong,
{
    let mut path: Vec<u8> = Vec::new();
    append_bytes(&mut path, c.path.as_slice());
    Candidate { path, name: c.name.clone(), strong: c.strong }
}

/// The only strong candidate; ambiguity or absence gives nothing.
pub fn choose_strong(candidates: &[Candidate]) -> (r: Option<Candidate>)
    ensures
        match sole_strong(candidates@) {
            Some(i) => (r matches Some(c) && c.path@ == candidates@[i].path@ && c.name
                == candidates@[i].name && c.strong),
            None => r is None,
        },
{
    let n = candidates.len();
    let mut found: Option<usize> = None;
    let mut i: usize = 0;
    while i < n
        invariant
            n == candidates@.len(),
            i <= n,
            match found {
                Some(k) => k < i && candidates@[k as int].strong && forall|j: int|
                    0 <= j < i && j != k ==> !candidates@[j].strong,
                None => forall|j: int| 0 <= j < i ==> !candidates@[j].strong,
            },
        decreases n - i,
    {
        if candidates[i].strong {
            match found {
                Some(k) => {
                    proof {
                        assert(sole_strong(candidates@) is None) by {
                            if exists|x: int|
                                0 <= x < n && candidates@[x].strong && forall|j: int|
                                    0 <= j < n && j != x ==> !candidates@[j].strong {
                                let x = choose|x: int|
                                    0 <= x < n && candidates@[x].strong && forall|j: int|
                                        0 <= j < n && j != x ==> !candidates@[j].strong;
                                if x == k {
                                    assert(candidates@[i as int].strong);
                                } else {
                                    assert(candidates@[k as int].strong);
                                }
                            }
                        }
                    }
                    return None;
                },
                None => {
                    found = Some(i);
                },
            }
        }
        i = i + 1;
    }
    match found {
        Some(k) => {
            proof {
                let w = k as int;
                assert(0 <= w < n && candidates@[w].strong && forall|j: int|
                    0 <= j < n && j != w ==> !candidates@[j].strong);
                let x = choose|x: int|
                    0 <= x < n && candidates@[x].strong && forall|j: int|
                        0 <= j < n && j != x ==> !candidates@[j].strong;
                assert(x == w) by {
                    if x != w {
                        assert(!candidates@[w].strong);
                    }
                }
            }
            Some(copy_candidate(&candidates[k]))
        },
        None => {
            proof {
                assert(sole_strong(candidates@) is None) by {
                    if exists|x: int|
                        0 <= x < n && candidates@[x].strong && forall|j: int|
                            0 <= j < n && j != x ==> !candidates@[j].strong {
                        let x = choose|x: int|
                            0 <= x < n && candidates@[x].strong && forall|j: int|
                                0 <= j < n && j != x ==> !candidates@[j].strong;
                        assert(!candidates@[x].strong);
                    }
                }
            }
            None
        },
    }
}

/// Lines joined by newlines.
pub open spec fn lines_joined(items: Seq<Seq<char>>) -> Seq<char>
    decreases items.len(),
{
    if items.len() == 0 {
        Seq::empty()
    } else if items.len() == 1 {
        items[0]
    } else {
        lines_joined(items.drop_last()) + "\n"@ + items.last()
    }
}

pub open spec fn string_views(v: Seq<String>) -> Seq<Seq<char>> {
    v.map_values(|s: String| s@)
}

/// Joins lines with newlines.
pub fn join_lines(items: &Vec<String>) -> (s: String)
    ensures
        s@ == lines_joined(string_views(items@)),
{
    let mut out = String::new();
    let mut i: usize = 0;
    while i < items.len()
        invariant
            i <= items@.len(),
            out@ == lines_joined(string_views(items@.take(i as int))),
        decreases items@.len() - i,
    {
        let ghost before = string_views(items@.take(i as int));
        if i > 0 {
            out.append("\n");
        }
        out.append(items[i].as_str());
        proof {
            let after = string_views(items@.take(i + 1));
            assert(after.drop_last() =~= before);
            assert(after.last() == items@[i as int]@);
            if i == 0 {
                assert(after.len() == 1);
            }
        }
        i = i + 1;
    }
    assert(items@.take(i as int) =~= items@);
    out
}

/// A listed path: indented and displayed.
pub open spec fn path_line(p: Seq<u8>) -> Seq<char> {
    "  "@ + lossy_text(p)
}

/// A listed open failure: the path and the error.
pub open spec fn failure_line(f: (Vec<u8>, String)) -> Seq<char> {
    "  "@ + lossy_text(f.0@) + ": "@ + f.1@
}

/// A listed candidate: its path and its name.
pub open spec fn candidate_line(c: Candidate) -> Seq<char> {
    "  "@ + lossy_text(c.path@) + "  "@ + c.name@
}

pub open spec fn path_lines(v: Seq<Vec<u8>>) -> Seq<Seq<char>> {
    v.map_values(|p: Vec<u8>| path_line(p@))
}

pub open spec fn failure_lines(v: Seq<(Vec<u8>, String)>) -> Seq<Seq<char>> {
    v.map_values(|f: (Vec<u8>, String)| failure_line(f))
}

pub open spec fn candidate_lines(v: Seq<Candidate>) -> Seq<Seq<char>> {
    v.map_values(|c: Candidate| candidate_line(c))
}

fn list_paths(paths: &Vec<Vec<u8>>) -> (s: String)
    ensures
        s@ == lines_joined(path_lines(paths@)),
{
    let mut lines: Vec<String> = Vec::new();
    let mut i: usize = 0;
    while i < paths.len()
        invariant
            i <= paths@.len(),
            string_views(lines@) == path_lines(paths@.take(i as int)),
        decreases paths@.len() - i,
    {
        let mut line = String::from_str("  ");
        let shown = display_bytes(paths[i].as_slice());
        line.append(shown.as_str());
        let ghost before = lines@;
        let ghost lv = line@;
        lines.push(line);
        assert(string_views(lines@) =~= string_views(before).push(lv));
        assert(path_lines(paths@.take(i + 1)) =~= path_lines(paths@.take(i as int)).push(lv));
        i = i + 1;
    }
    assert(paths@.take(i as int) =~= paths@);
    join_lines(&lines)
}

fn list_failures(failures: &Vec<(Vec<u8>, String)>) -> (s: String)
    ensures
        s@ == lines_joined(failure_lines(failures@)),
{
    let mut lines: Vec<String> = Vec::new();
    let mut i: usize = 0;
    while i < failures.len()
        invariant
            i <= failures@.len(),
            string_views(lines@) == failure_lines(failures@.take(i as int)),
        decreases failures@.len() - i,
    {
        let mut line = String::from_str("  ");
        let shown = display_bytes(failures[i].0.as_slice());
        line.append(shown.as_str());
        line.append(": ");
        line.append(failures[i].1.as_str());
        let ghost before = lines@;
        let ghost lv = line@;
        lines.push(line);
        assert(string_views(lines@) =~= string_views(before).push(lv));
        assert(failure_lines(failures@.take(i + 1)) =~= failure_lines(failures@.take(i as int)).push(lv));
        i = i + 1;
    }
    assert(failures@.take(i as int) =~= failures@);
    join_lines(&lines)
}

fn list_candidates(candidates: &Vec<Candidate>) -> (s: String)
    ensures
        s@ == lines_joined(candidate_lines(candidates@)),
{
    let mut lines: Vec<String> = Vec::new();
    let mut i: usize = 0;
    while i < candidates.len()
        invariant
            i <= candidates@.len(),
            string_views(lines@) == candidate_lines(candidates@.take(i as int)),
        decreases candidates@.len() - i,
    {
        let mut line = String::from_str("  ");
        let shown = display_bytes(candidates[i].path.as_slice());
        line.append(shown.as_str());
        line.append("  ");
        line.append(candidates[i].name.as_str());
        let ghost before = lines@;
        let ghost lv = line@;
        lines.push(line);
        assert(string_views(lines@) =~= string_views(before).push(lv));
        assert(candidate_lines(candidates@.take(i + 1)) =~= candidate_lines(candidates@.take(i as int)).push(lv));
        i = i + 1;
    }
    assert(candidates@.take(i as int) =~= candidates@);
    join_lines(&lines)
}

/// What discovery found, for a user who has to pick a mouse.
pub open spec fn discovery_report(d: Discovery) -> Seq<char> {
    let c = d.candidates@;
    let denied = d.permission_denied@;
    let failures = d.open_failures@;
    if c.len() == 0 {
        if d.input_missing {
            "/dev/input is missing."@
        } else if d.event_nodes == 0 {
            "No input event nodes were found."@
        } else if denied.len() > 0 && d.incompatible@.len() == 0 {
            "Input event nodes are present but unreadable.\nPermission denied:\n"@ + lines_joined(
                path_lines(denied),
            )
        } else {
            "Readable input devices were found, but none is a compatible physical mouse."@ + (
            if denied.len() > 0 {
                "\nSome event nodes were also inaccessible:\n"@ + lines_joined(path_lines(denied))
            } else {
                Seq::empty()
            }) + (if failures.len() > 0 {
                "\nOther event-node open failures:\n"@ + lines_joined(failure_lines(failures))
            } else {
                Seq::empty()
            })
        }
    } else {
        "Candidate devices:\n"@ + lines_joined(candidate_lines(c))
    }
}

/// What the user is told to do when no mouse could be chosen.
pub open spec fn selection_advice(d: Discovery) -> Seq<char> {
    if d.candidates@.len() > 1 {
        "Multiple compatible mice were found.\nRun:\n  ec setup"@
    } else {
        "EC could not select one physical mouse safely.\nRun:\n  ec setup"@
    }
}

fn report(d: &Discovery) -> (s: String)
    ensures
        s@ == discovery_report(*d),
{
    if d.candidates.len() == 0 {
        if d.input_missing {
            String::from_str("/dev/input is missing.")
        } else if d.event_nodes == 0 {
            String::from_str("No input event nodes were found.")
        } else if d.permission_denied.len() > 0 && d.incompatible.len() == 0 {
            let mut s = String::from_str(
                "Input event nodes are present but unreadable.\nPermission denied:\n",
            );
            let listed = list_paths(&d.permission_denied);
            s.append(listed.as_str());
            s
        } else {
            let mut s = String::from_str(
                "Readable input devices were found, but none is a compatible physical mouse.",
            );
            let ghost head = s@;
            let ghost denied_part: Seq<char> = Seq::empty();
            if d.permission_denied.len() > 0 {
                s.append("\nSome event nodes were also inaccessible:\n");
                let listed = list_paths(&d.permission_denied);
                s.append(listed.as_str());
            }
            let ghost mid = s@;
            if d.open_failures.len() > 0 {
                s.append("\nOther event-node open failures:\n");
                let listed = list_failures(&d.open_failures);
                s.append(listed.as_str());
            }
            proof {
                let dd = *d;
                assert(s@ =~= discovery_report(dd));
            }
            s
        }
    } else {
        let mut s = String::from_str("Candidate devices:\n");
        let listed = list_candidates(&d.candidates);
        s.append(listed.as_str());
        s
    }
}

/// Picks the mouse to use from what discovery found: the only strong
/// candidate, or a message that lists what was found and says what to do.
pub fn select(discovery: &Discovery) -> (r: Result<Candidate, Error>)
    ensures
        match sole_strong(discovery.candidates@) {
            Some(i) => (r matches Ok(c) && c.path@ == discovery.candidates@[i].path@ && c.name
                == discovery.candidates@[i].name && c.strong),
            None => (r matches Err(e) && e.is_message(
                discovery_report(*discovery) + "\n"@ + selection_advice(*discovery),
            )),
        },
{
    match choose_strong(discovery.candidates.as_slice()) {
        Some(c) => Ok(c),
        None => {
            let mut text = report(discovery);
            text.append("\n");
            if discovery.candidates.len() > 1 {
                text.append("Multiple compatible mice were found.\nRun:\n  ec setup");
            } else {
                text.append("EC could not select one physical mouse safely.\nRun:\n  ec setup");
            }
            Err(Error::Message(text))
        },
    }
}

pub open spec fn unavailable_text() -> Seq<char> {
    "The configured mouse is unavailable or no longer compatible.\nRun:\n  ec setup\n\n"@
}

/// The configured mouse, or why it cannot be used, given the outcome of
/// checking it (its error shown as text).
pub fn configured_choice(checked: Result<Candidate, String>) -> (r: Result<Candidate, Error>)
    ensures
        match checked {
            Ok(c) => r == Ok::<Candidate, Error>(c),
            Err(text) => (r matches Err(e) && e.is_message(unavailable_text() + text@)),
        },
{
    match checked {
        Ok(c) => Ok(c),
        Err(text) => {
            let mut message = String::from_str(
                "The configured mouse is unavailable or no longer compatible.\nRun:\n  ec setup\n\n",
            );
            message.append(text.as_str());
            Err(Error::Message(message))
        },
    }
}

/// `event`
pub open spec fn event_prefix() -> Seq<u8> {
    seq![0x65u8, 0x76, 0x65, 0x6e, 0x74]
}

/// Whether a resolved path names an event node: `/dev/input/event*`.
pub open spec fn is_event_node(target: Seq<u8>) -> bool {
    let c = components(target);
    &&& target.len() > 0 && target[0] == slash()
    &&& c.len() == 3
    &&& c[0] == dev_name()
    &&& c[1] == input_name()
    &&& starts_with(c[2], event_prefix())
}

pub fn resolves_to_event_node(target: &[u8]) -> (r: bool)
    ensures
        r == is_event_node(target@),
{
    if target.len() == 0 || target[0] != 0x2fu8 {
        return false;
    }
    let c = path_components(target);
    if c.len() != 3 {
        return false;
    }
    let dev = vec![0x64u8, 0x65, 0x76];
    let input = vec![0x69u8, 0x6e, 0x70, 0x75, 0x74];
    let event = vec![0x65u8, 0x76, 0x65, 0x6e, 0x74];
    assert(dev@ == dev_name());
    assert(input@ == input_name());
    assert(event@ == event_prefix());
    assert(crate::config::byte_views(c@)[0] == c@[0]@);
    assert(crate::config::byte_views(c@)[1] == c@[1]@);
    assert(crate::config::byte_views(c@)[2] == c@[2]@);
    crate::text::bytes_equal(c[0].as_slice(), dev.as_slice()) && crate::text::bytes_equal(
        c[1].as_slice(),
        input.as_slice(),
    ) && crate::text::bytes_start_with(c[2].as_slice(), event.as_slice())
}

/// What happens to one event read from the physical mouse.
#[derive(Clone, Copy, Debug, PartialEq, Eq, Structural)]
pub enum Route {
    /// The left button changed: start or stop holding.
    Hold(bool),
    /// A left-button event that is neither press nor release (autorepeat).
    Drop,
    /// Anything else goes to the virtual mouse unchanged.
    Forward,
}

pub open spec fn route_of(event_type: u16, code: u16, value: i32) -> Route {
    if event_type == 1 && code == 0x110 {
        if value == 1 {
            Route::Hold(true)
        } else if value == 0 {
            Route::Hold(false)
        } else {
            Route::Drop
        }
    } else {
        Route::Forward
    }
}

pub fn route_event(event_type: u16, code: u16, value: i32) -> (r: Route)
    ensures
        r == route_of(event_type, code, value),
{
    if event_type == key_event_type() && code == left_button_code() {
        if value == 1 {
            Route::Hold(true)
        } else if value == 0 {
            Route::Hold(false)
        } else {
            Route::Drop
        }
    } else {
        Route::Forward
    }
}

/// `libc::POLLERR`, an error on the descriptor: 0x8.
#[verifier::external_body]
fn poll_err() -> (bit: i16)
    ensures
        bit == 0x8,
{
    libc::POLLERR
}

/// `libc::POLLHUP`, a hang-up: 0x10.
#[verifier::external_body]
fn poll_hup() -> (bit: i16)
    ensures
        bit == 0x10,
{
    libc::POLLHUP
}

/// `libc::POLLNVAL`, a descriptor that is not open: 0x20.
#[verifier::external_body]
fn poll_nval() -> (bit: i16)
    ensures
        bit == 0x20,
{
    libc::POLLNVAL
}

/// What one wait for input means for the event loop.
#[derive(Clone, Copy, Debug, PartialEq, Eq, Structural)]
pub enum PollOutcome {
    /// Interrupted by a signal: wait again.
    Retry,
    /// The wait itself failed.
    Failed,
    /// Nothing arrived before the timeout.
    Idle,
    /// The device reported an error or hang-up.
    Disconnected,
    /// Events are ready to be read.
    Readable,
}

pub open spec fn poll_meaning(polled: i32, interrupted: bool, revents: i16) -> PollOutcome {
    if polled < 0 {
        if interrupted {
            PollOutcome::Retry
        } else {
            PollOutcome::Failed
        }
    } else if polled == 0 {
        PollOutcome::Idle
    } else if revents & 0x38 != 0 {
        PollOutcome::Disconnected
    } else {
        PollOutcome::Readable
    }
}

/// Classifies the result of `poll` on the mouse: its return value, whether
/// a negative return came from an interrupted call, and the returned events.
pub fn poll_outcome(polled: i32, interrupted: bool, revents: i16) -> (r: PollOutcome)
    ensures
        r == poll_meaning(polled, interrupted, revents),
{
    if polled < 0 {
        if interrupted {
            PollOutcome::Retry
        } else {
            PollOutcome::Failed
        }
    } else if polled == 0 {
        PollOutcome::Idle
    } else {
        let err: i16 = poll_err();
        let hup: i16 = poll_hup();
        let nval: i16 = poll_nval();
        let failure: i16 = err | hup | nval;
        assert(failure == 0x38) by (bit_vector)
            requires
                err == 0x8,
                hup == 0x10,
                nval == 0x20,
                failure == err | hup | nval,
        ;
        if revents & failure != 0 {
            PollOutcome::Disconnected
        } else {
            PollOutcome::Readable
        }
    }
}

pub open spec fn disconnected_text(path: Seq<u8>) -> Seq<char> {
    "input device "@ + lossy_text(path) + " disconnected"@
}

/// The error when the mouse at `path` reports an error or hang-up.
pub fn disconnected_message(path: &[u8]) -> (s: String)
    ensures
        s@ == disconnected_text(path@),
{
    let mut s = String::from_str("input device ");
    let shown = display_bytes(path);
    s.append(shown.as_str());
    s.append(" disconnected");
    s
}

pub open spec fn no_left_button_text(path: Seq<u8>) -> Seq<char> {
    "input device "@ + lossy_text(path) + " does not support the required left button"@
}

/// The error when the mouse at `path` has no left button to take over.
pub fn no_left_button_message(path: &[u8]) -> (s: String)
    ensures
        s@ == no_left_button_text(path@),
{
    let mut s = String::from_str("input device ");
    let shown = display_bytes(path);
    s.append(shown.as_str());
    s.append(" does not support the required left button");
    s
}

/// How a run ends once the scheduler has stopped: a synthetic frame the
/// virtual mouse refused wins over an error of the event loop; otherwise
/// the event loop's error; otherwise the name of the mouse that was used.
pub fn run_result(scheduler: Result<(), std::io::Error>, events: Result<(), Error>, device: String) -> (r:
    Result<String, Error>)
    ensures
        match scheduler {
            Err(e) => r matches Err(Error::Io { operation, path, source }) && operation@
                == "emit synthetic mouse button frame"@ && path@ == VIRTUAL_NAME@ && source == e,
            Ok(()) => match events {
                Err(e) => r matches Err(f) && f == e,
                Ok(()) => r matches Ok(d) && d == device,
            },
        },
{
    match scheduler {
        Err(source) => Err(
            Error::Io {
                operation: "emit synthetic mouse button frame",
                path: String::from_str(VIRTUAL_NAME),
                source,
            },
        ),
        Ok(()) => match events {
            Err(e) => Err(e),
            Ok(()) => Ok(device),
        },
    }
}

/// `..`
pub open spec fn dot_dot() -> Seq<u8> {
    seq![0x2eu8, 0x2e]
}

/// How `Path` orders one component: its kind (root 1, current directory 2,
/// parent 3, normal 4) and, for a normal component, its bytes.
pub open spec fn component_key(c: Seq<u8>) -> (int, Seq<u8>) {
    if c == dot_dot() {
        (3, Seq::empty())
    } else {
        (4, c)
    }
}

/// The keys of all components of `p`, as `Path::components` yields them:
/// a root for an absolute path, a current-directory component for a path
/// that is `.` or starts with `./`, then the named components.
pub open spec fn component_keys(p: Seq<u8>) -> Seq<(int, Seq<u8>)> {
    let lead: Seq<(int, Seq<u8>)> = if p.len() > 0 && p[0] == slash() {
        seq![(1, Seq::empty())]
    } else if p == dot() || (p.len() >= 2 && p[0] == 0x2eu8 && p[1] == slash()) {
        seq![(2, Seq::empty())]
    } else {
        Seq::empty()
    };
    lead + components(p).map_values(|c: Seq<u8>| component_key(c))
}

/// Lexicographic order of byte strings.
pub open spec fn bytes_lt(a: Seq<u8>, b: Seq<u8>) -> bool
    decreases a.len(),
{
    if a.len() == 0 {
        b.len() > 0
    } else if b.len() == 0 {
        false
    } else if a[0] != b[0] {
        a[0] < b[0]
    } else {
        bytes_lt(a.drop_first(), b.drop_first())
    }
}

pub open spec fn key_lt(a: (int, Seq<u8>), b: (int, Seq<u8>)) -> bool {
    a.0 < b.0 || (a.0 == b.0 && bytes_lt(a.1, b.1))
}

/// Lexicographic order of component key sequences.
pub open spec fn keys_lt(a: Seq<(int, Seq<u8>)>, b: Seq<(int, Seq<u8>)>) -> bool
    decreases a.len(),
{
    if a.len() == 0 {
        b.len() > 0
    } else if b.len() == 0 {
        false
    } else if a[0] != b[0] {
        key_lt(a[0], b[0])
    } else {
        keys_lt(a.drop_first(), b.drop_first())
    }
}

/// `Path`'s order: component by component.
pub open spec fn path_lt(a: Seq<u8>, b: Seq<u8>) -> bool {
    keys_lt(component_keys(a), component_keys(b))
}

/// Candidates in `Path` order of their paths.
pub open spec fn sorted_by_path(c: Seq<Candidate>) -> bool {
    forall|i: int, j: int| 0 <= i < j < c.len() ==> !path_lt(#[trigger] c[j].path@, #[trigger] c[i].path@)
}

proof fn lemma_bytes_lt_irreflexive(a: Seq<u8>)
    ensures
        !bytes_lt(a, a),
    decreases a.len(),
{
    if a.len() > 0 {
        lemma_bytes_lt_irreflexive(a.drop_first());
    }
}

proof fn lemma_bytes_lt_transitive(a: Seq<u8>, b: Seq<u8>, c: Seq<u8>)
    requires
        bytes_lt(a, b),
        bytes_lt(b, c),
    ensures
        bytes_lt(a, c),
    decreases a.len(),
{
    if a.len() > 0 && b.len() > 0 && c.len() > 0 && a[0] == b[0] && b[0] == c[0] {
        lemma_bytes_lt_transitive(a.drop_first(), b.drop_first(), c.drop_first());
    }
}

proof fn lemma_key_lt_irreflexive(a: (int, Seq<u8>))
    ensures
        !key_lt(a, a),
{
    lemma_bytes_lt_irreflexive(a.1);
}

proof fn lemma_key_lt_transitive(a: (int, Seq<u8>), b: (int, Seq<u8>), c: (int, Seq<u8>))
    requires
        key_lt(a, b),
        key_lt(b, c),
    ensures
        key_lt(a, c),
{
    if a.0 == b.0 && b.0 == c.0 {
        lemma_bytes_lt_transitive(a.1, b.1, c.1);
    }
}

proof fn lemma_keys_lt_transitive(a: Seq<(int, Seq<u8>)>, b: Seq<(int, Seq<u8>)>, c: Seq<(int, Seq<u8>)>)
    requires
        keys_lt(a, b),
        keys_lt(b, c),
    ensures
        keys_lt(a, c),
    decreases a.len(),
{
    if a.len() > 0 && b.len() > 0 && c.len() > 0 {
        if a[0] == b[0] && b[0] == c[0] {
            lemma_keys_lt_transitive(a.drop_first(), b.drop_first(), c.drop_first());
        } else if a[0] != b[0] && b[0] != c[0] {
            lemma_key_lt_transitive(a[0], b[0], c[0]);
            if a[0] == c[0] {
                lemma_key_lt_irreflexive(a[0]);
            }
        }
    }
}

/// Whether `a` comes strictly before `b` byte by byte.
fn bytes_less(a: &[u8], b: &[u8]) -> (r: bool)
    ensures
        r == bytes_lt(a@, b@),
{
    let mut i: usize = 0;
    assert(a@.skip(0) =~= a@);
    assert(b@.skip(0) =~= b@);
    while i < a.len() && i < b.len() && a[i] == b[i]
        invariant
            i <= a@.len(),
            i <= b@.len(),
            bytes_lt(a@, b@) == bytes_lt(a@.skip(i as int), b@.skip(i as int)),
        decreases a@.len() - i,
    {
        proof {
            assert(a@.skip(i as int).drop_first() =~= a@.skip(i + 1));
            assert(b@.skip(i as int).drop_first() =~= b@.skip(i + 1));
        }
        i = i + 1;
    }
    proof {
        if i < a.len() && i < b.len() {
            assert(a@.skip(i as int)[0] == a@[i as int]);
            assert(b@.skip(i as int)[0] == b@[i as int]);
        }
    }
    if i == a.len() {
        i < b.len()
    } else if i == b.len() {
        false
    } else {
        a[i] < b[i]
    }
}

pub open spec fn key_views(v: Seq<(u8, Vec<u8>)>) -> Seq<(int, Seq<u8>)> {
    v.map_values(|k: (u8, Vec<u8>)| (k.0 as int, k.1@))
}

/// The component keys of `p`.
fn path_keys(p: &[u8]) -> (k: Vec<(u8, Vec<u8>)>)
    ensures
        key_views(k@) == component_keys(p@),
{
    let mut keys: Vec<(u8, Vec<u8>)> = Vec::new();
    if p.len() > 0 && p[0] == 0x2fu8 {
        keys.push((1u8, Vec::new()));
    } else if (p.len() == 1 && p[0] == 0x2eu8) || (p.len() >= 2 && p[0] == 0x2eu8 && p[1]
        == 0x2fu8) {
        proof {
            if p.len() == 1 {
                assert(p@ =~= dot());
            }
        }
        keys.push((2u8, Vec::new()));
    } else {
        proof {
            if p@ == dot() {
                assert(p@.len() == 1 && p@[0] == 0x2eu8);
            }
        }
    }
    let ghost lead = key_views(keys@);
    assert(key_views(keys@) =~= lead);
    let named = path_components(p);
    let ghost names = byte_views(named@);
    let mut i: usize = 0;
    while i < named.len()
        invariant
            i <= named@.len(),
            names == byte_views(named@),
            names == components(p@),
            key_views(keys@) == lead + names.take(i as int).map_values(
                |c: Seq<u8>| component_key(c),
            ),
        decreases named@.len() - i,
    {
        let c = &named[i];
        let parent = c.len() == 2 && c[0] == 0x2eu8 && c[1] == 0x2eu8;
        proof {
            assert(names[i as int] == c@);
            if c@ == dot_dot() {
                assert(c@.len() == 2 && c@[0] == 0x2eu8 && c@[1] == 0x2eu8);
            }
            if parent {
                assert(c@ =~= dot_dot());
            }
        }
        let key = if parent {
            (3u8, Vec::new())
        } else {
            let mut bytes: Vec<u8> = Vec::new();
            append_bytes(&mut bytes, c.as_slice());
            (4u8, bytes)
        };
        let ghost before = keys@;
        keys.push(key);
        proof {
            assert(key_views(keys@) =~= key_views(before).push(component_key(c@)));
            assert(names.take(i + 1).map_values(|c: Seq<u8>| component_key(c)) =~= names.take(
                i as int,
            ).map_values(|c: Seq<u8>| component_key(c)).push(component_key(c@)));
        }
        i = i + 1;
    }
    assert(names.take(i as int) =~= names);
    keys
}

/// Whether path `a` comes strictly before path `b` in `Path` order.
pub fn path_less(a: &[u8], b: &[u8]) -> (r: bool)
    ensures
        r == path_lt(a@, b@),
{
    let ka = path_keys(a);
    let kb = path_keys(b);
    let ghost va = key_views(ka@);
    let ghost vb = key_views(kb@);
    let mut i: usize = 0;
    assert(va.skip(0) =~= va);
    assert(vb.skip(0) =~= vb);
    while i < ka.len() && i < kb.len() && ka[i].0 == kb[i].0 && crate::text::bytes_equal(
        ka[i].1.as_slice(),
        kb[i].1.as_slice(),
    )
        invariant
            i <= ka@.len(),
            i <= kb@.len(),
            va == key_views(ka@),
            vb == key_views(kb@),
            keys_lt(va, vb) == keys_lt(va.skip(i as int), vb.skip(i as int)),
        decreases ka@.len() - i,
    {
        proof {
            assert(va.skip(i as int)[0] == va[i as int]);
            assert(vb.skip(i as int)[0] == vb[i as int]);
            assert(va.skip(i as int).drop_first() =~= va.skip(i + 1));
            assert(vb.skip(i as int).drop_first() =~= vb.skip(i + 1));
        }
        i = i + 1;
    }
    if i == ka.len() {
        return i < kb.len();
    }
    if i == kb.len() {
        return false;
    }
    proof {
        assert(va.skip(i as int)[0] == va[i as int]);
        assert(vb.skip(i as int)[0] == vb[i as int]);
        assert(va[i as int] != vb[i as int]);
    }
    if ka[i].0 != kb[i].0 {
        ka[i].0 < kb[i].0
    } else {
        bytes_less(ka[i].1.as_slice(), kb[i].1.as_slice())
    }
}

impl Discovery {
    /// Orders the candidates by path, as `Path` orders paths.
    pub fn sort_candidates(&mut self)
        ensures
            sorted_by_path(final(self).candidates@),
            final(self).candidates@.to_multiset() == old(self).candidates@.to_multiset(),
            forall|k: Seq<(int, Seq<u8>)>|
                #[trigger] with_key(final(self).candidates@, k) == with_key(
                    old(self).candidates@,
                    k,
                ),
            final(self).event_nodes == old(self).event_nodes,
            final(self).input_missing == old(self).input_missing,
            final(self).incompatible == old(self).incompatible,
            final(self).permission_denied == old(self).permission_denied,
            final(self).open_failures == old(self).open_failures,
    {
        broadcast use vstd::multiset::group_multiset_axioms;

        let mut rest: Vec<Candidate> = Vec::new();
        std::mem::swap(&mut rest, &mut self.candidates);
        let ghost all = rest@;
        let mut sorted: Vec<Candidate> = Vec::new();
        proof {
            assert(sorted@ =~= Seq::<Candidate>::empty());
            vstd::seq_lib::to_multiset_len(sorted@);
            assert(sorted@.to_multiset().len() == 0);
            assert(sorted@.to_multiset() =~= vstd::multiset::Multiset::empty());
            assert(sorted@.to_multiset().add(rest@.to_multiset()) =~= all.to_multiset());
            assert forall|k: Seq<(int, Seq<u8>)>|
                #[trigger] with_key(all, k) == with_key(sorted@, k) + with_key(rest@, k) by {
                lemma_with_key_none(sorted@, k);
                assert(with_key(sorted@, k) + with_key(rest@, k) =~= with_key(rest@, k));
            }
        }
        while rest.len() > 0
            invariant
                sorted_by_path(sorted@),
                sorted@.to_multiset().add(rest@.to_multiset()) == all.to_multiset(),
                forall|k: Seq<(int, Seq<u8>)>|
                    #[trigger] with_key(all, k) == with_key(sorted@, k) + with_key(rest@, k),
            decreases rest@.len(),
        {
            let ghost before_rest = rest@;
            let ghost before_sorted = sorted@;
            let x = rest.remove(0);
            proof {
                vstd::seq_lib::to_multiset_remove(before_rest, 0);
            }
            let mut pos: usize = 0;
            while pos < sorted.len() && !path_less(x.path.as_slice(), sorted[pos].path.as_slice())
                invariant
                    pos <= sorted@.len(),
                    forall|k: int| 0 <= k < pos ==> !path_lt(x.path@, #[trigger] sorted@[k].path@),
                decreases sorted@.len() - pos,
            {
                pos = pos + 1;
            }
            let ghost xp = x.path@;
            proof {
                let kx = component_keys(xp);
                assert forall|j: int| pos <= j < before_sorted.len() implies component_keys(
                    #[trigger] before_sorted[j].path@,
                ) != kx by {
                    assert(path_lt(xp, before_sorted[pos as int].path@));
                    if j == pos {
                        lemma_keys_lt_irreflexive(kx);
                    } else {
                        assert(!path_lt(before_sorted[j].path@, before_sorted[pos as int].path@));
                    }
                }
                assert forall|k: Seq<(int, Seq<u8>)>|
                    #[trigger] with_key(all, k) == with_key(before_sorted.insert(pos as int, x), k)
                        + with_key(rest@, k) by {
                    lemma_with_key_insert(before_sorted, pos as int, x, k);
                    lemma_with_key_first(before_rest, k);
                    assert(before_rest.drop_first() =~= rest@);
                    assert(with_key(before_sorted, k) + with_key(seq![x], k) + with_key(rest@, k)
                        =~= with_key(before_sorted, k) + (with_key(seq![x], k) + with_key(
                        rest@,
                        k,
                    )));
                }
            }
            sorted.insert(pos, x);
            proof {
                vstd::seq_lib::to_multiset_insert(before_sorted, pos as int, x);
                assert(before_rest[0] == x);
                assert(before_rest.to_multiset().count(x) > 0) by {
                    vstd::seq_lib::to_multiset_contains(before_rest, x);
                    assert(before_rest.contains(x));
                }
                assert(sorted@.to_multiset().add(rest@.to_multiset()) =~= before_sorted.to_multiset().add(
                    before_rest.to_multiset(),
                ));
                let s = sorted@;
                assert forall|i: int, j: int| 0 <= i < j < s.len() implies !path_lt(
                    #[trigger] s[j].path@,
                    #[trigger] s[i].path@,
                ) by {
                    if i < pos && j == pos {
                        assert(s[i] == before_sorted[i]);
                    } else if i == pos && j > pos {
                        assert(s[j] == before_sorted[j - 1]);
                        assert(pos < before_sorted.len());
                        assert(path_lt(xp, before_sorted[pos as int].path@));
                        if path_lt(s[j].path@, xp) {
                            lemma_keys_lt_transitive(
                                component_keys(s[j].path@),
                                component_keys(xp),
                                component_keys(before_sorted[pos as int].path@),
                            );
                            if j - 1 > pos {
                                assert(!path_lt(
                                    before_sorted[j - 1].path@,
                                    before_sorted[pos as int].path@,
                                ));
                            } else {
                                lemma_keys_lt_irreflexive(component_keys(s[j].path@));
                            }
                        }
                    } else if j < pos {
                        assert(s[i] == before_sorted[i] && s[j] == before_sorted[j]);
                    } else if i < pos && j > pos {
                        assert(s[i] == before_sorted[i] && s[j] == before_sorted[j - 1]);
                    } else {
                        assert(s[i] == before_sorted[i - 1] && s[j] == before_sorted[j - 1]);
                    }
                }
            }
        }
        proof {
            assert(rest@ =~= Seq::<Candidate>::empty());
            assert(rest@.to_multiset() =~= vstd::multiset::Multiset::empty());
            assert(sorted@.to_multiset() =~= all.to_multiset());
            assert forall|k: Seq<(int, Seq<u8>)>|
                #[trigger] with_key(sorted@, k) == with_key(all, k) by {
                lemma_with_key_none(rest@, k);
                assert(with_key(sorted@, k) + with_key(rest@, k) =~= with_key(sorted@, k));
            }
        }
        self.candidates = sorted;
    }
}

/// Whether a candidate's path has the components `k`: paths that `Path`
/// order counts as equal.
pub open spec fn has_key(k: Seq<(int, Seq<u8>)>) -> spec_fn(Candidate) -> bool {
    |c: Candidate| component_keys(c.path@) == k
}

/// The candidates whose paths have the components `k`, in order.
pub open spec fn with_key(c: Seq<Candidate>, k: Seq<(int, Seq<u8>)>) -> Seq<Candidate> {
    c.filter(has_key(k))
}

proof fn lemma_with_key_single(x: Candidate, k: Seq<(int, Seq<u8>)>)
    ensures
        with_key(seq![x], k) == if component_keys(x.path@) == k {
            seq![x]
        } else {
            Seq::<Candidate>::empty()
        },
{
    reveal_with_fuel(Seq::filter, 2);
    assert(seq![x].drop_last() =~= Seq::<Candidate>::empty());
    assert(seq![x].last() == x);
    if component_keys(x.path@) == k {
        assert(Seq::<Candidate>::empty().push(x) =~= seq![x]);
    }
}

proof fn lemma_with_key_none(s: Seq<Candidate>, k: Seq<(int, Seq<u8>)>)
    requires
        forall|j: int| 0 <= j < s.len() ==> component_keys(#[trigger] s[j].path@) != k,
    ensures
        with_key(s, k) == Seq::<Candidate>::empty(),
    decreases s.len(),
{
    reveal(Seq::filter);
    if s.len() > 0 {
        let t = s.drop_last();
        assert forall|j: int| 0 <= j < t.len() implies component_keys(#[trigger] t[j].path@)
            != k by {
            assert(t[j] == s[j]);
        }
        lemma_with_key_none(t, k);
        assert(component_keys(s[s.len() - 1].path@) != k);
    } else {
        assert(s =~= Seq::<Candidate>::empty());
    }
}

proof fn lemma_with_key_first(s: Seq<Candidate>, k: Seq<(int, Seq<u8>)>)
    requires
        s.len() > 0,
    ensures
        with_key(s, k) == with_key(seq![s[0]], k) + with_key(s.drop_first(), k),
{
    assert(s =~= seq![s[0]] + s.drop_first());
    Seq::filter_distributes_over_add(seq![s[0]], s.drop_first(), has_key(k));
}

/// Inserting `x` where every later candidate's path differs from its path
/// puts `x` after every candidate with an equal path.
proof fn lemma_with_key_insert(s: Seq<Candidate>, pos: int, x: Candidate, k: Seq<(int, Seq<u8>)>)
    requires
        0 <= pos <= s.len(),
        forall|j: int|
            pos <= j < s.len() ==> component_keys(#[trigger] s[j].path@) != component_keys(
                x.path@,
            ),
    ensures
        with_key(s.insert(pos, x), k) == with_key(s, k) + with_key(seq![x], k),
{
    let a = s.take(pos);
    let b = s.skip(pos);
    assert(s =~= a + b);
    assert(s.insert(pos, x) =~= a + seq![x] + b);
    Seq::filter_distributes_over_add(a, b, has_key(k));
    Seq::filter_distributes_over_add(a + seq![x], b, has_key(k));
    Seq::filter_distributes_over_add(a, seq![x], has_key(k));
    lemma_with_key_single(x, k);
    if component_keys(x.path@) == k {
        assert forall|j: int| 0 <= j < b.len() implies component_keys(#[trigger] b[j].path@)
            != k by {
            assert(b[j] == s[pos + j]);
        }
        lemma_with_key_none(b, k);
        assert(with_key(a, k) + with_key(seq![x], k) + with_key(b, k) =~= with_key(a, k)
            + with_key(b, k) + with_key(seq![x], k));
    } else {
        assert(with_key(a, k) + with_key(seq![x], k) + with_key(b, k) =~= with_key(a, k)
            + with_key(b, k) + with_key(seq![x], k));
    }
}

proof fn lemma_keys_lt_irreflexive(a: Seq<(int, Seq<u8>)>)
    ensures
        !keys_lt(a, a),
    decreases a.len(),
{
    if a.len() > 0 {
        lemma_keys_lt_irreflexive(a.drop_first());
    }
}

} // verus!
