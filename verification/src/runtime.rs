//! The background worker's runtime record: the status file format, the
//! process identity read from `/proc`, the worker's environment, and the
//! decisions taken while the worker is started and stopped.
use crate::click::{cps_error, cps_error_text, cps_in_range, valid_cps};
use crate::config::{append_bytes, join_path, joined};
use crate::text::{
    byte_codes, bytes_equal, char_codes, decimal_bytes, decimal_chars, decimal_string, display_bytes,
    is_white_space, lemma_decimal_roundtrip, lossy_text,
    parse_u64_bytes, parse_u64_str, parsed_unsigned, push_decimal, utf8_text, value_of,
    white_space,
};
use crate::{message, Error};
use vstd::prelude::*;
use vstd::utf8::{decode_utf8, encode_utf8, valid_utf8};

verus! {

/// The environment variable that marks the background worker.
pub const WORKER_MARKER: &'static str = "EC_INTERNAL_WORKER";

/// The environment variable that carries the worker's click rate.
pub const WORKER_CPS: &'static str = "EC_INTERNAL_CPS";

/// What a running worker records about itself.
#[derive(Clone, Debug, PartialEq, Eq)]
pub struct Status {
    pub pid: u32,
    pub start_ticks: u64,
    pub executable: Vec<u8>,
    pub cps: u32,
    pub device: String,
}

/// `ec.lock`
pub open spec fn lock_name() -> Seq<u8> {
    seq![0x65u8, 0x63, 0x2e, 0x6c, 0x6f, 0x63, 0x6b]
}

/// `ec.status`
pub open spec fn status_name() -> Seq<u8> {
    seq![0x65u8, 0x63, 0x2e, 0x73, 0x74, 0x61, 0x74, 0x75, 0x73]
}

/// The worker lock file in the runtime directory `d`.
pub fn lock_path(d: &[u8]) -> (p: Vec<u8>)
    ensures
        p@ == joined(d@, lock_name()),
{
    let name = vec![0x65u8, 0x63, 0x2e, 0x6c, 0x6f, 0x63, 0x6b];
    assert(name@ == lock_name());
    join_path(d, name.as_slice())
}

/// The status file in the runtime directory `d`.
pub fn status_path(d: &[u8]) -> (p: Vec<u8>)
    ensures
        p@ == joined(d@, status_name()),
{
    let name = vec![0x65u8, 0x63, 0x2e, 0x73, 0x74, 0x61, 0x74, 0x75, 0x73];
    assert(name@ == status_name());
    join_path(d, name.as_slice())
}

/// `EC2`, the first field of every status record.
pub open spec fn status_magic() -> Seq<u8> {
    seq![0x45u8, 0x43, 0x32]
}

pub open spec fn nul() -> Seq<u8> {
    seq![0u8]
}

/// The status record: `EC2`, the process id, its start time in clock
/// ticks, the click rate, the executable path and the device name,
/// separated by NUL bytes.
pub open spec fn status_bytes(
    pid: nat,
    ticks: nat,
    cps: nat,
    exe: Seq<u8>,
    device: Seq<char>,
) -> Seq<u8> {
    status_magic() + nul() + decimal_bytes(pid) + nul() + decimal_bytes(ticks) + nul()
        + decimal_bytes(cps) + nul() + exe + nul() + encode_utf8(device)
}

pub fn encode_status(status: &Status) -> (b: Vec<u8>)
    ensures
        b@ == status_bytes(
            status.pid as nat,
            status.start_ticks as nat,
            status.cps as nat,
            status.executable@,
            status.device@,
        ),
{
    let mut out: Vec<u8> = vec![0x45u8, 0x43, 0x32, 0];
    push_decimal(&mut out, status.pid as u64);
    out.push(0u8);
    push_decimal(&mut out, status.start_ticks);
    out.push(0u8);
    push_decimal(&mut out, status.cps as u64);
    out.push(0u8);
    append_bytes(&mut out, status.executable.as_slice());
    out.push(0u8);
    append_bytes(&mut out, status.device.as_str().as_bytes());
    proof {
        assert(out@ =~= status_bytes(
            status.pid as nat,
            status.start_ticks as nat,
            status.cps as nat,
            status.executable@,
            status.device@,
        ));
    }
    out
}

/// Where `x` first occurs in `s`.
pub open spec fn first_index(s: Seq<u8>, x: u8) -> Option<int>
    decreases s.len(),
{
    if s.len() == 0 {
        None
    } else if s[0] == x {
        Some(0)
    } else {
        match first_index(s.drop_first(), x) {
            Some(i) => Some(i + 1),
            None => None,
        }
    }
}

/// `s` split at NUL bytes into at most `n` fields, the last of which keeps
/// the rest, as `splitn(n, ..)` splits a slice.
pub open spec fn split_fields(s: Seq<u8>, n: nat) -> Seq<Seq<u8>>
    decreases s.len(), n,
{
    if n <= 1 {
        seq![s]
    } else {
        match first_index(s, 0u8) {
            None => seq![s],
            Some(i) => if 0 <= i < s.len() {
                seq![s.take(i)] + split_fields(s.skip(i + 1), (n - 1) as nat)
            } else {
                seq![s]
            },
        }
    }
}

/// A number field of the status record, as `str::parse` reads it: any
/// field that is not an optional `+` and decimal digits in range fails.
pub open spec fn number_field(field: Seq<u8>, max: int) -> Option<int> {
    parsed_unsigned(byte_codes(field), max)
}

/// The parts of a status record: process id, start ticks, click rate,
/// executable and device, or nothing when the record is malformed.
pub open spec fn status_parts(b: Seq<u8>) -> Option<(int, int, int, Seq<u8>, Seq<char>)> {
    let f = split_fields(b, 6);
    if f.len() != 6 || f[0] != status_magic() {
        None
    } else {
        match (
            number_field(f[1], u32::MAX as int),
            number_field(f[2], u64::MAX as int),
            number_field(f[3], u32::MAX as int),
        ) {
            (Some(pid), Some(ticks), Some(cps)) => if valid_utf8(f[5]) {
                Some((pid, ticks, cps, f[4], decode_utf8(f[5])))
            } else {
                None
            },
            _ => None,
        }
    }
}

proof fn lemma_first_index_found(s: Seq<u8>, x: u8, k: int)
    requires
        0 <= k < s.len(),
        s[k] == x,
        forall|j: int| 0 <= j < k ==> s[j] != x,
    ensures
        first_index(s, x) == Some(k),
    decreases k,
{
    if k > 0 {
        lemma_first_index_found(s.drop_first(), x, k - 1);
    }
}

proof fn lemma_first_index_absent(s: Seq<u8>, x: u8)
    requires
        forall|j: int| 0 <= j < s.len() ==> s[j] != x,
    ensures
        first_index(s, x) is None,
    decreases s.len(),
{
    if s.len() > 0 {
        lemma_first_index_absent(s.drop_first(), x);
    }
}

proof fn lemma_first_index_in_range(s: Seq<u8>, x: u8)
    ensures
        first_index(s, x) matches Some(i) ==> 0 <= i < s.len() && s[i] == x,
    decreases s.len(),
{
    if s.len() > 0 {
        lemma_first_index_in_range(s.drop_first(), x);
    }
}

/// The first position at or after `from` that holds `x`.
fn find_byte(s: &[u8], from: usize, x: u8) -> (r: Option<usize>)
    requires
        from <= s@.len(),
    ensures
        match r {
            Some(i) => from <= i < s@.len() && first_index(s@.skip(from as int), x) == Some(
                i - from,
            ),
            None => first_index(s@.skip(from as int), x) is None,
        },
{
    let mut i = from;
    while i < s.len()
        invariant
            from <= i <= s@.len(),
            forall|j: int| from <= j < i ==> s@[j] != x,
        decreases s@.len() - i,
    {
        if s[i] == x {
            proof {
                let t = s@.skip(from as int);
                assert forall|j: int| 0 <= j < i - from implies t[j] != x by {
                    assert(t[j] == s@[from + j]);
                }
                lemma_first_index_found(t, x, i - from);
            }
            return Some(i);
        }
        i = i + 1;
    }
    proof {
        let t = s@.skip(from as int);
        assert forall|j: int| 0 <= j < t.len() implies t[j] != x by {
            assert(t[j] == s@[from + j]);
        }
        lemma_first_index_absent(t, x);
    }
    None
}

fn copy_range(s: &[u8], from: usize, to: usize) -> (v: Vec<u8>)
    requires
        from <= to <= s@.len(),
    ensures
        v@ == s@.subrange(from as int, to as int),
{
    let mut v: Vec<u8> = Vec::new();
    let mut i = from;
    while i < to
        invariant
            from <= i <= to,
            to <= s@.len(),
            v@ == s@.subrange(from as int, i as int),
        decreases to - i,
    {
        v.push(s[i]);
        i = i + 1;
        assert(v@ =~= s@.subrange(from as int, i as int));
    }
    v
}

pub open spec fn field_views(v: Seq<Vec<u8>>) -> Seq<Seq<u8>> {
    v.map_values(|x: Vec<u8>| x@)
}

/// The status record split at NUL bytes into at most six fields.
fn status_fields(b: &[u8]) -> (f: Vec<Vec<u8>>)
    ensures
        field_views(f@) == split_fields(b@, 6),
{
    let mut fields: Vec<Vec<u8>> = Vec::new();
    let len = b.len();
    let mut pos: usize = 0;
    let mut k: usize = 0;
    assert(b@.skip(0) =~= b@);
    assert(field_views(fields@) + split_fields(b@.skip(0), 6) =~= split_fields(b@, 6));
    loop
        invariant
            len == b@.len(),
            pos <= b@.len(),
            k <= 5,
            fields@.len() == k,
            field_views(fields@) + split_fields(b@.skip(pos as int), (6 - k) as nat) == split_fields(
                b@,
                6,
            ),
        decreases b@.len() - pos, 5 - k,
    {
        let ghost rest = b@.skip(pos as int);
        let ghost before = fields@;
        if k == 5 {
            let last = copy_range(b, pos, b.len());
            fields.push(last);
            proof {
                assert(last@ =~= rest);
                assert(field_views(fields@) =~= field_views(before).push(rest));
                assert(split_fields(rest, 1) == seq![rest]);
                assert(field_views(before) + seq![rest] =~= field_views(before).push(rest));
            }
            return fields;
        }
        match find_byte(b, pos, 0u8) {
            None => {
                let last = copy_range(b, pos, b.len());
                fields.push(last);
                proof {
                    assert(last@ =~= rest);
                    assert(field_views(fields@) =~= field_views(before).push(rest));
                    assert(field_views(before) + seq![rest] =~= field_views(before).push(rest));
                }
                return fields;
            },
            Some(i) => {
                let piece = copy_range(b, pos, i);
                fields.push(piece);
                proof {
                    let j = i - pos;
                    assert(piece@ =~= rest.take(j));
                    assert(rest.skip(j + 1) =~= b@.skip(i + 1));
                    assert(split_fields(rest, (6 - k) as nat) == seq![rest.take(j)]
                        + split_fields(rest.skip(j + 1), (5 - k) as nat));
                    assert(field_views(fields@) =~= field_views(before).push(piece@));
                    assert(field_views(before) + (seq![rest.take(j)] + split_fields(
                        b@.skip(i + 1),
                        (5 - k) as nat,
                    )) =~= field_views(fields@) + split_fields(b@.skip(i + 1), (5 - k) as nat));
                }
                pos = i + 1;
                k = k + 1;
            },
        }
    }
}

/// A number field of the status record.
pub fn parse_number(field: &[u8]) -> (r: Option<u64>)
    ensures
        value_of(r) == number_field(field@, u64::MAX as int),
{
    parse_u64_bytes(field)
}

fn parse_u32_field(field: &[u8]) -> (r: Option<u32>)
    ensures
        match r {
            Some(v) => number_field(field@, u32::MAX as int) == Some(v as int),
            None => number_field(field@, u32::MAX as int) is None,
        },
{
    match parse_number(field) {
        Some(v) => if v <= u32::MAX as u64 {
            Some(v as u32)
        } else {
            None
        },
        None => None,
    }
}

/// Reads a status record; a malformed record gives nothing.
pub fn decode_status(bytes: &[u8]) -> (r: Option<Status>)
    ensures
        match status_parts(bytes@) {
            Some((pid, ticks, cps, exe, device)) => (r matches Some(s) && s.pid == pid
                && s.start_ticks == ticks && s.cps == cps && s.executable@ == exe && s.device@
                == device),
            None => r is None,
        },
{
    let fields = status_fields(bytes);
    if fields.len() != 6 {
        return None;
    }
    let magic = vec![0x45u8, 0x43, 0x32];
    assert(field_views(fields@)[0] == fields@[0]@);
    assert(field_views(fields@)[1] == fields@[1]@);
    assert(field_views(fields@)[2] == fields@[2]@);
    assert(field_views(fields@)[3] == fields@[3]@);
    assert(field_views(fields@)[4] == fields@[4]@);
    assert(field_views(fields@)[5] == fields@[5]@);
    if !bytes_equal(fields[0].as_slice(), magic.as_slice()) {
        return None;
    }
    let pid = match parse_u32_field(fields[1].as_slice()) {
        Some(v) => v,
        None => return None,
    };
    let start_ticks = match parse_number(fields[2].as_slice()) {
        Some(v) => v,
        None => return None,
    };
    let cps = match parse_u32_field(fields[3].as_slice()) {
        Some(v) => v,
        None => return None,
    };
    let device = match utf8_text(fields[5].as_slice()) {
        Some(t) => String::from_str(t),
        None => return None,
    };
    let mut executable: Vec<u8> = Vec::new();
    append_bytes(&mut executable, fields[4].as_slice());
    Some(Status { pid, start_ticks, executable, cps, device })
}

proof fn lemma_split_after(prefix: Seq<u8>, rest: Seq<u8>, n: nat)
    requires
        n >= 2,
        !prefix.contains(0u8),
    ensures
        split_fields(prefix + nul() + rest, n) == seq![prefix] + split_fields(
            rest,
            (n - 1) as nat,
        ),
{
    let s = prefix + nul() + rest;
    assert forall|j: int| 0 <= j < prefix.len() implies s[j] != 0u8 by {
        assert(s[j] == prefix[j]);
        if prefix[j] == 0u8 {
            assert(prefix.contains(0u8));
        }
    }
    lemma_first_index_found(s, 0u8, prefix.len() as int);
    assert(s.take(prefix.len() as int) =~= prefix);
    assert(s.skip(prefix.len() as int + 1) =~= rest);
}

proof fn lemma_digits_have_no_nul(n: nat)
    ensures
        !decimal_bytes(n).contains(0u8),
{
    lemma_decimal_roundtrip(n, n as int);
    let d = decimal_bytes(n);
    if d.contains(0u8) {
        let i = choose|i: int| 0 <= i < d.len() && d[i] == 0u8;
        assert(byte_codes(d)[i] == 0);
    }
}

/// Reading back a written status record gives the same status, for every
/// executable path that holds no NUL byte.
#[verifier::spinoff_prover]
pub proof fn lemma_status_roundtrip(
    pid: u32,
    ticks: u64,
    cps: u32,
    exe: Seq<u8>,
    device: Seq<char>,
)
    requires
        !exe.contains(0u8),
    ensures
        status_parts(status_bytes(pid as nat, ticks as nat, cps as nat, exe, device)) == Some(
            (pid as int, ticks as int, cps as int, exe, device),
        ),
{
    let d = encode_utf8(device);
    let p = decimal_bytes(pid as nat);
    let t = decimal_bytes(ticks as nat);
    let c = decimal_bytes(cps as nat);
    lemma_digits_have_no_nul(pid as nat);
    lemma_digits_have_no_nul(ticks as nat);
    lemma_digits_have_no_nul(cps as nat);
    assert(!status_magic().contains(0u8)) by {
        if status_magic().contains(0u8) {
            let i = choose|i: int| 0 <= i < 3 && status_magic()[i] == 0u8;
        }
    }
    let r4 = exe + nul() + d;
    let r3 = c + nul() + r4;
    let r2 = t + nul() + r3;
    let r1 = p + nul() + r2;
    let r0 = status_magic() + nul() + r1;
    assert(status_bytes(pid as nat, ticks as nat, cps as nat, exe, device) =~= r0);
    lemma_split_after(status_magic(), r1, 6);
    lemma_split_after(p, r2, 5);
    lemma_split_after(t, r3, 4);
    lemma_split_after(c, r4, 3);
    lemma_split_after(exe, d, 2);
    assert(split_fields(d, 1) == seq![d]);
    assert(split_fields(r0, 6) =~= seq![status_magic(), p, t, c, exe, d]);
    lemma_decimal_roundtrip(pid as nat, u32::MAX as int);
    lemma_decimal_roundtrip(ticks as nat, u64::MAX as int);
    lemma_decimal_roundtrip(cps as nat, u32::MAX as int);
    vstd::utf8::encode_utf8_valid_utf8(device);
    vstd::utf8::encode_utf8_decode_utf8(device);
}

pub open spec fn worker_missing_text() -> Seq<char> {
    "internal worker CPS is missing"@
}

pub open spec fn worker_invalid_text() -> Seq<char> {
    "internal worker CPS is invalid"@
}

/// What the worker's environment says: not a worker when the marker is not
/// exactly `1`; otherwise the click rate it must run at, or why it cannot.
pub open spec fn worker_rate(marker: Option<Seq<u8>>, rate: Option<Seq<char>>) -> Result<
    Option<int>,
    Seq<char>,
> {
    if marker != Some(seq![0x31u8]) {
        Ok(None)
    } else {
        match rate {
            None => Err(worker_missing_text()),
            Some(text) => match parsed_unsigned(char_codes(text), u32::MAX as int) {
                None => Err(worker_invalid_text()),
                Some(cps) => if cps_in_range(cps) {
                    Ok(Some(cps))
                } else {
                    Err(cps_error_text())
                },
            },
        }
    }
}

/// The background worker accepts every rate the command line accepts: for
/// each rate from 1 to 600 written in decimal, a worker marked with `1`
/// runs at exactly that rate, as `ec <CPS>` starts EC at it; every other
/// rate a `u32` holds is refused by both.
pub proof fn lemma_worker_takes_every_command_rate(n: u32)
    ensures
        1 <= n <= 600 ==> worker_rate(Some(seq![0x31u8]), Some(decimal_chars(n as nat)))
            == Ok::<Option<int>, Seq<char>>(Some(n as int)),
        1 <= n <= 600 ==> crate::cli::action_for(decimal_chars(n as nat)) == Ok::<
            crate::cli::Action,
            Seq<char>,
        >(crate::cli::Action::Start(n)),
        !(1 <= n <= 600) ==> worker_rate(Some(seq![0x31u8]), Some(decimal_chars(n as nat))) is Err,
        !(1 <= n <= 600) ==> crate::cli::action_for(decimal_chars(n as nat)) is Err,
{
    crate::text::lemma_decimal_chars_roundtrip(n as nat, u32::MAX as int);
    crate::cli::lemma_rate_argument(n);
}

/// The worker's click rate from the marker variable's value and the rate
/// variable's value (absent when unset or not Unicode).
pub fn worker_cps_from(marker: Option<&[u8]>, rate: Option<&str>) -> (r: Result<Option<u32>, Error>)
    ensures
        match worker_rate(
            match marker {
                Some(m) => Some(m@),
                None => None,
            },
            match rate {
                Some(t) => Some(t@),
                None => None,
            },
        ) {
            Ok(None) => r matches Ok(None),
            Ok(Some(cps)) => (r matches Ok(Some(c)) && c == cps),
            Err(text) => (r matches Err(e) && e.is_message(text)),
        },
{
    let one = vec![0x31u8];
    assert(one@ == seq![0x31u8]);
    let is_worker = match marker {
        Some(m) => bytes_equal(m, one.as_slice()),
        None => false,
    };
    if !is_worker {
        return Ok(None);
    }
    let text = match rate {
        Some(t) => t,
        None => return Err(message("internal worker CPS is missing")),
    };
    let cps = match parse_u64_str(text) {
        Some(v) if v <= u32::MAX as u64 => v as u32,
        parsed => {
            proof {
                if parsed is Some {
                    assert(value_of(parsed) == parsed_unsigned(char_codes(text@), u64::MAX as int));
                }
            }
            return Err(message("internal worker CPS is invalid"));
        },
    };
    if !valid_cps(cps) {
        return Err(Error::Message(cps_error()));
    }
    Ok(Some(cps))
}

/// The whitespace-separated words of `s`, as `split_whitespace` yields them.
pub open spec fn words(s: Seq<char>) -> Seq<Seq<char>>
    decreases s.len(),
{
    if s.len() == 0 {
        Seq::empty()
    } else if is_white_space(s[0]) {
        words(s.drop_first())
    } else {
        let w = words(s.drop_first());
        if s.len() > 1 && !is_white_space(s[1]) {
            w.update(0, seq![s[0]] + w[0])
        } else {
            seq![seq![s[0]]] + w
        }
    }
}

/// Where the last `)` stands in `s`.
pub open spec fn last_close_paren(s: Seq<char>) -> Option<int>
    decreases s.len(),
{
    if s.len() == 0 {
        None
    } else if s.last() == ')' {
        Some(s.len() - 1)
    } else {
        last_close_paren(s.drop_last())
    }
}

/// The start time, in clock ticks, recorded in the text of `/proc/<pid>/stat`:
/// the twentieth word after the character that follows the last `)`.
pub open spec fn stat_start_ticks(s: Seq<char>) -> Option<int> {
    match last_close_paren(s) {
        None => None,
        Some(e) => {
            let w = words(s.skip(e + 2));
            if w.len() > 19 {
                parsed_unsigned(char_codes(w[19]), u64::MAX as int)
            } else {
                None
            }
        },
    }
}

/// Texts whose byte offsets the reading can slice: the character after the
/// last `)` exists and is one byte long.
pub open spec fn stat_sliceable(s: Seq<char>) -> bool {
    last_close_paren(s) matches Some(e) ==> e + 1 < s.len() && (s[e + 1] as u32) < 0x80
}

proof fn lemma_last_close_paren(s: Seq<char>)
    ensures
        last_close_paren(s) matches Some(e) ==> 0 <= e < s.len() && s[e] == ')' && forall|j: int|
            e < j < s.len() ==> s[j] != ')',
        last_close_paren(s) is None ==> forall|j: int| 0 <= j < s.len() ==> s[j] != ')',
    decreases s.len(),
{
    if s.len() > 0 {
        let t = s.drop_last();
        lemma_last_close_paren(t);
        assert forall|j: int| 0 <= j < t.len() implies t[j] == s[j] by {}
        if s.last() != ')' {
            if let Some(e) = last_close_paren(t) {
                assert forall|j: int| e < j < s.len() implies s[j] != ')' by {
                    if j < t.len() {
                        assert(t[j] == s[j]);
                    }
                }
            } else {
                assert forall|j: int| 0 <= j < s.len() implies s[j] != ')' by {
                    if j < t.len() {
                        assert(t[j] == s[j]);
                    }
                }
            }
        }
    }
}

proof fn lemma_words_skip_white(s: Seq<char>, i: int)
    requires
        0 <= i < s.len(),
        is_white_space(s[i]),
    ensures
        words(s.skip(i)) == words(s.skip(i + 1)),
{
    assert(s.skip(i).drop_first() =~= s.skip(i + 1));
}

/// A word that runs from `i` up to `j`, where white space or the end follows.
proof fn lemma_words_take_word(s: Seq<char>, i: int, j: int)
    requires
        0 <= i < j <= s.len(),
        forall|k: int| i <= k < j ==> !is_white_space(#[trigger] s[k]),
        j == s.len() || is_white_space(s[j]),
    ensures
        words(s.skip(i)) == seq![s.subrange(i, j)] + words(s.skip(j)),
    decreases j - i,
{
    let t = s.skip(i);
    assert(t.drop_first() =~= s.skip(i + 1));
    if j == i + 1 {
        if j < s.len() {
            assert(t[1] == s[j]);
            lemma_words_skip_white(s, j);
        } else {
            assert(s.skip(j) =~= Seq::<char>::empty());
        }
        assert(s.subrange(i, j) =~= seq![s[i]]);
    } else {
        lemma_words_take_word(s, i + 1, j);
        assert(t[1] == s[i + 1]);
        assert(seq![s[i]] + s.subrange(i + 1, j) =~= s.subrange(i, j));
        assert((seq![s.subrange(i + 1, j)] + words(s.skip(j))).update(
            0,
            seq![s[i]] + s.subrange(i + 1, j),
        ) =~= seq![s.subrange(i, j)] + words(s.skip(j)));
    }
}

/// Copies the characters from `i` up to `j` into a string.
fn substring(s: &str, i: usize, j: usize) -> (r: String)
    requires
        i <= j <= s@.len(),
    ensures
        r@ == s@.subrange(i as int, j as int),
{
    let part = s.substring_char(i, j);
    String::from_str(part)
}

/// Reads the process start time from the text of `/proc/<pid>/stat`.
pub fn parse_start_ticks(stat: &str) -> (r: Option<u64>)
    requires
        stat_sliceable(stat@),
    ensures
        value_of(r) == stat_start_ticks(stat@),
{
    let ghost s = stat@;
    let n = stat.unicode_len();
    proof {
        lemma_last_close_paren(s);
    }
    let mut e: usize = n;
    let mut k: usize = n;
    while k > 0
        invariant
            s == stat@,
            n == s.len(),
            k <= n,
            e <= n,
            e == n ==> forall|j: int| k <= j < n ==> s[j] != ')',
            e < n ==> e >= k && s[e as int] == ')' && forall|j: int| e < j < n ==> s[j] != ')',
        decreases k,
    {
        if e == n && stat.get_char(k - 1) == ')' {
            e = k - 1;
        }
        k = k - 1;
    }
    if e == n {
        assert(last_close_paren(s) is None) by {
            if let Some(f) = last_close_paren(s) {
                assert(s[f] == ')');
            }
        }
        return None;
    }
    assert(last_close_paren(s) == Some(e as int)) by {
        if let Some(f) = last_close_paren(s) {
            assert(s[f] == ')');
            if f < e {
                assert(s[e as int] == ')');
            }
        } else {
            assert(s[e as int] == ')');
        }
    }
    let mut i: usize = e + 2;
    let mut seen: usize = 0;
    proof {
        assert(s.skip(i as int).len() == n - i);
    }
    while i < n
        invariant
            s == stat@,
            n == s.len(),
            e + 2 <= i <= n,
            seen <= 19,
            last_close_paren(s) == Some(e as int),
            words(s.skip(e + 2)).len() > 19 ==> words(s.skip(i as int)).len() > 19 - seen
                && words(s.skip(e + 2))[19] == words(s.skip(i as int))[19 - seen],
            words(s.skip(e + 2)).len() == words(s.skip(i as int)).len() + seen,
        decreases n - i,
    {
        if white_space(stat.get_char(i)) {
            proof {
                lemma_words_skip_white(s, i as int);
            }
            i = i + 1;
        } else {
            let mut j = i + 1;
            while j < n && !white_space(stat.get_char(j))
                invariant
                    s == stat@,
                    i < j <= n,
                    n == s.len(),
                    forall|m: int| i <= m < j ==> !is_white_space(#[trigger] s[m]),
                decreases n - j,
            {
                j = j + 1;
            }
            proof {
                lemma_words_take_word(s, i as int, j as int);
            }
            if seen == 19 {
                let word = substring(stat, i, j);
                return parse_u64_str(word.as_str());
            }
            seen = seen + 1;
            i = j;
        }
    }
    proof {
        assert(s.skip(i as int) =~= Seq::<char>::empty());
    }
    None
}

/// `EC_INTERNAL_WORKER=1`, the marker entry of a worker's environment.
pub open spec fn marker_entry() -> Seq<u8> {
    seq![
        0x45u8, 0x43, 0x5f, 0x49, 0x4e, 0x54, 0x45, 0x52, 0x4e, 0x41, 0x4c, 0x5f, 0x57, 0x4f,
        0x52, 0x4b, 0x45, 0x52, 0x3d, 0x31,
    ]
}

/// `s` split at every NUL byte, as `split(|b| *b == 0)` splits a slice.
pub open spec fn nul_pieces(s: Seq<u8>) -> Seq<Seq<u8>>
    decreases s.len(),
{
    match first_index(s, 0u8) {
        None => seq![s],
        Some(i) => if 0 <= i < s.len() {
            seq![s.take(i)] + nul_pieces(s.skip(i + 1))
        } else {
            seq![s]
        },
    }
}

/// Whether the NUL-separated environment block `environ` holds the worker
/// marker entry.
pub fn environ_has_marker(environ: &[u8]) -> (r: bool)
    ensures
        r == nul_pieces(environ@).contains(marker_entry()),
{
    let marker = vec![
        0x45u8, 0x43, 0x5f, 0x49, 0x4e, 0x54, 0x45, 0x52, 0x4e, 0x41, 0x4c, 0x5f, 0x57, 0x4f,
        0x52, 0x4b, 0x45, 0x52, 0x3d, 0x31,
    ];
    assert(marker@ == marker_entry());
    let ghost s = environ@;
    let n = environ.len();
    let mut start: usize = 0;
    assert(s.skip(0) =~= s);
    loop
        invariant
            s == environ@,
            marker@ == marker_entry(),
            n == s.len(),
            start <= n,
            nul_pieces(s).contains(marker_entry()) == nul_pieces(s.skip(start as int)).contains(
                marker_entry(),
            ),
        decreases n - start,
    {
        let ghost rest = s.skip(start as int);
        proof {
            lemma_first_index_in_range(rest, 0u8);
        }
        match find_byte(environ, start, 0u8) {
            Some(end) => {
                let piece = copy_range(environ, start, end);
                proof {
                    let k = end - start;
                    assert(piece@ =~= rest.take(k));
                    assert(rest.skip(k + 1) =~= s.skip(end + 1));
                    assert(nul_pieces(rest) == seq![rest.take(k)] + nul_pieces(s.skip(end + 1)));
                    lemma_contains_cons(rest.take(k), nul_pieces(s.skip(end + 1)), marker_entry());
                }
                if bytes_equal(piece.as_slice(), marker.as_slice()) {
                    return true;
                }
                start = end + 1;
            },
            None => {
                let piece = copy_range(environ, start, n);
                proof {
                    assert(piece@ =~= rest);
                    assert(nul_pieces(rest) == seq![rest]);
                    assert(seq![rest] =~= seq![rest] + Seq::<Seq<u8>>::empty());
                    lemma_contains_cons(rest, Seq::<Seq<u8>>::empty(), marker_entry());
                }
                return bytes_equal(piece.as_slice(), marker.as_slice());
            },
        }
    }
}

proof fn lemma_contains_cons(x: Seq<u8>, ys: Seq<Seq<u8>>, e: Seq<u8>)
    ensures
        (seq![x] + ys).contains(e) == (x == e || ys.contains(e)),
{
    let zs = seq![x] + ys;
    if zs.contains(e) {
        let i = choose|i: int| 0 <= i < zs.len() && zs[i] == e;
        if i > 0 {
            assert(ys[i - 1] == e);
        }
    }
    if x == e {
        assert(zs[0] == e);
    }
    if ys.contains(e) {
        let i = choose|i: int| 0 <= i < ys.len() && ys[i] == e;
        assert(zs[i + 1] == e);
    }
}

/// The report of `ec status`: the running worker's rate, device and process
/// id, or that none is running.
pub open spec fn status_text(s: Option<Status>) -> Seq<char> {
    match s {
        Some(st) => "EC is running at "@ + decimal_chars(st.cps as nat) + " CPS.\nDevice: "@
            + st.device@ + "\nPID: "@ + decimal_chars(st.pid as nat),
        None => "EC is not running."@,
    }
}

/// Whether `text` is `before`, then `part`, then `after`.
pub open spec fn is_split(text: Seq<char>, before: Seq<char>, part: Seq<char>, after: Seq<char>) -> bool {
    text == before + part + after
}

/// The status report shows the recorded rate, device and process id in
/// full: the text between "running at " and " CPS." reads back as the
/// rate, and the text after "PID: " reads back as the process id.
pub proof fn lemma_status_report_reads_back(st: Status)
    ensures
        exists|rate: Seq<char>, pid: Seq<char>|
            #[trigger] is_split(
                status_text(Some(st)),
                "EC is running at "@ + rate + " CPS.\nDevice: "@ + st.device@,
                "\nPID: "@,
                pid,
            ) && parsed_unsigned(char_codes(rate), u32::MAX as int) == Some(st.cps as int)
                && parsed_unsigned(char_codes(pid), u32::MAX as int) == Some(st.pid as int),
        status_text(None) == "EC is not running."@,
{
    let rate = decimal_chars(st.cps as nat);
    let pid = decimal_chars(st.pid as nat);
    crate::text::lemma_decimal_chars_roundtrip(st.cps as nat, u32::MAX as int);
    crate::text::lemma_decimal_chars_roundtrip(st.pid as nat, u32::MAX as int);
    assert(status_text(Some(st)) =~= ("EC is running at "@ + rate + " CPS.\nDevice: "@
        + st.device@) + "\nPID: "@ + pid);
    assert(is_split(
        status_text(Some(st)),
        "EC is running at "@ + rate + " CPS.\nDevice: "@ + st.device@,
        "\nPID: "@,
        pid,
    ));
}

pub fn status_report(s: Option<&Status>) -> (r: String)
    ensures
        r@ == status_text(
            match s {
                Some(st) => Some(*st),
                None => None,
            },
        ),
{
    match s {
        Some(st) => {
            let mut out = String::from_str("EC is running at ");
            let cps = decimal_string(st.cps as u64);
            out.append(cps.as_str());
            out.append(" CPS.\nDevice: ");
            out.append(st.device.as_str());
            out.append("\nPID: ");
            let pid = decimal_string(st.pid as u64);
            out.append(pid.as_str());
            out
        },
        None => String::from_str("EC is not running."),
    }
}

pub open spec fn already_running_text() -> Seq<char> {
    "EC is already running. Run `ec stop` first."@
}

/// A new background worker is started only when none is running.
pub fn start_allowed(running: bool) -> (r: Result<(), Error>)
    ensures
        !running ==> r is Ok,
        running ==> (r matches Err(e) && e.is_message(already_running_text())),
{
    if running {
        Err(message("EC is already running. Run `ec stop` first."))
    } else {
        Ok(())
    }
}

/// What the starting process learned while waiting for its new worker.
#[derive(Debug, PartialEq, Eq)]
pub enum StartupEvent {
    /// Whether the time allowed for starting is over.
    Expired(bool),
    /// The process id in the status of a live worker, when there is one.
    Recorded(Option<u32>),
    /// The worker's exit status as shown, once it has exited.
    Exited(Option<String>),
}

/// What the starting process does next.
#[derive(Debug, PartialEq, Eq)]
pub enum StartupAction {
    /// Read the status file.
    ReadStatus,
    /// Ask whether the worker has exited.
    CheckExit,
    /// Sleep briefly, then look at the clock.
    Pause,
    /// The worker is running.
    Started,
    /// Starting failed with this message.
    Failed(String),
}

/// The message when the worker exits before it reports itself running.
pub open spec fn worker_exit_text(exit: Seq<char>, log: Seq<u8>) -> Seq<char> {
    "background worker exited during startup ("@ + exit + "); see "@ + lossy_text(log)
}

/// The message when the worker does not report itself running in time.
pub open spec fn worker_timeout_text(log: Seq<u8>) -> Seq<char> {
    "background worker did not report ready within 5 seconds; see "@ + lossy_text(log)
}

/// Waiting for the worker with process id `child`, whose output goes to
/// the log at `log`: while time remains, the status file is read; the
/// worker has started once the status names it; otherwise it is asked
/// whether it has exited, which fails the start, and else the wait goes on.
pub fn startup_next(child: u32, log: &[u8], event: StartupEvent) -> (a: StartupAction)
    ensures
        match event {
            StartupEvent::Expired(true) => (a matches StartupAction::Failed(m) && m@
                == worker_timeout_text(log@)),
            StartupEvent::Expired(false) => a is ReadStatus,
            StartupEvent::Recorded(p) => if p == Some(child) {
                a is Started
            } else {
                a is CheckExit
            },
            StartupEvent::Exited(Some(e)) => (a matches StartupAction::Failed(m) && m@
                == worker_exit_text(e@, log@)),
            StartupEvent::Exited(None) => a is Pause,
        },
{
    match event {
        StartupEvent::Expired(true) => {
            let mut m = String::from_str(
                "background worker did not report ready within 5 seconds; see ",
            );
            let shown = display_bytes(log);
            m.append(shown.as_str());
            StartupAction::Failed(m)
        },
        StartupEvent::Expired(false) => StartupAction::ReadStatus,
        StartupEvent::Recorded(p) => match p {
            Some(pid) if pid == child => StartupAction::Started,
            _ => StartupAction::CheckExit,
        },
        StartupEvent::Exited(Some(e)) => {
            let mut m = String::from_str("background worker exited during startup (");
            m.append(e.as_str());
            m.append("); see ");
            let shown = display_bytes(log);
            m.append(shown.as_str());
            StartupAction::Failed(m)
        },
        StartupEvent::Exited(None) => StartupAction::Pause,
    }
}

/// Stopping the worker recorded with process id `pid`; `signalled` once it
/// has been sent the termination signal.
pub struct Stopping {
    pub pid: u32,
    pub signalled: bool,
}

/// What the stopping process learned.
#[derive(Debug, PartialEq, Eq)]
pub enum StopEvent {
    /// Whether the recorded process is still the worker.
    Alive(bool),
    /// The termination signal was sent, or sending it failed with this
    /// error.
    Signal(Option<String>),
    /// Whether the time allowed for stopping is over.
    Expired(bool),
}

/// What the stopping process does next.
#[derive(Debug, PartialEq, Eq)]
pub enum StopAction {
    /// Check whether the recorded process is still the worker.
    Check,
    /// Send the worker the termination signal.
    Signal,
    /// Start the time allowed for stopping, then look at the clock.
    StartTimer,
    /// Sleep briefly, then look at the clock.
    Pause,
    /// Remove the status record and finish; whether a worker was stopped.
    Done(bool),
    /// Stopping failed with this message.
    Failed(String),
}

/// The message when the termination signal cannot be sent.
pub open spec fn signal_failure_text(pid: u32, error: Seq<char>) -> Seq<char> {
    "failed to signal EC worker "@ + decimal_chars(pid as nat) + ": "@ + error
}

/// The message when the worker outlives the time allowed for stopping.
pub open spec fn stop_timeout_text(pid: u32) -> Seq<char> {
    "EC worker "@ + decimal_chars(pid as nat) + " did not stop within 5 seconds"@
}

impl Stopping {
    /// The next step of stopping: a recorded process that is no longer the
    /// worker is done with (stopped if it was signalled); a live worker is
    /// signalled once and then watched until it goes or time runs out.
    pub fn next(&mut self, event: StopEvent) -> (a: StopAction)
        ensures
            final(self).pid == old(self).pid,
            final(self).signalled == (old(self).signalled || event == StopEvent::Signal(None)),
            match event {
                StopEvent::Alive(false) => (a matches StopAction::Done(stopped) && stopped
                    == old(self).signalled),
                StopEvent::Alive(true) => if old(self).signalled {
                    a is Pause
                } else {
                    a is Signal
                },
                StopEvent::Signal(None) => a is StartTimer,
                StopEvent::Signal(Some(e)) => (a matches StopAction::Failed(m) && m@
                    == signal_failure_text(old(self).pid, e@)),
                StopEvent::Expired(true) => (a matches StopAction::Failed(m) && m@
                    == stop_timeout_text(old(self).pid)),
                StopEvent::Expired(false) => a is Check,
            },
    {
        match event {
            StopEvent::Alive(false) => StopAction::Done(self.signalled),
            StopEvent::Alive(true) => if self.signalled {
                StopAction::Pause
            } else {
                StopAction::Signal
            },
            StopEvent::Signal(None) => {
                self.signalled = true;
                StopAction::StartTimer
            },
            StopEvent::Signal(Some(e)) => {
                let mut m = String::from_str("failed to signal EC worker ");
                let pid = decimal_string(self.pid as u64);
                m.append(pid.as_str());
                m.append(": ");
                m.append(e.as_str());
                StopAction::Failed(m)
            },
            StopEvent::Expired(true) => {
                let mut m = String::from_str("EC worker ");
                let pid = decimal_string(self.pid as u64);
                m.append(pid.as_str());
                m.append(" did not stop within 5 seconds");
                StopAction::Failed(m)
            },
            StopEvent::Expired(false) => StopAction::Check,
        }
    }
}

} // verus!
