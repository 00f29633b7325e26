//! The saved mouse selection: where it lives, what a stable mouse path is,
//! and the exact format of the configuration file.
//!
//! Paths are byte strings, as paths are on Unix.
use crate::text::{
    all_white, bytes_end_with, contains_byte, count_byte, count_of, display_bytes, ends_with,
    lossy_text, str_all_white, utf8_text,
};
use crate::{message, Error};
use vstd::prelude::*;
use vstd::utf8::{decode_utf8, encode_utf8, valid_utf8};

verus! {

pub open spec fn slash() -> u8 {
    0x2f
}

/// Joining a relative or absolute path onto `base`, as `Path::join` does on
/// Unix: an absolute `rel` replaces `base`; otherwise a separator is put in
/// between unless `base` is empty or already ends with one.
pub open spec fn joined(base: Seq<u8>, rel: Seq<u8>) -> Seq<u8> {
    if rel.len() > 0 && rel[0] == slash() {
        rel
    } else if base.len() > 0 && base.last() != slash() {
        base + seq![slash()] + rel
    } else {
        base + rel
    }
}

pub fn join_path(base: &[u8], rel: &[u8]) -> (p: Vec<u8>)
    ensures
        p@ == joined(base@, rel@),
{
    let mut out: Vec<u8> = Vec::new();
    if rel.len() > 0 && rel[0] == 0x2fu8 {
        append_bytes(&mut out, rel);
        assert(out@ =~= rel@);
        return out;
    }
    append_bytes(&mut out, base);
    if base.len() > 0 && base[base.len() - 1] != 0x2fu8 {
        out.push(0x2fu8);
    }
    append_bytes(&mut out, rel);
    out
}

/// Appends `bytes` to `out`.
pub fn append_bytes(out: &mut Vec<u8>, bytes: &[u8])
    ensures
        final(out)@ == old(out)@ + bytes@,
{
    let mut i: usize = 0;
    while i < bytes.len()
        invariant
            i <= bytes@.len(),
            out@ == old(out)@ + bytes@.take(i as int),
        decreases bytes@.len() - i,
    {
        out.push(bytes[i]);
        i = i + 1;
        assert(bytes@.take(i as int) =~= bytes@.take(i - 1).push(bytes@[i - 1]));
    }
    assert(bytes@.take(i as int) =~= bytes@);
}

/// `.config`
pub open spec fn dot_config() -> Seq<u8> {
    seq![0x2eu8, 0x63, 0x6f, 0x6e, 0x66, 0x69, 0x67]
}

/// `ec/device`
pub open spec fn ec_device() -> Seq<u8> {
    seq![0x65u8, 0x63, 0x2f, 0x64, 0x65, 0x76, 0x69, 0x63, 0x65]
}

pub open spec fn home_unset_text() -> Seq<char> {
    "HOME is unset; cannot locate EC configuration"@
}

/// Where the device configuration lives: under `XDG_CONFIG_HOME` when it is
/// set and nonempty, else under `$HOME/.config`.
pub open spec fn config_location(xdg: Option<Seq<u8>>, home: Option<Seq<u8>>) -> Option<Seq<u8>> {
    match xdg {
        Some(x) if x.len() > 0 => Some(joined(x, ec_device())),
        _ => match home {
            Some(h) => Some(joined(joined(h, dot_config()), ec_device())),
            None => None,
        },
    }
}

/// The configuration path for the given `XDG_CONFIG_HOME` and `HOME`.
pub fn path_for(xdg: Option<Vec<u8>>, home: Option<Vec<u8>>) -> (r: Result<Vec<u8>, Error>)
    ensures
        match config_location(
            match xdg {
                Some(x) => Some(x@),
                None => None,
            },
            match home {
                Some(h) => Some(h@),
                None => None,
            },
        ) {
            Some(p) => (r matches Ok(q) && q@ == p),
            None => (r matches Err(e) && e.is_message(home_unset_text())),
        },
{
    let device = vec![0x65u8, 0x63, 0x2f, 0x64, 0x65, 0x76, 0x69, 0x63, 0x65];
    assert(device@ == ec_device());
    let base = match xdg {
        Some(value) if value.len() > 0 => value,
        _ => match home {
            Some(h) => {
                let config = vec![0x2eu8, 0x63, 0x6f, 0x6e, 0x66, 0x69, 0x67];
                assert(config@ == dot_config());
                join_path(h.as_slice(), config.as_slice())
            },
            None => {
                return Err(message("HOME is unset; cannot locate EC configuration"));
            },
        },
    };
    Ok(join_path(base.as_slice(), device.as_slice()))
}

/// The pieces of `p` between `/` separators, empty ones included.
pub open spec fn pieces(p: Seq<u8>) -> Seq<Seq<u8>>
    decreases p.len(),
{
    if p.len() == 0 {
        seq![Seq::empty()]
    } else {
        let q = pieces(p.drop_last());
        if p.last() == slash() {
            q.push(Seq::empty())
        } else {
            q.update(q.len() - 1, q.last().push(p.last()))
        }
    }
}

/// `.`
pub open spec fn dot() -> Seq<u8> {
    seq![0x2eu8]
}

/// Whether a piece is dropped by path normalization: empty pieces from
/// repeated or trailing separators, and `.`.
pub open spec fn is_elided(piece: Seq<u8>) -> bool {
    piece.len() == 0 || piece == dot()
}

/// The pieces that survive normalization, in order.
pub open spec fn kept(pieces: Seq<Seq<u8>>) -> Seq<Seq<u8>>
    decreases pieces.len(),
{
    if pieces.len() == 0 {
        Seq::empty()
    } else {
        let rest = kept(pieces.drop_last());
        if is_elided(pieces.last()) {
            rest
        } else {
            rest.push(pieces.last())
        }
    }
}

/// The components of a path after its root, as `Path::components` yields
/// them for an absolute Unix path (`..` stays as a component of its own).
pub open spec fn components(p: Seq<u8>) -> Seq<Seq<u8>> {
    kept(pieces(p))
}

/// `dev`
pub open spec fn dev_name() -> Seq<u8> {
    seq![0x64u8, 0x65, 0x76]
}

/// `input`
pub open spec fn input_name() -> Seq<u8> {
    seq![0x69u8, 0x6e, 0x70, 0x75, 0x74]
}

/// `by-id`
pub open spec fn by_id_name() -> Seq<u8> {
    seq![0x62u8, 0x79, 0x2d, 0x69, 0x64]
}

/// `-event-mouse`
pub open spec fn event_mouse_suffix() -> Seq<u8> {
    seq![0x2du8, 0x65, 0x76, 0x65, 0x6e, 0x74, 0x2d, 0x6d, 0x6f, 0x75, 0x73, 0x65]
}

/// A stable mouse path: absolute, exactly `/dev/input/by-id/<name>`, with a
/// name ending in `-event-mouse`.
pub open spec fn is_stable_mouse_path(p: Seq<u8>) -> bool {
    let c = components(p);
    &&& p.len() > 0 && p[0] == slash()
    &&& c.len() == 4
    &&& c[0] == dev_name()
    &&& c[1] == input_name()
    &&& c[2] == by_id_name()
    &&& ends_with(c[3], event_mouse_suffix())
}

pub open spec fn unstable_path_text() -> Seq<char> {
    "configured mouse path must be an absolute /dev/input/by-id/*-event-mouse path"@
}

pub open spec fn byte_views(v: Seq<Vec<u8>>) -> Seq<Seq<u8>> {
    v.map_values(|x: Vec<u8>| x@)
}

proof fn lemma_pieces_extend(p: Seq<u8>, i: int)
    requires
        0 <= i < p.len(),
    ensures
        pieces(p.take(i)).len() >= 1,
        pieces(p.take(i + 1)) == (if p[i] == slash() {
            pieces(p.take(i)).push(Seq::empty())
        } else {
            pieces(p.take(i)).update(
                pieces(p.take(i)).len() - 1,
                pieces(p.take(i)).last().push(p[i]),
            )
        }),
{
    lemma_pieces_nonempty(p.take(i));
    assert(p.take(i + 1).drop_last() =~= p.take(i));
}

proof fn lemma_pieces_nonempty(p: Seq<u8>)
    ensures
        pieces(p).len() >= 1,
    decreases p.len(),
{
    if p.len() > 0 {
        lemma_pieces_nonempty(p.drop_last());
    }
}

proof fn lemma_kept_push(s: Seq<Seq<u8>>, x: Seq<u8>)
    ensures
        kept(s.push(x)) == (if is_elided(x) {
            kept(s)
        } else {
            kept(s).push(x)
        }),
{
    assert(s.push(x).drop_last() =~= s);
}

/// The components of `path`, computed in one pass.
pub fn path_components(path: &[u8]) -> (c: Vec<Vec<u8>>)
    ensures
        byte_views(c@) == components(path@),
{
    let ghost p = path@;
    let mut done: Vec<Vec<u8>> = Vec::new();
    let mut cur: Vec<u8> = Vec::new();
    let mut i: usize = 0;
    proof {
        assert(p.take(0) =~= Seq::<u8>::empty());
        assert(pieces(p.take(0)).drop_last() =~= Seq::<Seq<u8>>::empty());
        assert(byte_views(done@) =~= Seq::<Seq<u8>>::empty());
    }
    while i < path.len()
        invariant
            p == path@,
            i <= p.len(),
            pieces(p.take(i as int)).len() >= 1,
            byte_views(done@) == kept(pieces(p.take(i as int)).drop_last()),
            cur@ == pieces(p.take(i as int)).last(),
        decreases p.len() - i,
    {
        proof {
            lemma_pieces_extend(p, i as int);
        }
        let ghost q = pieces(p.take(i as int));
        let b = path[i];
        if b == 0x2fu8 {
            let ghost old_done = done@;
            let piece = cur;
            cur = Vec::new();
            let elided = piece.len() == 0 || (piece.len() == 1 && piece[0] == 0x2eu8);
            proof {
                assert(elided == is_elided(piece@)) by {
                    if piece@.len() == 1 && piece@[0] == 0x2eu8 {
                        assert(piece@ =~= dot());
                    }
                }
                assert(q.drop_last().push(q.last()) =~= q);
                lemma_kept_push(q.drop_last(), q.last());
                assert(pieces(p.take(i + 1)).drop_last() =~= q);
            }
            if !elided {
                done.push(piece);
                assert(byte_views(done@) =~= byte_views(old_done).push(piece@));
            }
        } else {
            cur.push(b);
            proof {
                assert(pieces(p.take(i + 1)).drop_last() =~= q.drop_last());
            }
        }
        i = i + 1;
    }
    proof {
        let q = pieces(p.take(i as int));
        assert(p.take(i as int) =~= p);
        assert(q.drop_last().push(q.last()) =~= q);
        lemma_kept_push(q.drop_last(), q.last());
    }
    let elided = cur.len() == 0 || (cur.len() == 1 && cur[0] == 0x2eu8);
    proof {
        if cur@.len() == 1 && cur@[0] == 0x2eu8 {
            assert(cur@ =~= dot());
        }
    }
    if !elided {
        let ghost old_done = done@;
        done.push(cur);
        assert(byte_views(done@) =~= byte_views(old_done).push(
            pieces(path@).last(),
        ));
    }
    done
}

/// Accepts exactly the stable mouse paths.
pub fn validate_stable_path(path: &[u8]) -> (r: Result<(), Error>)
    ensures
        is_stable_mouse_path(path@) ==> r is Ok,
        !is_stable_mouse_path(path@) ==> (r matches Err(e) && e.is_message(unstable_path_text())),
{
    if stable_path(path) {
        Ok(())
    } else {
        Err(message("configured mouse path must be an absolute /dev/input/by-id/*-event-mouse path"))
    }
}

/// Whether `path` is a stable mouse path.
pub fn stable_path(path: &[u8]) -> (r: bool)
    ensures
        r == is_stable_mouse_path(path@),
{
    if path.len() == 0 || path[0] != 0x2fu8 {
        return false;
    }
    let c = path_components(path);
    if c.len() != 4 {
        return false;
    }
    let dev = vec![0x64u8, 0x65, 0x76];
    let input = vec![0x69u8, 0x6e, 0x70, 0x75, 0x74];
    let by_id = vec![0x62u8, 0x79, 0x2d, 0x69, 0x64];
    let suffix = vec![0x2du8, 0x65, 0x76, 0x65, 0x6e, 0x74, 0x2d, 0x6d, 0x6f, 0x75, 0x73, 0x65];
    assert(dev@ == dev_name());
    assert(input@ == input_name());
    assert(by_id@ == by_id_name());
    assert(suffix@ == event_mouse_suffix());
    assert(byte_views(c@)[0] == c@[0]@);
    assert(byte_views(c@)[1] == c@[1]@);
    assert(byte_views(c@)[2] == c@[2]@);
    assert(byte_views(c@)[3] == c@[3]@);
    crate::text::bytes_equal(c[0].as_slice(), dev.as_slice()) && crate::text::bytes_equal(
        c[1].as_slice(),
        input.as_slice(),
    ) && crate::text::bytes_equal(c[2].as_slice(), by_id.as_slice()) && bytes_end_with(
        c[3].as_slice(),
        suffix.as_slice(),
    )
}

pub open spec fn nul_text() -> Seq<char> {
    "device configuration contains a NUL byte"@
}

pub open spec fn not_utf8_text() -> Seq<char> {
    "device configuration is not UTF-8"@
}

pub open spec fn shape_text() -> Seq<char> {
    "device configuration must contain exactly one nonempty path and a final newline"@
}

pub open spec fn newline() -> u8 {
    0x0a
}

/// What the contents of a device configuration file mean: one stable mouse
/// path on a line of its own, or the reason the file is refused.
pub open spec fn device_config_outcome(b: Seq<u8>) -> Result<Seq<u8>, Seq<char>> {
    if b.contains(0u8) {
        Err(nul_text())
    } else if !valid_utf8(b) {
        Err(not_utf8_text())
    } else if !(b.len() > 0 && b.last() == newline() && count_of(b, newline()) == 1 && !all_white(
        decode_utf8(b),
    )) {
        Err(shape_text())
    } else if is_stable_mouse_path(b.drop_last()) {
        Ok(b.drop_last())
    } else {
        Err(unstable_path_text())
    }
}

/// Reads the contents of a device configuration file.
pub fn parse_device_config(bytes: &[u8]) -> (r: Result<Vec<u8>, Error>)
    ensures
        match device_config_outcome(bytes@) {
            Ok(p) => (r matches Ok(q) && q@ == p),
            Err(text) => (r matches Err(e) && e.is_message(text)),
        },
{
    if contains_byte(bytes, 0u8) {
        return Err(message("device configuration contains a NUL byte"));
    }
    let text = match utf8_text(bytes) {
        Some(t) => t,
        None => {
            return Err(message("device configuration is not UTF-8"));
        },
    };
    let n = bytes.len();
    if !(n > 0 && bytes[n - 1] == 0x0au8 && count_byte(bytes, 0x0au8) == 1 && !str_all_white(
        text,
    )) {
        return Err(
            message(
                "device configuration must contain exactly one nonempty path and a final newline",
            ),
        );
    }
    let mut selected: Vec<u8> = Vec::new();
    let mut i: usize = 0;
    while i < n - 1
        invariant
            n == bytes@.len(),
            n > 0,
            i <= n - 1,
            selected@ == bytes@.take(i as int),
        decreases n - 1 - i,
    {
        selected.push(bytes[i]);
        i = i + 1;
        assert(bytes@.take(i as int) =~= bytes@.take(i - 1).push(bytes@[i - 1]));
    }
    assert(selected@ =~= bytes@.drop_last());
    match validate_stable_path(selected.as_slice()) {
        Ok(()) => Ok(selected),
        Err(e) => Err(e),
    }
}

/// The exact contents written for the selected path: its display form and a
/// final newline.
pub open spec fn device_config_bytes(path: Seq<u8>) -> Seq<u8> {
    encode_utf8(lossy_text(path)) + seq![newline()]
}

pub fn device_config_text(path: &[u8]) -> (b: Vec<u8>)
    ensures
        b@ == device_config_bytes(path@),
        valid_utf8(path@) ==> b@ == path@ + seq![newline()],
{
    let shown = display_bytes(path);
    let encoded = shown.as_str().as_bytes();
    let mut out: Vec<u8> = Vec::new();
    append_bytes(&mut out, encoded);
    out.push(0x0au8);
    proof {
        if valid_utf8(path@) {
            vstd::utf8::decode_utf8_encode_utf8(path@);
        }
    }
    out
}

/// Writing a selection and reading it back gives the same path, for every
/// stable mouse path that is valid UTF-8 and holds no NUL byte or newline:
/// for such a path `device_config_text` writes the path and a newline, and
/// those bytes read back as the path.
pub proof fn lemma_device_config_roundtrip(path: Seq<u8>)
    requires
        is_stable_mouse_path(path),
        valid_utf8(path),
        !path.contains(0u8),
        !path.contains(newline()),
    ensures
        device_config_outcome(path + seq![newline()]) == Ok::<Seq<u8>, Seq<char>>(path),
{
    let b = path + seq![newline()];
    assert(!b.contains(0u8)) by {
        if b.contains(0u8) {
            let i = choose|i: int| 0 <= i < b.len() && b[i] == 0u8;
            assert(path[i] == 0u8);
        }
    }
    let nl = seq![newline()];
    assert(valid_utf8(nl)) by {
        assert(nl.subrange(1, 1) =~= Seq::<u8>::empty());
        reveal_with_fuel(valid_utf8, 2);
    }
    vstd::utf8::valid_utf8_concat(path, nl);
    assert(b.drop_last() =~= path);
    lemma_count_absent(path, newline());
    assert(count_of(b, newline()) == 1);
    lemma_first_char_is_slash(b);
}

proof fn lemma_count_absent(s: Seq<u8>, x: u8)
    requires
        !s.contains(x),
    ensures
        count_of(s, x) == 0,
    decreases s.len(),
{
    if s.len() > 0 {
        assert(!s.drop_last().contains(x)) by {
            if s.drop_last().contains(x) {
                let i = choose|i: int| 0 <= i < s.drop_last().len() && s.drop_last()[i] == x;
                assert(s[i] == x);
            }
        }
        lemma_count_absent(s.drop_last(), x);
        assert(s.last() == s[s.len() - 1]);
    }
}

proof fn lemma_first_char_is_slash(b: Seq<u8>)
    requires
        valid_utf8(b),
        b.len() > 0,
        b[0] == slash(),
    ensures
        !all_white(decode_utf8(b)),
{
    let c = vstd::utf8::decode_first_scalar(b);
    assert(c == 0x2f) by {
        assert((0x2fu8 & 0x7fu8) as u32 == 0x2fu32) by (bit_vector);
    }
    assert(decode_utf8(b)[0] == (c as char));
    assert(!crate::text::is_white_space(decode_utf8(b)[0]));
}

/// What `symlink_metadata` reports about a file-system entry, as far as the
/// ownership rules need it.
pub struct EntryFacts {
    pub is_symlink: bool,
    pub is_dir: bool,
    pub is_file: bool,
    pub owner: u32,
}

/// A directory EC may keep private files in: a real directory, not a
/// symbolic link, owned by the effective user.
pub fn owned_directory(facts: &EntryFacts, euid: u32) -> (r: bool)
    ensures
        r == (!facts.is_symlink && facts.is_dir && facts.owner == euid),
{
    !facts.is_symlink && facts.is_dir && facts.owner == euid
}

/// A file EC may read or replace: a regular file, not a symbolic link,
/// owned by the effective user.
pub fn owned_regular_file(facts: &EntryFacts, euid: u32) -> (r: bool)
    ensures
        r == (!facts.is_symlink && facts.is_file && facts.owner == euid),
{
    !facts.is_symlink && facts.is_file && facts.owner == euid
}

} // verus!
