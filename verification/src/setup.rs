//! One-time setup: the udev rule EC installs, the commands that apply it,
//! and choosing and saving the physical mouse.
use crate::config::{is_stable_mouse_path, stable_path, EntryFacts};
use crate::input::Candidate;
use crate::text::{
    char_codes, decimal_chars, decimal_string, display_bytes, lossy_text, parse_u64_str,
    parsed_unsigned, value_of,
};
use crate::{message, Error};
use vstd::prelude::*;

verus! {

/// The udev rule EC installs: the active session may use uinput and the
/// event nodes of mice, and nothing else.
pub const RULES: &'static str = "# EC: access for the active local session to uinput and physical mice.
KERNEL==\"uinput\", SUBSYSTEM==\"misc\", OPTIONS+=\"static_node=uinput\", TAG+=\"uaccess\"
SUBSYSTEM==\"input\", KERNEL==\"event*\", ENV{ID_INPUT_MOUSE}==\"1\", ENV{ID_INPUT_TOUCHPAD}!=\"1\", TAG+=\"uaccess\"
";

/// Where the rule is installed.
pub const RULE_PATH: &'static str = "/etc/udev/rules.d/70-ec.rules";

/// The `udevadm` argument lists that apply the rule, in order.
pub open spec fn udevadm_steps() -> Seq<Seq<Seq<char>>> {
    seq![
        seq!["control"@, "--reload-rules"@],
        seq!["trigger"@, "--subsystem-match=misc"@, "--sysname-match=uinput"@],
        seq!["trigger"@, "--subsystem-match=input"@],
        seq!["settle"@],
    ]
}

pub open spec fn arg_views(v: Seq<&'static str>) -> Seq<Seq<char>> {
    v.map_values(|a: &'static str| a@)
}

pub open spec fn step_views(v: Seq<Vec<&'static str>>) -> Seq<Seq<Seq<char>>> {
    v.map_values(|s: Vec<&'static str>| arg_views(s@))
}

/// The `udevadm` commands run after installing the rule; the first that
/// fails stops setup.
pub fn udevadm_commands() -> (r: Vec<Vec<&'static str>>)
    ensures
        step_views(r@) == udevadm_steps(),
{
    let a = vec!["control", "--reload-rules"];
    let b = vec!["trigger", "--subsystem-match=misc", "--sysname-match=uinput"];
    let c = vec!["trigger", "--subsystem-match=input"];
    let d = vec!["settle"];
    assert(arg_views(a@) =~= seq!["control"@, "--reload-rules"@]);
    assert(arg_views(b@) =~= seq![
        "trigger"@,
        "--subsystem-match=misc"@,
        "--sysname-match=uinput"@,
    ]);
    assert(arg_views(c@) =~= seq!["trigger"@, "--subsystem-match=input"@]);
    assert(arg_views(d@) =~= seq!["settle"@]);
    let r = vec![a, b, c, d];
    assert(step_views(r@) =~= udevadm_steps());
    r
}

/// Characters that need no quoting in a shell word.
pub open spec fn is_plain(c: char) -> bool {
    ||| 'a' <= c <= 'z'
    ||| 'A' <= c <= 'Z'
    ||| '0' <= c <= '9'
    ||| c == '/'
    ||| c == '.'
    ||| c == '_'
    ||| c == '-'
}

/// `s` with each single quote written as `'\''`.
pub open spec fn quote_body(s: Seq<char>) -> Seq<char>
    decreases s.len(),
{
    if s.len() == 0 {
        Seq::empty()
    } else {
        quote_body(s.drop_last()) + if s.last() == '\'' {
            "'\\''"@
        } else {
            seq![s.last()]
        }
    }
}

/// `s` as one shell word: unchanged when every character is plain,
/// otherwise in single quotes.
pub open spec fn shell_word(s: Seq<char>) -> Seq<char> {
    if forall|i: int| 0 <= i < s.len() ==> is_plain(#[trigger] s[i]) {
        s
    } else {
        "'"@ + quote_body(s) + "'"@
    }
}

fn plain(c: char) -> (r: bool)
    ensures
        r == is_plain(c),
{
    ('a' <= c && c <= 'z') || ('A' <= c && c <= 'Z') || ('0' <= c && c <= '9') || c == '/' || c
        == '.' || c == '_' || c == '-'
}

proof fn lemma_quote_body_extend(s: Seq<char>, i: int)
    requires
        0 <= i < s.len(),
    ensures
        quote_body(s.take(i + 1)) == quote_body(s.take(i)) + if s[i] == '\'' {
            "'\\''"@
        } else {
            seq![s[i]]
        },
{
    assert(s.take(i + 1).drop_last() =~= s.take(i));
}

/// Quotes `value` for a shell command line shown to the user.
pub fn shell_quote(value: &str) -> (s: String)
    ensures
        s@ == shell_word(value@),
{
    let n = value.unicode_len();
    let mut i: usize = 0;
    let mut all_plain = true;
    while i < n
        invariant
            n == value@.len(),
            i <= n,
            all_plain == forall|j: int| 0 <= j < i ==> is_plain(#[trigger] value@[j]),
        decreases n - i,
    {
        if !plain(value.get_char(i)) {
            all_plain = false;
        }
        i = i + 1;
    }
    if all_plain {
        return String::from_str(value);
    }
    let mut out = String::from_str("'");
    let mut run_start: usize = 0;
    let mut k: usize = 0;
    assert(value@.take(0) =~= Seq::<char>::empty());
    while k < n
        invariant
            n == value@.len(),
            run_start <= k <= n,
            out@ == "'"@ + quote_body(value@.take(run_start as int)),
            forall|j: int| run_start <= j < k ==> value@[j] != '\'',
        decreases n - k,
    {
        proof {
            lemma_quote_body_extend(value@, k as int);
        }
        if value.get_char(k) == '\'' {
            let run = value.substring_char(run_start, k);
            let ghost before = out@;
            out.append(run);
            out.append("'\\''");
            proof {
                lemma_quote_body_run(value@, run_start as int, k as int);
                assert(out@ =~= "'"@ + quote_body(value@.take(k + 1)));
            }
            run_start = k + 1;
        }
        k = k + 1;
    }
    let run = value.substring_char(run_start, n);
    out.append(run);
    out.append("'");
    proof {
        lemma_quote_body_run(value@, run_start as int, n as int);
        assert(value@.take(n as int) =~= value@);
        assert(out@ =~= "'"@ + quote_body(value@) + "'"@);
    }
    out
}

/// Over a stretch without single quotes, quoting copies the characters.
proof fn lemma_quote_body_run(s: Seq<char>, a: int, b: int)
    requires
        0 <= a <= b <= s.len(),
        forall|j: int| a <= j < b ==> s[j] != '\'',
    ensures
        quote_body(s.take(b)) == quote_body(s.take(a)) + s.subrange(a, b),
    decreases b - a,
{
    if a == b {
        assert(s.subrange(a, b) =~= Seq::<char>::empty());
    } else {
        lemma_quote_body_run(s, a, b - 1);
        lemma_quote_body_extend(s, b - 1);
        assert(s.subrange(a, b) =~= s.subrange(a, b - 1).push(s[b - 1]));
    }
}

/// How a POSIX shell reads a word made of plain characters, single-quoted
/// stretches and backslash escapes: the characters it stands for. `quoted`
/// says whether reading starts inside single quotes.
pub open spec fn shell_read(w: Seq<char>, quoted: bool) -> Seq<char>
    decreases w.len(),
{
    if w.len() == 0 {
        Seq::empty()
    } else if quoted {
        if w[0] == '\'' {
            shell_read(w.drop_first(), false)
        } else {
            seq![w[0]] + shell_read(w.drop_first(), true)
        }
    } else if w[0] == '\'' {
        shell_read(w.drop_first(), true)
    } else if w[0] == '\\' && w.len() >= 2 {
        seq![w[1]] + shell_read(w.subrange(2, w.len() as int), false)
    } else {
        seq![w[0]] + shell_read(w.drop_first(), false)
    }
}

proof fn lemma_read_plain(s: Seq<char>)
    requires
        forall|i: int| 0 <= i < s.len() ==> is_plain(#[trigger] s[i]),
    ensures
        shell_read(s, false) == s,
    decreases s.len(),
{
    if s.len() > 0 {
        assert(is_plain(s[0]));
        let t = s.drop_first();
        assert forall|i: int| 0 <= i < t.len() implies is_plain(#[trigger] t[i]) by {
            assert(t[i] == s[i + 1]);
        }
        lemma_read_plain(t);
        assert(seq![s[0]] + t =~= s);
    }
}

proof fn lemma_read_quoted_body(s: Seq<char>, rest: Seq<char>)
    ensures
        shell_read(quote_body(s) + rest, true) == s + shell_read(rest, true),
    decreases s.len(),
{
    if s.len() == 0 {
        assert(quote_body(s) + rest =~= rest);
        assert(s + shell_read(rest, true) =~= shell_read(rest, true));
    } else {
        let c = s.last();
        let piece = if c == '\'' {
            "'\\''"@
        } else {
            seq![c]
        };
        lemma_read_quoted_body(s.drop_last(), piece + rest);
        assert(quote_body(s) + rest =~= quote_body(s.drop_last()) + (piece + rest));
        if c == '\'' {
            reveal_strlit("'\\''");
            assert(piece =~= seq!['\'', '\\', '\'', '\'']);
            let w0 = piece + rest;
            assert(w0[0] == '\'');
            let w1 = seq!['\\', '\'', '\''] + rest;
            assert(w0.drop_first() =~= w1);
            assert(shell_read(w0, true) == shell_read(w1, false));
            assert(w1[0] == '\\' && w1[1] == '\'');
            let w2 = seq!['\''] + rest;
            assert(w1.subrange(2, w1.len() as int) =~= w2);
            assert(shell_read(w1, false) == seq!['\''] + shell_read(w2, false));
            assert(w2[0] == '\'');
            assert(w2.drop_first() =~= rest);
            assert(shell_read(w2, false) == shell_read(rest, true));
            assert(shell_read(piece + rest, true) == seq!['\''] + shell_read(rest, true));
        } else {
            let w0 = seq![c] + rest;
            assert(w0.drop_first() =~= rest);
            assert(shell_read(piece + rest, true) == seq![c] + shell_read(rest, true));
        }
        assert(s.drop_last() + (seq![c] + shell_read(rest, true)) =~= s + shell_read(rest, true));
    }
}

/// Quoting is safe: a shell reads the quoted word back as exactly the
/// original text.
pub proof fn lemma_shell_word_reads_back(s: Seq<char>)
    ensures
        shell_read(shell_word(s), false) == s,
{
    if forall|i: int| 0 <= i < s.len() ==> is_plain(#[trigger] s[i]) {
        lemma_read_plain(s);
    } else {
        reveal_strlit("'");
        let w = "'"@ + quote_body(s) + "'"@;
        assert(w[0] == '\'');
        assert(w.drop_first() =~= quote_body(s) + seq!['\'']);
        lemma_read_quoted_body(s, seq!['\'']);
        let q = seq!['\''];
        assert(q.drop_first() =~= Seq::<char>::empty());
        assert(shell_read(q, true) == shell_read(Seq::<char>::empty(), false));
        assert(s + Seq::<char>::empty() =~= s);
    }
}

pub open spec fn cancelled_text() -> Seq<char> {
    "Mouse selection cancelled; no configuration was changed."@
}

pub open spec fn invalid_selection_text() -> Seq<char> {
    "Invalid selection; no configuration was changed."@
}

/// The answer typed at the selection prompt: the line without its final
/// newline and, before that, a carriage return.
pub open spec fn answer_of(line: Seq<char>) -> Seq<char> {
    if line.len() > 0 && line.last() == '\n' {
        let v = line.drop_last();
        if v.len() > 0 && v.last() == '\r' {
            v.drop_last()
        } else {
            v
        }
    } else {
        line
    }
}

/// What an answer to "Select a mouse number" means among `count` mice: the
/// index of the chosen mouse, or why nothing is chosen.
pub open spec fn selection_of(line: Seq<char>, count: int) -> Result<int, Seq<char>> {
    let answer = answer_of(line);
    if answer.len() == 0 {
        Err(cancelled_text())
    } else {
        match parsed_unsigned(char_codes(answer), usize::MAX as int) {
            Some(n) => if 1 <= n <= count {
                Ok(n - 1)
            } else {
                Err(invalid_selection_text())
            },
            None => Err(invalid_selection_text()),
        }
    }
}

/// Reads the answer to the selection prompt.
pub fn parse_selection(line: &str, count: usize) -> (r: Result<usize, Error>)
    ensures
        match selection_of(line@, count as int) {
            Ok(i) => r matches Ok(j) && j == i,
            Err(text) => (r matches Err(e) && e.is_message(text)),
        },
{
    let n = line.unicode_len();
    let mut end = n;
    if end > 0 && line.get_char(end - 1) == '\n' {
        end = end - 1;
        if end > 0 && line.get_char(end - 1) == '\r' {
            end = end - 1;
        }
    }
    let answer = line.substring_char(0, end);
    assert(answer@ =~= answer_of(line@));
    if end == 0 {
        return Err(message("Mouse selection cancelled; no configuration was changed."));
    }
    let number = match parse_u64_str(answer) {
        Some(v) if v <= usize::MAX as u64 => v as usize,
        parsed => {
            proof {
                if parsed is Some {
                    assert(value_of(parsed) == parsed_unsigned(char_codes(answer@), u64::MAX as int));
                }
            }
            return Err(message("Invalid selection; no configuration was changed."));
        },
    };
    if number == 0 || number > count {
        return Err(message("Invalid selection; no configuration was changed."));
    }
    Ok(number - 1)
}

/// Answering the selection prompt with the number a mouse is listed under
/// selects that mouse.
pub proof fn lemma_numbered_answer(k: nat, count: int)
    requires
        1 <= k <= count,
        k <= usize::MAX,
    ensures
        selection_of(crate::text::decimal_chars(k) + "\n"@, count) == Ok::<int, Seq<char>>(k - 1),
{
    let digits = crate::text::decimal_chars(k);
    crate::text::lemma_decimal_chars_roundtrip(k, usize::MAX as int);
    reveal_strlit("\n");
    let line = digits + "\n"@;
    assert(line.drop_last() =~= digits);
    assert(digits.last() == digits[digits.len() - 1]);
    assert(crate::text::is_digit_code(digits[0] as int));
    assert(answer_of(line) == digits) by {
        assert(crate::text::all_digits(char_codes(digits)));
        assert(char_codes(digits)[digits.len() - 1] == digits.last() as int);
    }
}

/// The mice offered by setup: strong candidates with a stable path.
pub open spec fn setup_offer(c: Seq<Candidate>) -> Seq<Candidate>
    decreases c.len(),
{
    if c.len() == 0 {
        Seq::empty()
    } else {
        let rest = setup_offer(c.drop_last());
        if c.last().strong && is_stable_mouse_path(c.last().path@) {
            rest.push(c.last())
        } else {
            rest
        }
    }
}

/// Keeps the strong candidates whose path is stable, in order.
pub fn setup_candidates(candidates: Vec<Candidate>) -> (r: Vec<Candidate>)
    ensures
        r@ == setup_offer(candidates@),
{
    let ghost all = candidates@;
    let mut rest = candidates;
    let mut kept: Vec<Candidate> = Vec::new();
    while rest.len() > 0
        invariant
            setup_offer(all) == setup_offer(rest@) + kept@,
        decreases rest@.len(),
    {
        let ghost before = rest@;
        let ghost k = kept@;
        let c = rest.pop().unwrap();
        assert(rest@ =~= before.drop_last());
        assert(c == before.last());
        if c.strong && stable_path(c.path.as_slice()) {
            kept.insert(0, c);
            assert(kept@ =~= seq![c] + k);
            assert(setup_offer(before) == setup_offer(rest@).push(c));
            assert(setup_offer(rest@).push(c) + k =~= setup_offer(rest@) + kept@);
        } else {
            assert(setup_offer(before) == setup_offer(rest@));
        }
    }
    assert(setup_offer(rest@) =~= Seq::<Candidate>::empty());
    kept
}

pub open spec fn access_text(exe: Seq<char>) -> Seq<char> {
    "EC needs one-time system device access.\n\nRun:\n  sudo "@ + shell_word(exe)
        + " setup\n\nThen run:\n  ec setup"@
}

/// The message telling a user without uinput access what to run as root.
pub fn access_message(exe: &str) -> (s: String)
    ensures
        s@ == access_text(exe@),
{
    let mut s = String::from_str("EC needs one-time system device access.\n\nRun:\n  sudo ");
    let quoted = shell_quote(exe);
    s.append(quoted.as_str());
    s.append(" setup\n\nThen run:\n  ec setup");
    s
}

/// One entry of the setup menu: its number, the mouse's name and, below,
/// its path.
pub open spec fn menu_entry(number: nat, c: Candidate) -> Seq<char> {
    "  "@ + decimal_chars(number) + ". "@ + c.name@ + "\n     "@ + lossy_text(c.path@) + "\n"@
}

/// The entries for `c`, numbered from `first`.
pub open spec fn menu_entries(c: Seq<Candidate>, first: nat) -> Seq<char>
    decreases c.len(),
{
    if c.len() == 0 {
        Seq::empty()
    } else {
        menu_entries(c.drop_last(), first) + menu_entry((first + c.len() - 1) as nat, c.last())
    }
}

/// The menu setup prints when several mice could be chosen.
pub open spec fn menu_text(c: Seq<Candidate>) -> Seq<char> {
    "Compatible mice:\n"@ + menu_entries(c, 1)
}

/// Whether `text` is `before`, then `part`, then `after`.
pub open spec fn is_split(text: Seq<char>, before: Seq<char>, part: Seq<char>, after: Seq<char>) -> bool {
    text == before + part + after
}

proof fn lemma_menu_entries_concat(a: Seq<Candidate>, b: Seq<Candidate>, first: nat)
    ensures
        menu_entries(a + b, first) == menu_entries(a, first) + menu_entries(
            b,
            first + a.len(),
        ),
    decreases b.len(),
{
    if b.len() == 0 {
        assert(a + b =~= a);
        assert(menu_entries(a, first) + menu_entries(b, first + a.len()) =~= menu_entries(
            a,
            first,
        ));
    } else {
        lemma_menu_entries_concat(a, b.drop_last(), first);
        assert((a + b).drop_last() =~= a + b.drop_last());
        assert((a + b).last() == b.last());
        assert(menu_entries(a + b, first) =~= menu_entries(a, first) + menu_entries(
            b,
            first + a.len(),
        ));
    }
}

/// The number shown before each mouse in the setup menu is the answer that
/// selects it: the mouse at index `i` is listed as "  `i + 1`. name" with
/// its path below, and answering that number picks index `i`.
pub proof fn lemma_menu_numbers_select(c: Seq<Candidate>, i: int)
    requires
        0 <= i < c.len(),
        c.len() <= usize::MAX,
    ensures
        exists|before: Seq<char>, after: Seq<char>|
            #[trigger] is_split(
                menu_text(c),
                before,
                "  "@ + decimal_chars((i + 1) as nat) + ". "@ + c[i].name@ + "\n     "@
                    + lossy_text(c[i].path@) + "\n"@,
                after,
            ),
        selection_of(decimal_chars((i + 1) as nat) + "\n"@, c.len() as int) == Ok::<
            int,
            Seq<char>,
        >(i),
{
    let a = c.take(i);
    let x = seq![c[i]];
    let b = c.skip(i + 1);
    assert(c =~= a + x + b);
    lemma_menu_entries_concat(a + x, b, 1);
    lemma_menu_entries_concat(a, x, 1);
    assert(x.drop_last() =~= Seq::<Candidate>::empty());
    assert(x.last() == c[i]);
    assert(menu_entries(x.drop_last(), (1 + i) as nat) =~= Seq::<char>::empty());
    assert(menu_entries(x, (1 + i) as nat) =~= menu_entry((1 + i) as nat, c[i]));
    let before = "Compatible mice:\n"@ + menu_entries(a, 1);
    let after = menu_entries(b, (1 + i + 1) as nat);
    let entry = "  "@ + decimal_chars((i + 1) as nat) + ". "@ + c[i].name@ + "\n     "@
        + lossy_text(c[i].path@) + "\n"@;
    assert(menu_text(c) =~= before + entry + after);
    assert(is_split(menu_text(c), before, entry, after));
    lemma_numbered_answer((i + 1) as nat, c.len() as int);
}

pub fn candidate_menu(candidates: &Vec<Candidate>) -> (s: String)
    ensures
        s@ == menu_text(candidates@),
{
    let mut out = String::from_str("Compatible mice:\n");
    let mut i: usize = 0;
    while i < candidates.len()
        invariant
            i <= candidates@.len(),
            out@ == "Compatible mice:\n"@ + menu_entries(candidates@.take(i as int), 1),
        decreases candidates@.len() - i,
    {
        let ghost before = out@;
        out.append("  ");
        let number = decimal_string((i as u64) + 1);
        out.append(number.as_str());
        out.append(". ");
        out.append(candidates[i].name.as_str());
        out.append("\n     ");
        let shown = display_bytes(candidates[i].path.as_slice());
        out.append(shown.as_str());
        out.append("\n");
        proof {
            let t = candidates@.take(i + 1);
            assert(t.drop_last() =~= candidates@.take(i as int));
            assert(t.last() == candidates@[i as int]);
            assert(out@ =~= before + menu_entry((i + 1) as nat, candidates@[i as int]));
        }
        i = i + 1;
    }
    assert(candidates@.take(i as int) =~= candidates@);
    out
}

/// Words separated by single spaces, as `join(" ")` writes them.
pub open spec fn spaced(items: Seq<Seq<char>>) -> Seq<char>
    decreases items.len(),
{
    if items.len() == 0 {
        Seq::empty()
    } else if items.len() == 1 {
        items[0]
    } else {
        spaced(items.drop_last()) + " "@ + items.last()
    }
}

/// How a `udevadm` command is named in messages.
pub open spec fn udevadm_text(args: Seq<Seq<char>>) -> Seq<char> {
    "udevadm "@ + spaced(args)
}

/// The command line of a `udevadm` command, as messages name it.
pub fn udevadm_line(args: &Vec<&'static str>) -> (s: String)
    ensures
        s@ == udevadm_text(arg_views(args@)),
{
    let mut out = String::from_str("udevadm ");
    let ghost head = out@;
    let mut i: usize = 0;
    while i < args.len()
        invariant
            i <= args@.len(),
            head == "udevadm "@,
            out@ == head + spaced(arg_views(args@.take(i as int))),
        decreases args@.len() - i,
    {
        let ghost before = arg_views(args@.take(i as int));
        if i > 0 {
            out.append(" ");
        }
        out.append(args[i]);
        proof {
            let after = arg_views(args@.take(i + 1));
            assert(after.drop_last() =~= before);
            assert(after.last() == args@[i as int]@);
            if i == 0 {
                assert(after.len() == 1);
                assert(out@ =~= head + after[0]);
            } else {
                assert(out@ =~= head + (spaced(before) + " "@ + after.last()));
            }
        }
        i = i + 1;
    }
    assert(args@.take(i as int) =~= args@);
    out
}

/// Setup goes on after a `udevadm` command only when it succeeded; the
/// first command that fails ends setup with this error.
pub fn udevadm_outcome(args: &Vec<&'static str>, succeeded: bool) -> (r: Result<(), Error>)
    ensures
        succeeded ==> r is Ok,
        !succeeded ==> (r matches Err(e) && e.is_message(
            udevadm_text(arg_views(args@)) + " failed"@,
        )),
{
    if succeeded {
        Ok(())
    } else {
        let mut text = udevadm_line(args);
        text.append(" failed");
        Err(Error::Message(text))
    }
}

/// A path the rule may be installed over: a regular file, not a symbolic
/// link.
pub open spec fn is_safe_rule_target(facts: EntryFacts) -> bool {
    !facts.is_symlink && facts.is_file
}

pub open spec fn unsafe_rule_target_text(target: Seq<u8>) -> Seq<char> {
    "refusing unsafe udev rule target "@ + lossy_text(target)
}

/// Checks what already stands at the rule's path before it is replaced.
pub fn check_rule_target(target: &[u8], facts: &EntryFacts) -> (r: Result<(), Error>)
    ensures
        is_safe_rule_target(*facts) ==> r is Ok,
        !is_safe_rule_target(*facts) ==> (r matches Err(e) && e.is_message(
            unsafe_rule_target_text(target@),
        )),
{
    if !facts.is_symlink && facts.is_file {
        Ok(())
    } else {
        let mut text = String::from_str("refusing unsafe udev rule target ");
        let shown = display_bytes(target);
        text.append(shown.as_str());
        Err(Error::Message(text))
    }
}

/// Whether the file at the rule's path already holds exactly the rule, so
/// that only its mode needs setting.
pub fn rule_is_current(existing: &[u8]) -> (r: bool)
    ensures
        r == (existing@ == vstd::utf8::encode_utf8(RULES@)),
{
    crate::text::bytes_equal(existing, RULES.as_bytes())
}

/// What the user's setup has learned so far.
#[derive(Debug, PartialEq, Eq)]
pub enum SetupEvent {
    /// Whether uinput can be opened for reading and writing.
    Access(bool),
    /// Whether a mouse is configured and still usable.
    Configured(bool),
    /// How many mice setup offers, and whether it can ask on a terminal.
    Offered { count: usize, interactive: bool },
}

/// What the user's setup does next.
#[derive(Debug, PartialEq, Eq)]
pub enum SetupStep {
    /// Tell the user how to grant system access, and stop.
    NeedAccess,
    /// Read the configured mouse.
    ReadConfig,
    /// Keep the configured mouse.
    KeepConfigured,
    /// Look for the mice that could be chosen.
    Discover,
    /// Take the only mouse offered, without asking.
    TakeOnly,
    /// Show the menu and ask which mouse to take.
    Ask,
    /// Stop with this message, after showing the menu when `show_menu`.
    Refuse { show_menu: bool, message: String },
}

pub open spec fn no_mouse_text() -> Seq<char> {
    "No readable compatible mouse with a stable /dev/input/by-id/*-event-mouse path was found."@
}

pub open spec fn no_terminal_text() -> Seq<char> {
    "Interactive selection is required; no configuration was changed."@
}

/// The steps of the user's setup: system access first, then a configured
/// mouse that is still usable, else the mice offered: none is an error,
/// one is taken without asking, and from several the user picks on a
/// terminal, which is required.
pub fn setup_next(event: SetupEvent) -> (step: SetupStep)
    ensures
        match event {
            SetupEvent::Access(ok) => if ok {
                step is ReadConfig
            } else {
                step is NeedAccess
            },
            SetupEvent::Configured(usable) => if usable {
                step is KeepConfigured
            } else {
                step is Discover
            },
            SetupEvent::Offered { count, interactive } => if count == 0 {
                step matches SetupStep::Refuse { show_menu, message } && !show_menu && message@
                    == no_mouse_text()
            } else if count == 1 {
                step is TakeOnly
            } else if !interactive {
                step matches SetupStep::Refuse { show_menu, message } && show_menu && message@
                    == no_terminal_text()
            } else {
                step is Ask
            },
        },
{
    match event {
        SetupEvent::Access(ok) => if ok {
            SetupStep::ReadConfig
        } else {
            SetupStep::NeedAccess
        },
        SetupEvent::Configured(usable) => if usable {
            SetupStep::KeepConfigured
        } else {
            SetupStep::Discover
        },
        SetupEvent::Offered { count, interactive } => if count == 0 {
            SetupStep::Refuse {
                show_menu: false,
                message: String::from_str(
                    "No readable compatible mouse with a stable /dev/input/by-id/*-event-mouse path was found.",
                ),
            }
        } else if count == 1 {
            SetupStep::TakeOnly
        } else if !interactive {
            SetupStep::Refuse {
                show_menu: true,
                message: String::from_str(
                    "Interactive selection is required; no configuration was changed.",
                ),
            }
        } else {
            SetupStep::Ask
        },
    }
}

/// What setup reports about the mouse it keeps or saves.
pub open spec fn selection_text(c: Candidate) -> Seq<char> {
    "Selected mouse     "@ + c.name@ + "\nDevice path        "@ + lossy_text(c.path@)
}

pub fn selection_report(c: &Candidate) -> (s: String)
    ensures
        s@ == selection_text(*c),
{
    let mut s = String::from_str("Selected mouse     ");
    s.append(c.name.as_str());
    s.append("\nDevice path        ");
    let shown = display_bytes(c.path.as_slice());
    s.append(shown.as_str());
    s
}

} // verus!
