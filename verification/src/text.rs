//! Decimal numbers in text, as Rust's unsigned `from_str` reads them and as
//! `Display` writes them, and a few byte-sequence predicates.
use vstd::prelude::*;
use vstd::utf8::{decode_utf8, valid_utf8};

verus! {

/// The code of each byte.
pub open spec fn byte_codes(s: Seq<u8>) -> Seq<int> {
    s.map_values(|b: u8| b as int)
}

/// The code point of each character.
pub open spec fn char_codes(s: Seq<char>) -> Seq<int> {
    s.map_values(|c: char| c as int)
}

pub open spec fn is_digit_code(c: int) -> bool {
    48 <= c <= 57
}

pub open spec fn all_digits(s: Seq<int>) -> bool {
    forall|i: int| 0 <= i < s.len() ==> is_digit_code(#[trigger] s[i])
}

/// The value of a sequence of decimal digits, most significant first.
pub open spec fn digits_value(s: Seq<int>) -> int
    decreases s.len(),
{
    if s.len() == 0 {
        0
    } else {
        digits_value(s.drop_last()) * 10 + (s.last() - 48)
    }
}

/// What an unsigned integer's `from_str` reads, before its range check: an
/// optional `+` followed by one or more decimal digits.
pub open spec fn unsigned_text_value(s: Seq<int>) -> Option<int> {
    let digits = if s.len() > 0 && s[0] == 43 {
        s.drop_first()
    } else {
        s
    };
    if digits.len() > 0 && all_digits(digits) {
        Some(digits_value(digits))
    } else {
        None
    }
}

/// An unsigned integer's `from_str` for a type whose largest value is `max`.
pub open spec fn parsed_unsigned(s: Seq<int>, max: int) -> Option<int> {
    match unsigned_text_value(s) {
        Some(v) => if v <= max {
            Some(v)
        } else {
            None
        },
        None => None,
    }
}

pub open spec fn value_of(r: Option<u64>) -> Option<int> {
    match r {
        Some(v) => Some(v as int),
        None => None,
    }
}

/// `Display` of a natural number: its decimal digits as ASCII bytes.
pub open spec fn decimal_bytes(n: nat) -> Seq<u8>
    decreases n,
{
    if n < 10 {
        seq![(48 + n) as u8]
    } else {
        decimal_bytes(n / 10).push((48 + n % 10) as u8)
    }
}

/// A prefix of a digit sequence is worth no more than the whole.
pub proof fn lemma_prefix_value_le(t: Seq<int>, j: int)
    requires
        all_digits(t),
        0 <= j <= t.len(),
    ensures
        0 <= digits_value(t.take(j)) <= digits_value(t),
    decreases t.len(),
{
    if t.len() == 0 {
        assert(t.take(j) =~= t);
    } else if j == t.len() {
        assert(t.take(j) =~= t);
        lemma_digits_value_nonnegative(t);
    } else {
        let u = t.drop_last();
        assert(all_digits(u)) by {
            assert forall|i: int| 0 <= i < u.len() implies is_digit_code(#[trigger] u[i]) by {
                assert(u[i] == t[i]);
            }
        }
        lemma_prefix_value_le(u, j);
        assert(u.take(j) =~= t.take(j));
        assert(is_digit_code(t[t.len() - 1]));
    }
}

pub proof fn lemma_digits_value_nonnegative(t: Seq<int>)
    requires
        all_digits(t),
    ensures
        digits_value(t) >= 0,
    decreases t.len(),
{
    if t.len() > 0 {
        let u = t.drop_last();
        assert(all_digits(u)) by {
            assert forall|i: int| 0 <= i < u.len() implies is_digit_code(#[trigger] u[i]) by {
                assert(u[i] == t[i]);
            }
        }
        lemma_digits_value_nonnegative(u);
        assert(is_digit_code(t[t.len() - 1]));
    }
}

/// Reading back what `Display` wrote gives the number again.
pub proof fn lemma_decimal_roundtrip(n: nat, max: int)
    requires
        n <= max,
    ensures
        parsed_unsigned(byte_codes(decimal_bytes(n)), max) == Some(n as int),
        all_digits(byte_codes(decimal_bytes(n))),
        decimal_bytes(n).len() > 0,
        is_digit_code(decimal_bytes(n)[0] as int),
{
    lemma_decimal_value(n);
    let s = byte_codes(decimal_bytes(n));
    assert(s[0] == decimal_bytes(n)[0] as int);
}

proof fn lemma_decimal_value(n: nat)
    ensures
        all_digits(byte_codes(decimal_bytes(n))),
        digits_value(byte_codes(decimal_bytes(n))) == n,
        decimal_bytes(n).len() > 0,
        is_digit_code(decimal_bytes(n)[0] as int),
    decreases n,
{
    let s = byte_codes(decimal_bytes(n));
    assert(n == (n / 10) * 10 + n % 10);
    if n < 10 {
        assert(s.drop_last() =~= Seq::<int>::empty());
        assert(s.last() == 48 + n);
        assert(digits_value(s.drop_last()) == 0);
        assert(digits_value(s) == digits_value(s.drop_last()) * 10 + (s.last() - 48));
    } else {
        lemma_decimal_value(n / 10);
        let p = byte_codes(decimal_bytes(n / 10));
        assert(s.drop_last() =~= p);
        assert(s =~= p.push((48 + n % 10) as int));
        assert forall|i: int| 0 <= i < s.len() implies is_digit_code(#[trigger] s[i]) by {
            if i < p.len() {
                assert(s[i] == p[i]);
            }
        }
        assert(decimal_bytes(n)[0] == decimal_bytes(n / 10)[0]);
        assert(s.last() == 48 + n % 10);
        assert(digits_value(s) == digits_value(p) * 10 + (s.last() - 48));
        assert(digits_value(p) == n / 10);
        assert(digits_value(s) == (n / 10) * 10 + n % 10);
    }
}

/// Appends the decimal digits of `n`.
pub fn push_decimal(out: &mut Vec<u8>, n: u64)
    ensures
        final(out)@ == old(out)@ + decimal_bytes(n as nat),
    decreases n,
{
    if n >= 10 {
        push_decimal(out, n / 10);
    }
    let digit: u8 = (48 + n % 10) as u8;
    out.push(digit);
    assert(decimal_bytes(n as nat) == if n < 10 {
        seq![digit]
    } else {
        decimal_bytes((n / 10) as nat).push(digit)
    });
}

/// Reading back what `Display` wrote as text gives the number again.
pub proof fn lemma_decimal_chars_roundtrip(n: nat, max: int)
    requires
        n <= max,
    ensures
        parsed_unsigned(char_codes(decimal_chars(n)), max) == Some(n as int),
        decimal_chars(n).len() > 0,
        is_digit_code(decimal_chars(n)[0] as int),
{
    lemma_decimal_chars_value(n);
    let s = char_codes(decimal_chars(n));
    assert(s[0] == decimal_chars(n)[0] as int);
}

proof fn lemma_decimal_chars_value(n: nat)
    ensures
        all_digits(char_codes(decimal_chars(n))),
        digits_value(char_codes(decimal_chars(n))) == n,
        decimal_chars(n).len() > 0,
        is_digit_code(decimal_chars(n)[0] as int),
    decreases n,
{
    let s = char_codes(decimal_chars(n));
    assert(n == (n / 10) * 10 + n % 10);
    if n < 10 {
        assert(s.drop_last() =~= Seq::<int>::empty());
        assert(s.last() == 48 + n);
        assert(digits_value(s.drop_last()) == 0);
        assert(digits_value(s) == digits_value(s.drop_last()) * 10 + (s.last() - 48));
    } else {
        lemma_decimal_chars_value(n / 10);
        let p = char_codes(decimal_chars(n / 10));
        assert(s.drop_last() =~= p);
        assert(s =~= p.push((48 + n % 10) as int));
        assert forall|i: int| 0 <= i < s.len() implies is_digit_code(#[trigger] s[i]) by {
            if i < p.len() {
                assert(s[i] == p[i]);
            }
        }
        assert(decimal_chars(n)[0] == decimal_chars(n / 10)[0]);
        assert(s.last() == 48 + n % 10);
        assert(digits_value(s) == digits_value(p) * 10 + (s.last() - 48));
        assert(digits_value(p) == n / 10);
        assert(digits_value(s) == (n / 10) * 10 + n % 10);
    }
}

/// The digits of `n` as a string.
pub fn decimal_string(n: u64) -> (s: String)
    ensures
        s@ == decimal_chars(n as nat),
    decreases n,
{
    let mut out = if n >= 10 {
        decimal_string(n / 10)
    } else {
        String::new()
    };
    let digit = digit_str(n % 10);
    out.append(digit);
    out
}

/// `Display` of a natural number as characters.
pub open spec fn decimal_chars(n: nat) -> Seq<char>
    decreases n,
{
    if n < 10 {
        seq![((48 + n) as u32) as char]
    } else {
        decimal_chars(n / 10).push(((48 + n % 10) as u32) as char)
    }
}

fn digit_str(d: u64) -> (s: &'static str)
    requires
        d < 10,
    ensures
        s@ == seq![((48 + d) as u32) as char],
{
    proof {
        reveal_strlit("0");
        reveal_strlit("1");
        reveal_strlit("2");
        reveal_strlit("3");
        reveal_strlit("4");
        reveal_strlit("5");
        reveal_strlit("6");
        reveal_strlit("7");
        reveal_strlit("8");
        reveal_strlit("9");
    }
    if d == 0 {
        "0"
    } else if d == 1 {
        "1"
    } else if d == 2 {
        "2"
    } else if d == 3 {
        "3"
    } else if d == 4 {
        "4"
    } else if d == 5 {
        "5"
    } else if d == 6 {
        "6"
    } else if d == 7 {
        "7"
    } else if d == 8 {
        "8"
    } else {
        "9"
    }
}

/// Parses an unsigned decimal from bytes the way `u64::from_str` does.
pub fn parse_u64_bytes(s: &[u8]) -> (r: Option<u64>)
    ensures
        value_of(r) == parsed_unsigned(byte_codes(s@), u64::MAX as int),
{
    let ghost codes = byte_codes(s@);
    let len = s.len();
    let start: usize = if len > 0 && s[0] == 43u8 {
        1
    } else {
        0
    };
    let ghost digits = codes.subrange(start as int, len as int);
    assert(digits =~= if codes.len() > 0 && codes[0] == 43 {
        codes.drop_first()
    } else {
        codes
    });
    if start >= len {
        return None;
    }
    let mut acc: u64 = 0;
    let mut i: usize = start;
    while i < len
        invariant
            start <= i <= len,
            start < len,
            len == s@.len(),
            codes == byte_codes(s@),
            digits == codes.subrange(start as int, len as int),
            digits == (if codes.len() > 0 && codes[0] == 43 {
                codes.drop_first()
            } else {
                codes
            }),
            all_digits(codes.subrange(start as int, i as int)),
            acc == digits_value(codes.subrange(start as int, i as int)),
        decreases len - i,
    {
        let b = s[i];
        if b < 48u8 || b > 57u8 {
            assert(!is_digit_code(digits[i - start]));
            return None;
        }
        let d = (b - 48u8) as u64;
        let ghost next = codes.subrange(start as int, i + 1);
        assert(next.drop_last() =~= codes.subrange(start as int, i as int));
        assert(all_digits(next)) by {
            assert forall|j: int| 0 <= j < next.len() implies is_digit_code(#[trigger] next[j]) by {
                if j < next.len() - 1 {
                    assert(next[j] == codes.subrange(start as int, i as int)[j]);
                }
            }
        }
        let grown = match acc.checked_mul(10) {
            Some(m) => m.checked_add(d),
            None => None,
        };
        match grown {
            Some(v) => {
                acc = v;
            },
            None => {
                proof {
                    if all_digits(digits) {
                        assert(next =~= digits.take(i + 1 - start));
                        lemma_prefix_value_le(digits, i + 1 - start);
                    }
                }
                return None;
            },
        }
        i = i + 1;
    }
    assert(codes.subrange(start as int, i as int) =~= digits);
    Some(acc)
}

/// Parses an unsigned decimal from text the way `u64::from_str` does.
pub fn parse_u64_str(s: &str) -> (r: Option<u64>)
    ensures
        value_of(r) == parsed_unsigned(char_codes(s@), u64::MAX as int),
{
    let ghost codes = char_codes(s@);
    let len = s.unicode_len();
    let start: usize = if len > 0 && s.get_char(0) == '+' {
        1
    } else {
        0
    };
    let ghost digits = codes.subrange(start as int, len as int);
    assert(digits =~= if codes.len() > 0 && codes[0] == 43 {
        codes.drop_first()
    } else {
        codes
    });
    if start >= len {
        return None;
    }
    let mut acc: u64 = 0;
    let mut i: usize = start;
    while i < len
        invariant
            start <= i <= len,
            start < len,
            len == s@.len(),
            codes == char_codes(s@),
            digits == codes.subrange(start as int, len as int),
            digits == (if codes.len() > 0 && codes[0] == 43 {
                codes.drop_first()
            } else {
                codes
            }),
            all_digits(codes.subrange(start as int, i as int)),
            acc == digits_value(codes.subrange(start as int, i as int)),
        decreases len - i,
    {
        let c = s.get_char(i);
        if c < '0' || c > '9' {
            assert(!is_digit_code(digits[i - start]));
            return None;
        }
        let d = ((c as u32) - 48) as u64;
        let ghost next = codes.subrange(start as int, i + 1);
        assert(next.drop_last() =~= codes.subrange(start as int, i as int));
        assert(all_digits(next)) by {
            assert forall|j: int| 0 <= j < next.len() implies is_digit_code(#[trigger] next[j]) by {
                if j < next.len() - 1 {
                    assert(next[j] == codes.subrange(start as int, i as int)[j]);
                }
            }
        }
        let grown = match acc.checked_mul(10) {
            Some(m) => m.checked_add(d),
            None => None,
        };
        match grown {
            Some(v) => {
                acc = v;
            },
            None => {
                proof {
                    if all_digits(digits) {
                        assert(next =~= digits.take(i + 1 - start));
                        lemma_prefix_value_le(digits, i + 1 - start);
                    }
                }
                return None;
            },
        }
        i = i + 1;
    }
    assert(codes.subrange(start as int, i as int) =~= digits);
    Some(acc)
}

/// Whether `s` begins with `prefix`.
pub open spec fn starts_with<T>(s: Seq<T>, prefix: Seq<T>) -> bool {
    prefix.len() <= s.len() && s.take(prefix.len() as int) == prefix
}

/// Whether `s` ends with `suffix`.
pub open spec fn ends_with<T>(s: Seq<T>, suffix: Seq<T>) -> bool {
    suffix.len() <= s.len() && s.skip(s.len() - suffix.len()) == suffix
}

/// Whether `s` holds `part` at some position.
pub open spec fn contains_at<T>(s: Seq<T>, part: Seq<T>, at: int) -> bool {
    0 <= at && at + part.len() <= s.len() && s.subrange(at, at + part.len()) == part
}

pub open spec fn contains_seq<T>(s: Seq<T>, part: Seq<T>) -> bool {
    exists|at: int| contains_at(s, part, at)
}

pub fn bytes_end_with(s: &[u8], suffix: &[u8]) -> (r: bool)
    ensures
        r == ends_with(s@, suffix@),
{
    let n = s.len();
    let m = suffix.len();
    if m > n {
        return false;
    }
    let mut i: usize = 0;
    while i < m
        invariant
            m <= n,
            n == s@.len(),
            m == suffix@.len(),
            i <= m,
            forall|j: int| 0 <= j < i ==> s@[n - m + j] == suffix@[j],
        decreases m - i,
    {
        if s[n - m + i] != suffix[i] {
            assert(s@.skip(n - m)[i as int] != suffix@[i as int]);
            return false;
        }
        i = i + 1;
    }
    assert(s@.skip(n - m) =~= suffix@);
    true
}

pub fn bytes_start_with(s: &[u8], prefix: &[u8]) -> (r: bool)
    ensures
        r == starts_with(s@, prefix@),
{
    let n = s.len();
    let m = prefix.len();
    if m > n {
        return false;
    }
    let mut i: usize = 0;
    while i < m
        invariant
            m <= n,
            n == s@.len(),
            m == prefix@.len(),
            i <= m,
            forall|j: int| 0 <= j < i ==> s@[j] == prefix@[j],
        decreases m - i,
    {
        if s[i] != prefix[i] {
            assert(s@.take(m as int)[i as int] != prefix@[i as int]);
            return false;
        }
        i = i + 1;
    }
    assert(s@.take(m as int) =~= prefix@);
    true
}

pub fn bytes_equal(a: &[u8], b: &[u8]) -> (r: bool)
    ensures
        r == (a@ == b@),
{
    if a.len() != b.len() {
        return false;
    }
    let mut i: usize = 0;
    while i < a.len()
        invariant
            a@.len() == b@.len(),
            i <= a@.len(),
            forall|j: int| 0 <= j < i ==> a@[j] == b@[j],
        decreases a@.len() - i,
    {
        if a[i] != b[i] {
            return false;
        }
        i = i + 1;
    }
    assert(a@ =~= b@);
    true
}

/// `std::str::from_utf8`: the text that `bytes` encode when they are valid
/// UTF-8, and nothing otherwise.
#[verifier::external_body]
pub(crate) fn utf8_text(bytes: &[u8]) -> (r: Option<&str>)
    ensures
        r is Some <==> valid_utf8(bytes@),
        r matches Some(s) ==> s@ == decode_utf8(bytes@),
{
    std::str::from_utf8(bytes).ok()
}

/// What `String::from_utf8_lossy` makes of `bytes`: the text they encode,
/// with each invalid sequence replaced by U+FFFD.
pub uninterp spec fn lossy_text(bytes: Seq<u8>) -> Seq<char>;

/// `String::from_utf8_lossy`, which is also how a Unix path is displayed.
/// Valid UTF-8 is decoded unchanged.
#[verifier::external_body]
pub(crate) fn display_bytes(bytes: &[u8]) -> (s: String)
    ensures
        s@ == lossy_text(bytes@),
        valid_utf8(bytes@) ==> s@ == decode_utf8(bytes@),
{
    String::from_utf8_lossy(bytes).into_owned()
}

/// Whether `c` has the Unicode White_Space property, as `char::is_whitespace`
/// documents it.
pub open spec fn is_white_space(c: char) -> bool {
    let u = c as u32;
    ||| 9 <= u <= 13
    ||| u == 32
    ||| u == 0x85
    ||| u == 0xa0
    ||| u == 0x1680
    ||| 0x2000 <= u <= 0x200a
    ||| u == 0x2028
    ||| u == 0x2029
    ||| u == 0x202f
    ||| u == 0x205f
    ||| u == 0x3000
}

pub fn white_space(c: char) -> (r: bool)
    ensures
        r == is_white_space(c),
{
    let u = c as u32;
    (9 <= u && u <= 13) || u == 32 || u == 0x85 || u == 0xa0 || u == 0x1680 || (0x2000 <= u && u
        <= 0x200a) || u == 0x2028 || u == 0x2029 || u == 0x202f || u == 0x205f || u == 0x3000
}

/// Whether every character of `s` is white space (so that `trim` leaves
/// nothing).
pub open spec fn all_white(s: Seq<char>) -> bool {
    forall|i: int| 0 <= i < s.len() ==> is_white_space(#[trigger] s[i])
}

pub fn str_all_white(s: &str) -> (r: bool)
    ensures
        r == all_white(s@),
{
    let n = s.unicode_len();
    let mut i: usize = 0;
    while i < n
        invariant
            n == s@.len(),
            i <= n,
            forall|j: int| 0 <= j < i ==> is_white_space(#[trigger] s@[j]),
        decreases n - i,
    {
        if !white_space(s.get_char(i)) {
            return false;
        }
        i = i + 1;
    }
    true
}

/// How many times `x` occurs in `s`.
pub open spec fn count_of(s: Seq<u8>, x: u8) -> nat
    decreases s.len(),
{
    if s.len() == 0 {
        0
    } else {
        count_of(s.drop_last(), x) + if s.last() == x {
            1nat
        } else {
            0nat
        }
    }
}

pub fn count_byte(s: &[u8], x: u8) -> (n: usize)
    ensures
        n == count_of(s@, x),
{
    let mut n: usize = 0;
    let mut i: usize = 0;
    while i < s.len()
        invariant
            i <= s@.len(),
            n == count_of(s@.take(i as int), x),
            n <= i,
        decreases s@.len() - i,
    {
        assert(s@.take(i + 1).drop_last() =~= s@.take(i as int));
        if s[i] == x {
            n = n + 1;
        }
        i = i + 1;
    }
    assert(s@.take(i as int) =~= s@);
    n
}

pub fn contains_byte(s: &[u8], x: u8) -> (r: bool)
    ensures
        r == s@.contains(x),
{
    let mut i: usize = 0;
    while i < s.len()
        invariant
            i <= s@.len(),
            forall|j: int| 0 <= j < i ==> s@[j] != x,
        decreases s@.len() - i,
    {
        if s[i] == x {
            assert(s@[i as int] == x);
            return true;
        }
        i = i + 1;
    }
    false
}

} // verus!
