//! Small text utilities shared by the decoders and renderers: comparing and
//! building strings, and formatting integers in decimal and hexadecimal.

use vstd::prelude::*;
use vstd::utf8::{decode_utf8, valid_utf8};

use crate::error::IntParseError;

verus! {

/// `String::push` appends one character.
pub assume_specification[ String::push ](s: &mut String, ch: char)
    ensures
        final(s)@ == old(s)@.push(ch),
;

/// The characters that `String::from_utf8_lossy` produces from `bytes`.
pub uninterp spec fn utf8_lossy(bytes: Seq<u8>) -> Seq<char>;

/// Calls `String::from_utf8_lossy`. The result is named by `utf8_lossy`;
/// what is stated of it is only what std documents: bytes that are valid
/// UTF-8 decode without replacement. How invalid sequences are replaced is
/// left unsaid.
#[verifier::external_body]
pub(crate) fn string_from_utf8_lossy(bytes: &[u8]) -> (s: String)
    ensures
        s@ == utf8_lossy(bytes@),
        valid_utf8(bytes@) ==> s@ == decode_utf8(bytes@),
{
    String::from_utf8_lossy(bytes).into_owned()
}

/// The characters of `s`, in order.
pub fn chars_of(s: &str) -> (v: Vec<char>)
    ensures
        v@ == s@,
{
    let mut v: Vec<char> = Vec::new();
    for c in it: s.chars()
        invariant
            v@ == it.seq().take(it.index() as int),
            it.seq() == s@,
    {
        v.push(c);
    }
    v
}

/// Whether two strings hold the same characters.
pub fn str_eq(a: &str, b: &str) -> (r: bool)
    ensures
        r == (a@ == b@),
{
    let va = chars_of(a);
    let vb = chars_of(b);
    if va.len() != vb.len() {
        return false;
    }
    let mut i: usize = 0;
    while i < va.len()
        invariant
            va@ == a@,
            vb@ == b@,
            va@.len() == vb@.len(),
            i <= va@.len(),
            forall|j: int| 0 <= j < i ==> va@[j] == vb@[j],
        decreases va@.len() - i,
    {
        if va[i] != vb[i] {
            return false;
        }
        i = i + 1;
    }
    assert(va@ =~= vb@);
    true
}

/// A string holding the characters `cs[from..to]`.
pub fn string_from_chars(cs: &Vec<char>, from: usize, to: usize) -> (s: String)
    requires
        from <= to <= cs@.len(),
    ensures
        s@ == cs@.subrange(from as int, to as int),
{
    let mut s = String::new();
    let mut i: usize = from;
    while i < to
        invariant
            from <= i <= to,
            to <= cs@.len(),
            s@ == cs@.subrange(from as int, i as int),
        decreases to - i,
    {
        s.push(cs[i]);
        i = i + 1;
        assert(s@ =~= cs@.subrange(from as int, i as int));
    }
    s
}

/// The characters of a byte sequence read as ASCII.
pub open spec fn ascii_chars(bytes: Seq<u8>) -> Seq<char> {
    Seq::new(bytes.len(), |i: int| bytes[i] as char)
}

/// Whether every byte is below 0x80.
pub open spec fn all_ascii(bytes: Seq<u8>) -> bool {
    forall|i: int| 0 <= i < bytes.len() ==> #[trigger] bytes[i] < 0x80
}

/// A string whose characters are the given bytes read as ASCII.
pub fn ascii_string(bytes: &[u8]) -> (s: String)
    requires
        all_ascii(bytes@),
    ensures
        s@ == ascii_chars(bytes@),
{
    let mut s = String::new();
    let mut i: usize = 0;
    while i < bytes.len()
        invariant
            i <= bytes@.len(),
            all_ascii(bytes@),
            s@ == ascii_chars(bytes@.subrange(0, i as int)),
        decreases bytes@.len() - i,
    {
        let b = bytes[i];
        s.push(b as char);
        i = i + 1;
        assert(s@ =~= ascii_chars(bytes@.subrange(0, i as int)));
    }
    assert(bytes@.subrange(0, bytes@.len() as int) =~= bytes@);
    s
}

/// Whether every byte is below 0x80.
pub fn is_all_ascii(bytes: &[u8]) -> (r: bool)
    ensures
        r == all_ascii(bytes@),
{
    let mut i: usize = 0;
    while i < bytes.len()
        invariant
            i <= bytes@.len(),
            forall|j: int| 0 <= j < i ==> #[trigger] bytes@[j] < 0x80,
        decreases bytes@.len() - i,
    {
        if bytes[i] >= 0x80 {
            return false;
        }
        i = i + 1;
    }
    true
}

// ---------------------------------------------------------------------------
// Integer formatting
// ---------------------------------------------------------------------------

/// The character for digit `d` (`0-9`, then lowercase `a-z`).
pub open spec fn digit_char(d: nat) -> char {
    if d < 10 {
        ((d + 48) as u8) as char
    } else {
        ((d + 87) as u8) as char
    }
}

/// The digits of `n` in base `radix`, most significant first, without
/// leading zeros (`0` is written as one digit).
pub open spec fn digits(n: nat, radix: nat) -> Seq<char>
    recommends
        2 <= radix <= 36,
    decreases n,
{
    if radix < 2 || n < radix {
        seq![digit_char(n)]
    } else {
        proof {
            lemma_div_smaller(n, radix);
        }
        digits(n / radix, radix).push(digit_char(n % radix))
    }
}

/// Dividing by a radix of at least 2 shrinks a number that is at least the
/// radix.
pub proof fn lemma_div_smaller(n: nat, radix: nat)
    requires
        2 <= radix <= n,
    ensures
        n / radix < n,
        n % radix < radix,
{
    assert(n / radix < n) by (nonlinear_arith)
        requires
            2 <= radix <= n,
    ;
}

/// Decimal digits of `n`.
pub open spec fn dec(n: nat) -> Seq<char> {
    digits(n, 10)
}

/// Lowercase hexadecimal digits of `n`.
pub open spec fn hex(n: nat) -> Seq<char> {
    digits(n, 16)
}

fn digit_to_char(d: u64) -> (c: char)
    requires
        d < 36,
    ensures
        c == digit_char(d as nat),
{
    if d < 10 {
        ((d + 48) as u8) as char
    } else {
        ((d + 87) as u8) as char
    }
}

/// Appends the digits of `n` in base `radix` to `s`.
pub fn push_digits(s: &mut String, n: u64, radix: u64)
    requires
        2 <= radix <= 36,
    ensures
        final(s)@ == old(s)@ + digits(n as nat, radix as nat),
    decreases n,
{
    if n < radix {
        s.push(digit_to_char(n));
        assert(digits(n as nat, radix as nat) =~= seq![digit_char(n as nat)]);
    } else {
        proof {
            lemma_div_smaller(n as nat, radix as nat);
        }
        push_digits(s, n / radix, radix);
        s.push(digit_to_char(n % radix));
    }
}

/// The decimal form of `n`.
pub fn dec_string(n: u64) -> (s: String)
    ensures
        s@ == dec(n as nat),
{
    let mut s = String::new();
    push_digits(&mut s, n, 10);
    s
}

/// Two lowercase hexadecimal digits of a byte, zero-padded.
pub open spec fn hex2(b: u8) -> Seq<char> {
    seq![digit_char((b / 16) as nat), digit_char((b % 16) as nat)]
}

/// Appends the two zero-padded lowercase hexadecimal digits of `b`.
pub fn push_hex2(s: &mut String, b: u8)
    ensures
        final(s)@ == old(s)@ + hex2(b),
{
    let ghost start = s@;
    s.push(digit_to_char((b / 16) as u64));
    s.push(digit_to_char((b % 16) as u64));
    assert(s@ =~= start + hex2(b));
}

/// `0x` followed by the lowercase hexadecimal digits of `n` (Rust's `{:#x}`).
pub open spec fn hex_prefixed(n: nat) -> Seq<char> {
    seq!['0', 'x'] + hex(n)
}

/// Appends `n` in Rust's `{:#x}` form.
pub fn push_hex_prefixed(s: &mut String, n: u64)
    ensures
        final(s)@ == old(s)@ + hex_prefixed(n as nat),
{
    let ghost start = s@;
    s.push('0');
    s.push('x');
    push_digits(s, n, 16);
    assert(s@ =~= start + hex_prefixed(n as nat));
}

// ---------------------------------------------------------------------------
// Integer parsing
// ---------------------------------------------------------------------------

/// The value of a digit character in bases up to 36; 36 for anything that
/// is no digit at all.
pub open spec fn digit_value(c: char) -> nat {
    let u = c as u32;
    if 48 <= u <= 57 {
        (u - 48) as nat
    } else if 97 <= u <= 122 {
        (u - 87) as nat
    } else if 65 <= u <= 90 {
        (u - 55) as nat
    } else {
        36
    }
}

/// Accumulates the digits `d[i..]` onto `acc`, left to right; the first
/// non-digit or the first step past `max` decides the error.
pub open spec fn parse_digits_from(
    d: Seq<char>,
    i: int,
    acc: nat,
    radix: nat,
    max: nat,
) -> Result<nat, IntParseError>
    decreases d.len() - i,
{
    if i >= d.len() {
        Ok(acc)
    } else {
        let v = digit_value(d[i]);
        if v >= radix {
            Err(IntParseError::InvalidDigit)
        } else if acc * radix + v > max {
            Err(IntParseError::Overflow)
        } else {
            parse_digits_from(d, i + 1, acc * radix + v, radix, max)
        }
    }
}

/// How `from_str_radix` reads an unsigned integer no greater than `max`:
/// an optional `+`, then one or more digits of the radix.
pub open spec fn spec_parse_uint(s: Seq<char>, radix: nat, max: nat) -> Result<
    nat,
    IntParseError,
> {
    if s.len() == 0 {
        Err(IntParseError::Empty)
    } else if s.len() == 1 && (s[0] == '+' || s[0] == '-') {
        Err(IntParseError::InvalidDigit)
    } else if s[0] == '+' {
        parse_digits_from(s, 1, 0, radix, max)
    } else {
        parse_digits_from(s, 0, 0, radix, max)
    }
}

/// Whether `c` is one of `0`..`9`.
pub open spec fn is_dec_digit(c: char) -> bool {
    '0' <= c <= '9'
}

/// The decimal digits of `n` are one or more of `0`..`9`.
pub proof fn lemma_dec_digits(n: nat)
    ensures
        dec(n).len() >= 1,
        forall|i: int| 0 <= i < dec(n).len() ==> is_dec_digit(#[trigger] dec(n)[i]),
    decreases n,
{
    if n >= 10 {
        lemma_div_smaller(n, 10);
        lemma_dec_digits(n / 10);
        assert(dec(n) == dec(n / 10).push(digit_char(n % 10)));
    }
}

/// Reading digits with one more digit appended reads the digits, then that
/// digit.
proof fn lemma_parse_digits_push(s: Seq<char>, c: char, i: int, acc: nat, radix: nat, max: nat)
    requires
        0 <= i <= s.len(),
    ensures
        parse_digits_from(s.push(c), i, acc, radix, max) == match parse_digits_from(
            s,
            i,
            acc,
            radix,
            max,
        ) {
            Ok(v) => if digit_value(c) >= radix {
                Err(IntParseError::InvalidDigit)
            } else if v * radix + digit_value(c) > max {
                Err(IntParseError::Overflow)
            } else {
                Ok(v * radix + digit_value(c))
            },
            Err(e) => Err(e),
        },
    decreases s.len() - i,
{
    let t = s.push(c);
    if i < s.len() {
        assert(t[i] == s[i]);
        let v = digit_value(s[i]);
        if v < radix && acc * radix + v <= max {
            lemma_parse_digits_push(s, c, i + 1, acc * radix + v, radix, max);
        }
    } else {
        assert(t[i] == c);
        assert(parse_digits_from(t, i + 1, acc * radix + digit_value(c), radix, max) == Ok::<
            nat,
            IntParseError,
        >(acc * radix + digit_value(c)));
    }
}

proof fn lemma_parse_digits_dec(n: nat, max: nat)
    requires
        n <= max,
    ensures
        parse_digits_from(dec(n), 0, 0, 10, max) == Ok::<nat, IntParseError>(n),
    decreases n,
{
    let d = digit_char(n % 10);
    assert(digit_value(d) == n % 10);
    if n < 10 {
        assert(dec(n) =~= Seq::<char>::empty().push(d));
        lemma_parse_digits_push(Seq::empty(), d, 0, 0, 10, max);
    } else {
        lemma_div_smaller(n, 10);
        lemma_parse_digits_dec(n / 10, max);
        assert(dec(n) == dec(n / 10).push(d));
        lemma_parse_digits_push(dec(n / 10), d, 0, 0, 10, max);
        assert((n / 10) * 10 + n % 10 == n);
    }
}

/// Reading the decimal digits of `n` gives `n` back, when `n` is allowed.
pub proof fn lemma_parse_dec(n: nat, max: nat)
    requires
        n <= max,
    ensures
        spec_parse_uint(dec(n), 10, max) == Ok::<nat, IntParseError>(n),
{
    lemma_dec_digits(n);
    assert(is_dec_digit(dec(n)[0]));
    lemma_parse_digits_dec(n, max);
}

fn digit_value_exec(c: char) -> (v: u64)
    ensures
        v == digit_value(c),
{
    let u = c as u32;
    if 48 <= u && u <= 57 {
        (u - 48) as u64
    } else if 97 <= u && u <= 122 {
        (u - 87) as u64
    } else if 65 <= u && u <= 90 {
        (u - 55) as u64
    } else {
        36
    }
}

/// Parses `cs[from..to]` as an unsigned integer of base `radix` no greater
/// than `max`.
pub fn parse_uint(cs: &Vec<char>, from: usize, to: usize, radix: u64, max: u64) -> (r: Result<
    u64,
    IntParseError,
>)
    requires
        from <= to <= cs@.len(),
        2 <= radix <= 36,
    ensures
        match spec_parse_uint(cs@.subrange(from as int, to as int), radix as nat, max as nat) {
            Ok(v) => r == Ok::<u64, IntParseError>(v as u64) && v <= max,
            Err(e) => r == Err::<u64, IntParseError>(e),
        },
{
    let ghost s = cs@.subrange(from as int, to as int);
    if from == to {
        return Err(IntParseError::Empty);
    }
    if to - from == 1 && (cs[from] == '+' || cs[from] == '-') {
        return Err(IntParseError::InvalidDigit);
    }
    let mut i: usize = if cs[from] == '+' {
        from + 1
    } else {
        from
    };
    let mut acc: u64 = 0;
    while i < to
        invariant
            from <= i <= to <= cs@.len(),
            s == cs@.subrange(from as int, to as int),
            acc <= max,
            2 <= radix <= 36,
            spec_parse_uint(s, radix as nat, max as nat) == parse_digits_from(
                s,
                i - from,
                acc as nat,
                radix as nat,
                max as nat,
            ),
        decreases to - i,
    {
        let v = digit_value_exec(cs[i]);
        assert(s[i - from] == cs@[i as int]);
        if v >= radix {
            return Err(IntParseError::InvalidDigit);
        }
        assert((acc as int) * (radix as int) + (v as int) <= 0xffff_ffff_ffff_ffff * 36 + 36)
            by (nonlinear_arith)
            requires
                acc <= 0xffff_ffff_ffff_ffff,
                radix <= 36,
                v < 36,
        ;
        let a: u128 = (acc as u128) * (radix as u128) + (v as u128);
        if a > max as u128 {
            return Err(IntParseError::Overflow);
        }
        acc = a as u64;
        i = i + 1;
    }
    Ok(acc)
}

/// The first index in `[i, end)` holding `c`.
pub open spec fn find_in(s: Seq<char>, c: char, i: int, end: int) -> Option<int>
    decreases end - i,
{
    if i >= end {
        None
    } else if s[i] == c {
        Some(i)
    } else {
        find_in(s, c, i + 1, end)
    }
}

/// What the first index holding `c` is: in range, holding `c`, with no
/// earlier index in range holding it; and `None` only where no index does.
pub proof fn lemma_find_in(s: Seq<char>, c: char, i: int, end: int)
    requires
        0 <= i,
        end <= s.len(),
    ensures
        find_in(s, c, i, end) matches Some(k) ==> i <= k < end && s[k] == c && forall|j: int|
            i <= j < k ==> s[j] != c,
        find_in(s, c, i, end) is None ==> forall|j: int| i <= j < end ==> s[j] != c,
    decreases end - i,
{
    if i < end && s[i] != c {
        lemma_find_in(s, c, i + 1, end);
    }
}

/// `find_in` finds `k` where `k` holds `c` and nothing before it in range does.
pub proof fn lemma_find_in_at(s: Seq<char>, c: char, i: int, end: int, k: int)
    requires
        0 <= i <= k < end <= s.len(),
        s[k] == c,
        forall|j: int| i <= j < k ==> s[j] != c,
    ensures
        find_in(s, c, i, end) == Some(k),
{
    lemma_find_in(s, c, i, end);
}

/// `find_in` finds nothing where nothing in range holds `c`.
pub proof fn lemma_find_in_absent(s: Seq<char>, c: char, i: int, end: int)
    requires
        0 <= i,
        end <= s.len(),
        forall|j: int| i <= j < end ==> s[j] != c,
    ensures
        find_in(s, c, i, end) is None,
{
    lemma_find_in(s, c, i, end);
}

/// The first index in `[from, to)` holding `c`.
pub fn find_char(cs: &Vec<char>, c: char, from: usize, to: usize) -> (r: Option<usize>)
    requires
        from <= to <= cs@.len(),
    ensures
        match find_in(cs@, c, from as int, to as int) {
            Some(k) => r == Some(k as usize) && from <= k < to,
            None => r is None,
        },
{
    let mut i: usize = from;
    while i < to
        invariant
            from <= i <= to <= cs@.len(),
            find_in(cs@, c, from as int, to as int) == find_in(cs@, c, i as int, to as int),
        decreases to - i,
    {
        if cs[i] == c {
            return Some(i);
        }
        i = i + 1;
    }
    None
}

/// `None` for the empty sequence, the sequence otherwise.
pub open spec fn nonempty(s: Seq<char>) -> Option<Seq<char>> {
    if s.len() == 0 {
        None
    } else {
        Some(s)
    }
}

/// The string `cs[from..to]`, or `None` when that is empty.
pub fn nonempty_string(cs: &Vec<char>, from: usize, to: usize) -> (r: Option<String>)
    requires
        from <= to <= cs@.len(),
    ensures
        match r {
            Some(s) => nonempty(cs@.subrange(from as int, to as int)) == Some(s@),
            None => nonempty(cs@.subrange(from as int, to as int)) is None,
        },
{
    if from == to {
        None
    } else {
        Some(string_from_chars(cs, from, to))
    }
}

} // verus!
