//! Display targets this toolkit knows how to produce/patch `.tft` files for.
//!
//! There is exactly one variant on purpose: every offset and record layout
//! in [`crate::tft`] was derived from a real `.tft` compiled for the
//! NX8048P050-011R-Y, and nothing has been cross-checked against any other
//! Nextion model or resolution.

use vstd::prelude::*;

use crate::strings::chars_of;

verus! {

/// A supported display.
#[derive(Debug, Clone, Copy, PartialEq, Eq, Structural)]
pub enum Target {
    Nx8048p050011rY,
}

/// The canonical model name of the only supported display.
pub open spec fn canonical_model_name() -> Seq<char> {
    "NX8048P050-011R-Y"@
}

/// The model name without punctuation, also accepted when parsing.
pub open spec fn compact_model_name() -> Seq<char> {
    "NX8048P050011RY"@
}

impl Target {
    /// Horizontal resolution in pixels.
    pub fn width(self) -> (w: u16)
        ensures
            w == 800,
    {
        match self {
            Target::Nx8048p050011rY => 800,
        }
    }

    /// Vertical resolution in pixels.
    pub fn height(self) -> (h: u16)
        ensures
            h == 480,
    {
        match self {
            Target::Nx8048p050011rY => 480,
        }
    }

    /// The display's model name, as printed on the device.
    pub fn model_name(self) -> (s: &'static str)
        ensures
            s@ == canonical_model_name(),
    {
        match self {
            Target::Nx8048p050011rY => "NX8048P050-011R-Y",
        }
    }

    /// The model name as an owned string (what the target displays as).
    pub fn to_display_string(self) -> (s: String)
        ensures
            s@ == canonical_model_name(),
    {
        String::from_str(self.model_name())
    }

    /// Parse a target name: surrounding whitespace is ignored and letters
    /// are compared case-insensitively; the canonical name and its
    /// punctuation-free form are accepted.
    pub fn parse(s: &str) -> (r: Result<Target, UnknownTargetError>)
        ensures
            match r {
                Ok(t) => t == Target::Nx8048p050011rY && (normalize_target_name(s@)
                    == canonical_model_name() || normalize_target_name(s@)
                    == compact_model_name()),
                Err(e) => normalize_target_name(s@) != canonical_model_name()
                    && normalize_target_name(s@) != compact_model_name() && e.0@
                    == normalize_target_name(s@),
            },
    {
        let cs = chars_of(s);
        let norm = normalize(&cs);
        let canonical = String::from_str("NX8048P050-011R-Y");
        let compact = String::from_str("NX8048P050011RY");
        if norm == canonical || norm == compact {
            Ok(Target::Nx8048p050011rY)
        } else {
            Err(UnknownTargetError(norm))
        }
    }
}

impl core::str::FromStr for Target {
    type Err = UnknownTargetError;

    fn from_str(s: &str) -> (r: Result<Self, Self::Err>)
        ensures
            match r {
                Ok(t) => t == Target::Nx8048p050011rY && (normalize_target_name(s@)
                    == canonical_model_name() || normalize_target_name(s@)
                    == compact_model_name()),
                Err(e) => normalize_target_name(s@) != canonical_model_name()
                    && normalize_target_name(s@) != compact_model_name() && e.0@
                    == normalize_target_name(s@),
            },
    {
        Target::parse(s)
    }
}

/// The error for a target name that names no supported display; holds the
/// trimmed, uppercased name.
#[derive(Debug, Clone, PartialEq, Eq)]
pub struct UnknownTargetError(pub String);

impl UnknownTargetError {
    /// The human-readable explanation of this error.
    pub fn message(&self) -> (m: String)
        ensures
            m@ == "unsupported target "@ + str_debug(self.0@)
                + ": this toolkit only supports NX8048P050-011R-Y (see docs/targets.md for what it would take to add another)"@,
    {
        let mut m = String::from_str("unsupported target ");
        let quoted = debug_string(self.0.as_str());
        m.append(quoted.as_str());
        m.append(
            ": this toolkit only supports NX8048P050-011R-Y (see docs/targets.md for what it would take to add another)",
        );
        m
    }
}

/// Whether `c` is Unicode `White_Space` (what `char::is_whitespace` tests).
pub open spec fn is_ws(c: char) -> bool {
    let u = c as u32;
    (9 <= u <= 13) || u == 32 || u == 0x85 || u == 0xa0 || u == 0x1680 || (0x2000 <= u
        <= 0x200a) || u == 0x2028 || u == 0x2029 || u == 0x202f || u == 0x205f || u == 0x3000
}

/// `s` without leading whitespace.
pub open spec fn trim_start(s: Seq<char>) -> Seq<char>
    decreases s.len(),
{
    if s.len() > 0 && is_ws(s[0]) {
        trim_start(s.drop_first())
    } else {
        s
    }
}

/// `s` without trailing whitespace.
pub open spec fn trim_end(s: Seq<char>) -> Seq<char>
    decreases s.len(),
{
    if s.len() > 0 && is_ws(s.last()) {
        trim_end(s.drop_last())
    } else {
        s
    }
}

/// `s` without leading or trailing whitespace (`str::trim`).
pub open spec fn trim(s: Seq<char>) -> Seq<char> {
    trim_end(trim_start(s))
}

/// ASCII lowercase letters mapped to uppercase, everything else unchanged.
pub open spec fn ascii_upper_char(c: char) -> char {
    if 'a' <= c && c <= 'z' {
        ((c as u32 - 32) as u8) as char
    } else {
        c
    }
}

/// `str::to_ascii_uppercase`.
pub open spec fn ascii_upper(s: Seq<char>) -> Seq<char> {
    s.map_values(|c: char| ascii_upper_char(c))
}

/// The form a target name is compared in.
pub open spec fn normalize_target_name(s: Seq<char>) -> Seq<char> {
    ascii_upper(trim(s))
}

/// A target's own name parses back to it: the canonical name is already
/// free of surrounding whitespace and upper-case.
pub proof fn lemma_display_name_parses_back()
    ensures
        normalize_target_name(canonical_model_name()) == canonical_model_name(),
{
    reveal_strlit("NX8048P050-011R-Y");
    let s = canonical_model_name();
    lemma_trim_start_from(s, 0);
    assert(s.subrange(0, s.len() as int) =~= s);
    lemma_trim_end_to(s, s.len() as int);
    assert(trim(s) == s);
    assert(ascii_upper(s) =~= s);
}

/// Whether `c` is whitespace in the sense of `char::is_whitespace`.
pub fn is_whitespace(c: char) -> (r: bool)
    ensures
        r == is_ws(c),
{
    let u = c as u32;
    (9 <= u && u <= 13) || u == 32 || u == 0x85 || u == 0xa0 || u == 0x1680 || (0x2000 <= u && u
        <= 0x200a) || u == 0x2028 || u == 0x2029 || u == 0x202f || u == 0x205f || u == 0x3000
}

pub proof fn lemma_trim_start_from(s: Seq<char>, a: int)
    requires
        0 <= a <= s.len(),
        forall|j: int| 0 <= j < a ==> is_ws(#[trigger] s[j]),
        a == s.len() || !is_ws(s[a]),
    ensures
        trim_start(s) == s.subrange(a, s.len() as int),
    decreases a,
{
    if a == 0 {
        assert(s.subrange(0, s.len() as int) =~= s);
    } else {
        assert forall|j: int| 0 <= j < a - 1 implies is_ws(#[trigger] s.drop_first()[j]) by {
            assert(s.drop_first()[j] == s[j + 1]);
        }
        lemma_trim_start_from(s.drop_first(), a - 1);
        assert(s.drop_first().subrange(a - 1, s.len() - 1) =~= s.subrange(a, s.len() as int));
    }
}

pub proof fn lemma_trim_end_to(s: Seq<char>, b: int)
    requires
        0 <= b <= s.len(),
        forall|j: int| b <= j < s.len() ==> is_ws(#[trigger] s[j]),
        b == 0 || !is_ws(s[b - 1]),
    ensures
        trim_end(s) == s.subrange(0, b),
    decreases s.len() - b,
{
    if b == s.len() {
        assert(s.subrange(0, b) =~= s);
    } else {
        assert forall|j: int| b <= j < s.len() - 1 implies is_ws(#[trigger] s.drop_last()[j]) by {
            assert(s.drop_last()[j] == s[j]);
        }
        lemma_trim_end_to(s.drop_last(), b);
        assert(s.drop_last().subrange(0, b) =~= s.subrange(0, b));
    }
}

/// The bounds `[a, b)` of `cs` with surrounding whitespace removed.
pub fn trim_bounds(cs: &Vec<char>) -> (r: (usize, usize))
    ensures
        r.0 <= r.1 <= cs@.len(),
        cs@.subrange(r.0 as int, r.1 as int) == trim(cs@),
{
    let mut a: usize = 0;
    while a < cs.len() && is_whitespace(cs[a])
        invariant
            a <= cs@.len(),
            forall|j: int| 0 <= j < a ==> is_ws(#[trigger] cs@[j]),
        decreases cs@.len() - a,
    {
        a = a + 1;
    }
    proof {
        lemma_trim_start_from(cs@, a as int);
    }
    let ghost t = cs@.subrange(a as int, cs@.len() as int);
    let mut b: usize = cs.len();
    while b > a && is_whitespace(cs[b - 1])
        invariant
            a <= b <= cs@.len(),
            t == cs@.subrange(a as int, cs@.len() as int),
            forall|j: int| b <= j < cs@.len() ==> is_ws(#[trigger] cs@[j]),
        decreases b - a,
    {
        b = b - 1;
    }
    proof {
        assert forall|j: int| b - a <= j < t.len() implies is_ws(#[trigger] t[j]) by {
            assert(t[j] == cs@[j + a]);
        }
        if b > a {
            assert(t[b - a - 1] == cs@[b - 1]);
        }
        lemma_trim_end_to(t, b - a);
        assert(t.subrange(0, b - a) =~= cs@.subrange(a as int, b as int));
    }
    (a, b)
}

fn upper_char(c: char) -> (r: char)
    ensures
        r == ascii_upper_char(c),
{
    if 'a' <= c && c <= 'z' {
        ((c as u32 - 32) as u8) as char
    } else {
        c
    }
}

/// The trimmed, ASCII-uppercased form of a character sequence.
pub fn normalize(cs: &Vec<char>) -> (s: String)
    ensures
        s@ == normalize_target_name(cs@),
{
    let (a, b) = trim_bounds(cs);
    let ghost t = cs@.subrange(a as int, b as int);
    let mut s = String::new();
    let mut i = a;
    while i < b
        invariant
            a <= i <= b <= cs@.len(),
            t == cs@.subrange(a as int, b as int),
            s@ == ascii_upper(cs@.subrange(a as int, i as int)),
        decreases b - i,
    {
        s.push(upper_char(cs[i]));
        i = i + 1;
        assert(s@ =~= ascii_upper(cs@.subrange(a as int, i as int)));
    }
    s
}

/// What Rust's `{:?}` writes for a string: the string in double quotes,
/// with its escapes.
pub uninterp spec fn str_debug(s: Seq<char>) -> Seq<char>;

/// Formats `s` with `{:?}` (std's `Debug` for `str`). The result is named
/// by `str_debug`; std documents no fixed form for `Debug` output, so
/// nothing more is stated of it.
#[verifier::external_body]
fn debug_string(s: &str) -> (r: String)
    ensures
        r@ == str_debug(s@),
{
    format!("{:?}", s)
}

} // verus!
