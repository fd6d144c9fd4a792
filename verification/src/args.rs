//! Reading command-line values that the library's operations take.

use vstd::prelude::*;

use crate::error::IntParseError;
use crate::strings::{chars_of, parse_uint, spec_parse_uint};

verus! {

/// How a file offset is read: `0x`/`0X` followed by hexadecimal digits, or
/// decimal digits.
pub open spec fn spec_parse_offset(s: Seq<char>) -> Result<nat, IntParseError> {
    if s.len() >= 2 && s[0] == '0' && (s[1] == 'x' || s[1] == 'X') {
        spec_parse_uint(s.subrange(2, s.len() as int), 16, usize::MAX as nat)
    } else {
        spec_parse_uint(s, 10, usize::MAX as nat)
    }
}

/// Read a file offset given as hex like `0xc0ef4` or as decimal.
pub fn parse_offset(s: &str) -> (r: Result<usize, IntParseError>)
    ensures
        match spec_parse_offset(s@) {
            Ok(v) => r == Ok::<usize, IntParseError>(v as usize),
            Err(e) => r == Err::<usize, IntParseError>(e),
        },
{
    let cs = chars_of(s);
    let n = cs.len();
    let max = usize::MAX as u64;
    let r = if n >= 2 && cs[0] == '0' && (cs[1] == 'x' || cs[1] == 'X') {
        parse_uint(&cs, 2, n, 16, max)
    } else {
        proof {
            assert(cs@.subrange(0, n as int) =~= s@);
        }
        parse_uint(&cs, 0, n, 10, max)
    };
    match r {
        Ok(v) => Ok(v as usize),
        Err(e) => Err(e),
    }
}

} // verus!
