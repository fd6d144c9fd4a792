//! Parse and patch compiled Nextion `.tft` firmware files.
//!
//! [`patch_text`] and [`patch_geom`] work by searching for the current bytes,
//! so they apply to any component that has a text pool slot or an `x,y,w,h`
//! quad, regardless of type. [`patch_component_color_font`] and
//! [`patch_button_color_font`] write the fields confirmed for text-type and
//! button-type records at fixed offsets from a record located by
//! [`find_text_record_by_geometry`].

use vstd::prelude::*;
use vstd::utf8::encode_utf8;

use crate::error::{TftError, TftErrorModel};
use crate::hmi::splice;
use crate::strings::{
    chars_of, dec, find_char, find_in, hex_prefixed, is_dec_digit, lemma_dec_digits,
    lemma_find_in_absent, lemma_find_in_at, lemma_parse_dec, parse_uint, push_digits,
    push_hex_prefixed, spec_parse_uint, string_from_chars,
};
use crate::target::{canonical_model_name, trim, trim_bounds, Target};
use crate::zi::{le16, le32};

pub mod button_record_offset;
pub mod text_record_offset;

verus! {

/// Length of the `.tft` header.
pub const HEADER_LEN: usize = 0x40;

/// Offset of the `"DN"` magic.
pub const MAGIC_OFFSET: usize = 0x02;

/// The magic bytes.
pub const MAGIC: [u8; 2] = [0x44, 0x4e];

/// Offset of the width field.
pub const WIDTH_OFFSET: usize = 0x0C;

/// Offset of the height field.
pub const HEIGHT_OFFSET: usize = 0x0E;

/// Offset of the total-size field.
pub const TOTAL_SIZE_OFFSET: usize = 0x3C;

/// Length of one text-pool slot.
pub const TEXT_SLOT_LEN: usize = 104;

/// Length of a text-component (and button-component) record.
pub const TEXT_RECORD_LEN: usize = 0x54;

/// `(x, y, w, h)` in pixels.
pub type Geometry = (u16, u16, u16, u16);

/// The dimensions and declared size read from a header.
#[derive(Debug, Clone, Copy)]
pub struct Header {
    pub width: u16,
    pub height: u16,
    pub total_size: u32,
}

/// Width field of a header.
pub open spec fn header_width(data: Seq<u8>) -> int {
    le16(data[0x0C], data[0x0D])
}

/// Height field of a header.
pub open spec fn header_height(data: Seq<u8>) -> int {
    le16(data[0x0E], data[0x0F])
}

/// Total-size field of a header.
pub open spec fn header_total_size(data: Seq<u8>) -> int {
    le32(data[0x3C], data[0x3D], data[0x3E], data[0x3F])
}

/// The header's `(width, height, total_size)`, or why it is rejected: too
/// short, bad magic, dimensions other than the target's 800x480, or a total
/// size other than the file's length (checked in that order).
pub open spec fn spec_parse_header(data: Seq<u8>) -> Result<(u16, u16, u32), TftErrorModel> {
    if data.len() < HEADER_LEN {
        Err(TftErrorModel::TooSmall(data.len() as usize))
    } else if data[2] != 0x44 || data[3] != 0x4e {
        Err(TftErrorModel::BadMagic(data[2], data[3]))
    } else if header_width(data) != 800 || header_height(data) != 480 {
        Err(
            TftErrorModel::DimensionMismatch {
                width: header_width(data) as u16,
                height: header_height(data) as u16,
                target: canonical_model_name(),
                target_width: 800,
                target_height: 480,
            },
        )
    } else if header_total_size(data) != data.len() {
        Err(
            TftErrorModel::SizeMismatch {
                header_size: header_total_size(data) as u32,
                actual_size: data.len() as usize,
            },
        )
    } else {
        Ok((800, 480, data.len() as u32))
    }
}

/// Parse and validate the 64-byte `.tft` header against `data`, and check
/// its declared dimensions against `target`.
pub fn parse_header(data: &[u8], target: Target) -> (r: Result<Header, TftError>)
    ensures
        match spec_parse_header(data@) {
            Ok(h) => r matches Ok(hd) && hd.width == h.0 && hd.height == h.1 && hd.total_size == h.2,
            Err(e) => r matches Err(e2) && e2@ == e,
        },
{
    if data.len() < HEADER_LEN {
        return Err(TftError::TooSmall(data.len()));
    }
    if data[MAGIC_OFFSET] != 0x44 || data[MAGIC_OFFSET + 1] != 0x4e {
        return Err(TftError::BadMagic(data[MAGIC_OFFSET], data[MAGIC_OFFSET + 1]));
    }
    let width = data[WIDTH_OFFSET] as u16 + 256 * (data[WIDTH_OFFSET + 1] as u16);
    let height = data[HEIGHT_OFFSET] as u16 + 256 * (data[HEIGHT_OFFSET + 1] as u16);
    let total_size = data[TOTAL_SIZE_OFFSET] as u32 + 256 * (data[TOTAL_SIZE_OFFSET + 1] as u32)
        + 65536 * (data[TOTAL_SIZE_OFFSET + 2] as u32) + 16777216 * (data[TOTAL_SIZE_OFFSET
        + 3] as u32);
    if width != target.width() || height != target.height() {
        return Err(
            TftError::DimensionMismatch {
                width,
                height,
                target: target.to_display_string(),
                target_width: target.width(),
                target_height: target.height(),
            },
        );
    }
    if total_size as usize != data.len() {
        return Err(TftError::SizeMismatch { header_size: total_size, actual_size: data.len() });
    }
    Ok(Header { width, height, total_size })
}

// ---------------------------------------------------------------------------
// Searching
// ---------------------------------------------------------------------------

/// Whether `needle` occurs in `h` at offset `i`.
pub open spec fn is_match_at(h: Seq<u8>, needle: Seq<u8>, i: int) -> bool {
    0 <= i && i + needle.len() <= h.len() && h.subrange(i, i + needle.len()) == needle
}

/// Offsets `>= i` where a non-empty `needle` occurs, ascending.
pub open spec fn hits_from(h: Seq<u8>, needle: Seq<u8>, i: int) -> Seq<int>
    decreases h.len() - i,
{
    if needle.len() == 0 || i < 0 || i + needle.len() > h.len() {
        Seq::empty()
    } else if is_match_at(h, needle, i) {
        seq![i] + hits_from(h, needle, i + 1)
    } else {
        hits_from(h, needle, i + 1)
    }
}

/// Every offset where a non-empty `needle` occurs in `h`, ascending.
pub open spec fn spec_hits(h: Seq<u8>, needle: Seq<u8>) -> Seq<int> {
    hits_from(h, needle, 0)
}

/// The offsets found: every one is a match at or after `i`.
pub proof fn lemma_hits_are_matches(h: Seq<u8>, needle: Seq<u8>, i: int)
    requires
        0 <= i,
    ensures
        forall|k: int|
            0 <= k < hits_from(h, needle, i).len() ==> i <= #[trigger] hits_from(h, needle, i)[k]
                && is_match_at(h, needle, hits_from(h, needle, i)[k]),
        forall|j: int| i <= j && is_match_at(h, needle, j) && needle.len() > 0 ==> #[trigger] hits_from(h, needle, i).contains(j),
    decreases h.len() - i,
{
    if needle.len() == 0 || i + needle.len() > h.len() {
    } else {
        lemma_hits_are_matches(h, needle, i + 1);
        let rest = hits_from(h, needle, i + 1);
        if is_match_at(h, needle, i) {
            let s = seq![i] + rest;
            assert forall|k: int| 0 <= k < s.len() implies i <= #[trigger] s[k] && is_match_at(
                h,
                needle,
                s[k],
            ) by {
                if k > 0 {
                    assert(s[k] == rest[k - 1]);
                }
            }
            assert forall|j: int|
                i <= j && is_match_at(h, needle, j) && needle.len() > 0 implies #[trigger] s.contains(
                j,
            ) by {
                if j == i {
                    assert(s[0] == i);
                } else {
                    assert(rest.contains(j));
                    let k = choose|k: int| 0 <= k < rest.len() && rest[k] == j;
                    assert(s[k + 1] == j);
                }
            }
        }
    }
}

/// The views of a vector of offsets.
pub open spec fn offsets_view(v: Seq<usize>) -> Seq<int> {
    v.map_values(|x: usize| x as int)
}

/// Offsets read back as `usize` values are the offsets.
pub proof fn lemma_as_usizes(v: Seq<usize>)
    ensures
        as_usizes(offsets_view(v)) == v,
{
    assert(as_usizes(offsets_view(v)) =~= v);
}

fn matches_at(haystack: &[u8], needle: &[u8], i: usize) -> (r: bool)
    requires
        i + needle@.len() <= haystack@.len(),
    ensures
        r == is_match_at(haystack@, needle@, i as int),
{
    let hl = haystack.len();
    let mut k: usize = 0;
    while k < needle.len()
        invariant
            hl == haystack@.len(),
            i + needle@.len() <= haystack@.len(),
            k <= needle@.len(),
            forall|j: int| 0 <= j < k ==> haystack@[i + j] == needle@[j],
        decreases needle@.len() - k,
    {
        if haystack[i + k] != needle[k] {
            assert(haystack@.subrange(i as int, i + needle@.len())[k as int] != needle@[k as int]);
            return false;
        }
        k = k + 1;
    }
    assert(haystack@.subrange(i as int, i + needle@.len()) =~= needle@);
    true
}

fn find_all(haystack: &[u8], needle: &[u8]) -> (hits: Vec<usize>)
    ensures
        offsets_view(hits@) == spec_hits(haystack@, needle@),
{
    let mut hits: Vec<usize> = Vec::new();
    if needle.len() == 0 || needle.len() > haystack.len() {
        return hits;
    }
    let mut i: usize = 0;
    while i <= haystack.len() - needle.len()
        invariant
            0 < needle@.len() <= haystack@.len(),
            i <= haystack@.len() - needle@.len() + 1,
            offsets_view(hits@) + hits_from(haystack@, needle@, i as int) == spec_hits(
                haystack@,
                needle@,
            ),
        decreases haystack@.len() - i,
    {
        let ghost before = offsets_view(hits@);
        if matches_at(haystack, needle, i) {
            hits.push(i);
            proof {
                assert(offsets_view(hits@) =~= before.push(i as int));
                assert(before.push(i as int) + hits_from(haystack@, needle@, i + 1) =~= before
                    + hits_from(haystack@, needle@, i as int));
            }
        }
        i = i + 1;
    }
    proof {
        assert(hits_from(haystack@, needle@, i as int) =~= Seq::<int>::empty());
        assert(offsets_view(hits@) =~= spec_hits(haystack@, needle@));
    }
    hits
}

// ---------------------------------------------------------------------------
// Text patching
// ---------------------------------------------------------------------------

/// `n` zero bytes.
pub open spec fn zeros(n: nat) -> Seq<u8> {
    Seq::new(n, |_i: int| 0u8)
}

/// The bytes `patch_text` writes: the new text, then zeros up to the old
/// text's length.
pub open spec fn text_replacement(old: Seq<u8>, new: Seq<u8>) -> Seq<u8> {
    new + zeros((old.len() - new.len()) as nat)
}

/// The hint given when a text occurs more than once.
pub open spec fn text_ambiguity_hint() -> Seq<char> {
    "use a more specific/longer OLDTEXT"@
}

/// Offsets as `usize` values.
pub open spec fn as_usizes(s: Seq<int>) -> Seq<usize> {
    s.map_values(|i: int| i as usize)
}

/// What `patch_text` returns and the file afterwards: the unique match of
/// the old text is overwritten by the new one, zero-padded to the old
/// length; a longer new text, a missing or a repeated old text is refused.
pub open spec fn spec_patch_text(data: Seq<u8>, old: Seq<char>, new: Seq<char>) -> Result<
    (usize, Seq<u8>),
    TftErrorModel,
> {
    let ob = encode_utf8(old);
    let nb = encode_utf8(new);
    let hits = spec_hits(data, ob);
    if nb.len() > ob.len() {
        Err(TftErrorModel::TextTooLong(old, TEXT_SLOT_LEN))
    } else if hits.len() == 0 {
        Err(TftErrorModel::NotFound(old))
    } else if hits.len() > 1 {
        Err(
            TftErrorModel::Ambiguous {
                needle: old,
                count: hits.len() as usize,
                offsets: as_usizes(hits),
                hint: text_ambiguity_hint(),
            },
        )
    } else {
        Ok((hits[0] as usize, splice(data, hits[0], text_replacement(ob, nb))))
    }
}

/// Rewrite a text-pool slot in place: search for `old`, and if exactly one
/// match is found, overwrite it with `new` NUL-padded to the same byte span
/// `old` occupied. `new` must not be longer than `old`: the slot boundary
/// isn't known here, so a longer replacement would overflow into whatever
/// follows.
pub fn patch_text(data: &mut [u8], old_text: &str, new_text: &str) -> (r: Result<usize, TftError>)
    ensures
        match spec_patch_text(old(data)@, old_text@, new_text@) {
            Ok((off, d)) => r == Ok::<usize, TftError>(off) && final(data)@ == d,
            Err(e) => final(data)@ == old(data)@ && (r matches Err(e2) && e2@ == e),
        },
        final(data)@.len() == old(data)@.len(),
{
    let old_b = old_text.as_bytes();
    let new_b = new_text.as_bytes();
    if new_b.len() > old_b.len() {
        return Err(TftError::TextTooLong(String::from_str(old_text), TEXT_SLOT_LEN));
    }
    let hits = find_all(data, old_b);
    if hits.len() == 0 {
        return Err(TftError::NotFound(String::from_str(old_text)));
    }
    if hits.len() > 1 {
        let count = hits.len();
        proof {
            lemma_as_usizes(hits@);
        }
        return Err(
            TftError::Ambiguous {
                needle: String::from_str(old_text),
                count,
                offsets: hits,
                hint: String::from_str("use a more specific/longer OLDTEXT"),
            },
        );
    }
    let off = hits[0];
    proof {
        lemma_hits_are_matches(data@, old_b@, 0);
        assert(offsets_view(hits@)[0] == off);
    }
    let ghost d0 = data@;
    let dl = data.len();
    let mut k: usize = 0;
    while k < old_b.len()
        invariant
            dl == data@.len(),
            off + old_b@.len() <= data@.len(),
            data@.len() == d0.len(),
            new_b@.len() <= old_b@.len(),
            k <= old_b@.len(),
            data@ == splice(d0, off as int, text_replacement(old_b@, new_b@).subrange(0, k as int)),
        decreases old_b@.len() - k,
    {
        let b = if k < new_b.len() {
            new_b[k]
        } else {
            0u8
        };
        assert(b == text_replacement(old_b@, new_b@)[k as int]);
        data[off + k] = b;
        k = k + 1;
        assert(data@ =~= splice(
            d0,
            off as int,
            text_replacement(old_b@, new_b@).subrange(0, k as int),
        ));
    }
    assert(text_replacement(old_b@, new_b@).subrange(0, old_b@.len() as int) =~= text_replacement(
        old_b@,
        new_b@,
    ));
    Ok(off)
}

// ---------------------------------------------------------------------------
// Geometry patching
// ---------------------------------------------------------------------------

/// The two little-endian bytes of a `u16`.
pub open spec fn le16_bytes(v: u16) -> Seq<u8> {
    seq![(v % 256) as u8, (v / 256) as u8]
}

/// The 8 bytes of an `x,y,w,h` quad as stored in a record.
pub open spec fn geom_bytes(g: Geometry) -> Seq<u8> {
    le16_bytes(g.0) + le16_bytes(g.1) + le16_bytes(g.2) + le16_bytes(g.3)
}

/// `x,y,w,h` in decimal, comma-separated.
pub open spec fn geom_desc(g: Geometry) -> Seq<char> {
    dec(g.0 as nat) + seq![','] + dec(g.1 as nat) + seq![','] + dec(g.2 as nat) + seq![',']
        + dec(g.3 as nat)
}

/// Whether `x+w` and `y+h` are `u16` values and at least 1, so that `x+w-1`
/// and `y+h-1` can be computed.
pub open spec fn geom_ends_fit(g: Geometry) -> bool {
    1 <= g.0 + g.2 <= 65535 && 1 <= g.1 + g.3 <= 65535
}

/// The 12 bytes `patch_geom` writes: the new quad, then `endx`, `endy`.
pub open spec fn geom_record_bytes(g: Geometry) -> Seq<u8> {
    geom_bytes(g) + le16_bytes((g.0 + g.2 - 1) as u16) + le16_bytes((g.1 + g.3 - 1) as u16)
}

/// The hint given when a quad occurs more than once and no offset was given.
pub open spec fn geom_ambiguity_hint() -> Seq<char> {
    "re-run with --at OFFSET to pick one"@
}

/// The offset `patch_geom` would rewrite, if the search succeeds.
pub open spec fn geom_target(data: Seq<u8>, old: Geometry, at: Option<usize>) -> Option<int> {
    let hits = spec_hits(data, geom_bytes(old));
    if hits.len() == 0 {
        None
    } else {
        match at {
            Some(off) => if hits.contains(off as int) {
                Some(off as int)
            } else {
                None
            },
            None => if hits.len() > 1 {
                None
            } else {
                Some(hits[0])
            },
        }
    }
}

fn push_u16_le(v: &mut Vec<u8>, x: u16)
    ensures
        final(v)@ == old(v)@ + le16_bytes(x),
{
    let ghost start = v@;
    v.push((x % 256) as u8);
    v.push((x / 256) as u8);
    assert(v@ =~= start + le16_bytes(x));
}

fn geom_needle(g: Geometry) -> (v: Vec<u8>)
    ensures
        v@ == geom_bytes(g),
{
    let mut v: Vec<u8> = Vec::new();
    push_u16_le(&mut v, g.0);
    push_u16_le(&mut v, g.1);
    push_u16_le(&mut v, g.2);
    push_u16_le(&mut v, g.3);
    assert(v@ =~= geom_bytes(g));
    v
}

fn geom_description(g: Geometry) -> (s: String)
    ensures
        s@ == geom_desc(g),
{
    let mut s = String::new();
    push_digits(&mut s, g.0 as u64, 10);
    s.push(',');
    push_digits(&mut s, g.1 as u64, 10);
    s.push(',');
    push_digits(&mut s, g.2 as u64, 10);
    s.push(',');
    push_digits(&mut s, g.3 as u64, 10);
    assert(s@ =~= geom_desc(g));
    s
}

fn contains_offset(hits: &Vec<usize>, off: usize) -> (r: bool)
    ensures
        r == offsets_view(hits@).contains(off as int),
{
    let mut i: usize = 0;
    while i < hits.len()
        invariant
            i <= hits@.len(),
            forall|j: int| 0 <= j < i ==> hits@[j] != off,
        decreases hits@.len() - i,
    {
        if hits[i] == off {
            assert(offsets_view(hits@)[i as int] == off as int);
            return true;
        }
        i = i + 1;
    }
    proof {
        if offsets_view(hits@).contains(off as int) {
            let j = choose|j: int| 0 <= j < hits@.len() && offsets_view(hits@)[j] == off as int;
            assert(hits@[j] == off);
        }
    }
    false
}

fn hex_offsets(hits: &Vec<usize>) -> (v: Vec<String>)
    ensures
        v@.len() == hits@.len(),
        forall|k: int| 0 <= k < v@.len() ==> #[trigger] v@[k]@ == hex_prefixed(hits@[k] as nat),
{
    let mut v: Vec<String> = Vec::new();
    let mut i: usize = 0;
    while i < hits.len()
        invariant
            i <= hits@.len(),
            v@.len() == i,
            forall|k: int| 0 <= k < i ==> #[trigger] v@[k]@ == hex_prefixed(hits@[k] as nat),
        decreases hits@.len() - i,
    {
        let mut s = String::new();
        push_hex_prefixed(&mut s, hits[i] as u64);
        v.push(s);
        i = i + 1;
    }
    v
}

/// Whether `patch_geom` would panic: the chosen quad has no room for
/// `endx`/`endy` after it, or the new end coordinates do not exist.
pub open spec fn geom_would_panic(data: Seq<u8>, old: Geometry, new: Geometry, at: Option<usize>) -> bool {
    geom_target(data, old, at) matches Some(off) && !(off + 12 <= data.len() && geom_ends_fit(new))
}

/// What `patch_geom` returns and the file afterwards, where it does not
/// panic.
pub open spec fn spec_patch_geom(data: Seq<u8>, old: Geometry, new: Geometry, at: Option<usize>) -> Result<
    (usize, Seq<u8>),
    TftErrorModel,
> {
    let hits = spec_hits(data, geom_bytes(old));
    match geom_target(data, old, at) {
        Some(off) => Ok((off as usize, splice(data, off, geom_record_bytes(new)))),
        None => if hits.len() == 0 {
            Err(TftErrorModel::NotFound(geom_desc(old)))
        } else if at is Some {
            Err(
                TftErrorModel::OffsetNotAMatch(
                    at.unwrap(),
                    hits.map_values(|h: int| hex_prefixed(h as nat)),
                ),
            )
        } else {
            Err(
                TftErrorModel::Ambiguous {
                    needle: geom_desc(old),
                    count: hits.len() as usize,
                    offsets: as_usizes(hits),
                    hint: geom_ambiguity_hint(),
                },
            )
        },
    }
}

/// Rewrite an `x,y,w,h` geometry quad in place, recomputing `endx`/`endy`
/// (`x+w-1`, `y+h-1`) at the following 4 bytes. If more than one match
/// exists, `at` disambiguates by absolute file offset (must be one of the
/// found offsets); otherwise ambiguity is an error.
pub fn patch_geom(data: &mut [u8], old_geom: Geometry, new_geom: Geometry, at: Option<usize>) -> (r: Result<
    usize,
    TftError,
>)
    requires
        !geom_would_panic(old(data)@, old_geom, new_geom, at),
    ensures
        match spec_patch_geom(old(data)@, old_geom, new_geom, at) {
            Ok((off, d)) => r == Ok::<usize, TftError>(off) && final(data)@ == d,
            Err(e) => final(data)@ == old(data)@ && (r matches Err(e2) && e2@ == e),
        },
        final(data)@.len() == old(data)@.len(),
{
    let (nx, ny, nw, nh) = new_geom;
    let needle = geom_needle(old_geom);
    let hits = find_all(data, needle.as_slice());
    let old_desc = geom_description(old_geom);
    if hits.len() == 0 {
        return Err(TftError::NotFound(old_desc));
    }
    let off = match at {
        Some(off) => {
            if !contains_offset(&hits, off) {
                let strs = hex_offsets(&hits);
                proof {
                    assert forall|k: int| 0 <= k < hits@.len() implies #[trigger] strs@[k]@
                        == hex_prefixed(offsets_view(hits@)[k] as nat) by {
                        assert(offsets_view(hits@)[k] == hits@[k] as int);
                    }
                    assert(strs@.map_values(|x: String| x@) =~= offsets_view(hits@).map_values(
                        |h: int| hex_prefixed(h as nat),
                    ));
                }
                return Err(TftError::OffsetNotAMatch(off, strs));
            }
            off
        },
        None => {
            if hits.len() > 1 {
                let count = hits.len();
                proof {
                    lemma_as_usizes(hits@);
                }
                return Err(
                    TftError::Ambiguous {
                        needle: old_desc,
                        count,
                        offsets: hits,
                        hint: String::from_str("re-run with --at OFFSET to pick one"),
                    },
                );
            }
            assert(offsets_view(hits@)[0] == hits@[0] as int);
            hits[0]
        },
    };
    assert(geom_target(data@, old_geom, at) == Some(off as int));
    let endx = nx + nw - 1;
    let endy = ny + nh - 1;
    let mut bytes: Vec<u8> = Vec::new();
    push_u16_le(&mut bytes, nx);
    push_u16_le(&mut bytes, ny);
    push_u16_le(&mut bytes, nw);
    push_u16_le(&mut bytes, nh);
    push_u16_le(&mut bytes, endx);
    push_u16_le(&mut bytes, endy);
    assert(bytes@ =~= geom_record_bytes(new_geom));
    write_at(data, off, bytes.as_slice());
    Ok(off)
}

/// Whether `patch_geom` would panic on these arguments: the quad it would
/// rewrite is followed by fewer than the 4 bytes of `endx`/`endy`, or the
/// new `x + w` or `y + h` is 0 or above 65535.
pub fn patch_geom_panics(data: &[u8], old_geom: Geometry, new_geom: Geometry, at: Option<usize>) -> (r:
    bool)
    ensures
        r == geom_would_panic(data@, old_geom, new_geom, at),
{
    let needle = geom_needle(old_geom);
    let hits = find_all(data, needle.as_slice());
    if hits.len() == 0 {
        return false;
    }
    let off = match at {
        Some(off) => {
            if !contains_offset(&hits, off) {
                return false;
            }
            off
        },
        None => {
            if hits.len() > 1 {
                return false;
            }
            assert(offsets_view(hits@)[0] == hits@[0] as int);
            hits[0]
        },
    };
    assert(geom_target(data@, old_geom, at) == Some(off as int));
    let (nx, ny, nw, nh) = new_geom;
    let ex = nx as u32 + nw as u32;
    let ey = ny as u32 + nh as u32;
    let fits = 1 <= ex && ex <= 65535 && 1 <= ey && ey <= 65535;
    !(off <= data.len() && 12 <= data.len() - off && fits)
}

fn write_at(data: &mut [u8], off: usize, bytes: &[u8])
    requires
        off + bytes@.len() <= old(data)@.len(),
    ensures
        final(data)@ == splice(old(data)@, off as int, bytes@),
{
    let ghost d0 = data@;
    let dl = data.len();
    let mut k: usize = 0;
    while k < bytes.len()
        invariant
            dl == data@.len(),
            off + bytes@.len() <= data@.len(),
            d0.len() == data@.len(),
            k <= bytes@.len(),
            data@ == splice(d0, off as int, bytes@.subrange(0, k as int)),
        decreases bytes@.len() - k,
    {
        data[off + k] = bytes[k];
        k = k + 1;
        assert(data@ =~= splice(d0, off as int, bytes@.subrange(0, k as int)));
    }
    assert(bytes@.subrange(0, bytes@.len() as int) =~= bytes@);
}

/// The hint given when a geometry quad locating a record is not unique.
pub open spec fn record_ambiguity_hint() -> Seq<char> {
    "geometry quad is not unique in this file"@
}

/// Whether `find_text_record_by_geometry` would panic: the quad's only
/// match is too close to the file's start for a record to begin before it.
pub open spec fn find_record_would_panic(data: Seq<u8>, geom: Geometry) -> bool {
    spec_hits(data, geom_bytes(geom)).len() == 1 && spec_hits(data, geom_bytes(geom))[0]
        < text_record_offset::X
}

/// Whether `find_text_record_by_geometry` would panic on these arguments.
pub fn find_record_panics(data: &[u8], geom: Geometry) -> (r: bool)
    ensures
        r == find_record_would_panic(data@, geom),
{
    let needle = geom_needle(geom);
    let hits = find_all(data, needle.as_slice());
    if hits.len() != 1 {
        return false;
    }
    assert(offsets_view(hits@)[0] == hits@[0] as int);
    hits[0] < text_record_offset::X
}

/// The record start of the unique match of a quad, or why there is none.
pub open spec fn spec_find_record(data: Seq<u8>, geom: Geometry) -> Result<usize, TftErrorModel> {
    let hits = spec_hits(data, geom_bytes(geom));
    if hits.len() == 0 {
        Err(TftErrorModel::NotFound(geom_desc(geom)))
    } else if hits.len() > 1 {
        Err(
            TftErrorModel::Ambiguous {
                needle: geom_desc(geom),
                count: hits.len() as usize,
                offsets: as_usizes(hits),
                hint: record_ambiguity_hint(),
            },
        )
    } else {
        Ok((hits[0] - text_record_offset::X) as usize)
    }
}

/// Find the (unique) record-start offset for a component by its `x,y,w,h`
/// quad: the quad's offset minus 0x10.
pub fn find_text_record_by_geometry(data: &[u8], geom: Geometry) -> (r: Result<usize, TftError>)
    requires
        !find_record_would_panic(data@, geom),
    ensures
        match spec_find_record(data@, geom) {
            Ok(off) => r == Ok::<usize, TftError>(off),
            Err(e) => r matches Err(e2) && e2@ == e,
        },
{
    let needle = geom_needle(geom);
    let hits = find_all(data, needle.as_slice());
    let desc = geom_description(geom);
    if hits.len() == 0 {
        return Err(TftError::NotFound(desc));
    }
    if hits.len() > 1 {
        let count = hits.len();
        proof {
            lemma_as_usizes(hits@);
        }
        return Err(
            TftError::Ambiguous {
                needle: desc,
                count,
                offsets: hits,
                hint: String::from_str("geometry quad is not unique in this file"),
            },
        );
    }
    assert(offsets_view(hits@)[0] == hits@[0] as int);
    Ok(hits[0] - text_record_offset::X)
}

/// The text `record at 0x..: would extend past end of file`.
pub open spec fn past_end_message(record_start: nat) -> Seq<char> {
    "record at "@ + hex_prefixed(record_start) + " would extend past end of file"@
}

fn past_end(record_start: usize) -> (e: TftError)
    ensures
        e matches TftError::NotFound(s) && s@ == past_end_message(record_start as nat),
{
    let mut s = String::from_str("record at ");
    push_hex_prefixed(&mut s, record_start as u64);
    s.append(" would extend past end of file");
    TftError::NotFound(s)
}

/// `data` with an optional `u16` written little-endian at `at`.
pub open spec fn put_u16(data: Seq<u8>, at: int, v: Option<u16>) -> Seq<u8> {
    match v {
        Some(x) => splice(data, at, le16_bytes(x)),
        None => data,
    }
}

/// `data` with an optional byte written at `at`.
pub open spec fn put_u8(data: Seq<u8>, at: int, v: Option<u8>) -> Seq<u8> {
    match v {
        Some(x) => data.update(at, x),
        None => data,
    }
}

/// A text record's `pco` and `font` written, or the record does not fit in
/// the file.
pub open spec fn spec_patch_text_record(
    data: Seq<u8>,
    record_start: int,
    pco: Option<u16>,
    font: Option<u8>,
) -> Result<Seq<u8>, TftErrorModel> {
    if record_start + TEXT_RECORD_LEN > data.len() {
        Err(TftErrorModel::NotFound(past_end_message(record_start as nat)))
    } else {
        Ok(
            put_u8(
                put_u16(data, record_start + text_record_offset::PCO, pco),
                record_start + text_record_offset::FONT,
                font,
            ),
        )
    }
}

/// A button record's `bco`, `bco2` and `font` written, or the record does
/// not fit in the file.
pub open spec fn spec_patch_button_record(
    data: Seq<u8>,
    record_start: int,
    bco: Option<u16>,
    bco2: Option<u16>,
    font: Option<u8>,
) -> Result<Seq<u8>, TftErrorModel> {
    if record_start + TEXT_RECORD_LEN > data.len() {
        Err(TftErrorModel::NotFound(past_end_message(record_start as nat)))
    } else {
        Ok(
            put_u8(
                put_u16(
                    put_u16(data, record_start + button_record_offset::BCO, bco),
                    record_start + button_record_offset::BCO2,
                    bco2,
                ),
                record_start + button_record_offset::FONT,
                font,
            ),
        )
    }
}

fn write_opt_u16(data: &mut [u8], at: usize, v: Option<u16>)
    requires
        at + 2 <= old(data)@.len(),
    ensures
        final(data)@ == put_u16(old(data)@, at as int, v),
{
    match v {
        Some(x) => {
            let ghost d0 = data@;
            data[at] = (x % 256) as u8;
            data[at + 1] = (x / 256) as u8;
            assert(data@ =~= splice(d0, at as int, le16_bytes(x)));
        },
        None => {},
    }
}

/// Overwrite the confirmed-safe fields of a text-type (`t`) component's
/// 84-byte record: `pco` (text color) and `font` (font id).
pub fn patch_component_color_font(
    data: &mut [u8],
    record_start: usize,
    pco: Option<u16>,
    font: Option<u8>,
) -> (r: Result<(), TftError>)
    requires
        record_start + TEXT_RECORD_LEN <= usize::MAX,
    ensures
        match spec_patch_text_record(old(data)@, record_start as int, pco, font) {
            Ok(d) => r is Ok && final(data)@ == d,
            Err(e) => final(data)@ == old(data)@ && (r matches Err(e2) && e2@ == e),
        },
{
    if record_start + TEXT_RECORD_LEN > data.len() {
        return Err(past_end(record_start));
    }
    write_opt_u16(data, record_start + text_record_offset::PCO, pco);
    match font {
        Some(f) => {
            data[record_start + text_record_offset::FONT] = f;
        },
        None => {},
    }
    Ok(())
}

/// Overwrite the confirmed-safe fields of a button-type (`b`) component's
/// 84-byte record: `bco`, `bco2` (background colors) and `font`.
pub fn patch_button_color_font(
    data: &mut [u8],
    record_start: usize,
    bco: Option<u16>,
    bco2: Option<u16>,
    font: Option<u8>,
) -> (r: Result<(), TftError>)
    requires
        record_start + TEXT_RECORD_LEN <= usize::MAX,
    ensures
        match spec_patch_button_record(old(data)@, record_start as int, bco, bco2, font) {
            Ok(d) => r is Ok && final(data)@ == d,
            Err(e) => final(data)@ == old(data)@ && (r matches Err(e2) && e2@ == e),
        },
{
    if record_start + TEXT_RECORD_LEN > data.len() {
        return Err(past_end(record_start));
    }
    write_opt_u16(data, record_start + button_record_offset::BCO, bco);
    write_opt_u16(data, record_start + button_record_offset::BCO2, bco2);
    match font {
        Some(f) => {
            data[record_start + button_record_offset::FONT] = f;
        },
        None => {},
    }
    Ok(())
}

// ---------------------------------------------------------------------------
// `--set` arguments
// ---------------------------------------------------------------------------

/// `OLDTEXT=NEWTEXT` split at its first `=`.
pub open spec fn spec_split_eq(s: Seq<char>) -> Option<(Seq<char>, Seq<char>)> {
    match find_in(s, '=', 0, s.len() as int) {
        Some(k) => Some((s.subrange(0, k), s.subrange(k + 1, s.len() as int))),
        None => None,
    }
}

/// Split an `OLDTEXT=NEWTEXT` argument at its first `=`.
pub fn parse_text_set_spec(spec: &str) -> (r: Result<(String, String), TftError>)
    ensures
        match spec_split_eq(spec@) {
            Some((a, b)) => r matches Ok(p) && p.0@ == a && p.1@ == b,
            None => r matches Err(TftError::BadTextSetSpec(s)) && s@ == spec@,
        },
{
    let cs = chars_of(spec);
    let n = cs.len();
    match find_char(&cs, '=', 0, n) {
        Some(k) => Ok((string_from_chars(&cs, 0, k), string_from_chars(&cs, k + 1, n))),
        None => Err(TftError::BadTextSetSpec(String::from_str(spec))),
    }
}

/// One comma-separated coordinate: trimmed, then read as a decimal `u16`.
pub open spec fn spec_coord(s: Seq<char>) -> Option<u16> {
    match spec_parse_uint(trim(s), 10, 65535) {
        Ok(v) => Some(v as u16),
        Err(_) => None,
    }
}

/// Exactly four comma-separated coordinates.
pub open spec fn spec_parse_quad(s: Seq<char>) -> Option<Geometry> {
    let n = s.len() as int;
    match find_in(s, ',', 0, n) {
        None => None,
        Some(c1) => match find_in(s, ',', c1 + 1, n) {
            None => None,
            Some(c2) => match find_in(s, ',', c2 + 1, n) {
                None => None,
                Some(c3) => if find_in(s, ',', c3 + 1, n) is Some {
                    None
                } else {
                    match (
                        spec_coord(s.subrange(0, c1)),
                        spec_coord(s.subrange(c1 + 1, c2)),
                        spec_coord(s.subrange(c2 + 1, c3)),
                        spec_coord(s.subrange(c3 + 1, n)),
                    ) {
                        (Some(a), Some(b), Some(c), Some(d)) => Some((a, b, c, d)),
                        _ => None,
                    }
                },
            },
        },
    }
}

/// `X,Y,W,H=NEWX,NEWY,NEWW,NEWH` read as two quads.
pub open spec fn spec_parse_geom_set(s: Seq<char>) -> Option<(Geometry, Geometry)> {
    match spec_split_eq(s) {
        None => None,
        Some((a, b)) => match (spec_parse_quad(a), spec_parse_quad(b)) {
            (Some(o), Some(n)) => Some((o, n)),
            _ => None,
        },
    }
}

fn parse_coord(cs: &Vec<char>, from: usize, to: usize) -> (r: Option<u16>)
    requires
        from <= to <= cs@.len(),
    ensures
        r == spec_coord(cs@.subrange(from as int, to as int)),
{
    let mut sub: Vec<char> = Vec::new();
    let mut i = from;
    while i < to
        invariant
            from <= i <= to <= cs@.len(),
            sub@ == cs@.subrange(from as int, i as int),
        decreases to - i,
    {
        sub.push(cs[i]);
        i = i + 1;
        assert(sub@ =~= cs@.subrange(from as int, i as int));
    }
    let (a, b) = trim_bounds(&sub);
    match parse_uint(&sub, a, b, 10, 65535) {
        Ok(v) => Some(v as u16),
        Err(_) => None,
    }
}

fn parse_quad(cs: &Vec<char>, from: usize, to: usize) -> (r: Option<Geometry>)
    requires
        from <= to <= cs@.len(),
    ensures
        r == spec_parse_quad(cs@.subrange(from as int, to as int)),
{
    let ghost s = cs@.subrange(from as int, to as int);
    let mut sub: Vec<char> = Vec::new();
    let mut i = from;
    while i < to
        invariant
            from <= i <= to <= cs@.len(),
            sub@ == cs@.subrange(from as int, i as int),
        decreases to - i,
    {
        sub.push(cs[i]);
        i = i + 1;
        assert(sub@ =~= cs@.subrange(from as int, i as int));
    }
    assert(sub@ == s);
    let n = sub.len();
    let c1 = match find_char(&sub, ',', 0, n) {
        Some(k) => k,
        None => {
            return None;
        },
    };
    let c2 = match find_char(&sub, ',', c1 + 1, n) {
        Some(k) => k,
        None => {
            return None;
        },
    };
    let c3 = match find_char(&sub, ',', c2 + 1, n) {
        Some(k) => k,
        None => {
            return None;
        },
    };
    if find_char(&sub, ',', c3 + 1, n).is_some() {
        return None;
    }
    let a = parse_coord(&sub, 0, c1);
    let b = parse_coord(&sub, c1 + 1, c2);
    let c = parse_coord(&sub, c2 + 1, c3);
    let d = parse_coord(&sub, c3 + 1, n);
    match (a, b, c, d) {
        (Some(a), Some(b), Some(c), Some(d)) => Some((a, b, c, d)),
        _ => None,
    }
}

/// Read an `X,Y,W,H=NEWX,NEWY,NEWW,NEWH` argument into the old and new quads.
pub fn parse_geom_set_spec(spec: &str) -> (r: Result<(Geometry, Geometry), TftError>)
    ensures
        match spec_parse_geom_set(spec@) {
            Some(p) => r == Ok::<(Geometry, Geometry), TftError>(p),
            None => r matches Err(TftError::BadGeomSetSpec(s)) && s@ == spec@,
        },
{
    let cs = chars_of(spec);
    let n = cs.len();
    let k = match find_char(&cs, '=', 0, n) {
        Some(k) => k,
        None => {
            return Err(TftError::BadGeomSetSpec(String::from_str(spec)));
        },
    };
    let old = match parse_quad(&cs, 0, k) {
        Some(q) => q,
        None => {
            return Err(TftError::BadGeomSetSpec(String::from_str(spec)));
        },
    };
    let new = match parse_quad(&cs, k + 1, n) {
        Some(q) => q,
        None => {
            return Err(TftError::BadGeomSetSpec(String::from_str(spec)));
        },
    };
    Ok((old, new))
}

/// A quad written as text: its four numbers in decimal, joined by commas.
pub open spec fn quad_text(g: Geometry) -> Seq<char> {
    dec(g.0 as nat) + seq![','] + dec(g.1 as nat) + seq![','] + dec(g.2 as nat) + seq![','] + dec(
        g.3 as nat,
    )
}

proof fn lemma_coord_text(v: u16)
    ensures
        spec_coord(dec(v as nat)) == Some(v),
{
    let d = dec(v as nat);
    lemma_dec_digits(v as nat);
    crate::target::lemma_trim_start_from(d, 0);
    assert(d.subrange(0, d.len() as int) =~= d);
    crate::target::lemma_trim_end_to(d, d.len() as int);
    assert(is_dec_digit(d[d.len() - 1]));
    lemma_parse_dec(v as nat, 65535);
}

/// The characters of a quad's text are decimal digits and commas only.
proof fn lemma_quad_text_chars(g: Geometry)
    ensures
        forall|i: int|
            0 <= i < quad_text(g).len() ==> is_dec_digit(#[trigger] quad_text(g)[i]) || quad_text(
                g,
            )[i] == ',',
{
    lemma_dec_digits(g.0 as nat);
    lemma_dec_digits(g.1 as nat);
    lemma_dec_digits(g.2 as nat);
    lemma_dec_digits(g.3 as nat);
}

proof fn lemma_parse_quad_text(g: Geometry)
    ensures
        spec_parse_quad(quad_text(g)) == Some(g),
{
    let a = dec(g.0 as nat);
    let b = dec(g.1 as nat);
    let c = dec(g.2 as nat);
    let d = dec(g.3 as nat);
    lemma_dec_digits(g.0 as nat);
    lemma_dec_digits(g.1 as nat);
    lemma_dec_digits(g.2 as nat);
    lemma_dec_digits(g.3 as nat);
    let s = quad_text(g);
    let n = s.len() as int;
    let c1 = a.len() as int;
    let c2 = c1 + 1 + b.len();
    let c3 = c2 + 1 + c.len();
    assert forall|j: int| 0 <= j < c1 implies s[j] != ',' by {
        assert(s[j] == a[j]);
    }
    assert forall|j: int| c1 + 1 <= j < c2 implies s[j] != ',' by {
        assert(s[j] == b[j - c1 - 1]);
    }
    assert forall|j: int| c2 + 1 <= j < c3 implies s[j] != ',' by {
        assert(s[j] == c[j - c2 - 1]);
    }
    assert forall|j: int| c3 + 1 <= j < n implies s[j] != ',' by {
        assert(s[j] == d[j - c3 - 1]);
    }
    lemma_find_in_at(s, ',', 0, n, c1);
    lemma_find_in_at(s, ',', c1 + 1, n, c2);
    lemma_find_in_at(s, ',', c2 + 1, n, c3);
    lemma_find_in_absent(s, ',', c3 + 1, n);
    assert(s.subrange(0, c1) =~= a);
    assert(s.subrange(c1 + 1, c2) =~= b);
    assert(s.subrange(c2 + 1, c3) =~= c);
    assert(s.subrange(c3 + 1, n) =~= d);
    lemma_coord_text(g.0);
    lemma_coord_text(g.1);
    lemma_coord_text(g.2);
    lemma_coord_text(g.3);
}

/// Two quads written as `X,Y,W,H=NEWX,NEWY,NEWW,NEWH` read back as
/// themselves.
pub proof fn lemma_geom_set_text_roundtrip(old_geom: Geometry, new_geom: Geometry)
    ensures
        spec_parse_geom_set(quad_text(old_geom) + seq!['='] + quad_text(new_geom)) == Some(
            (old_geom, new_geom),
        ),
{
    let a = quad_text(old_geom);
    let b = quad_text(new_geom);
    let s = a + seq!['='] + b;
    lemma_quad_text_chars(old_geom);
    assert forall|j: int| 0 <= j < a.len() implies s[j] != '=' by {
        assert(s[j] == a[j]);
    }
    lemma_find_in_at(s, '=', 0, s.len() as int, a.len() as int);
    assert(s.subrange(0, a.len() as int) =~= a);
    assert(s.subrange(a.len() as int + 1, s.len() as int) =~= b);
    lemma_parse_quad_text(old_geom);
    lemma_parse_quad_text(new_geom);
}

// ---------------------------------------------------------------------------
// The header and the patches, stated against the bytes
// ---------------------------------------------------------------------------

/// A header is accepted exactly when the file has at least 64 bytes, bytes
/// 2 and 3 are `44 4e`, the little-endian width at 0x0C is 800, the height
/// at 0x0E is 480, and the little-endian total size at 0x3C is the file's
/// length; it then reads as `(800, 480, length)`.
pub proof fn lemma_header_acceptance(data: Seq<u8>)
    ensures
        spec_parse_header(data) is Ok <==> (data.len() >= 64 && data[2] == 0x44 && data[3] == 0x4e
            && data[12] + 256 * data[13] == 800 && data[14] + 256 * data[15] == 480 && data[60]
            + 256 * data[61] + 65536 * data[62] + 16777216 * data[63] == data.len()),
        spec_parse_header(data) matches Ok(h) ==> h.0 == 800 && h.1 == 480 && h.2 == data.len(),
{
}

proof fn lemma_hits_ascend(h: Seq<u8>, needle: Seq<u8>, i: int)
    requires
        0 <= i,
    ensures
        forall|k: int|
            0 <= k < hits_from(h, needle, i).len() - 1 ==> #[trigger] hits_from(h, needle, i)[k]
                < hits_from(h, needle, i)[k + 1],
    decreases h.len() - i,
{
    if needle.len() == 0 || i + needle.len() > h.len() {
    } else {
        lemma_hits_ascend(h, needle, i + 1);
        lemma_hits_are_matches(h, needle, i + 1);
        let rest = hits_from(h, needle, i + 1);
        if is_match_at(h, needle, i) {
            let s = seq![i] + rest;
            assert forall|k: int| 0 <= k < s.len() - 1 implies #[trigger] s[k] < s[k + 1] by {
                assert(s[k + 1] == rest[k]);
                if k > 0 {
                    assert(s[k] == rest[k - 1]);
                }
            }
        }
    }
}

/// The offsets found are exactly the places where a non-empty needle
/// occurs: one offset exactly when it occurs once.
proof fn lemma_hits_unique(h: Seq<u8>, needle: Seq<u8>)
    requires
        needle.len() > 0,
    ensures
        spec_hits(h, needle).len() == 1 ==> is_match_at(h, needle, spec_hits(h, needle)[0])
            && forall|j: int| #[trigger] is_match_at(h, needle, j) ==> j == spec_hits(h, needle)[0],
        spec_hits(h, needle).len() == 0 ==> forall|j: int| !#[trigger] is_match_at(h, needle, j),
        spec_hits(h, needle).len() > 1 ==> is_match_at(h, needle, spec_hits(h, needle)[0])
            && is_match_at(h, needle, spec_hits(h, needle)[1]) && spec_hits(h, needle)[0]
            != spec_hits(h, needle)[1],
{
    lemma_hits_are_matches(h, needle, 0);
    lemma_hits_ascend(h, needle, 0);
    let hs = spec_hits(h, needle);
    assert forall|j: int| #[trigger] is_match_at(h, needle, j) implies hs.contains(j) by {
        assert(0 <= j);
    }
}

/// Patching text, stated against the bytes. It succeeds exactly when the
/// new text is no longer than the old one (in UTF-8 bytes) and the old
/// text's bytes occur in the file exactly once; it then returns that place,
/// writes the new text's bytes there, zeros after them up to the old
/// text's length, and changes nothing else.
pub proof fn lemma_patch_text_law(data: Seq<u8>, old: Seq<char>, new: Seq<char>)
    requires
        data.len() <= usize::MAX,
    ensures
        spec_patch_text(data, old, new) is Ok <==> (encode_utf8(new).len() <= encode_utf8(old).len()
            && encode_utf8(old).len() > 0 && exists|j: int| #[trigger]
            is_match_at(data, encode_utf8(old), j) && forall|k: int|
                #[trigger] is_match_at(data, encode_utf8(old), k) ==> k == j),
        spec_patch_text(data, old, new) matches Ok((off, d)) ==> {
            let ob = encode_utf8(old);
            let nb = encode_utf8(new);
            &&& off + ob.len() <= data.len()
            &&& data.subrange(off as int, off + ob.len()) == ob
            &&& d.len() == data.len()
            &&& forall|i: int|
                0 <= i < d.len() ==> #[trigger] d[i] == if off <= i < off + nb.len() {
                    nb[i - off]
                } else if off + nb.len() <= i < off + ob.len() {
                    0u8
                } else {
                    data[i]
                }
        },
{
    let ob = encode_utf8(old);
    let nb = encode_utf8(new);
    let hs = spec_hits(data, ob);
    lemma_hits_are_matches(data, ob, 0);
    if ob.len() > 0 {
        lemma_hits_unique(data, ob);
    }
    if nb.len() <= ob.len() && ob.len() > 0 && exists|j: int| #[trigger] is_match_at(data, ob, j)
        && forall|k: int| #[trigger] is_match_at(data, ob, k) ==> k == j {
        let j = choose|j: int| #[trigger] is_match_at(data, ob, j) && forall|k: int|
            #[trigger] is_match_at(data, ob, k) ==> k == j;
        assert(hs.contains(j)) by {
            lemma_hits_are_matches(data, ob, 0);
            assert(0 <= j);
        }
        if hs.len() > 1 {
            assert(hs[0] == j && hs[1] == j);
        }
    }
    if spec_patch_text(data, old, new) is Ok {
        assert(hs.len() == 1);
        let j = hs[0];
        assert(is_match_at(data, ob, j) && forall|k: int| #[trigger] is_match_at(data, ob, k) ==> k
            == j);
        let off = j;
        let rep = text_replacement(ob, nb);
        let d = splice(data, off, rep);
        assert(rep.len() == ob.len());
        assert(0 <= j && j + ob.len() <= data.len());
        assert((j as usize) as int == j);
        assert forall|i: int| 0 <= i < d.len() implies #[trigger] d[i] == if off <= i < off
            + nb.len() {
            nb[i - off]
        } else if off + nb.len() <= i < off + ob.len() {
            0u8
        } else {
            data[i]
        } by {
            if off <= i < off + ob.len() {
                assert(d[i] == rep[i - off]);
            }
        }
    }
}

/// Patching a geometry, stated against the bytes, where it does not panic.
/// It succeeds at an offset where the old quad's eight little-endian bytes
/// lie: the offset given, or else the only such place. There it writes the
/// new `x, y, w, h` little-endian, then `x + w - 1` and `y + h - 1`, and it
/// changes nothing else.
pub proof fn lemma_patch_geom_law(data: Seq<u8>, old_geom: Geometry, new_geom: Geometry, at: Option<usize>)
    requires
        data.len() <= usize::MAX,
        !geom_would_panic(data, old_geom, new_geom, at),
    ensures
        spec_patch_geom(data, old_geom, new_geom, at) matches Ok((off, d)) ==> {
            let (x, y, w, h) = old_geom;
            let (nx, ny, nw, nh) = new_geom;
            &&& off + 12 <= data.len()
            &&& data[off + 0] + 256 * data[off + 1] == x && data[off + 2] + 256 * data[off + 3] == y
            &&& data[off + 4] + 256 * data[off + 5] == w && data[off + 6] + 256 * data[off + 7] == h
            &&& (at matches Some(a) ==> off == a)
            &&& (at is None ==> forall|k: int|
                0 <= k && k + 8 <= data.len() && #[trigger] data[k] + 256 * data[k + 1] == x && data[k + 2]
                    + 256 * data[k + 3] == y && data[k + 4] + 256 * data[k + 5] == w && data[k + 6]
                    + 256 * data[k + 7] == h ==> k == off)
            &&& d.len() == data.len()
            &&& d[off + 0] + 256 * d[off + 1] == nx && d[off + 2] + 256 * d[off + 3] == ny
            &&& d[off + 4] + 256 * d[off + 5] == nw && d[off + 6] + 256 * d[off + 7] == nh
            &&& d[off + 8] + 256 * d[off + 9] == nx + nw - 1
            &&& d[off + 10] + 256 * d[off + 11] == ny + nh - 1
            &&& forall|i: int| 0 <= i < d.len() && !(off <= i < off + 12) ==> #[trigger] d[i] == data[i]
        },
{
    let gb = geom_bytes(old_geom);
    let hs = spec_hits(data, gb);
    if spec_patch_geom(data, old_geom, new_geom, at) is Ok {
        let off = geom_target(data, old_geom, at)->Some_0;
        lemma_hits_are_matches(data, gb, 0);
        assert(0 <= off && off + 12 <= data.len());
        assert((off as usize) as int == off);
        lemma_hits_unique(data, gb);
        assert(hs.contains(off));
        let k0 = choose|k0: int| 0 <= k0 < hs.len() && hs[k0] == off;
        assert(is_match_at(data, gb, off));
        let s8 = data.subrange(off, off + 8);
        assert(s8 == gb);
        assert(data[off + 0] == gb[0] && data[off + 1] == gb[1] && data[off + 2] == gb[2]
            && data[off + 3] == gb[3] && data[off + 4] == gb[4] && data[off + 5] == gb[5]
            && data[off + 6] == gb[6] && data[off + 7] == gb[7]);
        if at is None {
            assert forall|k: int|
                0 <= k && k + 8 <= data.len() && #[trigger] data[k] + 256 * data[k + 1] == old_geom.0 && data[k
                    + 2] + 256 * data[k + 3] == old_geom.1 && data[k + 4] + 256 * data[k + 5]
                    == old_geom.2 && data[k + 6] + 256 * data[k + 7] == old_geom.3 implies k == off by {
                assert(data.subrange(k, k + 8) =~= gb);
                assert(is_match_at(data, gb, k));
            }
        }
        let nbytes = geom_record_bytes(new_geom);
        let d = splice(data, off, nbytes);
        assert(nbytes.len() == 12);
        assert forall|i: int| 0 <= i < 12 implies d[off + i] == nbytes[i] by {}
        assert forall|i: int| 0 <= i < d.len() && !(off <= i < off + 12) implies #[trigger] d[i]
            == data[i] by {}
    }
}

/// Locating a record by its quad, stated against the bytes: where it
/// succeeds, the quad's eight little-endian bytes lie 0x10 bytes into the
/// record and nowhere else in the file; where the quad lies nowhere, the
/// search fails.
pub proof fn lemma_find_record_law(data: Seq<u8>, g: Geometry)
    requires
        data.len() <= usize::MAX,
        !find_record_would_panic(data, g),
    ensures
        spec_find_record(data, g) matches Ok(rs) ==> {
            let q = rs + 0x10;
            &&& q + 8 <= data.len()
            &&& data[q] + 256 * data[q + 1] == g.0 && data[q + 2] + 256 * data[q + 3] == g.1
            &&& data[q + 4] + 256 * data[q + 5] == g.2 && data[q + 6] + 256 * data[q + 7] == g.3
            &&& forall|k: int|
                0 <= k && k + 8 <= data.len() && #[trigger] data[k] + 256 * data[k + 1] == g.0
                    && data[k + 2] + 256 * data[k + 3] == g.1 && data[k + 4] + 256 * data[k + 5]
                    == g.2 && data[k + 6] + 256 * data[k + 7] == g.3 ==> k == q
        },
        (forall|k: int|
            0 <= k && k + 8 <= data.len() ==> !(#[trigger] data[k] + 256 * data[k + 1] == g.0
                && data[k + 2] + 256 * data[k + 3] == g.1 && data[k + 4] + 256 * data[k + 5] == g.2
                && data[k + 6] + 256 * data[k + 7] == g.3)) ==> spec_find_record(data, g) is Err,
{
    let gb = geom_bytes(g);
    let hs = spec_hits(data, gb);
    lemma_hits_are_matches(data, gb, 0);
    lemma_hits_unique(data, gb);
    if hs.len() == 1 {
        let j = hs[0];
        assert(is_match_at(data, gb, j));
        assert(data.subrange(j, j + 8) == gb);
        assert(data[j + 0] == gb[0] && data[j + 1] == gb[1] && data[j + 2] == gb[2] && data[j + 3]
            == gb[3] && data[j + 4] == gb[4] && data[j + 5] == gb[5] && data[j + 6] == gb[6]
            && data[j + 7] == gb[7]);
        assert(j >= 0x10);
        assert((((j - 0x10) as usize) as int) == j - 0x10);
        assert forall|k: int|
            0 <= k && k + 8 <= data.len() && #[trigger] data[k] + 256 * data[k + 1] == g.0 && data[k
                + 2] + 256 * data[k + 3] == g.1 && data[k + 4] + 256 * data[k + 5] == g.2 && data[k
                + 6] + 256 * data[k + 7] == g.3 implies k == j by {
            assert(data.subrange(k, k + 8) =~= gb);
            assert(is_match_at(data, gb, k));
        }
    }
    if hs.len() > 0 {
        let j = hs[0];
        assert(is_match_at(data, gb, j));
        assert(data.subrange(j, j + 8) == gb);
        assert(data[j + 0] == gb[0] && data[j + 1] == gb[1] && data[j + 2] == gb[2] && data[j + 3]
            == gb[3] && data[j + 4] == gb[4] && data[j + 5] == gb[5] && data[j + 6] == gb[6]
            && data[j + 7] == gb[7]);
        assert(0 <= j && j + 8 <= data.len());
    }
}

/// Writing a text record's colour and font, stated against the bytes: the
/// 84-byte record must lie inside the file; then `pco`, if given, is written
/// little-endian at +0x28 and `font`, if given, at +0x25, and nothing else
/// changes.
pub proof fn lemma_text_record_law(data: Seq<u8>, rs: int, pco: Option<u16>, font: Option<u8>)
    requires
        0 <= rs,
    ensures
        spec_patch_text_record(data, rs, pco, font) is Ok <==> rs + 84 <= data.len(),
        spec_patch_text_record(data, rs, pco, font) matches Ok(d) ==> {
            &&& d.len() == data.len()
            &&& pco matches Some(p) ==> d[rs + 0x28] + 256 * d[rs + 0x29] == p
            &&& font matches Some(f) ==> d[rs + 0x25] == f
            &&& forall|i: int|
                0 <= i < d.len() && !(pco is Some && (i == rs + 0x28 || i == rs + 0x29)) && !(
                font is Some && i == rs + 0x25) ==> #[trigger] d[i] == data[i]
        },
{
}

/// Writing a button record's colours and font, stated against the bytes:
/// the 84-byte record must lie inside the file; then `bco` is written
/// little-endian at +0x26, `bco2` at +0x28 and `font` at +0x25, each if
/// given, and nothing else changes.
pub proof fn lemma_button_record_law(
    data: Seq<u8>,
    rs: int,
    bco: Option<u16>,
    bco2: Option<u16>,
    font: Option<u8>,
)
    requires
        0 <= rs,
    ensures
        spec_patch_button_record(data, rs, bco, bco2, font) is Ok <==> rs + 84 <= data.len(),
        spec_patch_button_record(data, rs, bco, bco2, font) matches Ok(d) ==> {
            &&& d.len() == data.len()
            &&& bco matches Some(p) ==> d[rs + 0x26] + 256 * d[rs + 0x27] == p
            &&& bco2 matches Some(p) ==> d[rs + 0x28] + 256 * d[rs + 0x29] == p
            &&& font matches Some(f) ==> d[rs + 0x25] == f
            &&& forall|i: int|
                0 <= i < d.len() && !(bco is Some && (i == rs + 0x26 || i == rs + 0x27)) && !(
                bco2 is Some && (i == rs + 0x28 || i == rs + 0x29)) && !(font is Some && i == rs
                + 0x25) ==> #[trigger] d[i] == data[i]
        },
{
}

} // verus!
