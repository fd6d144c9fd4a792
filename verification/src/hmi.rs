//! Decode and patch Nextion `.HMI` project files.
//!
//! An `.HMI` file is a raw flash image in 512 KiB blocks: two mirrored
//! directory blocks, erased blocks, then the resource payload. The payload
//! holds attribute records `name(16) + value(N) + type(1) + pad(3)`; a
//! component starts at each `type` record, and a page at each `type` record
//! whose value is `y`.
//!
//! - [`patch_attr`] only supports same-byte-length overwrites. Anything that
//!   would change a resource's total size is out of scope.
//! - Large binary attribute values are delimited by "next recognizable
//!   16-byte name pattern", which is exact for plain string/int attributes
//!   and best-effort for blobs.

use vstd::prelude::*;
use vstd::utf8::encode_utf8;

pub mod readback;
pub mod select;
pub mod shape;

use crate::error::{HmiError, IntParseError};
use crate::strings::{
    all_ascii, ascii_chars, ascii_string, chars_of, dec, dec_string, find_char, find_in, hex2,
    is_all_ascii, nonempty, nonempty_string, parse_uint, push_hex2, spec_parse_uint, str_eq,
    string_from_chars,
};
use crate::target::{trim, trim_bounds};

verus! {

/// Superblock/erase-block size used by the `.HMI` container.
pub const BLOCK_SIZE: usize = 0x80000;

/// Length of an attribute record's NUL-padded name.
pub const NAME_LEN: usize = 16;

/// Type byte plus three pad bytes.
pub const TAIL_MIN_LEN: usize = 4;

/// Whether a byte may appear in an attribute name: ASCII letters, digits,
/// `_` and `-`.
pub open spec fn is_allowed(b: u8) -> bool {
    (48 <= b <= 57) || (65 <= b <= 90) || (97 <= b <= 122) || b == 95 || b == 45
}

fn is_allowed_byte(b: u8) -> (r: bool)
    ensures
        r == is_allowed(b),
{
    (48 <= b && b <= 57) || (65 <= b && b <= 90) || (97 <= b && b <= 122) || b == 95 || b == 45
}

// ---------------------------------------------------------------------------
// Attribute values and decoded records
// ---------------------------------------------------------------------------

/// A decoded attribute value, tagged the way it is displayed and the way
/// [`patch_attr`] decides how it may be rewritten.
#[derive(Debug, Clone, PartialEq, Eq)]
pub enum AttrValue {
    /// type byte `0x11`: ASCII string.
    Str(String),
    /// type byte `0x12` (except `txt`): little-endian unsigned integer.
    Int(u64),
    /// type byte `0x11` or `0x12`/`txt` whose bytes aren't ASCII -- most
    /// likely a large binary blob.
    Blob(Vec<u8>),
    /// Tail shorter than the minimum type+pad size.
    Raw(Vec<u8>),
    /// Tail's trailing 3 bytes weren't `00 00 00`.
    UnknownPad(Vec<u8>),
    /// A type byte other than `0x11`/`0x12`.
    Other(u8, Vec<u8>),
}

/// An attribute value as plain values.
pub enum AttrValueModel {
    Str(Seq<char>),
    Int(u64),
    Blob(Seq<u8>),
    Raw(Seq<u8>),
    UnknownPad(Seq<u8>),
    Other(u8, Seq<u8>),
}

impl View for AttrValue {
    type V = AttrValueModel;

    open spec fn view(&self) -> AttrValueModel {
        match self {
            AttrValue::Str(s) => AttrValueModel::Str(s@),
            AttrValue::Int(i) => AttrValueModel::Int(*i),
            AttrValue::Blob(b) => AttrValueModel::Blob(b@),
            AttrValue::Raw(b) => AttrValueModel::Raw(b@),
            AttrValue::UnknownPad(b) => AttrValueModel::UnknownPad(b@),
            AttrValue::Other(t, b) => AttrValueModel::Other(*t, b@),
        }
    }
}

/// Lowercase hex of every byte, two digits each.
pub open spec fn hex_bytes(bytes: Seq<u8>) -> Seq<char>
    decreases bytes.len(),
{
    if bytes.len() == 0 {
        Seq::empty()
    } else {
        hex_bytes(bytes.drop_last()) + hex2(bytes.last())
    }
}

/// The short tag naming a value's kind.
pub open spec fn spec_kind(v: AttrValueModel) -> Seq<char> {
    match v {
        AttrValueModel::Str(_) => "str"@,
        AttrValueModel::Int(_) => "int"@,
        AttrValueModel::Blob(_) => "blob"@,
        AttrValueModel::Raw(_) => "raw"@,
        AttrValueModel::UnknownPad(_) => "unknown-pad"@,
        AttrValueModel::Other(b, _) => "t0x"@ + hex2(b),
    }
}

/// How a value is displayed: strings as themselves, integers in decimal,
/// everything else as hex.
pub open spec fn spec_display(v: AttrValueModel) -> Seq<char> {
    match v {
        AttrValueModel::Str(s) => s,
        AttrValueModel::Int(i) => dec(i as nat),
        AttrValueModel::Blob(b) => hex_bytes(b),
        AttrValueModel::Raw(b) => hex_bytes(b),
        AttrValueModel::UnknownPad(b) => hex_bytes(b),
        AttrValueModel::Other(_, b) => hex_bytes(b),
    }
}

/// Appends the lowercase hex of every byte.
pub fn push_hex_bytes(s: &mut String, bytes: &[u8])
    ensures
        final(s)@ == old(s)@ + hex_bytes(bytes@),
{
    let ghost start = s@;
    let mut i: usize = 0;
    while i < bytes.len()
        invariant
            i <= bytes@.len(),
            s@ == start + hex_bytes(bytes@.subrange(0, i as int)),
        decreases bytes@.len() - i,
    {
        push_hex2(s, bytes[i]);
        proof {
            assert(bytes@.subrange(0, i + 1).drop_last() =~= bytes@.subrange(0, i as int));
        }
        i = i + 1;
    }
    assert(bytes@.subrange(0, bytes@.len() as int) =~= bytes@);
}

/// Lowercase hex of every byte, two digits each.
pub fn hex_encode(bytes: &[u8]) -> (s: String)
    ensures
        s@ == hex_bytes(bytes@),
{
    let mut s = String::new();
    push_hex_bytes(&mut s, bytes);
    s
}

impl AttrValue {
    /// Short tag naming the value's kind, used in patch error messages.
    pub fn kind(&self) -> (k: String)
        ensures
            k@ == spec_kind(self@),
    {
        match self {
            AttrValue::Str(_) => String::from_str("str"),
            AttrValue::Int(_) => String::from_str("int"),
            AttrValue::Blob(_) => String::from_str("blob"),
            AttrValue::Raw(_) => String::from_str("raw"),
            AttrValue::UnknownPad(_) => String::from_str("unknown-pad"),
            AttrValue::Other(b, _) => {
                let mut s = String::from_str("t0x");
                push_hex2(&mut s, *b);
                s
            },
        }
    }

    /// The value as displayed: strings as themselves, integers in decimal,
    /// everything else as lowercase hex.
    pub fn to_display_string(&self) -> (s: String)
        ensures
            s@ == spec_display(self@),
    {
        match self {
            AttrValue::Str(s) => s.clone(),
            AttrValue::Int(i) => dec_string(*i),
            AttrValue::Blob(b) => hex_encode(b.as_slice()),
            AttrValue::Raw(b) => hex_encode(b.as_slice()),
            AttrValue::UnknownPad(b) => hex_encode(b.as_slice()),
            AttrValue::Other(_, b) => hex_encode(b.as_slice()),
        }
    }
}

/// One decoded attribute record: `name(16) + value(N) + type(1) + pad(3)`.
#[derive(Debug, Clone, PartialEq, Eq)]
pub struct AttrRecord {
    /// Offset of the *name* field's first byte, relative to the start of the file.
    pub file_offset: usize,
    pub name: String,
    pub value: AttrValue,
    /// Length in bytes of just the value portion (excludes type+pad), i.e.
    /// the fixed width `patch_attr` must preserve for integer attributes.
    pub value_len: usize,
}

/// An attribute record as plain values.
pub struct AttrRecordModel {
    pub file_offset: usize,
    pub name: Seq<char>,
    pub value: AttrValueModel,
    pub value_len: usize,
}

impl View for AttrRecord {
    type V = AttrRecordModel;

    open spec fn view(&self) -> AttrRecordModel {
        AttrRecordModel {
            file_offset: self.file_offset,
            name: self.name@,
            value: self.value@,
            value_len: self.value_len,
        }
    }
}

/// One component: the run of attribute records from a `type` record on.
#[derive(Debug, Clone, Default)]
pub struct Component {
    /// Offset of this component's leading `type` record.
    pub file_offset: usize,
    pub objname: Option<String>,
    pub attrs: Vec<AttrRecord>,
}

/// A component as plain values.
pub struct ComponentModel {
    pub file_offset: usize,
    pub objname: Option<Seq<char>>,
    pub attrs: Seq<AttrRecordModel>,
}

/// The view of an optional string.
pub open spec fn opt_view(o: Option<String>) -> Option<Seq<char>> {
    match o {
        Some(s) => Some(s@),
        None => None,
    }
}

/// The views of a sequence of records.
pub open spec fn attrs_view(v: Seq<AttrRecord>) -> Seq<AttrRecordModel> {
    v.map_values(|a: AttrRecord| a@)
}

impl View for Component {
    type V = ComponentModel;

    open spec fn view(&self) -> ComponentModel {
        ComponentModel {
            file_offset: self.file_offset,
            objname: opt_view(self.objname),
            attrs: attrs_view(self.attrs@),
        }
    }
}

/// One page: its own container record's attributes and its components.
#[derive(Debug, Clone, Default)]
pub struct Page {
    pub objname: Option<String>,
    /// Attributes of the page's own container ('y'-type) record, if one was
    /// found leading the page. Empty for an implicit page.
    pub attrs: Vec<AttrRecord>,
    pub components: Vec<Component>,
}

/// A page as plain values.
pub struct PageModel {
    pub objname: Option<Seq<char>>,
    pub attrs: Seq<AttrRecordModel>,
    pub components: Seq<ComponentModel>,
}

/// The views of a sequence of components.
pub open spec fn comps_view(v: Seq<Component>) -> Seq<ComponentModel> {
    v.map_values(|c: Component| c@)
}

impl View for Page {
    type V = PageModel;

    open spec fn view(&self) -> PageModel {
        PageModel {
            objname: opt_view(self.objname),
            attrs: attrs_view(self.attrs@),
            components: comps_view(self.components@),
        }
    }
}

/// A decoded `.HMI` file.
#[derive(Debug, Clone)]
pub struct Decoded {
    pub payload_start: usize,
    pub pages: Vec<Page>,
}

/// A decoded file as plain values.
pub struct DecodedModel {
    pub payload_start: usize,
    pub pages: Seq<PageModel>,
}

/// The views of a sequence of pages.
pub open spec fn pages_view(v: Seq<Page>) -> Seq<PageModel> {
    v.map_values(|p: Page| p@)
}

impl View for Decoded {
    type V = DecodedModel;

    open spec fn view(&self) -> DecodedModel {
        DecodedModel { payload_start: self.payload_start, pages: pages_view(self.pages@) }
    }
}

// ---------------------------------------------------------------------------
// Locating the payload
// ---------------------------------------------------------------------------

/// Number of (possibly partial) blocks in the file.
pub open spec fn nblocks(len: int) -> int {
    len / (BLOCK_SIZE as int) + if len % (BLOCK_SIZE as int) != 0 {
        1int
    } else {
        0int
    }
}

/// The bytes of block `i` (the last block may be short).
pub open spec fn block(data: Seq<u8>, i: int) -> Seq<u8> {
    let start = i * BLOCK_SIZE;
    let end = if start + BLOCK_SIZE <= data.len() {
        start + BLOCK_SIZE
    } else {
        data.len() as int
    };
    data.subrange(start, end)
}

/// The first directory block.
pub open spec fn dir_block(data: Seq<u8>) -> Seq<u8> {
    data.subrange(
        0,
        if BLOCK_SIZE <= data.len() {
            BLOCK_SIZE as int
        } else {
            data.len() as int
        },
    )
}

/// Number of non-zero bytes.
pub open spec fn count_nonzero(s: Seq<u8>) -> nat
    decreases s.len(),
{
    if s.len() == 0 {
        0
    } else {
        count_nonzero(s.drop_last()) + if s.last() != 0 {
            1nat
        } else {
            0nat
        }
    }
}

/// Whether block `i` starts the payload: it differs from the directory and
/// more than 1000 of its bytes are non-zero.
pub open spec fn is_payload_block(data: Seq<u8>, i: int) -> bool {
    block(data, i) != dir_block(data) && count_nonzero(block(data, i)) > 1000
}

/// The first payload block at or after `i`.
pub open spec fn first_payload_block_from(data: Seq<u8>, i: int) -> Option<int>
    decreases nblocks(data.len() as int) - i,
{
    if i >= nblocks(data.len() as int) {
        None
    } else if is_payload_block(data, i) {
        Some(i)
    } else {
        first_payload_block_from(data, i + 1)
    }
}

/// Where the resource payload starts: the first block past the two
/// directory blocks that is a payload block.
pub open spec fn spec_payload_start(data: Seq<u8>) -> Option<int> {
    match first_payload_block_from(data, 2) {
        Some(i) => Some(i * BLOCK_SIZE),
        None => None,
    }
}

fn slices_equal(a: &[u8], b: &[u8]) -> (r: bool)
    ensures
        r == (a@ == b@),
{
    if a.len() != b.len() {
        return false;
    }
    let mut i: usize = 0;
    while i < a.len()
        invariant
            a@.len() == b@.len(),
            i <= a@.len(),
            forall|j: int| 0 <= j < i ==> a@[j] == b@[j],
        decreases a@.len() - i,
    {
        if a[i] != b[i] {
            return false;
        }
        i = i + 1;
    }
    assert(a@ =~= b@);
    true
}

fn nonzero_count(s: &[u8]) -> (n: usize)
    ensures
        n == count_nonzero(s@),
{
    let mut n: usize = 0;
    let mut i: usize = 0;
    while i < s.len()
        invariant
            i <= s@.len(),
            n <= i,
            n == count_nonzero(s@.subrange(0, i as int)),
        decreases s@.len() - i,
    {
        proof {
            assert(s@.subrange(0, i + 1).drop_last() =~= s@.subrange(0, i as int));
        }
        if s[i] != 0 {
            n = n + 1;
        }
        i = i + 1;
    }
    assert(s@.subrange(0, s@.len() as int) =~= s@);
    n
}

/// Locate the first block, past the mirrored directory blocks, that's mostly
/// non-zero: blocks 0/1 are the mirrored directory, blocks 2..N are
/// reserved/erased flash, and the resource payload starts at whichever
/// block first breaks that pattern.
pub fn find_payload_start(data: &[u8]) -> (r: Result<usize, HmiError>)
    ensures
        match spec_payload_start(data@) {
            Some(s) => r == Ok::<usize, HmiError>(s as usize) && s < data@.len(),
            None => r matches Err(e) && e == HmiError::PayloadNotFound,
        },
        r matches Ok(s) ==> s < data@.len() && spec_payload_start(data@) == Some(s as int),
{
    let len = data.len();
    let nb = len / BLOCK_SIZE + if len % BLOCK_SIZE != 0 {
        1
    } else {
        0
    };
    let dir_end = if BLOCK_SIZE <= len {
        BLOCK_SIZE
    } else {
        len
    };
    let dir = &data[0..dir_end];
    let mut i: usize = 2;
    while i < nb
        invariant
            len == data@.len(),
            nb == nblocks(len as int),
            dir@ == dir_block(data@),
            2 <= i,
            first_payload_block_from(data@, 2) == first_payload_block_from(data@, i as int),
        decreases nb - i,
    {
        assert(i * BLOCK_SIZE < len) by (nonlinear_arith)
            requires
                i < nb,
                nb == nblocks(len as int),
        ;
        let start = i * BLOCK_SIZE;
        let end = if len - start >= BLOCK_SIZE {
            start + BLOCK_SIZE
        } else {
            len
        };
        let blk = &data[start..end];
        assert(blk@ == block(data@, i as int));
        if !slices_equal(blk, dir) {
            let nz = nonzero_count(blk);
            if nz > 1000 {
                return Ok(start);
            }
        }
        i = i + 1;
    }
    Err(HmiError::PayloadNotFound)
}

// ---------------------------------------------------------------------------
// Scanning for attribute names
// ---------------------------------------------------------------------------

/// Index of the first byte at or after `k` that may not appear in a name.
pub open spec fn allowed_run(w: Seq<u8>, k: int) -> int
    decreases w.len() - k,
{
    if 0 <= k < w.len() && is_allowed(w[k]) {
        allowed_run(w, k + 1)
    } else {
        k
    }
}

/// The attribute name at `off`, if the 16 bytes there are a run of 1 or
/// more name bytes followed only by zeros.
pub open spec fn spec_name_at(p: Seq<u8>, off: int) -> Option<Seq<char>> {
    if off < 0 || off + NAME_LEN > p.len() {
        None
    } else {
        let w = p.subrange(off, off + NAME_LEN);
        let k = allowed_run(w, 0);
        if k == 0 {
            None
        } else if exists|j: int| k <= j < NAME_LEN && w[j] != 0 {
            None
        } else {
            Some(ascii_chars(w.subrange(0, k)))
        }
    }
}

/// The run of name bytes from `k`: every byte in it may appear in a name,
/// and the byte ending it may not.
pub proof fn lemma_allowed_run(w: Seq<u8>, k: int)
    requires
        0 <= k <= w.len(),
    ensures
        k <= allowed_run(w, k) <= w.len(),
        forall|j: int| k <= j < allowed_run(w, k) ==> is_allowed(#[trigger] w[j]),
        allowed_run(w, k) < w.len() ==> !is_allowed(w[allowed_run(w, k)]),
    decreases w.len() - k,
{
    if k < w.len() && is_allowed(w[k]) {
        lemma_allowed_run(w, k + 1);
    }
}

proof fn lemma_allowed_is_ascii(b: u8)
    requires
        is_allowed(b),
    ensures
        b < 0x80,
{
}

/// The attribute name at `off`, if the 16 bytes there are a run of one or more
/// name bytes followed only by zeros.
pub fn is_name_at(payload: &[u8], off: usize) -> (r: Option<String>)
    ensures
        opt_view(r) == spec_name_at(payload@, off as int),
{
    if off > payload.len() || NAME_LEN > payload.len() - off {
        return None;
    }
    let window = &payload[off..off + NAME_LEN];
    let ghost w = window@;
    let mut k: usize = 0;
    while k < NAME_LEN && is_allowed_byte(window[k])
        invariant
            k <= NAME_LEN,
            w == window@,
            w.len() == NAME_LEN,
            allowed_run(w, 0) == allowed_run(w, k as int),
        decreases NAME_LEN - k,
    {
        k = k + 1;
    }
    proof {
        lemma_allowed_run(w, 0);
    }
    if k == 0 {
        return None;
    }
    let mut j = k;
    while j < NAME_LEN
        invariant
            k <= j <= NAME_LEN,
            w == window@,
            w.len() == NAME_LEN,
            off + NAME_LEN <= payload@.len(),
            w == payload@.subrange(off as int, off + NAME_LEN),
            k == allowed_run(w, 0),
            k > 0,
            forall|q: int| k <= q < j ==> w[q] == 0,
        decreases NAME_LEN - j,
    {
        if window[j] != 0 {
            proof {
                assert(k <= j < NAME_LEN && w[j as int] != 0);
            }
            return None;
        }
        j = j + 1;
    }
    let name_bytes = &window[0..k];
    proof {
        assert forall|q: int| 0 <= q < name_bytes@.len() implies #[trigger] name_bytes@[q]
            < 0x80 by {
            assert(name_bytes@[q] == w[q]);
            lemma_allowed_is_ascii(w[q]);
        }
    }
    Some(ascii_string(name_bytes))
}

/// The names found scanning from `off`: a name is recorded and skipped as a
/// whole; otherwise the scan moves on one byte. Scanning stops once fewer
/// than 17 bytes remain.
pub open spec fn scan_from(p: Seq<u8>, off: int) -> Seq<(int, Seq<char>)>
    decreases p.len() - off,
{
    if off + NAME_LEN < p.len() {
        match spec_name_at(p, off) {
            Some(n) => seq![(off, n)] + scan_from(p, off + NAME_LEN),
            None => scan_from(p, off + 1),
        }
    } else {
        Seq::empty()
    }
}

/// The names found in a payload, with their offsets.
pub open spec fn spec_scan(p: Seq<u8>) -> Seq<(int, Seq<char>)> {
    scan_from(p, 0)
}

/// Offsets found by the scan are increasing, at least a name apart, and
/// leave room for a name and at least one more byte.
pub proof fn lemma_scan_props(p: Seq<u8>, off: int)
    requires
        0 <= off,
    ensures
        forall|k: int|
            0 <= k < scan_from(p, off).len() ==> off <= #[trigger] scan_from(p, off)[k].0 && scan_from(
                p,
                off,
            )[k].0 + NAME_LEN < p.len() && spec_name_at(p, scan_from(p, off)[k].0) == Some(
                scan_from(p, off)[k].1,
            ),
        forall|k: int|
            0 <= k < scan_from(p, off).len() - 1 ==> #[trigger] scan_from(p, off)[k].0 + NAME_LEN
                <= scan_from(p, off)[k + 1].0,
    decreases p.len() - off,
{
    if off + NAME_LEN < p.len() {
        match spec_name_at(p, off) {
            Some(n) => {
                lemma_scan_props(p, off + NAME_LEN);
                let rest = scan_from(p, off + NAME_LEN);
                let s = seq![(off, n)] + rest;
                assert(scan_from(p, off) == s);
                assert forall|k: int| 0 <= k < s.len() implies off <= #[trigger] s[k].0 && s[k].0
                    + NAME_LEN < p.len() && spec_name_at(p, s[k].0) == Some(s[k].1) by {
                    if k > 0 {
                        assert(s[k] == rest[k - 1]);
                    }
                }
                assert forall|k: int| 0 <= k < s.len() - 1 implies #[trigger] s[k].0 + NAME_LEN
                    <= s[k + 1].0 by {
                    assert(s[k + 1] == rest[k]);
                    if k > 0 {
                        assert(s[k] == rest[k - 1]);
                    }
                }
            },
            None => {
                lemma_scan_props(p, off + 1);
            },
        }
    }
}

/// The views of scanned names.
pub open spec fn names_view(v: Seq<(usize, String)>) -> Seq<(int, Seq<char>)> {
    v.map_values(|e: (usize, String)| (e.0 as int, e.1@))
}

fn scan_records(payload: &[u8]) -> (out: Vec<(usize, String)>)
    ensures
        names_view(out@) == spec_scan(payload@),
{
    let mut out: Vec<(usize, String)> = Vec::new();
    let mut off: usize = 0;
    let n = payload.len();
    while off < n && NAME_LEN < n - off
        invariant
            n == payload@.len(),
            names_view(out@) + scan_from(payload@, off as int) == spec_scan(payload@),
        decreases n - off,
    {
        let ghost before = names_view(out@);
        match is_name_at(payload, off) {
            Some(name) => {
                out.push((off, name));
                proof {
                    assert(names_view(out@) =~= before.push((off as int, name@)));
                    assert(before.push((off as int, name@)) + scan_from(
                        payload@,
                        off + NAME_LEN,
                    ) =~= before + scan_from(payload@, off as int));
                }
                off = off + NAME_LEN;
            },
            None => {
                off = off + 1;
            },
        }
    }
    assert(scan_from(payload@, off as int) =~= Seq::<(int, Seq<char>)>::empty());
    assert(names_view(out@) =~= spec_scan(payload@));
    out
}

// ---------------------------------------------------------------------------
// Decoding one record's tail
// ---------------------------------------------------------------------------

/// Little-endian value of a byte sequence.
pub open spec fn le_value(s: Seq<u8>) -> nat
    decreases s.len(),
{
    if s.len() == 0 {
        0
    } else {
        s[0] as nat + 256 * le_value(s.drop_first())
    }
}

/// `256^n`.
pub open spec fn pow256(n: nat) -> nat
    decreases n,
{
    if n == 0 {
        1
    } else {
        256 * pow256((n - 1) as nat)
    }
}

/// A little-endian value of `n` bytes is below `256^n`.
pub proof fn lemma_le_value_bound(s: Seq<u8>)
    ensures
        le_value(s) < pow256(s.len()),
    decreases s.len(),
{
    if s.len() > 0 {
        lemma_le_value_bound(s.drop_first());
    }
}

/// `256^n` grows with `n`.
pub proof fn lemma_pow256_mono(a: nat, b: nat)
    requires
        a <= b,
    ensures
        pow256(a) <= pow256(b),
    decreases b,
{
    if a < b {
        lemma_pow256_mono(a, (b - 1) as nat);
    }
}

/// The integer an `0x12` value stands for: its first (up to) 8 bytes,
/// little-endian.
pub open spec fn int_value(val: Seq<u8>) -> u64 {
    le_value(val.subrange(0, if val.len() < 8 {
        val.len() as int
    } else {
        8
    })) as u64
}

/// A value whose bytes are all ASCII is a string, otherwise a blob.
pub open spec fn ascii_value(val: Seq<u8>) -> AttrValueModel {
    if all_ascii(val) {
        AttrValueModel::Str(ascii_chars(val))
    } else {
        AttrValueModel::Blob(val)
    }
}

/// Decoding of the bytes between a name and the next name: the value, the
/// type byte and three zero pad bytes. Returns the value and its width.
pub open spec fn spec_decode_tail(tail: Seq<u8>, name: Seq<char>) -> (AttrValueModel, nat) {
    let n = tail.len();
    if n < TAIL_MIN_LEN {
        (AttrValueModel::Raw(tail), n)
    } else {
        let type_byte = tail[n - 4];
        let val = tail.subrange(0, n - 4);
        if tail[n - 3] != 0 || tail[n - 2] != 0 || tail[n - 1] != 0 {
            (AttrValueModel::UnknownPad(tail), n)
        } else if type_byte == 0x11 {
            (ascii_value(val), val.len())
        } else if type_byte == 0x12 {
            if name == "txt"@ {
                (ascii_value(val), val.len())
            } else {
                (AttrValueModel::Int(int_value(val)), val.len())
            }
        } else {
            (AttrValueModel::Other(type_byte, val), val.len())
        }
    }
}

/// Reading a record's tail, stated against its bytes: a tail of the value
/// bytes `val`, the type byte `t` and three zero pad bytes reads as
/// - for `t = 0x11` (or `0x12` on a `txt` record): the string of `val`'s
///   bytes when all are ASCII, else the raw bytes;
/// - for `t = 0x12` on any other record: the integer written little-endian
///   in `val` (up to 8 bytes), e.g. `val[0] + 256 * val[1]` for two bytes;
/// - for any other `t`: `t` with the raw bytes;
/// always with width `val.len()`. A tail shorter than 4 bytes, or whose pad
/// is not zero, is kept whole as raw bytes.
pub proof fn lemma_tail_reading(val: Seq<u8>, t: u8, name: Seq<char>, x: nat)
    ensures
        ({
            let tail = val + seq![t, 0u8, 0u8, 0u8];
            let as_text = if forall|i: int| 0 <= i < val.len() ==> #[trigger] val[i] < 128 {
                AttrValueModel::Str(Seq::new(val.len(), |i: int| val[i] as char))
            } else {
                AttrValueModel::Blob(val)
            };
            &&& (t == 0x11 || (t == 0x12 && name == "txt"@)) ==> spec_decode_tail(tail, name) == (
                as_text,
                val.len(),
            )
            &&& (t == 0x12 && name != "txt"@ && val.len() <= 8 && x < pow256(val.len()) && val
                == le_bytes(x, val.len())) ==> spec_decode_tail(tail, name) == (
                AttrValueModel::Int(x as u64),
                val.len(),
            )
            &&& (t == 0x12 && name != "txt"@ && val.len() == 2) ==> spec_decode_tail(tail, name)
                == (AttrValueModel::Int((val[0] + 256 * val[1]) as u64), 2nat)
            &&& (t != 0x11 && t != 0x12) ==> spec_decode_tail(tail, name) == (
                AttrValueModel::Other(t, val),
                val.len(),
            )
        }),
        forall|tail: Seq<u8>|
            tail.len() < 4 ==> #[trigger] spec_decode_tail(tail, name) == (
                AttrValueModel::Raw(tail),
                tail.len(),
            ),
        forall|tail: Seq<u8>|
            tail.len() >= 4 && (tail[tail.len() - 3] != 0 || tail[tail.len() - 2] != 0
                || tail[tail.len() - 1] != 0) ==> #[trigger] spec_decode_tail(tail, name) == (
                AttrValueModel::UnknownPad(tail),
                tail.len(),
            ),
{
    let tail = val + seq![t, 0u8, 0u8, 0u8];
    let n = tail.len();
    assert(tail.subrange(0, n - 4) =~= val);
    assert(tail[n - 4] == t);
    assert(ascii_chars(val) =~= Seq::new(val.len(), |i: int| val[i] as char));
    if t == 0x12 && name != "txt"@ && val.len() <= 8 && x < pow256(val.len()) && val == le_bytes(
        x,
        val.len(),
    ) {
        crate::hmi::readback::lemma_le_roundtrip(x, val.len());
        assert(val.subrange(0, val.len() as int) =~= val);
        lemma_le_value_bound(val);
        lemma_pow256_mono(val.len(), 8);
        reveal_with_fuel(pow256, 9);
    }
    if t == 0x12 && name != "txt"@ && val.len() == 2 {
        assert(val.subrange(0, 2) =~= val);
        assert(val.drop_first().drop_first() =~= Seq::<u8>::empty());
        let v1 = val.drop_first();
        assert(v1[0] == val[1]);
        assert(le_value(v1.drop_first()) == 0);
        assert(le_value(v1) == val[1]);
        assert(le_value(val) == val[0] + 256 * val[1]);
    }
}

fn read_le_value(val: &[u8]) -> (v: u64)
    ensures
        v == int_value(val@),
{
    let m: usize = if val.len() < 8 {
        val.len()
    } else {
        8
    };
    let ghost s = val@.subrange(0, m as int);
    let mut acc: u64 = 0;
    let mut j: usize = m;
    while j > 0
        invariant
            j <= m <= 8,
            m <= val@.len(),
            s == val@.subrange(0, m as int),
            acc == le_value(s.subrange(j as int, m as int)),
            acc < pow256((m - j) as nat),
        decreases j,
    {
        let ghost rest = s.subrange(j as int, m as int);
        let ghost next = s.subrange(j - 1, m as int);
        proof {
            assert(next.drop_first() =~= rest);
            lemma_pow256_mono((m - j) as nat, 7);
            reveal_with_fuel(pow256, 8);
            assert(pow256(7) == 72057594037927936nat);
        }
        acc = acc * 256 + val[j - 1] as u64;
        j = j - 1;
        proof {
            assert(acc == le_value(next));
            lemma_le_value_bound(next);
        }
    }
    assert(s.subrange(0, m as int) =~= s);
    acc
}

fn value_of_ascii(val: &[u8]) -> (v: AttrValue)
    ensures
        v@ == ascii_value(val@),
{
    if is_all_ascii(val) {
        AttrValue::Str(ascii_string(val))
    } else {
        AttrValue::Blob(vstd::slice::slice_to_vec(val))
    }
}

/// Decode the bytes between a name and the next name: the value, the type
/// byte and three zero pad bytes. Returns the value and its width.
pub fn decode_tail(tail: &[u8], attr_name: &str) -> (r: (AttrValue, usize))
    ensures
        r.0@ == spec_decode_tail(tail@, attr_name@).0,
        r.1 == spec_decode_tail(tail@, attr_name@).1,
{
    let n = tail.len();
    if n < TAIL_MIN_LEN {
        return (AttrValue::Raw(vstd::slice::slice_to_vec(tail)), n);
    }
    let type_byte = tail[n - 4];
    let val = &tail[0..n - 4];
    if tail[n - 3] != 0 || tail[n - 2] != 0 || tail[n - 1] != 0 {
        return (AttrValue::UnknownPad(vstd::slice::slice_to_vec(tail)), n);
    }
    if type_byte == 0x11 {
        (value_of_ascii(val), val.len())
    } else if type_byte == 0x12 {
        if str_eq(attr_name, "txt") {
            (value_of_ascii(val), val.len())
        } else {
            (AttrValue::Int(read_le_value(val)), val.len())
        }
    } else {
        (AttrValue::Other(type_byte, vstd::slice::slice_to_vec(val)), val.len())
    }
}

// ---------------------------------------------------------------------------
// Grouping records into pages and components
// ---------------------------------------------------------------------------

/// Pages decoded so far, and whether records currently belong to the last
/// page's own container record.
pub struct DecodeState {
    pub pages: Seq<PageModel>,
    pub in_container: bool,
}

/// A page with no records yet.
pub open spec fn empty_page() -> PageModel {
    PageModel { objname: None, attrs: Seq::empty(), components: Seq::empty() }
}

/// The name an `objname` record with a string value gives its owner.
pub open spec fn objname_of(r: AttrRecordModel) -> Option<Seq<char>> {
    if r.name == "objname"@ {
        match r.value {
            AttrValueModel::Str(s) => Some(s),
            _ => None,
        }
    } else {
        None
    }
}

/// Whether a record's value is the string `y` (a page container).
pub open spec fn is_page_container(r: AttrRecordModel) -> bool {
    match r.value {
        AttrValueModel::Str(s) => s == "y"@,
        _ => false,
    }
}

/// A `type` record opens a new page (value `y`) or a new component on the
/// last page (any other value; a page is made up if there is none yet).
#[verifier::opaque]
pub open spec fn start_record(st: DecodeState, r: AttrRecordModel) -> DecodeState {
    if r.name == "type"@ {
        if is_page_container(r) {
            DecodeState { pages: st.pages.push(empty_page()), in_container: true }
        } else {
            let pages = if st.pages.len() == 0 {
                seq![empty_page()]
            } else {
                st.pages
            };
            let last = pages.last();
            let c = ComponentModel { file_offset: r.file_offset, objname: None, attrs: Seq::empty() };
            DecodeState {
                pages: pages.update(
                    pages.len() - 1,
                    PageModel {
                        objname: last.objname,
                        attrs: last.attrs,
                        components: last.components.push(c),
                    },
                ),
                in_container: false,
            }
        }
    } else {
        st
    }
}

/// Every record goes to the last page's container, or else to the last
/// page's last component; an `objname` string names its owner. Records
/// before the first `type` record are dropped.
#[verifier::opaque]
pub open spec fn add_record(st: DecodeState, r: AttrRecordModel) -> DecodeState {
    if st.pages.len() == 0 {
        st
    } else {
        let page = st.pages.last();
        let on = objname_of(r);
        let page2 = if st.in_container {
            PageModel {
                objname: if on is Some {
                    on
                } else {
                    page.objname
                },
                attrs: page.attrs.push(r),
                components: page.components,
            }
        } else if page.components.len() > 0 {
            let c = page.components.last();
            let c2 = ComponentModel {
                file_offset: c.file_offset,
                objname: if on is Some {
                    on
                } else {
                    c.objname
                },
                attrs: c.attrs.push(r),
            };
            PageModel {
                objname: page.objname,
                attrs: page.attrs,
                components: page.components.update(page.components.len() - 1, c2),
            }
        } else {
            page
        };
        DecodeState {
            pages: st.pages.update(st.pages.len() - 1, page2),
            in_container: st.in_container,
        }
    }
}

proof fn lemma_add_record_keeps(st: DecodeState, r: AttrRecordModel)
    ensures
        add_record(st, r).in_container == st.in_container,
{
    reveal(add_record);
}

/// One record's effect on the decode state.
pub open spec fn decode_step(st: DecodeState, r: AttrRecordModel) -> DecodeState {
    add_record(start_record(st, r), r)
}

/// The decode state after a sequence of records.
pub open spec fn decode_fold(recs: Seq<AttrRecordModel>) -> DecodeState
    decreases recs.len(),
{
    if recs.len() == 0 {
        DecodeState { pages: Seq::empty(), in_container: false }
    } else {
        decode_step(decode_fold(recs.drop_last()), recs.last())
    }
}

/// The `i`th record of a payload: its name, and its tail up to the next name
/// (or the payload's end) decoded.
#[verifier::opaque]
pub open spec fn spec_record(
    p: Seq<u8>,
    names: Seq<(int, Seq<char>)>,
    start: int,
    i: int,
) -> AttrRecordModel {
    let pos = names[i].0;
    let next = if i + 1 < names.len() {
        names[i + 1].0
    } else {
        p.len() as int
    };
    let (v, vl) = spec_decode_tail(p.subrange(pos + NAME_LEN, next), names[i].1);
    AttrRecordModel {
        file_offset: (start + pos) as usize,
        name: names[i].1,
        value: v,
        value_len: vl as usize,
    }
}

/// The payload of a file whose payload starts at `start`.
pub open spec fn payload_of(data: Seq<u8>, start: int) -> Seq<u8> {
    data.subrange(start, data.len() as int)
}

/// Every attribute record of the payload, in file order.
pub open spec fn spec_records(data: Seq<u8>, start: int) -> Seq<AttrRecordModel> {
    let p = payload_of(data, start);
    let names = spec_scan(p);
    Seq::new(names.len(), |i: int| spec_record(p, names, start, i))
}

/// The decoded file, if its payload can be located.
pub open spec fn spec_decode(data: Seq<u8>) -> Option<DecodedModel> {
    match spec_payload_start(data) {
        Some(s) => Some(
            DecodedModel {
                payload_start: s as usize,
                pages: decode_fold(spec_records(data, s)).pages,
            },
        ),
        None => None,
    }
}

fn objname_value(rec: &AttrRecord) -> (r: Option<String>)
    ensures
        opt_view(r) == objname_of(rec@),
{
    if str_eq(rec.name.as_str(), "objname") {
        match &rec.value {
            AttrValue::Str(s) => Some(s.clone()),
            _ => None,
        }
    } else {
        None
    }
}

fn new_page() -> (p: Page)
    ensures
        p@ == empty_page(),
{
    let p = Page { objname: None, attrs: Vec::new(), components: Vec::new() };
    assert(p@.attrs =~= Seq::<AttrRecordModel>::empty());
    assert(p@.components =~= Seq::<ComponentModel>::empty());
    p
}

fn start_record_exec(pages: &mut Vec<Page>, in_container: &mut bool, rec: &AttrRecord)
    ensures
        pages_view(final(pages)@) == start_record(
            DecodeState { pages: pages_view(old(pages)@), in_container: *old(in_container) },
            rec@,
        ).pages,
        *final(in_container) == start_record(
            DecodeState { pages: pages_view(old(pages)@), in_container: *old(in_container) },
            rec@,
        ).in_container,
{
    let ghost st = DecodeState { pages: pages_view(pages@), in_container: *in_container };
    reveal(start_record);
    if !str_eq(rec.name.as_str(), "type") {
        return;
    }
    let is_container = match &rec.value {
        AttrValue::Str(s) => str_eq(s.as_str(), "y"),
        _ => false,
    };
    if is_container {
        let ghost before = pages@;
        pages.push(new_page());
        *in_container = true;
        assert(pages_view(pages@) =~= pages_view(before).push(empty_page()));
    } else {
        if pages.len() == 0 {
            pages.push(new_page());
            assert(pages_view(pages@) =~= seq![empty_page()]);
        }
        let ghost mid = pages@;
        let mut page = pages.pop().unwrap();
        let ghost pv = page@;
        let ghost cbefore = page.components@;
        page.components.push(Component { file_offset: rec.file_offset, objname: None, attrs: Vec::new() });
        proof {
            assert(attrs_view(Seq::<AttrRecord>::empty()) =~= Seq::<AttrRecordModel>::empty());
            assert(comps_view(page.components@) =~= comps_view(cbefore).push(
                ComponentModel { file_offset: rec.file_offset, objname: None, attrs: Seq::empty() },
            ));
        }
        pages.push(page);
        *in_container = false;
        proof {
            assert(pages@ =~= mid.drop_last().push(page));
            assert(pages_view(pages@) =~= pages_view(mid).update(
                pages_view(mid).len() - 1,
                page@,
            ));
        }
    }
}

fn add_record_exec(pages: &mut Vec<Page>, in_container: bool, rec: AttrRecord)
    ensures
        pages_view(final(pages)@) == add_record(
            DecodeState { pages: pages_view(old(pages)@), in_container },
            rec@,
        ).pages,
{
    reveal(add_record);
    if pages.len() == 0 {
        return;
    }
    let ghost before = pages@;
    let ghost r = rec@;
    let on = objname_value(&rec);
    let mut page = pages.pop().unwrap();
    let ghost pv = page@;
    if in_container {
        let ghost ab = page.attrs@;
        page.attrs.push(rec);
        assert(attrs_view(page.attrs@) =~= attrs_view(ab).push(r));
        match on {
            Some(s) => {
                page.objname = Some(s);
            },
            None => {},
        }
    } else if page.components.len() > 0 {
        let ghost cs = page.components@;
        let mut comp = page.components.pop().unwrap();
        let ghost ab = comp.attrs@;
        comp.attrs.push(rec);
        assert(attrs_view(comp.attrs@) =~= attrs_view(ab).push(r));
        match on {
            Some(s) => {
                comp.objname = Some(s);
            },
            None => {},
        }
        page.components.push(comp);
        proof {
            assert(page.components@ =~= cs.drop_last().push(comp));
            assert(comps_view(page.components@) =~= comps_view(cs).update(
                comps_view(cs).len() - 1,
                comp@,
            ));
        }
    }
    pages.push(page);
    proof {
        assert(pages@ =~= before.drop_last().push(page));
        assert(pages_view(pages@) =~= pages_view(before).update(
            pages_view(before).len() - 1,
            page@,
        ));
    }
}

proof fn lemma_fold_take(recs: Seq<AttrRecordModel>, i: int)
    requires
        0 <= i < recs.len(),
    ensures
        decode_fold(recs.take(i + 1)) == decode_step(decode_fold(recs.take(i)), recs[i]),
{
    assert(recs.take(i + 1).drop_last() =~= recs.take(i));
}

fn make_record(payload: &[u8], names: &Vec<(usize, String)>, i: usize, payload_start: usize) -> (rec:
    AttrRecord)
    requires
        i < names@.len(),
        payload_start + payload@.len() <= usize::MAX,
        forall|k: int|
            0 <= k < names@.len() ==> #[trigger] names_view(names@)[k].0 + NAME_LEN
                < payload@.len(),
        forall|k: int|
            0 <= k < names@.len() - 1 ==> #[trigger] names_view(names@)[k].0 + NAME_LEN
                <= names_view(names@)[k + 1].0,
    ensures
        rec@ == spec_record(payload@, names_view(names@), payload_start as int, i as int),
{
    let ghost nv = names_view(names@);
    reveal(spec_record);
    let pos = names[i].0;
    let next_p = if i < names.len() - 1 {
        names[i + 1].0
    } else {
        payload.len()
    };
    proof {
        assert(nv[i as int].0 == pos);
        assert(nv[i as int].0 + NAME_LEN < payload@.len());
        if i < names.len() - 1 {
            assert(nv[i + 1].0 == next_p);
            assert(nv[i as int].0 + NAME_LEN <= nv[i + 1].0);
        }
    }
    let tail = &payload[pos + NAME_LEN..next_p];
    let (value, value_len) = decode_tail(tail, names[i].1.as_str());
    AttrRecord { file_offset: payload_start + pos, name: names[i].1.clone(), value, value_len }
}

/// Decode every page/component/attribute in an already-loaded `.HMI` buffer.
#[verifier::spinoff_prover]
#[verifier::rlimit(40)]
pub fn decode(data: &[u8]) -> (r: Result<Decoded, HmiError>)
    ensures
        match spec_decode(data@) {
            Some(d) => r matches Ok(dec) && dec@ == d,
            None => r matches Err(e) && e == HmiError::PayloadNotFound,
        },
{
    let payload_start = match find_payload_start(data) {
        Ok(s) => s,
        Err(e) => {
            return Err(e);
        },
    };
    let dlen = data.len();
    let payload = &data[payload_start..dlen];
    let names = scan_records(payload);
    let ghost recs = spec_records(data@, payload_start as int);
    proof {
        lemma_scan_props(payload@, 0);
        assert(names_view(names@).len() == names@.len());
    }
    let mut pages: Vec<Page> = Vec::new();
    let mut in_container = false;
    let mut i: usize = 0;
    while i < names.len()
        invariant
            payload@ == payload_of(data@, payload_start as int),
            payload_start + payload@.len() == data@.len(),
            dlen == data@.len(),
            names_view(names@) == spec_scan(payload@),
            recs == spec_records(data@, payload_start as int),
            recs.len() == names@.len(),
            i <= names@.len(),
            forall|k: int|
                0 <= k < names@.len() ==> #[trigger] names_view(names@)[k].0 + NAME_LEN
                    < payload@.len(),
            forall|k: int|
                0 <= k < names@.len() - 1 ==> #[trigger] names_view(names@)[k].0 + NAME_LEN
                    <= names_view(names@)[k + 1].0,
            pages_view(pages@) == decode_fold(recs.take(i as int)).pages,
            in_container == decode_fold(recs.take(i as int)).in_container,
        decreases names@.len() - i,
    {
        let rec = make_record(payload, &names, i, payload_start);
        proof {
            assert(rec@ == recs[i as int]);
            lemma_fold_take(recs, i as int);
            lemma_add_record_keeps(
                start_record(decode_fold(recs.take(i as int)), recs[i as int]),
                recs[i as int],
            );
        }
        start_record_exec(&mut pages, &mut in_container, &rec);
        add_record_exec(&mut pages, in_container, rec);
        i = i + 1;
    }
    proof {
        assert(recs.take(names@.len() as int) =~= recs);
    }
    Ok(Decoded { payload_start, pages })
}

// ---------------------------------------------------------------------------
// Selecting and patching one attribute
// ---------------------------------------------------------------------------

/// Selects one attribute record to patch: `page:objname:attr`, where
/// either `page` or `objname` may be absent.
#[derive(Debug, Clone)]
pub struct Selector {
    pub page: Option<String>,
    pub objname: Option<String>,
    pub attr: String,
}

/// A selector as plain values.
pub struct SelectorModel {
    pub page: Option<Seq<char>>,
    pub objname: Option<Seq<char>>,
    pub attr: Seq<char>,
}

impl View for Selector {
    type V = SelectorModel;

    open spec fn view(&self) -> SelectorModel {
        SelectorModel { page: opt_view(self.page), objname: opt_view(self.objname), attr: self.attr@ }
    }
}

/// Result of reading `PAGE:OBJNAME:ATTR=VALUE`: split at the first `=`,
/// then the part before it at its first two `:`; an empty page or object
/// name selects none. `None` if either separator is missing.
pub open spec fn spec_parse_selector(cs: Seq<char>) -> Option<(SelectorModel, Seq<char>)> {
    match find_in(cs, '=', 0, cs.len() as int) {
        None => None,
        Some(eq) => match find_in(cs, ':', 0, eq) {
            None => None,
            Some(c1) => match find_in(cs, ':', c1 + 1, eq) {
                None => None,
                Some(c2) => Some(
                    (
                        SelectorModel {
                            page: nonempty(cs.subrange(0, c1)),
                            objname: nonempty(cs.subrange(c1 + 1, c2)),
                            attr: cs.subrange(c2 + 1, eq),
                        },
                        cs.subrange(eq + 1, cs.len() as int),
                    ),
                ),
            },
        },
    }
}

/// `page:objname:attr`, with an absent part written as nothing.
pub open spec fn selector_text(sel: SelectorModel) -> Seq<char> {
    (match sel.page {
        Some(p) => p,
        None => Seq::empty(),
    }) + seq![':'] + (match sel.objname {
        Some(o) => o,
        None => Seq::empty(),
    }) + seq![':'] + sel.attr
}

/// The text of a selector read from `PAGE:OBJNAME:ATTR=VALUE` is the part
/// before the first `=`: the selector's text, `=` and the value give back
/// what was read.
pub proof fn lemma_selector_text_roundtrip(cs: Seq<char>)
    ensures
        spec_parse_selector(cs) matches Some((sel, v)) ==> selector_text(sel) + seq!['='] + v
            == cs,
        spec_parse_selector(cs) matches Some((sel, v)) ==> {
            &&& sel.page matches Some(p) ==> p.len() > 0 && !p.contains(':') && !p.contains('=')
            &&& sel.objname matches Some(o) ==> o.len() > 0 && !o.contains(':') && !o.contains(
                '=',
            )
            &&& !sel.attr.contains('=')
        },
        spec_parse_selector(cs) is Some <==> exists|c1: int, c2: int, e: int|
            0 <= c1 < c2 < e < cs.len() && cs[c1] == ':' && cs[c2] == ':' && cs[e] == '='
                && forall|j: int| 0 <= j < e ==> #[trigger] cs[j] != '=',
{
    crate::strings::lemma_find_in(cs, '=', 0, cs.len() as int);
    if let Some(eq) = find_in(cs, '=', 0, cs.len() as int) {
        crate::strings::lemma_find_in(cs, ':', 0, eq);
        if let Some(c1) = find_in(cs, ':', 0, eq) {
            crate::strings::lemma_find_in(cs, ':', c1 + 1, eq);
            if let Some(c2) = find_in(cs, ':', c1 + 1, eq) {
                let page = cs.subrange(0, c1);
                let obj = cs.subrange(c1 + 1, c2);
                let attr = cs.subrange(c2 + 1, eq);
                if page.len() == 0 {
                    assert(page =~= Seq::<char>::empty());
                }
                if obj.len() == 0 {
                    assert(obj =~= Seq::<char>::empty());
                }
                assert(page + seq![':'] + obj + seq![':'] + attr + seq!['=']
                    + cs.subrange(eq + 1, cs.len() as int) =~= cs);
                assert(!page.contains(':') && !page.contains('=')) by {
                    if page.contains(':') {
                        let j = choose|j: int| 0 <= j < page.len() && page[j] == ':';
                        assert(cs[j] == ':');
                    }
                    if page.contains('=') {
                        let j = choose|j: int| 0 <= j < page.len() && page[j] == '=';
                        assert(cs[j] == '=');
                    }
                }
                assert(!obj.contains(':') && !obj.contains('=')) by {
                    if obj.contains(':') {
                        let j = choose|j: int| 0 <= j < obj.len() && obj[j] == ':';
                        assert(cs[c1 + 1 + j] == ':');
                    }
                    if obj.contains('=') {
                        let j = choose|j: int| 0 <= j < obj.len() && obj[j] == '=';
                        assert(cs[c1 + 1 + j] == '=');
                    }
                }
                assert(!attr.contains('=')) by {
                    if attr.contains('=') {
                        let j = choose|j: int| 0 <= j < attr.len() && attr[j] == '=';
                        assert(cs[c2 + 1 + j] == '=');
                    }
                }
                assert(0 <= c1 < c2 < eq < cs.len() && cs[c1] == ':' && cs[c2] == ':' && cs[eq] == '='
                    && forall|j: int| 0 <= j < eq ==> #[trigger] cs[j] != '=');
            } else {
                assert forall|a: int, b: int, e: int|
                    !(0 <= a < b < e < cs.len() && cs[a] == ':' && cs[b] == ':' && cs[e] == '='
                        && forall|j: int| 0 <= j < e ==> #[trigger] cs[j] != '=') by {
                    if 0 <= a < b < e < cs.len() && cs[a] == ':' && cs[b] == ':' && cs[e] == '='
                        && forall|j: int| 0 <= j < e ==> #[trigger] cs[j] != '=' {
                        assert(e == eq) by {
                            if e < eq {
                                assert(cs[e] != '=');
                            } else if e > eq {
                                assert(cs[eq] != '=');
                            }
                        }
                        assert(b < eq && b > c1) by {
                            if b <= c1 {
                                assert(a < c1);
                                assert(cs[a] != ':');
                            }
                        }
                    }
                }
            }
        } else {
            assert forall|a: int, b: int, e: int|
                !(0 <= a < b < e < cs.len() && cs[a] == ':' && cs[b] == ':' && cs[e] == '=' && forall|
                    j: int,
                | 0 <= j < e ==> #[trigger] cs[j] != '=') by {
                if 0 <= a < b < e < cs.len() && cs[a] == ':' && cs[b] == ':' && cs[e] == '=' && forall|
                    j: int,
                | 0 <= j < e ==> #[trigger] cs[j] != '=' {
                    assert(e == eq) by {
                        if e < eq {
                            assert(cs[e] != '=');
                        } else if e > eq {
                            assert(cs[eq] != '=');
                        }
                    }
                    assert(cs[a] != ':');
                }
            }
        }
    } else {
        assert forall|a: int, b: int, e: int|
            !(0 <= a < b < e < cs.len() && cs[a] == ':' && cs[b] == ':' && cs[e] == '=' && forall|
                j: int,
            | 0 <= j < e ==> #[trigger] cs[j] != '=') by {
            if 0 <= e < cs.len() {
                assert(cs[e] != '=');
            }
        }
    }
}

impl Selector {
    /// Read a `PAGE:OBJNAME:ATTR=VALUE` argument into a selector and the new
    /// value.
    pub fn parse(spec: &str) -> (r: Result<(Self, String), HmiError>)
        ensures
            match spec_parse_selector(spec@) {
                Some((sel, v)) => r matches Ok(p) && p.0@ == sel && p.1@ == v,
                None => r matches Err(HmiError::BadSetSpec(m)) && m@ == spec@,
            },
    {
        let cs = chars_of(spec);
        let n = cs.len();
        let eq = match find_char(&cs, '=', 0, n) {
            Some(k) => k,
            None => {
                return Err(HmiError::BadSetSpec(String::from_str(spec)));
            },
        };
        let c1 = match find_char(&cs, ':', 0, eq) {
            Some(k) => k,
            None => {
                return Err(HmiError::BadSetSpec(String::from_str(spec)));
            },
        };
        let c2 = match find_char(&cs, ':', c1 + 1, eq) {
            Some(k) => k,
            None => {
                return Err(HmiError::BadSetSpec(String::from_str(spec)));
            },
        };
        let page = nonempty_string(&cs, 0, c1);
        let objname = nonempty_string(&cs, c1 + 1, c2);
        let attr = string_from_chars(&cs, c2 + 1, eq);
        let value = string_from_chars(&cs, eq + 1, n);
        Ok((Selector { page, objname, attr }, value))
    }

    fn as_str(&self) -> (s: String)
        ensures
            s@ == selector_text(self@),
    {
        let mut s = String::new();
        match &self.page {
            Some(p) => s.append(p.as_str()),
            None => {},
        }
        s.push(':');
        match &self.objname {
            Some(o) => s.append(o.as_str()),
            None => {},
        }
        s.push(':');
        s.append(self.attr.as_str());
        proof {
            assert(s@ =~= selector_text(self@));
        }
        s
    }
}

/// The first record in `attrs[i..]` with the given name.
pub open spec fn find_attr_from(attrs: Seq<AttrRecordModel>, name: Seq<char>, i: int) -> Option<
    AttrRecordModel,
>
    decreases attrs.len() - i,
{
    if i < 0 || i >= attrs.len() {
        None
    } else if attrs[i].name == name {
        Some(attrs[i])
    } else {
        find_attr_from(attrs, name, i + 1)
    }
}

/// The first component in `comps[i..]` with the selected object name and an
/// attribute of the selected name: that attribute.
pub open spec fn find_in_components(comps: Seq<ComponentModel>, sel: SelectorModel, i: int) -> Option<
    AttrRecordModel,
>
    decreases comps.len() - i,
{
    if i < 0 || i >= comps.len() {
        None
    } else if comps[i].objname == sel.objname && find_attr_from(comps[i].attrs, sel.attr, 0) is Some {
        find_attr_from(comps[i].attrs, sel.attr, 0)
    } else {
        find_in_components(comps, sel, i + 1)
    }
}

/// The selected attribute of one page: its own container's attribute when
/// no object name is selected or the page carries the selected name, else a
/// component's.
pub open spec fn find_in_page(page: PageModel, sel: SelectorModel) -> Option<AttrRecordModel> {
    let own = if sel.objname is None || page.objname == sel.objname {
        find_attr_from(page.attrs, sel.attr, 0)
    } else {
        None
    };
    if own is Some {
        own
    } else {
        find_in_components(page.components, sel, 0)
    }
}

/// The first page in `pages[i..]` the selector admits that holds the
/// selected attribute: that attribute.
pub open spec fn find_in_pages(pages: Seq<PageModel>, sel: SelectorModel, i: int) -> Option<
    AttrRecordModel,
>
    decreases pages.len() - i,
{
    if i < 0 || i >= pages.len() {
        None
    } else if (sel.page matches Some(p) ==> pages[i].objname == Some(p)) && find_in_page(
        pages[i],
        sel,
    ) is Some {
        find_in_page(pages[i], sel)
    } else {
        find_in_pages(pages, sel, i + 1)
    }
}

/// The record a selector picks out of a decoded file.
pub open spec fn spec_find_attr_record(d: DecodedModel, sel: SelectorModel) -> Option<
    AttrRecordModel,
> {
    find_in_pages(d.pages, sel, 0)
}

fn opt_str_eq(a: &Option<String>, b: &Option<String>) -> (r: bool)
    ensures
        r == (opt_view(*a) == opt_view(*b)),
{
    match (a, b) {
        (Some(x), Some(y)) => str_eq(x.as_str(), y.as_str()),
        (None, None) => true,
        _ => false,
    }
}

fn find_attr_in<'a>(attrs: &'a Vec<AttrRecord>, name: &String) -> (r: Option<&'a AttrRecord>)
    ensures
        match find_attr_from(attrs_view(attrs@), name@, 0) {
            Some(m) => r matches Some(a) && a@ == m,
            None => r is None,
        },
{
    let ghost av = attrs_view(attrs@);
    let mut i: usize = 0;
    while i < attrs.len()
        invariant
            i <= attrs@.len(),
            av == attrs_view(attrs@),
            find_attr_from(av, name@, 0) == find_attr_from(av, name@, i as int),
        decreases attrs@.len() - i,
    {
        if str_eq(attrs[i].name.as_str(), name.as_str()) {
            assert(av[i as int] == attrs@[i as int]@);
            return Some(&attrs[i]);
        }
        i = i + 1;
    }
    None
}

fn find_attr_in_page<'a>(page: &'a Page, sel: &Selector) -> (r: Option<&'a AttrRecord>)
    ensures
        match find_in_page(page@, sel@) {
            Some(m) => r matches Some(a) && a@ == m,
            None => r is None,
        },
{
    if sel.objname.is_none() || opt_str_eq(&page.objname, &sel.objname) {
        match find_attr_in(&page.attrs, &sel.attr) {
            Some(rec) => {
                return Some(rec);
            },
            None => {},
        }
    }
    let ghost cv = comps_view(page.components@);
    let mut i: usize = 0;
    while i < page.components.len()
        invariant
            i <= page.components@.len(),
            cv == comps_view(page.components@),
            cv == page@.components,
            find_in_page(page@, sel@) == find_in_components(cv, sel@, i as int),
        decreases page.components@.len() - i,
    {
        let comp = &page.components[i];
        assert(cv[i as int] == comp@);
        if opt_str_eq(&comp.objname, &sel.objname) {
            match find_attr_in(&comp.attrs, &sel.attr) {
                Some(rec) => {
                    return Some(rec);
                },
                None => {},
            }
        }
        i = i + 1;
    }
    None
}

fn find_attr_record<'a>(decoded: &'a Decoded, sel: &Selector) -> (r: Option<&'a AttrRecord>)
    ensures
        match spec_find_attr_record(decoded@, sel@) {
            Some(m) => r matches Some(a) && a@ == m,
            None => r is None,
        },
{
    let ghost pv = pages_view(decoded.pages@);
    let mut i: usize = 0;
    while i < decoded.pages.len()
        invariant
            i <= decoded.pages@.len(),
            pv == pages_view(decoded.pages@),
            pv == decoded@.pages,
            find_in_pages(pv, sel@, 0) == find_in_pages(pv, sel@, i as int),
        decreases decoded.pages@.len() - i,
    {
        let page = &decoded.pages[i];
        assert(pv[i as int] == page@);
        let admitted = match &sel.page {
            Some(p) => match &page.objname {
                Some(o) => str_eq(o.as_str(), p.as_str()),
                None => false,
            },
            None => true,
        };
        if admitted {
            match find_attr_in_page(page, sel) {
                Some(rec) => {
                    return Some(rec);
                },
                None => {},
            }
        }
        i = i + 1;
    }
    None
}

/// How an integer literal is read: surrounding whitespace is ignored;
/// `0x`/`0X` selects hexadecimal, `0o`/`0O` octal, `0b`/`0B` binary, and
/// anything else is decimal.
pub open spec fn spec_parse_int_literal(s: Seq<char>) -> Result<nat, IntParseError> {
    let t = trim(s);
    let max = 0xffff_ffff_ffff_ffffnat;
    if t.len() >= 2 && t[0] == '0' && (t[1] == 'x' || t[1] == 'X') {
        spec_parse_uint(t.subrange(2, t.len() as int), 16, max)
    } else if t.len() >= 2 && t[0] == '0' && (t[1] == 'o' || t[1] == 'O') {
        spec_parse_uint(t.subrange(2, t.len() as int), 8, max)
    } else if t.len() >= 2 && t[0] == '0' && (t[1] == 'b' || t[1] == 'B') {
        spec_parse_uint(t.subrange(2, t.len() as int), 2, max)
    } else {
        spec_parse_uint(t, 10, max)
    }
}

fn parse_int_literal(s: &str) -> (r: Result<u64, IntParseError>)
    ensures
        match spec_parse_int_literal(s@) {
            Ok(v) => r == Ok::<u64, IntParseError>(v as u64) && v <= u64::MAX,
            Err(e) => r == Err::<u64, IntParseError>(e),
        },
{
    let cs = chars_of(s);
    let (a, b) = trim_bounds(&cs);
    let ghost t = cs@.subrange(a as int, b as int);
    let max: u64 = 0xffff_ffff_ffff_ffff;
    if b - a >= 2 && cs[a] == '0' && (cs[a + 1] == 'x' || cs[a + 1] == 'X') {
        assert(t.subrange(2, t.len() as int) =~= cs@.subrange(a + 2, b as int));
        parse_uint(&cs, a + 2, b, 16, max)
    } else if b - a >= 2 && cs[a] == '0' && (cs[a + 1] == 'o' || cs[a + 1] == 'O') {
        assert(t.subrange(2, t.len() as int) =~= cs@.subrange(a + 2, b as int));
        parse_uint(&cs, a + 2, b, 8, max)
    } else if b - a >= 2 && cs[a] == '0' && (cs[a + 1] == 'b' || cs[a + 1] == 'B') {
        assert(t.subrange(2, t.len() as int) =~= cs@.subrange(a + 2, b as int));
        parse_uint(&cs, a + 2, b, 2, max)
    } else {
        parse_uint(&cs, a, b, 10, max)
    }
}

/// The `w` little-endian bytes of `v` (higher bytes dropped).
pub open spec fn le_bytes(v: nat, w: nat) -> Seq<u8>
    decreases w,
{
    if w == 0 {
        Seq::empty()
    } else {
        seq![(v % 256) as u8] + le_bytes(v / 256, (w - 1) as nat)
    }
}

/// `data` with `bytes` written over it from `off` on.
pub open spec fn splice(data: Seq<u8>, off: int, bytes: Seq<u8>) -> Seq<u8> {
    data.subrange(0, off) + bytes + data.subrange(off + bytes.len(), data.len() as int)
}

/// Whether the write `patch_attr` would make for `rec` stays inside the
/// file (it panics otherwise): a same-length string fits after the name,
/// and so do the bytes of an accepted integer in the record's width.
pub open spec fn patch_in_bounds(
    len: nat,
    rec: AttrRecordModel,
    new_chars: Seq<char>,
    new_bytes: Seq<u8>,
) -> bool {
    let off = rec.file_offset + NAME_LEN;
    &&& off <= usize::MAX
    &&& match rec.value {
        AttrValueModel::Str(old) => encode_utf8(old).len() == new_bytes.len() ==> off + new_bytes.len()
            <= len,
        AttrValueModel::Int(_) => {
            let w = rec.value_len as nat;
            match spec_parse_int_literal(new_chars) {
                Ok(iv) => (w > 0 && !(w < 8 && iv >= pow256(w))) ==> off + w <= len,
                Err(_) => true,
            }
        },
        _ => true,
    }
}

/// What `patch_attr` does once the selected record is found: the result it
/// returns and the file contents afterwards.
pub open spec fn patch_outcome(
    d0: Seq<u8>,
    d1: Seq<u8>,
    rec: AttrRecordModel,
    sel: SelectorModel,
    new_chars: Seq<char>,
    new_bytes: Seq<u8>,
    r: Result<(), HmiError>,
) -> bool {
    let off = rec.file_offset + NAME_LEN;
    let selector = selector_text(sel);
    match rec.value {
        AttrValueModel::Str(old) => {
            let old_len = encode_utf8(old).len();
            if new_bytes.len() != old_len {
                &&& d1 == d0
                &&& r matches Err(
                    HmiError::LengthMismatch { selector: s, old_len: ol, old_value, new_len, new_value },
                ) && s@ == selector && ol == old_len && old_value@ == old && new_len
                    == new_bytes.len() && new_value@ == new_chars
            } else {
                r is Ok && d1 == splice(d0, off, new_bytes)
            }
        },
        AttrValueModel::Int(_) => {
            let w = rec.value_len as nat;
            if w == 0 {
                &&& d1 == d0
                &&& r matches Err(HmiError::ZeroWidth { selector: s }) && s@ == selector
            } else {
                match spec_parse_int_literal(new_chars) {
                    Err(e) => {
                        &&& d1 == d0
                        &&& r matches Err(HmiError::InvalidInt(v, e2)) && v@ == new_chars && e2 == e
                    },
                    Ok(iv) => if w < 8 && iv >= pow256(w) {
                        &&& d1 == d0
                        &&& r matches Err(HmiError::ValueTooWide { selector: s, value, width })
                            && s@ == selector && value == iv && width == w
                    } else {
                        r is Ok && d1 == splice(d0, off, le_bytes(iv, w))
                    },
                }
            }
        },
        _ => {
            &&& d1 == d0
            &&& r matches Err(HmiError::UnsupportedPatchKind { selector: s, kind }) && s@
                == selector && kind@ == spec_kind(rec.value)
        },
    }
}

fn write_bytes(data: &mut [u8], off: usize, bytes: &[u8])
    requires
        off + bytes@.len() <= old(data)@.len(),
    ensures
        final(data)@ == splice(old(data)@, off as int, bytes@),
{
    let ghost d0 = data@;
    let dl = data.len();
    let mut k: usize = 0;
    while k < bytes.len()
        invariant
            dl == data@.len(),
            off + bytes@.len() <= data@.len(),
            d0.len() == data@.len(),
            k <= bytes@.len(),
            data@ == splice(d0, off as int, bytes@.subrange(0, k as int)),
        decreases bytes@.len() - k,
    {
        data[off + k] = bytes[k];
        k = k + 1;
        assert(data@ =~= splice(d0, off as int, bytes@.subrange(0, k as int)));
    }
    assert(bytes@.subrange(0, bytes@.len() as int) =~= bytes@);
}

fn le_bytes_of(iv: u64, width: usize) -> (out: Vec<u8>)
    ensures
        out@ == le_bytes(iv as nat, width as nat),
{
    let mut out: Vec<u8> = Vec::new();
    let mut v = iv;
    let mut k: usize = 0;
    while k < width
        invariant
            k <= width,
            out@ + le_bytes(v as nat, (width - k) as nat) == le_bytes(iv as nat, width as nat),
        decreases width - k,
    {
        let ghost before = out@;
        out.push((v % 256) as u8);
        proof {
            assert(le_bytes(v as nat, (width - k) as nat) == seq![(v % 256) as u8] + le_bytes(
                (v / 256) as nat,
                (width - k - 1) as nat,
            ));
            assert(out@ + le_bytes((v / 256) as nat, (width - k - 1) as nat) =~= before + le_bytes(
                v as nat,
                (width - k) as nat,
            ));
        }
        v = v / 256;
        k = k + 1;
    }
    assert(out@ =~= out@ + le_bytes(v as nat, 0));
    out
}

fn pow256_below8(w: usize) -> (p: u64)
    requires
        w < 8,
    ensures
        p == pow256(w as nat),
{
    let mut p: u64 = 1;
    let mut k: usize = 0;
    while k < w
        invariant
            k <= w < 8,
            p == pow256(k as nat),
        decreases w - k,
    {
        proof {
            lemma_pow256_mono(k as nat, 6);
            reveal_with_fuel(pow256, 7);
            assert(pow256(6) == 281474976710656nat);
        }
        p = p * 256;
        k = k + 1;
    }
    p
}

/// Rewrite one attribute's value in place. Only same-byte-length overwrites
/// are supported: a string of identical length, or an integer that still
/// fits the attribute's existing fixed width.
pub fn patch_attr(data: &mut [u8], decoded: &Decoded, sel: &Selector, new_value: &str) -> (r: Result<
    (),
    HmiError,
>)
    requires
        spec_find_attr_record(decoded@, sel@) matches Some(rec) ==> patch_in_bounds(
            old(data)@.len(),
            rec,
            new_value@,
            encode_utf8(new_value@),
        ),
    ensures
        match spec_find_attr_record(decoded@, sel@) {
            None => {
                &&& final(data)@ == old(data)@
                &&& r matches Err(HmiError::AttrNotFound { selector, page, objname, attr })
                    && selector@ == selector_text(sel@) && opt_view(page) == sel@.page
                    && opt_view(objname) == sel@.objname && attr@ == sel@.attr
            },
            Some(rec) => patch_outcome(
                old(data)@,
                final(data)@,
                rec,
                sel@,
                new_value@,
                encode_utf8(new_value@),
                r,
            ),
        },
        final(data)@.len() == old(data)@.len(),
{
    let rec = match find_attr_record(decoded, sel) {
        Some(rec) => rec,
        None => {
            return Err(
                HmiError::AttrNotFound {
                    selector: sel.as_str(),
                    page: sel.page.clone(),
                    objname: sel.objname.clone(),
                    attr: sel.attr.clone(),
                },
            );
        },
    };
    let off = rec.file_offset + NAME_LEN;
    match &rec.value {
        AttrValue::Str(old) => {
            let old_len = old.as_str().as_bytes().len();
            let new_bytes = new_value.as_bytes();
            if new_bytes.len() != old_len {
                return Err(
                    HmiError::LengthMismatch {
                        selector: sel.as_str(),
                        old_len,
                        old_value: old.clone(),
                        new_len: new_bytes.len(),
                        new_value: String::from_str(new_value),
                    },
                );
            }
            write_bytes(data, off, new_bytes);
        },
        AttrValue::Int(_) => {
            let width = rec.value_len;
            if width == 0 {
                return Err(HmiError::ZeroWidth { selector: sel.as_str() });
            }
            let iv = match parse_int_literal(new_value) {
                Ok(v) => v,
                Err(e) => {
                    return Err(HmiError::InvalidInt(String::from_str(new_value), e));
                },
            };
            if width < 8 && iv >= pow256_below8(width) {
                return Err(HmiError::ValueTooWide { selector: sel.as_str(), value: iv, width });
            }
            let bytes = le_bytes_of(iv, width);
            proof {
                assert(bytes@.len() == width) by {
                    lemma_le_bytes_len(iv as nat, width as nat);
                }
            }
            write_bytes(data, off, bytes.as_slice());
        },
        _ => {
            return Err(HmiError::UnsupportedPatchKind { selector: sel.as_str(), kind: rec.value.kind() });
        },
    }
    Ok(())
}

/// Whether `patch_attr` can run on a file of `data_len` bytes without
/// panicking: the write it would make for the selected record stays inside
/// the file.
pub fn patch_fits(data_len: usize, decoded: &Decoded, sel: &Selector, new_value: &str) -> (r: bool)
    ensures
        r == (spec_find_attr_record(decoded@, sel@) matches Some(rec) ==> patch_in_bounds(
            data_len as nat,
            rec,
            new_value@,
            encode_utf8(new_value@),
        )),
{
    let rec = match find_attr_record(decoded, sel) {
        Some(rec) => rec,
        None => {
            return true;
        },
    };
    if rec.file_offset > usize::MAX - NAME_LEN {
        return false;
    }
    let off = rec.file_offset + NAME_LEN;
    match &rec.value {
        AttrValue::Str(old) => {
            let old_len = old.as_str().as_bytes().len();
            let new_len = new_value.as_bytes().len();
            new_len != old_len || (off <= data_len && new_len <= data_len - off)
        },
        AttrValue::Int(_) => {
            let width = rec.value_len;
            match parse_int_literal(new_value) {
                Err(_) => true,
                Ok(iv) => {
                    let accepted = width > 0 && !(width < 8 && iv >= pow256_below8(width));
                    !accepted || (off <= data_len && width <= data_len - off)
                },
            }
        },
        _ => true,
    }
}

/// `le_bytes(v, w)` has `w` bytes.
pub proof fn lemma_le_bytes_len(v: nat, w: nat)
    ensures
        le_bytes(v, w).len() == w,
    decreases w,
{
    if w > 0 {
        lemma_le_bytes_len(v / 256, (w - 1) as nat);
    }
}

} // verus!
