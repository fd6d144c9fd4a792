//! Nextion `.zi` font files (versions 5 and 6): container parsing, glyph
//! raster decoding, and 3bpp glyph encoding.
//!
//! Pixels are 3-bit coverage values: `0` = background, `7` = full
//! foreground, `1..=6` = anti-aliasing levels.

use vstd::prelude::*;
use vstd::utf8::{decode_utf8, valid_utf8};

use crate::error::ZiError;
use crate::strings::{string_from_utf8_lossy, utf8_lossy};

verus! {

/// Length of the fixed `.zi` header.
pub const PREAMBLE_BYTES: usize = 44;

/// Length of one glyph index entry.
pub const INDEX_ENTRY_BYTES: usize = 10;

/// Packing scheme byte: one bit of coverage per pixel.
pub const SCHEME_BILEVEL: u8 = 1;

/// Packing scheme byte: three bits of coverage per pixel.
pub const SCHEME_GREY3: u8 = 3;

// ---------------------------------------------------------------------------
// Pixel runs and the opcode model
// ---------------------------------------------------------------------------

/// `n` copies of `v`.
pub open spec fn run(n: nat, v: u8) -> Seq<u8> {
    Seq::new(n, |_i: int| v)
}

/// Whether every pixel is a 3-bit coverage value.
pub open spec fn all_levels(p: Seq<u8>) -> bool {
    forall|i: int| 0 <= i < p.len() ==> #[trigger] p[i] <= 7
}

/// The pixels one opcode byte stands for, under the bilevel (`mono`) or the
/// grey3 scheme. Opcode layout: `tt f nnnnn`.
pub open spec fn op_pixels(b: u8, mono: bool) -> Seq<u8> {
    let flag: nat = ((b >> 5u8) & 1u8) as nat;
    let n: nat = (b & 0x1fu8) as nat;
    let hi: u8 = (b >> 3u8) & 7u8;
    let lo: u8 = b & 7u8;
    let tt: u8 = b >> 6u8;
    if tt == 0 {
        run(n, if flag == 1 { 7u8 } else { 0u8 })
    } else if tt == 1 {
        run(n, 0) + run(1 + flag, 7)
    } else if tt == 2 {
        if mono {
            run(n, 0) + run(3 + flag, 7)
        } else {
            run(hi as nat, 0) + seq![lo]
        }
    } else {
        if mono {
            run(hi as nat, 0) + run(lo as nat, 7)
        } else {
            seq![hi, lo]
        }
    }
}

/// The pixels a whole opcode stream stands for, in order.
pub open spec fn ops_pixels(ops: Seq<u8>, mono: bool) -> Seq<u8>
    decreases ops.len(),
{
    if ops.len() == 0 {
        Seq::empty()
    } else {
        op_pixels(ops[0], mono) + ops_pixels(ops.drop_first(), mono)
    }
}

/// Decoding of one glyph's packed data: the empty input gives no pixels,
/// an unknown scheme byte is refused, and otherwise the opcodes after the
/// scheme byte are expanded.
pub open spec fn spec_unpack(packed: Seq<u8>) -> Result<Seq<u8>, u8> {
    if packed.len() == 0 {
        Ok(Seq::empty())
    } else if packed[0] != SCHEME_BILEVEL && packed[0] != SCHEME_GREY3 {
        Err(packed[0])
    } else {
        Ok(ops_pixels(packed.drop_first(), packed[0] == SCHEME_BILEVEL))
    }
}

/// Appending one opcode appends its pixels.
pub proof fn lemma_ops_pixels_push(ops: Seq<u8>, b: u8, mono: bool)
    ensures
        ops_pixels(ops.push(b), mono) == ops_pixels(ops, mono) + op_pixels(b, mono),
    decreases ops.len(),
{
    if ops.len() == 0 {
        assert(ops.push(b).drop_first() =~= Seq::<u8>::empty());
        assert(ops_pixels(Seq::<u8>::empty(), mono) =~= Seq::<u8>::empty());
        assert(ops_pixels(ops.push(b), mono) =~= op_pixels(b, mono));
        assert(ops_pixels(ops, mono) =~= Seq::<u8>::empty());
    } else {
        lemma_ops_pixels_push(ops.drop_first(), b, mono);
        assert(ops.push(b).drop_first() =~= ops.drop_first().push(b));
        assert(ops_pixels(ops.push(b), mono) =~= ops_pixels(ops, mono) + op_pixels(b, mono));
    }
}

/// Prepending one opcode prepends its pixels.
pub proof fn lemma_ops_pixels_cons(b: u8, rest: Seq<u8>, mono: bool)
    ensures
        ops_pixels(seq![b] + rest, mono) == op_pixels(b, mono) + ops_pixels(rest, mono),
{
    let s = seq![b] + rest;
    assert(s[0] == b);
    assert(s.drop_first() =~= rest);
}

fn push_run(px: &mut Vec<u8>, n: usize, v: u8)
    ensures
        final(px)@ == old(px)@ + run(n as nat, v),
{
    let ghost start = px@;
    let mut k: usize = 0;
    while k < n
        invariant
            k <= n,
            px@ == start + run(k as nat, v),
        decreases n - k,
    {
        px.push(v);
        k = k + 1;
        assert(px@ =~= start + run(k as nat, v));
    }
}

/// Decode one glyph's packed data into 3-bit coverage values.
///
/// Opcode byte layout: `tt f nnnnn` (top two bits select the op).
///
/// | tt | scheme 1 (bilevel)                | scheme 3 (grey3)                     |
/// |----|------------------------------------|--------------------------------------|
/// | 00 | `n` × (f ? 7 : 0)                  | same                                 |
/// | 01 | `n` × 0, then 1 + f × 7            | same                                 |
/// | 10 | `n` × 0, then 3 + f × 7            | `aaa` × 0, then `bbb` (`10 aaa bbb`) |
/// | 11 | `aaa` × 0, then `bbb` × 7          | `aaa`, `bbb` (`11 aaa bbb`)          |
pub fn unpack_pixels(packed: &[u8]) -> (r: Result<Vec<u8>, ZiError>)
    ensures
        match spec_unpack(packed@) {
            Ok(px) => r matches Ok(v) && v@ == px,
            Err(scheme) => r == Err::<Vec<u8>, ZiError>(ZiError::UnknownPackingScheme(scheme)),
        },
{
    let mut px: Vec<u8> = Vec::new();
    if packed.len() == 0 {
        return Ok(px);
    }
    let scheme = packed[0];
    if scheme != SCHEME_BILEVEL && scheme != SCHEME_GREY3 {
        return Err(ZiError::UnknownPackingScheme(scheme));
    }
    let mono = scheme == SCHEME_BILEVEL;
    let ghost ops = packed@.drop_first();
    let mut k: usize = 1;
    while k < packed.len()
        invariant
            1 <= k <= packed@.len(),
            ops == packed@.drop_first(),
            mono == (packed@[0] == SCHEME_BILEVEL),
            px@ == ops_pixels(ops.take(k - 1), mono),
        decreases packed@.len() - k,
    {
        let b = packed[k];
        let flag: usize = ((b >> 5u8) & 1u8) as usize;
        let n: usize = (b & 0x1fu8) as usize;
        let hi: u8 = (b >> 3u8) & 7u8;
        let lo: u8 = b & 7u8;
        let tt: u8 = b >> 6u8;
        let ghost before = px@;
        if tt == 0 {
            push_run(&mut px, n, if flag == 1 { 7u8 } else { 0u8 });
        } else if tt == 1 {
            push_run(&mut px, n, 0);
            push_run(&mut px, 1 + flag, 7);
        } else if tt == 2 {
            if mono {
                push_run(&mut px, n, 0);
                push_run(&mut px, 3 + flag, 7);
            } else {
                push_run(&mut px, hi as usize, 0);
                px.push(lo);
            }
        } else {
            if mono {
                push_run(&mut px, hi as usize, 0);
                push_run(&mut px, lo as usize, 7);
            } else {
                px.push(hi);
                px.push(lo);
            }
        }
        proof {
            assert(px@ =~= before + op_pixels(b, mono));
            assert(ops.take(k as int) =~= ops.take(k - 1).push(b));
            lemma_ops_pixels_push(ops.take(k - 1), b, mono);
        }
        k = k + 1;
    }
    proof {
        assert(ops.take(packed@.len() - 1) =~= ops);
    }
    Ok(px)
}

// ---------------------------------------------------------------------------
// Packing
// ---------------------------------------------------------------------------

/// Length of the run of `v` starting at `i`, capped at `max`.
pub open spec fn run_len(p: Seq<u8>, i: int, v: u8, max: nat) -> nat
    decreases max,
{
    if max == 0 || i < 0 || i >= p.len() || p[i] != v {
        0
    } else {
        1 + run_len(p, i + 1, v, (max - 1) as nat)
    }
}

/// One greedy packing step at position `i`: the opcode byte emitted and
/// how many pixels it covers.
pub open spec fn pack_step(p: Seq<u8>, i: int) -> (u8, nat) {
    let px = p[i] & 7u8;
    if px == 7 {
        let n = run_len(p, i, 7, 31);
        ((0x20u8 | (n as u8)) as u8, n)
    } else if px == 0 {
        let n = run_len(p, i, 0, 31);
        if i + n < p.len() && p[i + n] == 7 {
            let blacks = run_len(p, i + n, 7, 2);
            ((0x40u8 | (((blacks as u8) - 1) as u8) << 5u8 | (n as u8)) as u8, n + blacks)
        } else if i + n < p.len() && n < 8 {
            let g = p[i + n];
            ((0x80u8 | (n as u8) << 3u8 | g) as u8, n + 1)
        } else {
            (n as u8, n)
        }
    } else {
        if i + 1 < p.len() {
            ((0xc0u8 | px << 3u8 | (p[i + 1] & 7u8)) as u8, 2)
        } else {
            ((0x80u8 | px) as u8, 1)
        }
    }
}

pub proof fn lemma_run_len_bounds(p: Seq<u8>, i: int, v: u8, max: nat)
    ensures
        run_len(p, i, v, max) <= max,
        0 <= i ==> i + run_len(p, i, v, max) <= p.len() || run_len(p, i, v, max) == 0,
        forall|j: int| i <= j < i + run_len(p, i, v, max) ==> #[trigger] p[j] == v,
        0 <= i < p.len() && p[i] == v && max > 0 ==> run_len(p, i, v, max) >= 1,
        0 <= i ==> (run_len(p, i, v, max) == max || i + run_len(p, i, v, max) >= p.len() || p[i
            + run_len(p, i, v, max)] != v),
    decreases max,
{
    if max == 0 || i < 0 || i >= p.len() || p[i] != v {
    } else {
        lemma_run_len_bounds(p, i + 1, v, (max - 1) as nat);
    }
}

/// The opcode stream the greedy packer emits from position `i` on.
pub open spec fn spec_pack_from(p: Seq<u8>, i: int) -> Seq<u8>
    decreases p.len() - i when all_levels(p) && 0 <= i
{
    if i >= p.len() {
        Seq::empty()
    } else {
        proof {
            lemma_pack_step_progress(p, i);
        }
        seq![pack_step(p, i).0] + spec_pack_from(p, i + pack_step(p, i).1)
    }
}

pub proof fn lemma_pack_step_progress(p: Seq<u8>, i: int)
    requires
        all_levels(p),
        0 <= i < p.len(),
    ensures
        1 <= pack_step(p, i).1,
        i + pack_step(p, i).1 <= p.len(),
{
    let px = p[i] & 7u8;
    assert(p[i] <= 7);
    lemma_mask7(p[i]);
    lemma_run_len_bounds(p, i, 7, 31);
    lemma_run_len_bounds(p, i, 0, 31);
    let n = run_len(p, i, 0, 31);
    lemma_run_len_bounds(p, i + n, 7, 2);
}

proof fn lemma_bits_tt0(n: u8, f: u8)
    requires
        n < 32,
        f < 2,
    ensures
        (f << 5u8 | n) >> 6u8 == 0,
        ((f << 5u8 | n) >> 5u8) & 1u8 == f,
        (f << 5u8 | n) & 0x1fu8 == n,
{
    assert((f << 5u8 | n) >> 6u8 == 0) by (bit_vector)
        requires
            n < 32,
            f < 2,
    ;
    assert(((f << 5u8 | n) >> 5u8) & 1u8 == f) by (bit_vector)
        requires
            n < 32,
            f < 2,
    ;
    assert((f << 5u8 | n) & 0x1fu8 == n) by (bit_vector)
        requires
            n < 32,
            f < 2,
    ;
}

proof fn lemma_bits_tt1(n: u8, f: u8)
    requires
        n < 32,
        f < 2,
    ensures
        (0x40u8 | f << 5u8 | n) >> 6u8 == 1,
        ((0x40u8 | f << 5u8 | n) >> 5u8) & 1u8 == f,
        (0x40u8 | f << 5u8 | n) & 0x1fu8 == n,
{
    assert((0x40u8 | f << 5u8 | n) >> 6u8 == 1) by (bit_vector)
        requires
            n < 32,
            f < 2,
    ;
    assert(((0x40u8 | f << 5u8 | n) >> 5u8) & 1u8 == f) by (bit_vector)
        requires
            n < 32,
            f < 2,
    ;
    assert((0x40u8 | f << 5u8 | n) & 0x1fu8 == n) by (bit_vector)
        requires
            n < 32,
            f < 2,
    ;
}

proof fn lemma_bits_hi_lo(t: u8, a: u8, b: u8)
    requires
        t == 2 || t == 3,
        a < 8,
        b < 8,
    ensures
        (t << 6u8 | a << 3u8 | b) >> 6u8 == t,
        ((t << 6u8 | a << 3u8 | b) >> 3u8) & 7u8 == a,
        (t << 6u8 | a << 3u8 | b) & 7u8 == b,
{
    assert((t << 6u8 | a << 3u8 | b) >> 6u8 == t) by (bit_vector)
        requires
            t == 2 || t == 3,
            a < 8,
            b < 8,
    ;
    assert(((t << 6u8 | a << 3u8 | b) >> 3u8) & 7u8 == a) by (bit_vector)
        requires
            a < 8,
            b < 8,
    ;
    assert((t << 6u8 | a << 3u8 | b) & 7u8 == b) by (bit_vector)
        requires
            a < 8,
            b < 8,
    ;
}

/// Masking a 3-bit value with 7 leaves it unchanged.
pub proof fn lemma_mask7(x: u8)
    ensures
        x <= 7 ==> x & 7u8 == x,
{
    assert(x <= 7 ==> x & 7u8 == x) by (bit_vector);
}

/// A run of equal pixels is the `run` of that value.
proof fn lemma_subrange_is_run(p: Seq<u8>, i: int, n: nat, v: u8)
    requires
        0 <= i,
        i + n <= p.len(),
        forall|j: int| i <= j < i + n ==> #[trigger] p[j] == v,
    ensures
        p.subrange(i, i + n) == run(n, v),
{
    assert(p.subrange(i, i + n) =~= run(n, v));
}

/// Each greedy step's opcode decodes (under grey3) to exactly the pixels it
/// covers.
proof fn lemma_pack_step_decodes(p: Seq<u8>, i: int)
    requires
        all_levels(p),
        0 <= i < p.len(),
    ensures
        op_pixels(pack_step(p, i).0, false) == p.subrange(i, i + pack_step(p, i).1),
{
    lemma_pack_step_progress(p, i);
    let x = p[i];
    assert(x <= 7);
    lemma_mask7(x);
    let (b, k) = pack_step(p, i);
    if x == 7 {
        let n = run_len(p, i, 7, 31);
        lemma_run_len_bounds(p, i, 7, 31);
        assert((0x20u8 | (n as u8)) == (1u8 << 5u8 | (n as u8))) by (bit_vector);
        lemma_bits_tt0(n as u8, 1);
        lemma_subrange_is_run(p, i, n, 7);
        assert(op_pixels(b, false) =~= run(n, 7));
    } else if x == 0 {
        let n = run_len(p, i, 0, 31);
        lemma_run_len_bounds(p, i, 0, 31);
        lemma_subrange_is_run(p, i, n, 0);
        if i + n < p.len() && p[i + n] == 7 {
            let blacks = run_len(p, i + n, 7, 2);
            lemma_run_len_bounds(p, i + n, 7, 2);
            let f = ((blacks as u8) - 1) as u8;
            assert(f < 2);
            lemma_bits_tt1(n as u8, f);
            lemma_subrange_is_run(p, i + n, blacks, 7);
            assert(p.subrange(i, i + n + blacks) =~= p.subrange(i, i + n) + p.subrange(
                i + n,
                i + n + blacks,
            ));
            assert(op_pixels(b, false) =~= run(n, 0) + run(blacks, 7));
        } else if i + n < p.len() && n < 8 {
            let g = p[i + n];
            assert(g <= 7);
            assert((0x80u8 | (n as u8) << 3u8 | g) == (2u8 << 6u8 | (n as u8) << 3u8 | g))
                by (bit_vector);
            lemma_bits_hi_lo(2, n as u8, g);
            assert(p.subrange(i, i + n + 1) =~= p.subrange(i, i + n) + seq![g]);
            assert(op_pixels(b, false) =~= run(n, 0) + seq![g]);
        } else {
            assert(n > 0);
            lemma_bits_tt0(n as u8, 0);
            assert((0u8 << 5u8 | (n as u8)) == n as u8) by (bit_vector);
            assert(op_pixels(b, false) =~= run(n, 0));
        }
    } else {
        if i + 1 < p.len() {
            let y = p[i + 1];
            assert(y <= 7);
            lemma_mask7(y);
            assert((0xc0u8 | x << 3u8 | y) == (3u8 << 6u8 | x << 3u8 | y)) by (bit_vector);
            lemma_bits_hi_lo(3, x, y);
            assert(p.subrange(i, i + 2) =~= seq![x, y]);
        } else {
            assert((0x80u8 | x) == (2u8 << 6u8 | 0u8 << 3u8 | x)) by (bit_vector);
            lemma_bits_hi_lo(2, 0, x);
            assert(p.subrange(i, i + 1) =~= seq![x]);
            assert(op_pixels(b, false) =~= run(0, 0) + seq![x]);
        }
    }
}

/// Decoding the greedy opcode stream from `i` on gives back the pixels from
/// `i` on.
pub proof fn lemma_pack_from_decodes(p: Seq<u8>, i: int)
    requires
        all_levels(p),
        0 <= i <= p.len(),
    ensures
        ops_pixels(spec_pack_from(p, i), false) == p.subrange(i, p.len() as int),
    decreases p.len() - i,
{
    if i >= p.len() {
        assert(p.subrange(i, p.len() as int) =~= Seq::<u8>::empty());
    } else {
        lemma_pack_step_progress(p, i);
        let (b, k) = pack_step(p, i);
        lemma_pack_from_decodes(p, i + k);
        lemma_pack_step_decodes(p, i);
        lemma_ops_pixels_cons(b, spec_pack_from(p, i + k), false);
        assert(p.subrange(i, p.len() as int) =~= p.subrange(i, i + k) + p.subrange(
            i + k,
            p.len() as int,
        ));
    }
}

/// What `pack_pixels` produces: the grey3 scheme byte followed by the greedy
/// opcode stream.
pub open spec fn spec_pack(p: Seq<u8>) -> Seq<u8> {
    seq![SCHEME_GREY3] + spec_pack_from(p, 0)
}

/// Packing then unpacking 3-bit coverage values gives them back unchanged.
pub proof fn lemma_pack_unpack_roundtrip(p: Seq<u8>)
    requires
        all_levels(p),
    ensures
        spec_unpack(spec_pack(p)) == Ok::<Seq<u8>, u8>(p),
{
    lemma_pack_from_decodes(p, 0);
    assert(spec_pack(p)[0] == SCHEME_GREY3);
    assert(spec_pack(p).drop_first() =~= spec_pack_from(p, 0));
    assert(p.subrange(0, p.len() as int) =~= p);
}

fn run_len_at(pixels: &[u8], i: usize, v: u8, max: usize) -> (n: usize)
    requires
        i <= pixels@.len(),
    ensures
        n == run_len(pixels@, i as int, v, max as nat),
{
    let mut n: usize = 0;
    while n < max && n < pixels.len() - i && pixels[i + n] == v
        invariant
            n <= max,
            i + n <= pixels@.len(),
            run_len(pixels@, i as int, v, max as nat) == n + run_len(
                pixels@,
                (i + n) as int,
                v,
                (max - n) as nat,
            ),
        decreases max - n,
    {
        assert(run_len(pixels@, (i + n) as int, v, (max - n) as nat) == 1 + run_len(
            pixels@,
            (i + n + 1) as int,
            v,
            (max - n - 1) as nat,
        ));
        n = n + 1;
    }
    n
}

/// Encode 3-bit coverage values (row-major) as scheme-3 packed data, using
/// the same opcode set the Editor tooling writes. Not guaranteed
/// byte-identical to the Editor's output, but unpacking the result gives
/// the pixels back (see [`lemma_pack_unpack_roundtrip`]).
pub fn pack_pixels(pixels: &[u8]) -> (out: Vec<u8>)
    requires
        all_levels(pixels@),
    ensures
        out@ == spec_pack(pixels@),
        spec_unpack(out@) == Ok::<Seq<u8>, u8>(pixels@),
{
    let ghost p = pixels@;
    let mut out: Vec<u8> = Vec::new();
    out.push(SCHEME_GREY3);
    let mut i: usize = 0;
    while i < pixels.len()
        invariant
            p == pixels@,
            all_levels(p),
            i <= p.len(),
            out@ + spec_pack_from(p, i as int) == spec_pack(p),
        decreases p.len() - i,
    {
        proof {
            lemma_pack_step_progress(p, i as int);
        }
        let ghost step = pack_step(p, i as int);
        let x = pixels[i] & 7u8;
        let b: u8;
        let k: usize;
        if x == 7 {
            let n = run_len_at(pixels, i, 7, 31);
            proof {
                lemma_run_len_bounds(p, i as int, 7, 31);
            }
            b = 0x20u8 | (n as u8);
            k = n;
        } else if x == 0 {
            let n = run_len_at(pixels, i, 0, 31);
            proof {
                lemma_run_len_bounds(p, i as int, 0, 31);
            }
            if i + n < pixels.len() && pixels[i + n] == 7 {
                let blacks = run_len_at(pixels, i + n, 7, 2);
                proof {
                    lemma_run_len_bounds(p, (i + n) as int, 7, 2);
                }
                b = 0x40u8 | ((blacks as u8) - 1) << 5u8 | (n as u8);
                k = n + blacks;
            } else if i + n < pixels.len() && n < 8 {
                let g = pixels[i + n];
                b = 0x80u8 | (n as u8) << 3u8 | g;
                k = n + 1;
            } else {
                b = n as u8;
                k = n;
            }
        } else {
            if i + 1 < pixels.len() {
                b = 0xc0u8 | x << 3u8 | (pixels[i + 1] & 7u8);
                k = 2;
            } else {
                b = 0x80u8 | x;
                k = 1;
            }
        }
        proof {
            assert(b == step.0 && k == step.1);
            assert(spec_pack_from(p, i as int) == seq![b] + spec_pack_from(p, i + k));
            assert(out@.push(b) + spec_pack_from(p, i + k) =~= out@ + spec_pack_from(
                p,
                i as int,
            ));
        }
        out.push(b);
        i = i + k;
    }
    proof {
        assert(spec_pack_from(p, i as int) =~= Seq::<u8>::empty());
        assert(out@ =~= spec_pack(p));
        lemma_pack_unpack_roundtrip(p);
    }
    out
}

// ---------------------------------------------------------------------------
// Font container
// ---------------------------------------------------------------------------

/// One glyph of a `.zi` font.
#[derive(Debug, Clone, PartialEq, Eq)]
pub struct Glyph {
    pub char_id: u16,
    pub ink_w: u8,
    pub pad_left: u8,
    pub pad_right: u8,
    /// Raw packed data, including the leading scheme byte.
    pub packed: Vec<u8>,
}

/// A glyph as plain values.
pub struct GlyphModel {
    pub char_id: u16,
    pub ink_w: u8,
    pub pad_left: u8,
    pub pad_right: u8,
    pub packed: Seq<u8>,
}

impl View for Glyph {
    type V = GlyphModel;

    open spec fn view(&self) -> GlyphModel {
        GlyphModel {
            char_id: self.char_id,
            ink_w: self.ink_w,
            pad_left: self.pad_left,
            pad_right: self.pad_right,
            packed: self.packed@,
        }
    }
}

/// A parsed `.zi` font file.
#[derive(Debug, Clone, PartialEq, Eq)]
pub struct FontFile {
    /// Header byte 3: 10 = vertical, 11 = horizontal, 12/13 = rotated variants.
    pub layout: u8,
    /// Header byte 4: charset id (3 = iso-8859-1, 24 = utf-8, ...).
    pub charset_id: u8,
    /// Header byte 5: 0 = single-byte full charset, 1 = double-byte full, 2 = subset.
    pub charset_coverage: u8,
    /// Header byte 6: fixed advance width (0 for variable-width fonts).
    pub fixed_advance: u8,
    /// Header byte 7: glyph height in pixels.
    pub line_px: u8,
    /// Header byte 16: 5 or 6.
    pub format_rev: u8,
    /// `<label><encoding>` string, `header[17]` bytes long, not NUL-terminated.
    pub label: String,
    pub glyphs: Vec<Glyph>,
}

/// A font file as plain values.
pub struct FontFileModel {
    pub layout: u8,
    pub charset_id: u8,
    pub charset_coverage: u8,
    pub fixed_advance: u8,
    pub line_px: u8,
    pub format_rev: u8,
    pub label: Seq<char>,
    pub glyphs: Seq<GlyphModel>,
}

impl View for FontFile {
    type V = FontFileModel;

    open spec fn view(&self) -> FontFileModel {
        FontFileModel {
            layout: self.layout,
            charset_id: self.charset_id,
            charset_coverage: self.charset_coverage,
            fixed_advance: self.fixed_advance,
            line_px: self.line_px,
            format_rev: self.format_rev,
            label: self.label@,
            glyphs: self.glyphs@.map_values(|g: Glyph| g@),
        }
    }
}

/// Bitmap width of a glyph: ink width plus left and right padding.
pub open spec fn spec_cell_w(g: GlyphModel) -> nat {
    (g.ink_w + g.pad_left + g.pad_right) as nat
}

/// Result of decoding a glyph whose cell is `cell_w * line_px` pixels.
pub open spec fn spec_glyph_unpack(g: GlyphModel, line_px: u8) -> Result<Seq<u8>, ZiError> {
    let expected = spec_cell_w(g) * line_px;
    match spec_unpack(g.packed) {
        Err(scheme) => Err(ZiError::UnknownPackingScheme(scheme)),
        Ok(px) => if px.len() == expected {
            Ok(px)
        } else {
            Err(
                ZiError::PixelCountMismatch {
                    char_id: g.char_id,
                    expected: expected as usize,
                    actual: px.len() as usize,
                },
            )
        },
    }
}

impl Glyph {
    /// Bitmap width: ink width plus left/right padding.
    pub fn cell_w(&self) -> (w: usize)
        ensures
            w == spec_cell_w(self@),
    {
        self.ink_w as usize + self.pad_left as usize + self.pad_right as usize
    }

    /// Decode to row-major 3-bit coverage values, `cell_w * line_px` long.
    pub fn unpack(&self, line_px: u8) -> (r: Result<Vec<u8>, ZiError>)
        ensures
            match spec_glyph_unpack(self@, line_px) {
                Ok(px) => r matches Ok(v) && v@ == px,
                Err(e) => r == Err::<Vec<u8>, ZiError>(e),
            },
    {
        let w = self.cell_w();
        assert(w * (line_px as usize) <= 765 * 255) by (nonlinear_arith)
            requires
                w <= 765,
        ;
        let expected = w * line_px as usize;
        let pixels = match unpack_pixels(self.packed.as_slice()) {
            Ok(p) => p,
            Err(e) => {
                return Err(e);
            },
        };
        if pixels.len() != expected {
            return Err(
                ZiError::PixelCountMismatch {
                    char_id: self.char_id,
                    expected,
                    actual: pixels.len(),
                },
            );
        }
        Ok(pixels)
    }
}

/// Little-endian `u16` from two bytes.
pub open spec fn le16(lo: u8, hi: u8) -> int {
    lo as int + 256 * (hi as int)
}

/// Little-endian 24-bit value from three bytes.
pub open spec fn le24(b0: u8, b1: u8, b2: u8) -> int {
    b0 as int + 256 * (b1 as int) + 65536 * (b2 as int)
}

/// Little-endian `u32` from four bytes.
pub open spec fn le32(b0: u8, b1: u8, b2: u8, b3: u8) -> int {
    le24(b0, b1, b2) + 16777216 * (b3 as int)
}

/// Start of the glyph index table: the header, then the label.
pub open spec fn zi_table(bytes: Seq<u8>) -> int {
    PREAMBLE_BYTES + bytes[17]
}

/// Number of glyph index entries declared by the header.
pub open spec fn zi_count(bytes: Seq<u8>) -> int {
    le32(bytes[12], bytes[13], bytes[14], bytes[15])
}

/// Multiplier applied to stored glyph offsets (header byte 33 = 1: offsets
/// are stored divided by 8).
pub open spec fn zi_scale(bytes: Seq<u8>) -> int {
    if bytes[33] == 1 {
        8
    } else {
        1
    }
}

/// Offset of the `k`th index entry.
pub open spec fn zi_entry(bytes: Seq<u8>, k: int) -> int {
    zi_table(bytes) + k * INDEX_ENTRY_BYTES
}

/// Character id of the `k`th index entry.
pub open spec fn zi_char_id(bytes: Seq<u8>, k: int) -> u16 {
    let e = zi_entry(bytes, k);
    le16(bytes[e], bytes[e + 1]) as u16
}

/// Where the `k`th glyph's packed data starts.
pub open spec fn zi_data_start(bytes: Seq<u8>, k: int) -> int {
    let e = zi_entry(bytes, k);
    zi_table(bytes) + le24(bytes[e + 5], bytes[e + 6], bytes[e + 7]) * zi_scale(bytes)
}

/// Length of the `k`th glyph's packed data.
pub open spec fn zi_data_len(bytes: Seq<u8>, k: int) -> int {
    let e = zi_entry(bytes, k);
    le16(bytes[e + 8], bytes[e + 9])
}

/// Whether the `k`th glyph's packed data lies inside the file.
pub open spec fn zi_in_bounds(bytes: Seq<u8>, k: int) -> bool {
    zi_data_start(bytes, k) + zi_data_len(bytes, k) <= bytes.len()
}

/// The `k`th glyph.
pub open spec fn zi_glyph(bytes: Seq<u8>, k: int) -> GlyphModel {
    let e = zi_entry(bytes, k);
    GlyphModel {
        char_id: zi_char_id(bytes, k),
        ink_w: bytes[e + 2],
        pad_left: bytes[e + 3],
        pad_right: bytes[e + 4],
        packed: bytes.subrange(
            zi_data_start(bytes, k),
            zi_data_start(bytes, k) + zi_data_len(bytes, k),
        ),
    }
}

/// Result of parsing a `.zi` file.
pub open spec fn spec_font_parse(bytes: Seq<u8>) -> Result<FontFileModel, ZiError> {
    if bytes.len() < PREAMBLE_BYTES {
        Err(ZiError::Truncated)
    } else if bytes[0] != 4 {
        Err(ZiError::BadMagic(bytes[0]))
    } else if bytes.len() < zi_table(bytes) + zi_count(bytes) * INDEX_ENTRY_BYTES {
        Err(ZiError::Truncated)
    } else if exists|k: int| 0 <= k < zi_count(bytes) && !zi_in_bounds(bytes, k) {
        let k = choose|k: int|
            0 <= k < zi_count(bytes) && !zi_in_bounds(bytes, k) && forall|j: int|
                0 <= j < k ==> zi_in_bounds(bytes, j);
        Err(ZiError::GlyphOutOfBounds { char_id: zi_char_id(bytes, k) })
    } else {
        Ok(
            FontFileModel {
                layout: bytes[3],
                charset_id: bytes[4],
                charset_coverage: bytes[5],
                fixed_advance: bytes[6],
                line_px: bytes[7],
                format_rev: bytes[16],
                label: utf8_lossy(bytes.subrange(PREAMBLE_BYTES as int, zi_table(bytes))),
                glyphs: Seq::new(zi_count(bytes) as nat, |k: int| zi_glyph(bytes, k)),
            },
        )
    }
}

fn read_le16(bytes: &[u8], at: usize) -> (v: u16)
    requires
        at + 2 <= bytes@.len(),
    ensures
        v == le16(bytes@[at as int], bytes@[at + 1]),
{
    bytes[at] as u16 + 256 * (bytes[at + 1] as u16)
}

impl FontFile {
    /// Parse a `.zi` font file: header, label and glyph index; each glyph's
    /// packed data is copied out of the file.
    pub fn parse(bytes: &[u8]) -> (r: Result<FontFile, ZiError>)
        ensures
            match spec_font_parse(bytes@) {
                Ok(m) => r matches Ok(f) && f@ == m,
                Err(e) => r matches Err(e2) && e2 == e,
            },
            r matches Ok(f) ==> (valid_utf8(bytes@.subrange(PREAMBLE_BYTES as int, zi_table(bytes@)))
                ==> f.label@ == decode_utf8(bytes@.subrange(PREAMBLE_BYTES as int, zi_table(bytes@)))),
    {
        if bytes.len() < PREAMBLE_BYTES {
            return Err(ZiError::Truncated);
        }
        if bytes[0] != 4 {
            return Err(ZiError::BadMagic(bytes[0]));
        }
        let count: u32 = bytes[12] as u32 + 256 * (bytes[13] as u32) + 65536 * (bytes[14] as u32)
            + 16777216 * (bytes[15] as u32);
        let label_len = bytes[17] as usize;
        let offset_scale: usize = if bytes[33] == 1 {
            8
        } else {
            1
        };
        let table = PREAMBLE_BYTES + label_len;
        let table_end: u64 = table as u64 + (count as u64) * (INDEX_ENTRY_BYTES as u64);
        if (bytes.len() as u64) < table_end {
            return Err(ZiError::Truncated);
        }
        let label_bytes = &bytes[PREAMBLE_BYTES..table];
        let label = string_from_utf8_lossy(label_bytes);
        let ghost b = bytes@;
        let n = count as usize;
        let mut glyphs: Vec<Glyph> = Vec::new();
        let mut k: usize = 0;
        while k < n
            invariant
                b == bytes@,
                b.len() >= PREAMBLE_BYTES,
                b[0] == 4,
                n == zi_count(b),
                table == zi_table(b),
                offset_scale == zi_scale(b),
                table + n * 10 <= b.len(),
                b.len() <= usize::MAX,
                k <= n,
                glyphs@.len() == k,
                forall|j: int| 0 <= j < k ==> zi_in_bounds(b, j),
                forall|j: int| 0 <= j < k ==> #[trigger] glyphs@[j]@ == zi_glyph(b, j),
            decreases n - k,
        {
            assert(table + k * 10 + 10 <= b.len()) by (nonlinear_arith)
                requires
                    k < n,
                    table + n * 10 <= b.len(),
            ;
            let e = table + k * 10;
            let char_id = read_le16(bytes, e);
            let off24: usize = bytes[e + 5] as usize + 256 * (bytes[e + 6] as usize) + 65536 * (
            bytes[e + 7] as usize);
            let offset = off24 * offset_scale;
            let len = read_le16(bytes, e + 8) as usize;
            let start = table + offset;
            proof {
                assert(off24 == le24(b[e + 5], b[e + 6], b[e + 7]));
                if offset_scale == 1 {
                    assert(offset == off24);
                } else {
                    assert(offset == off24 * 8);
                }
                assert(start == zi_data_start(b, k as int));
                assert(len == zi_data_len(b, k as int));
            }
            if start > bytes.len() || len > bytes.len() - start {
                proof {
                    assert(!zi_in_bounds(b, k as int));
                    assert(0 <= k < zi_count(b) && !zi_in_bounds(b, k as int) && forall|j: int|
                        0 <= j < k ==> zi_in_bounds(b, j));
                    let w = choose|w: int|
                        0 <= w < zi_count(b) && !zi_in_bounds(b, w) && forall|j: int|
                            0 <= j < w ==> zi_in_bounds(b, j);
                    assert(0 <= w < zi_count(b) && !zi_in_bounds(b, w) && forall|j: int|
                        0 <= j < w ==> zi_in_bounds(b, j));
                    assert(w == k) by {
                        if w < k {
                            assert(zi_in_bounds(b, w));
                        } else if w > k {
                            assert(zi_in_bounds(b, k as int));
                        }
                    };
                }
                return Err(ZiError::GlyphOutOfBounds { char_id });
            }
            let packed = vstd::slice::slice_to_vec(&bytes[start..start + len]);
            glyphs.push(
                Glyph { char_id, ink_w: bytes[e + 2], pad_left: bytes[e + 3], pad_right: bytes[e + 4], packed },
            );
            proof {
                assert(glyphs@[k as int]@ == zi_glyph(b, k as int));
            }
            k = k + 1;
        }
        let f = FontFile {
            layout: bytes[3],
            charset_id: bytes[4],
            charset_coverage: bytes[5],
            fixed_advance: bytes[6],
            line_px: bytes[7],
            format_rev: bytes[16],
            label,
            glyphs,
        };
        proof {
            assert(f@.glyphs =~= Seq::new(zi_count(b) as nat, |j: int| zi_glyph(b, j)));
        }
        Ok(f)
    }

    /// The first glyph with the given character id, if any.
    pub fn find(&self, char_id: u16) -> (r: Option<&Glyph>)
        ensures
            match r {
                None => forall|i: int|
                    0 <= i < self.glyphs@.len() ==> #[trigger] self.glyphs@[i].char_id != char_id,
                Some(g) => exists|i: int|
                    0 <= i < self.glyphs@.len() && self.glyphs@[i] == *g && g.char_id == char_id
                        && forall|j: int|
                        0 <= j < i ==> #[trigger] self.glyphs@[j].char_id != char_id,
            },
    {
        let mut i: usize = 0;
        while i < self.glyphs.len()
            invariant
                i <= self.glyphs@.len(),
                forall|j: int| 0 <= j < i ==> #[trigger] self.glyphs@[j].char_id != char_id,
            decreases self.glyphs@.len() - i,
        {
            if self.glyphs[i].char_id == char_id {
                return Some(&self.glyphs[i]);
            }
            i = i + 1;
        }
        None
    }
}

// ---------------------------------------------------------------------------
// The packing scheme and the font file, stated against the bytes
// ---------------------------------------------------------------------------

proof fn lemma_opcode_fields(b: u8)
    ensures
        b >> 6u8 == b / 64,
        (b >> 5u8) & 1u8 == (b / 32) % 2,
        b & 0x1fu8 == b % 32,
        (b >> 3u8) & 7u8 == (b / 8) % 8,
        b & 7u8 == b % 8,
{
    assert(b >> 6u8 == b / 64) by (bit_vector);
    assert((b >> 5u8) & 1u8 == (b / 32) % 2) by (bit_vector);
    assert(b & 0x1fu8 == b % 32) by (bit_vector);
    assert((b >> 3u8) & 7u8 == (b / 8) % 8) by (bit_vector);
    assert(b & 7u8 == b % 8) by (bit_vector);
}

/// The opcode table. An opcode byte `b` reads as `tt f nnnnn`: `tt = b / 64`,
/// `f = b / 32 % 2`, `n = b % 32`; the forms with two 3-bit fields read
/// `a = b / 8 % 8` and `c = b % 8`. Alone after the scheme byte it stands for:
/// - `tt = 0`: `n` pixels, all 7 when `f` is set and all 0 otherwise;
/// - `tt = 1`: `n` zeros, then `1 + f` sevens;
/// - `tt = 2`: bilevel, `n` zeros then `3 + f` sevens; grey3, `a` zeros then
///   the level `c`;
/// - `tt = 3`: bilevel, `a` zeros then `c` sevens; grey3, the levels `a`, `c`.
pub proof fn lemma_opcode_table(b: u8)
    ensures
        b / 64 == 0 ==> spec_unpack(seq![SCHEME_BILEVEL, b]) == Ok::<Seq<u8>, u8>(
            Seq::new((b % 32) as nat, |i: int| if (b / 32) % 2 == 1 { 7u8 } else { 0u8 }),
        ) && spec_unpack(seq![SCHEME_GREY3, b]) == Ok::<Seq<u8>, u8>(
            Seq::new((b % 32) as nat, |i: int| if (b / 32) % 2 == 1 { 7u8 } else { 0u8 }),
        ),
        b / 64 == 1 ==> spec_unpack(seq![SCHEME_BILEVEL, b]) == Ok::<Seq<u8>, u8>(
            Seq::new((b % 32 + 1 + (b / 32) % 2) as nat, |i: int| if i < b % 32 { 0u8 } else { 7u8 }),
        ) && spec_unpack(seq![SCHEME_GREY3, b]) == Ok::<Seq<u8>, u8>(
            Seq::new((b % 32 + 1 + (b / 32) % 2) as nat, |i: int| if i < b % 32 { 0u8 } else { 7u8 }),
        ),
        b / 64 == 2 ==> spec_unpack(seq![SCHEME_BILEVEL, b]) == Ok::<Seq<u8>, u8>(
            Seq::new((b % 32 + 3 + (b / 32) % 2) as nat, |i: int| if i < b % 32 { 0u8 } else { 7u8 }),
        ) && spec_unpack(seq![SCHEME_GREY3, b]) == Ok::<Seq<u8>, u8>(
            Seq::new(((b / 8) % 8 + 1) as nat, |i: int| if i < (b / 8) % 8 { 0u8 } else { (b % 8) as u8 }),
        ),
        b / 64 == 3 ==> spec_unpack(seq![SCHEME_BILEVEL, b]) == Ok::<Seq<u8>, u8>(
            Seq::new(((b / 8) % 8 + b % 8) as nat, |i: int| if i < (b / 8) % 8 { 0u8 } else { 7u8 }),
        ) && spec_unpack(seq![SCHEME_GREY3, b]) == Ok::<Seq<u8>, u8>(
            seq![((b / 8) % 8) as u8, (b % 8) as u8],
        ),
{
    lemma_opcode_fields(b);
    let e = Seq::<u8>::empty();
    assert(ops_pixels(e, true) == e);
    assert(ops_pixels(e, false) == e);
    lemma_ops_pixels_cons(b, e, true);
    lemma_ops_pixels_cons(b, e, false);
    assert(seq![b] + e =~= seq![b]);
    assert(seq![SCHEME_BILEVEL, b].drop_first() =~= seq![b]);
    assert(seq![SCHEME_GREY3, b].drop_first() =~= seq![b]);
    assert(op_pixels(b, true) + e =~= op_pixels(b, true));
    assert(op_pixels(b, false) + e =~= op_pixels(b, false));
    let n = (b % 32) as nat;
    let f = ((b / 32) % 2) as nat;
    let a = ((b / 8) % 8) as nat;
    let c = (b % 8) as u8;
    if b / 64 == 0 {
        assert(op_pixels(b, true) =~= Seq::new(n, |i: int| if f == 1 { 7u8 } else { 0u8 }));
        assert(op_pixels(b, false) =~= Seq::new(n, |i: int| if f == 1 { 7u8 } else { 0u8 }));
    } else if b / 64 == 1 {
        assert(op_pixels(b, true) =~= Seq::new(n + 1 + f, |i: int| if i < n { 0u8 } else { 7u8 }));
        assert(op_pixels(b, false) =~= Seq::new(n + 1 + f, |i: int| if i < n { 0u8 } else { 7u8 }));
    } else if b / 64 == 2 {
        assert(op_pixels(b, true) =~= Seq::new(n + 3 + f, |i: int| if i < n { 0u8 } else { 7u8 }));
        assert(op_pixels(b, false) =~= Seq::new(a + 1, |i: int| if i < a { 0u8 } else { c }));
    } else {
        assert(op_pixels(b, true) =~= Seq::new(a + c as nat, |i: int| if i < a { 0u8 } else { 7u8 }));
        assert(op_pixels(b, false) =~= seq![a as u8, c]);
    }
}

/// Decoding opcodes is decoding each in turn: the pixels of two opcode
/// streams after one scheme byte are the pixels of the first stream, then
/// those of the second. Empty data has no pixels, and a scheme byte other
/// than 1 or 3 is refused, whatever follows.
pub proof fn lemma_unpack_streams(scheme: u8, a: Seq<u8>, b: Seq<u8>)
    ensures
        spec_unpack(Seq::<u8>::empty()) == Ok::<Seq<u8>, u8>(Seq::empty()),
        scheme != SCHEME_BILEVEL && scheme != SCHEME_GREY3 ==> spec_unpack(seq![scheme] + a)
            == Err::<Seq<u8>, u8>(scheme),
        (scheme == SCHEME_BILEVEL || scheme == SCHEME_GREY3) ==> spec_unpack(seq![scheme] + a + b)
            == Ok::<Seq<u8>, u8>(
            spec_unpack(seq![scheme] + a)->Ok_0 + spec_unpack(seq![scheme] + b)->Ok_0,
        ),
{
    let mono = scheme == SCHEME_BILEVEL;
    assert((seq![scheme] + a)[0] == scheme);
    assert((seq![scheme] + a + b)[0] == scheme);
    assert((seq![scheme] + a).drop_first() =~= a);
    assert((seq![scheme] + b).drop_first() =~= b);
    assert((seq![scheme] + a + b).drop_first() =~= a + b);
    lemma_ops_pixels_concat(a, b, mono);
}

proof fn lemma_ops_pixels_concat(a: Seq<u8>, b: Seq<u8>, mono: bool)
    ensures
        ops_pixels(a + b, mono) == ops_pixels(a, mono) + ops_pixels(b, mono),
    decreases a.len(),
{
    if a.len() == 0 {
        assert(a + b =~= b);
        assert(ops_pixels(a, mono) + ops_pixels(b, mono) =~= ops_pixels(b, mono));
    } else {
        lemma_ops_pixels_concat(a.drop_first(), b, mono);
        assert((a + b).drop_first() =~= a.drop_first() + b);
        assert((a + b)[0] == a[0]);
        assert(op_pixels(a[0], mono) + (ops_pixels(a.drop_first(), mono) + ops_pixels(b, mono))
            =~= (op_pixels(a[0], mono) + ops_pixels(a.drop_first(), mono)) + ops_pixels(b, mono));
    }
}

/// What a parsed font holds, read off the file's bytes: the header fields at
/// bytes 3..=7 and 16; as many glyphs as the little-endian count at bytes
/// 12..16; and the `k`th glyph from the `k`th 10-byte index entry, which
/// starts after the 44-byte header and the label (its length at byte 17):
/// character id little-endian at +0, ink width at +2, left padding at +3,
/// right padding at +4, and the packed bytes that start at the
/// little-endian 24-bit offset at +5 (times 8 when byte 33 is 1) from the
/// entry table's start, as long as the little-endian length at +8. A file
/// shorter than the header, or without 4 as its first byte, is refused.
pub proof fn lemma_font_fields(b: Seq<u8>)
    ensures
        b.len() < 44 ==> spec_font_parse(b) == Err::<FontFileModel, ZiError>(ZiError::Truncated),
        b.len() >= 44 && b[0] != 4 ==> spec_font_parse(b) == Err::<FontFileModel, ZiError>(
            ZiError::BadMagic(b[0]),
        ),
        spec_font_parse(b) matches Ok(f) ==> {
            &&& b.len() >= 44 && b[0] == 4
            &&& f.layout == b[3] && f.charset_id == b[4] && f.charset_coverage == b[5]
            &&& f.fixed_advance == b[6] && f.line_px == b[7] && f.format_rev == b[16]
            &&& f.glyphs.len() == b[12] + 256 * b[13] + 65536 * b[14] + 16777216 * b[15]
            &&& forall|k: int|
                0 <= k < f.glyphs.len() ==> {
                    let e = 44 + b[17] + 10 * k;
                    let start = 44 + b[17] + (b[e + 5] + 256 * b[e + 6] + 65536 * b[e + 7]) * (
                    if b[33] == 1 {
                        8int
                    } else {
                        1int
                    });
                    &&& #[trigger] f.glyphs[k].char_id == b[e] + 256 * b[e + 1]
                    &&& f.glyphs[k].ink_w == b[e + 2]
                    &&& f.glyphs[k].pad_left == b[e + 3]
                    &&& f.glyphs[k].pad_right == b[e + 4]
                    &&& f.glyphs[k].packed == b.subrange(start, start + b[e + 8] + 256 * b[e + 9])
                }
        },
{
    if spec_font_parse(b) is Ok {
        let f = spec_font_parse(b)->Ok_0;
        assert forall|k: int| 0 <= k < f.glyphs.len() implies #[trigger] f.glyphs[k] == zi_glyph(b, k)
            && (zi_char_id(b, k) as int) == b[zi_entry(b, k)] + 256 * b[zi_entry(b, k) + 1] by {
            let e = zi_entry(b, k);
            assert(le16(b[e], b[e + 1]) < 65536);
        }
    }
}

} // verus!
