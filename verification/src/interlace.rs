use vstd::prelude::*;
use vstd::arithmetic::mul::lemma_mul_inequality;
use vstd::arithmetic::div_mod::{lemma_fundamental_div_mod, lemma_mod_bound, lemma_mod_decreases};
use crate::error::PngError;
use crate::header::{ImageHeader, bits_per_pixel, buffer_size, row_bytes, stride, filter_step};
use crate::filter::{unfilter_stream, zero_row};

verus! {

// The seven progressive passes sample the image on a fixed 8x8 grid: each
// pass has a starting column and row and a column and row step.
pub open spec fn pass_x0(p: int) -> nat {
    if p == 0 {
        0
    } else if p == 1 {
        4
    } else if p == 2 {
        0
    } else if p == 3 {
        2
    } else if p == 4 {
        0
    } else if p == 5 {
        1
    } else {
        0
    }
}

pub open spec fn pass_y0(p: int) -> nat {
    if p == 0 {
        0
    } else if p == 1 {
        0
    } else if p == 2 {
        4
    } else if p == 3 {
        0
    } else if p == 4 {
        2
    } else if p == 5 {
        0
    } else {
        1
    }
}

pub open spec fn pass_dx(p: int) -> nat {
    if p == 0 {
        8
    } else if p == 1 {
        8
    } else if p == 2 {
        4
    } else if p == 3 {
        4
    } else if p == 4 {
        2
    } else if p == 5 {
        2
    } else {
        1
    }
}

pub open spec fn pass_dy(p: int) -> nat {
    if p == 0 {
        8
    } else if p == 1 {
        8
    } else if p == 2 {
        8
    } else if p == 3 {
        4
    } else if p == 4 {
        4
    } else if p == 5 {
        2
    } else {
        2
    }
}

/// How many of the positions `start, start + step, ...` fall below `total`.
pub open spec fn grid_count(total: nat, start: nat, step: nat) -> nat {
    if total > start {
        ((total - start - 1) / (step as int) + 1) as nat
    } else {
        0
    }
}

/// Pixels per scanline of a pass.
pub open spec fn pass_w(h: ImageHeader, p: int) -> nat {
    grid_count(h.width as nat, pass_x0(p), pass_dx(p))
}

/// Scanlines of a pass.
pub open spec fn pass_h(h: ImageHeader, p: int) -> nat {
    grid_count(h.height as nat, pass_y0(p), pass_dy(p))
}

/// Packed bytes of one pass scanline.
pub open spec fn pass_stride(h: ImageHeader, p: int) -> nat {
    row_bytes(h, pass_w(h, p))
}

/// Bytes a pass contributes to the filtered stream: a filter byte plus a
/// packed scanline per row; an empty pass contributes nothing, not even
/// filter bytes.
pub open spec fn pass_filtered_len(h: ImageHeader, p: int) -> nat {
    if pass_w(h, p) > 0 && pass_h(h, p) > 0 {
        pass_h(h, p) * (1 + pass_stride(h, p))
    } else {
        0
    }
}

/// Bytes of the filtered stream taken by the passes before `p`.
pub open spec fn pass_off(h: ImageHeader, p: int) -> nat
    decreases p,
{
    if p <= 0 {
        0
    } else {
        pass_off(h, p - 1) + pass_filtered_len(h, p - 1)
    }
}

/// The exact length of the decompressed, still-filtered scanline stream.
pub open spec fn filtered_len(h: ImageHeader) -> nat {
    if h.interlaced {
        pass_off(h, 7)
    } else {
        (h.height as nat) * (1 + stride(h))
    }
}

/// Grid positions stay inside the image.
pub proof fn lemma_grid_in_range(total: nat, start: nat, step: nat, i: nat)
    requires
        step >= 1,
        i < grid_count(total, start, step),
    ensures
        start + i * step < total,
{
    let q = (total - start - 1) / (step as int);
    lemma_fundamental_div_mod(total - start - 1, step as int);
    lemma_mod_bound(total - start - 1, step as int);
    lemma_mul_inequality(i as int, q, step as int);
    assert(q * step <= total - start - 1);
    assert(i * step <= q * step);
}

/// Pass offsets stay within the total filtered length.
pub proof fn lemma_pass_off_in_range(h: ImageHeader, p: int)
    requires
        0 <= p <= 7,
    ensures
        pass_off(h, p) + pass_off_rest(h, p) == pass_off(h, 7),
        pass_off(h, p) <= pass_off(h, 7),
    decreases 7 - p,
{
    if p < 7 {
        lemma_pass_off_in_range(h, p + 1);
    }
}

/// Bytes the passes from `p` on contribute.
pub open spec fn pass_off_rest(h: ImageHeader, p: int) -> nat
    decreases 7 - p,
{
    if p >= 7 {
        0
    } else {
        pass_filtered_len(h, p) + pass_off_rest(h, p + 1)
    }
}

/// A power of two below 256.
pub open spec fn pow2u8(e: nat) -> u8 {
    if e == 0 {
        1
    } else if e == 1 {
        2
    } else if e == 2 {
        4
    } else if e == 3 {
        8
    } else if e == 4 {
        16
    } else if e == 5 {
        32
    } else if e == 6 {
        64
    } else {
        128
    }
}

/// The packed pixel value at column `c` of a scanline with `d` bits per
/// pixel, `d` below eight: the `d` bits starting at bit `c * d`, counted
/// from the most significant end of each byte.
pub open spec fn get_px_sub(prow: Seq<u8>, d: nat, c: int) -> u8
    recommends
        d == 1 || d == 2 || d == 4,
        0 <= c,
        c * d < 8 * prow.len(),
{
    let bit = c * d;
    let sh = pow2u8((8 - d - (bit % 8)) as nat) as nat;
    (((prow[bit / 8] as nat) / sh) % (pow2u8(d) as nat)) as u8
}

/// The buffer with the packed pixel at column `x` of the row starting at
/// byte `base` replaced by `v`'s low `d` bits, every other bit unchanged.
pub open spec fn set_px_sub(out: Seq<u8>, base: int, d: nat, x: int, v: u8) -> Seq<u8>
    recommends
        d == 1 || d == 2 || d == 4,
        0 <= x,
        0 <= base,
        base + (x * d) / 8 < out.len(),
{
    let bit = x * d;
    let j = base + bit / 8;
    let sh = pow2u8((8 - d - (bit % 8)) as nat) as nat;
    let pd = pow2u8(d) as nat;
    let old = out[j] as nat;
    let cleared = old - ((old / sh) % pd) * sh;
    out.update(j, (((cleared + ((v as nat) % pd) * sh)) % 256) as u8)
}

/// The buffer with `nb` bytes starting at `pbase` of a pass scanline copied
/// to `base`.
pub open spec fn place_bytes(out: Seq<u8>, base: int, prow: Seq<u8>, pbase: int, nb: nat) -> Seq<
    u8,
>
    decreases nb,
{
    if nb == 0 {
        out
    } else {
        place_bytes(out, base, prow, pbase, (nb - 1) as nat).update(
            base + nb - 1,
            prow[pbase + nb - 1],
        )
    }
}

/// One pass pixel dropped into its final position: whole bytes for pixels
/// of a byte or more, a masked in-byte update for packed depths.
pub open spec fn place_px(out: Seq<u8>, h: ImageHeader, y: int, x: int, prow: Seq<u8>, c: int) -> Seq<
    u8,
> {
    let bpp = bits_per_pixel(h);
    if bpp % 8 == 0 {
        place_bytes(out, y * stride(h) + x * (bpp / 8), prow, c * (bpp / 8), bpp / 8)
    } else {
        set_px_sub(out, y * stride(h), bpp, x, get_px_sub(prow, bpp, c))
    }
}

/// The first `cols` pixels of pass `p`'s scanline `r` placed.
pub open spec fn place_row(
    out: Seq<u8>,
    h: ImageHeader,
    p: int,
    r: int,
    prow: Seq<u8>,
    cols: nat,
) -> Seq<u8>
    decreases cols,
{
    if cols == 0 {
        out
    } else {
        place_px(
            place_row(out, h, p, r, prow, (cols - 1) as nat),
            h,
            pass_y0(p) + r * pass_dy(p),
            pass_x0(p) + (cols - 1) * pass_dx(p),
            prow,
            cols - 1,
        )
    }
}

/// The first `rows` scanlines of pass `p` placed, `pd` being the pass's
/// reconstructed bytes.
pub open spec fn place_pass(
    out: Seq<u8>,
    h: ImageHeader,
    p: int,
    pd: Seq<u8>,
    rows: nat,
) -> Seq<u8>
    decreases rows,
{
    if rows == 0 {
        out
    } else {
        let r = rows - 1;
        let ps = pass_stride(h, p);
        place_row(
            place_pass(out, h, p, pd, (rows - 1) as nat),
            h,
            p,
            r,
            pd.subrange(r * ps, (r + 1) * ps),
            pass_w(h, p),
        )
    }
}

/// The image after the first `p` passes: each non-empty pass's region of
/// the filtered stream unfiltered on its own, then its pixels re-interleaved
/// into a buffer that starts all zero. A bad filter byte in any pass stops
/// the decode.
pub open spec fn deinter_upto(h: ImageHeader, raw: Seq<u8>, p: int) -> Result<Seq<u8>, PngError>
    decreases p,
{
    if p <= 0 {
        Ok(zero_row(buffer_size(h)))
    } else {
        match deinter_upto(h, raw, p - 1) {
            Err(e) => Err(e),
            Ok(out) => {
                let pw = pass_w(h, p - 1);
                let ph = pass_h(h, p - 1);
                if pw == 0 || ph == 0 {
                    Ok(out)
                } else {
                    let ps = pass_stride(h, p - 1);
                    let off = pass_off(h, p - 1);
                    let region = raw.subrange(off as int, (off + ph * (1 + ps)) as int);
                    match unfilter_stream(region, ph, ps, filter_step(h)) {
                        Err(e) => Err(e),
                        Ok(pd) => Ok(place_pass(out, h, p - 1, pd, ph)),
                    }
                }
            },
        }
    }
}

/// The fully de-interleaved pixel buffer of an interlaced image.
pub open spec fn deinterlaced(h: ImageHeader, raw: Seq<u8>) -> Result<Seq<u8>, PngError> {
    deinter_upto(h, raw, 7)
}

/// The pass geometry, executable: start and step of the pass grid.
pub fn pass_geometry(p: usize) -> (r: (u64, u64, u64, u64))
    requires
        p < 7,
    ensures
        r.0 == pass_x0(p as int),
        r.1 == pass_y0(p as int),
        r.2 == pass_dx(p as int),
        r.3 == pass_dy(p as int),
        1 <= r.2 <= 8,
        1 <= r.3 <= 8,
        r.0 <= 4,
        r.1 <= 4,
{
    if p == 0 {
        (0, 0, 8, 8)
    } else if p == 1 {
        (4, 0, 8, 8)
    } else if p == 2 {
        (0, 4, 4, 8)
    } else if p == 3 {
        (2, 0, 4, 4)
    } else if p == 4 {
        (0, 2, 2, 4)
    } else if p == 5 {
        (1, 0, 2, 2)
    } else {
        (0, 1, 1, 2)
    }
}

/// Executable mirror of `grid_count`.
pub fn grid_count_exec(total: u32, start: u64, step: u64) -> (r: u64)
    requires
        1 <= step,
        start <= 8,
    ensures
        r == grid_count(total as nat, start as nat, step as nat),
        r <= total,
{
    if (total as u64) > start {
        let q = ((total as u64) - start - 1) / step + 1;
        proof {
            lemma_fundamental_div_mod(total - start - 1, step as int);
            lemma_mod_bound(total - start - 1, step as int);
        }
        q
    } else {
        0
    }
}

/// Executable power of two below 256.
pub fn pow2u8_exec(e: u64) -> (r: u8)
    requires
        e <= 7,
    ensures
        r == pow2u8(e as nat),
        r >= 1,
{
    if e == 0 {
        1
    } else if e == 1 {
        2
    } else if e == 2 {
        4
    } else if e == 3 {
        8
    } else if e == 4 {
        16
    } else if e == 5 {
        32
    } else if e == 6 {
        64
    } else {
        128
    }
}


/// A packed pixel's byte sits inside the packed row, and its bit offset
/// leaves room for the pixel.
pub proof fn lemma_packed_px(w: nat, d: nat, c: nat)
    requires
        d == 1 || d == 2 || d == 4,
        c < w,
    ensures
        (c * d) % 8 == (c % (8nat / d)) * d,
        (c * d) % 8 <= 8 - d,
        (c * d) / 8 < (w * d + 7) / 8,
{
    let m = 8int / (d as int);
    lemma_fundamental_div_mod(c as int, m);
    lemma_mod_bound(c as int, m);
    assert(c * d == 8 * ((c as int) / m) + ((c as int) % m) * d) by (nonlinear_arith)
        requires
            m * d == 8,
            c == m * ((c as int) / m) + (c as int) % m,
    ;
    assert(0 <= ((c as int) % m) * d && ((c as int) % m) * d <= 8 - d) by (nonlinear_arith)
        requires
            0 <= (c as int) % m < m,
            m * d == 8,
            d >= 1,
    ;
    vstd::arithmetic::div_mod::lemma_fundamental_div_mod_converse_mod(
        (c * d) as int,
        8,
        (c as int) / m,
        ((c as int) % m) * d,
    );
    vstd::arithmetic::div_mod::lemma_fundamental_div_mod_converse_div(
        (c * d) as int,
        8,
        (c as int) / m,
        ((c as int) % m) * d,
    );
    // the byte index is below the packed row length
    lemma_fundamental_div_mod((w * d + 7) as int, 8);
    lemma_mod_bound((w * d + 7) as int, 8);
    assert(8 * ((w * d + 7) as int / 8) >= w * d);
    assert(c * d < w * d) by (nonlinear_arith)
        requires
            c < w,
            d >= 1,
    ;
    assert((c * d) / 8 < (w * d + 7) / 8) by {
        let s = (w * d + 7) as int / 8;
        assert(c * d <= 8 * s - 1);
        vstd::arithmetic::div_mod::lemma_div_is_ordered((c * d) as int, 8 * s - 1, 8);
        vstd::arithmetic::div_mod::lemma_fundamental_div_mod_converse_div(8 * s - 1, 8, s - 1, 7);
    }
}

/// A packed pixel's bit offset within its byte leaves room for the pixel.
pub proof fn lemma_packed_off(c: nat, d: nat)
    requires
        d == 1 || d == 2 || d == 4,
    ensures
        (c * d) % 8 <= 8 - d,
{
    let m = 8int / (d as int);
    lemma_fundamental_div_mod(c as int, m);
    lemma_mod_bound(c as int, m);
    assert(c * d == 8 * ((c as int) / m) + ((c as int) % m) * d) by (nonlinear_arith)
        requires
            m * d == 8,
            c == m * ((c as int) / m) + (c as int) % m,
    ;
    assert(0 <= ((c as int) % m) * d && ((c as int) % m) * d <= 8 - d) by (nonlinear_arith)
        requires
            0 <= (c as int) % m < m,
            m * d == 8,
            d >= 1,
    ;
    vstd::arithmetic::div_mod::lemma_fundamental_div_mod_converse_mod(
        (c * d) as int,
        8,
        (c as int) / m,
        ((c as int) % m) * d,
    );
}

/// For whole-byte pixels the packed row is exactly one pixel size per pixel.
pub proof fn lemma_row_exact(h: ImageHeader, w: nat)
    requires
        bits_per_pixel(h) % 8 == 0,
    ensures
        row_bytes(h, w) == w * (bits_per_pixel(h) / 8),
{
    let b = bits_per_pixel(h) / 8;
    assert(w * bits_per_pixel(h) + 7 == 8 * ((w * b) as int) + 7) by (nonlinear_arith)
        requires
            bits_per_pixel(h) == 8 * b,
    ;
    vstd::arithmetic::div_mod::lemma_fundamental_div_mod_converse_div(
        (w * bits_per_pixel(h) + 7) as int,
        8,
        (w * b) as int,
        7,
    );
}

/// A row-and-byte position inside the image is inside the buffer.
pub proof fn lemma_row_in_buffer(h: ImageHeader, y: nat, j: nat)
    requires
        y < h.height,
        j < stride(h),
    ensures
        y * stride(h) + j < buffer_size(h),
{
    assert(y * stride(h) + j < (y + 1) * stride(h)) by (nonlinear_arith)
        requires
            j < stride(h),
    ;
    lemma_mul_inequality(y as int + 1, h.height as int, stride(h) as int);
}

/// The masked field of a byte never exceeds the byte.
pub proof fn lemma_field_le(old_b: nat, sh: nat, pd: nat)
    requires
        sh >= 1,
        pd >= 1,
    ensures
        ((old_b / sh) % pd) * sh <= old_b,
{
    let q = old_b / sh;
    lemma_mod_decreases(q, pd);
    lemma_mul_inequality((q % pd) as int, q as int, sh as int);
    lemma_fundamental_div_mod(old_b as int, sh as int);
    lemma_mod_bound(old_b as int, sh as int);
    assert(q * sh <= old_b) by (nonlinear_arith)
        requires
            old_b as int == sh * q + (old_b as int) % (sh as int),
            (old_b as int) % (sh as int) >= 0,
    ;
}

/// Drops pass pixel `c` of the pass scanline `pd[rbase .. rbase + ps]` into
/// image position `(x, y)` of the flat buffer.
pub fn place_px_exec(
    out: &mut Vec<u8>,
    h: &ImageHeader,
    y: u64,
    x: u64,
    pd: &Vec<u8>,
    rbase: usize,
    ps: usize,
    c: usize,
)
    requires
        crate::header::header_valid(*h),
        old(out)@.len() == buffer_size(*h),
        buffer_size(*h) <= 0x4000_0000,
        (y as nat) < h.height as nat,
        (x as nat) < h.width as nat,
        rbase + ps <= pd@.len(),
        c < 0x1_0000_0000,
        bits_per_pixel(*h) % 8 == 0 ==> (c + 1) * (bits_per_pixel(*h) / 8) <= ps,
        bits_per_pixel(*h) % 8 != 0 ==> (c * bits_per_pixel(*h)) / 8 < ps,
    ensures
        final(out)@ == place_px(
            old(out)@,
            *h,
            y as int,
            x as int,
            pd@.subrange(rbase as int, rbase + ps),
            c as int,
        ),
        final(out)@.len() == old(out)@.len(),
{
    let ghost prow = pd@.subrange(rbase as int, rbase + ps);
    let pdl: usize = pd.len();
    proof {
        assert(h.bit_depth <= 16);
        assert(bits_per_pixel(*h) >= 1) by (nonlinear_arith)
            requires
                crate::header::channel_count(h.color) >= 1,
                h.bit_depth >= 1,
                bits_per_pixel(*h) == crate::header::channel_count(h.color) * (
                h.bit_depth as nat),
        ;
    }
    let bpp = crate::header::bits_per_pixel_exec(h);
    let st = crate::header::stride_exec(h);
    proof {
        assert((h.height as nat) * stride(*h) == buffer_size(*h));
        assert(stride(*h) >= 1) by {
            assert((h.width as nat) * bits_per_pixel(*h) >= 1) by (nonlinear_arith)
                requires
                    h.width >= 1,
                    bits_per_pixel(*h) >= 1,
            ;
            vstd::arithmetic::div_mod::lemma_div_is_ordered(
                8,
                ((h.width as nat) * bits_per_pixel(*h) + 7) as int,
                8,
            );
        }
        assert((y as nat) * stride(*h) + stride(*h) <= buffer_size(*h)) by {
            lemma_row_in_buffer(*h, y as nat, (stride(*h) - 1) as nat);
        }
    }
    if bpp % 8 == 0 {
        let nb = (bpp / 8) as usize;
        proof {
            lemma_row_exact(*h, h.width as nat);
            assert((x as nat) * (bits_per_pixel(*h) / 8) + (bits_per_pixel(*h) / 8) <= (
            h.width as nat) * (bits_per_pixel(*h) / 8)) by (nonlinear_arith)
                requires
                    (x as nat) < (h.width as nat),
            ;
        }
        proof {
            assert((x as nat) * (bits_per_pixel(*h) / 8) <= 0xFFFF_FFFFnat * 8) by (nonlinear_arith)
                requires
                    x <= 0xFFFF_FFFFu64,
                    bits_per_pixel(*h) / 8 <= 8,
            ;
            assert((c + 1) * nb == c * nb + nb) by (nonlinear_arith);
        }
        let base = (y * st + x * (bpp / 8)) as usize;
        let ghost base0 = (y as int) * stride(*h) + (x as int) * (bits_per_pixel(*h) / 8);
        let pbase = c * nb;
        let ghost out0 = out@;
        let mut k: usize = 0;
        while k < nb
            invariant
                k <= nb,
                nb == bits_per_pixel(*h) / 8,
                bits_per_pixel(*h) % 8 == 0,
                base == base0,
                base0 == (y as int) * stride(*h) + (x as int) * (bits_per_pixel(*h) / 8),
                base0 + nb <= (y as nat) * stride(*h) + stride(*h) <= buffer_size(*h),
                pbase == c * nb,
                pbase + nb <= ps,
                rbase + ps <= pdl,
                pdl == pd@.len(),
                prow == pd@.subrange(rbase as int, rbase + ps),
                out0.len() == buffer_size(*h),
                buffer_size(*h) <= 0x4000_0000,
                out@ == place_bytes(out0, base0, prow, pbase as int, k as nat),
                out@.len() == out0.len(),
            decreases nb - k,
        {
            let v = pd[rbase + pbase + k];
            proof {
                assert(prow[pbase + k] == pd@[rbase + pbase + k]);
            }
            out.set(base + k, v);
            proof {
                assert(out@ == place_bytes(out0, base0, prow, pbase as int, (k + 1) as nat));
            }
            k = k + 1;
        }
        proof {
            assert(out@ == place_px(out0, *h, y as int, x as int, prow, c as int));
        }
    } else {
        let d = bpp;  // 1, 2 or 4 bits per pixel
        proof {
            assert(d == 1 || d == 2 || d == 4) by {
                assert(crate::header::channel_count(h.color) == 1 || bits_per_pixel(*h) >= 8)
                    by (nonlinear_arith)
                    requires
                        bits_per_pixel(*h) == crate::header::channel_count(h.color) * (
                        h.bit_depth as nat),
                        crate::header::channel_count(h.color) >= 1,
                        h.bit_depth >= 1,
                        crate::header::channel_count(h.color) >= 2 ==> h.bit_depth >= 8,
                ;
            }
            lemma_packed_px(h.width as nat, d as nat, x as nat);
            lemma_packed_off(c as nat, d as nat);
            assert((c as nat) * (d as nat) <= 0xFFFF_FFFFnat * 4) by (nonlinear_arith)
                requires
                    c < 0x1_0000_0000,
                    d <= 4,
            ;
            assert((x as nat) * (d as nat) <= 0xFFFF_FFFFnat * 4) by (nonlinear_arith)
                requires
                    x < 0x1_0000_0000u64,
                    d <= 4,
            ;
        }
        let srcbit = (c as u64) * d;
        proof {
            assert(srcbit % 8 <= 8 - d);
        }
        let srcj = (srcbit / 8) as usize;
        let srcsh = pow2u8_exec(8 - d - (srcbit % 8));
        let pdv = pow2u8_exec(d);
        proof {
            assert(pdv <= 16 && srcsh <= 128);
        }
        let v = (pd[rbase + srcj] / srcsh) % pdv;
        proof {
            assert(prow[srcj as int] == pd@[rbase + srcj]);
            assert(v == get_px_sub(prow, d as nat, c as int));
        }
        let dstbit = x * d;
        proof {
            assert(dstbit % 8 <= 8 - d);
        }
        let dstj = (y * st + dstbit / 8) as usize;
        proof {
            lemma_row_in_buffer(*h, y as nat, ((x as nat) * (d as nat)) / 8);
        }
        let dstsh = pow2u8_exec(8 - d - (dstbit % 8));
        let old_b = out[dstj];
        let fld = (old_b / dstsh) % pdv;
        proof {
            lemma_field_le(old_b as nat, dstsh as nat, pdv as nat);
            assert(dstsh <= 128);
            assert((fld as nat) * (dstsh as nat) <= 15 * 128) by (nonlinear_arith)
                requires
                    fld <= 15,
                    dstsh <= 128,
            ;
        }
        let vb = v % pdv;
        proof {
            assert((vb as nat) * (dstsh as nat) <= 15 * 128) by (nonlinear_arith)
                requires
                    vb <= 15,
                    dstsh <= 128,
            ;
        }
        let cleared: u16 = (old_b as u16) - (fld as u16) * (dstsh as u16);
        let nv: u16 = (cleared + (vb as u16) * (dstsh as u16)) % 256;
        out.set(dstj, nv as u8);
        proof {
            assert(out@ == set_px_sub(
                old(out)@,
                (y as int) * stride(*h),
                d as nat,
                x as int,
                v,
            ));
            assert(out@ == place_px(old(out)@, *h, y as int, x as int, prow, c as int));
        }
    }
}


/// De-interleaving fails only ever with `InvalidFilterType`.
pub proof fn lemma_deinter_err_kind(h: ImageHeader, raw: Seq<u8>, p: int)
    ensures
        deinter_upto(h, raw, p) is Err ==> deinter_upto(h, raw, p) == Err::<Seq<u8>, PngError>(
            PngError::InvalidFilterType,
        ),
    decreases p,
{
    if p > 0 {
        lemma_deinter_err_kind(h, raw, p - 1);
    }
}

/// An error in any pass is the verdict of the whole de-interleave.
pub proof fn lemma_deinter_err(h: ImageHeader, raw: Seq<u8>, q: int)
    requires
        0 <= q <= 7,
        deinter_upto(h, raw, q) is Err,
    ensures
        deinter_upto(h, raw, 7) == deinter_upto(h, raw, q),
    decreases 7 - q,
{
    if q < 7 {
        assert(deinter_upto(h, raw, q + 1) == deinter_upto(h, raw, q));
        lemma_deinter_err(h, raw, q + 1);
    }
}

/// Places every pixel of one non-empty pass: row by row, column by column,
/// each pass pixel dropped at its image position on the pass grid.
pub fn place_pass_exec(
    out: &mut Vec<u8>,
    h: &ImageHeader,
    p: usize,
    pd: &Vec<u8>,
    pw: usize,
    ph: usize,
    ps: usize,
)
    requires
        crate::header::header_valid(*h),
        p < 7,
        old(out)@.len() == buffer_size(*h),
        buffer_size(*h) <= 0x4000_0000,
        pw == pass_w(*h, p as int),
        ph == pass_h(*h, p as int),
        ps == pass_stride(*h, p as int),
        pw <= h.width,
        ph <= h.height,
        pd@.len() == ph * ps,
        pw >= 1,
    ensures
        final(out)@ == place_pass(old(out)@, *h, p as int, pd@, ph as nat),
        final(out)@.len() == old(out)@.len(),
{
    let (x0, y0, dx, dy) = pass_geometry(p);
    let pdl: usize = pd.len();
    proof {
        assert(h.bit_depth <= 16);
        assert(bits_per_pixel(*h) >= 1) by (nonlinear_arith)
            requires
                crate::header::channel_count(h.color) >= 1,
                h.bit_depth >= 1,
                bits_per_pixel(*h) == crate::header::channel_count(h.color) * (
                h.bit_depth as nat),
        ;
        if bits_per_pixel(*h) % 8 == 0 {
            lemma_row_exact(*h, pw as nat);
        } else {
            assert(crate::header::channel_count(h.color) == 1 || bits_per_pixel(*h) >= 8)
                by (nonlinear_arith)
                requires
                    bits_per_pixel(*h) == crate::header::channel_count(h.color) * (
                    h.bit_depth as nat),
                    crate::header::channel_count(h.color) >= 1,
                    h.bit_depth >= 1,
                    crate::header::channel_count(h.color) >= 2 ==> h.bit_depth >= 8,
            ;
        }
    }
    let ghost bppg = bits_per_pixel(*h);
    let ghost out_p0 = out@;
    let mut r: usize = 0;
    while r < ph
        invariant
            r <= ph,
            crate::header::header_valid(*h),
            h.bit_depth <= 16,
            p < 7,
            x0 == pass_x0(p as int),
            y0 == pass_y0(p as int),
            dx == pass_dx(p as int),
            dy == pass_dy(p as int),
            1 <= dx <= 8,
            1 <= dy <= 8,
            x0 <= 4,
            y0 <= 4,
            pw == pass_w(*h, p as int),
            ph == pass_h(*h, p as int),
            ps == pass_stride(*h, p as int),
            pw <= h.width,
            ph <= h.height,
            pw >= 1,
            pdl == pd@.len(),
            pdl == ph * ps,
            bppg == bits_per_pixel(*h),
            bppg >= 1,
            bppg % 8 == 0 ==> ps == pw * (bppg / 8),
            bppg % 8 != 0 ==> (bppg == 1 || bppg == 2 || bppg == 4),
            out@.len() == buffer_size(*h),
            buffer_size(*h) <= 0x4000_0000,
            out_p0.len() == buffer_size(*h),
            out@ == place_pass(out_p0, *h, p as int, pd@, r as nat),
        decreases ph - r,
    {
        proof {
            lemma_mul_inequality(r as int + 1, ph as int, ps as int);
            assert((r + 1) * ps == r * ps + ps) by (nonlinear_arith);
            lemma_grid_in_range(h.height as nat, y0 as nat, dy as nat, r as nat);
            assert((r as nat) * (dy as nat) <= 0xFFFF_FFFFnat * 8) by (nonlinear_arith)
                requires
                    r < 0x1_0000_0000,
                    dy <= 8,
            ;
        }
        let rbase = r * ps;
        let y = y0 + (r as u64) * dy;
        let ghost prow = pd@.subrange(rbase as int, rbase + ps);
        let ghost out_r0 = out@;
        let mut c: usize = 0;
        while c < pw
            invariant
                c <= pw,
                r < ph,
                crate::header::header_valid(*h),
                h.bit_depth <= 16,
                p < 7,
                x0 == pass_x0(p as int),
                y0 == pass_y0(p as int),
                dx == pass_dx(p as int),
                dy == pass_dy(p as int),
                1 <= dx <= 8,
                x0 <= 4,
                pw == pass_w(*h, p as int),
                ph == pass_h(*h, p as int),
                ps == pass_stride(*h, p as int),
                pw <= h.width,
                ph <= h.height,
                pdl == pd@.len(),
                pdl == ph * ps,
                rbase == r * ps,
                rbase + ps <= pdl,
                y == y0 + r * dy,
                (y as nat) < h.height as nat,
                bppg == bits_per_pixel(*h),
                bppg >= 1,
                bppg % 8 == 0 ==> ps == pw * (bppg / 8),
                bppg % 8 != 0 ==> (bppg == 1 || bppg == 2 || bppg == 4),
                prow == pd@.subrange(rbase as int, rbase + ps),
                out_r0.len() == buffer_size(*h),
                buffer_size(*h) <= 0x4000_0000,
                out@.len() == buffer_size(*h),
                out@ == place_row(out_r0, *h, p as int, r as int, prow, c as nat),
            decreases pw - c,
        {
            proof {
                lemma_grid_in_range(h.width as nat, x0 as nat, dx as nat, c as nat);
                assert((c as nat) * (dx as nat) <= 0xFFFF_FFFFnat * 8) by (nonlinear_arith)
                    requires
                        c < 0x1_0000_0000,
                        dx <= 8,
                ;
                if bppg % 8 == 0 {
                    lemma_mul_inequality(c as int + 1, pw as int, (bppg / 8) as int);
                } else {
                    lemma_packed_px(pw as nat, bppg, c as nat);
                }
            }
            let x = x0 + (c as u64) * dx;
            place_px_exec(out, h, y, x, pd, rbase, ps, c);
            proof {
                assert(out@ == place_row(out_r0, *h, p as int, r as int, prow, (c + 1) as nat));
            }
            c = c + 1;
        }
        proof {
            assert(out@ == place_pass(out_p0, *h, p as int, pd@, (r + 1) as nat));
        }
        r = r + 1;
    }
}

/// Decodes the filtered stream of an interlaced image: each pass region is
/// unfiltered independently and its pixels re-interleaved into the final
/// grid. Returns exactly what `deinterlaced` says for this stream.
#[verifier::rlimit(100)]
pub fn deinterlace(h: &ImageHeader, raw: &[u8]) -> (res: Result<Vec<u8>, PngError>)
    requires
        crate::header::header_valid(*h),
        h.interlaced,
        raw@.len() == filtered_len(*h),
        buffer_size(*h) <= 0x4000_0000,
        filtered_len(*h) <= 0x4000_0000,
    ensures
        match res {
            Ok(v) => deinterlaced(*h, raw@) == Ok::<Seq<u8>, PngError>(v@) && v@.len()
                == buffer_size(*h),
            Err(e) => deinterlaced(*h, raw@) == Err::<Seq<u8>, PngError>(e),
        },
{
    proof {
        assert(h.bit_depth <= 16);
        assert((h.height as nat) * stride(*h) == buffer_size(*h));
        assert(bits_per_pixel(*h) >= 1) by (nonlinear_arith)
            requires
                crate::header::channel_count(h.color) >= 1,
                h.bit_depth >= 1,
                bits_per_pixel(*h) == crate::header::channel_count(h.color) * (
                h.bit_depth as nat),
        ;
    }
    let st = crate::header::stride_exec(h);
    let bs64 = (h.height as u64) * st;
    let bs = bs64 as usize;
    let rawlen: usize = raw.len();
    let mut out: Vec<u8> = Vec::new();
    let mut z: usize = 0;
    while z < bs
        invariant
            z <= bs,
            out@ =~= zero_row(z as nat),
        decreases bs - z,
    {
        out.push(0);
        proof {
            assert(out@ =~= zero_row((z + 1) as nat));
        }
        z = z + 1;
    }
    proof {
        assert(out@ =~= zero_row(buffer_size(*h)));
    }
    let mut off: usize = 0;
    let mut p: usize = 0;
    while p < 7
        invariant
            p <= 7,
            crate::header::header_valid(*h),
            h.bit_depth <= 16,
            h.interlaced,
            bits_per_pixel(*h) >= 1,
            rawlen == raw@.len(),
            raw@.len() == filtered_len(*h),
            buffer_size(*h) <= 0x4000_0000,
            filtered_len(*h) <= 0x4000_0000,
            off == pass_off(*h, p as int),
            off <= rawlen,
            out@.len() == buffer_size(*h),
            deinter_upto(*h, raw@, p as int) == Ok::<Seq<u8>, PngError>(out@),
        decreases 7 - p,
    {
        let (x0, y0, dx, dy) = pass_geometry(p);
        let pw64 = grid_count_exec(h.width, x0, dx);
        let ph64 = grid_count_exec(h.height, y0, dy);
        if pw64 == 0 || ph64 == 0 {
            proof {
                assert(pass_filtered_len(*h, p as int) == 0);
                assert(deinter_upto(*h, raw@, (p + 1) as int) == Ok::<Seq<u8>, PngError>(out@));
            }
            p = p + 1;
        } else {
            let pw = pw64 as usize;
            let ph = ph64 as usize;
            let ps64 = crate::header::row_bytes_exec(h, pw64 as u32);
            proof {
                lemma_pass_off_in_range(*h, p as int);
                lemma_pass_off_in_range(*h, p as int + 1);
                assert(pass_off(*h, p as int + 1) == pass_off(*h, p as int)
                    + pass_filtered_len(*h, p as int));
                assert(ps64 == pass_stride(*h, p as int));
                assert(pass_filtered_len(*h, p as int) == (ph64 as nat) * (1 + ps64 as nat));
            }
            proof {
                assert(1 + (ps64 as nat) <= (ph64 as nat) * (1 + ps64 as nat))
                    by (nonlinear_arith)
                    requires
                        ph64 >= 1,
                ;
            }
            let plen64 = ph64 * (1 + ps64);
            let plen = plen64 as usize;
            let ps = ps64 as usize;
            let stp64 = crate::header::filter_step_exec(h);
            let stp = stp64 as usize;
            match crate::filter::unfilter(raw, off, ph, ps, stp) {
                Err(e) => {
                    proof {
                        assert(deinter_upto(*h, raw@, (p + 1) as int) == Err::<
                            Seq<u8>,
                            PngError,
                        >(e));
                        lemma_deinter_err(*h, raw@, p as int + 1);
                    }
                    return Err(e);
                },
                Ok(pd) => {
                    place_pass_exec(&mut out, h, p, &pd, pw, ph, ps);
                    proof {
                        assert(deinter_upto(*h, raw@, (p + 1) as int) == Ok::<
                            Seq<u8>,
                            PngError,
                        >(out@));
                    }
                    off = off + plen;
                    p = p + 1;
                },
            }
        }
    }
    proof {
        assert(deinterlaced(*h, raw@) == Ok::<Seq<u8>, PngError>(out@));
    }
    Ok(out)
}

} // verus!
