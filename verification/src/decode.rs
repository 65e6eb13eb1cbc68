use vstd::prelude::*;
use vstd::arithmetic::mul::lemma_mul_inequality;
use vstd::arithmetic::div_mod::{lemma_fundamental_div_mod, lemma_mod_bound};
use crate::chunks::parse_png;
use crate::error::PngError;
use crate::header::{ImageHeader, buffer_size, channel_count, bits_per_pixel, filter_step, header_valid, stride};
use crate::filter::unfilter_stream;
use crate::inflate::inflate_zlib;
use crate::interlace::{deinterlaced, filtered_len, pass_off, pass_filtered_len, lemma_pass_off_in_range};

verus! {

/// Defensive bound on any buffer the decoder allocates: a header implying
/// more than this is rejected rather than trusted.
pub const MAX_OUTPUT_BYTES: u64 = 0x4000_0000;

/// The assembly step: the reconstructed bytes are the pixel buffer exactly
/// when their count equals the precomputed size.
pub open spec fn assemble_spec(px: Seq<u8>, h: ImageHeader) -> Result<Seq<u8>, PngError> {
    if px.len() == buffer_size(h) {
        Ok(px)
    } else {
        Err(PngError::BufferSizeMismatch)
    }
}

/// What the whole decode returns for a byte stream: parse the container,
/// reject over-sized headers, inflate the compressed data under the exact
/// expected length, undo the scanline filtering (de-interleaving the seven
/// passes when interlaced), and hand back the buffer of the precomputed
/// size.
pub open spec fn decode_spec(s: Seq<u8>) -> Result<Seq<u8>, PngError> {
    match parse_png(s) {
        Err(e) => Err(e),
        Ok((h, idat)) => {
            if buffer_size(h) > MAX_OUTPUT_BYTES || filtered_len(h) > MAX_OUTPUT_BYTES {
                Err(PngError::SizeMismatch)
            } else {
                match inflate_zlib(idat, filtered_len(h)) {
                    None => Err(PngError::DecompressionError),
                    Some(raw) => if raw.len() != filtered_len(h) {
                        Err(PngError::SizeMismatch)
                    } else if !h.interlaced {
                        match unfilter_stream(raw, h.height as nat, stride(h), filter_step(h)) {
                            Err(e) => Err(e),
                            Ok(px) => assemble_spec(px, h),
                        }
                    } else {
                        match deinterlaced(h, raw) {
                            Err(e) => Err(e),
                            Ok(px) => assemble_spec(px, h),
                        }
                    },
                }
            }
        },
    }
}

/// A header the container parse accepts is valid.
pub proof fn lemma_parse_valid(s: Seq<u8>)
    requires
        parse_png(s) is Ok,
    ensures
        header_valid(parse_png(s)->Ok_0.0),
{
}

/// Exceeding a cap, phrased through division so a machine check needs no
/// wide multiply.
proof fn lemma_mul_cap(a: nat, b: nat, cap: nat)
    requires
        b >= 1,
    ensures
        (a > (cap as int) / (b as int)) <==> (a * b > cap),
{
    let q: int = (cap as int) / (b as int);
    lemma_fundamental_div_mod(cap as int, b as int);
    lemma_mod_bound(cap as int, b as int);
    if a > q {
        lemma_mul_inequality(q + 1, a as int, b as int);
        assert((q + 1) * b == q * b + b) by (nonlinear_arith);
        assert(b * q == q * b) by (nonlinear_arith);
    }
    if a <= q {
        lemma_mul_inequality(a as int, q, b as int);
        assert(b * q == q * b) by (nonlinear_arith);
    }
}

/// Computes the buffer size and the filtered-stream length of a valid
/// header, rejecting a header that implies more than the defensive bound.
pub fn size_checks(h: &ImageHeader) -> (r: Result<(u64, u64), PngError>)
    requires
        header_valid(*h),
    ensures
        match r {
            Ok(t) => t.0 == buffer_size(*h) && t.1 == filtered_len(*h) && buffer_size(*h)
                <= MAX_OUTPUT_BYTES && filtered_len(*h) <= MAX_OUTPUT_BYTES,
            Err(e) => e == PngError::SizeMismatch && (buffer_size(*h) > MAX_OUTPUT_BYTES
                || filtered_len(*h) > MAX_OUTPUT_BYTES),
        },
{
    proof {
        assert(h.bit_depth <= 16);
        assert(bits_per_pixel(*h) >= 1) by (nonlinear_arith)
            requires
                channel_count(h.color) >= 1,
                h.bit_depth >= 1,
                bits_per_pixel(*h) == channel_count(h.color) * (h.bit_depth as nat),
        ;
        assert((h.width as nat) * bits_per_pixel(*h) >= 1) by (nonlinear_arith)
            requires
                h.width >= 1,
                bits_per_pixel(*h) >= 1,
        ;
        vstd::arithmetic::div_mod::lemma_div_is_ordered(
            8,
            ((h.width as nat) * bits_per_pixel(*h) + 7) as int,
            8,
        );
    }
    let st = crate::header::stride_exec(h);
    if (h.height as u64) > MAX_OUTPUT_BYTES / st {
        proof {
            lemma_mul_cap(h.height as nat, st as nat, MAX_OUTPUT_BYTES as nat);
        }
        return Err(PngError::SizeMismatch);
    }
    proof {
        lemma_mul_cap(h.height as nat, st as nat, MAX_OUTPUT_BYTES as nat);
        assert((h.height as nat) * stride(*h) == buffer_size(*h));
    }
    let bs = (h.height as u64) * st;
    if !h.interlaced {
        if (h.height as u64) > MAX_OUTPUT_BYTES / (1 + st) {
            proof {
                lemma_mul_cap(h.height as nat, (1 + st) as nat, MAX_OUTPUT_BYTES as nat);
            }
            return Err(PngError::SizeMismatch);
        }
        proof {
            lemma_mul_cap(h.height as nat, (1 + st) as nat, MAX_OUTPUT_BYTES as nat);
        }
        let fl = (h.height as u64) * (1 + st);
        Ok((bs, fl))
    } else {
        let mut acc: u64 = 0;
        let mut p: usize = 0;
        while p < 7
            invariant
                p <= 7,
                header_valid(*h),
                h.bit_depth <= 16,
                h.interlaced,
                acc == pass_off(*h, p as int),
                acc <= 0x4000_0000u64 * (p as u64),
            decreases 7 - p,
        {
            let (x0, y0, dx, dy) = crate::interlace::pass_geometry(p);
            let pw64 = crate::interlace::grid_count_exec(h.width, x0, dx);
            let ph64 = crate::interlace::grid_count_exec(h.height, y0, dy);
            if pw64 > 0 && ph64 > 0 {
                let ps64 = crate::header::row_bytes_exec(h, pw64 as u32);
                proof {
                    assert(ps64 == crate::interlace::pass_stride(*h, p as int));
                    assert(pass_filtered_len(*h, p as int) == (ph64 as nat) * (1
                        + ps64 as nat));
                }
                if ph64 > MAX_OUTPUT_BYTES / (1 + ps64) {
                    proof {
                        lemma_mul_cap(
                            ph64 as nat,
                            (1 + ps64) as nat,
                            MAX_OUTPUT_BYTES as nat,
                        );
                        lemma_pass_off_in_range(*h, p as int + 1);
                        assert(pass_off(*h, p as int + 1) == pass_off(*h, p as int)
                            + pass_filtered_len(*h, p as int));
                    }
                    return Err(PngError::SizeMismatch);
                }
                proof {
                    lemma_mul_cap(ph64 as nat, (1 + ps64) as nat, MAX_OUTPUT_BYTES as nat);
                }
                acc = acc + ph64 * (1 + ps64);
            } else {
                proof {
                    assert(pass_filtered_len(*h, p as int) == 0);
                }
            }
            p = p + 1;
        }
        if acc > MAX_OUTPUT_BYTES {
            return Err(PngError::SizeMismatch);
        }
        Ok((bs, acc))
    }
}

/// Decodes a PNG byte stream to its raw, filter-reversed pixel buffer.
/// Returns exactly what `decode_spec` says for this input: the buffer of
/// size `buffer_size` of the parsed header on success, and the error of the
/// first stage that rejects the stream otherwise.
pub fn decode(data: &[u8]) -> (r: Result<Vec<u8>, PngError>)
    ensures
        match r {
            Ok(v) => decode_spec(data@) == Ok::<Seq<u8>, PngError>(v@),
            Err(e) => decode_spec(data@) == Err::<Seq<u8>, PngError>(e),
        },
{
    let parsed = crate::chunks::parse(data);
    let (header, idat) = match parsed {
        Ok(p) => p,
        Err(e) => {
            return Err(e);
        },
    };
    proof {
        lemma_parse_valid(data@);
    }
    let sizes = size_checks(&header);
    let (bs64, fl64) = match sizes {
        Ok(t) => t,
        Err(e) => {
            return Err(e);
        },
    };
    let fl = fl64 as usize;
    let inflated = crate::inflate::inflate_limited(idat.as_slice(), fl);
    let raw = match inflated {
        Some(v) => v,
        None => {
            return Err(PngError::DecompressionError);
        },
    };
    if raw.len() != fl {
        return Err(PngError::SizeMismatch);
    }
    proof {
        assert(bits_per_pixel(header) >= 1) by (nonlinear_arith)
            requires
                channel_count(header.color) >= 1,
                header.bit_depth >= 1,
                bits_per_pixel(header) == channel_count(header.color) * (
                header.bit_depth as nat),
        ;
    }
    let px = if !header.interlaced {
        proof {
            assert((header.height as nat) * (1 + stride(header)) == filtered_len(header));
            assert(1 + stride(header) <= filtered_len(header)) by (nonlinear_arith)
                requires
                    header.height >= 1,
                    (header.height as nat) * (1 + stride(header)) == filtered_len(header),
            ;
        }
        let st = crate::header::stride_exec(&header) as usize;
        let stp = crate::header::filter_step_exec(&header) as usize;
        let rows = header.height as usize;
        proof {
            assert(rows * (1 + st) == filtered_len(header));
            assert(raw@.subrange(0, rows * (1 + st)) =~= raw@);
        }
        match crate::filter::unfilter(raw.as_slice(), 0, rows, st, stp) {
            Ok(v) => v,
            Err(e) => {
                return Err(e);
            },
        }
    } else {
        match crate::interlace::deinterlace(&header, raw.as_slice()) {
            Ok(v) => v,
            Err(e) => {
                return Err(e);
            },
        }
    };
    let bs = bs64 as usize;
    if px.len() != bs {
        return Err(PngError::BufferSizeMismatch);
    }
    Ok(px)
}

/// Every successful decode yields exactly the byte count the header
/// implies: the buffer size is a function of the parsed header alone.
pub proof fn lemma_decoded_len(s: Seq<u8>)
    requires
        decode_spec(s) is Ok,
    ensures
        parse_png(s) is Ok,
        decode_spec(s)->Ok_0.len() == buffer_size(parse_png(s)->Ok_0.0),
{
}

/// Corrupting any single byte of any chunk's stored CRC in a stream that
/// decodes turns the whole decode verdict into `ChunkCorrupt`, never a
/// silently accepted buffer.
pub proof fn lemma_crc_corruption_decode(s: Seq<u8>, s2: Seq<u8>, p: int)
    requires
        parse_png(s) is Ok,
        s2.len() == s.len(),
        0 <= p < s.len(),
        forall|k: int| 0 <= k < s.len() && k != p ==> s2[k] == s[k],
        s2[p] != s[p],
        crate::chunks::is_crc_pos(s, 8, p),
    ensures
        decode_spec(s2) == Err::<Seq<u8>, PngError>(PngError::ChunkCorrupt),
{
    crate::chunks::lemma_crc_corruption(s, s2, p);
}

/// A stream that does not start with the PNG signature, and only such a
/// stream, is rejected as `InvalidSignature`.
pub proof fn lemma_invalid_signature_iff(s: Seq<u8>)
    ensures
        (decode_spec(s) == Err::<Seq<u8>, PngError>(PngError::InvalidSignature))
            <==> !crate::chunks::signature_ok(s),
{
    crate::chunks::lemma_scan_err_kind(s, 33, Seq::empty(), false);
    if parse_png(s) is Ok {
        let h = parse_png(s)->Ok_0.0;
        let idat = parse_png(s)->Ok_0.1;
        crate::interlace::lemma_deinter_err_kind(h, match inflate_zlib(idat, filtered_len(h)) {
            Some(raw) => raw,
            None => Seq::empty(),
        }, 7);
    }
}

/// Decoding is a function of the input bytes alone: two decodes of the same
/// stream return the same verdict and, on success, identical buffers.
pub proof fn lemma_decode_deterministic(
    s: Seq<u8>,
    r1: Result<Seq<u8>, PngError>,
    r2: Result<Seq<u8>, PngError>,
)
    requires
        r1 == decode_spec(s),
        r2 == decode_spec(s),
    ensures
        r1 == r2,
{
}

} // verus!
