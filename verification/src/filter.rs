use vstd::prelude::*;
use vstd::math::abs;
use crate::error::PngError;

verus! {

/// A row of zero bytes, the virtual scanline above the first real one.
pub open spec fn zero_row(n: nat) -> Seq<u8> {
    Seq::new(n, |i: int| 0u8)
}

/// The Paeth predictor: whichever of left `a`, above `b`, upper-left `c`
/// is closest to `a + b - c`, ties broken in the order `a`, `b`, `c`.
pub open spec fn paeth(a: u8, b: u8, c: u8) -> u8 {
    let p = a + b - c;
    let pa = abs(p - a);
    let pb = abs(p - b);
    let pc = abs(p - c);
    if pa <= pb && pa <= pc {
        a
    } else if pb <= pc {
        b
    } else {
        c
    }
}

/// The value a filter type predicts from the three neighbor bytes.
pub open spec fn predictor(t: u8, a: u8, b: u8, c: u8) -> int
    recommends
        t <= 4,
{
    if t == 0 {
        0
    } else if t == 1 {
        a as int
    } else if t == 2 {
        b as int
    } else if t == 3 {
        (a + b) / 2
    } else {
        paeth(a, b, c) as int
    }
}

/// The reconstructed byte at column `i` of a scanline: the filtered byte
/// plus the prediction from the already-reconstructed left neighbor (`step`
/// bytes back), the byte above, and the byte above-left, modulo 256.
/// Neighbors outside the image count as zero.
pub open spec fn recon_at(t: u8, cur: Seq<u8>, prev: Seq<u8>, step: nat, i: int) -> u8
    recommends
        t <= 4,
        step >= 1,
        prev.len() == cur.len(),
        0 <= i < cur.len(),
    decreases i,
{
    let a: u8 = if 1 <= step <= i {
        recon_at(t, cur, prev, step, i - step)
    } else {
        0u8
    };
    let b: u8 = if 0 <= i < prev.len() {
        prev[i]
    } else {
        0u8
    };
    let c: u8 = if 1 <= step <= i && i - step < prev.len() {
        prev[i - step]
    } else {
        0u8
    };
    (((cur[i] as int) + predictor(t, a, b, c)) % 256) as u8
}

/// One whole reconstructed scanline.
pub open spec fn unfilter_row(t: u8, cur: Seq<u8>, prev: Seq<u8>, step: nat) -> Seq<u8> {
    Seq::new(cur.len(), |i: int| recon_at(t, cur, prev, step, i))
}

/// Offset of row `r`'s filter-type byte in a filtered stream.
pub open spec fn row_base(stride: nat, r: int) -> int {
    r * (1 + stride)
}

/// Every scanline of the stream starts with a legal filter type.
pub open spec fn filter_types_ok(f: Seq<u8>, rows: nat, stride: nat) -> bool {
    forall|r: int| 0 <= r < rows ==> f[row_base(stride, r)] <= 4
}

/// The first `rows` reconstructed scanlines of a filtered stream,
/// concatenated: each row is unfiltered against the reconstructed row above
/// it (zeros above the first).
pub open spec fn unfiltered_rows(f: Seq<u8>, rows: nat, stride: nat, step: nat) -> Seq<u8>
    recommends
        f.len() >= rows * (1 + stride),
    decreases rows,
{
    if rows == 0 {
        Seq::empty()
    } else {
        let r = rows - 1;
        let prev_all = unfiltered_rows(f, (rows - 1) as nat, stride, step);
        let base = row_base(stride, r);
        let t = f[base];
        let cur = f.subrange(base + 1, base + 1 + stride);
        let prev = if rows == 1 {
            zero_row(stride)
        } else {
            prev_all.subrange((r - 1) * stride, r * stride)
        };
        prev_all + unfilter_row(t, cur, prev, step)
    }
}

/// What unfiltering a stream of `rows` scanlines yields: the reconstructed
/// bytes with the filter-type bytes stripped, or `InvalidFilterType` if any
/// scanline's leading byte is above four.
pub open spec fn unfilter_stream(f: Seq<u8>, rows: nat, stride: nat, step: nat) -> Result<
    Seq<u8>,
    PngError,
>
    recommends
        f.len() == rows * (1 + stride),
{
    if !filter_types_ok(f, rows, stride) {
        Err(PngError::InvalidFilterType)
    } else {
        Ok(unfiltered_rows(f, rows, stride, step))
    }
}

/// Executable mirror of `predictor`.
pub fn predictor_exec(t: u8, a: u8, b: u8, c: u8) -> (r: u8)
    requires
        t <= 4,
    ensures
        r as int == predictor(t, a, b, c),
{
    if t == 0 {
        0
    } else if t == 1 {
        a
    } else if t == 2 {
        b
    } else if t == 3 {
        (((a as u16) + (b as u16)) / 2) as u8
    } else {
        let p: i32 = a as i32 + b as i32 - c as i32;
        let pa: i32 = if p >= a as i32 {
            p - a as i32
        } else {
            a as i32 - p
        };
        let pb: i32 = if p >= b as i32 {
            p - b as i32
        } else {
            b as i32 - p
        };
        let pc: i32 = if p >= c as i32 {
            p - c as i32
        } else {
            c as i32 - p
        };
        if pa <= pb && pa <= pc {
            a
        } else if pb <= pc {
            b
        } else {
            c
        }
    }
}

/// Unfilters the `rows * (1 + stride)` bytes of `data` starting at `off`,
/// one filtered scanline at a time, keeping a rolling previous-row window.
/// Returns exactly what `unfilter_stream` says for that byte region.
pub fn unfilter(data: &[u8], off: usize, rows: usize, stride: usize, step: usize) -> (r: Result<
    Vec<u8>,
    PngError,
>)
    requires
        step >= 1,
        1 + stride <= usize::MAX,
        off + rows * (1 + stride) <= data@.len(),
    ensures
        ({
            let f = data@.subrange(off as int, off + rows * (1 + stride));
            match r {
                Ok(v) => unfilter_stream(f, rows as nat, stride as nat, step as nat)
                    == Ok::<Seq<u8>, PngError>(v@) && v@.len() == rows * stride,
                Err(e) => unfilter_stream(f, rows as nat, stride as nat, step as nat)
                    == Err::<Seq<u8>, PngError>(e),
            }
        }),
{
    let ghost f = data@.subrange(off as int, off + rows * (1 + stride));
    let dlen: usize = data.len();
    let rlen: usize = 1 + stride;
    let mut prev: Vec<u8> = Vec::new();
    let mut z: usize = 0;
    while z < stride
        invariant
            z <= stride,
            prev@ =~= zero_row(z as nat),
        decreases stride - z,
    {
        prev.push(0);
        z = z + 1;
    }
    assert(prev@ =~= zero_row(stride as nat));
    let mut out: Vec<u8> = Vec::new();
    let mut r: usize = 0;
    while r < rows
        invariant
            r <= rows,
            step >= 1,
            rlen == 1 + stride,
            dlen == data@.len(),
            off + rows * rlen <= dlen,
            f == data@.subrange(off as int, off + rows * (1 + stride)),
            f.len() == rows * (1 + stride),
            out@.len() == r * stride,
            out@ == unfiltered_rows(f, r as nat, stride as nat, step as nat),
            prev@.len() == stride,
            r == 0 ==> prev@ == zero_row(stride as nat),
            r >= 1 ==> prev@ == out@.subrange((r - 1) * stride, r * stride),
            filter_types_ok(f, r as nat, stride as nat),
        decreases rows - r,
    {
        proof {
            vstd::arithmetic::mul::lemma_mul_inequality(r + 1, rows as int, rlen as int);
            assert((r + 1) * rlen == r * rlen + rlen) by (nonlinear_arith);
        }
        let base: usize = off + r * rlen;
        let ghost fbase = row_base(stride as nat, r as int);
        proof {
            assert(fbase == r * rlen);
            assert(f[fbase] == data@[base as int]);
        }
        let t = data[base];
        if t > 4 {
            proof {
                assert(!filter_types_ok(f, rows as nat, stride as nat));
            }
            return Err(PngError::InvalidFilterType);
        }
        let ghost cur = f.subrange(fbase + 1, fbase + 1 + stride);
        let mut row: Vec<u8> = Vec::new();
        let mut i: usize = 0;
        while i < stride
            invariant
                i <= stride,
                step >= 1,
                t <= 4,
                rlen == 1 + stride,
                dlen == data@.len(),
                off + rows * rlen <= dlen,
                base == off + r * rlen,
                r < rows,
                (r + 1) * rlen <= rows * rlen,
                (r + 1) * rlen == r * rlen + rlen,
                f == data@.subrange(off as int, off + rows * (1 + stride)),
                fbase == r * rlen,
                cur == f.subrange(fbase + 1, fbase + 1 + stride),
                prev@.len() == stride,
                row@.len() == i,
                forall|j: int|
                    0 <= j < i ==> row@[j] == recon_at(t, cur, prev@, step as nat, j),
            decreases stride - i,
        {
            let x = data[base + 1 + i];
            proof {
                assert(cur[i as int] == f[fbase + 1 + i] == data@[base + 1 + i]);
            }
            let a = if i >= step {
                row[i - step]
            } else {
                0
            };
            let b = prev[i];
            let c = if i >= step {
                prev[i - step]
            } else {
                0
            };
            let pr = predictor_exec(t, a, b, c);
            let v = (((x as u16) + (pr as u16)) % 256) as u8;
            proof {
                assert(v == recon_at(t, cur, prev@, step as nat, i as int));
            }
            row.push(v);
            i = i + 1;
        }
        proof {
            assert(row@ =~= unfilter_row(t, cur, prev@, step as nat));
            assert(unfiltered_rows(f, (r + 1) as nat, stride as nat, step as nat) == out@
                + row@);
        }
        let ghost out0 = out@;
        let mut k: usize = 0;
        while k < stride
            invariant
                k <= stride,
                row@.len() == stride,
                out@ == out0 + row@.take(k as int),
            decreases stride - k,
        {
            out.push(row[k]);
            proof {
                assert(out@ =~= out0 + row@.take(k + 1));
            }
            k = k + 1;
        }
        proof {
            assert(out@ =~= out0 + row@);
            assert(out@.len() == (r + 1) * stride) by {
                assert((r + 1) * stride == r * stride + stride) by (nonlinear_arith);
            }
            assert(out@.subrange(r * stride, (r + 1) * stride) =~= row@);
        }
        prev = row;
        r = r + 1;
    }
    proof {
        assert(out@ == unfiltered_rows(f, rows as nat, stride as nat, step as nat));
    }
    Ok(out)
}

} // verus!
