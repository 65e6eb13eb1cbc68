use vstd::prelude::*;

verus! {

/// The color model a PNG image declares in its header chunk.
#[derive(Clone, Copy, Debug, PartialEq, Eq, Structural)]
pub enum ColorType {
    Grayscale,
    Rgb,
    Palette,
    GrayscaleAlpha,
    Rgba,
}

/// The fields of the image header chunk that drive every size computation of
/// the decode. Fixed once parsed; everything downstream derives from it.
#[derive(Clone, Copy, Debug, PartialEq, Eq, Structural)]
pub struct ImageHeader {
    pub width: u32,
    pub height: u32,
    pub bit_depth: u8,
    pub color: ColorType,
    pub interlaced: bool,
}

/// Samples per pixel for a color type (the palette index counts as one).
pub open spec fn channel_count(c: ColorType) -> nat {
    match c {
        ColorType::Grayscale => 1,
        ColorType::Rgb => 3,
        ColorType::Palette => 1,
        ColorType::GrayscaleAlpha => 2,
        ColorType::Rgba => 4,
    }
}

/// The bit depths the format allows for a color type.
pub open spec fn depth_allowed(c: ColorType, d: u8) -> bool {
    match c {
        ColorType::Grayscale => d == 1 || d == 2 || d == 4 || d == 8 || d == 16,
        ColorType::Rgb => d == 8 || d == 16,
        ColorType::Palette => d == 1 || d == 2 || d == 4 || d == 8,
        ColorType::GrayscaleAlpha => d == 8 || d == 16,
        ColorType::Rgba => d == 8 || d == 16,
    }
}

/// A header the decoder accepts: positive dimensions and a legal
/// depth/color-type pairing.
pub open spec fn header_valid(h: ImageHeader) -> bool {
    h.width > 0 && h.height > 0 && depth_allowed(h.color, h.bit_depth)
}

/// Bits used by one pixel.
pub open spec fn bits_per_pixel(h: ImageHeader) -> nat {
    channel_count(h.color) * (h.bit_depth as nat)
}

/// Bytes of one packed scanline of `w` pixels (sub-byte depths round up).
pub open spec fn row_bytes(h: ImageHeader, w: nat) -> nat {
    (w * bits_per_pixel(h) + 7nat) / 8nat
}

/// Bytes of one full-width scanline of the final image.
pub open spec fn stride(h: ImageHeader) -> nat {
    row_bytes(h, h.width as nat)
}

/// The byte distance to the "left" neighbor used by scanline filtering: whole
/// pixels of a byte or more step by the pixel size, packed pixels step by one
/// byte.
pub open spec fn filter_step(h: ImageHeader) -> nat {
    if bits_per_pixel(h) < 8 {
        1
    } else {
        bits_per_pixel(h) / 8
    }
}

/// The exact size of the decoded pixel buffer: one packed stride per row.
pub open spec fn buffer_size(h: ImageHeader) -> nat {
    (h.height as nat) * stride(h)
}

/// Executable mirror of `bits_per_pixel`; at most 64 for any header.
pub fn bits_per_pixel_exec(h: &ImageHeader) -> (r: u64)
    requires
        h.bit_depth <= 16,
    ensures
        r == bits_per_pixel(*h),
        r <= 64,
{
    let ch: u64 = match h.color {
        ColorType::Grayscale => 1,
        ColorType::Rgb => 3,
        ColorType::Palette => 1,
        ColorType::GrayscaleAlpha => 2,
        ColorType::Rgba => 4,
    };
    ch * (h.bit_depth as u64)
}

/// Executable mirror of `row_bytes` for any pixel count up to a full row.
pub fn row_bytes_exec(h: &ImageHeader, w: u32) -> (r: u64)
    requires
        h.bit_depth <= 16,
    ensures
        r == row_bytes(*h, w as nat),
        r <= 0x8_0000_0000u64,
{
    let bpp = bits_per_pixel_exec(h);
    proof {
        assert((w as nat) * bits_per_pixel(*h) <= 0xFFFF_FFFFnat * 64) by (nonlinear_arith)
            requires
                w <= 0xFFFF_FFFFu32,
                bits_per_pixel(*h) <= 64,
        ;
    }
    ((w as u64) * bpp + 7) / 8
}

/// Executable mirror of `stride`.
pub fn stride_exec(h: &ImageHeader) -> (r: u64)
    requires
        h.bit_depth <= 16,
    ensures
        r == stride(*h),
        r <= 0x8_0000_0000u64,
{
    row_bytes_exec(h, h.width)
}

/// Executable mirror of `filter_step`.
pub fn filter_step_exec(h: &ImageHeader) -> (r: u64)
    requires
        h.bit_depth <= 16,
    ensures
        r == filter_step(*h),
        1 <= r <= 8 || bits_per_pixel(*h) == 0,
{
    let bpp = bits_per_pixel_exec(h);
    if bpp < 8 {
        1
    } else {
        bpp / 8
    }
}

} // verus!
