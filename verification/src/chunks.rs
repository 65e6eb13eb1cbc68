use vstd::prelude::*;
use crate::crc::{crc32_of, crc32_range};
use crate::error::PngError;
use crate::header::{ColorType, ImageHeader, depth_allowed};

verus! {

/// The big-endian 32-bit value stored at `s[i..i+4]`.
pub open spec fn be32(s: Seq<u8>, i: int) -> nat
    recommends
        0 <= i,
        i + 4 <= s.len(),
{
    (s[i] as nat) * 0x1000000 + (s[i + 1] as nat) * 0x10000 + (s[i + 2] as nat) * 0x100 + (
    s[i + 3] as nat)
}

/// The fixed eight-byte PNG signature.
pub open spec fn signature_ok(s: Seq<u8>) -> bool {
    &&& s.len() >= 8
    &&& s[0] == 137u8
    &&& s[1] == 80u8
    &&& s[2] == 78u8
    &&& s[3] == 71u8
    &&& s[4] == 13u8
    &&& s[5] == 10u8
    &&& s[6] == 26u8
    &&& s[7] == 10u8
}

pub open spec fn type_ihdr() -> nat {
    0x49484452
}

pub open spec fn type_plte() -> nat {
    0x504C5445
}

pub open spec fn type_idat() -> nat {
    0x49444154
}

pub open spec fn type_iend() -> nat {
    0x49454E44
}

/// The stored CRC of the chunk starting at `i` matches the CRC-32 of its
/// type and payload bytes.
pub open spec fn chunk_crc_ok(s: Seq<u8>, i: int) -> bool
    recommends
        0 <= i,
        i + 12 + be32(s, i) <= s.len(),
{
    be32(s, i + 8 + be32(s, i)) == crc32_of(s.subrange(i + 4, i + 8 + be32(s, i))) as nat
}

/// Walking the chunk records from offset `i` to the terminating chunk,
/// carrying the compressed data gathered so far and whether a palette chunk
/// was seen. Each record is length, type, payload, CRC; a record that does
/// not fit in the remaining bytes, or whose CRC does not match, stops the
/// walk with `ChunkCorrupt`. Compressed-data payloads are concatenated in
/// encounter order; every other chunk type is skipped after its CRC check.
pub open spec fn scan_chunks(s: Seq<u8>, i: int, idat: Seq<u8>, plte: bool) -> Result<
    (Seq<u8>, bool),
    PngError,
>
    recommends
        0 <= i,
    decreases s.len() - i,
{
    if i + 12 > s.len() {
        Err(PngError::ChunkCorrupt)
    } else {
        let len = be32(s, i) as int;
        if i + 12 + len > s.len() {
            Err(PngError::ChunkCorrupt)
        } else if !chunk_crc_ok(s, i) {
            Err(PngError::ChunkCorrupt)
        } else {
            let t = be32(s, i + 4);
            if t == type_iend() {
                Ok((idat, plte))
            } else if t == type_idat() {
                scan_chunks(s, i + 12 + len, idat + s.subrange(i + 8, i + 8 + len), plte)
            } else if t == type_plte() {
                scan_chunks(s, i + 12 + len, idat, true)
            } else {
                scan_chunks(s, i + 12 + len, idat, plte)
            }
        }
    }
}

/// The color type a header byte encodes, if any.
pub open spec fn color_from_code(c: u8) -> Option<ColorType> {
    if c == 0 {
        Some(ColorType::Grayscale)
    } else if c == 2 {
        Some(ColorType::Rgb)
    } else if c == 3 {
        Some(ColorType::Palette)
    } else if c == 4 {
        Some(ColorType::GrayscaleAlpha)
    } else if c == 6 {
        Some(ColorType::Rgba)
    } else {
        None
    }
}

/// Parsing the signature and the image header chunk, which must come first.
/// The header chunk's thirteen payload bytes give width, height, bit depth,
/// color type, compression method, filter method and interlace flag; a field
/// combination the format does not allow is `InvalidHeader`.
pub open spec fn parse_header(s: Seq<u8>) -> Result<ImageHeader, PngError> {
    if !signature_ok(s) {
        Err(PngError::InvalidSignature)
    } else if s.len() < 16 {
        Err(PngError::MissingHeader)
    } else if be32(s, 12) != type_ihdr() {
        Err(PngError::MissingHeader)
    } else if be32(s, 8) != 13 {
        Err(PngError::InvalidHeader)
    } else if s.len() < 33 {
        Err(PngError::ChunkCorrupt)
    } else if !chunk_crc_ok(s, 8) {
        Err(PngError::ChunkCorrupt)
    } else {
        let w = be32(s, 16);
        let h = be32(s, 20);
        let depth = s[24];
        let color = color_from_code(s[25]);
        let compression = s[26];
        let filter = s[27];
        let interlace = s[28];
        if w == 0 || h == 0 || color is None || !depth_allowed(color->Some_0, depth)
            || compression != 0 || filter != 0 || interlace > 1 {
            Err(PngError::InvalidHeader)
        } else {
            Ok(
                ImageHeader {
                    width: w as u32,
                    height: h as u32,
                    bit_depth: depth,
                    color: color->Some_0,
                    interlaced: interlace == 1,
                },
            )
        }
    }
}

/// The whole container parse: signature, header chunk, then the chunk walk
/// from the first byte after the header chunk. An indexed-color image whose
/// walk saw no palette chunk is `MissingRequiredChunk`.
pub open spec fn parse_png(s: Seq<u8>) -> Result<(ImageHeader, Seq<u8>), PngError> {
    match parse_header(s) {
        Err(e) => Err(e),
        Ok(h) => match scan_chunks(s, 33, Seq::empty(), false) {
            Err(e) => Err(e),
            Ok((idat, plte)) => if h.color is Palette && !plte {
                Err(PngError::MissingRequiredChunk)
            } else {
                Ok((h, idat))
            },
        },
    }
}

/// Reads the big-endian 32-bit value at `data[i..i+4]`.
pub fn read_be32(data: &[u8], i: usize) -> (r: u32)
    requires
        i + 4 <= data@.len(),
    ensures
        r as nat == be32(data@, i as int),
{
    (data[i] as u32) * 0x1000000 + (data[i + 1] as u32) * 0x10000 + (data[i + 2] as u32) * 0x100 + (
    data[i + 3] as u32)
}

/// Checks the eight-byte signature.
pub fn check_signature(data: &[u8]) -> (r: bool)
    ensures
        r == signature_ok(data@),
{
    data.len() >= 8 && data[0] == 137 && data[1] == 80 && data[2] == 78 && data[3] == 71
        && data[4] == 13 && data[5] == 10 && data[6] == 26 && data[7] == 10
}

/// Parses the container: verifies the signature, the leading image header
/// chunk and every chunk CRC, and concatenates the compressed-data payloads
/// in file order. Returns exactly what the container specification
/// `parse_png` says for this input.
pub fn parse(data: &[u8]) -> (r: Result<(ImageHeader, Vec<u8>), PngError>)
    ensures
        match r {
            Ok(p) => parse_png(data@) == Ok::<(ImageHeader, Seq<u8>), PngError>((p.0, p.1@)),
            Err(e) => parse_png(data@) == Err::<(ImageHeader, Seq<u8>), PngError>(e),
        },
{
    let dlen: usize = data.len();
    if !check_signature(data) {
        return Err(PngError::InvalidSignature);
    }
    if dlen < 16 {
        return Err(PngError::MissingHeader);
    }
    if read_be32(data, 12) != 0x49484452u32 {
        return Err(PngError::MissingHeader);
    }
    if read_be32(data, 8) != 13 {
        return Err(PngError::InvalidHeader);
    }
    if dlen < 33 {
        return Err(PngError::ChunkCorrupt);
    }
    let stored = read_be32(data, 29);
    let computed = crc32_range(data, 12, 17);
    proof {
        assert(be32(data@, 8) == 13);
    }
    if stored != computed {
        return Err(PngError::ChunkCorrupt);
    }
    let w = read_be32(data, 16);
    let h = read_be32(data, 20);
    let depth = data[24];
    let color_code = data[25];
    let compression = data[26];
    let filter = data[27];
    let interlace = data[28];
    let color = if color_code == 0 {
        Some(ColorType::Grayscale)
    } else if color_code == 2 {
        Some(ColorType::Rgb)
    } else if color_code == 3 {
        Some(ColorType::Palette)
    } else if color_code == 4 {
        Some(ColorType::GrayscaleAlpha)
    } else if color_code == 6 {
        Some(ColorType::Rgba)
    } else {
        None
    };
    let depth_ok = match color {
        None => false,
        Some(c) => match c {
            ColorType::Grayscale => depth == 1 || depth == 2 || depth == 4 || depth == 8 || depth
                == 16,
            ColorType::Rgb => depth == 8 || depth == 16,
            ColorType::Palette => depth == 1 || depth == 2 || depth == 4 || depth == 8,
            ColorType::GrayscaleAlpha => depth == 8 || depth == 16,
            ColorType::Rgba => depth == 8 || depth == 16,
        },
    };
    if w == 0 || h == 0 || !depth_ok || compression != 0 || filter != 0 || interlace > 1 {
        return Err(PngError::InvalidHeader);
    }
    let header = ImageHeader {
        width: w,
        height: h,
        bit_depth: depth,
        color: match color {
            Some(c) => c,
            None => ColorType::Grayscale,
        },
        interlaced: interlace == 1,
    };
    proof {
        assert(parse_header(data@) == Ok::<ImageHeader, PngError>(header));
    }
    // Walk the remaining chunks, accumulating compressed data.
    let mut idat: Vec<u8> = Vec::new();
    let mut plte: bool = false;
    let mut i: usize = 33;
    loop
        invariant
            33 <= i <= dlen,
            dlen == data@.len(),
            parse_header(data@) == Ok::<ImageHeader, PngError>(header),
            scan_chunks(data@, 33, Seq::empty(), false) == scan_chunks(
                data@,
                i as int,
                idat@,
                plte,
            ),
        decreases data@.len() - i,
    {
        if i > dlen - 12 {
            return Err(PngError::ChunkCorrupt);
        }
        let len = read_be32(data, i);
        if (len as u64) > (dlen as u64) - (i as u64) - 12 {
            return Err(PngError::ChunkCorrupt);
        }
        let len = len as usize;
        let t = read_be32(data, i + 4);
        let stored = read_be32(data, i + 8 + len);
        let computed = crc32_range(data, i + 4, len + 4);
        proof {
            assert(be32(data@, i as int) == len);
        }
        if stored != computed {
            return Err(PngError::ChunkCorrupt);
        }
        if t == 0x49454E44u32 {
            // terminating chunk: indexed color without a palette is an error
            if matches!(header.color, ColorType::Palette) && !plte {
                return Err(PngError::MissingRequiredChunk);
            }
            return Ok((header, idat));
        } else if t == 0x49444154u32 {
            let mut j: usize = 0;
            let ghost idat0 = idat@;
            while j < len
                invariant
                    j <= len,
                    i + 12 + len <= dlen == data@.len(),
                    idat@ == idat0 + data@.subrange(i + 8, i + 8 + j),
                decreases len - j,
            {
                idat.push(data[i + 8 + j]);
                proof {
                    assert(data@.subrange(i + 8, i + 8 + (j + 1)) =~= data@.subrange(
                        i + 8,
                        i + 8 + j,
                    ).push(data@[i + 8 + j]));
                    assert(idat@ =~= idat0 + data@.subrange(i + 8, i + 8 + (j + 1)));
                }
                j = j + 1;
            }
            assert(idat@ == idat0 + data@.subrange(i + 8, i + 8 + len));
        } else if t == 0x504C5445u32 {
            plte = true;
        }
        i = i + 12 + len;
    }
}


/// `p` is a byte position inside the stored CRC field of one of the chunk
/// records that a walk from offset `i` visits, up to and including the
/// terminating chunk.
pub open spec fn is_crc_pos(s: Seq<u8>, i: int, p: int) -> bool
    decreases s.len() - i,
{
    if i < 0 || i + 12 > s.len() {
        false
    } else {
        let len = be32(s, i) as int;
        if i + 12 + len > s.len() {
            false
        } else if i + 8 + len <= p < i + 12 + len {
            true
        } else if be32(s, i + 4) == type_iend() {
            false
        } else {
            is_crc_pos(s, i + 12 + len, p)
        }
    }
}

/// A CRC position of a walk from `i` lies beyond the fixed fields of the
/// chunk at `i`.
proof fn lemma_crc_pos_lb(s: Seq<u8>, i: int, p: int)
    requires
        is_crc_pos(s, i, p),
    ensures
        p >= i + 8,
        p >= i + 8 + be32(s, i),
    decreases s.len() - i,
{
    let len = be32(s, i) as int;
    if !(i + 8 + len <= p < i + 12 + len) {
        lemma_crc_pos_lb(s, i + 12 + len, p);
    }
}

/// The chunk walk fails only ever with `ChunkCorrupt`.
pub proof fn lemma_scan_err_kind(s: Seq<u8>, i: int, idat: Seq<u8>, plte: bool)
    requires
        0 <= i,
    ensures
        scan_chunks(s, i, idat, plte) is Err ==> scan_chunks(s, i, idat, plte) == Err::<
            (Seq<u8>, bool),
            PngError,
        >(PngError::ChunkCorrupt),
    decreases s.len() - i,
{
    if i + 12 <= s.len() {
        let len = be32(s, i) as int;
        if i + 12 + len <= s.len() && chunk_crc_ok(s, i) {
            let t = be32(s, i + 4);
            if t == type_idat() {
                lemma_scan_err_kind(s, i + 12 + len, idat + s.subrange(i + 8, i + 8 + len), plte);
            } else if t == type_plte() {
                lemma_scan_err_kind(s, i + 12 + len, idat, true);
            } else if t != type_iend() {
                lemma_scan_err_kind(s, i + 12 + len, idat, plte);
            }
        }
    }
}

/// Changing one byte of a stored big-endian word changes the word.
proof fn lemma_be32_changed(s: Seq<u8>, s2: Seq<u8>, i: int, p: int)
    requires
        s2.len() == s.len(),
        0 <= i,
        i + 4 <= s.len(),
        i <= p < i + 4,
        forall|k: int| 0 <= k < s.len() && k != p ==> s2[k] == s[k],
        s2[p] != s[p],
    ensures
        be32(s2, i) != be32(s, i),
{
    if p == i {
        assert(s2[i + 1] == s[i + 1] && s2[i + 2] == s[i + 2] && s2[i + 3] == s[i + 3]);
    } else if p == i + 1 {
        assert(s2[i] == s[i] && s2[i + 2] == s[i + 2] && s2[i + 3] == s[i + 3]);
    } else if p == i + 2 {
        assert(s2[i] == s[i] && s2[i + 1] == s[i + 1] && s2[i + 3] == s[i + 3]);
    } else {
        assert(s2[i] == s[i] && s2[i + 1] == s[i + 1] && s2[i + 2] == s[i + 2]);
    }
}

/// A walk that succeeded on `s` fails with `ChunkCorrupt` on a copy of `s`
/// whose one changed byte sits in some visited chunk's CRC field, whatever
/// data the walk carries.
proof fn lemma_scan_crc_corrupt(
    s: Seq<u8>,
    s2: Seq<u8>,
    i: int,
    idat1: Seq<u8>,
    plte1: bool,
    idat2: Seq<u8>,
    plte2: bool,
    p: int,
)
    requires
        s2.len() == s.len(),
        0 <= i,
        0 <= p < s.len(),
        forall|k: int| 0 <= k < s.len() && k != p ==> s2[k] == s[k],
        s2[p] != s[p],
        scan_chunks(s, i, idat1, plte1) is Ok,
        is_crc_pos(s, i, p),
    ensures
        scan_chunks(s2, i, idat2, plte2) == Err::<(Seq<u8>, bool), PngError>(
            PngError::ChunkCorrupt,
        ),
    decreases s.len() - i,
{
    let len = be32(s, i) as int;
    assert(i + 12 <= s.len() && i + 12 + len <= s.len());
    assert(chunk_crc_ok(s, i));
    // the length and type fields sit before any CRC position of this walk
    lemma_crc_pos_lb(s, i, p);
    assert(p >= i + 8);
    assert(s2.subrange(i, i + 8) =~= s.subrange(i, i + 8));
    assert(be32(s2, i) == be32(s, i));
    assert(be32(s2, i + 4) == be32(s, i + 4));
    if i + 8 + len <= p < i + 12 + len {
        // this chunk's stored CRC changed; its computed CRC did not
        assert(s2.subrange(i + 4, i + 8 + len) =~= s.subrange(i + 4, i + 8 + len));
        lemma_be32_changed(s, s2, i + 8 + len, p);
        assert(!chunk_crc_ok(s2, i));
        assert(scan_chunks(s2, i, idat2, plte2) == Err::<(Seq<u8>, bool), PngError>(
            PngError::ChunkCorrupt,
        ));
    } else {
        // the change sits in a later chunk: this record reads the same
        assert(is_crc_pos(s, i + 12 + len, p));
        lemma_crc_pos_lb(s, i + 12 + len, p);
        assert(p >= i + 12 + len);
        assert(s2.subrange(i + 4, i + 8 + len) =~= s.subrange(i + 4, i + 8 + len));
        assert(be32(s2, i + 8 + len) == be32(s, i + 8 + len)) by {
            assert(s2.subrange(i + 8 + len, i + 12 + len) =~= s.subrange(
                i + 8 + len,
                i + 12 + len,
            ));
            assert(s2[i + 8 + len] == s[i + 8 + len]);
            assert(s2[i + 9 + len] == s[i + 9 + len]);
            assert(s2[i + 10 + len] == s[i + 10 + len]);
            assert(s2[i + 11 + len] == s[i + 11 + len]);
        }
        assert(chunk_crc_ok(s2, i));
        let t = be32(s, i + 4);
        assert(t != type_iend());
        if t == type_idat() {
            lemma_scan_crc_corrupt(
                s,
                s2,
                i + 12 + len,
                idat1 + s.subrange(i + 8, i + 8 + len),
                plte1,
                idat2 + s2.subrange(i + 8, i + 8 + len),
                plte2,
                p,
            );
        } else if t == type_plte() {
            lemma_scan_crc_corrupt(s, s2, i + 12 + len, idat1, true, idat2, true, p);
        } else {
            lemma_scan_crc_corrupt(s, s2, i + 12 + len, idat1, plte1, idat2, plte2, p);
        }
    }
}

/// From the start of the stream, a CRC position lies past the signature
/// and the header chunk's fixed fields.
proof fn lemma_crc_pos_top(s: Seq<u8>, p: int)
    requires
        is_crc_pos(s, 8, p),
    ensures
        p >= 16,
{
    lemma_crc_pos_lb(s, 8, p);
}

/// Corrupting any single byte of any chunk's stored CRC in a stream that
/// parses turns the parse verdict into `ChunkCorrupt`: no such change is
/// silently accepted.
pub proof fn lemma_crc_corruption(s: Seq<u8>, s2: Seq<u8>, p: int)
    requires
        parse_png(s) is Ok,
        s2.len() == s.len(),
        0 <= p < s.len(),
        forall|k: int| 0 <= k < s.len() && k != p ==> s2[k] == s[k],
        s2[p] != s[p],
        is_crc_pos(s, 8, p),
    ensures
        parse_png(s2) == Err::<(ImageHeader, Seq<u8>), PngError>(PngError::ChunkCorrupt),
{
    assert(parse_header(s) is Ok);
    assert(be32(s, 8) == 13 && be32(s, 12) == type_ihdr());
    assert(s.len() >= 33);
    lemma_crc_pos_top(s, p);
    assert(signature_ok(s2)) by {
        assert(p >= 16);
    }
    if p < 33 {
        // the changed byte is the header chunk's own CRC
        assert(29 <= p < 33) by {
            if !(29 <= p < 33) {
                assert(is_crc_pos(s, 33, p));
                lemma_crc_pos_lb(s, 33, p);
            }
        }
        assert(be32(s2, 8) == 13 && be32(s2, 12) == type_ihdr()) by {
            assert(s2[8] == s[8] && s2[9] == s[9] && s2[10] == s[10] && s2[11] == s[11]);
            assert(s2[12] == s[12] && s2[13] == s[13] && s2[14] == s[14] && s2[15] == s[15]);
        }
        assert(s2.subrange(12, 29) =~= s.subrange(12, 29));
        lemma_be32_changed(s, s2, 29, p);
        assert(!chunk_crc_ok(s2, 8));
        assert(parse_header(s2) == Err::<ImageHeader, PngError>(PngError::ChunkCorrupt));
    } else {
        // the header chunk reads the same; the walk finds the mismatch
        assert(parse_header(s2) == parse_header(s)) by {
            assert(forall|k: int| 0 <= k < 33 ==> s2[k] == s[k]);
            assert(be32(s2, 8) == be32(s, 8) && be32(s2, 12) == be32(s, 12));
            assert(be32(s2, 16) == be32(s, 16) && be32(s2, 20) == be32(s, 20));
            assert(be32(s2, 29) == be32(s, 29));
            assert(s2.subrange(12, 29) =~= s.subrange(12, 29));
            assert(chunk_crc_ok(s2, 8) == chunk_crc_ok(s, 8));
        }
        assert(is_crc_pos(s, 33, p)) by {
            assert(!(8 + 8 + 13 <= p < 8 + 12 + 13));
        }
        lemma_scan_crc_corrupt(s, s2, 33, Seq::empty(), false, Seq::empty(), false, p);
    }
}

} // verus!
