use pngdec::decode::decode;
use pngdec::error::PngError;

fn chunk(ty: &[u8; 4], payload: &[u8]) -> Vec<u8> {
    let mut c = Vec::new();
    c.extend_from_slice(&(payload.len() as u32).to_be_bytes());
    c.extend_from_slice(ty);
    c.extend_from_slice(payload);
    let mut h = crc32fast::Hasher::new();
    h.update(ty);
    h.update(payload);
    c.extend_from_slice(&h.finalize().to_be_bytes());
    c
}

fn ihdr(w: u32, h: u32, depth: u8, color: u8, interlace: u8) -> Vec<u8> {
    let mut p = Vec::new();
    p.extend_from_slice(&w.to_be_bytes());
    p.extend_from_slice(&h.to_be_bytes());
    p.push(depth);
    p.push(color);
    p.push(0);
    p.push(0);
    p.push(interlace);
    p
}

fn png_bytes(w: u32, h: u32, depth: u8, color: u8, interlace: u8, filtered: &[u8]) -> Vec<u8> {
    let mut out: Vec<u8> = vec![137, 80, 78, 71, 13, 10, 26, 10];
    out.extend(chunk(b"IHDR", &ihdr(w, h, depth, color, interlace)));
    let compressed = miniz_oxide::deflate::compress_to_vec_zlib(filtered, 6);
    out.extend(chunk(b"IDAT", &compressed));
    out.extend(chunk(b"IEND", &[]));
    out
}

#[test]
fn gray_1x1_filter_none() {
    // a single 8-bit gray pixel behind filter type None comes back verbatim
    let png = png_bytes(1, 1, 8, 0, 0, &[0, 0x5A]);
    assert_eq!(decode(&png), Ok(vec![0x5A]));
}

#[test]
fn gray16_1x1() {
    let png = png_bytes(1, 1, 16, 0, 0, &[0, 0xAB, 0xCD]);
    assert_eq!(decode(&png), Ok(vec![0xAB, 0xCD]));
}

#[test]
fn packed_1bit_row() {
    // eight 1-bit pixels stay packed in one byte
    let png = png_bytes(8, 1, 1, 0, 0, &[0, 0b1011_0010]);
    assert_eq!(decode(&png), Ok(vec![0b1011_0010]));
}

#[test]
fn rgb_2x2_sub_row2() {
    // row 2 uses Sub: each byte is filtered + reconstructed left (mod 256)
    let row1 = [10u8, 20, 30, 40, 50, 60];
    let row2f = [1u8, 2, 3, 4, 5, 6];
    let mut filtered = vec![0u8];
    filtered.extend_from_slice(&row1);
    filtered.push(1);
    filtered.extend_from_slice(&row2f);
    let png = png_bytes(2, 2, 8, 2, 0, &filtered);
    let out = decode(&png).unwrap();
    assert_eq!(&out[..6], &row1);
    for i in 0..6 {
        let left = if i >= 3 { out[6 + i - 3] } else { 0 };
        assert_eq!(out[6 + i], row2f[i].wrapping_add(left));
    }
    assert_eq!(&out[6..], &[1, 2, 3, 5, 7, 9]);
}

#[test]
fn gray_2x2_up_filter() {
    let png = png_bytes(2, 2, 8, 0, 0, &[0, 7, 9, 2, 10, 250]);
    assert_eq!(decode(&png), Ok(vec![7, 9, 17, 3]));
}

#[test]
fn gray_2x2_average_filter() {
    let png = png_bytes(2, 2, 8, 0, 0, &[0, 10, 20, 3, 6, 7]);
    assert_eq!(decode(&png), Ok(vec![10, 20, 11, 22]));
}

#[test]
fn gray_2x2_paeth_filter() {
    let png = png_bytes(2, 2, 8, 0, 0, &[0, 10, 20, 4, 1, 2]);
    assert_eq!(decode(&png), Ok(vec![10, 20, 11, 22]));
}

#[test]
fn buffer_size_matches_header() {
    // 3x2 RGBA 8-bit: 3 * 4 bytes per row, 2 rows
    let filtered: Vec<u8> = vec![
        0, 1, 2, 3, 4, 5, 6, 7, 8, 9, 10, 11, 12, 0, 13, 14, 15, 16, 17, 18, 19, 20, 21, 22, 23,
        24,
    ];
    let png = png_bytes(3, 2, 8, 6, 0, &filtered);
    let out = decode(&png).unwrap();
    assert_eq!(out.len(), 24);
}

#[test]
fn decode_twice_identical() {
    let png = png_bytes(2, 2, 8, 0, 0, &[0, 1, 2, 1, 3, 4]);
    let a = decode(&png);
    let b = decode(&png);
    assert_eq!(a, b);
    assert!(a.is_ok());
}

#[test]
fn crc_corruption_detected() {
    // flipping any single CRC byte of any chunk must give ChunkCorrupt
    let png = png_bytes(1, 1, 8, 0, 0, &[0, 42]);
    assert!(decode(&png).is_ok());
    // gather the CRC byte positions of every chunk
    let mut crc_positions = Vec::new();
    let mut i = 8usize;
    while i < png.len() {
        let len = u32::from_be_bytes([png[i], png[i + 1], png[i + 2], png[i + 3]]) as usize;
        for k in 0..4 {
            crc_positions.push(i + 8 + len + k);
        }
        i += 12 + len;
    }
    assert!(crc_positions.len() >= 12);
    for pos in crc_positions {
        let mut bad = png.clone();
        bad[pos] ^= 0xFF;
        assert_eq!(decode(&bad), Err(PngError::ChunkCorrupt));
    }
}

#[test]
fn truncated_compressed_data() {
    // a chunk-valid stream whose zlib payload stops mid-stream
    let filtered = [0u8, 1, 2, 3, 4, 5, 6, 7, 8, 9, 10, 11, 12];
    let compressed = miniz_oxide::deflate::compress_to_vec_zlib(&filtered, 6);
    let truncated = &compressed[..compressed.len() - 3];
    let mut png: Vec<u8> = vec![137, 80, 78, 71, 13, 10, 26, 10];
    png.extend(chunk(b"IHDR", &ihdr(4, 3, 8, 0, 0)));
    png.extend(chunk(b"IDAT", truncated));
    png.extend(chunk(b"IEND", &[]));
    assert_eq!(decode(&png), Err(PngError::DecompressionError));
}

#[test]
fn wrong_signature() {
    let data = b"NOTAPNG! some other file format".to_vec();
    assert_eq!(decode(&data), Err(PngError::InvalidSignature));
    assert_eq!(
        PngError::InvalidSignature.message(),
        "not a PNG stream: bad signature"
    );
}

#[test]
fn missing_header_chunk() {
    let mut png: Vec<u8> = vec![137, 80, 78, 71, 13, 10, 26, 10];
    png.extend(chunk(b"IEND", &[]));
    assert_eq!(decode(&png), Err(PngError::MissingHeader));
}

#[test]
fn invalid_header_fields() {
    // bit depth 3 exists for no color type
    let png = png_bytes(1, 1, 3, 0, 0, &[0, 1]);
    assert_eq!(decode(&png), Err(PngError::InvalidHeader));
    // RGB with depth 4 is not allowed either
    let png = png_bytes(1, 1, 4, 2, 0, &[0, 1]);
    assert_eq!(decode(&png), Err(PngError::InvalidHeader));
    // zero width
    let png = png_bytes(0, 1, 8, 0, 0, &[0, 1]);
    assert_eq!(decode(&png), Err(PngError::InvalidHeader));
}

#[test]
fn palette_without_plte_chunk() {
    let png = png_bytes(1, 1, 8, 3, 0, &[0, 0]);
    assert_eq!(decode(&png), Err(PngError::MissingRequiredChunk));
}

#[test]
fn palette_with_plte_chunk() {
    let mut png: Vec<u8> = vec![137, 80, 78, 71, 13, 10, 26, 10];
    png.extend(chunk(b"IHDR", &ihdr(1, 1, 8, 3, 0)));
    png.extend(chunk(b"PLTE", &[255, 0, 0, 0, 255, 0]));
    let compressed = miniz_oxide::deflate::compress_to_vec_zlib(&[0, 1], 6);
    png.extend(chunk(b"IDAT", &compressed));
    png.extend(chunk(b"IEND", &[]));
    // indexed output keeps the palette indices, not the palette colors
    assert_eq!(decode(&png), Ok(vec![1]));
}

#[test]
fn ancillary_chunks_skipped() {
    let mut png: Vec<u8> = vec![137, 80, 78, 71, 13, 10, 26, 10];
    png.extend(chunk(b"IHDR", &ihdr(1, 1, 8, 0, 0)));
    png.extend(chunk(b"gAMA", &45455u32.to_be_bytes()));
    let compressed = miniz_oxide::deflate::compress_to_vec_zlib(&[0, 99], 6);
    png.extend(chunk(b"IDAT", &compressed));
    png.extend(chunk(b"tEXt", b"comment\0hello"));
    png.extend(chunk(b"IEND", &[]));
    assert_eq!(decode(&png), Ok(vec![99]));
}

#[test]
fn idat_split_across_chunks() {
    // compressed data split over several chunks concatenates in file order
    let compressed = miniz_oxide::deflate::compress_to_vec_zlib(&[0, 7, 8, 0, 9, 10], 6);
    let mid = compressed.len() / 2;
    let mut png: Vec<u8> = vec![137, 80, 78, 71, 13, 10, 26, 10];
    png.extend(chunk(b"IHDR", &ihdr(2, 2, 8, 0, 0)));
    png.extend(chunk(b"IDAT", &compressed[..mid]));
    png.extend(chunk(b"IDAT", &compressed[mid..]));
    png.extend(chunk(b"IEND", &[]));
    assert_eq!(decode(&png), Ok(vec![7, 8, 9, 10]));
}

#[test]
fn decompressed_size_mismatch() {
    // well-formed zlib stream that inflates to fewer bytes than the header implies
    let png = png_bytes(1, 1, 8, 0, 0, &[0]);
    assert_eq!(decode(&png), Err(PngError::SizeMismatch));
}

#[test]
fn oversized_header_rejected() {
    // a header implying a multi-terabyte buffer is rejected, not allocated
    let png = png_bytes(0xFFFF_FFFF, 0xFFFF_FFFF, 16, 0, 0, &[]);
    assert_eq!(decode(&png), Err(PngError::SizeMismatch));
}

#[test]
fn invalid_filter_type() {
    let png = png_bytes(1, 1, 8, 0, 0, &[5, 7]);
    assert_eq!(decode(&png), Err(PngError::InvalidFilterType));
}

#[test]
fn truncated_chunk_record() {
    let mut png = png_bytes(1, 1, 8, 0, 0, &[0, 1]);
    // cut into the terminating chunk's CRC
    png.truncate(png.len() - 2);
    assert_eq!(decode(&png), Err(PngError::ChunkCorrupt));
}

#[test]
fn interlaced_matches_non_interlaced() {
    // 2x2 gray: pixels 1,2 / 3,4 with the same content in both layouts
    let plain = png_bytes(2, 2, 8, 0, 0, &[0, 1, 2, 0, 3, 4]);
    // seven-pass layout: pass 1 holds (0,0); pass 6 holds (0,1); pass 7 holds row 1
    let inter = png_bytes(2, 2, 8, 0, 1, &[0, 1, 0, 2, 0, 3, 4]);
    let a = decode(&plain).unwrap();
    let b = decode(&inter).unwrap();
    assert_eq!(a, vec![1, 2, 3, 4]);
    assert_eq!(a, b);
}

#[test]
fn interlaced_matches_non_interlaced_packed() {
    // 2x2 1-bit gray: pixels 1,0 / 1,1, packed most-significant-bit first
    let plain = png_bytes(2, 2, 1, 0, 0, &[0, 0b1000_0000, 0, 0b1100_0000]);
    let inter = png_bytes(
        2,
        2,
        1,
        0,
        1,
        &[0, 0b1000_0000, 0, 0b0000_0000, 0, 0b1100_0000],
    );
    let a = decode(&plain).unwrap();
    let b = decode(&inter).unwrap();
    assert_eq!(a, vec![0b1000_0000, 0b1100_0000]);
    assert_eq!(a, b);
}

#[test]
fn interlaced_rgb_4x4() {
    // every pass of a 4x4 image present: checks pass geometry and placement
    let mut pixels = Vec::new();
    for i in 0..16u8 {
        pixels.extend_from_slice(&[i, 100 + i, 200u8.wrapping_add(i)]);
    }
    // non-interlaced: 4 rows of 12 bytes, filter None
    let mut plain_f = Vec::new();
    for r in 0..4 {
        plain_f.push(0);
        plain_f.extend_from_slice(&pixels[r * 12..(r + 1) * 12]);
    }
    let plain = decode(&png_bytes(4, 4, 8, 2, 0, &plain_f)).unwrap();
    assert_eq!(plain, pixels);
    // Adam7 passes for 4x4: pass1 (0,0); pass4 (0,2); pass5 row 2: (2,0),(2,2);
    // pass6 rows 0,2 cols 1,3; pass7 rows 1,3 all cols
    let px = |r: usize, c: usize| -> &[u8] { &pixels[(r * 4 + c) * 3..(r * 4 + c) * 3 + 3] };
    let mut inter_f = Vec::new();
    inter_f.push(0);
    inter_f.extend_from_slice(px(0, 0)); // pass 1
    inter_f.push(0);
    inter_f.extend_from_slice(px(0, 2)); // pass 4
    inter_f.push(0);
    inter_f.extend_from_slice(px(2, 0)); // pass 5 row
    inter_f.extend_from_slice(px(2, 2));
    inter_f.push(0);
    inter_f.extend_from_slice(px(0, 1)); // pass 6 row 0
    inter_f.extend_from_slice(px(0, 3));
    inter_f.push(0);
    inter_f.extend_from_slice(px(2, 1)); // pass 6 row 2
    inter_f.extend_from_slice(px(2, 3));
    for r in [1usize, 3] {
        inter_f.push(0); // pass 7 rows
        for c in 0..4 {
            inter_f.extend_from_slice(px(r, c));
        }
    }
    let inter = decode(&png_bytes(4, 4, 8, 2, 1, &inter_f)).unwrap();
    assert_eq!(inter, pixels);
}

#[test]
fn round_trip_reference_encoder() {
    // encode a known raw buffer with the reference encoder, decode it here
    let raw: Vec<u8> = (0u8..=255).collect(); // deliberately varied bytes
    let w = 8u32;
    let h = 8u32;
    let rgba: Vec<u8> = raw[..(w * h * 4 / 2) as usize]
        .iter()
        .chain(raw[..(w * h * 4 / 2) as usize].iter())
        .cloned()
        .collect();
    let mut encoded: Vec<u8> = Vec::new();
    {
        let mut enc = png::Encoder::new(&mut encoded, w, h);
        enc.set_color(png::ColorType::Rgba);
        enc.set_depth(png::BitDepth::Eight);
        let mut writer = enc.write_header().unwrap();
        writer.write_image_data(&rgba).unwrap();
    }
    let decoded = decode(&encoded).unwrap();
    assert_eq!(decoded, rgba);
}

#[test]
fn round_trip_reference_encoder_gray() {
    let gray: Vec<u8> = (0..35u8).map(|v| v.wrapping_mul(37)).collect();
    let mut encoded: Vec<u8> = Vec::new();
    {
        let mut enc = png::Encoder::new(&mut encoded, 7, 5);
        enc.set_color(png::ColorType::Grayscale);
        enc.set_depth(png::BitDepth::Eight);
        let mut writer = enc.write_header().unwrap();
        writer.write_image_data(&gray).unwrap();
    }
    let decoded = decode(&encoded).unwrap();
    assert_eq!(decoded, gray);
}

#[test]
fn rgb16_sub_uses_six_byte_step() {
    // 16-bit RGB: the Sub filter's left neighbor sits six bytes back
    let row1 = [1u8, 2, 3, 4, 5, 6, 7, 8, 9, 10, 11, 12];
    let row2f = [100u8, 100, 100, 100, 100, 100, 200, 200, 200, 200, 200, 200];
    let mut filtered = vec![0u8];
    filtered.extend_from_slice(&row1);
    filtered.push(1);
    filtered.extend_from_slice(&row2f);
    let png = png_bytes(2, 2, 16, 2, 0, &filtered);
    let out = decode(&png).unwrap();
    assert_eq!(&out[..12], &row1);
    let mut expect = Vec::new();
    for i in 0..12usize {
        let left = if i >= 6 { expect[i - 6] } else { 0u8 };
        expect.push(row2f[i].wrapping_add(left));
    }
    assert_eq!(&out[12..], &expect[..]);
}

#[test]
fn gray_alpha_roundtrip() {
    let ga: Vec<u8> = vec![10, 255, 20, 128, 30, 0, 40, 64];
    let mut encoded: Vec<u8> = Vec::new();
    {
        let mut enc = png::Encoder::new(&mut encoded, 2, 2);
        enc.set_color(png::ColorType::GrayscaleAlpha);
        enc.set_depth(png::BitDepth::Eight);
        let mut writer = enc.write_header().unwrap();
        writer.write_image_data(&ga).unwrap();
    }
    assert_eq!(decode(&encoded), Ok(ga));
}
