use pngcore::chunks::Chunk;
use pngcore::errors::{HeaderField, PngError};
use pngcore::pipeline::{inflate_bytes, process_png, IDAT_TYPE, IEND_TYPE};
use pngcore::unfilter::RGBA;
use std::io::Write;

const IHDR_TYPE: u32 = 0x49484452;

fn zlib_compress(raw: &[u8]) -> Vec<u8> {
    let mut enc = flate2::write::ZlibEncoder::new(Vec::new(), flate2::Compression::default());
    enc.write_all(raw).unwrap();
    enc.finish().unwrap()
}

fn ihdr_chunk(width: u32, height: u32, bit_depth: u8, color_type: u8) -> Chunk {
    let mut payload: Vec<u8> = Vec::new();
    payload.extend(width.to_be_bytes());
    payload.extend(height.to_be_bytes());
    payload.extend([bit_depth, color_type, 0, 0, 0]);
    Chunk { typ: IHDR_TYPE, data: payload }
}

fn iend_chunk() -> Chunk {
    Chunk { typ: IEND_TYPE, data: Vec::new() }
}

fn px(r: u8, g: u8, b: u8) -> RGBA {
    RGBA { dat: [r, g, b, 0] }
}

#[test]
fn inflate_bytes_round_trips() {
    let raw: Vec<u8> = (0u8..=255).cycle().take(1000).collect();
    let compressed = zlib_compress(&raw);
    assert_ne!(compressed, raw);
    assert_eq!(inflate_bytes(&compressed), Ok(raw));
}

#[test]
fn inflate_bytes_rejects_garbage() {
    let garbage: Vec<u8> = vec![0xFF; 16];
    assert_eq!(inflate_bytes(&garbage), Err(PngError::DecompressionError));
}

#[test]
fn process_png_decodes_image() {
    let scanlines: Vec<u8> = vec![1, 5, 5, 5, 2, 2, 2];
    let idat = Chunk { typ: IDAT_TYPE, data: zlib_compress(&scanlines) };
    let png = vec![ihdr_chunk(2, 1, 8, 2), idat, iend_chunk()];
    let (rows, nblack) = process_png(png).unwrap();
    assert_eq!(rows.len(), 1);
    assert_eq!(rows[0].pixels, vec![px(5, 5, 5), px(7, 7, 7)]);
    assert_eq!(nblack, 0);
}

#[test]
fn process_png_concatenates_idat_chunks() {
    let scanlines: Vec<u8> = vec![0, 1, 2, 3, 2, 1, 2, 3];
    let compressed = zlib_compress(&scanlines);
    let (first, second) = compressed.split_at(compressed.len() / 2);
    let png = vec![
        ihdr_chunk(1, 2, 8, 2),
        Chunk { typ: IDAT_TYPE, data: first.to_vec() },
        Chunk { typ: IDAT_TYPE, data: second.to_vec() },
        iend_chunk(),
    ];
    let (rows, _) = process_png(png).unwrap();
    assert_eq!(rows[0].pixels[0], px(1, 2, 3));
    assert_eq!(rows[1].pixels[0], px(2, 4, 6));
}

#[test]
fn process_png_counts_black_pixels() {
    let scanlines: Vec<u8> = vec![0, 0, 0, 0, 1, 2, 3, 0, 0, 0, 0, 0, 0, 0];
    let idat = Chunk { typ: IDAT_TYPE, data: zlib_compress(&scanlines) };
    let png = vec![ihdr_chunk(2, 2, 8, 2), idat, iend_chunk()];
    let (_, nblack) = process_png(png).unwrap();
    assert_eq!(nblack, 3);
}

#[test]
fn process_png_rejects_empty_stream() {
    assert_eq!(process_png(Vec::new()).unwrap_err(), PngError::MalformedStream);
}

#[test]
fn process_png_rejects_missing_end_marker() {
    let idat = Chunk { typ: IDAT_TYPE, data: zlib_compress(&[0, 1, 2, 3]) };
    let png = vec![ihdr_chunk(1, 1, 8, 2), idat];
    assert_eq!(process_png(png).unwrap_err(), PngError::MalformedStream);
}

#[test]
fn process_png_rejects_nonempty_end_marker() {
    let idat = Chunk { typ: IDAT_TYPE, data: zlib_compress(&[0, 1, 2, 3]) };
    let bad_end = Chunk { typ: IEND_TYPE, data: vec![1] };
    let png = vec![ihdr_chunk(1, 1, 8, 2), idat, bad_end];
    assert_eq!(process_png(png).unwrap_err(), PngError::MalformedStream);
}

#[test]
fn process_png_rejects_short_header() {
    let bad_ihdr = Chunk { typ: IHDR_TYPE, data: vec![0; 12] };
    let png = vec![bad_ihdr, iend_chunk()];
    assert_eq!(process_png(png).unwrap_err(), PngError::InvalidHeader);
}

#[test]
fn process_png_rejects_unsupported_bit_depth() {
    let png = vec![ihdr_chunk(1, 1, 16, 2), iend_chunk()];
    assert_eq!(
        process_png(png).unwrap_err(),
        PngError::UnsupportedImageFormat(HeaderField::BitDepth)
    );
}

#[test]
fn process_png_rejects_unsupported_color_type() {
    let png = vec![ihdr_chunk(1, 1, 8, 6), iend_chunk()];
    assert_eq!(
        process_png(png).unwrap_err(),
        PngError::UnsupportedImageFormat(HeaderField::ColorType)
    );
}

#[test]
fn process_png_rejects_nonzero_compression_method() {
    let mut ihdr = ihdr_chunk(1, 1, 8, 2);
    ihdr.data[10] = 1;
    let png = vec![ihdr, iend_chunk()];
    assert_eq!(
        process_png(png).unwrap_err(),
        PngError::UnsupportedImageFormat(HeaderField::CompressionMethod)
    );
}

#[test]
fn process_png_rejects_nonzero_filter_method() {
    let mut ihdr = ihdr_chunk(1, 1, 8, 2);
    ihdr.data[11] = 1;
    let png = vec![ihdr, iend_chunk()];
    assert_eq!(
        process_png(png).unwrap_err(),
        PngError::UnsupportedImageFormat(HeaderField::FilterMethod)
    );
}

#[test]
fn process_png_rejects_interlaced_image() {
    let mut ihdr = ihdr_chunk(1, 1, 8, 2);
    ihdr.data[12] = 1;
    let png = vec![ihdr, iend_chunk()];
    assert_eq!(
        process_png(png).unwrap_err(),
        PngError::UnsupportedImageFormat(HeaderField::InterlaceMethod)
    );
}

#[test]
fn process_png_rejects_bad_compressed_data() {
    let idat = Chunk { typ: IDAT_TYPE, data: vec![0xFF; 10] };
    let png = vec![ihdr_chunk(1, 1, 8, 2), idat, iend_chunk()];
    assert_eq!(process_png(png).unwrap_err(), PngError::DecompressionError);
}

#[test]
fn process_png_rejects_truncated_image_data() {
    // Inflates fine but holds fewer bytes than one scanline needs.
    let idat = Chunk { typ: IDAT_TYPE, data: zlib_compress(&[0, 10]) };
    let png = vec![ihdr_chunk(1, 1, 8, 2), idat, iend_chunk()];
    assert_eq!(process_png(png).unwrap_err(), PngError::TruncatedImageData);
}

#[test]
fn process_png_rejects_bad_filter_type_with_row() {
    let idat = Chunk { typ: IDAT_TYPE, data: zlib_compress(&[0, 1, 2, 3, 5, 9, 9, 9]) };
    let png = vec![ihdr_chunk(1, 2, 8, 2), idat, iend_chunk()];
    assert_eq!(process_png(png).unwrap_err(), PngError::InvalidFilterType(1));
}

#[test]
fn process_png_ignores_non_idat_chunks() {
    let scanlines: Vec<u8> = vec![0, 9, 8, 7];
    let other = Chunk { typ: 0x74455874, data: vec![1, 2, 3] };
    let idat = Chunk { typ: IDAT_TYPE, data: zlib_compress(&scanlines) };
    let png = vec![ihdr_chunk(1, 1, 8, 2), other, idat, iend_chunk()];
    let (rows, _) = process_png(png).unwrap();
    assert_eq!(rows[0].pixels[0], px(9, 8, 7));
}
