use pngcore::chunks::{eat_u32, process_ihdr, read_chunks, Chunk};
use pngcore::errors::PngError;

fn be32_bytes(v: u32) -> [u8; 4] {
    [(v >> 24) as u8, (v >> 16) as u8, (v >> 8) as u8, v as u8]
}

#[test]
fn eat_u32_reads_big_endian() {
    let data: Vec<u8> = vec![0x12, 0x34, 0x56, 0x78, 0xFF];
    let mut i: usize = 0;
    assert_eq!(eat_u32(&mut i, &data), Ok(0x12345678));
    assert_eq!(i, 4);
}

#[test]
fn eat_u32_advances_position() {
    let data: Vec<u8> = vec![0, 0, 0, 1, 0, 0, 0, 2];
    let mut i: usize = 0;
    assert_eq!(eat_u32(&mut i, &data), Ok(1));
    assert_eq!(eat_u32(&mut i, &data), Ok(2));
    assert_eq!(i, 8);
}

#[test]
fn eat_u32_out_of_bounds() {
    let data: Vec<u8> = vec![1, 2, 3];
    let mut i: usize = 0;
    assert_eq!(eat_u32(&mut i, &data), Err(PngError::OutOfBounds));
    assert_eq!(i, 0);
}

#[test]
fn read_chunks_splits_stream() {
    // Two records: 2 payload bytes of type 0x11223344, then an empty IEND.
    let mut body: Vec<u8> = Vec::new();
    body.extend(be32_bytes(2));
    body.extend(be32_bytes(0x11223344));
    body.extend([0xAA, 0xBB]);
    body.extend([0, 0, 0, 0]); // checksum, not verified
    body.extend(be32_bytes(0));
    body.extend(be32_bytes(0x49454e44));
    body.extend([0, 0, 0, 0]);
    let total = body.len();
    let chunks = read_chunks(body).unwrap();
    assert_eq!(chunks.len(), 2);
    assert_eq!(chunks[0].typ, 0x11223344);
    assert_eq!(chunks[0].data, vec![0xAA, 0xBB]);
    assert_eq!(chunks[1].typ, 0x49454e44);
    assert_eq!(chunks[1].data, Vec::<u8>::new());
    // Framing round-trip: length + type + payload + placeholder checksum
    // re-serializes to exactly the original byte length.
    let reserialized: usize = chunks.iter().map(|c| 12 + c.data.len()).sum();
    assert_eq!(reserialized, total);
}

#[test]
fn read_chunks_empty_stream() {
    let chunks = read_chunks(Vec::new()).unwrap();
    assert_eq!(chunks.len(), 0);
}

#[test]
fn read_chunks_truncated_declared_length() {
    // A chunk declaring 100 payload bytes with only 50 bytes remaining.
    let mut body: Vec<u8> = Vec::new();
    body.extend(be32_bytes(100));
    body.extend(be32_bytes(0x49444154));
    body.extend(std::iter::repeat(0u8).take(50));
    assert_eq!(read_chunks(body), Err(PngError::TruncatedChunk));
}

#[test]
fn read_chunks_truncated_mid_header() {
    let body: Vec<u8> = vec![0, 0, 0];
    assert_eq!(read_chunks(body), Err(PngError::TruncatedChunk));
}

#[test]
fn process_ihdr_extracts_fields() {
    let mut payload: Vec<u8> = Vec::new();
    payload.extend(be32_bytes(640));
    payload.extend(be32_bytes(480));
    payload.extend([8, 2, 0, 0, 0]);
    let ch = Chunk { typ: 0x49484452, data: payload };
    let info = process_ihdr(&ch).unwrap();
    assert_eq!(info.width, 640);
    assert_eq!(info.height, 480);
    assert_eq!(info.bit_depth, 8);
    assert_eq!(info.color_type, 2);
    assert_eq!(info.compression_method, 0);
    assert_eq!(info.filter_method, 0);
    assert_eq!(info.interlace_method, 0);
}

#[test]
fn process_ihdr_rejects_short_payload() {
    // One byte short of the required 13.
    let ch = Chunk { typ: 0x49484452, data: vec![0; 12] };
    assert_eq!(process_ihdr(&ch), Err(PngError::InvalidHeader));
}

#[test]
fn process_ihdr_rejects_long_payload() {
    let ch = Chunk { typ: 0x49484452, data: vec![0; 14] };
    assert_eq!(process_ihdr(&ch), Err(PngError::InvalidHeader));
}
