//! The decode pipeline: header extraction and validation, concatenation of
//! the image-data chunk payloads, decompression through the external
//! collaborator, scanline reconstruction, and a black-pixel count.

use vstd::prelude::*;
use crate::chunks::{Chunk, ChunkView, IHDRInfo, chunks_view, header_of, process_ihdr};
use crate::errors::{HeaderField, PngError};
use crate::unfilter::{
    RGBA,
    Row,
    convert_to_rows,
    filter_byte_of,
    filters_ok_upto,
    grid_matches,
    row_stride,
};

verus! {

/// Type code of an image-data chunk (ASCII "IDAT").
pub const IDAT_TYPE: u32 = 0x49444154;

/// Type code of the end-marker chunk (ASCII "IEND").
pub const IEND_TYPE: u32 = 0x49454e44;

/// What the decompression collaborator yields on a given compressed byte
/// sequence: the inflated bytes, or nothing when the input is malformed.
/// Inflating is a function of the input bytes alone.
pub uninterp spec fn inflate_of(s: Seq<u8>) -> Option<Seq<u8>>;

/// Relies on flate2's ZlibDecoder (driven by std's read_to_end): inflates a
/// zlib stream held wholly in memory, a result that depends on the input
/// bytes alone, and fails on malformed compressed data.
#[verifier::external_body]
pub fn inflate_bytes(b: &[u8]) -> (r: Result<Vec<u8>, PngError>)
    ensures
        match r {
            Ok(v) => inflate_of(b@) == Some(v@),
            Err(e) => {
                &&& inflate_of(b@) is None
                &&& e == PngError::DecompressionError
            },
        },
{
    let mut d = flate2::read::ZlibDecoder::new(b);
    let mut res: Vec<u8> = Vec::new();
    match std::io::Read::read_to_end(&mut d, &mut res) {
        Ok(_) => Ok(res),
        Err(_) => Err(PngError::DecompressionError),
    }
}

/// The image-data payloads among chunks `1 .. n`, concatenated in stream
/// order. The first chunk (the header) and everything from index `n` on are
/// not consulted.
pub open spec fn idat_upto(cs: Seq<ChunkView>, n: int) -> Seq<u8>
    decreases n,
{
    if n <= 1 {
        Seq::empty()
    } else {
        idat_upto(cs, n - 1) + (if cs[n - 1].typ == IDAT_TYPE {
            cs[n - 1].data
        } else {
            Seq::empty()
        })
    }
}

/// The compressed stream of a chunk sequence: the image-data payloads of
/// all chunks but the first and the last, in order.
pub open spec fn compressed_of(cs: Seq<ChunkView>) -> Seq<u8> {
    idat_upto(cs, cs.len() - 1)
}

/// The first header field with a value outside the supported profile
/// (8-bit truecolor, standard compression, adaptive filtering,
/// non-interlaced), if any, in the fixed field order of the header.
pub open spec fn unsupported_field(h: IHDRInfo) -> Option<HeaderField> {
    if h.bit_depth != 8 {
        Some(HeaderField::BitDepth)
    } else if h.color_type != 2 {
        Some(HeaderField::ColorType)
    } else if h.compression_method != 0 {
        Some(HeaderField::CompressionMethod)
    } else if h.filter_method != 0 {
        Some(HeaderField::FilterMethod)
    } else if h.interlace_method != 0 {
        Some(HeaderField::InterlaceMethod)
    } else {
        None
    }
}

/// The stream ends properly: it is non-empty and its last chunk is an
/// end marker with an empty payload.
pub open spec fn stream_end_ok(cs: Seq<ChunkView>) -> bool {
    &&& cs.len() >= 1
    &&& cs.last().typ == IEND_TYPE
    &&& cs.last().data.len() == 0
}

/// A pure-black pixel: all three color samples zero.
pub open spec fn is_black(p: RGBA) -> bool {
    p.dat[0] == 0 && p.dat[1] == 0 && p.dat[2] == 0
}

/// How many of the first `n` pixels of a row are pure black.
pub open spec fn black_in_row(ps: Seq<RGBA>, n: int) -> int
    decreases n,
{
    if n <= 0 {
        0
    } else {
        black_in_row(ps, n - 1) + (if is_black(ps[n - 1]) {
            1int
        } else {
            0int
        })
    }
}

/// How many pure-black pixels the first `n` rows of the grid hold.
pub open spec fn black_upto(rows: Seq<Row>, n: int) -> int
    decreases n,
{
    if n <= 0 {
        0
    } else {
        black_upto(rows, n - 1) + black_in_row(rows[n - 1].pixels@, rows[n - 1].pixels@.len() as int)
    }
}

/// Total pure-black pixel count of a grid.
pub open spec fn black_total(rows: Seq<Row>) -> int {
    black_upto(rows, rows.len() as int)
}

proof fn lemma_black_in_row_bound(ps: Seq<RGBA>, n: int)
    requires
        0 <= n,
    ensures
        0 <= black_in_row(ps, n) <= n,
    decreases n,
{
    if n > 0 {
        lemma_black_in_row_bound(ps, n - 1);
    }
}

proof fn lemma_black_upto_bound(rows: Seq<Row>, n: int, w: int)
    requires
        0 <= n <= rows.len(),
        0 <= w,
        forall|r: int| 0 <= r < rows.len() ==> (#[trigger] rows[r]).pixels@.len() <= w,
    ensures
        0 <= black_upto(rows, n) <= n * w,
    decreases n,
{
    if n > 0 {
        lemma_black_upto_bound(rows, n - 1, w);
        lemma_black_in_row_bound(rows[n - 1].pixels@, rows[n - 1].pixels@.len() as int);
        assert((n - 1) * w + w == n * w) by (nonlinear_arith);
    } else {
        assert(n * w == 0) by (nonlinear_arith)
            requires
                n == 0,
        ;
    }
}

/// Counts the pure-black pixels of a reconstructed grid.
#[verifier::loop_isolation(false)]
pub fn count_black(rows: &Vec<Row>) -> (n: u64)
    requires
        rows@.len() <= u32::MAX,
        forall|r: int|
            0 <= r < rows@.len() ==> (#[trigger] rows@[r]).pixels@.len() <= u32::MAX,
    ensures
        n == black_total(rows@),
{
    let ghost w = u32::MAX as int;
    proof {
        assert(rows@.len() * w <= w * w) by (nonlinear_arith)
            requires
                0 <= rows@.len() <= w,
        ;
    }
    let mut n: u64 = 0;
    let mut r: usize = 0;
    while r < rows.len()
        invariant
            r <= rows@.len(),
            n == black_upto(rows@, r as int),
            n <= (r as int) * w,
        decreases rows@.len() - r,
    {
        proof {
            lemma_black_upto_bound(rows@, r as int, w);
        }
        let row: &Row = &rows[r];
        let mut c: usize = 0;
        let mut in_row: u64 = 0;
        while c < row.pixels.len()
            invariant
                c <= row.pixels@.len(),
                in_row == black_in_row(row.pixels@, c as int),
                in_row <= c,
            decreases row.pixels@.len() - c,
        {
            let p: RGBA = row.pixels[c];
            if p.dat[0] == 0 && p.dat[1] == 0 && p.dat[2] == 0 {
                in_row = in_row + 1;
            }
            c = c + 1;
        }
        proof {
            assert((r as int) * w + w == (r as int + 1) * w) by (nonlinear_arith);
            assert((r as int + 1) * w <= w * w) by (nonlinear_arith)
                requires
                    0 <= r as int + 1 <= w,
        ;
        }
        n = n + in_row;
        r = r + 1;
    }
    n
}

/// The checks that precede decompression all pass: there is a first chunk,
/// its payload parses as a header, every header field is supported, and the
/// stream ends in an empty end marker.
pub open spec fn frame_ok(cs: Seq<ChunkView>) -> bool {
    &&& cs.len() >= 1
    &&& cs[0].data.len() == 13
    &&& unsupported_field(header_of(cs[0].data)) is None
    &&& stream_end_ok(cs)
}

/// Runs the decode pipeline over an already-split chunk sequence: header
/// extraction and validation, end-marker check, image-data concatenation,
/// decompression, scanline reconstruction, and the pure-black pixel count.
#[verifier::loop_isolation(false)]
pub fn process_png(png: Vec<Chunk>) -> (r: Result<(Vec<Row>, u64), PngError>)
    ensures
        ({
            let cs = chunks_view(png@);
            let h = header_of(cs[0].data);
            let inflated = inflate_of(compressed_of(cs));
            match r {
                Ok(res) => {
                    &&& frame_ok(cs)
                    &&& inflated is Some
                    &&& inflated.unwrap().len() >= h.height * row_stride(h.width)
                    &&& filters_ok_upto(inflated.unwrap(), h.width, h.height as int)
                    &&& grid_matches(res.0@, inflated.unwrap(), h)
                    &&& res.1 == black_total(res.0@)
                },
                Err(e) => match e {
                    PngError::MalformedStream => cs.len() == 0 || ({
                        &&& cs.len() >= 1
                        &&& cs[0].data.len() == 13
                        &&& unsupported_field(h) is None
                        &&& !stream_end_ok(cs)
                    }),
                    PngError::InvalidHeader => cs.len() >= 1 && cs[0].data.len() != 13,
                    PngError::UnsupportedImageFormat(f) => {
                        &&& cs.len() >= 1
                        &&& cs[0].data.len() == 13
                        &&& unsupported_field(h) == Some(f)
                    },
                    PngError::DecompressionError => frame_ok(cs) && inflated is None,
                    PngError::TruncatedImageData => {
                        &&& frame_ok(cs)
                        &&& inflated is Some
                        &&& inflated.unwrap().len() < h.height * row_stride(h.width)
                    },
                    PngError::InvalidFilterType(row) => {
                        &&& frame_ok(cs)
                        &&& inflated is Some
                        &&& inflated.unwrap().len() >= h.height * row_stride(h.width)
                        &&& (row as int) < h.height
                        &&& filter_byte_of(inflated.unwrap(), h.width, row as int) > 4
                        &&& filters_ok_upto(inflated.unwrap(), h.width, row as int)
                    },
                    _ => false,
                },
            }
        }),
{
    let ghost cs = chunks_view(png@);
    if png.len() == 0 {
        return Err(PngError::MalformedStream);
    }
    proof {
        assert(cs[0] == png@[0]@);
        assert(cs.last() == png@[png@.len() - 1]@);
    }
    let ihdr: IHDRInfo = match process_ihdr(&png[0]) {
        Ok(h) => h,
        Err(e) => {
            return Err(e);
        },
    };
    proof {
        assert(ihdr == header_of(cs[0].data));
    }
    if ihdr.bit_depth != 8 {
        return Err(PngError::UnsupportedImageFormat(HeaderField::BitDepth));
    }
    if ihdr.color_type != 2 {
        return Err(PngError::UnsupportedImageFormat(HeaderField::ColorType));
    }
    if ihdr.compression_method != 0 {
        return Err(PngError::UnsupportedImageFormat(HeaderField::CompressionMethod));
    }
    if ihdr.filter_method != 0 {
        return Err(PngError::UnsupportedImageFormat(HeaderField::FilterMethod));
    }
    if ihdr.interlace_method != 0 {
        return Err(PngError::UnsupportedImageFormat(HeaderField::InterlaceMethod));
    }
    let lastidx: usize = png.len() - 1;
    if png[lastidx].typ != IEND_TYPE || png[lastidx].data.len() != 0 {
        return Err(PngError::MalformedStream);
    }
    let mut compressed: Vec<u8> = Vec::new();
    let mut k: usize = 1;
    proof {
        assert(compressed@ =~= idat_upto(cs, 1));
    }
    while k < lastidx
        invariant
            1 <= k,
            k <= lastidx || k == 1,
            compressed@ == idat_upto(cs, k as int),
        decreases lastidx - k,
    {
        proof {
            assert(cs[k as int] == png@[k as int]@);
        }
        if png[k].typ == IDAT_TYPE {
            let m: usize = png[k].data.len();
            let mut j: usize = 0;
            proof {
                assert(compressed@ =~= idat_upto(cs, k as int) + png@[k as int].data@.take(0));
            }
            while j < m
                invariant
                    j <= m,
                    compressed@ == idat_upto(cs, k as int) + png@[k as int].data@.take(j as int),
                decreases m - j,
            {
                let byte: u8 = png[k].data[j];
                compressed.push(byte);
                j = j + 1;
                proof {
                    assert(compressed@ =~= idat_upto(cs, k as int) + png@[k as int].data@.take(
                        j as int,
                    ));
                }
            }
            proof {
                assert(png@[k as int].data@.take(m as int) =~= png@[k as int].data@);
            }
        }
        k = k + 1;
        proof {
            assert(compressed@ =~= idat_upto(cs, k as int));
        }
    }
    proof {
        if lastidx >= 1 {
            assert(k == lastidx);
        } else {
            assert(idat_upto(cs, 1) =~= idat_upto(cs, 0));
        }
        assert(compressed@ == compressed_of(cs));
    }
    let inflated: Vec<u8> = match inflate_bytes(compressed.as_slice()) {
        Ok(v) => v,
        Err(e) => {
            return Err(e);
        },
    };
    let rows: Vec<Row> = match convert_to_rows(&ihdr, inflated) {
        Ok(v) => v,
        Err(e) => {
            return Err(e);
        },
    };
    let nblack: u64 = count_black(&rows);
    Ok((rows, nblack))
}

} // verus!
