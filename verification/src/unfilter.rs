//! Scanline reconstruction: reversing the per-row filters (None, Sub, Up,
//! Average, Paeth) over the decompressed image data, producing the pixel grid.

use vstd::prelude::*;
use crate::chunks::IHDRInfo;
use crate::errors::PngError;

verus! {

/// One pixel: red, green and blue samples and an unused fourth slot that the
/// supported truecolor profile leaves at zero.
#[derive(Clone, Copy, Debug, PartialEq, Eq)]
pub struct RGBA {
    pub dat: [u8; 4],
}

/// One reconstructed scanline, `width` pixels long.
#[derive(Debug)]
pub struct Row {
    pub pixels: Vec<RGBA>,
}

/// Absolute value of a mathematical integer.
pub open spec fn abs_val(x: int) -> int {
    if x < 0 {
        -x
    } else {
        x
    }
}

/// The Paeth predictor over the left, up and up-left neighbors. The
/// tie-break order is fixed by the format: `a` wins ties with both `b` and
/// `c`, and `b` wins a tie with `c`; reordering it changes decoded output.
pub open spec fn paeth(a: int, b: int, c: int) -> int {
    let p = a + b - c;
    let pa = abs_val(p - a);
    let pb = abs_val(p - b);
    let pc = abs_val(p - c);
    if pa <= pb && pa <= pc {
        a
    } else if pb <= pc {
        b
    } else {
        c
    }
}

/// With all three neighbors equal, the Paeth predictor returns that value.
pub proof fn lemma_paeth_all_equal(a: int)
    ensures
        paeth(a, a, a) == a,
{
}

/// Computes the Paeth predictor in signed arithmetic wide enough to avoid
/// overflow, preserving the fixed tie-break order `a`, then `b`, then `c`.
pub fn paeth_predictor(a: i32, b: i32, c: i32) -> (r: u8)
    requires
        0 <= a <= 255,
        0 <= b <= 255,
        0 <= c <= 255,
    ensures
        r as int == paeth(a as int, b as int, c as int),
{
    let p: i32 = a + b - c;
    let da: i32 = p - a;
    let db: i32 = p - b;
    let dc: i32 = p - c;
    let pa: i32 = if da < 0 { -da } else { da };
    let pb: i32 = if db < 0 { -db } else { db };
    let pc: i32 = if dc < 0 { -dc } else { dc };
    if pa <= pb && pa <= pc {
        a as u8
    } else if pb <= pc {
        b as u8
    } else {
        c as u8
    }
}

/// The value a filter type predicts from the already-reconstructed left, up
/// and up-left neighbor samples: 0 for None, `left` for Sub, `up` for Up,
/// the truncated mean of `left` and `up` for Average, Paeth for type 4.
pub open spec fn predicted(ft: u8, left: u8, up: u8, upleft: u8) -> int
    recommends
        ft <= 4,
{
    if ft == 0 {
        0
    } else if ft == 1 {
        left as int
    } else if ft == 2 {
        up as int
    } else if ft == 3 {
        (left as int + up as int) / 2
    } else {
        paeth(left as int, up as int, upleft as int)
    }
}

/// A reconstructed sample: the stored byte plus the predicted value, with
/// 8-bit wraparound.
pub open spec fn recon_byte(ft: u8, raw: u8, left: u8, up: u8, upleft: u8) -> u8
    recommends
        ft <= 4,
{
    ((raw as int + predicted(ft, left, up, upleft)) % 256) as u8
}

/// Filtering and unfiltering are inverses under modulo-256 arithmetic: for
/// filter types 0, 1 and 2, subtracting the predicted value from the
/// reconstructed sample (modulo 256) recovers the stored byte.
pub proof fn lemma_filter_unfilter_inverse(ft: u8, raw: u8, left: u8, up: u8, upleft: u8)
    requires
        ft == 0 || ft == 1 || ft == 2,
    ensures
        (recon_byte(ft, raw, left, up, upleft) as int - predicted(ft, left, up, upleft)) % 256
            == raw as int,
{
    let p = predicted(ft, left, up, upleft);
    assert(0 <= p <= 255);
    assert((raw as int + p) % 256 - p == raw as int - 256 || (raw as int + p) % 256 - p
        == raw as int) by {
        vstd::arithmetic::div_mod::lemma_mod_bound(raw as int + p, 256);
        vstd::arithmetic::div_mod::lemma_sub_mod_noop(raw as int + p, p, 256);
        vstd::arithmetic::div_mod::lemma_small_mod(raw as nat, 256);
        vstd::arithmetic::div_mod::lemma_mod_twice(raw as int + p, 256);
    }
    vstd::arithmetic::div_mod::lemma_small_mod(raw as nat, 256);
    if (raw as int + p) % 256 - p == raw as int - 256 {
        assert((raw as int - 256) % 256 == raw as int) by {
            vstd::arithmetic::div_mod::lemma_mod_sub_multiples_vanish(raw as int, 256);
        }
    }
}

/// Reconstructs one channel of one pixel from the stored byte and the three
/// already-reconstructed neighbor samples.
fn recon_channel(ft: u8, raw: u8, left: u8, up: u8, upleft: u8) -> (r: u8)
    requires
        ft <= 4,
    ensures
        r == recon_byte(ft, raw, left, up, upleft),
{
    if ft == 0 {
        raw
    } else if ft == 1 {
        (((raw as u16) + (left as u16)) % 256) as u8
    } else if ft == 2 {
        (((raw as u16) + (up as u16)) % 256) as u8
    } else if ft == 3 {
        let avg: u16 = ((left as u16) + (up as u16)) / 2;
        (((raw as u16) + avg) % 256) as u8
    } else {
        let pred: u8 = paeth_predictor(left as i32, up as i32, upleft as i32);
        assert(0 <= paeth(left as int, up as int, upleft as int) <= 255);
        (((raw as u16) + (pred as u16)) % 256) as u8
    }
}

/// Applies one filter reversal step to all three color channels; the fourth
/// slot of the result is zero.
pub fn filter_pixel(filtertype: u8, pix: RGBA, left: RGBA, up: RGBA, upleft: RGBA) -> (r: RGBA)
    requires
        filtertype <= 4,
    ensures
        forall|k: int|
            0 <= k < 3 ==> r.dat[k] == recon_byte(
                filtertype,
                pix.dat[k],
                left.dat[k],
                up.dat[k],
                upleft.dat[k],
            ),
        r.dat[3] == 0,
{
    let r0: u8 = recon_channel(filtertype, pix.dat[0], left.dat[0], up.dat[0], upleft.dat[0]);
    let r1: u8 = recon_channel(filtertype, pix.dat[1], left.dat[1], up.dat[1], upleft.dat[1]);
    let r2: u8 = recon_channel(filtertype, pix.dat[2], left.dat[2], up.dat[2], upleft.dat[2]);
    RGBA { dat: [r0, r1, r2, 0] }
}

/// Bytes one scanline occupies in the decompressed stream: one filter type
/// byte, then three sample bytes per pixel.
pub open spec fn row_stride(width: u32) -> int {
    1 + 3 * (width as int)
}

/// The filter type byte of row `r`.
pub open spec fn filter_byte_of(data: Seq<u8>, width: u32, r: int) -> u8 {
    data[r * row_stride(width)]
}

/// The stored (still filtered) byte of channel `ch` of pixel `(r, c)`.
pub open spec fn raw_byte_of(data: Seq<u8>, width: u32, r: int, c: int, ch: int) -> u8 {
    data[r * row_stride(width) + 1 + 3 * c + ch]
}

/// The reconstructed value of channel `ch` of pixel `(r, c)`: the stored
/// byte plus the row's predictor over the already-reconstructed neighbors,
/// with missing neighbors read as zero at the top row and left column.
pub open spec fn recon_sample(data: Seq<u8>, width: u32, r: int, c: int, ch: int) -> u8
    decreases r, c,
        when 0 <= r && 0 <= c
{
    let left = if c > 0 {
        recon_sample(data, width, r, c - 1, ch)
    } else {
        0u8
    };
    let up = if r > 0 {
        recon_sample(data, width, r - 1, c, ch)
    } else {
        0u8
    };
    let upleft = if r > 0 && c > 0 {
        recon_sample(data, width, r - 1, c - 1, ch)
    } else {
        0u8
    };
    recon_byte(filter_byte_of(data, width, r), raw_byte_of(data, width, r, c, ch), left, up, upleft)
}

/// The first `nrows` scanlines all carry a known filter type.
pub open spec fn filters_ok_upto(data: Seq<u8>, width: u32, nrows: int) -> bool {
    forall|r: int| 0 <= r < nrows ==> filter_byte_of(data, width, r) <= 4
}

/// The grid holds exactly the reconstructed samples of `data` under header
/// `h`: `height` rows of `width` pixels, each channel as `recon_sample`
/// gives it, each unused fourth slot zero.
pub open spec fn grid_matches(rows: Seq<Row>, data: Seq<u8>, h: IHDRInfo) -> bool {
    &&& rows.len() == h.height
    &&& forall|r: int| 0 <= r < rows.len() ==> (#[trigger] rows[r]).pixels@.len() == h.width
    &&& forall|r: int, c: int, ch: int|
        0 <= r < rows.len() && 0 <= c < h.width && 0 <= ch < 3 ==> rows[r].pixels@[c].dat[ch]
            == recon_sample(data, h.width, r, c, ch)
    &&& forall|r: int, c: int|
        0 <= r < rows.len() && 0 <= c < h.width ==> (#[trigger] rows[r].pixels@[c]).dat[3] == 0
}

/// Reverses the per-row filtering of the decompressed image data and
/// assembles the pixel grid, row by row; each finished row is kept because
/// the next row's predictors read it.
#[verifier::loop_isolation(false)]
pub fn convert_to_rows(ihdr: &IHDRInfo, data: Vec<u8>) -> (res: Result<Vec<Row>, PngError>)
    requires
        ihdr.bit_depth == 8,
        ihdr.color_type == 2,
    ensures
        match res {
            Ok(rows) => {
                &&& data@.len() >= ihdr.height * row_stride(ihdr.width)
                &&& filters_ok_upto(data@, ihdr.width, ihdr.height as int)
                &&& grid_matches(rows@, data@, *ihdr)
            },
            Err(e) => match e {
                PngError::TruncatedImageData => data@.len() < ihdr.height * row_stride(ihdr.width),
                PngError::InvalidFilterType(row) => {
                    &&& data@.len() >= ihdr.height * row_stride(ihdr.width)
                    &&& (row as int) < ihdr.height
                    &&& filter_byte_of(data@, ihdr.width, row as int) > 4
                    &&& filters_ok_upto(data@, ihdr.width, row as int)
                },
                _ => false,
            },
        },
{
    let ghost s = row_stride(ihdr.width);
    let stride64: u64 = 3 * (ihdr.width as u64) + 1;
    let len64: u64 = data.len() as u64;
    if len64 / stride64 < ihdr.height as u64 {
        proof {
            assert(data@.len() < ihdr.height * s) by {
                vstd::arithmetic::div_mod::lemma_fundamental_div_mod(len64 as int, s);
                assert((len64 as int / s) * s <= len64 as int);
                if data@.len() >= ihdr.height * s {
                    vstd::arithmetic::div_mod::lemma_div_is_ordered(
                        ihdr.height * s,
                        len64 as int,
                        s,
                    );
                    vstd::arithmetic::div_mod::lemma_div_by_multiple(ihdr.height as int, s);
                }
            }
        }
        return Err(PngError::TruncatedImageData);
    }
    proof {
        assert(data@.len() >= ihdr.height * s) by {
            vstd::arithmetic::div_mod::lemma_fundamental_div_mod(len64 as int, s);
            vstd::arithmetic::div_mod::lemma_mod_bound(len64 as int, s);
            vstd::arithmetic::mul::lemma_mul_inequality(
                ihdr.height as int,
                len64 as int / s,
                s,
            );
        }
    }
    if ihdr.height == 0 {
        let rows: Vec<Row> = Vec::new();
        return Ok(rows);
    }
    proof {
        assert(s <= ihdr.height * s) by (nonlinear_arith)
            requires
                1 <= ihdr.height as int,
                0 <= s,
        ;
    }
    let stride: usize = stride64 as usize;
    proof {
        assert(stride as int == s);
    }
    let width: usize = ihdr.width as usize;
    let height: usize = ihdr.height as usize;
    let mut rows: Vec<Row> = Vec::new();
    let mut rownum: usize = 0;
    while rownum < height
        invariant
            rows@.len() == rownum,
            rownum <= height,
            filters_ok_upto(data@, ihdr.width, rownum as int),
            forall|r: int| 0 <= r < rownum ==> (#[trigger] rows@[r]).pixels@.len() == width,
            forall|r: int, c: int, ch: int|
                0 <= r < rownum && 0 <= c < width && 0 <= ch < 3 ==> rows@[r].pixels@[c].dat[ch]
                    == recon_sample(data@, ihdr.width, r, c, ch),
            forall|r: int, c: int|
                0 <= r < rownum && 0 <= c < width ==> (#[trigger] rows@[r].pixels@[c]).dat[3]
                    == 0,
        decreases height - rownum,
    {
        proof {
            assert(rownum * s + s <= ihdr.height * s) by (nonlinear_arith)
                requires
                    rownum as int + 1 <= ihdr.height as int,
                    0 <= s,
            ;
        }
        let base: usize = rownum * stride;
        let ft: u8 = data[base];
        if ft > 4 {
            return Err(PngError::InvalidFilterType(rownum));
        }
        let zero: RGBA = RGBA { dat: [0, 0, 0, 0] };
        let mut build: Vec<RGBA> = Vec::new();
        let mut prev: RGBA = zero;
        let mut colnum: usize = 0;
        while colnum < width
            invariant
                build@.len() == colnum,
                colnum <= width,
                forall|c: int, ch: int|
                    0 <= c < colnum && 0 <= ch < 3 ==> build@[c].dat[ch] == recon_sample(
                        data@,
                        ihdr.width,
                        rownum as int,
                        c,
                        ch,
                    ),
                forall|c: int| 0 <= c < colnum ==> (#[trigger] build@[c]).dat[3] == 0,
                forall|ch: int|
                    0 <= ch < 3 ==> prev.dat[ch] == (if colnum > 0 {
                        recon_sample(data@, ihdr.width, rownum as int, colnum - 1, ch)
                    } else {
                        0u8
                    }),
            decreases width - colnum,
        {
            let off: usize = base + 1 + colnum * 3;
            let r: u8 = data[off];
            let g: u8 = data[off + 1];
            let b: u8 = data[off + 2];
            let pix: RGBA = RGBA { dat: [r, g, b, 0] };
            let up: RGBA = if rownum > 0 {
                rows[rownum - 1].pixels[colnum]
            } else {
                zero
            };
            let upleft: RGBA = if rownum > 0 && colnum > 0 {
                rows[rownum - 1].pixels[colnum - 1]
            } else {
                zero
            };
            let newpix: RGBA = filter_pixel(ft, pix, prev, up, upleft);
            proof {
                assert forall|ch: int| 0 <= ch < 3 implies newpix.dat[ch] == recon_sample(
                    data@,
                    ihdr.width,
                    rownum as int,
                    colnum as int,
                    ch,
                ) by {
                    let rr = rownum as int;
                    let cc = colnum as int;
                    assert(base as int == rr * s);
                    assert(off as int == rr * s + 1 + 3 * cc);
                    assert(pix.dat[ch] == data@[rr * s + 1 + 3 * cc + ch]);
                    assert(pix.dat[ch] == raw_byte_of(data@, ihdr.width, rr, cc, ch));
                    assert(ft == filter_byte_of(data@, ihdr.width, rr));
                    if rownum > 0 {
                        assert(up == rows@[rr - 1].pixels@[cc]);
                        assert(up.dat[ch] == recon_sample(data@, ihdr.width, rr - 1, cc, ch));
                        if colnum > 0 {
                            assert(upleft == rows@[rr - 1].pixels@[cc - 1]);
                            assert(upleft.dat[ch] == recon_sample(
                                data@,
                                ihdr.width,
                                rr - 1,
                                cc - 1,
                                ch,
                            ));
                        }
                    }
                    assert(newpix.dat[ch] == recon_byte(
                        ft,
                        pix.dat[ch],
                        prev.dat[ch],
                        up.dat[ch],
                        upleft.dat[ch],
                    ));
                }
            }
            build.push(newpix);
            prev = newpix;
            colnum = colnum + 1;
        }
        rows.push(Row { pixels: build });
        rownum = rownum + 1;
    }
    Ok(rows)
}

} // verus!
