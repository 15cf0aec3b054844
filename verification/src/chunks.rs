//! The chunk container format: big-endian integer extraction, splitting a
//! stream into typed chunks, and parsing the image header chunk.

use vstd::prelude::*;
use crate::errors::PngError;

verus! {

/// The big-endian 32-bit value stored at offset `i` of `s` (most significant
/// byte first).
pub open spec fn be32(s: Seq<u8>, i: int) -> u32
    recommends
        0 <= i,
        i + 4 <= s.len(),
{
    ((s[i] as int) * 0x1000000 + (s[i + 1] as int) * 0x10000 + (s[i + 2] as int) * 0x100 + (
    s[i + 3] as int)) as u32
}

/// Reads the big-endian 32-bit value at `*i` and advances `*i` past it;
/// rejects a read that would pass the end of `data`.
pub fn eat_u32(i: &mut usize, data: &[u8]) -> (r: Result<u32, PngError>)
    ensures
        match r {
            Ok(v) => {
                &&& *old(i) + 4 <= data@.len()
                &&& *final(i) == *old(i) + 4
                &&& v == be32(data@, *old(i) as int)
            },
            Err(e) => {
                &&& *old(i) + 4 > data@.len()
                &&& e == PngError::OutOfBounds
                &&& *final(i) == *old(i)
            },
        },
{
    if data.len() < 4 || *i > data.len() - 4 {
        return Err(PngError::OutOfBounds);
    }
    let b0: u32 = data[*i] as u32;
    let b1: u32 = data[*i + 1] as u32;
    let b2: u32 = data[*i + 2] as u32;
    let b3: u32 = data[*i + 3] as u32;
    let v: u32 = b0 * 0x1000000 + b1 * 0x10000 + b2 * 0x100 + b3;
    *i = *i + 4;
    Ok(v)
}

/// A typed record of the container format: the type code and the payload
/// bytes, framing stripped.
#[derive(Debug, PartialEq, Eq)]
pub struct Chunk {
    pub typ: u32,
    pub data: Vec<u8>,
}

/// Mathematical image of a `Chunk`.
#[verifier::ext_equal]
pub struct ChunkView {
    pub typ: u32,
    pub data: Seq<u8>,
}

impl View for Chunk {
    type V = ChunkView;

    open spec fn view(&self) -> ChunkView {
        ChunkView { typ: self.typ, data: self.data@ }
    }
}

/// The views of a sequence of chunks.
pub open spec fn chunks_view(cs: Seq<Chunk>) -> Seq<ChunkView> {
    cs.map_values(|c: Chunk| c@)
}

/// What a well-formed chunk stream denotes: `None` when some record's
/// declared length (plus its 12 bytes of framing) passes the end of `s`,
/// otherwise the chunks in stream order.
pub open spec fn parse_chunks(s: Seq<u8>) -> Option<Seq<ChunkView>>
    decreases s.len(),
{
    if s.len() == 0 {
        Some(Seq::empty())
    } else if s.len() < 8 {
        None
    } else {
        let l = be32(s, 0) as int;
        if s.len() < 12 + l {
            None
        } else {
            let c = ChunkView { typ: be32(s, 4), data: s.subrange(8, 8 + l) };
            match parse_chunks(s.subrange(12 + l, s.len() as int)) {
                Some(rest) => Some(seq![c] + rest),
                None => None,
            }
        }
    }
}

/// Byte length of re-serializing chunks as length, type code, payload and a
/// placeholder checksum: 12 framing bytes plus the payload, per chunk.
pub open spec fn serialized_len(cs: Seq<ChunkView>) -> int
    decreases cs.len(),
{
    if cs.len() == 0 {
        0
    } else {
        12 + cs[0].data.len() + serialized_len(cs.drop_first())
    }
}

/// Framing round-trip: re-serializing the chunks parsed from a well-formed
/// stream reproduces the original byte length exactly.
pub proof fn lemma_framing_round_trip(s: Seq<u8>)
    requires
        parse_chunks(s) is Some,
    ensures
        serialized_len(parse_chunks(s).unwrap()) == s.len(),
    decreases s.len(),
{
    if s.len() == 0 {
    } else {
        let l = be32(s, 0) as int;
        let c = ChunkView { typ: be32(s, 4), data: s.subrange(8, 8 + l) };
        let tail = s.subrange(12 + l, s.len() as int);
        let rest = parse_chunks(tail).unwrap();
        lemma_framing_round_trip(tail);
        assert((seq![c] + rest).drop_first() =~= rest);
        assert(c.data.len() == l);
    }
}

/// Splits a container stream (the file body after the fixed signature) into
/// its chunks, in stream order; rejects the stream as truncated exactly when
/// some record's declared length passes the end.
pub fn read_chunks(contents: Vec<u8>) -> (r: Result<Vec<Chunk>, PngError>)
    ensures
        match r {
            Ok(cs) => parse_chunks(contents@) == Some(chunks_view(cs@)),
            Err(e) => {
                &&& parse_chunks(contents@) is None
                &&& e == PngError::TruncatedChunk
            },
        },
{
    let mut build: Vec<Chunk> = Vec::new();
    let mut i: usize = 0;
    proof {
        assert(contents@.skip(0) =~= contents@);
        if parse_chunks(contents@) is Some {
            assert(chunks_view(build@) + parse_chunks(contents@).unwrap() =~= parse_chunks(
                contents@,
            ).unwrap());
        }
    }
    while i < contents.len()
        invariant
            i <= contents@.len(),
            parse_chunks(contents@) == match parse_chunks(contents@.skip(i as int)) {
                Some(rest) => Some(chunks_view(build@) + rest),
                None => None::<Seq<ChunkView>>,
            },
        decreases contents@.len() - i,
    {
        let ghost pre = contents@.skip(i as int);
        let chunklen: u32 = match eat_u32(&mut i, contents.as_slice()) {
            Ok(v) => v,
            Err(_) => {
                proof {
                    lemma_be32_of_skip(contents@, i as int);
                }
                return Err(PngError::TruncatedChunk);
            },
        };
        let typ: u32 = match eat_u32(&mut i, contents.as_slice()) {
            Ok(v) => v,
            Err(_) => {
                proof {
                    lemma_be32_of_skip(contents@, (i - 4) as int);
                }
                return Err(PngError::TruncatedChunk);
            },
        };
        proof {
            lemma_be32_of_skip(contents@, (i - 8) as int);
            lemma_be32_of_skip(contents@.skip((i - 8) as int), 4);
            assert(contents@.skip((i - 8) as int).skip(4) =~= contents@.skip((i - 4) as int));
            assert(chunklen == be32(pre, 0));
            assert(typ == be32(pre, 4));
        }
        let l: usize = chunklen as usize;
        if l > contents.len() - i || contents.len() - i - l < 4 {
            assert(pre.len() < 12 + l);
            return Err(PngError::TruncatedChunk);
        }
        let payload: Vec<u8> = vstd::slice::slice_to_vec(
            vstd::slice::slice_subrange(contents.as_slice(), i, i + l),
        );
        let chunk = Chunk { typ, data: payload };
        proof {
            assert(chunk@.data =~= pre.subrange(8, 8 + l));
        }
        i = i + l + 4;
        build.push(chunk);
        proof {
            assert(contents@.skip((i - l - 12) as int).subrange(
                12 + l,
                contents@.len() - (i - l - 12),
            ) =~= contents@.skip(i as int));
            assert(chunks_view(build@) =~= chunks_view(build@.drop_last()) + seq![chunk@]);
            if parse_chunks(contents@.skip(i as int)) is Some {
                let rest = parse_chunks(contents@.skip(i as int)).unwrap();
                assert(chunks_view(build@.drop_last()) + (seq![chunk@] + rest) =~= chunks_view(
                    build@,
                ) + rest);
            }
        }
    }
    proof {
        assert(contents@.skip(i as int) =~= Seq::<u8>::empty());
        assert(chunks_view(build@) + Seq::<ChunkView>::empty() =~= chunks_view(build@));
    }
    Ok(build)
}

/// The image header fields, extracted from the 13-byte header payload.
#[derive(Clone, Copy, Debug, PartialEq, Eq, Structural)]
pub struct IHDRInfo {
    pub width: u32,
    pub height: u32,
    pub bit_depth: u8,
    pub color_type: u8,
    pub compression_method: u8,
    pub filter_method: u8,
    pub interlace_method: u8,
}

/// The header denoted by a 13-byte payload: width and height as big-endian
/// 32-bit values, then five single-byte fields in fixed order.
pub open spec fn header_of(p: Seq<u8>) -> IHDRInfo
    recommends
        p.len() == 13,
{
    IHDRInfo {
        width: be32(p, 0),
        height: be32(p, 4),
        bit_depth: p[8],
        color_type: p[9],
        compression_method: p[10],
        filter_method: p[11],
        interlace_method: p[12],
    }
}

/// Extracts the image header from the header chunk; rejects a payload that
/// is not exactly 13 bytes.
pub fn process_ihdr(ch: &Chunk) -> (r: Result<IHDRInfo, PngError>)
    ensures
        match r {
            Ok(info) => {
                &&& ch.data@.len() == 13
                &&& info == header_of(ch.data@)
            },
            Err(e) => {
                &&& ch.data@.len() != 13
                &&& e == PngError::InvalidHeader
            },
        },
{
    if ch.data.len() != 13 {
        return Err(PngError::InvalidHeader);
    }
    let mut i: usize = 0;
    let width: u32 = match eat_u32(&mut i, ch.data.as_slice()) {
        Ok(v) => v,
        Err(_) => { return Err(PngError::InvalidHeader) },
    };
    let height: u32 = match eat_u32(&mut i, ch.data.as_slice()) {
        Ok(v) => v,
        Err(_) => { return Err(PngError::InvalidHeader) },
    };
    Ok(
        IHDRInfo {
            width,
            height,
            bit_depth: ch.data[8],
            color_type: ch.data[9],
            compression_method: ch.data[10],
            filter_method: ch.data[11],
            interlace_method: ch.data[12],
        },
    )
}

/// `be32` read through `skip`: reading at offset `j` of the suffix that
/// starts at `i` is reading at `i + j` of the whole.
proof fn lemma_be32_of_skip(s: Seq<u8>, i: int)
    requires
        0 <= i <= s.len(),
    ensures
        forall|j: int|
            0 <= j && i + j + 4 <= s.len() ==> be32(s.skip(i), j) == be32(s, i + j),
{
}

} // verus!
