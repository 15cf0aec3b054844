use vstd::prelude::*;

verus! {

/// Image header field that carries an unsupported value.
#[derive(Clone, Copy, Debug, PartialEq, Eq, Structural)]
pub enum HeaderField {
    BitDepth,
    ColorType,
    CompressionMethod,
    FilterMethod,
    InterlaceMethod,
}

/// Every malformed-input path of the decoder surfaces as one of these;
/// no error is swallowed and no partial result is returned.
#[derive(Clone, Copy, Debug, PartialEq, Eq, Structural)]
pub enum PngError {
    /// A fixed-size read would pass the end of the buffer.
    OutOfBounds,
    /// A chunk's declared length plus its framing would pass the end of the stream.
    TruncatedChunk,
    /// The header payload is not exactly 13 bytes.
    InvalidHeader,
    /// A header field holds a value outside the supported profile.
    UnsupportedImageFormat(HeaderField),
    /// The decompressed image data is shorter than the scanlines require.
    TruncatedImageData,
    /// A scanline starts with a filter type byte above 4; carries the row index.
    InvalidFilterType(usize),
    /// The decompression collaborator rejected the compressed payload.
    DecompressionError,
    /// The chunk stream is empty or does not end in an empty end-marker chunk.
    MalformedStream,
}

} // verus!
