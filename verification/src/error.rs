use vstd::prelude::*;

verus! {

/// The structural faults a decode can hit. Each one aborts the decode of the
/// current input; no partial pixel buffer is ever produced.
#[derive(Clone, Copy, Debug, PartialEq, Eq, Structural)]
pub enum PngError {
    /// The first eight bytes are not the PNG signature.
    InvalidSignature,
    /// A chunk record is truncated or its checksum does not match its contents.
    ChunkCorrupt,
    /// The first chunk is not the image header chunk, or the stream ends
    /// before a first chunk could be read.
    MissingHeader,
    /// The image header chunk has the wrong length or carries field values
    /// outside what the format allows.
    InvalidHeader,
    /// An indexed-color image has no palette chunk.
    MissingRequiredChunk,
    /// A scanline starts with a filter-type byte greater than four.
    InvalidFilterType,
    /// The compressed payload is not a well-formed zlib/deflate stream, or it
    /// inflates past the size the header implies.
    DecompressionError,
    /// The inflated stream is shorter than the header implies, or the header
    /// implies a size beyond the decoder's defensive bound.
    SizeMismatch,
    /// The assembled pixel buffer does not have the exact precomputed size.
    BufferSizeMismatch,
}

impl PngError {
    /// A short human-readable description of the fault.
    pub fn message(&self) -> &'static str {
        match self {
            PngError::InvalidSignature => "not a PNG stream: bad signature",
            PngError::ChunkCorrupt => "corrupt chunk: truncated record or checksum mismatch",
            PngError::MissingHeader => "missing image header chunk",
            PngError::InvalidHeader => "invalid image header fields",
            PngError::MissingRequiredChunk => "missing required chunk for this color type",
            PngError::InvalidFilterType => "invalid scanline filter type",
            PngError::DecompressionError => "compressed image data is invalid or truncated",
            PngError::SizeMismatch => "decompressed data size does not match the header",
            PngError::BufferSizeMismatch => "assembled buffer size does not match the header",
        }
    }
}

} // verus!
