use vstd::prelude::*;

verus! {

/// Every way a decode can stop. Each stage reports the first violation it
/// meets; no stage recovers from another stage's failure.
#[derive(Debug, Clone, Copy, PartialEq, Eq, Structural)]
pub enum DecodeError {
    /// The buffer does not open with the start-of-image marker followed by
    /// the prefix of the next marker.
    MissingStartOfImage,
    /// The start-of-image or end-of-image marker is absent or misplaced.
    MisplacedBoundaryMarker,
    /// A segment's length field lies past the buffer, is smaller than two,
    /// or declares more bytes than the buffer holds.
    SegmentOutOfBounds,
    /// No segment of the named marker code was found.
    MissingMarker(u8),
    /// A marker occurs a number of times that the coding process forbids.
    WrongSegmentCount(u8),
    /// A sample precision other than eight bits.
    UnsupportedPrecision,
    /// A component count that the baseline colour path does not handle.
    UnsupportedComponentCount,
    /// The frame header and the scan header disagree on the component type.
    ComponentTypeMismatch,
    /// The number of AC or DC Huffman tables differs from the process schema.
    TableCountMismatch,
    /// A component names a quantization table that was not defined.
    MissingQuantizationTable,
    /// A scan names a Huffman table (class, destination) that was not defined.
    MissingHuffmanTable,
    /// A Huffman table's histogram and symbol list disagree, or are empty.
    MalformedHuffmanTable,
    /// A structure runs past the end of the buffer.
    InsufficientData,
    /// A bit of the entropy-coded stream cannot be followed in its tree.
    InvalidBit,
    /// A coding path (progressive, arithmetic, 16-bit) that is not provided.
    NotImplemented,
}

} // verus!
