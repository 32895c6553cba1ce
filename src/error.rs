use vstd::prelude::*;

verus! {

/// Failures of the container codec.
#[derive(Debug, Clone, Copy, PartialEq, Eq, Structural)]
pub enum CodecError {
    /// The key or element type occupies zero bytes.
    ZeroSizedKeyRejected,
    /// The container holds more entries than a `u32` count can express.
    CardinalityOverflow,
    /// The input ended before a field was complete.
    UnexpectedEnd,
    /// Bytes were left over after a whole value was read.
    TrailingBytes,
}

} // verus!
