use vstd::prelude::*;

verus! {

/// Why an operation on a packet buffer, or on a message in it, failed.
#[derive(Debug, Clone, Copy, PartialEq, Eq, Structural)]
pub enum DnsError {
    /// A read or a write went past the end of the 512-byte buffer.
    EndOfBuffer,
    /// `set` or `set_u16` was given a position outside the buffer.
    InvalidPosition,
    /// `get` was given a position outside the buffer.
    PositionOutOfRange,
    /// `get_range` was asked for a range that does not end inside the buffer.
    InvalidRange,
    /// A label of a domain name to write is longer than 63 bytes.
    LabelTooLong,
    /// Reading a compressed domain name followed more than five pointers.
    TooManyJumps,
}

} // verus!
