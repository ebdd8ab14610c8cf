use vstd::prelude::*;

verus! {

/// Failure kinds shared by the archive reader and the binary decoders.
#[derive(Clone, Copy, Debug, PartialEq, Eq, Structural)]
pub enum PodError {
    /// A directory lookup found no entry of the given name.
    NotFound,
    /// A stream ended in the middle of a header, a table or a record.
    Truncated,
    /// The archive directory is malformed: an entry name field carries no
    /// terminating nul byte.
    BadHeader,
    /// A model stream does not begin with the expected format tag.
    BadMagic,
    /// A tagged block of a kind the model format does not define, or a face
    /// record whose vertex count is neither three nor four.
    UnknownBlock,
    /// A texture or heightfield stream whose byte length is not the square
    /// of the expected side length.
    NotSquare,
    /// Dimensions too large for the atlas packer to address on this machine.
    TooLarge,
}

/// What went wrong on a line of the entity catalog text format.
#[derive(Clone, Copy, Debug, PartialEq, Eq, Structural)]
pub enum ParseReason {
    /// A comma-separated line carries fewer fields than the schema asks for.
    MissingField,
    /// A field that must be a decimal integer is empty, holds a stray
    /// character, or lies outside the range of its target type.
    BadNumber,
    /// A framing line does not equal its literal sentinel; the parser has
    /// desynchronized and cannot recover.
    BadSentinel,
    /// A placement names a type index at or beyond the type catalog length.
    BadIndex,
}

/// A fatal entity-catalog parse failure, carrying the one-based number of
/// the offending line.
#[derive(Clone, Copy, Debug, PartialEq, Eq, Structural)]
pub struct ParseError {
    pub line: usize,
    pub reason: ParseReason,
}

} // verus!
