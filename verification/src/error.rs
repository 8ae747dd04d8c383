//! What can go wrong, and with which outside error behind it.

use vstd::prelude::*;

verus! {

/// `std::io::Error`, carried along as the cause of a failure.
#[verifier::external_type_specification]
#[verifier::external_body]
pub struct ExIoError(std::io::Error);

/// `bincode::ErrorKind`, carried along as the cause of a failure.
#[verifier::external_type_specification]
#[verifier::external_body]
pub struct ExBincodeErrorKind(bincode::ErrorKind);

/// Why an operation failed. Every contract of this crate that speaks of a
/// failure names one of these.
#[derive(Debug, Clone, Copy, PartialEq, Eq, Structural)]
pub enum Fault {
    /// The file is too short to be an EMBR archive.
    TooShort,
    /// The file does not start with the EMBR magic.
    BadMagic,
    /// The archive has a newer format version than this build understands.
    NewerVersion(u16),
    /// The trailing magic is missing: the archive is truncated or corrupt.
    NoFooter,
    /// The archive ends before its index does.
    IndexCut,
    /// The stored index is no valid zstd frame.
    IndexFrame,
    /// The index decoded to the wrong size.
    IndexLength,
    /// The index failed its checksum.
    IndexChecksum,
    /// The decoded index is no serialized index.
    IndexLayout,
    /// A block names a codec this build does not know.
    UnknownCodec(u8),
    /// A segment refers to a block that the index does not list.
    MissingBlock(u32),
    /// A block is no valid stream of its codec.
    BlockFrame,
    /// A block decoded to another length than the index says.
    BlockLength { got: u64, want: u64 },
    /// A segment runs past the end of its block.
    SegmentRange,
    /// A file's contents do not have the hash that the index records.
    Checksum,
    /// An archive path is empty.
    EmptyPath,
    /// An archive path is absolute.
    AbsolutePath,
    /// An archive path starts with a drive letter.
    DriveLetter,
    /// An archive path has a `..` component.
    EscapingPath,
    /// An archive path has an empty or `.` component.
    BlankComponent,
    /// An archive path contains a backslash.
    Backslash,
    /// A walked path has a component that no archive path can hold.
    UnsupportedComponent,
    /// An entry lies below a symlink that the same extraction creates.
    BelowLink,
    /// No entry matched the selection.
    NoMatch,
    /// A symlink entry has no target.
    NoLinkTarget,
    /// Something already stands at the path, and overwriting is off.
    AlreadyExists,
    /// No input paths were given.
    NoInputs,
    /// A codec could not encode a block or the index.
    Encoder,
    /// A file changed size while it was being archived.
    SizeChanged { got: u64, want: u64 },
    /// A block took another number of bytes than announced.
    ShortBlock { got: u64, want: u64 },
    /// The archive would need more blocks than a segment can number.
    TooManyBlocks,
    /// The archive would be longer than a file offset can say.
    TooLong,
    /// A codec name is not known.
    UnknownCodecName,
    /// A preset name is not known.
    UnknownPreset,
    /// The block size is zero.
    ZeroBlockSize,
    /// The archive's bytes, or a file's, could not be read.
    Source,
    /// A file could not be read when it was hashed.
    Unreadable,
    /// The bytes could not be handed on.
    Sink,
}

/// The outside error that stands behind a failure, where there is one.
#[derive(Debug)]
pub enum Cause {
    Nothing,
    Io(std::io::Error),
    Bincode(Box<bincode::ErrorKind>),
}

/// A failure: its fault, and what caused it.
#[derive(Debug)]
pub struct Error {
    pub fault: Fault,
    pub cause: Cause,
}

impl Error {
    /// A failure that nothing outside this crate caused.
    pub fn new(fault: Fault) -> (e: Error)
        ensures
            e.fault == fault,
            e.cause is Nothing,
    {
        Error { fault, cause: Cause::Nothing }
    }

    /// A failure caused by an I/O error.
    pub fn io(fault: Fault, cause: std::io::Error) -> (e: Error)
        ensures
            e.fault == fault,
            e.cause == Cause::Io(cause),
    {
        Error { fault, cause: Cause::Io(cause) }
    }

    /// A failure caused by the serializer.
    pub fn bincode(fault: Fault, cause: Box<bincode::ErrorKind>) -> (e: Error)
        ensures
            e.fault == fault,
            e.cause == Cause::Bincode(cause),
    {
        Error { fault, cause: Cause::Bincode(cause) }
    }
}

} // verus!
