//! Error types of the library.

use vstd::prelude::*;

use crate::format::Duration;

verus! {

/// Declares `std::io::Error`, which readers and writers supplied by the user report. Nothing is
/// claimed of it: the library only hands such a value on, inside [`Error::Io`].
#[verifier::external_type_specification]
#[verifier::external_body]
pub struct ExIoError(std::io::Error);

/// A point in time that a timestamp cannot hold.
#[derive(Clone, Copy, Debug, PartialEq, Eq, Structural)]
pub enum TimeError {
    /// The time lies before the epoch, by this much.
    Underflow(Duration),

    /// The time since the epoch is out of range.
    Overflow(Duration),
}

/// The fixed-size items whose length an archive can get wrong.
#[derive(Clone, Copy, Debug, PartialEq, Eq, Structural)]
pub enum ItemName {
    Device,
    AclUser,
    AclGroup,
    AclGroupObject,
    AclDefault,
    QuotaProjectId,
}

/// What can go wrong while reading or writing an archive.
#[derive(Debug)]
pub enum Error {
    /// The reader or writer failed.
    Io(std::io::Error),

    /// A length does not fit into memory, or a position does not fit into 64 bits.
    OutOfRange,

    // file names and headers
    /// illegal path found (empty)
    EmptyName,
    /// illegal path found (contains slashes, this is a security concern)
    NameContainsSlash,
    /// illegal path found: '.'
    NameIsDot,
    /// illegal path found: '..'
    NameIsDotDot,
    /// filename too long
    NameTooLong,
    /// invalid file name in archive
    InvalidFileName,
    /// invalid header, too small
    HeaderTooSmall { htype: u64, full_size: u64 },
    /// invalid content size of an entry
    ContentTooLarge { htype: u64, size: u64, max: u64 },

    // sequential reading
    /// unexpected EOF
    UnexpectedEof,
    /// unexpected EOF in entry
    EofInEntry,
    /// unexpected EOF in goodbye table
    EofInGoodbyeTable,
    /// illegal path found (missing terminating zero)
    MissingTerminatingZero,
    /// internal decoder error: path underrun
    PathUnderrun,
    /// expected filename or directory-goodbye pxar entry
    ExpectedFilenameOrGoodbye { htype: u64 },
    /// expected pxar entry of type 'Entry'
    ExpectedEntry { htype: u64 },
    /// encountered unexpected hardlink entry
    UnexpectedHardlink,
    /// unexpected entry type
    UnexpectedEntryType { htype: u64 },
    /// multiple acl group object entries detected
    MultipleAclGroupObjects,
    /// multiple acl default entries detected
    MultipleAclDefaults,
    /// multiple file capability entries detected
    MultipleFCaps,
    /// multiple quota project id entries detected
    MultipleQuotaProjectIds,
    /// bad size of a fixed-size item
    BadSize { what: ItemName, size: u64, expected: u64 },
    /// missing value separator in xattr
    MissingXAttrSeparator,
    /// bad hardlink entry (too small)
    HardlinkTooSmall,

    // writing
    /// directory metadata must contain the directory mode flag
    NotADirectory,
    /// unexpected encoder finished state
    EncoderFinished,
    /// incomplete file
    IncompleteFile,
    /// directory not finalized
    IncompleteDirectory,
    /// encoder state stack underflow
    StateUnderflow,
    /// attempted to write more than previously allocated
    FileOverrun,
    /// payload references not supported in format version 1
    PayloadRefUnsupported,
    /// unable to add payload reference
    NoPayloadOutput,
    /// offset smaller than current position
    PayloadOffsetTooSmall { offset: u64, position: u64 },
    /// invalid hardlink offset, can only point to prior files
    InvalidHardlinkOffset,
    /// entry added via add_device must have a device mode in its metadata
    NotADevice,
    /// entry added via add_fifo must be of type fifo in its metadata
    NotAFifo,
    /// entry added via add_socket must be of type socket in its metadata
    NotASocket,
    /// encoding prelude not supported in format version 1
    PreludeUnsupported,
    /// prelude must be encoded following the version header
    PreludeMisplaced { position: u64 },
    /// format version must be encoded at the beginning of an archive
    VersionMisplaced,
    /// unexpected state on encoder close
    UnfinishedDirectories,

    // random access
    /// too small to contain a pxar archive
    ArchiveTooSmall,
    /// goodbye tail does not fit
    GoodbyeTailMissing,
    /// no goodbye tail marker found
    GoodbyeTailMarkerMissing,
    /// goodbye tail size out of range
    GoodbyeTailSizeOutOfRange,
    /// goodbye offset out of range
    GoodbyeOffsetOutOfRange,
    /// invalid goodbye table size
    InvalidGoodbyeTableSize { size: u64 },
    /// directory does not seem to be a directory
    DirectoryExpected,
    /// invalid file offset
    InvalidFileOffset,
    /// bad file: invalid entry ranges
    InvalidEntryRange { start: u64, file_ofs: u64, size: u64 },
    /// expected PXAR_FILENAME header
    ExpectedFilename { htype: u64 },
    /// unexpected EOF while decoding directory entry
    EofInDirectoryEntry,
    /// cannot enter parent directory in archive
    ParentDirectory,
    /// invalid component in path
    InvalidComponent,
    /// enter_directory() on a non-directory
    EnterNonDirectory,
    /// cannot open file, reader provided no offset
    NoFileOffset,
    /// not a file
    NotAFile,
    /// cannot resolve a non-hardlink
    NotAHardlink,
    /// cannot follow hardlink without a file entry header
    NoFilenameHeader,
    /// invalid offset in hardlink
    InvalidLinkTarget,
    /// hardlink does not point to a regular file
    LinkTargetNotAFile,
}

} // verus!
