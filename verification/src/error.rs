//! Every way in which an operation of the library can be refused.
use crate::xhfs::ds::INodeKind;
use vstd::prelude::*;

verus! {

/// Reason for which data was rejected or an operation refused.
#[derive(Debug, Clone, Copy, PartialEq, Eq, Structural)]
pub enum Fault {
    /// Serialized data has the wrong number of bytes.
    WrongSize { of: Record, expected: u64, got: u64 },
    /// Serialized data is shorter than its fixed part.
    TooShort { of: Record, expected: u64, got: u64 },
    /// Serialized data ends before the content that it announces.
    Truncated,
    /// A header does not start with the magic bytes.
    BadMagic { of: Record },
    /// No inode kind has this byte.
    UnknownKind { value: u8 },
    /// A name takes more than 255 bytes.
    NameTooLong,
    /// A name holds a line break, a tab or a zero byte.
    NameControlCharacter,
    /// Bytes that should be text are no UTF-8.
    InvalidUtf8,
    /// The target of a symbolic link is no UTF-8.
    LinkNotUtf8,
    /// A bitmap has more bytes than can be held.
    BitmapTooLong,
    /// A bitmap has no bit of this index.
    BitOutOfBounds { index: u64, len: u64 },
    /// A range of bits leaves the bitmap.
    RangeOutOfBounds { start: u64, end: u64, len: u64 },
    /// A device cannot hold a single block group.
    DeviceTooSmall { capacity: u64, needed: u64 },
    /// The block size is zero or no power of two.
    BlockSizeNotPowerOfTwo { block_size: u64 },
    /// A format has no block group.
    NoGroups,
    /// A format has no data block.
    NoDataBlocks,
    /// A format has no inode.
    NoInodes,
    /// The block size is too large to count its bits.
    BlockSizeOverflow,
    /// A group has more data blocks than one block has bits.
    TooManyDataBlocks { count: u64, max: u64 },
    /// A group has more inodes than one block has bits.
    TooManyInodes { count: u64, max: u64 },
    /// More bytes than a machine can address.
    CapacityOverflow,
    /// A write leaves the device.
    WriteOutOfBounds,
    /// A read leaves the device.
    ReadOutOfBounds,
    /// A value of a store is shorter than its slot.
    ShortSlot { slot: u64 },
    /// The medium under a device or a store did not answer.
    DeviceFailure { code: u64 },
    /// A logical device must allow at least one request at a time.
    NoConcurrency,
    /// A logical device must have at least one copy.
    NoDevices,
    /// A copy has less room than the first copy.
    ReplicaTooSmall { expected: u64, got: u64 },
    /// No copy of a logical device answered.
    AllReplicasFailed,
    /// No copy of a logical device took what was written.
    AllWritesFailed { count: u64 },
    /// An address leaves the file that holds a block.
    OutsideFile { start: u64, size: u64, len: u64 },
    /// No device covers an address.
    NoDevice { addr: u64 },
    /// An address lies behind the end of the keystream.
    KeystreamRange,
    /// An inode is asked for near a number that has no place on the disk.
    NoHint { inumber: u64 },
    /// An inode is stored under a number that has no place on the disk.
    NoGroupToRegister,
    /// An inode is deleted whose number has no place on the disk.
    NoGroupToDelete { inumber: u64 },
    /// An inode number has no place on the disk.
    NoInodeSlot { inumber: u64 },
    /// An inode number is taken already.
    INodeExists { inumber: u64, group: u64 },
    /// An address does not fit in 64 bits.
    AddressOverflow,
    /// A chain of extents leads back into itself.
    ExtentLoop,
    /// The disk has no root directory.
    NoRoot,
    /// An address lies before the data blocks of its group.
    OutsideDataRegion { addr: u64 },
    /// Blocks that are to be given back leave their group.
    BitmapBoundary { start: u64, end: u64, max: u64 },
    /// A block group cannot hold a single extent.
    GroupTooSmall,
    /// The blocks that were taken do not hold all of the data.
    LayoutMismatch { left: u64 },
    /// No inode is free.
    NoFreeInode,
    /// A directory entry refers to an inode that is not there.
    EntryMissing { inumber: u64, by: Seeker },
    /// The first parts of a path, up to the given depth, lead nowhere.
    PathMissing { depth: u64 },
    /// The part of a path at the given depth is missing and may not be made.
    DirectoryMissing { depth: u64 },
    /// A file stands where a path needs a directory.
    FileInPath { depth: u64 },
    /// A link stands where a path needs a directory.
    LinkInPath { depth: u64 },
    /// A path has no parent.
    MissingParent,
    /// A path does not end in a name.
    MissingFilename,
    /// There is too little room for the data.
    InsufficientSpace { size: u64, remaining: u64 },
    /// What is at a path is not a file.
    NotAFile,
    /// There is a file at the path already.
    FileExists,
    /// A folder was given where a file was expected.
    ExpectedFile,
    /// Something else than a directory stands on a path.
    NotADirectory,
    /// A hard link refers to itself.
    HardlinkToItself,
    /// A symbolic link refers to itself.
    SymlinkToItself,
    /// The content of a directory cannot be read as a file.
    CannotReadDirectory,
    /// A link leads to another link.
    UnresolvedLink { kind: INodeKind },
    /// Data cannot be appended to a directory.
    CannotAppendDirectory,
    /// Links lead in a circle.
    LinkLoop,
    /// Files have no entries.
    CannotListFile,
    /// A hard link refers to a file, which has no entries.
    CannotListHardlink,
    /// Hard links lead in a circle.
    HardlinkLoop,
    /// There is no such entry in the directory.
    NoSuchEntry,
    /// There is no such entry to be moved.
    NoSource,
    /// A directory that is not empty cannot be removed.
    DirectoryNotEmpty,
    /// Nothing can be moved into itself.
    MoveIntoItself,
    /// There is something at the destination already.
    DestinationExists,
    /// A hard link can only refer to a file.
    HardlinkTarget { kind: INodeKind },
    /// A format asks for more than the machine can address.
    FormatTooLarge,
    /// A list of freed stretches has another length than it says.
    SlotCount { expected: u64, got: u64 },
    /// Neither a freed stretch nor the unused part of the disk has room.
    NoRoom { wanted: u64, remaining: u64 },
    /// A capacity is not a multiple of what a value holds.
    UnevenCapacity { unit: u64 },
    /// There is no device, hence no capacity.
    NoCapacity,
    /// There is no device that could be formatted.
    NothingToFormat,
    /// There is no device under a volume.
    NotReady,
}

/// What serialized data stands for.
#[derive(Debug, Clone, Copy, PartialEq, Eq, Structural)]
pub enum Record {
    INode,
    NamedINode,
    Extent,
    Name,
    Directory,
    Hardlink,
    Bitmap,
    AddressVector,
    XHFSHeader,
    BruteFsHeader,
}

/// What was being done when an entry turned out to refer to no inode.
#[derive(Debug, Clone, Copy, PartialEq, Eq, Structural)]
pub enum Seeker {
    /// A path was followed.
    Walk,
    /// An entry was written over.
    Write,
    /// Directories were made.
    Make,
    /// An entry was removed.
    Remove,
    /// A hard link was followed.
    Link,
}

/// What an operation was doing when it ran out of space.
#[derive(Debug, Clone, Copy, PartialEq, Eq, Structural)]
pub enum Operation {
    Allocate,
}

/// Reason for which an operation on the file system failed.
#[derive(Debug, Clone, Copy, PartialEq, Eq, Structural)]
pub enum XHFSError {
    /// There is not enough room.
    Insufficient { operation: Operation, wanted: usize },
    Error { err: Fault },
}

/// The end of a range, but no more than 64 bits hold.
pub open spec fn end_of(start: int, count: int) -> u64 {
    if start + count > u64::MAX {
        u64::MAX
    } else {
        (start + count) as u64
    }
}

/// The end of a range, but no more than 64 bits hold.
pub fn range_end(start: u64, count: u64) -> (r: u64)
    ensures
        r == end_of(start as int, count as int),
{
    match start.checked_add(count) {
        Some(end) => end,
        None => u64::MAX,
    }
}

/// An error with what was being done, if an entry referred to no inode.
pub open spec fn sought(e: XHFSError, by: Seeker) -> XHFSError {
    match e {
        XHFSError::Error { err: Fault::EntryMissing { inumber, .. } } => XHFSError::Error {
            err: Fault::EntryMissing { inumber, by },
        },
        _ => e,
    }
}

/// A result with its fault as an error of the file system.
pub open spec fn wrapped<T>(r: Result<T, Fault>) -> Result<T, XHFSError> {
    match r {
        Ok(t) => Ok(t),
        Err(e) => Err(XHFSError::Error { err: e }),
    }
}

impl XHFSError {
    /// This error with what was being done, if an entry referred to no inode.
    pub fn sought_by(self, by: Seeker) -> (r: XHFSError)
        ensures
            r == sought(self, by),
    {
        match self {
            XHFSError::Error { err: Fault::EntryMissing { inumber, .. } } => XHFSError::Error {
                err: Fault::EntryMissing { inumber, by },
            },
            other => other,
        }
    }

    /// The error for a fault.
    pub fn from_error(error: Fault) -> (r: XHFSError)
        ensures
            r == (XHFSError::Error { err: error }),
    {
        XHFSError::Error { err: error }
    }

    /// The error that reports a fault.
    pub fn from_report(error: Fault) -> (r: XHFSError)
        ensures
            r == (XHFSError::Error { err: error }),
    {
        XHFSError::Error { err: error }
    }
}

/// A result with its value taken by its view.
pub open spec fn seen<T: View, E>(r: Result<T, E>) -> Result<T::V, E> {
    match r {
        Ok(t) => Ok(t@),
        Err(e) => Err(e),
    }
}

} // verus!
