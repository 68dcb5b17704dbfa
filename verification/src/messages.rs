//! Faults in words.
use crate::bfs::ds::BruteFsError;
use crate::error::{Fault, Operation, Record, Seeker, XHFSError};
use crate::report::{byte_size_text, bytesize_display, kind_text};
use crate::text::{decimal, digits, number_text, push_decimal};
use crate::utils::{absolute, components, join_absolute, path_to_string_list, texts};
use vstd::prelude::*;
use vstd::string::*;

verus! {

/// How many bytes more are needed than remain, counting the one that must be left over.
pub open spec fn lack(size: u64, remaining: u64) -> u64 {
    if size < remaining {
        1
    } else if size - remaining == u64::MAX {
        u64::MAX
    } else {
        (size - remaining + 1) as u64
    }
}

/// How many bytes more are needed than remain, counting the one that must be left over.
fn how_much_more(size: u64, remaining: u64) -> (r: u64)
    ensures
        r == lack(size, remaining),
{
    if size < remaining {
        1
    } else if size - remaining == u64::MAX {
        u64::MAX
    } else {
        size - remaining + 1
    }
}

/// A fault in words.
pub open spec fn fault_text(f: Fault) -> Seq<char> {
    match f {
        Fault::WrongSize { of: Record::NamedINode, expected, got } =>
            "Invalid inode size: expected "@ + decimal(expected as nat) + ", got "@
                + decimal(got as nat),
        Fault::WrongSize { of: Record::Extent, expected, got } =>
            "Expected Extent data region to be of size "@ + decimal(expected as nat) + ", got "@
                + decimal(got as nat) + " instead"@,
        Fault::WrongSize { of: Record::Name, expected, got } =>
            "Expected exactly "@ + decimal(expected as nat) + " bytes, got "@ + decimal(got as nat),
        Fault::WrongSize { of: Record::Bitmap, expected, got } =>
            "Bitmap expected "@ + decimal(got as nat) + " bits, got "@ + decimal(expected as nat)
                + " instead"@,
        Fault::WrongSize { of: Record::Hardlink, .. } => "could not convert slice to array"@,
        Fault::WrongSize { of: Record::XHFSHeader, expected, got } =>
            "Expected XHFSHeader data size to be "@ + decimal(expected as nat) + ", got "@
                + decimal(got as nat) + " instead"@,
        Fault::WrongSize { of: Record::BruteFsHeader, expected, got } =>
            "Expected BruteFsHeader data size to be "@ + decimal(expected as nat) + ", got "@
                + decimal(got as nat) + " instead"@,
        Fault::WrongSize { of: Record::Directory, expected, got } =>
            "Expected Directory data size to be "@ + decimal(expected as nat) + ", got "@
                + decimal(got as nat) + " instead"@,
        Fault::WrongSize { of: Record::AddressVector, expected, got } =>
            "Expected AddressVector data size to be "@ + decimal(expected as nat) + ", got "@
                + decimal(got as nat) + " instead"@,
        Fault::WrongSize { of: Record::INode, expected, got } =>
            "Expected INode data size to be "@ + decimal(expected as nat) + ", got "@
                + decimal(got as nat) + " instead"@,
        Fault::TooShort { of: Record::Extent, .. } =>
            "Expected Extent data to be at least 8 + 8 (16) bytes"@,
        Fault::TooShort { of: Record::Bitmap, got, .. } =>
            "Bitmap buffer is too short to contain the header (min 8 bytes), got "@
                + decimal(got as nat),
        Fault::TooShort { of: Record::AddressVector, .. } =>
            "Expected AddressVector to be contain at least the the data count"@,
        Fault::TooShort { of: Record::Directory, expected, got } =>
            "Expected Directory data size to be at least "@ + decimal(expected as nat) + ", got "@
                + decimal(got as nat) + " instead"@,
        Fault::TooShort { of: Record::BruteFsHeader, expected, got } =>
            "Expected BruteFsHeader data size to be at least "@ + decimal(expected as nat)
                + ", got "@ + decimal(got as nat) + " instead"@,
        Fault::TooShort { expected, got, .. } =>
            "Expected data size to be at least "@ + decimal(expected as nat) + ", got "@
                + decimal(got as nat) + " instead"@,
        Fault::Truncated => "Data ends before the content that it announces"@,
        Fault::BadMagic { of: Record::BruteFsHeader } => "Invalid BruteFsHeader magic bytes"@,
        Fault::BadMagic { .. } => "Invalid XHFSHeader magic bytes"@,
        Fault::UnknownKind { value } =>
            "INodeKind of type "@ + decimal(value as nat) + " not understood"@,
        Fault::NameTooLong => "Entry cannot exceed 255 bytes"@,
        Fault::NameControlCharacter => "Entry name contains invalid control characters"@,
        Fault::InvalidUtf8 => "Received data has invalid UTF-8 string"@,
        Fault::LinkNotUtf8 => "Parsing Symlink path"@,
        Fault::BitmapTooLong => "Bitmap has too many bytes"@,
        Fault::BitOutOfBounds { index, len } =>
            "Index "@ + decimal(index as nat) + " out of bounds for bitmap of size "@
                + decimal(len as nat),
        Fault::RangeOutOfBounds { start, end, len } =>
            "Out of bounds: range "@ + decimal(start as nat) + ".."@ + decimal(end as nat)
                + " exceeds bitmap capacity "@ + decimal(len as nat),
        Fault::DeviceTooSmall { capacity, needed } =>
            "Device capacity ("@ + decimal(capacity as nat)
                + " B) is too small to host a single block group configuration (requires "@
                + decimal(needed as nat) + " B)"@,
        Fault::BlockSizeNotPowerOfTwo { block_size } =>
            "Block size ("@ + decimal(block_size as nat)
                + ") must be greater than 0 and a power of two"@,
        Fault::NoGroups => "Group count must be > 0"@,
        Fault::NoDataBlocks => "Data block count per group must be > 0"@,
        Fault::NoInodes => "INode count per group must be > 0"@,
        Fault::BlockSizeOverflow => "Block size multiplication overflowed"@,
        Fault::TooManyDataBlocks { count, max } =>
            "Data block count ("@ + decimal(count as nat)
                + ") exceeds the max capacity of a single block bitmap ("@ + decimal(max as nat)
                + " bits) for block size "@ + decimal((max / 8) as nat),
        Fault::TooManyInodes { count, max } =>
            "INode count ("@ + decimal(count as nat)
                + ") exceeds the max capacity of a single block bitmap ("@ + decimal(max as nat)
                + " bits) for block size "@ + decimal((max / 8) as nat),
        Fault::CapacityOverflow => "Capacity is more than the machine can address"@,
        Fault::WriteOutOfBounds => "Write out of bounds"@,
        Fault::ReadOutOfBounds => "Read out of bounds"@,
        Fault::ShortSlot { slot } => "Value of slot "@ + decimal(slot as nat) + " is too short"@,
        Fault::DeviceFailure { code } => "Device failed with code "@ + decimal(code as nat),
        Fault::NoConcurrency => "Max concurrent device cannot be less than 1"@,
        Fault::NoDevices => "Device count cannot be 0"@,
        Fault::ReplicaTooSmall { expected, got } =>
            "Fatal error: expected allocated capacity >="@ + decimal(expected as nat) + ", got "@
                + decimal(got as nat) + " instead"@,
        Fault::AllReplicasFailed => "All replicas failed to read"@,
        Fault::AllWritesFailed { count } =>
            "All "@ + decimal(count as nat) + " replicas failed to write"@,
        Fault::OutsideFile { start, size, len } =>
            "Range of "@ + decimal(size as nat) + " from "@ + decimal(start as nat)
                + " is out of bounds for "@ + decimal(len as nat),
        Fault::NoDevice { addr } => "No device range covers address 0x"@ + digits(addr as nat, 16),
        Fault::KeystreamRange => "Address is beyond the end of the keystream"@,
        Fault::NoHint { inumber } =>
            "Unable to derive group layer from hint inumber "@ + decimal(inumber as nat),
        Fault::NoGroupToRegister => "Unable to derive group when registering INode"@,
        Fault::NoGroupToDelete { inumber } =>
            "Unable to derive group layout for inumber "@ + decimal(inumber as nat),
        Fault::NoInodeSlot { inumber } =>
            "Could not map table space layout coordinates for inumber "@ + decimal(inumber as nat),
        Fault::INodeExists { inumber, group } =>
            "INode number "@ + decimal(inumber as nat) + " exists already in group "@
                + decimal(group as nat),
        Fault::AddressOverflow => "Address is out of range"@,
        Fault::ExtentLoop => "Extents lead in a circle"@,
        Fault::NoRoot => "Could not find root inode"@,
        Fault::OutsideDataRegion { addr } =>
            "Address "@ + decimal(addr as nat) + " lies outside of the data region"@,
        Fault::BitmapBoundary { start, end, max } =>
            "Bitmap boundary violation in group! Trying to free blocks "@ + decimal(start as nat)
                + ".."@ + decimal(end as nat) + " but max is "@ + decimal(max as nat),
        Fault::GroupTooSmall => "Group capacity smaller than extent metadata overhead"@,
        Fault::LayoutMismatch { left } =>
            "Layout mismatch: "@ + decimal(left as nat) + " bytes left unallocated"@,
        Fault::NoFreeInode => "Insufficient bitmap size, required 1 byte"@,
        Fault::EntryMissing { inumber, by: Seeker::Walk } =>
            "Could not find INode child entry "@ + decimal(inumber as nat),
        Fault::EntryMissing { inumber, by: Seeker::Write } =>
            "Resolving INode for direntry "@ + decimal(inumber as nat),
        Fault::EntryMissing { inumber, by: Seeker::Make } =>
            "Resolving INode "@ + decimal(inumber as nat),
        Fault::EntryMissing { inumber, by: Seeker::Remove } =>
            "Resolving INode number "@ + decimal(inumber as nat) + " in direntry"@,
        Fault::EntryMissing { inumber, by: Seeker::Link } =>
            "Referenced entry INode #"@ + decimal(inumber as nat) + " not found"@,
        Fault::PathMissing { depth } =>
            "Path does not exist at component "@ + decimal(depth as nat),
        Fault::DirectoryMissing { depth } =>
            "Directory does not exist at component "@ + decimal(depth as nat),
        Fault::FileInPath { depth } =>
            "Encountered file at component "@ + decimal(depth as nat)
                + " while expecting a directory container to reach components downstream"@,
        Fault::LinkInPath { depth } => "Encountered link at component "@ + decimal(depth as nat),
        Fault::MissingParent => "Missing parent"@,
        Fault::MissingFilename => "Missing filename"@,
        Fault::InsufficientSpace { size, remaining } =>
            "Insufficient space, input size is "@ + bytesize_display(size) + ", remaining "@
                + bytesize_display(remaining) + ", operation requires "@
                + bytesize_display(lack(size, remaining)) + " more"@,
        Fault::NotAFile => "Path is not file"@,
        Fault::FileExists => "File already exists"@,
        Fault::ExpectedFile => "Expected file like entry, got a folder instead"@,
        Fault::NotADirectory => "Non-directory in mkdir path"@,
        Fault::HardlinkToItself => "Hardlink pointing to itself detected"@,
        Fault::SymlinkToItself => "Symlink pointing to itself detected"@,
        Fault::CannotReadDirectory => "Cannot fread directory"@,
        Fault::UnresolvedLink { kind } =>
            "Unexpected "@ + kind_text(kind) + ", should have been solved upstream"@,
        Fault::CannotAppendDirectory => "Cannot append data to directory"@,
        Fault::LinkLoop => "Links lead in a circle"@,
        Fault::CannotListFile => "Cannot ls a file"@,
        Fault::CannotListHardlink => "Cannot ls a Hardlink as it only refers to a file"@,
        Fault::HardlinkLoop => "Hardlink loop detected during deletion pass"@,
        Fault::NoSuchEntry => "Path does not exist"@,
        Fault::NoSource => "Source entry not found"@,
        Fault::DirectoryNotEmpty => "Directory is not empty"@,
        Fault::MoveIntoItself => "Cannot move a directory into itself or its own subdirectory"@,
        Fault::DestinationExists => "Destination already exists"@,
        Fault::HardlinkTarget { kind } =>
            "Unexpected "@ + kind_text(kind) + ", Hardlink only attaches to a file"@,
        Fault::FormatTooLarge => "Format is more than the machine can address"@,
        Fault::SlotCount { expected, got } =>
            "Expected a count of "@ + decimal(expected as nat) + " address entries, got "@
                + decimal(got as nat) + " instead"@,
        Fault::NoRoom { wanted, remaining } =>
            "Could not allocate "@ + decimal(wanted as nat) + " bytes, only "@
                + decimal(remaining as nat) + " left"@,
        Fault::UnevenCapacity { unit } =>
            "In-memory capacity must be divisible by "@ + decimal(unit as nat),
        Fault::NoCapacity => "Failed retrieving total capacity"@,
        Fault::NothingToFormat => "Failed calculating total capacity"@,
        Fault::NotReady => "File system controller not ready"@,
    }
}

/// The absolute path through the first `depth` parts of a path.
pub open spec fn first_parts(path: Seq<char>, depth: u64) -> Seq<char> {
    let parts = components(path);
    absolute(
        if depth < parts.len() {
            parts.subrange(0, depth as int)
        } else {
            parts
        },
    )
}

/// The part of a path at a depth, counted from one; nothing if there is none.
pub open spec fn part_at(path: Seq<char>, depth: int) -> Seq<char> {
    let parts = components(path);
    if 0 < depth <= parts.len() {
        parts[depth - 1]
    } else {
        Seq::empty()
    }
}

/// The name that a path ends in.
pub open spec fn name_at(path: Seq<char>) -> Seq<char> {
    part_at(path, components(path).len() as int)
}

/// A fault of a request on a path in words.
pub open spec fn fault_text_at(f: Fault, path: Seq<char>) -> Seq<char> {
    match f {
        Fault::PathMissing { depth } => "Path '"@ + first_parts(path, depth) + "' does not exist"@,
        Fault::DirectoryMissing { depth } =>
            "Directory '"@ + part_at(path, depth as int) + "' does not exist"@,
        Fault::FileInPath { depth } => "Encountered file '"@ + first_parts(path, depth)
            + "' while expecting a directory container to reach components downstream"@,
        Fault::LinkInPath { depth } =>
            "Encountered link at path '"@ + first_parts(path, depth) + "'"@,
        Fault::NotAFile => "Path '"@ + name_at(path) + "' is not file"@,
        Fault::FileExists => "File '"@ + name_at(path) + "' already exists"@,
        Fault::DestinationExists => "Destination already exists: "@ + name_at(path),
        Fault::EntryMissing { by: Seeker::Write, .. } =>
            "Resolving INode for direntry '"@ + name_at(path) + "'"@,
        _ => fault_text(f),
    }
}

/// A fault of a request on a path of the simpler file system in words.
pub open spec fn brute_text_at(f: Fault, path: Seq<char>) -> Seq<char> {
    match f {
        Fault::FileInPath { depth } =>
            "Encountered file while traversing path '"@ + first_parts(path, depth) + "'"@,
        Fault::LinkInPath { depth } => "Encountered a symbolic link while traversing path '"@
            + first_parts(path, depth) + "'"@,
        _ => fault_text_at(f, path),
    }
}

/// An error of the file system in words.
pub open spec fn error_text(e: XHFSError) -> Seq<char> {
    match e {
        XHFSError::Insufficient { operation, wanted } => "Insufficient space, "@ + (match operation {
            Operation::Allocate => "allocate"@,
        }) + " requires "@ + decimal(wanted as nat) + " B"@,
        XHFSError::Error { err } => fault_text(err),
    }
}

/// An error of a request on a path in words.
pub open spec fn error_text_at(e: XHFSError, path: Seq<char>) -> Seq<char> {
    match e {
        XHFSError::Error { err } => fault_text_at(err, path),
        _ => error_text(e),
    }
}

/// An error in words.
pub open spec fn brute_error_text(e: BruteFsError) -> Seq<char> {
    match e {
        BruteFsError::Insufficient { wanted, max_slot_size, left_contiguous } =>
            "Insufficient space, operation requires "@ + decimal(wanted as nat)
            + " B, max fragment available "@ + decimal(max_slot_size as nat)
            + " B, max contiguous bloc "@ + decimal(left_contiguous as nat),
        BruteFsError::Error { err } => fault_text(err),
    }
}

/// The absolute path through the first `depth` parts of a path.
fn leading_parts(path: &str, depth: u64) -> (r: String)
    ensures
        r@ == first_parts(path@, depth),
{
    let mut parts = path_to_string_list(path);
    let ghost all = texts(parts@);
    if depth < parts.len() as u64 {
        parts.truncate(depth as usize);
        assert(texts(parts@) =~= all.subrange(0, depth as int));
    }
    join_absolute(parts.as_slice())
}

/// The part of a path at a depth, counted from one; nothing if there is none.
fn one_part(path: &str, depth: u64) -> (r: String)
    ensures
        r@ == part_at(path@, depth as int),
{
    let parts = path_to_string_list(path);
    assert(texts(parts@).len() == parts@.len());
    if 0 < depth && depth <= parts.len() as u64 {
        parts[depth as usize - 1].clone()
    } else {
        let none = String::new();
        assert(none@ =~= Seq::empty());
        none
    }
}

/// The name that a path ends in.
fn last_name(path: &str) -> (r: String)
    ensures
        r@ == name_at(path@),
{
    let parts = path_to_string_list(path);
    assert(texts(parts@).len() == parts@.len());
    one_part(path, parts.len() as u64)
}

/// A text between two others.
fn quoted(before: &str, text: &str, after: &str) -> (r: String)
    ensures
        r@ == before@ + text@ + after@,
{
    let mut out: String = before.to_owned();
    out.append(text);
    out.append(after);
    out
}

impl Fault {
    /// This fault, which a request on a path met, in words.
    pub fn describe_at(&self, path: &str) -> (r: String)
        ensures
            r@ == fault_text_at(*self, path@),
    {
        match self {
            Fault::PathMissing { depth } => {
                quoted("Path '", leading_parts(path, *depth).as_str(), "' does not exist")
            },
            Fault::DirectoryMissing { depth } => {
                quoted("Directory '", one_part(path, *depth).as_str(), "' does not exist")
            },
            Fault::FileInPath { depth } => quoted(
                "Encountered file '",
                leading_parts(path, *depth).as_str(),
                "' while expecting a directory container to reach components downstream",
            ),
            Fault::LinkInPath { depth } => {
                quoted("Encountered link at path '", leading_parts(path, *depth).as_str(), "'")
            },
            Fault::NotAFile => quoted("Path '", last_name(path).as_str(), "' is not file"),
            Fault::FileExists => quoted("File '", last_name(path).as_str(), "' already exists"),
            Fault::DestinationExists => {
                let mut out: String = "Destination already exists: ".to_owned();
                out.append(last_name(path).as_str());
                out
            },
            Fault::EntryMissing { by: Seeker::Write, .. } => {
                quoted("Resolving INode for direntry '", last_name(path).as_str(), "'")
            },
            _ => self.describe(),
        }
    }

    /// This fault, which a request on a path of the simpler file system met, in words.
    pub fn describe_brute_at(&self, path: &str) -> (r: String)
        ensures
            r@ == brute_text_at(*self, path@),
    {
        match self {
            Fault::FileInPath { depth } => quoted(
                "Encountered file while traversing path '",
                leading_parts(path, *depth).as_str(),
                "'",
            ),
            Fault::LinkInPath { depth } => quoted(
                "Encountered a symbolic link while traversing path '",
                leading_parts(path, *depth).as_str(),
                "'",
            ),
            _ => self.describe_at(path),
        }
    }

    /// This fault in words.
    pub fn describe(&self) -> (r: String)
        ensures
            r@ == fault_text(*self),
    {
        match self {
            Fault::WrongSize { of: Record::NamedINode, expected, got } => {
                let mut out: String = "Invalid inode size: expected ".to_owned();
                push_decimal(&mut out, *expected);
                out.append(", got ");
                push_decimal(&mut out, *got);
                out
            },
            Fault::WrongSize { of: Record::Extent, expected, got } => {
                let mut out: String = "Expected Extent data region to be of size ".to_owned();
                push_decimal(&mut out, *expected);
                out.append(", got ");
                push_decimal(&mut out, *got);
                out.append(" instead");
                out
            },
            Fault::WrongSize { of: Record::Name, expected, got } => {
                let mut out: String = "Expected exactly ".to_owned();
                push_decimal(&mut out, *expected);
                out.append(" bytes, got ");
                push_decimal(&mut out, *got);
                out
            },
            Fault::WrongSize { of: Record::Bitmap, expected, got } => {
                let mut out: String = "Bitmap expected ".to_owned();
                push_decimal(&mut out, *got);
                out.append(" bits, got ");
                push_decimal(&mut out, *expected);
                out.append(" instead");
                out
            },
            Fault::WrongSize { of: Record::Hardlink, .. } => {
                "could not convert slice to array".to_owned()
            },
            Fault::WrongSize { of: Record::XHFSHeader, expected, got } => {
                let mut out: String = "Expected XHFSHeader data size to be ".to_owned();
                push_decimal(&mut out, *expected);
                out.append(", got ");
                push_decimal(&mut out, *got);
                out.append(" instead");
                out
            },
            Fault::WrongSize { of: Record::BruteFsHeader, expected, got } => {
                let mut out: String = "Expected BruteFsHeader data size to be ".to_owned();
                push_decimal(&mut out, *expected);
                out.append(", got ");
                push_decimal(&mut out, *got);
                out.append(" instead");
                out
            },
            Fault::WrongSize { of: Record::Directory, expected, got } => {
                let mut out: String = "Expected Directory data size to be ".to_owned();
                push_decimal(&mut out, *expected);
                out.append(", got ");
                push_decimal(&mut out, *got);
                out.append(" instead");
                out
            },
            Fault::WrongSize { of: Record::AddressVector, expected, got } => {
                let mut out: String = "Expected AddressVector data size to be ".to_owned();
                push_decimal(&mut out, *expected);
                out.append(", got ");
                push_decimal(&mut out, *got);
                out.append(" instead");
                out
            },
            Fault::WrongSize { of: Record::INode, expected, got } => {
                let mut out: String = "Expected INode data size to be ".to_owned();
                push_decimal(&mut out, *expected);
                out.append(", got ");
                push_decimal(&mut out, *got);
                out.append(" instead");
                out
            },
            Fault::TooShort { of: Record::Extent, .. } => {
                "Expected Extent data to be at least 8 + 8 (16) bytes".to_owned()
            },
            Fault::TooShort { of: Record::Bitmap, got, .. } => {
                let mut out: String = "Bitmap buffer is too short to contain the header (min 8 bytes), got ".to_owned();
                push_decimal(&mut out, *got);
                out
            },
            Fault::TooShort { of: Record::AddressVector, .. } => {
                "Expected AddressVector to be contain at least the the data count".to_owned()
            },
            Fault::TooShort { of: Record::Directory, expected, got } => {
                let mut out: String = "Expected Directory data size to be at least ".to_owned();
                push_decimal(&mut out, *expected);
                out.append(", got ");
                push_decimal(&mut out, *got);
                out.append(" instead");
                out
            },
            Fault::TooShort { of: Record::BruteFsHeader, expected, got } => {
                let mut out: String = "Expected BruteFsHeader data size to be at least ".to_owned();
                push_decimal(&mut out, *expected);
                out.append(", got ");
                push_decimal(&mut out, *got);
                out.append(" instead");
                out
            },
            Fault::TooShort { expected, got, .. } => {
                let mut out: String = "Expected data size to be at least ".to_owned();
                push_decimal(&mut out, *expected);
                out.append(", got ");
                push_decimal(&mut out, *got);
                out.append(" instead");
                out
            },
            Fault::Truncated => "Data ends before the content that it announces".to_owned(),
            Fault::BadMagic { of: Record::BruteFsHeader } => {
                "Invalid BruteFsHeader magic bytes".to_owned()
            },
            Fault::BadMagic { .. } => "Invalid XHFSHeader magic bytes".to_owned(),
            Fault::UnknownKind { value } => {
                let mut out: String = "INodeKind of type ".to_owned();
                push_decimal(&mut out, *value as u64);
                out.append(" not understood");
                out
            },
            Fault::NameTooLong => "Entry cannot exceed 255 bytes".to_owned(),
            Fault::NameControlCharacter => {
                "Entry name contains invalid control characters".to_owned()
            },
            Fault::InvalidUtf8 => "Received data has invalid UTF-8 string".to_owned(),
            Fault::LinkNotUtf8 => "Parsing Symlink path".to_owned(),
            Fault::BitmapTooLong => "Bitmap has too many bytes".to_owned(),
            Fault::BitOutOfBounds { index, len } => {
                let mut out: String = "Index ".to_owned();
                push_decimal(&mut out, *index);
                out.append(" out of bounds for bitmap of size ");
                push_decimal(&mut out, *len);
                out
            },
            Fault::RangeOutOfBounds { start, end, len } => {
                let mut out: String = "Out of bounds: range ".to_owned();
                push_decimal(&mut out, *start);
                out.append("..");
                push_decimal(&mut out, *end);
                out.append(" exceeds bitmap capacity ");
                push_decimal(&mut out, *len);
                out
            },
            Fault::DeviceTooSmall { capacity, needed } => {
                let mut out: String = "Device capacity (".to_owned();
                push_decimal(&mut out, *capacity);
                out.append(" B) is too small to host a single block group configuration (requires ");
                push_decimal(&mut out, *needed);
                out.append(" B)");
                out
            },
            Fault::BlockSizeNotPowerOfTwo { block_size } => {
                let mut out: String = "Block size (".to_owned();
                push_decimal(&mut out, *block_size);
                out.append(") must be greater than 0 and a power of two");
                out
            },
            Fault::NoGroups => "Group count must be > 0".to_owned(),
            Fault::NoDataBlocks => "Data block count per group must be > 0".to_owned(),
            Fault::NoInodes => "INode count per group must be > 0".to_owned(),
            Fault::BlockSizeOverflow => "Block size multiplication overflowed".to_owned(),
            Fault::TooManyDataBlocks { count, max } => {
                let mut out: String = "Data block count (".to_owned();
                push_decimal(&mut out, *count);
                out.append(") exceeds the max capacity of a single block bitmap (");
                push_decimal(&mut out, *max);
                out.append(" bits) for block size ");
                push_decimal(&mut out, *max / 8);
                out
            },
            Fault::TooManyInodes { count, max } => {
                let mut out: String = "INode count (".to_owned();
                push_decimal(&mut out, *count);
                out.append(") exceeds the max capacity of a single block bitmap (");
                push_decimal(&mut out, *max);
                out.append(" bits) for block size ");
                push_decimal(&mut out, *max / 8);
                out
            },
            Fault::CapacityOverflow => "Capacity is more than the machine can address".to_owned(),
            Fault::WriteOutOfBounds => "Write out of bounds".to_owned(),
            Fault::ReadOutOfBounds => "Read out of bounds".to_owned(),
            Fault::ShortSlot { slot } => {
                let mut out: String = "Value of slot ".to_owned();
                push_decimal(&mut out, *slot);
                out.append(" is too short");
                out
            },
            Fault::DeviceFailure { code } => {
                let mut out: String = "Device failed with code ".to_owned();
                push_decimal(&mut out, *code);
                out
            },
            Fault::NoConcurrency => "Max concurrent device cannot be less than 1".to_owned(),
            Fault::NoDevices => "Device count cannot be 0".to_owned(),
            Fault::ReplicaTooSmall { expected, got } => {
                let mut out: String = "Fatal error: expected allocated capacity >=".to_owned();
                push_decimal(&mut out, *expected);
                out.append(", got ");
                push_decimal(&mut out, *got);
                out.append(" instead");
                out
            },
            Fault::AllReplicasFailed => "All replicas failed to read".to_owned(),
            Fault::AllWritesFailed { count } => {
                let mut out: String = "All ".to_owned();
                push_decimal(&mut out, *count);
                out.append(" replicas failed to write");
                out
            },
            Fault::OutsideFile { start, size, len } => {
                let mut out: String = "Range of ".to_owned();
                push_decimal(&mut out, *size);
                out.append(" from ");
                push_decimal(&mut out, *start);
                out.append(" is out of bounds for ");
                push_decimal(&mut out, *len);
                out
            },
            Fault::NoDevice { addr } => {
                let mut out: String = "No device range covers address 0x".to_owned();
                out.append(number_text(*addr, 16).as_str());
                out
            },
            Fault::KeystreamRange => "Address is beyond the end of the keystream".to_owned(),
            Fault::NoHint { inumber } => {
                let mut out: String = "Unable to derive group layer from hint inumber ".to_owned();
                push_decimal(&mut out, *inumber);
                out
            },
            Fault::NoGroupToRegister => "Unable to derive group when registering INode".to_owned(),
            Fault::NoGroupToDelete { inumber } => {
                let mut out: String = "Unable to derive group layout for inumber ".to_owned();
                push_decimal(&mut out, *inumber);
                out
            },
            Fault::NoInodeSlot { inumber } => {
                let mut out: String = "Could not map table space layout coordinates for inumber ".to_owned();
                push_decimal(&mut out, *inumber);
                out
            },
            Fault::INodeExists { inumber, group } => {
                let mut out: String = "INode number ".to_owned();
                push_decimal(&mut out, *inumber);
                out.append(" exists already in group ");
                push_decimal(&mut out, *group);
                out
            },
            Fault::AddressOverflow => "Address is out of range".to_owned(),
            Fault::ExtentLoop => "Extents lead in a circle".to_owned(),
            Fault::NoRoot => "Could not find root inode".to_owned(),
            Fault::OutsideDataRegion { addr } => {
                let mut out: String = "Address ".to_owned();
                push_decimal(&mut out, *addr);
                out.append(" lies outside of the data region");
                out
            },
            Fault::BitmapBoundary { start, end, max } => {
                let mut out: String = "Bitmap boundary violation in group! Trying to free blocks ".to_owned();
                push_decimal(&mut out, *start);
                out.append("..");
                push_decimal(&mut out, *end);
                out.append(" but max is ");
                push_decimal(&mut out, *max);
                out
            },
            Fault::GroupTooSmall => {
                "Group capacity smaller than extent metadata overhead".to_owned()
            },
            Fault::LayoutMismatch { left } => {
                let mut out: String = "Layout mismatch: ".to_owned();
                push_decimal(&mut out, *left);
                out.append(" bytes left unallocated");
                out
            },
            Fault::NoFreeInode => "Insufficient bitmap size, required 1 byte".to_owned(),
            Fault::EntryMissing { inumber, by: Seeker::Walk } => {
                let mut out: String = "Could not find INode child entry ".to_owned();
                push_decimal(&mut out, *inumber);
                out
            },
            Fault::EntryMissing { inumber, by: Seeker::Write } => {
                let mut out: String = "Resolving INode for direntry ".to_owned();
                push_decimal(&mut out, *inumber);
                out
            },
            Fault::EntryMissing { inumber, by: Seeker::Make } => {
                let mut out: String = "Resolving INode ".to_owned();
                push_decimal(&mut out, *inumber);
                out
            },
            Fault::EntryMissing { inumber, by: Seeker::Remove } => {
                let mut out: String = "Resolving INode number ".to_owned();
                push_decimal(&mut out, *inumber);
                out.append(" in direntry");
                out
            },
            Fault::EntryMissing { inumber, by: Seeker::Link } => {
                let mut out: String = "Referenced entry INode #".to_owned();
                push_decimal(&mut out, *inumber);
                out.append(" not found");
                out
            },
            Fault::PathMissing { depth } => {
                let mut out: String = "Path does not exist at component ".to_owned();
                push_decimal(&mut out, *depth);
                out
            },
            Fault::DirectoryMissing { depth } => {
                let mut out: String = "Directory does not exist at component ".to_owned();
                push_decimal(&mut out, *depth);
                out
            },
            Fault::FileInPath { depth } => {
                let mut out: String = "Encountered file at component ".to_owned();
                push_decimal(&mut out, *depth);
                out.append(" while expecting a directory container to reach components downstream");
                out
            },
            Fault::LinkInPath { depth } => {
                let mut out: String = "Encountered link at component ".to_owned();
                push_decimal(&mut out, *depth);
                out
            },
            Fault::MissingParent => "Missing parent".to_owned(),
            Fault::MissingFilename => "Missing filename".to_owned(),
            Fault::InsufficientSpace { size, remaining } => {
                let mut out: String = "Insufficient space, input size is ".to_owned();
                out.append(byte_size_text(*size).as_str());
                out.append(", remaining ");
                out.append(byte_size_text(*remaining).as_str());
                out.append(", operation requires ");
                out.append(byte_size_text(how_much_more(*size, *remaining)).as_str());
                out.append(" more");
                out
            },
            Fault::NotAFile => "Path is not file".to_owned(),
            Fault::FileExists => "File already exists".to_owned(),
            Fault::ExpectedFile => "Expected file like entry, got a folder instead".to_owned(),
            Fault::NotADirectory => "Non-directory in mkdir path".to_owned(),
            Fault::HardlinkToItself => "Hardlink pointing to itself detected".to_owned(),
            Fault::SymlinkToItself => "Symlink pointing to itself detected".to_owned(),
            Fault::CannotReadDirectory => "Cannot fread directory".to_owned(),
            Fault::UnresolvedLink { kind } => {
                let mut out: String = "Unexpected ".to_owned();
                out.append(kind.describe().as_str());
                out.append(", should have been solved upstream");
                out
            },
            Fault::CannotAppendDirectory => "Cannot append data to directory".to_owned(),
            Fault::LinkLoop => "Links lead in a circle".to_owned(),
            Fault::CannotListFile => "Cannot ls a file".to_owned(),
            Fault::CannotListHardlink => {
                "Cannot ls a Hardlink as it only refers to a file".to_owned()
            },
            Fault::HardlinkLoop => "Hardlink loop detected during deletion pass".to_owned(),
            Fault::NoSuchEntry => "Path does not exist".to_owned(),
            Fault::NoSource => "Source entry not found".to_owned(),
            Fault::DirectoryNotEmpty => "Directory is not empty".to_owned(),
            Fault::MoveIntoItself => {
                "Cannot move a directory into itself or its own subdirectory".to_owned()
            },
            Fault::DestinationExists => "Destination already exists".to_owned(),
            Fault::HardlinkTarget { kind } => {
                let mut out: String = "Unexpected ".to_owned();
                out.append(kind.describe().as_str());
                out.append(", Hardlink only attaches to a file");
                out
            },
            Fault::FormatTooLarge => "Format is more than the machine can address".to_owned(),
            Fault::SlotCount { expected, got } => {
                let mut out: String = "Expected a count of ".to_owned();
                push_decimal(&mut out, *expected);
                out.append(" address entries, got ");
                push_decimal(&mut out, *got);
                out.append(" instead");
                out
            },
            Fault::NoRoom { wanted, remaining } => {
                let mut out: String = "Could not allocate ".to_owned();
                push_decimal(&mut out, *wanted);
                out.append(" bytes, only ");
                push_decimal(&mut out, *remaining);
                out.append(" left");
                out
            },
            Fault::UnevenCapacity { unit } => {
                let mut out: String = "In-memory capacity must be divisible by ".to_owned();
                push_decimal(&mut out, *unit);
                out
            },
            Fault::NoCapacity => "Failed retrieving total capacity".to_owned(),
            Fault::NothingToFormat => "Failed calculating total capacity".to_owned(),
            Fault::NotReady => "File system controller not ready".to_owned(),
        }
    }
}

impl XHFSError {
    /// This error, which a request on a path met, in words.
    pub fn describe_at(&self, path: &str) -> (r: String)
        ensures
            r@ == error_text_at(*self, path@),
    {
        match self {
            XHFSError::Error { err } => err.describe_at(path),
            _ => self.describe(),
        }
    }

    /// This error in words.
    pub fn describe(&self) -> (r: String)
        ensures
            r@ == error_text(*self),
    {
        match self {
            XHFSError::Insufficient { operation, wanted } => {
                let mut out: String = "Insufficient space, ".to_owned();
                match operation {
                    Operation::Allocate => {
                        out.append("allocate");
                    },
                }
                out.append(" requires ");
                push_decimal(&mut out, *wanted as u64);
                out.append(" B");
                out
            },
            XHFSError::Error { err } => err.describe(),
        }
    }
}

impl BruteFsError {
    /// This error in words.
    pub fn describe(&self) -> (r: String)
        ensures
            r@ == brute_error_text(*self),
    {
        match self {
            BruteFsError::Insufficient { wanted, max_slot_size, left_contiguous } => {
                let mut out: String = "Insufficient space, operation requires ".to_owned();
                push_decimal(&mut out, *wanted as u64);
                out.append(" B, max fragment available ");
                push_decimal(&mut out, *max_slot_size as u64);
                out.append(" B, max contiguous bloc ");
                push_decimal(&mut out, *left_contiguous as u64);
                out
            },
            BruteFsError::Error { err } => err.describe(),
        }
    }
}

} // verus!
