//! How a disk is divided into block groups.
use crate::addr::{maybe, MaybeU64};
use crate::codec::{
    array_at, get_u64, le64, lemma_le64, lemma_un_le64, push_bytes, push_u64, u64_at, zero_vec,
    zeros,
};
use crate::error::{seen, Fault, Record};
use crate::xhfs::bitmap::{bits_bytes, byte_count, Bitmap, Bits};
use crate::xhfs::ds::{INode, INODE_SIZE};
use vstd::prelude::*;

verus! {

/// Where something starts and how many bytes it takes.
#[derive(Debug, Clone, Copy, PartialEq, Eq, Structural)]
pub struct AddressSlot {
    pub addr: MaybeU64,
    pub capacity: usize,
}

impl AddressSlot {
    /// True if the slot has no address.
    pub fn is_free(&self) -> (r: bool)
        ensures
            r == (self.addr.raw == 0),
    {
        self.addr.is_none()
    }
}

impl Default for AddressSlot {
    fn default() -> (r: Self)
        ensures
            r == (AddressSlot { addr: maybe(0), capacity: 0 }),
    {
        AddressSlot { addr: MaybeU64::from(0), capacity: 0 }
    }
}

/// First and last address of a region.
#[derive(Debug, Clone, Copy, PartialEq, Eq, Structural)]
pub struct RegionSlot {
    pub start: MaybeU64,
    pub end: MaybeU64,
}

impl Default for RegionSlot {
    fn default() -> (r: Self)
        ensures
            r == region(0, 0),
    {
        RegionSlot { start: MaybeU64::from(0), end: MaybeU64::from(0) }
    }
}

/// The region from `start` to `end`.
pub open spec fn region(start: u64, end: u64) -> RegionSlot {
    RegionSlot { start: maybe(start), end: maybe(end) }
}

/// The region of `size` bytes from `start` on.
pub open spec fn region_of(start: int, size: int) -> RegionSlot {
    region(start as u64, (start + size - 1) as u64)
}

impl RegionSlot {
    /// Distance from the first to the last address.
    pub open spec fn span(self) -> u64 {
        if self.end.raw >= self.start.raw {
            (self.end.raw - self.start.raw) as u64
        } else {
            0
        }
    }

    /// The region `offset` further on.
    pub open spec fn moved(self, offset: int) -> RegionSlot {
        region((offset + self.start.raw) as u64, (offset + self.end.raw) as u64)
    }

    /// The region `offset` further on.
    pub fn add_offset(&self, offset: u64) -> (r: Self)
        requires
            offset + self.start.raw <= u64::MAX,
            offset + self.end.raw <= u64::MAX,
        ensures
            r == self.moved(offset as int),
    {
        RegionSlot {
            start: MaybeU64::from(offset + self.start.get()),
            end: MaybeU64::from(offset + self.end.get()),
        }
    }

    /// First and last address.
    pub fn to_pair(&self) -> (r: (u64, u64))
        ensures
            r == (self.start.raw, self.end.raw),
    {
        (self.start.get(), self.end.get())
    }

    /// Distance from the first to the last address, zero if they are swapped.
    pub fn size_span(&self) -> (r: u64)
        ensures
            r == self.span(),
    {
        self.end.get().saturating_sub(self.start.get())
    }

    /// The slot that covers the region, its last address included.
    pub fn to_addr_slot(&self) -> (r: AddressSlot)
        requires
            self.span() < usize::MAX,
        ensures
            r.addr == self.start,
            r.capacity == 1 + self.span(),
    {
        AddressSlot { addr: self.start, capacity: 1 + self.size_span() as usize }
    }
}

/// What a disk is formatted with.
#[derive(Debug, Clone, Copy, PartialEq, Eq, Structural)]
pub struct Format {
    pub param_data_block_count_per_group: u64,
    pub param_inode_count_per_group: u64,
    pub block_size_bytes: u64,
    pub group_count: u64,
}

/// First thing in each block group.
#[derive(Debug, Clone, Copy, PartialEq, Eq)]
pub struct XHFSHeader {
    pub version: u8,
    pub format: Format,
    pub chacha20_nonce: [u8; 12],
    pub extra_metadata: [u8; 32],
}

/// The value of a header.
pub struct Header {
    pub version: u8,
    pub format: Format,
    pub chacha20_nonce: Seq<u8>,
    pub extra_metadata: Seq<u8>,
}

impl View for XHFSHeader {
    type V = Header;

    open spec fn view(&self) -> Header {
        Header {
            version: self.version,
            format: self.format,
            chacha20_nonce: self.chacha20_nonce@,
            extra_metadata: self.extra_metadata@,
        }
    }
}

/// Number of bytes of a header.
pub const HEADER_SIZE: u64 = 81;

/// The letters `XHFS`.
pub open spec fn magic() -> Seq<u8> {
    seq![0x58u8, 0x48u8, 0x46u8, 0x53u8]
}

/// The bytes of a header.
pub open spec fn header_bytes(h: Header) -> Seq<u8> {
    magic() + seq![h.version] + le64(h.format.param_data_block_count_per_group) + le64(
        h.format.param_inode_count_per_group,
    ) + le64(h.format.block_size_bytes) + le64(h.format.group_count) + h.chacha20_nonce
        + h.extra_metadata
}

/// The header that bytes stand for.
pub open spec fn header_parse(s: Seq<u8>) -> Result<Header, Fault> {
    if s.len() != HEADER_SIZE {
        Err(Fault::WrongSize { of: Record::XHFSHeader, expected: HEADER_SIZE, got: s.len() as u64 })
    } else if s.subrange(0, 4) != magic() {
        Err(Fault::BadMagic { of: Record::XHFSHeader })
    } else {
        Ok(
            Header {
                version: s[4],
                format: Format {
                    param_data_block_count_per_group: u64_at(s, 5),
                    param_inode_count_per_group: u64_at(s, 13),
                    block_size_bytes: u64_at(s, 21),
                    group_count: u64_at(s, 29),
                },
                chacha20_nonce: s.subrange(37, 49),
                extra_metadata: s.subrange(49, 81),
            },
        )
    }
}

/// Where the parts of a block group lie, counted from its start.
#[derive(Debug, Clone, Copy, PartialEq, Eq, Structural)]
pub struct GeometryLayout {
    pub rel_header_region: RegionSlot,
    pub rel_data_bitmap_region: RegionSlot,
    pub rel_inode_bitmap_region: RegionSlot,
    pub rel_inode_table_region: RegionSlot,
    pub rel_data_region: RegionSlot,
    pub n_inodes_in_group: u64,
    pub group_stride: u64,
    pub usable_blocks_per_group: u64,
}

impl Default for GeometryLayout {
    fn default() -> (r: Self)
        ensures
            r == (GeometryLayout {
                rel_header_region: region(0, 0),
                rel_data_bitmap_region: region(0, 0),
                rel_inode_bitmap_region: region(0, 0),
                rel_inode_table_region: region(0, 0),
                rel_data_region: region(0, 0),
                n_inodes_in_group: 0,
                group_stride: 0,
                usable_blocks_per_group: 0,
            }),
    {
        GeometryLayout {
            rel_header_region: RegionSlot::default(),
            rel_data_bitmap_region: RegionSlot::default(),
            rel_inode_bitmap_region: RegionSlot::default(),
            rel_inode_table_region: RegionSlot::default(),
            rel_data_region: RegionSlot::default(),
            n_inodes_in_group: 0,
            group_stride: 0,
            usable_blocks_per_group: 0,
        }
    }
}

/// What a block group holds right after formatting.
#[derive(Debug, Clone)]
pub struct BlockInitialValues {
    pub serialized_header: Vec<u8>,
    pub inode_bitmap_placeholder: Vec<u8>,
    pub data_block_bitmap: Vec<u8>,
    pub inode_table_placeholder: Vec<u8>,
}

/// Where the parts of one block group lie on the disk.
#[derive(Debug, Clone, Copy, PartialEq, Eq, Structural)]
pub struct GroupLayout {
    pub g_index: u64,
    pub g_offset: u64,
    pub header_region: RegionSlot,
    pub data_bitmap_region: RegionSlot,
    pub inode_bitmap_region: RegionSlot,
    pub inode_table_region: RegionSlot,
    pub data_region: RegionSlot,
}

impl Format {
    /// Bytes of the data bitmap of a group.
    pub open spec fn data_bitmap_size(self) -> int {
        8 + byte_count(self.param_data_block_count_per_group as nat) as int
    }

    /// Bytes of the inode bitmap of a group.
    pub open spec fn inode_bitmap_size(self) -> int {
        8 + byte_count(self.param_inode_count_per_group as nat) as int
    }

    /// Bytes of the inode table of a group.
    pub open spec fn inode_table_size(self) -> int {
        self.param_inode_count_per_group * INODE_SIZE
    }

    /// Bytes of the data blocks of a group.
    pub open spec fn data_size(self) -> int {
        self.param_data_block_count_per_group * self.block_size_bytes
    }

    pub open spec fn data_bitmap_at(self) -> int {
        HEADER_SIZE as int
    }

    pub open spec fn inode_bitmap_at(self) -> int {
        self.data_bitmap_at() + self.data_bitmap_size()
    }

    pub open spec fn inode_table_at(self) -> int {
        self.inode_bitmap_at() + self.inode_bitmap_size()
    }

    pub open spec fn data_at(self) -> int {
        self.inode_table_at() + self.inode_table_size()
    }

    /// Bytes of a block group.
    pub open spec fn stride(self) -> int {
        self.data_at() + self.data_size()
    }

    /// Counts that a bitmap can hold and group sizes that a machine can address.
    pub open spec fn fits(self) -> bool {
        &&& self.param_data_block_count_per_group + 7 <= usize::MAX / 8
        &&& self.param_inode_count_per_group + 7 <= usize::MAX / 8
        &&& self.inode_table_size() <= usize::MAX
        &&& self.stride() <= usize::MAX
    }

    /// The geometry of a disk that is formatted this way.
    pub open spec fn geometry(self) -> GeometryLayout {
        GeometryLayout {
            rel_header_region: region_of(0, HEADER_SIZE as int),
            rel_data_bitmap_region: region_of(self.data_bitmap_at(), self.data_bitmap_size()),
            rel_inode_bitmap_region: region_of(self.inode_bitmap_at(), self.inode_bitmap_size()),
            rel_inode_table_region: region_of(self.inode_table_at(), self.inode_table_size()),
            rel_data_region: region_of(self.data_at(), self.data_size()),
            n_inodes_in_group: self.param_inode_count_per_group,
            group_stride: self.stride() as u64,
            usable_blocks_per_group: self.param_data_block_count_per_group,
        }
    }
}

proof fn lemma_product(a: int, b: int)
    requires
        0 <= a,
        0 <= b,
    ensures
        0 <= a * b,
{
    assert(0 <= a * b) by (nonlinear_arith)
        requires
            0 <= a,
            0 <= b,
    ;
}

impl Format {
    /// True if the groups can be laid out on this machine.
    pub fn fits_machine(&self) -> (r: bool)
        ensures
            r == self.fits(),
    {
        let limit: u64 = usize::MAX as u64;
        let blocks: u64 = self.param_data_block_count_per_group;
        let inodes: u64 = self.param_inode_count_per_group;
        proof {
            lemma_product(blocks as int, self.block_size_bytes as int);
        }
        if blocks > limit / 8 - 7 || inodes > limit / 8 - 7 {
            return false;
        }
        if inodes > limit / 81 {
            return false;
        }
        let data: u64 = match blocks.checked_mul(self.block_size_bytes) {
            Some(d) => d,
            None => return false,
        };
        if data > limit {
            return false;
        }
        let meta: u64 = 81 + (8 + (blocks + 7) / 8) + (8 + (inodes + 7) / 8);
        let left: u64 = limit - data;
        let table: u64 = inodes * 81;
        table <= left && meta <= left - table
    }

    /// The format for a disk of `total_capacity_bytes`: block size by capacity, and as many
    /// groups of the given counts as there is room for.
    pub fn infer_from_free_space(
        total_capacity_bytes: u64,
        data_block_count: u64,
        inode_count: u64,
    ) -> (r: Result<Self, Fault>)
        ensures
            r == inferred_format(total_capacity_bytes, data_block_count, inode_count),
    {
        let block_size_bytes: u64 = if total_capacity_bytes <= 512 * 1024 {
            512
        } else if total_capacity_bytes <= 4 * 1024 * 1024 {
            1024
        } else {
            4096
        };
        let max_bits: u64 = block_size_bytes * 8;
        let blocks: u64 = clamp_count(data_block_count, max_bits);
        let inodes: u64 = clamp_count(inode_count, max_bits);
        assert(0 <= blocks * block_size_bytes <= 32768 * 4096) by (nonlinear_arith)
            requires
                0 <= blocks <= 32768,
                0 <= block_size_bytes <= 4096,
        ;
        let per_group: u64 = 81 + (blocks + 7) / 8 + (inodes + 7) / 8 + inodes * 81 + blocks
            * block_size_bytes;
        if total_capacity_bytes < per_group {
            return Err(Fault::DeviceTooSmall { capacity: total_capacity_bytes, needed: per_group });
        }
        Ok(
            Format {
                param_data_block_count_per_group: blocks,
                param_inode_count_per_group: inodes,
                block_size_bytes,
                group_count: total_capacity_bytes / per_group,
            },
        )
    }

    /// Accepts formats with a block size that is a power of two, at least one group, and
    /// counts between one and the bits of a block.
    pub fn validate(&self) -> (r: Result<(), Fault>)
        ensures
            r == validated(*self),
    {
        if self.block_size_bytes == 0 || !power_of_two(self.block_size_bytes) {
            return Err(Fault::BlockSizeNotPowerOfTwo { block_size: self.block_size_bytes });
        }
        if self.group_count == 0 {
            return Err(Fault::NoGroups);
        }
        if self.param_data_block_count_per_group == 0 {
            return Err(Fault::NoDataBlocks);
        }
        if self.param_inode_count_per_group == 0 {
            return Err(Fault::NoInodes);
        }
        let max_bits: u64 = match self.block_size_bytes.checked_mul(8) {
            Some(m) => m,
            None => return Err(Fault::BlockSizeOverflow),
        };
        if self.param_data_block_count_per_group > max_bits {
            return Err(
                Fault::TooManyDataBlocks {
                    count: self.param_data_block_count_per_group,
                    max: max_bits,
                },
            );
        }
        if self.param_inode_count_per_group > max_bits {
            return Err(
                Fault::TooManyInodes { count: self.param_inode_count_per_group, max: max_bits },
            );
        }
        Ok(())
    }
}

/// `n`, but at least one and at most `max`.
pub open spec fn clamped(n: u64, max: u64) -> u64 {
    if n > max {
        max
    } else if n == 0 {
        1
    } else {
        n
    }
}

fn clamp_count(n: u64, max: u64) -> (r: u64)
    requires
        max >= 1,
    ensures
        r == clamped(n, max),
{
    if n > max {
        max
    } else if n == 0 {
        1
    } else {
        n
    }
}

/// Block size for a capacity.
pub open spec fn block_size_for(capacity: u64) -> u64 {
    if capacity <= 524288 {
        512
    } else if capacity <= 4194304 {
        1024
    } else {
        4096
    }
}

/// Room that a group is counted with when the number of groups is chosen. The counts that
/// stand before the two bitmaps are not part of it.
pub open spec fn group_room(blocks: u64, inodes: u64, block_size: u64) -> int {
    HEADER_SIZE + byte_count(blocks as nat) + byte_count(inodes as nat) + inodes * INODE_SIZE
        + blocks * block_size
}

/// The format for a capacity and wished counts.
pub open spec fn inferred_format(capacity: u64, data_block_count: u64, inode_count: u64) -> Result<
    Format,
    Fault,
> {
    let bs = block_size_for(capacity);
    let blocks = clamped(data_block_count, (8 * bs) as u64);
    let inodes = clamped(inode_count, (8 * bs) as u64);
    let room = group_room(blocks, inodes, bs);
    if capacity < room {
        Err(Fault::DeviceTooSmall { capacity, needed: room as u64 })
    } else {
        Ok(
            Format {
                param_data_block_count_per_group: blocks,
                param_inode_count_per_group: inodes,
                block_size_bytes: bs,
                group_count: (capacity as int / room) as u64,
            },
        )
    }
}

/// True if `n` is 1, 2, 4 and so on.
pub open spec fn is_power_of_two(n: int) -> bool
    decreases n,
{
    if n <= 0 {
        false
    } else if n == 1 {
        true
    } else {
        n % 2 == 0 && is_power_of_two(n / 2)
    }
}

fn power_of_two(n: u64) -> (r: bool)
    ensures
        r == is_power_of_two(n as int),
{
    if n == 0 {
        return false;
    }
    let mut m: u64 = n;
    while m % 2 == 0
        invariant
            m > 0,
            is_power_of_two(m as int) == is_power_of_two(n as int),
        decreases m,
    {
        m = m / 2;
    }
    m == 1
}

/// What `Format::validate` says of a format.
pub open spec fn validated(f: Format) -> Result<(), Fault> {
    if !is_power_of_two(f.block_size_bytes as int) {
        Err(Fault::BlockSizeNotPowerOfTwo { block_size: f.block_size_bytes })
    } else if f.group_count == 0 {
        Err(Fault::NoGroups)
    } else if f.param_data_block_count_per_group == 0 {
        Err(Fault::NoDataBlocks)
    } else if f.param_inode_count_per_group == 0 {
        Err(Fault::NoInodes)
    } else if 8 * f.block_size_bytes > u64::MAX {
        Err(Fault::BlockSizeOverflow)
    } else if f.param_data_block_count_per_group > 8 * f.block_size_bytes {
        Err(
            Fault::TooManyDataBlocks {
                count: f.param_data_block_count_per_group,
                max: (8 * f.block_size_bytes) as u64,
            },
        )
    } else if f.param_inode_count_per_group > 8 * f.block_size_bytes {
        Err(
            Fault::TooManyInodes {
                count: f.param_inode_count_per_group,
                max: (8 * f.block_size_bytes) as u64,
            },
        )
    } else {
        Ok(())
    }
}

/// An inferred format is accepted, and its groups can be laid out.
pub proof fn inferred_format_is_valid(capacity: u64, data_block_count: u64, inode_count: u64)
    requires
        inferred_format(capacity, data_block_count, inode_count) is Ok,
    ensures
        validated(inferred_format(capacity, data_block_count, inode_count)->Ok_0) is Ok,
        inferred_format(capacity, data_block_count, inode_count)->Ok_0.stride() <= 0x10000000,
{
    let f = inferred_format(capacity, data_block_count, inode_count)->Ok_0;
    let bs = f.block_size_bytes;
    let room = group_room(f.param_data_block_count_per_group, f.param_inode_count_per_group, bs);
    assert(0 <= f.param_data_block_count_per_group * bs <= 32768 * 4096) by (nonlinear_arith)
        requires
            f.param_data_block_count_per_group <= 32768,
            0 <= bs <= 4096,
    ;
    assert(capacity as int / room >= 1) by (nonlinear_arith)
        requires
            capacity as int >= room,
            room > 0,
    ;
    assert(capacity as int / room <= capacity) by (nonlinear_arith)
        requires
            capacity as int >= room,
            room > 0,
    ;
    reveal_with_fuel(is_power_of_two, 14);
}

impl XHFSHeader {
    /// The bytes of this header.
    pub fn serialize(&self) -> (r: Result<Vec<u8>, Fault>)
        ensures
            r is Ok,
            r->Ok_0@ == header_bytes(self@),
            r->Ok_0@.len() == HEADER_SIZE,
    {
        let mut buf: Vec<u8> = Vec::with_capacity(XHFSHeader::serialized_size());
        buf.push(0x58);
        buf.push(0x48);
        buf.push(0x46);
        buf.push(0x53);
        buf.push(self.version);
        push_u64(&mut buf, self.format.param_data_block_count_per_group);
        push_u64(&mut buf, self.format.param_inode_count_per_group);
        push_u64(&mut buf, self.format.block_size_bytes);
        push_u64(&mut buf, self.format.group_count);
        push_bytes(&mut buf, self.chacha20_nonce.as_slice());
        push_bytes(&mut buf, self.extra_metadata.as_slice());
        assert(buf@ =~= header_bytes(self@));
        Ok(buf)
    }

    /// The header that `data` stands for.
    pub fn deserialize(data: &[u8]) -> (r: Result<Self, Fault>)
        ensures
            seen(r) == header_parse(data@),
    {
        let got: usize = data.len();
        if got != 81 {
            return Err(Fault::WrongSize { of: Record::XHFSHeader, expected: HEADER_SIZE, got: got as u64 });
        }
        if !(data[0] == 0x58 && data[1] == 0x48 && data[2] == 0x46 && data[3] == 0x53) {
            assert(data@.subrange(0, 4) != magic()) by {
                assert(data@.subrange(0, 4)[0] == data@[0]);
                assert(data@.subrange(0, 4)[1] == data@[1]);
                assert(data@.subrange(0, 4)[2] == data@[2]);
                assert(data@.subrange(0, 4)[3] == data@[3]);
            }
            return Err(Fault::BadMagic { of: Record::XHFSHeader });
        }
        assert(data@.subrange(0, 4) =~= magic());
        Ok(
            XHFSHeader {
                version: data[4],
                format: Format {
                    param_data_block_count_per_group: get_u64(data, 5),
                    param_inode_count_per_group: get_u64(data, 13),
                    block_size_bytes: get_u64(data, 21),
                    group_count: get_u64(data, 29),
                },
                chacha20_nonce: array_at(data, 37),
                extra_metadata: array_at(data, 49),
            },
        )
    }

    /// Number of bytes of a header.
    pub fn serialized_size() -> (r: usize)
        ensures
            r == HEADER_SIZE,
    {
        81
    }

    /// A header of version 1 with nothing filled in.
    pub fn template() -> (r: Self)
        ensures
            r@ == (Header {
                version: 1,
                format: Format {
                    param_data_block_count_per_group: 0,
                    param_inode_count_per_group: 0,
                    block_size_bytes: 0,
                    group_count: 0,
                },
                chacha20_nonce: zeros(12),
                extra_metadata: zeros(32),
            }),
    {
        let r = XHFSHeader {
            version: 1,
            format: Format {
                param_data_block_count_per_group: 0,
                param_inode_count_per_group: 0,
                block_size_bytes: 0,
                group_count: 0,
            },
            chacha20_nonce: [0;12],
            extra_metadata: [0;32],
        };
        assert(r.chacha20_nonce@ =~= zeros(12));
        assert(r.extra_metadata@ =~= zeros(32));
        r
    }

    /// Where the parts of a block group lie, and what they hold right after formatting.
    pub fn calculate_relative_geometry(&self) -> (r: Result<
        (GeometryLayout, BlockInitialValues),
        Fault,
    >)
        requires
            self.format.fits(),
        ensures
            r is Ok,
            r->Ok_0.0 == self.format.geometry(),
            r->Ok_0.1.serialized_header@ == header_bytes(self@),
            r->Ok_0.1.data_block_bitmap@ == empty_bitmap(
                self.format.param_data_block_count_per_group,
            ),
            r->Ok_0.1.inode_bitmap_placeholder@ == empty_bitmap(
                self.format.param_inode_count_per_group,
            ),
            r->Ok_0.1.inode_table_placeholder@ == zeros(self.format.inode_table_size() as nat),
    {
        let blocks: u64 = self.format.param_data_block_count_per_group;
        let inodes: u64 = self.format.param_inode_count_per_group;
        proof {
            lemma_product(blocks as int, self.format.block_size_bytes as int);
        }
        let serialized_header = match self.serialize() {
            Ok(b) => b,
            Err(e) => return Err(e),
        };
        let rel_header_region = RegionSlot {
            start: MaybeU64::from(0),
            end: MaybeU64::from((serialized_header.len() - 1) as u64),
        };
        let data_block_bitmap = match Bitmap::new_from_bits_count(blocks as usize).serialize() {
            Ok(b) => b,
            Err(e) => return Err(e),
        };
        let data_bitmap_start: u64 = rel_header_region.end.get() + 1;
        let rel_data_bitmap_region = RegionSlot {
            start: MaybeU64::from(data_bitmap_start),
            end: MaybeU64::from(data_bitmap_start + data_block_bitmap.len() as u64 - 1),
        };
        let inode_bitmap_placeholder = match Bitmap::new_from_bits_count(
            inodes as usize,
        ).serialize() {
            Ok(b) => b,
            Err(e) => return Err(e),
        };
        let inode_bitmap_start: u64 = rel_data_bitmap_region.end.get() + 1;
        let rel_inode_bitmap_region = RegionSlot {
            start: MaybeU64::from(inode_bitmap_start),
            end: MaybeU64::from(inode_bitmap_start + inode_bitmap_placeholder.len() as u64 - 1),
        };
        let inode_table_len: u64 = inodes * INode::serialized_size() as u64;
        let inode_table_start: u64 = rel_inode_bitmap_region.end.get() + 1;
        let inode_table_placeholder = zero_vec(inode_table_len as usize);
        let rel_inode_table_region = RegionSlot {
            start: MaybeU64::from(inode_table_start),
            end: MaybeU64::from(inode_table_start + inode_table_len - 1),
        };
        let data_start: u64 = rel_inode_table_region.end.get() + 1;
        let data_len: u64 = blocks * self.format.block_size_bytes;
        let rel_data_region = RegionSlot {
            start: MaybeU64::from(data_start),
            end: MaybeU64::from(data_start + data_len - 1),
        };
        let geometry = GeometryLayout {
            rel_header_region,
            rel_data_bitmap_region,
            rel_inode_bitmap_region,
            rel_inode_table_region,
            rel_data_region,
            group_stride: rel_data_region.end.get() + 1,
            usable_blocks_per_group: blocks,
            n_inodes_in_group: inodes,
        };
        let templates = BlockInitialValues {
            serialized_header,
            data_block_bitmap,
            inode_bitmap_placeholder,
            inode_table_placeholder,
        };
        Ok((geometry, templates))
    }
}

/// The bytes of a bitmap of `n` cleared bits.
pub open spec fn empty_bitmap(n: u64) -> Seq<u8> {
    bits_bytes(Bits { len: n as nat, raw: zeros(byte_count(n as nat)) })
}

/// A header that is written and read back is the same header.
pub proof fn header_round_trip(h: Header)
    requires
        h.chacha20_nonce.len() == 12,
        h.extra_metadata.len() == 32,
    ensures
        header_parse(header_bytes(h)) == Ok::<Header, Fault>(h),
{
    let s = header_bytes(h);
    lemma_le64(h.format.param_data_block_count_per_group);
    lemma_le64(h.format.param_inode_count_per_group);
    lemma_le64(h.format.block_size_bytes);
    lemma_le64(h.format.group_count);
    assert(s.len() == 81);
    assert(s.subrange(0, 4) =~= magic());
    assert(s.subrange(5, 13) =~= le64(h.format.param_data_block_count_per_group));
    assert(s.subrange(13, 21) =~= le64(h.format.param_inode_count_per_group));
    assert(s.subrange(21, 29) =~= le64(h.format.block_size_bytes));
    assert(s.subrange(29, 37) =~= le64(h.format.group_count));
    assert(s.subrange(37, 49) =~= h.chacha20_nonce);
    assert(s.subrange(49, 81) =~= h.extra_metadata);
}

/// Bytes that are read as a header are the bytes of that header.
pub proof fn header_bytes_round_trip(s: Seq<u8>)
    requires
        header_parse(s) is Ok,
    ensures
        header_bytes(header_parse(s)->Ok_0) == s,
{
    let h = header_parse(s)->Ok_0;
    lemma_un_le64(s.subrange(5, 13));
    lemma_un_le64(s.subrange(13, 21));
    lemma_un_le64(s.subrange(21, 29));
    lemma_un_le64(s.subrange(29, 37));
    assert(s =~= s.subrange(0, 4) + s.subrange(4, 81));
    assert(header_bytes(h) =~= s);
}

/// The parts of a block group follow one another without gaps, from the start of the
/// group to its end.
pub proof fn geometry_is_contiguous(f: Format)
    requires
        f.fits(),
        f.param_inode_count_per_group > 0,
        f.param_data_block_count_per_group > 0,
        f.block_size_bytes > 0,
    ensures
        ({
            let g = f.geometry();
            &&& g.rel_header_region.start.raw == 0
            &&& g.rel_data_bitmap_region.start.raw == g.rel_header_region.end.raw + 1
            &&& g.rel_inode_bitmap_region.start.raw == g.rel_data_bitmap_region.end.raw + 1
            &&& g.rel_inode_table_region.start.raw == g.rel_inode_bitmap_region.end.raw + 1
            &&& g.rel_data_region.start.raw == g.rel_inode_table_region.end.raw + 1
            &&& g.group_stride == g.rel_data_region.end.raw + 1
            &&& g.rel_inode_table_region.span() + 1 == g.n_inodes_in_group * INODE_SIZE
            &&& g.rel_data_region.span() + 1 == g.usable_blocks_per_group * f.block_size_bytes
        }),
{
    lemma_product(
        f.param_data_block_count_per_group as int,
        f.block_size_bytes as int,
    );
    assert(f.param_data_block_count_per_group * f.block_size_bytes >= 1) by (nonlinear_arith)
        requires
            f.param_data_block_count_per_group >= 1,
            f.block_size_bytes >= 1,
    ;
}

impl GeometryLayout {
    /// The group `g` can be addressed.
    pub open spec fn addressable(self, g: int) -> bool {
        let o = g * self.group_stride;
        &&& o + self.rel_header_region.start.raw <= u64::MAX
        &&& o + self.rel_header_region.end.raw <= u64::MAX
        &&& o + self.rel_data_bitmap_region.start.raw <= u64::MAX
        &&& o + self.rel_data_bitmap_region.end.raw <= u64::MAX
        &&& o + self.rel_inode_bitmap_region.start.raw <= u64::MAX
        &&& o + self.rel_inode_bitmap_region.end.raw <= u64::MAX
        &&& o + self.rel_inode_table_region.start.raw <= u64::MAX
        &&& o + self.rel_inode_table_region.end.raw <= u64::MAX
        &&& o + self.rel_data_region.start.raw <= u64::MAX
        &&& o + self.rel_data_region.end.raw <= u64::MAX
    }

    /// The layout of group `g`.
    pub open spec fn group(self, g: int) -> GroupLayout {
        let o = g * self.group_stride;
        GroupLayout {
            g_index: g as u64,
            g_offset: o as u64,
            header_region: self.rel_header_region.moved(o),
            data_bitmap_region: self.rel_data_bitmap_region.moved(o),
            inode_bitmap_region: self.rel_inode_bitmap_region.moved(o),
            inode_table_region: self.rel_inode_table_region.moved(o),
            data_region: self.rel_data_region.moved(o),
        }
    }
}

impl GroupLayout {
    /// The layout of the group of the given index; none where groups have no size.
    pub fn derive_from_group_index(g_index: u64, geometry: &GeometryLayout) -> (r: Option<Self>)
        requires
            geometry.group_stride != 0 ==> geometry.addressable(g_index as int),
        ensures
            r == if geometry.group_stride == 0 {
                None
            } else {
                Some(geometry.group(g_index as int))
            },
    {
        if geometry.group_stride == 0 {
            return None;
        }
        proof {
            lemma_product(g_index as int, geometry.group_stride as int);
        }
        let g_offset: u64 = g_index * geometry.group_stride;
        Some(
            GroupLayout {
                g_index,
                g_offset,
                header_region: geometry.rel_header_region.add_offset(g_offset),
                data_bitmap_region: geometry.rel_data_bitmap_region.add_offset(g_offset),
                inode_bitmap_region: geometry.rel_inode_bitmap_region.add_offset(g_offset),
                inode_table_region: geometry.rel_inode_table_region.add_offset(g_offset),
                data_region: geometry.rel_data_region.add_offset(g_offset),
            },
        )
    }

    /// The layout of the group in which an address lies.
    pub fn derive_from_address(addr: u64, geometry: &GeometryLayout) -> (r: Option<Self>)
        requires
            geometry.group_stride != 0 ==> geometry.addressable(
                addr as int / geometry.group_stride as int,
            ),
        ensures
            r == if geometry.group_stride == 0 {
                None
            } else {
                Some(geometry.group(addr as int / geometry.group_stride as int))
            },
    {
        if geometry.group_stride == 0 {
            return None;
        }
        GroupLayout::derive_from_group_index(addr / geometry.group_stride, geometry)
    }

    /// The layout of the group that holds an inode; inodes are counted from one.
    pub fn derive_from_inode(inumber: u64, geometry: &GeometryLayout) -> (r: Option<Self>)
        requires
            inumber != 0 && geometry.n_inodes_in_group != 0 && geometry.group_stride != 0
                ==> geometry.addressable((inumber - 1) / geometry.n_inodes_in_group as int),
        ensures
            r == if inumber == 0 || geometry.n_inodes_in_group == 0 || geometry.group_stride == 0 {
                None
            } else {
                Some(geometry.group((inumber - 1) / geometry.n_inodes_in_group as int))
            },
    {
        if inumber == 0 || geometry.n_inodes_in_group == 0 {
            return None;
        }
        GroupLayout::derive_from_group_index((inumber - 1) / geometry.n_inodes_in_group, geometry)
    }
}

} // verus!
