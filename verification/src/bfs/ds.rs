//! Numbered inodes and block groups of a fixed number of bytes.
use crate::addr::{maybe, MaybeU64};
use crate::bfs::records::{kind_byte, kind_of, INodeKind};
use crate::bfs::vector::brute_magic;
use crate::codec::{
    array_at, get_u64, le64, lemma_le64, lemma_un_le64, push_bytes, push_u64, u64_at, zero_vec,
    zeros,
};
use crate::error::{Fault, Record};
use crate::xhfs::bitmap::{byte_count, Bitmap};
use crate::xhfs::layout::{empty_bitmap, region_of, BlockInitialValues, GeometryLayout, RegionSlot};
use vstd::prelude::*;

verus! {

/// What is known of a numbered file, directory or link.
#[derive(Debug, Clone, Copy, PartialEq, Eq, Structural)]
pub struct INode {
    pub kind: INodeKind,
    pub index: u64,
    pub nlink: u64,
    pub total_file_size: u64,
    pub extent_addr: MaybeU64,
    pub mtime: u64,
    pub ctime: u64,
}

/// Number of bytes of a numbered inode.
pub const INDEXED_INODE_SIZE: u64 = 49;

/// The bytes of a numbered inode.
pub open spec fn indexed_bytes(n: INode) -> Seq<u8> {
    le64(n.index) + seq![kind_byte(n.kind)] + le64(n.nlink) + le64(n.total_file_size) + le64(
        n.extent_addr.raw,
    ) + le64(n.mtime) + le64(n.ctime)
}

/// The numbered inode that bytes stand for.
pub open spec fn indexed_parse(s: Seq<u8>) -> Result<INode, Fault> {
    if s.len() != INDEXED_INODE_SIZE {
        Err(Fault::WrongSize { of: Record::INode, expected: INDEXED_INODE_SIZE, got: s.len() as u64 })
    } else {
        match kind_of(s[8]) {
            Err(e) => Err(e),
            Ok(kind) => Ok(
                INode {
                    kind,
                    index: u64_at(s, 0),
                    nlink: u64_at(s, 9),
                    total_file_size: u64_at(s, 17),
                    extent_addr: maybe(u64_at(s, 25)),
                    mtime: u64_at(s, 33),
                    ctime: u64_at(s, 41),
                },
            ),
        }
    }
}

impl INode {
    /// The bytes of this inode.
    pub fn serialize(&self) -> (r: Result<Vec<u8>, Fault>)
        ensures
            r is Ok,
            r->Ok_0@ == indexed_bytes(*self),
    {
        let mut buf: Vec<u8> = Vec::with_capacity(INode::serialized_size());
        push_u64(&mut buf, self.index);
        buf.push(self.kind.to_byte());
        push_u64(&mut buf, self.nlink);
        push_u64(&mut buf, self.total_file_size);
        push_u64(&mut buf, self.extent_addr.get());
        push_u64(&mut buf, self.mtime);
        push_u64(&mut buf, self.ctime);
        assert(buf@ =~= indexed_bytes(*self));
        Ok(buf)
    }

    /// The inode that `data` stands for.
    pub fn deserialize(data: &[u8]) -> (r: Result<Self, Fault>)
        ensures
            r == indexed_parse(data@),
    {
        let got: usize = data.len();
        if got != 49 {
            return Err(Fault::WrongSize { of: Record::INode, expected: INDEXED_INODE_SIZE, got: got as u64 });
        }
        let kind = match INodeKind::from_byte(data[8]) {
            Ok(kind) => kind,
            Err(e) => return Err(e),
        };
        Ok(
            INode {
                kind,
                index: get_u64(data, 0),
                nlink: get_u64(data, 9),
                total_file_size: get_u64(data, 17),
                extent_addr: MaybeU64::from(get_u64(data, 25)),
                mtime: get_u64(data, 33),
                ctime: get_u64(data, 41),
            },
        )
    }

    /// Number of bytes of an inode.
    pub fn serialized_size() -> (r: usize)
        ensures
            r == INDEXED_INODE_SIZE,
    {
        49
    }
}

/// A numbered inode that is written and read back is the same inode.
pub proof fn indexed_inode_round_trip(n: INode)
    ensures
        indexed_parse(indexed_bytes(n)) == Ok::<INode, Fault>(n),
{
    let s = indexed_bytes(n);
    lemma_le64(n.index);
    lemma_le64(n.nlink);
    lemma_le64(n.total_file_size);
    lemma_le64(n.extent_addr.raw);
    lemma_le64(n.mtime);
    lemma_le64(n.ctime);
    assert(s.subrange(0, 8) =~= le64(n.index));
    assert(s.subrange(9, 17) =~= le64(n.nlink));
    assert(s.subrange(17, 25) =~= le64(n.total_file_size));
    assert(s.subrange(25, 33) =~= le64(n.extent_addr.raw));
    assert(s.subrange(33, 41) =~= le64(n.mtime));
    assert(s.subrange(41, 49) =~= le64(n.ctime));
}

/// Bytes that are read as a numbered inode are the bytes of that inode.
pub proof fn indexed_inode_bytes_round_trip(s: Seq<u8>)
    requires
        indexed_parse(s) is Ok,
    ensures
        indexed_bytes(indexed_parse(s)->Ok_0) == s,
{
    let n = indexed_parse(s)->Ok_0;
    lemma_un_le64(s.subrange(0, 8));
    lemma_un_le64(s.subrange(9, 17));
    lemma_un_le64(s.subrange(17, 25));
    lemma_un_le64(s.subrange(25, 33));
    lemma_un_le64(s.subrange(33, 41));
    lemma_un_le64(s.subrange(41, 49));
    assert(indexed_bytes(n) =~= s);
}

/// Reason for which an operation failed.
#[derive(Debug, Clone, Copy, PartialEq, Eq, Structural)]
pub enum BruteFsError {
    Insufficient { wanted: usize, max_slot_size: usize, left_contiguous: usize },
    Error { err: Fault },
}

impl BruteFsError {
    /// The error for a fault.
    pub fn from_error(error: Fault) -> (r: BruteFsError)
        ensures
            r == (BruteFsError::Error { err: error }),
    {
        BruteFsError::Error { err: error }
    }

    /// The error that reports a fault.
    pub fn from_report(error: Fault) -> (r: BruteFsError)
        ensures
            r == (BruteFsError::Error { err: error }),
    {
        BruteFsError::Error { err: error }
    }
}

/// Block groups that take a fixed number of blocks, their bookkeeping included.
#[derive(Debug, Clone, Copy, PartialEq, Eq, Structural)]
pub struct Format {
    pub block_size_bytes: u64,
    pub blocks_per_group: u64,
    pub group_count: u64,
}

impl Format {
    /// Number of inodes of a group: as many as a bitmap of one block can count.
    pub open spec fn inodes(self) -> int {
        8 * self.block_size_bytes
    }

    pub open spec fn stride(self) -> int {
        self.blocks_per_group * self.block_size_bytes
    }

    pub open spec fn data_bitmap_size(self) -> int {
        8 + byte_count(self.blocks_per_group as nat) as int
    }

    pub open spec fn inode_bitmap_size(self) -> int {
        8 + byte_count(self.inodes() as nat) as int
    }

    pub open spec fn inode_table_size(self) -> int {
        self.inodes() * INDEXED_INODE_SIZE
    }

    /// Where the data of a group starts, behind a header of `header` bytes and the bookkeeping.
    pub open spec fn data_at(self, header: int) -> int {
        header + self.data_bitmap_size() + self.inode_bitmap_size() + self.inode_table_size()
    }

    /// Number of whole blocks behind the bookkeeping.
    pub open spec fn usable(self, header: int) -> int {
        (self.stride() - self.data_at(header)) / self.block_size_bytes as int
    }

    /// The sizes can be computed, and at least one block is left for data.
    pub open spec fn fits(self, header: int) -> bool {
        &&& self.block_size_bytes > 0
        &&& self.blocks_per_group + 7 <= usize::MAX / 8
        &&& self.stride() <= usize::MAX
        &&& self.data_at(header) + self.block_size_bytes <= self.stride()
    }

    /// Where the parts of a group lie, behind a header of `header` bytes.
    pub open spec fn geometry(self, header: int) -> GeometryLayout {
        let a = header;
        let b = a + self.data_bitmap_size();
        let c = b + self.inode_bitmap_size();
        let d = c + self.inode_table_size();
        GeometryLayout {
            rel_header_region: region_of(0, header),
            rel_data_bitmap_region: region_of(a, self.data_bitmap_size()),
            rel_inode_bitmap_region: region_of(b, self.inode_bitmap_size()),
            rel_inode_table_region: region_of(c, self.inode_table_size()),
            rel_data_region: region_of(d, self.usable(header) * self.block_size_bytes),
            n_inodes_in_group: self.inodes() as u64,
            group_stride: self.stride() as u64,
            usable_blocks_per_group: self.usable(header) as u64,
        }
    }
}

/// Facts on the sizes of a group.
proof fn lemma_sizes(f: Format, header: int)
    requires
        0 < header,
        f.fits(header),
    ensures
        f.usable(header) >= 1,
        f.data_at(header) + f.usable(header) * f.block_size_bytes <= f.stride(),
        f.usable(header) * f.block_size_bytes >= f.block_size_bytes,
        f.blocks_per_group <= f.stride(),
        f.usable(header) < f.blocks_per_group,
{
    let bs = f.block_size_bytes as int;
    let room = f.stride() - f.data_at(header);
    let u = f.usable(header);
    vstd::arithmetic::div_mod::lemma_fundamental_div_mod(room, bs);
    assert(u >= 1 && u * bs <= room && u * bs >= bs) by (nonlinear_arith)
        requires
            room == bs * u + room % bs,
            0 <= room % bs < bs,
            room >= bs,
            bs >= 1,
    ;
    assert(f.blocks_per_group <= f.blocks_per_group * bs) by (nonlinear_arith)
        requires
            bs >= 1,
            f.blocks_per_group >= 0,
    ;
    assert(u < f.blocks_per_group) by (nonlinear_arith)
        requires
            u * bs <= room,
            room < f.blocks_per_group * bs,
            bs >= 1,
    ;
}

impl Format {
    /// True if the sizes can be computed, and at least one block is left for data.
    pub fn fits_machine(&self, header: u64) -> (r: bool)
        requires
            header <= u32::MAX,
        ensures
            r == self.fits(header as int),
    {
        if self.block_size_bytes == 0 || self.blocks_per_group > usize::MAX as u64 / 8 - 7 {
            return false;
        }
        let stride: u64 = match self.blocks_per_group.checked_mul(self.block_size_bytes) {
            Some(s) => s,
            None => return false,
        };
        if stride > usize::MAX as u64 {
            return false;
        }
        assert(self.blocks_per_group <= stride) by (nonlinear_arith)
            requires
                stride == self.blocks_per_group * self.block_size_bytes,
                self.block_size_bytes >= 1,
        ;
        // the inode table alone takes 392 bytes for each byte of a block
        if self.block_size_bytes > stride / 392 {
            return false;
        }
        let table: u64 = 392 * self.block_size_bytes;
        let left: u64 = stride - table;
        if left < self.block_size_bytes {
            return false;
        }
        let room: u64 = left - self.block_size_bytes;
        let data_bitmap: u64 = 8 + self.blocks_per_group / 8 + (if self.blocks_per_group % 8
            == 0 {
            0
        } else {
            1
        });
        let inode_bitmap: u64 = match self.block_size_bytes.checked_add(8) {
            Some(b) => b,
            None => return false,
        };
        if header > room || data_bitmap > room - header {
            return false;
        }
        inode_bitmap <= room - header - data_bitmap
    }

    /// Where the parts of a group lie, behind a header of `header` bytes.
    pub fn relative_geometry(&self, header: u64) -> (r: GeometryLayout)
        requires
            0 < header <= u32::MAX,
            self.fits(header as int),
        ensures
            r == self.geometry(header as int),
    {
        proof {
            lemma_sizes(*self, header as int);
        }
        let bs: u64 = self.block_size_bytes;
        let inodes: u64 = 8 * bs;
        let stride: u64 = self.blocks_per_group * bs;
        let data_bitmap: u64 = 8 + (self.blocks_per_group / 8 + (if self.blocks_per_group % 8
            == 0 {
            0
        } else {
            1
        }));
        let inode_bitmap: u64 = 8 + bs;
        let table: u64 = inodes * 49;
        let b: u64 = header + data_bitmap;
        let c: u64 = b + inode_bitmap;
        let d: u64 = c + table;
        let usable: u64 = (stride - d) / bs;
        GeometryLayout {
            rel_header_region: span(0, header),
            rel_data_bitmap_region: span(header, data_bitmap),
            rel_inode_bitmap_region: span(b, inode_bitmap),
            rel_inode_table_region: span(c, table),
            rel_data_region: span(d, usable * bs),
            n_inodes_in_group: inodes,
            group_stride: stride,
            usable_blocks_per_group: usable,
        }
    }
}

/// The region of `size` bytes from `start` on.
fn span(start: u64, size: u64) -> (r: RegionSlot)
    requires
        size > 0,
        start + size <= u64::MAX,
    ensures
        r == region_of(start as int, size as int),
{
    RegionSlot { start: MaybeU64::from(start), end: MaybeU64::from(start + size - 1) }
}

/// What every group starts with.
#[derive(Debug, Clone, Copy, PartialEq, Eq)]
pub struct BruteFsHeader {
    pub version: u8,
    pub chacha20_nonce: [u8; 12],
    pub format: Format,
}

/// Number of bytes of a header.
pub const GROUP_HEADER_SIZE: u64 = 44;

/// The bytes of a header.
pub open spec fn group_header_bytes(h: BruteFsHeader) -> Seq<u8> {
    brute_magic() + seq![h.version] + h.chacha20_nonce@ + le64(
        h.format.block_size_bytes,
    ) + le64(h.format.blocks_per_group) + le64(h.format.group_count)
}

/// What bytes that stand for a header hold; further bytes are ignored.
pub open spec fn is_group_header(s: Seq<u8>, h: BruteFsHeader) -> bool {
    &&& h.version == s[7]
    &&& h.chacha20_nonce@ == s.subrange(8, 20)
    &&& h.format.block_size_bytes == u64_at(s, 20)
    &&& h.format.blocks_per_group == u64_at(s, 28)
    &&& h.format.group_count == u64_at(s, 36)
}

impl BruteFsHeader {
    /// The bytes of this header.
    pub fn serialize(&self) -> (r: Result<Vec<u8>, Fault>)
        ensures
            r is Ok,
            r->Ok_0@ == group_header_bytes(*self),
            r->Ok_0@.len() == GROUP_HEADER_SIZE,
    {
        let mut buf: Vec<u8> = Vec::with_capacity(44);
        buf.push(0x62);
        buf.push(0x72);
        buf.push(0x75);
        buf.push(0x74);
        buf.push(0x65);
        buf.push(0x66);
        buf.push(0x73);
        buf.push(self.version);
        push_bytes(&mut buf, self.chacha20_nonce.as_slice());
        push_u64(&mut buf, self.format.block_size_bytes);
        push_u64(&mut buf, self.format.blocks_per_group);
        push_u64(&mut buf, self.format.group_count);
        assert(buf@ =~= group_header_bytes(*self));
        Ok(buf)
    }

    /// The header that `data` starts with.
    pub fn deserialize(data: &[u8]) -> (r: Result<Self, Fault>)
        ensures
            data@.len() < GROUP_HEADER_SIZE ==> r == Err::<Self, Fault>(
                Fault::TooShort { of: Record::BruteFsHeader, expected: GROUP_HEADER_SIZE, got: data@.len() as u64 },
            ),
            data@.len() >= GROUP_HEADER_SIZE && data@.subrange(0, 7)
                != brute_magic() ==> r == Err::<Self, Fault>(Fault::BadMagic { of: Record::BruteFsHeader }),
            data@.len() >= GROUP_HEADER_SIZE && data@.subrange(0, 7)
                == brute_magic() ==> r is Ok && is_group_header(
                data@,
                r->Ok_0,
            ),
    {
        let got: usize = data.len();
        if got < 44 {
            return Err(Fault::TooShort { of: Record::BruteFsHeader, expected: GROUP_HEADER_SIZE, got: got as u64 });
        }
        let head = vstd::slice::slice_subrange(data, 0, 7);
        if !(head[0] == 0x62 && head[1] == 0x72 && head[2] == 0x75 && head[3] == 0x74 && head[4]
            == 0x65 && head[5] == 0x66 && head[6] == 0x73) {
            return Err(Fault::BadMagic { of: Record::BruteFsHeader });
        }
        assert(data@.subrange(0, 7) =~= brute_magic());
        Ok(
            BruteFsHeader {
                version: data[7],
                chacha20_nonce: array_at(data, 8),
                format: Format {
                    block_size_bytes: get_u64(data, 20),
                    blocks_per_group: get_u64(data, 28),
                    group_count: get_u64(data, 36),
                },
            },
        )
    }

    /// Number of bytes of a header.
    pub fn serialized_size(&self) -> (r: usize)
        ensures
            r == GROUP_HEADER_SIZE,
    {
        44
    }

    /// Where the parts of a group lie, and what they hold right after formatting. Fails where
    /// no block is left for data.
    pub fn calculate_relative_geometry(&self) -> (r: Result<
        (GeometryLayout, BlockInitialValues),
        Fault,
    >)
        ensures
            !self.format.fits(GROUP_HEADER_SIZE as int) ==> r is Err && r->Err_0
                == Fault::GroupTooSmall,
            self.format.fits(GROUP_HEADER_SIZE as int) ==> {
                &&& r is Ok
                &&& r->Ok_0.0 == self.format.geometry(GROUP_HEADER_SIZE as int)
                &&& r->Ok_0.1.serialized_header@ == group_header_bytes(*self)
                &&& r->Ok_0.1.data_block_bitmap@ == empty_bitmap(self.format.blocks_per_group)
                &&& r->Ok_0.1.inode_bitmap_placeholder@ == empty_bitmap(
                    self.format.inodes() as u64,
                )
                &&& r->Ok_0.1.inode_table_placeholder@ == zeros(
                    self.format.inode_table_size() as nat,
                )
            },
    {
        if !self.format.fits_machine(44) {
            return Err(Fault::GroupTooSmall);
        }
        let geometry = self.format.relative_geometry(44);
        let inodes: u64 = geometry.n_inodes_in_group;
        proof {
            lemma_sizes(self.format, 44);
        }
        let serialized_header = match self.serialize() {
            Ok(b) => b,
            Err(e) => return Err(e),
        };
        let data_block_bitmap = match Bitmap::new_from_bits_count(
            self.format.blocks_per_group as usize,
        ).serialize() {
            Ok(b) => b,
            Err(e) => return Err(e),
        };
        let inode_bitmap_placeholder = match Bitmap::new_from_bits_count(
            inodes as usize,
        ).serialize() {
            Ok(b) => b,
            Err(e) => return Err(e),
        };
        let inode_table_placeholder = zero_vec((inodes * 49) as usize);
        Ok(
            (
                geometry,
                BlockInitialValues {
                    serialized_header,
                    inode_bitmap_placeholder,
                    data_block_bitmap,
                    inode_table_placeholder,
                },
            ),
        )
    }
}

/// A header that is written and read back is the same header.
pub proof fn group_header_round_trip(h: BruteFsHeader)
    ensures
        group_header_bytes(h).len() == GROUP_HEADER_SIZE,
        group_header_bytes(h).subrange(0, 7) == brute_magic(),
        is_group_header(group_header_bytes(h), h),
{
    let s = group_header_bytes(h);
    lemma_le64(h.format.block_size_bytes);
    lemma_le64(h.format.blocks_per_group);
    lemma_le64(h.format.group_count);
    assert(s.subrange(0, 7) =~= brute_magic());
    assert(s.subrange(8, 20) =~= h.chacha20_nonce@);
    assert(s.subrange(20, 28) =~= le64(h.format.block_size_bytes));
    assert(s.subrange(28, 36) =~= le64(h.format.blocks_per_group));
    assert(s.subrange(36, 44) =~= le64(h.format.group_count));
}

/// Bytes that are read as a header start with the bytes of that header.
pub proof fn group_header_bytes_round_trip(s: Seq<u8>, h: BruteFsHeader)
    requires
        s.len() >= GROUP_HEADER_SIZE,
        s.subrange(0, 7) == brute_magic(),
        is_group_header(s, h),
    ensures
        group_header_bytes(h) == s.subrange(0, GROUP_HEADER_SIZE as int),
{
    lemma_un_le64(s.subrange(20, 28));
    lemma_un_le64(s.subrange(28, 36));
    lemma_un_le64(s.subrange(36, 44));
    assert(s.subrange(0, 44) =~= s.subrange(0, 7) + s.subrange(7, 44));
    assert(group_header_bytes(h) =~= s.subrange(0, 44));
}

/// The parts of a group follow one another without gaps and stay within the group; its data
/// region holds whole blocks, fewer than the group as a whole.
pub proof fn group_geometry_is_contiguous(f: Format, header: int)
    requires
        0 < header,
        f.fits(header),
    ensures
        ({
            let g = f.geometry(header);
            &&& g.rel_header_region.start.raw == 0
            &&& g.rel_data_bitmap_region.start.raw == g.rel_header_region.end.raw + 1
            &&& g.rel_inode_bitmap_region.start.raw == g.rel_data_bitmap_region.end.raw + 1
            &&& g.rel_inode_table_region.start.raw == g.rel_inode_bitmap_region.end.raw + 1
            &&& g.rel_data_region.start.raw == g.rel_inode_table_region.end.raw + 1
            &&& g.rel_data_region.end.raw < g.group_stride
            &&& g.rel_data_region.span() + 1 == g.usable_blocks_per_group * f.block_size_bytes
            &&& g.usable_blocks_per_group < f.blocks_per_group
            &&& g.n_inodes_in_group == 8 * f.block_size_bytes
        }),
{
    lemma_sizes(f, header);
}

} // verus!
