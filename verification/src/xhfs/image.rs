//! What the bytes of a formatted disk stand for.
use crate::addr::{maybe, MaybeU64};
use crate::codec::u64_at;
use crate::crypto::Cipher;
use crate::device::disk::{clear_get, clear_put, raw_get, raw_put};
use crate::error::{wrapped, Fault, XHFSError};
use crate::xhfs::bitmap::{bits_bytes, bits_parse, Bits};
use crate::xhfs::ds::{node_bytes, node_parse, Chunk, Node, INODE_SIZE};
use crate::xhfs::layout::{
    header_parse, region, validated, AddressSlot, Format, Header, RegionSlot, HEADER_SIZE,
};
use vstd::prelude::*;

verus! {

impl Format {
    /// The format is valid, and the machine can address every byte of every group.
    pub open spec fn usable(self) -> bool {
        &&& validated(self) is Ok
        &&& self.fits()
        &&& self.group_count * self.stride() <= usize::MAX
    }
}

/// A disk with the format and the cipher that it is read with.
pub struct Image {
    pub format: Format,
    pub cipher: Option<Cipher>,
    pub disk: Seq<u8>,
}

/// Where an extent lies and what comes after it.
#[derive(Debug, Clone, Copy, PartialEq, Eq, Structural)]
pub struct ExtentMetadata {
    pub full_aligned_region: RegionSlot,
    pub full_canon_region: RegionSlot,
    pub full_canon_data_slot: AddressSlot,
    pub next_extent: MaybeU64,
}

/// `n` rounded up to a multiple of `unit`.
pub open spec fn aligned(n: int, unit: int) -> int {
    blocks_for(n, unit) * unit
}

/// Number of units that `n` bytes take.
pub open spec fn blocks_for(n: int, unit: int) -> int {
    (n + unit - 1) / unit
}

impl Image {
    /// `n` bytes at `addr`, as they lie on the disk.
    pub open spec fn raw(self, addr: int, n: int) -> Result<Seq<u8>, XHFSError> {
        wrapped(raw_get(self.disk, addr, n))
    }

    /// `n` secret bytes at `addr`.
    pub open spec fn clear(self, addr: int, n: int) -> Result<Seq<u8>, XHFSError> {
        wrapped(clear_get(self.cipher, self.disk, addr, n))
    }

    /// The disk with other bytes.
    pub open spec fn with(self, disk: Seq<u8>) -> Image {
        Image { disk, ..self }
    }

    /// Writes bytes as they are.
    pub open spec fn put_raw(self, addr: int, data: Seq<u8>) -> (Image, Result<(), XHFSError>) {
        let (disk, r) = raw_put(self.disk, addr, data);
        (self.with(disk), wrapped(r))
    }

    /// Writes secret bytes.
    pub open spec fn put_clear(self, addr: int, data: Seq<u8>) -> (Image, Result<(), XHFSError>) {
        let (disk, r) = clear_put(self.cipher, self.disk, addr, data);
        (self.with(disk), wrapped(r))
    }

    /// Where group `g` starts.
    pub open spec fn group_at(self, g: int) -> int {
        g * self.format.stride()
    }

    /// Every byte of group `g` has an address.
    pub open spec fn addressable(self, g: int) -> bool {
        self.group_at(g + 1) <= u64::MAX
    }

    pub open spec fn data_bitmap_at(self, g: int) -> int {
        self.group_at(g) + self.format.data_bitmap_at()
    }

    pub open spec fn inode_bitmap_at(self, g: int) -> int {
        self.group_at(g) + self.format.inode_bitmap_at()
    }

    pub open spec fn data_at(self, g: int) -> int {
        self.group_at(g) + self.format.data_at()
    }

    /// The bitmap stored at `addr`.
    pub open spec fn bitmap(self, addr: int, size: int) -> Result<Bits, XHFSError> {
        match self.raw(addr, size) {
            Err(e) => Err(e),
            Ok(s) => wrapped(bits_parse(s)),
        }
    }

    /// Which data blocks of group `g` are taken.
    pub open spec fn data_bits(self, g: int) -> Result<Bits, XHFSError> {
        self.bitmap(self.data_bitmap_at(g), self.format.data_bitmap_size())
    }

    /// Which inodes of group `g` are taken.
    pub open spec fn inode_bits(self, g: int) -> Result<Bits, XHFSError> {
        self.bitmap(self.inode_bitmap_at(g), self.format.inode_bitmap_size())
    }

    /// The group that holds inode `n`.
    pub open spec fn inode_group(self, n: u64) -> int {
        (n - 1) / self.format.param_inode_count_per_group as int
    }

    /// The place of inode `n` in its group.
    pub open spec fn inode_index(self, n: u64) -> int {
        (n - 1) % self.format.param_inode_count_per_group as int
    }

    /// Inode number `n` has a place; zero stands for none.
    pub open spec fn has_slot(self, n: u64) -> bool {
        n != 0 && self.addressable(self.inode_group(n))
    }

    /// Where inode `n` lies.
    pub open spec fn inode_at(self, n: u64) -> int {
        self.group_at(self.inode_group(n)) + self.format.inode_table_at() + INODE_SIZE
            * self.inode_index(n)
    }

    /// Inode `n`, unless it is not taken.
    #[verifier::opaque]
    pub open spec fn inode(self, n: u64) -> Result<Option<Node>, XHFSError> {
        if !self.has_slot(n) {
            Ok(None)
        } else {
            match self.inode_bits(self.inode_group(n)) {
                Err(e) => Err(e),
                Ok(bits) => match bits.checked(self.inode_index(n)) {
                    Err(e) => Err(e),
                    Ok(false) => Ok(None),
                    Ok(true) => match self.clear(self.inode_at(n), INODE_SIZE as int) {
                        Err(e) => Err(e),
                        Ok(s) => match node_parse(s) {
                            Err(e) => Err(XHFSError::Error { err: e }),
                            Ok(node) => Ok(Some(node)),
                        },
                    },
                },
            }
        }
    }

    /// Stores an inode under its number and marks it taken.
    #[verifier::opaque]
    pub open spec fn register(self, node: Node, overwrite: bool) -> (Image, Result<(), XHFSError>) {
        let n = node.inumber;
        let g = self.inode_group(n);
        let i = self.inode_index(n);
        if !self.has_slot(n) {
            (self, Err(XHFSError::Error { err: Fault::NoGroupToRegister }))
        } else {
            match self.inode_bits(g) {
                Err(e) => (self, Err(e)),
                Ok(bits) => match bits.checked(i) {
                    Err(e) => (self, Err(e)),
                    Ok(taken) => if taken && !overwrite {
                        (self, Err(
                                XHFSError::Error {
                                    err: Fault::INodeExists { inumber: n, group: g as u64 },
                                },
                            ))
                    } else {
                        self.store_inode(node, g, bits.set(i, true))
                    },
                },
            }
        }
    }

    /// Writes an inode into its place, and then the inode bitmap of its group.
    pub open spec fn store_inode(self, node: Node, g: int, bits: Bits) -> (
        Image,
        Result<(), XHFSError>,
    ) {
        let (m, r) = self.put_clear(self.inode_at(node.inumber), node_bytes(node));
        match r {
            Err(e) => (m, Err(e)),
            Ok(()) => m.put_raw(self.inode_bitmap_at(g), bits_bytes(bits)),
        }
    }

    /// The inode of the root directory.
    pub open spec fn root(self) -> Result<Node, XHFSError> {
        match self.inode(1) {
            Err(e) => Err(e),
            Ok(None) => Err(XHFSError::Error { err: Fault::NoRoot }),
            Ok(Some(node)) => Ok(node),
        }
    }

    /// The header at the start of the disk.
    pub open spec fn header(self) -> Result<Header, XHFSError> {
        match self.raw(0, HEADER_SIZE as int) {
            Err(e) => Err(e),
            Ok(s) => wrapped(header_parse(s)),
        }
    }

    /// Where the extent at `addr` lies and what comes after it.
    pub open spec fn extent_meta(self, addr: u64) -> Result<ExtentMetadata, XHFSError> {
        match self.clear(addr as int, 16) {
            Err(e) => Err(e),
            Ok(s) => {
                let size = u64_at(s, 0);
                let room = aligned(16 + size, self.format.block_size_bytes as int);
                if addr + room > usize::MAX {
                    Err(XHFSError::Error { err: Fault::AddressOverflow })
                } else {
                    Ok(
                        ExtentMetadata {
                            full_aligned_region: region(addr, (addr + room) as u64),
                            full_canon_region: region(addr, (addr + 16 + size) as u64),
                            full_canon_data_slot: AddressSlot {
                                addr: maybe((addr + 16) as u64),
                                capacity: size as usize,
                            },
                            next_extent: maybe(u64_at(s, 8)),
                        },
                    )
                }
            },
        }
    }

    /// The extent at `addr`.
    pub open spec fn extent(self, addr: u64) -> Result<Chunk, XHFSError> {
        match self.extent_meta(addr) {
            Err(e) => Err(e),
            Ok(meta) => match self.clear(
                meta.full_canon_data_slot.addr.raw as int,
                meta.full_canon_data_slot.capacity as int,
            ) {
                Err(e) => Err(e),
                Ok(data) => Ok(Chunk { next: meta.next_extent, data }),
            },
        }
    }

    /// The data of at most `fuel` extents from `addr` on, one after the other.
    pub open spec fn chain(self, addr: MaybeU64, fuel: nat) -> Result<Seq<u8>, XHFSError>
        decreases fuel,
    {
        if addr.raw == 0 {
            Ok(Seq::empty())
        } else if fuel == 0 {
            Err(XHFSError::Error { err: Fault::ExtentLoop })
        } else {
            match self.extent(addr.raw) {
                Err(e) => Err(e),
                Ok(chunk) => match self.chain(chunk.next, (fuel - 1) as nat) {
                    Err(e) => Err(e),
                    Ok(rest) => Ok(chunk.data + rest),
                },
            }
        }
    }

    /// The content that the extents from `addr` on hold. Extents that do not overlap are
    /// fewer than the disk has bytes; a longer chain leads back into itself.
    #[verifier::opaque]
    pub open spec fn content(self, addr: MaybeU64) -> Result<Seq<u8>, XHFSError> {
        self.chain(addr, self.disk.len())
    }
}

impl Bits {
    /// Bit `i`, if there is one.
    pub open spec fn checked(self, i: int) -> Result<bool, XHFSError> {
        if i < self.len {
            Ok(self.get(i))
        } else {
            Err(
                XHFSError::Error {
                    err: Fault::BitOutOfBounds { index: i as u64, len: self.len as u64 },
                },
            )
        }
    }
}

} // verus!
