//! What the bytes of the disk stand for, and what the operations do to them.
use crate::addr::{maybe, MaybeU64};
use crate::bfs::records::{node_bytes, node_parse, INode, INodeKind, INODE_SIZE};
use crate::bfs::vector::{brute_bytes, brute_parse, compacted, no_slot, BruteHeader, Freed};
use crate::codec::u64_at;
use crate::crypto::{Cipher, KeyDerivation};
use crate::device::disk::{clear_get, clear_put, raw_get, raw_put};
use crate::error::Fault;
use crate::utils::{absolute, components, is_dot_dot, same_path};
use crate::xhfs::ds::{chunk_bytes, chunk_parse, dir_bytes, dir_parse, Chunk};
use crate::xhfs::extent::cut;
use crate::xhfs::layout::{region, AddressSlot, RegionSlot};
use crate::xhfs::mount::cipher_for;
use crate::xhfs::tree::{entry_position, last_entry, without, Entries};
use vstd::prelude::*;
use vstd::utf8::*;

verus! {

/// Number of slots for freed stretches.
pub const SLOT_COUNT: u64 = 1000;

/// Number of bytes of the header; the root inode comes right after it.
pub const BRUTE_HEADER_SIZE: u64 = 16036;

/// Whether a write may replace an entry that exists.
#[derive(Debug, Clone, Copy, PartialEq, Eq, Structural)]
pub struct WriteOption {
    pub overwrite: bool,
}

/// A disk with the cipher that it is read with.
pub struct Brute {
    pub cipher: Option<Cipher>,
    pub disk: Seq<u8>,
}

/// What is known of an entry.
pub struct BruteStat {
    pub name: Seq<char>,
    pub kind: INodeKind,
    pub size: Option<usize>,
    pub mtime: u64,
    pub ctime: u64,
}

/// The first slot that is a freed stretch of at least `wanted` bytes.
pub open spec fn first_fit(items: Seq<AddressSlot>, wanted: int, k: int) -> Option<int>
    decreases items.len() - k,
{
    if k >= items.len() {
        None
    } else if items[k].addr.raw != 0 && wanted <= items[k].capacity {
        Some(k)
    } else {
        first_fit(items, wanted, k + 1)
    }
}

/// The first slot without an address.
pub open spec fn first_empty(items: Seq<AddressSlot>, k: int) -> Option<int>
    decreases items.len() - k,
{
    if k >= items.len() {
        None
    } else if items[k].addr.raw == 0 {
        Some(k)
    } else {
        first_empty(items, k + 1)
    }
}

/// What is left of a freed stretch of which `wanted` bytes are taken.
pub open spec fn shrunk(s: AddressSlot, wanted: int) -> AddressSlot {
    if s.capacity == wanted {
        no_slot()
    } else {
        AddressSlot {
            addr: maybe((s.addr.raw + wanted) as u64),
            capacity: (s.capacity - wanted) as usize,
        }
    }
}

/// The path of the parent and the name in it that a path stands for.
pub open spec fn parent_of(path: Seq<char>) -> Result<(Seq<Seq<char>>, Seq<char>), Fault> {
    let parts = components(path);
    if parts.len() == 0 {
        if path.len() == 0 || path[0] == '/' {
            Err(Fault::MissingParent)
        } else {
            Err(Fault::MissingFilename)
        }
    } else if is_dot_dot(parts.last()) {
        Err(Fault::MissingFilename)
    } else {
        Ok((parts.drop_last(), parts.last()))
    }
}

impl Brute {
    pub open spec fn raw(self, addr: int, n: int) -> Result<Seq<u8>, Fault> {
        raw_get(self.disk, addr, n)
    }

    pub open spec fn clear(self, addr: int, n: int) -> Result<Seq<u8>, Fault> {
        clear_get(self.cipher, self.disk, addr, n)
    }

    pub open spec fn put_raw(self, addr: int, data: Seq<u8>) -> (Brute, Result<(), Fault>) {
        let (disk, r) = raw_put(self.disk, addr, data);
        (Brute { disk, ..self }, r)
    }

    pub open spec fn put_clear(self, addr: int, data: Seq<u8>) -> (Brute, Result<(), Fault>) {
        let (disk, r) = clear_put(self.cipher, self.disk, addr, data);
        (Brute { disk, ..self }, r)
    }

    /// The header.
    pub open spec fn header(self) -> Result<BruteHeader, Fault> {
        match self.raw(0, BRUTE_HEADER_SIZE as int) {
            Err(e) => Err(e),
            Ok(s) => brute_parse(s),
        }
    }

    /// Replaces the header, its list compacted.
    pub open spec fn put_header(self, h: BruteHeader) -> (Brute, Result<(), Fault>) {
        self.put_raw(
            0,
            brute_bytes(
                BruteHeader {
                    freed: Freed { items: compacted(h.freed.items), ..h.freed },
                    ..h
                },
            ),
        )
    }

    /// Takes `wanted` bytes: from the first freed stretch that is long enough, else from the
    /// part of the disk that was never used.
    pub open spec fn allocate(self, wanted: usize) -> (Brute, Result<u64, Fault>) {
        match self.header() {
            Err(e) => (self, Err(e)),
            Ok(h) => match first_fit(h.freed.items, wanted as int, 0) {
                Some(k) => {
                    let s = h.freed.items[k];
                    if s.addr.raw + wanted > u64::MAX {
                        (self, Err(Fault::AddressOverflow))
                    } else {
                        let items = h.freed.items.update(k, shrunk(s, wanted as int));
                        let (m, r) = self.put_header(
                            BruteHeader { freed: Freed { items, ..h.freed }, ..h },
                        );
                        match r {
                            Err(e) => (m, Err(e)),
                            Ok(()) => (m, Ok(s.addr.raw)),
                        }
                    }
                },
                None => {
                    let at = h.freed.global_offset;
                    let left = if at < self.disk.len() {
                        self.disk.len() - at
                    } else {
                        0
                    };
                    if left < wanted {
                        (self, Err(Fault::NoRoom { wanted: wanted as u64, remaining: left as u64 }))
                    } else if at + wanted > u64::MAX {
                        (self, Err(Fault::AddressOverflow))
                    } else {
                        let (m, r) = self.put_header(
                            BruteHeader {
                                freed: Freed { global_offset: (at + wanted) as u64, ..h.freed },
                                ..h
                            },
                        );
                        match r {
                            Err(e) => (m, Err(e)),
                            Ok(()) => (m, Ok(at)),
                        }
                    }
                },
            },
        }
    }

    /// Notes a freed stretch in the first empty slot; without one it is lost.
    pub open spec fn mark(self, slot: AddressSlot) -> (Brute, Result<(), Fault>) {
        match self.header() {
            Err(e) => (self, Err(e)),
            Ok(h) => match first_empty(h.freed.items, 0) {
                None => (self, Ok(())),
                Some(k) => self.put_header(
                    BruteHeader {
                        freed: Freed { items: h.freed.items.update(k, slot), ..h.freed },
                        ..h
                    },
                ),
            },
        }
    }

    /// The extent at `addr`.
    pub open spec fn extent(self, addr: u64) -> Result<Chunk, Fault> {
        match self.clear(addr as int, 8) {
            Err(e) => Err(e),
            Ok(s) => {
                let size = u64_at(s, 0);
                if addr + 16 + size > usize::MAX {
                    Err(Fault::AddressOverflow)
                } else {
                    match self.clear(addr as int, 16 + size) {
                        Err(e) => Err(e),
                        Ok(bytes) => chunk_parse(bytes),
                    }
                }
            },
        }
    }

    /// Where the extent at `addr` lies, and the address and size that its header gives.
    pub open spec fn extent_meta(self, addr: u64) -> Result<(RegionSlot, AddressSlot), Fault> {
        match self.clear(addr as int, 16) {
            Err(e) => Err(e),
            Ok(s) => {
                let size = u64_at(s, 0);
                if addr + 16 + size > usize::MAX {
                    Err(Fault::AddressOverflow)
                } else {
                    Ok(
                        (
                            region(addr, (addr + 16 + size) as u64),
                            AddressSlot { addr: maybe(u64_at(s, 8)), capacity: size as usize },
                        ),
                    )
                }
            },
        }
    }

    /// The regions of extents from `addr` on, at most `count` of them.
    pub open spec fn regions(self, addr: MaybeU64, count: nat) -> Result<Seq<RegionSlot>, Fault>
        decreases count,
    {
        if addr.raw == 0 || count == 0 {
            Ok(Seq::empty())
        } else {
            match self.extent_meta(addr.raw) {
                Err(e) => Err(e),
                Ok((r, s)) => match self.regions(s.addr, (count - 1) as nat) {
                    Err(e) => Err(e),
                    Ok(rest) => Ok(seq![r] + rest),
                },
            }
        }
    }

    /// The data of at most `fuel` extents from `addr` on.
    pub open spec fn chain(self, addr: MaybeU64, fuel: nat) -> Result<Seq<u8>, Fault>
        decreases fuel,
    {
        if addr.raw == 0 {
            Ok(Seq::empty())
        } else if fuel == 0 {
            Err(Fault::ExtentLoop)
        } else {
            match self.extent(addr.raw) {
                Err(e) => Err(e),
                Ok(c) => match self.chain(c.next, (fuel - 1) as nat) {
                    Err(e) => Err(e),
                    Ok(rest) => Ok(c.data + rest),
                },
            }
        }
    }

    /// The content at `addr`.
    pub open spec fn content(self, addr: MaybeU64) -> Result<Seq<u8>, Fault> {
        self.chain(addr, self.disk.len())
    }

    /// The bytes from `start` to before `end` of the content from `addr` on, the first of which
    /// stands at position `at`.
    pub open spec fn seek(self, addr: MaybeU64, at: int, start: int, end: int, fuel: nat) -> Result<
        Seq<u8>,
        Fault,
    >
        decreases fuel,
    {
        if addr.raw == 0 {
            Ok(Seq::empty())
        } else if fuel == 0 {
            Err(Fault::ExtentLoop)
        } else {
            match self.extent(addr.raw) {
                Err(e) => Err(e),
                Ok(c) => {
                    let size = c.data.len() as int;
                    if at + size > u64::MAX {
                        Err(Fault::AddressOverflow)
                    } else if at + size <= start {
                        self.seek(c.next, at + size, start, end, (fuel - 1) as nat)
                    } else if at >= end {
                        Ok(Seq::empty())
                    } else {
                        match self.seek(c.next, at + size, start, end, (fuel - 1) as nat) {
                            Err(e) => Err(e),
                            Ok(rest) => Ok(cut(c.data, at, start, end) + rest),
                        }
                    }
                },
            }
        }
    }

    /// Notes the stretches of the extents from `addr` on as freed. A stretch is counted without
    /// the header of its extent.
    pub open spec fn free_chain(self, addr: MaybeU64, fuel: nat) -> (Brute, Result<(), Fault>)
        decreases fuel,
    {
        if addr.raw == 0 {
            (self, Ok(()))
        } else if fuel == 0 {
            (self, Err(Fault::ExtentLoop))
        } else {
            match self.extent(addr.raw) {
                Err(e) => (self, Err(e)),
                Ok(c) => {
                    let (m, r) = self.mark(
                        AddressSlot { addr, capacity: c.data.len() as usize },
                    );
                    match r {
                        Err(e) => (m, Err(e)),
                        Ok(()) => m.free_chain(c.next, (fuel - 1) as nat),
                    }
                },
            }
        }
    }

    pub open spec fn free(self, addr: MaybeU64) -> (Brute, Result<(), Fault>) {
        self.free_chain(addr, self.disk.len())
    }

    /// Frees contents one after the other.
    pub open spec fn free_all(self, addrs: Seq<MaybeU64>) -> (Brute, Result<(), Fault>)
        decreases addrs.len(),
    {
        if addrs.len() == 0 {
            (self, Ok(()))
        } else {
            let (m, r) = self.free(addrs[0]);
            match r {
                Err(e) => (m, Err(e)),
                Ok(()) => m.free_all(addrs.drop_first()),
            }
        }
    }

    /// Stores a new extent.
    pub open spec fn store_chunk(self, c: Chunk) -> (Brute, Result<u64, Fault>) {
        if c.data.len() + 16 > usize::MAX {
            (self, Err(Fault::AddressOverflow))
        } else {
            let (m, r) = self.allocate((c.data.len() + 16) as usize);
            match r {
                Err(e) => (m, Err(e)),
                Ok(addr) => {
                    let (m2, w) = m.put_clear(addr as int, chunk_bytes(c));
                    match w {
                        Err(e) => (m2, Err(e)),
                        Ok(()) => (m2, Ok(addr)),
                    }
                },
            }
        }
    }

    /// Stores data in one new extent.
    pub open spec fn store(self, data: Seq<u8>) -> (Brute, Result<u64, Fault>) {
        self.store_chunk(Chunk { next: maybe(0), data })
    }

    /// Stores the entries of a directory.
    pub open spec fn store_entries(self, e: Entries) -> (Brute, Result<u64, Fault>) {
        match dir_bytes(e) {
            Err(x) => (self, Err(x)),
            Ok(bytes) => self.store(bytes),
        }
    }

    /// The inode at `addr`.
    pub open spec fn inode(self, addr: u64) -> Result<INode, Fault> {
        match self.clear(addr as int, INODE_SIZE as int) {
            Err(e) => Err(e),
            Ok(s) => node_parse(s),
        }
    }

    pub open spec fn put_inode(self, addr: u64, n: INode) -> (Brute, Result<(), Fault>) {
        self.put_clear(addr as int, node_bytes(n))
    }

    /// Takes room for an inode and writes it there.
    pub open spec fn new_inode(self, n: INode) -> (Brute, Result<u64, Fault>) {
        let (m, r) = self.allocate(INODE_SIZE as usize);
        match r {
            Err(e) => (m, Err(e)),
            Ok(addr) => {
                let (m2, w) = m.put_inode(addr, n);
                match w {
                    Err(e) => (m2, Err(e)),
                    Ok(()) => (m2, Ok(addr)),
                }
            },
        }
    }

    /// The root directory.
    pub open spec fn root(self) -> Result<(u64, INode), Fault> {
        match self.inode(BRUTE_HEADER_SIZE) {
            Err(e) => Err(e),
            Ok(n) => Ok((BRUTE_HEADER_SIZE, n)),
        }
    }

    pub open spec fn dir(self, addr: MaybeU64) -> Result<Entries, Fault> {
        match self.content(addr) {
            Err(e) => Err(e),
            Ok(s) => dir_parse(s),
        }
    }

    /// The inode with a name in a directory.
    pub open spec fn child(self, node: INode, name: Seq<char>, depth: int) -> Result<
        (u64, INode),
        Fault,
    > {
        match node.kind {
            INodeKind::Directory => match self.dir(node.extent_addr) {
                Err(e) => Err(e),
                Ok(e) => match entry_position(e, name) {
                    None => Err(Fault::PathMissing { depth: (depth + 1) as u64 }),
                    Some(i) => match self.inode(e[i].1) {
                        Err(x) => Err(x),
                        Ok(n) => Ok((e[i].1, n)),
                    },
                },
            },
            INodeKind::File => Err(Fault::FileInPath { depth: (depth + 1) as u64 }),
            INodeKind::Symlink => Err(Fault::LinkInPath { depth: (depth + 1) as u64 }),
        }
    }

    pub open spec fn walk(self, parts: Seq<Seq<char>>, k: nat) -> Result<(u64, INode), Fault>
        decreases k,
    {
        if k == 0 {
            self.root()
        } else {
            match self.walk(parts, (k - 1) as nat) {
                Err(e) => Err(e),
                Ok((_, n)) => self.child(n, parts[k - 1], k - 1),
            }
        }
    }

    /// The inode at a path.
    pub open spec fn lookup(self, path: Seq<char>) -> Result<(u64, INode), Fault> {
        self.walk(components(path), components(path).len())
    }

    /// The parent of what is at a path, and its name there.
    pub open spec fn parent(self, path: Seq<char>) -> Result<((u64, INode), Seq<char>), Fault> {
        match parent_of(path) {
            Err(e) => Err(e),
            Ok((parts, name)) => match self.walk(parts, parts.len()) {
                Err(e) => Err(e),
                Ok(p) => Ok((p, name)),
            },
        }
    }

    /// The inode at a path, symbolic links followed.
    pub open spec fn target(self, path: Seq<char>, fuel: nat) -> Result<INode, Fault>
        decreases fuel,
    {
        match self.lookup(path) {
            Err(e) => Err(e),
            Ok((_, n)) => match n.kind {
                INodeKind::Symlink => match self.content(n.extent_addr) {
                    Err(e) => Err(e),
                    Ok(s) => if !valid_utf8(s) {
                        Err(Fault::LinkNotUtf8)
                    } else if same_path(decode_utf8(s), path) {
                        Err(Fault::SymlinkToItself)
                    } else if fuel == 0 {
                        Err(Fault::LinkLoop)
                    } else {
                        self.target(decode_utf8(s), (fuel - 1) as nat)
                    },
                },
                _ => Ok(n),
            },
        }
    }

    pub open spec fn list(self, path: Seq<char>) -> Result<Entries, Fault> {
        match self.target(path, self.disk.len()) {
            Err(e) => Err(e),
            Ok(n) => if n.kind is File {
                Err(Fault::CannotListFile)
            } else {
                self.dir(n.extent_addr)
            },
        }
    }

    pub open spec fn fread(self, path: Seq<char>) -> Result<Seq<u8>, Fault> {
        match self.target(path, self.disk.len()) {
            Err(e) => Err(e),
            Ok(n) => if n.kind is Directory {
                Err(Fault::CannotReadDirectory)
            } else {
                self.content(n.extent_addr)
            },
        }
    }

    pub open spec fn fseek(self, path: Seq<char>, start: u64, end: u64) -> Result<Seq<u8>, Fault> {
        match self.target(path, self.disk.len()) {
            Err(e) => Err(e),
            Ok(n) => if n.kind is Directory {
                Err(Fault::CannotReadDirectory)
            } else {
                self.seek(n.extent_addr, 0, start as int, end as int, self.disk.len())
            },
        }
    }

    /// The address and the value of the last of the extents from `addr` on.
    pub open spec fn last_extent(self, addr: MaybeU64, fuel: nat) -> Result<
        Option<(u64, Chunk)>,
        Fault,
    >
        decreases fuel,
    {
        if addr.raw == 0 {
            Ok(None)
        } else if fuel == 0 {
            Err(Fault::ExtentLoop)
        } else {
            match self.extent(addr.raw) {
                Err(e) => Err(e),
                Ok(c) => match self.last_extent(c.next, (fuel - 1) as nat) {
                    Err(e) => Err(e),
                    Ok(Some(x)) => Ok(Some(x)),
                    Ok(None) => Ok(Some((addr.raw, c))),
                },
            }
        }
    }

    /// Stores a new extent behind the last one from `addr` on, and gives the address of the
    /// first.
    pub open spec fn append(self, addr: MaybeU64, new: Chunk) -> (Brute, Result<u64, Fault>) {
        match self.last_extent(addr, self.disk.len()) {
            Err(e) => (self, Err(e)),
            Ok(None) => self.store_chunk(new),
            Ok(Some((at, c))) => if new.data.len() + 16 > usize::MAX {
                (self, Err(Fault::AddressOverflow))
            } else {
                let (m, r) = self.allocate((new.data.len() + 16) as usize);
                match r {
                    Err(e) => (m, Err(e)),
                    Ok(id) => {
                        let (m2, r2) = m.put_clear(
                            at as int,
                            chunk_bytes(Chunk { next: maybe(id), ..c }),
                        );
                        match r2 {
                            Err(e) => (m2, Err(e)),
                            Ok(()) => {
                                let (m3, r3) = m2.put_clear(id as int, chunk_bytes(new));
                                match r3 {
                                    Err(e) => (m3, Err(e)),
                                    Ok(()) => (m3, Ok(addr.raw)),
                                }
                            },
                        }
                    },
                }
            },
        }
    }

    /// Adds data to the end of a file, links followed. The inode of the file is left as it is.
    pub open spec fn fappend(self, path: Seq<char>, data: Seq<u8>) -> (Brute, Result<(), Fault>) {
        match self.target(path, self.disk.len()) {
            Err(e) => (self, Err(e)),
            Ok(n) => if n.kind is Directory {
                (self, Err(Fault::CannotAppendDirectory))
            } else {
                let (m, r) = self.append(n.extent_addr, Chunk { next: maybe(0), data });
                match r {
                    Err(e) => (m, Err(e)),
                    Ok(_) => (m, Ok(())),
                }
            },
        }
    }

    /// Lets the inode at `addr` point to new content and frees the old content.
    pub open spec fn point(self, addr: u64, n: INode, new: u64, mtime: u64) -> (
        Brute,
        Result<(), Fault>,
    ) {
        let (m, r) = self.put_inode(addr, INode { extent_addr: maybe(new), mtime, ..n });
        match r {
            Err(e) => (m, Err(e)),
            Ok(()) => m.free(n.extent_addr),
        }
    }

    /// Stores a directory's new entries and frees the old ones.
    pub open spec fn replace_entries(self, addr: u64, n: INode, e: Entries, mtime: u64) -> (
        Brute,
        Result<(), Fault>,
    ) {
        let (m, r) = self.store_entries(e);
        match r {
            Err(x) => (m, Err(x)),
            Ok(new) => m.point(addr, n, new, mtime),
        }
    }

    /// Writes a file or a link.
    pub open spec fn blob_write(
        self,
        path: Seq<char>,
        data: Seq<u8>,
        is_symlink: bool,
        opt: WriteOption,
        now: u64,
    ) -> (Brute, Result<(), Fault>) {
        match self.parent(path) {
            Err(e) => (self, Err(e)),
            Ok(((addr, parent), name)) => match self.dir(parent.extent_addr) {
                Err(e) => (self, Err(e)),
                Ok(e) => match entry_position(e, name) {
                    Some(i) => self.overwrite(e[i].1, data, opt, now),
                    None => self.create(addr, parent, e, name, data, is_symlink, now),
                },
            },
        }
    }

    /// Replaces the content of a file or link; its noted size is left as it is.
    pub open spec fn overwrite(self, at: u64, data: Seq<u8>, opt: WriteOption, now: u64) -> (
        Brute,
        Result<(), Fault>,
    ) {
        match self.inode(at) {
            Err(e) => (self, Err(e)),
            Ok(n) => if n.kind is Directory {
                (self, Err(Fault::NotAFile))
            } else if !opt.overwrite {
                (self, Err(Fault::FileExists))
            } else {
                let (m, r) = self.store(data);
                match r {
                    Err(e) => (m, Err(e)),
                    Ok(new) => m.point(at, n, new, now),
                }
            },
        }
    }

    /// Makes a new entry in a directory.
    pub open spec fn create(
        self,
        addr: u64,
        parent: INode,
        e: Entries,
        name: Seq<char>,
        data: Seq<u8>,
        is_symlink: bool,
        now: u64,
    ) -> (Brute, Result<(), Fault>) {
        let (m, r) = self.store(data);
        match r {
            Err(x) => (m, Err(x)),
            Ok(at) => {
                let (m2, r2) = m.new_inode(
                    INode {
                        kind: if is_symlink {
                            INodeKind::Symlink
                        } else {
                            INodeKind::File
                        },
                        total_file_size: data.len() as u64,
                        extent_addr: maybe(at),
                        mtime: now,
                        ctime: now,
                    },
                );
                match r2 {
                    Err(x) => (m2, Err(x)),
                    Ok(id) => m2.replace_entries(addr, parent, e.push((name, id)), now),
                }
            },
        }
    }

    /// Makes a symbolic link to a path whose parent exists.
    pub open spec fn link(
        self,
        path: Seq<char>,
        target: Seq<char>,
        opt: WriteOption,
        now: u64,
    ) -> (Brute, Result<(), Fault>) {
        match self.parent(target) {
            Err(e) => (self, Err(e)),
            Ok(_) => self.blob_write(
                path,
                encode_utf8(absolute(components(target))),
                true,
                opt,
                now,
            ),
        }
    }

    pub open spec fn fcopy(
        self,
        src: Seq<char>,
        dest: Seq<char>,
        opt: WriteOption,
        now: u64,
    ) -> (Brute, Result<(), Fault>) {
        match self.fread(src) {
            Err(e) => (self, Err(e)),
            Ok(data) => match self.parent(dest) {
                Err(e) => (self, Err(e)),
                Ok(_) => self.blob_write(dest, data, false, opt, now),
            },
        }
    }

    /// Makes the directories that are missing on a path, from part `k` on.
    pub open spec fn mkdir_from(
        self,
        parts: Seq<Seq<char>>,
        k: int,
        at: u64,
        n: INode,
        created: bool,
        recursive: bool,
        now: u64,
    ) -> (Brute, Result<bool, Fault>)
        decreases parts.len() - k,
    {
        if k >= parts.len() {
            (self, Ok(created))
        } else if !(n.kind is Directory) {
            (self, Err(Fault::NotADirectory))
        } else {
            match self.dir(n.extent_addr) {
                Err(x) => (self, Err(x)),
                Ok(e) => match entry_position(e, parts[k]) {
                    Some(i) => match self.inode(e[i].1) {
                        Err(x) => (self, Err(x)),
                        Ok(next) => self.mkdir_from(
                            parts,
                            k + 1,
                            e[i].1,
                            next,
                            created,
                            recursive,
                            now,
                        ),
                    },
                    None => if !recursive && parts.len() > 1 {
                        (self, Err(Fault::DirectoryMissing { depth: (k + 1) as u64 }))
                    } else {
                        let new = INode {
                            kind: INodeKind::Directory,
                            total_file_size: 0,
                            extent_addr: maybe(0),
                            mtime: now,
                            ctime: now,
                        };
                        let (m, r) = self.new_inode(new);
                        match r {
                            Err(x) => (m, Err(x)),
                            Ok(id) => {
                                let (m2, r2) = m.replace_entries(
                                    at,
                                    n,
                                    e.push((parts[k], id)),
                                    now,
                                );
                                match r2 {
                                    Err(x) => (m2, Err(x)),
                                    Ok(()) => m2.mkdir_from(
                                        parts,
                                        k + 1,
                                        id,
                                        new,
                                        true,
                                        recursive,
                                        now,
                                    ),
                                }
                            },
                        }
                    },
                },
            }
        }
    }

    pub open spec fn mkdir(self, path: Seq<char>, recursive: bool, now: u64) -> (
        Brute,
        Result<bool, Fault>,
    ) {
        match self.root() {
            Err(x) => (self, Err(x)),
            Ok((at, n)) => self.mkdir_from(components(path), 0, at, n, false, recursive, now),
        }
    }

    /// Removes the entry at a path. A directory must be empty.
    pub open spec fn unlink(self, path: Seq<char>, now: u64) -> (Brute, Result<(), Fault>) {
        match self.parent(path) {
            Err(x) => (self, Err(x)),
            Ok(((addr, parent), name)) => match self.dir(parent.extent_addr) {
                Err(x) => (self, Err(x)),
                Ok(e) => match entry_position(e, name) {
                    None => (self, Err(Fault::NoSuchEntry)),
                    Some(i) => match self.inode(e[i].1) {
                        Err(x) => (self, Err(x)),
                        Ok(n) => {
                            let (m, r) = self.clear_out(n);
                            match r {
                                Err(x) => (m, Err(x)),
                                Ok(garbage) => m.unlink_entry(
                                    addr,
                                    parent,
                                    e.remove(i),
                                    e[i].1,
                                    garbage,
                                    now,
                                ),
                            }
                        },
                    },
                },
            },
        }
    }

    /// Frees the content of a file or link at once. The content of a directory, which must be
    /// empty, is to be freed later: its address is given.
    pub open spec fn clear_out(self, n: INode) -> (Brute, Result<MaybeU64, Fault>) {
        if n.kind is Directory {
            match self.dir(n.extent_addr) {
                Err(x) => (self, Err(x)),
                Ok(e) => if e.len() > 0 {
                    (self, Err(Fault::DirectoryNotEmpty))
                } else {
                    (self, Ok(n.extent_addr))
                },
            }
        } else {
            let (m, r) = self.free(n.extent_addr);
            match r {
                Err(x) => (m, Err(x)),
                Ok(()) => (m, Ok(maybe(0))),
            }
        }
    }

    /// Writes the entries that are left, and frees the inode and the contents that are no longer
    /// needed.
    pub open spec fn unlink_entry(
        self,
        addr: u64,
        parent: INode,
        rest: Entries,
        id: u64,
        garbage: MaybeU64,
        now: u64,
    ) -> (Brute, Result<(), Fault>) {
        let (m, r) = self.store_entries(rest);
        match r {
            Err(x) => (m, Err(x)),
            Ok(new) => {
                let (m2, r2) = m.put_inode(
                    addr,
                    INode { extent_addr: maybe(new), mtime: now, ..parent },
                );
                match r2 {
                    Err(x) => (m2, Err(x)),
                    Ok(()) => {
                        let (m3, r3) = m2.mark(
                            AddressSlot { addr: maybe(id), capacity: INODE_SIZE as usize },
                        );
                        match r3 {
                            Err(x) => (m3, Err(x)),
                            Ok(()) => m3.free_all(seq![garbage, parent.extent_addr]),
                        }
                    },
                }
            },
        }
    }

    /// Gives an entry another name or another parent.
    pub open spec fn fmove(self, src: Seq<char>, dest: Seq<char>) -> (Brute, Result<(), Fault>) {
        match self.parent(src) {
            Err(x) => (self, Err(x)),
            Ok(((pa, from), src_name)) => match self.parent(dest) {
                Err(x) => (self, Err(x)),
                Ok(((pb, to), dst_name)) => match self.content(from.extent_addr) {
                    Err(x) => (self, Err(x)),
                    Ok(a) => match self.content(to.extent_addr) {
                        Err(x) => (self, Err(x)),
                        Ok(b) => match dir_parse(a) {
                            Err(x) => (self, Err(x)),
                            Ok(ea) => if pa == pb {
                                self.rename(pa, from, ea, src_name, dst_name)
                            } else {
                                match dir_parse(b) {
                                    Err(x) => (self, Err(x)),
                                    Ok(eb) => self.transfer(
                                        pa,
                                        from,
                                        ea,
                                        src_name,
                                        pb,
                                        to,
                                        eb,
                                        dst_name,
                                    ),
                                }
                            },
                        },
                    },
                },
            },
        }
    }

    pub open spec fn rename(
        self,
        addr: u64,
        n: INode,
        e: Entries,
        src_name: Seq<char>,
        dst_name: Seq<char>,
    ) -> (Brute, Result<(), Fault>) {
        if entry_position(e, dst_name) is Some {
            (self, Err(Fault::DestinationExists))
        } else {
            match last_entry(e, src_name) {
                None => (self, Err(Fault::NoSource)),
                Some(id) => self.replace_entries(
                    addr,
                    n,
                    without(e, src_name).push((dst_name, id)),
                    n.mtime,
                ),
            }
        }
    }

    pub open spec fn transfer(
        self,
        pa: u64,
        from: INode,
        ea: Entries,
        src_name: Seq<char>,
        pb: u64,
        to: INode,
        eb: Entries,
        dst_name: Seq<char>,
    ) -> (Brute, Result<(), Fault>) {
        if entry_position(eb, dst_name) is Some {
            (self, Err(Fault::DestinationExists))
        } else {
            match last_entry(ea, src_name) {
                None => (self, Err(Fault::NoSource)),
                Some(id) => match dir_bytes(without(ea, src_name)) {
                    Err(x) => (self, Err(x)),
                    Ok(ba) => match dir_bytes(eb.push((dst_name, id))) {
                        Err(x) => (self, Err(x)),
                        Ok(bb) => self.commit_transfer(pa, from, ba, pb, to, bb),
                    },
                },
            }
        }
    }

    /// Stores the entries of both directories, lets the directories point to them and frees the
    /// old ones.
    pub open spec fn commit_transfer(
        self,
        pa: u64,
        from: INode,
        ba: Seq<u8>,
        pb: u64,
        to: INode,
        bb: Seq<u8>,
    ) -> (Brute, Result<(), Fault>) {
        let (m1, r1) = self.store(ba);
        match r1 {
            Err(x) => (m1, Err(x)),
            Ok(a) => {
                let (m2, r2) = m1.store(bb);
                match r2 {
                    Err(x) => (m2, Err(x)),
                    Ok(b) => {
                        let (m3, r3) = m2.put_inode(
                            pa,
                            INode { extent_addr: maybe(a), ..from },
                        );
                        match r3 {
                            Err(x) => (m3, Err(x)),
                            Ok(()) => {
                                let (m4, r4) = m3.put_inode(
                                    pb,
                                    INode { extent_addr: maybe(b), ..to },
                                );
                                match r4 {
                                    Err(x) => (m4, Err(x)),
                                    Ok(()) => m4.free_all(
                                        seq![from.extent_addr, to.extent_addr],
                                    ),
                                }
                            },
                        }
                    },
                }
            },
        }
    }

    /// What is known of the entry at a path; nothing if there is none.
    pub open spec fn stats(self, path: Seq<char>) -> Result<Option<BruteStat>, Fault> {
        let parts = components(path);
        if parts.len() == 0 {
            match self.root() {
                Err(x) => Err(x),
                Ok((_, n)) => Ok(
                    Some(
                        BruteStat {
                            name: seq!['/'],
                            kind: n.kind,
                            size: None,
                            mtime: n.mtime,
                            ctime: n.ctime,
                        },
                    ),
                ),
            }
        } else {
            match self.lookup(path) {
                Err(_) => Ok(None),
                Ok((_, n)) => Ok(
                    Some(
                        BruteStat {
                            name: parts.last(),
                            kind: n.kind,
                            size: if n.kind is Directory {
                                None
                            } else {
                                Some(n.total_file_size as usize)
                            },
                            mtime: n.mtime,
                            ctime: n.ctime,
                        },
                    ),
                ),
            }
        }
    }
}

/// The volume on a disk: its header and its root inode must be readable.
pub open spec fn brute_mounted(
    disk: Seq<u8>,
    cipher: Option<Cipher>,
    password: Option<Seq<char>>,
    kd: KeyDerivation,
) -> Result<Brute, Fault> {
    match (Brute { cipher, disk }).header() {
        Err(e) => Err(e),
        Ok(h) => {
            let m = Brute { cipher: cipher_for(password, h.nonce, kd, cipher), disk };
            match m.root() {
                Err(e) => Err(e),
                Ok(_) => Ok(m),
            }
        },
    }
}

/// The header that a fresh disk is given.
pub open spec fn brute_fresh_header(nonce: Seq<u8>) -> BruteHeader {
    BruteHeader {
        version: 1,
        freed: Freed {
            global_offset: (BRUTE_HEADER_SIZE + INODE_SIZE) as u64,
            items: Seq::new(SLOT_COUNT as nat, |i: int| no_slot()),
        },
        nonce,
    }
}

/// The volume that formatting makes of a disk.
pub open spec fn brute_formatted(
    disk: Seq<u8>,
    cipher: Option<Cipher>,
    password: Option<Seq<char>>,
    kd: KeyDerivation,
    nonce: Seq<u8>,
    now: u64,
) -> Result<Brute, Fault> {
    let c = cipher_for(password, nonce, kd, cipher);
    let (m1, r1) = (Brute { cipher: c, disk }).put_raw(0, brute_bytes(brute_fresh_header(nonce)));
    match r1 {
        Err(e) => Err(e),
        Ok(()) => {
            let (m2, r2) = m1.put_inode(
                BRUTE_HEADER_SIZE,
                INode {
                    kind: INodeKind::Directory,
                    total_file_size: 0,
                    extent_addr: maybe(0),
                    mtime: now,
                    ctime: now,
                },
            );
            match r2 {
                Err(e) => Err(e),
                Ok(()) => brute_mounted(m2.disk, c, password, kd),
            }
        },
    }
}

} // verus!
