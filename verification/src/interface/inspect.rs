//! Looking at the parts of a volume.
use crate::addr::{maybe, MaybeU64};
use crate::device::disk::{clear_get, raw_get};
use crate::device::Device;
use crate::error::{seen, wrapped, Fault, XHFSError};
use crate::interface::number::{hex_rows, hex_view, InputFault};
use crate::xhfs::bitmap::{Bitmap, Bits};
use crate::xhfs::blocks::{count_bits, runs_count_bits, sum_runs};
use crate::xhfs::ds::{INode, Node};
use crate::xhfs::extent::metas;
use crate::xhfs::image::{ExtentMetadata, Image};
use crate::xhfs::layout::{Format, GeometryLayout, GroupLayout, RegionSlot};
use crate::xhfs::mount::accepted;
use crate::xhfs::volume::{lemma_addressable, lemma_format, lemma_group};
use crate::xhfs::XHFS;
use vstd::prelude::*;
use vstd::string::*;

verus! {

/// The entry to look at.
#[derive(Debug, Clone, PartialEq, Eq)]
pub struct InodeInspect {
    pub path: String,
}

/// The extents to look at: from an address on, up to a number.
#[derive(Debug, Clone, Copy, PartialEq, Eq, Structural)]
pub struct ExtentInspect {
    pub address: u64,
    pub max_follow: u32,
}

/// The bytes to copy out.
#[derive(Debug, Clone, Copy, PartialEq, Eq, Structural)]
pub struct DumpBlock {
    pub start_address: u64,
    pub end_address: u64,
    pub decrypt: bool,
}

/// The bytes to show.
#[derive(Debug, Clone, Copy, PartialEq, Eq, Structural)]
pub struct ViewBlock {
    pub start_address: u64,
    pub end_address: u64,
    pub decrypt: bool,
    pub columns: usize,
}

/// The groups to show, counted from one.
#[derive(Debug, Clone, Copy, PartialEq, Eq, Structural)]
pub struct ViewMap {
    pub start_group: u64,
    pub end_group: u64,
}

/// What to look at.
#[derive(Debug, Clone, PartialEq, Eq)]
pub enum InspectSubcommands {
    Inode(InodeInspect),
    Extent(ExtentInspect),
    Dump(DumpBlock),
    View(ViewBlock),
    Groups(ViewMap),
}

/// Reason for which nothing can be shown.
#[derive(Debug, Clone, Copy, PartialEq, Eq, Structural)]
pub enum InspectFault {
    Volume { err: XHFSError },
    Input { err: InputFault },
}

/// What a group holds.
pub struct GroupUsage {
    pub index: u64,
    pub offset: u64,
    pub inode_table: RegionSlot,
    pub inode_bitmap: Bitmap,
    pub data: RegionSlot,
    pub data_bitmap: Bitmap,
}

/// The value of what a group holds.
pub struct Usage {
    pub index: int,
    pub offset: int,
    pub inode_table: RegionSlot,
    pub inode_bits: Bits,
    pub data: RegionSlot,
    pub data_bits: Bits,
}

impl View for GroupUsage {
    type V = Usage;

    open spec fn view(&self) -> Usage {
        Usage {
            index: self.index as int,
            offset: self.offset as int,
            inode_table: self.inode_table,
            inode_bits: self.inode_bitmap@,
            data: self.data,
            data_bits: self.data_bitmap@,
        }
    }
}

/// The values of what groups hold.
pub open spec fn usages(v: Seq<GroupUsage>) -> Seq<Usage> {
    Seq::new(v.len(), |i: int| v[i]@)
}

/// What is to be shown.
pub enum InspectReply {
    Inode { group: u64, inode: INode },
    Extents(Vec<ExtentMetadata>),
    Bytes(Vec<u8>),
    Text(String),
    Groups(Vec<GroupUsage>),
}

/// The value of what is to be shown.
pub enum Shown {
    Inode { group: int, inode: Node },
    Extents(Seq<ExtentMetadata>),
    Bytes(Seq<u8>),
    Text(Seq<char>),
    Groups(Seq<Usage>),
}

impl View for InspectReply {
    type V = Shown;

    open spec fn view(&self) -> Shown {
        match self {
            InspectReply::Inode { group, inode } => Shown::Inode {
                group: *group as int,
                inode: inode@,
            },
            InspectReply::Extents(v) => Shown::Extents(v@),
            InspectReply::Bytes(v) => Shown::Bytes(v@),
            InspectReply::Text(s) => Shown::Text(s@),
            InspectReply::Groups(v) => Shown::Groups(usages(v@)),
        }
    }
}

/// A result with its error as a fault of the volume.
pub open spec fn of_volume<T>(r: Result<T, XHFSError>) -> Result<T, InspectFault> {
    match r {
        Ok(t) => Ok(t),
        Err(err) => Err(InspectFault::Volume { err }),
    }
}

impl Image {
    /// The entry at a path and the group of its inode.
    pub open spec fn inspect_inode(self, path: Seq<char>) -> Result<Shown, XHFSError> {
        match self.lookup(path) {
            Err(e) => Err(e),
            Ok(n) => if self.has_slot(n.inumber) {
                Ok(Shown::Inode { group: self.inode_group(n.inumber), inode: n })
            } else {
                Err(XHFSError::Error { err: Fault::NoInodeSlot { inumber: n.inumber } })
            },
        }
    }

    /// The bytes between two addresses; none if they are swapped.
    pub open spec fn block(self, start: u64, end: u64, decrypt: bool) -> Result<
        Seq<u8>,
        XHFSError,
    > {
        let size = if start < end {
            end - start
        } else {
            0
        };
        if start > usize::MAX || size > usize::MAX {
            Err(XHFSError::Error { err: Fault::AddressOverflow })
        } else if decrypt {
            wrapped(clear_get(self.cipher, self.disk, start as int, size))
        } else {
            wrapped(raw_get(self.disk, start as int, size))
        }
    }

    /// What a group that is laid out by `f` from `offset` on holds.
    pub open spec fn group_usage(self, f: Format, index: int, offset: int) -> Result<
        Usage,
        XHFSError,
    > {
        let g = f.geometry();
        match self.bitmap(offset + f.inode_bitmap_at(), f.inode_bitmap_size()) {
            Err(e) => Err(e),
            Ok(inode_bits) => match self.bitmap(
                offset + f.data_bitmap_at(),
                f.data_bitmap_size(),
            ) {
                Err(e) => Err(e),
                Ok(data_bits) => Ok(
                    Usage {
                        index,
                        offset,
                        inode_table: g.rel_inode_table_region.moved(offset),
                        inode_bits,
                        data: g.rel_data_region.moved(offset),
                        data_bits,
                    },
                ),
            },
        }
    }

    /// What `n` groups hold, numbered from `start` and taken from the start of the disk on.
    pub open spec fn group_usages(self, f: Format, start: int, n: nat) -> Result<
        Seq<Usage>,
        XHFSError,
    >
        decreases n,
    {
        if n == 0 {
            Ok(Seq::empty())
        } else {
            match self.group_usages(f, start, (n - 1) as nat) {
                Err(e) => Err(e),
                Ok(before) => match self.group_usage(f, start + n - 1, (n - 1) * f.stride()) {
                    Err(e) => Err(e),
                    Ok(u) => Ok(before.push(u)),
                },
            }
        }
    }

    /// How many groups are shown for a wished range, and the first of them.
    pub open spec fn shown_groups(f: Format, start_group: u64, end_group: u64) -> (int, nat) {
        let start = if start_group == 0 {
            0
        } else {
            start_group - 1
        };
        let wished = if end_group == 0 {
            0
        } else {
            end_group - 1
        };
        let end = if wished < f.group_count - 1 {
            wished
        } else {
            f.group_count - 1
        };
        (
            start,
            if start <= end {
                (end - start + 1) as nat
            } else {
                0
            },
        )
    }

    /// What the groups of a wished range hold, by the format in the header.
    pub open spec fn inspect_map(self, start_group: u64, end_group: u64) -> Result<
        Seq<Usage>,
        XHFSError,
    > {
        match self.header() {
            Err(e) => Err(e),
            Ok(h) => match accepted(h.format) {
                Err(e) => Err(e),
                Ok(f) => {
                    let (start, n) = Image::shown_groups(f, start_group, end_group);
                    self.group_usages(f, start, n)
                },
            },
        }
    }

    /// What is to be shown.
    pub open spec fn inspect(self, c: InspectSubcommands) -> Result<Shown, InspectFault> {
        match c {
            InspectSubcommands::Inode(i) => of_volume(self.inspect_inode(i.path@)),
            InspectSubcommands::Extent(e) => match metas(
                self,
                maybe(e.address),
                e.max_follow as nat,
            ) {
                Err(err) => Err(InspectFault::Volume { err }),
                Ok(v) => Ok(Shown::Extents(v)),
            },
            InspectSubcommands::Dump(d) => match self.block(
                d.start_address,
                d.end_address,
                d.decrypt,
            ) {
                Err(err) => Err(InspectFault::Volume { err }),
                Ok(v) => Ok(Shown::Bytes(v)),
            },
            InspectSubcommands::View(v) => match self.block(
                v.start_address,
                v.end_address,
                v.decrypt,
            ) {
                Err(err) => Err(InspectFault::Volume { err }),
                Ok(data) => if v.columns == 0 {
                    Err(InspectFault::Input { err: InputFault::NoColumns })
                } else {
                    Ok(Shown::Text(hex_rows(data, v.columns as int, 0)))
                },
            },
            InspectSubcommands::Groups(v) => match self.inspect_map(v.start_group, v.end_group) {
                Err(err) => Err(InspectFault::Volume { err }),
                Ok(u) => Ok(Shown::Groups(u)),
            },
        }
    }
}

/// Number of set bits of a bitmap.
pub fn used_bits(bitmap: &Bitmap) -> (r: u64)
    ensures
        r == count_bits(bitmap@.raw, true, bitmap@.len),
{
    let _n: usize = bitmap.len();
    let taken = bitmap.runs_of(true, None);
    proof {
        runs_count_bits(bitmap@.raw, true, bitmap@.len);
    }
    sum_runs(&taken, Ghost(bitmap@.raw), Ghost(true), Ghost(bitmap@.len))
}

/// Usages that fail early fail the same way later.
proof fn lemma_usages_err(m: Image, f: Format, start: int, a: nat, b: nat)
    requires
        a <= b,
        m.group_usages(f, start, a) is Err,
    ensures
        m.group_usages(f, start, b) == m.group_usages(f, start, a),
    decreases b,
{
    if a < b {
        lemma_usages_err(m, f, start, a, (b - 1) as nat);
    }
}

impl<D: Device> XHFS<D> {
    /// The bytes between two addresses; none if they are swapped.
    fn read_block(&self, start: u64, end: u64, decrypt: bool) -> (r: Result<Vec<u8>, XHFSError>)
        requires
            self.wf(),
        ensures
            self.tells(r is Ok) ==> seen(r) == self.image().block(start, end, decrypt),
    {
        let size: u64 = end.saturating_sub(start);
        if start > usize::MAX as u64 || size > usize::MAX as u64 {
            return Err(XHFSError::from_report(Fault::AddressOverflow));
        }
        let read = if decrypt {
            self.ctrl.read(start as usize, size as usize)
        } else {
            self.ctrl.raw_read(start as usize, size as usize)
        };
        match read {
            Ok(v) => Ok(v),
            Err(e) => Err(XHFSError::from_report(e)),
        }
    }

    /// What a group holds.
    fn usage_at(&self, f: &Format, geometry: &GeometryLayout, index: u64, group: u64) -> (r: Result<
        GroupUsage,
        XHFSError,
    >)
        requires
            self.wf(),
            f.usable(),
            *geometry == f.geometry(),
            group < f.group_count,
        ensures
            self.tells(r is Ok) ==> seen(r) == self.image().group_usage(
                *f,
                index as int,
                group * f.stride(),
            ),
    {
        let ghost m = Image { format: *f, cipher: None, disk: Seq::empty() };
        proof {
            lemma_format(m);
            lemma_addressable(m, group as int, group as int);
            lemma_group(m, group as int);
        }
        let layout = match GroupLayout::derive_from_group_index(group, geometry) {
            Some(l) => l,
            None => return Err(XHFSError::from_report(Fault::FormatTooLarge)),
        };
        let inode_bitmap = match self.read_bitmap(layout.inode_bitmap_region) {
            Ok(b) => b,
            Err(e) => return Err(e),
        };
        let data_bitmap = match self.read_bitmap(layout.data_bitmap_region) {
            Ok(b) => b,
            Err(e) => return Err(e),
        };
        Ok(
            GroupUsage {
                index,
                offset: layout.g_offset,
                inode_table: layout.inode_table_region,
                inode_bitmap,
                data: layout.data_region,
                data_bitmap,
            },
        )
    }

    /// What the groups of a wished range hold.
    fn usage_map(&self, start_group: u64, end_group: u64) -> (r: Result<
        Vec<GroupUsage>,
        XHFSError,
    >)
        requires
            self.wf(),
        ensures
            self.tells(r is Ok) ==> match r {
                Ok(v) => self.image().inspect_map(start_group, end_group) == Ok::<_, XHFSError>(
                    usages(v@),
                ),
                Err(e) => self.image().inspect_map(start_group, end_group) == Err::<
                    Seq<Usage>,
                    _,
                >(e),
            },
    {
        let ghost m = self.image();
        let header = match self.get_header() {
            Ok(h) => h,
            Err(e) => return Err(e),
        };
        let f = match header.format.accept() {
            Ok(f) => f,
            Err(e) => return Err(e),
        };
        let (geometry, _) = match header.calculate_relative_geometry() {
            Ok(g) => g,
            Err(e) => return Err(XHFSError::from_report(e)),
        };
        proof {
            lemma_format(Image { format: f, cipher: None, disk: Seq::empty() });
        }
        let start: u64 = start_group.saturating_sub(1);
        let wished: u64 = end_group.saturating_sub(1);
        let end: u64 = if wished < f.group_count - 1 {
            wished
        } else {
            f.group_count - 1
        };
        let n: u64 = if start <= end {
            end - start + 1
        } else {
            0
        };
        let mut out: Vec<GroupUsage> = Vec::new();
        let mut k: u64 = 0;
        assert(usages(out@) =~= Seq::empty());
        while k < n
            invariant
                k <= n,
                n <= f.group_count - start || n == 0,
                self.wf(),
                m == self.image(),
                f.usable(),
                geometry == f.geometry(),
                self.tells(true) ==> m.inspect_map(start_group, end_group) == m.group_usages(
                    f,
                    start as int,
                    n as nat,
                ),
                self.tells(true) ==> m.group_usages(f, start as int, k as nat) == Ok::<_, XHFSError>(
                    usages(out@),
                ),
            decreases n - k,
        {
            let ghost had = usages(out@);
            match self.usage_at(&f, &geometry, start + k, k) {
                Ok(u) => {
                    out.push(u);
                    assert(usages(out@) =~= had.push(u@));
                },
                Err(e) => {
                    proof {
                        if self.tells(false) {
                            lemma_usages_err(m, f, start as int, (k + 1) as nat, n as nat);
                        }
                    }
                    return Err(e);
                },
            }
            k = k + 1;
        }
        Ok(out)
    }
}

impl InspectSubcommands {
    /// What is to be shown.
    pub fn run<D: Device>(&self, xhfs: &XHFS<D>) -> (r: Result<InspectReply, InspectFault>)
        requires
            xhfs.wf(),
            self is View ==> self->View_0.columns <= usize::MAX / 3,
        ensures
            xhfs.tells(r is Ok) ==> seen(r) == xhfs.image().inspect(*self),
    {
        match self {
            InspectSubcommands::Inode(i) => {
                let inode = match xhfs.resolve_path(i.path.as_str()) {
                    Ok(n) => n,
                    Err(err) => return Err(InspectFault::Volume { err }),
                };
                match xhfs.locate_inode(inode.inumber) {
                    Some(group) => {
                        proof {
                            lemma_group(xhfs.image(), xhfs.image().inode_group(inode.inumber));
                        }
                        Ok(InspectReply::Inode { group: group.g_index, inode })
                    },
                    None => Err(
                        InspectFault::Volume {
                            err: XHFSError::from_report(
                                Fault::NoInodeSlot { inumber: inode.inumber },
                            ),
                        },
                    ),
                }
            },
            InspectSubcommands::Extent(e) => match xhfs.find_full_extent_metadata(
                MaybeU64::from(e.address),
                Some(e.max_follow),
            ) {
                Ok(v) => Ok(InspectReply::Extents(v)),
                Err(err) => Err(InspectFault::Volume { err }),
            },
            InspectSubcommands::Dump(d) => match xhfs.read_block(
                d.start_address,
                d.end_address,
                d.decrypt,
            ) {
                Ok(v) => Ok(InspectReply::Bytes(v)),
                Err(err) => Err(InspectFault::Volume { err }),
            },
            InspectSubcommands::View(v) => match xhfs.read_block(
                v.start_address,
                v.end_address,
                v.decrypt,
            ) {
                Ok(data) => match hex_view(data.as_slice(), v.columns) {
                    Ok(text) => Ok(InspectReply::Text(text)),
                    Err(err) => Err(InspectFault::Input { err }),
                },
                Err(err) => Err(InspectFault::Volume { err }),
            },
            InspectSubcommands::Groups(v) => match xhfs.usage_map(v.start_group, v.end_group) {
                Ok(u) => Ok(InspectReply::Groups(u)),
                Err(err) => Err(InspectFault::Volume { err }),
            },
        }
    }
}

} // verus!
