//! What volumes and their parts look like as text.
use crate::addr::{maybe, MaybeU64};
use crate::device::Device;
use crate::error::{Fault, XHFSError};
use crate::text::{decimal, hex8, push_aligned, push_decimal, push_hex8, right_aligned};
use crate::utils::{chrono_display, opt_string, u64_to_utc_datetime};
use crate::xhfs::ds::{INode, INodeKind, Node};
use crate::xhfs::image::Image;
use crate::xhfs::layout::{AddressSlot, Format, GeometryLayout, RegionSlot};
use crate::xhfs::XHFS;
use vstd::prelude::*;
use vstd::string::*;

verus! {

/// A number of bytes as `bytesize` displays it.
pub uninterp spec fn bytesize_display(n: u64) -> Seq<char>;

/// The `Display` of `bytesize::ByteSize`: a text that depends on the number of bytes alone.
#[verifier::external_body]
pub(crate) fn byte_size_text(n: u64) -> (r: String)
    ensures
        r@ == bytesize_display(n),
{
    bytesize::ByteSize(n).to_string()
}

/// A region as text: its first and last address and its size.
pub open spec fn region_text(r: RegionSlot) -> Seq<char> {
    "0x"@ + hex8(r.start.raw as nat) + " -- 0x"@ + hex8(r.end.raw as nat) + " ("@ + right_aligned(
        decimal((r.span() + 1) as nat),
        10,
        ' ',
    ) + " B)"@
}

/// The end of a slot as the end of a region.
pub open spec fn slot_region(s: AddressSlot) -> RegionSlot {
    RegionSlot {
        start: s.addr,
        end: maybe((s.addr.raw + s.capacity) as u64),
    }
}

/// A format as text.
pub open spec fn format_text(f: Format) -> Seq<char> {
    "Format Configuration:\n  Block Size:       "@ + decimal(f.block_size_bytes as nat)
        + " B\n  Blocks per Group: "@ + decimal(f.param_data_block_count_per_group as nat)
        + "\n  Total Groups:     "@ + decimal(f.group_count as nat)
}

/// A geometry as text.
pub open spec fn geometry_text(g: GeometryLayout) -> Seq<char> {
    "Geometry Layout (relative):\n  Group Stride:        "@ + decimal(g.group_stride as nat)
        + " B\n  Inodes per Group:    "@ + decimal(g.n_inodes_in_group as nat)
        + "\n  Usable Blocks/Group: "@ + decimal(g.usable_blocks_per_group as nat)
        + "\n  Header Region:       "@ + region_text(g.rel_header_region)
        + "\n  Data Bitmap Region:  "@ + region_text(g.rel_data_bitmap_region)
        + "\n  INode Bitmap Region: "@ + region_text(g.rel_inode_bitmap_region)
        + "\n  INode Table Region:  "@ + region_text(g.rel_inode_table_region)
        + "\n  Data Payload Region: "@ + region_text(g.rel_data_region)
}

/// All regions of a geometry have a size that the machine can hold.
pub open spec fn describable(g: GeometryLayout) -> bool {
    &&& g.rel_header_region.span() < usize::MAX
    &&& g.rel_data_bitmap_region.span() < usize::MAX
    &&& g.rel_inode_bitmap_region.span() < usize::MAX
    &&& g.rel_inode_table_region.span() < usize::MAX
    &&& g.rel_data_region.span() < usize::MAX
}

/// The name of a kind of inode.
pub open spec fn kind_text(k: INodeKind) -> Seq<char> {
    match k {
        INodeKind::File => "File"@,
        INodeKind::Directory => "Directory"@,
        INodeKind::Symlink => "Symlink"@,
        INodeKind::Hardlink => "Hardlink"@,
    }
}

/// An inode as text, for given texts of its times.
pub open spec fn inode_text(n: Node, created: Seq<char>, modified: Seq<char>) -> Seq<char> {
    "INode #"@ + decimal(n.inumber as nat) + "\n- Number of Links: "@ + decimal(n.nlink as nat)
        + "\n- Kind: "@ + kind_text(n.kind) + "\n"@
        + (if n.kind is Directory {
        Seq::empty()
    } else {
        "- Size: "@ + decimal(n.total_file_size as nat) + " B\n"@
    }) + "- Creation time: "@ + created + "\n- Modification time: "@ + modified
        + "\n- Immediate Extent address: "@ + decimal(n.extent_addr.raw as nat) + " (0x"@ + hex8(
        n.extent_addr.raw as nat,
    ) + ")\n"@
}

/// What is known of a volume as a whole, as text.
pub open spec fn volume_text(m: Image, version: u8, remaining: usize) -> Seq<char> {
    "XHFS version: "@ + decimal(version as nat) + "\nCapacity:  "@ + right_aligned(
        decimal(m.disk.len()),
        10,
        ' ',
    ) + " B\nRemaining: "@ + right_aligned(decimal(remaining as nat), 10, ' ') + " B\n"@
        + format_text(m.format) + "\n"@ + geometry_text(m.format.geometry()) + "\n"@
}

impl RegionSlot {
    /// This region as text.
    pub fn describe(&self) -> (r: String)
        requires
            self.span() < usize::MAX,
        ensures
            r@ == region_text(*self),
    {
        let mut out: String = "0x".to_owned();
        push_hex8(&mut out, self.start.get());
        out.append(" -- 0x");
        push_hex8(&mut out, self.end.get());
        out.append(" (");
        push_aligned(&mut out, self.to_addr_slot().capacity as u64, 10);
        out.append(" B)");
        out
    }
}

impl AddressSlot {
    /// The stretch that this slot covers as text.
    pub fn describe(&self) -> (r: String)
        requires
            self.addr.raw + self.capacity <= u64::MAX,
            self.capacity < usize::MAX,
        ensures
            r@ == region_text(slot_region(*self)),
    {
        let end: u64 = self.addr.get() + self.capacity as u64;
        RegionSlot { start: self.addr, end: MaybeU64::from(end) }.describe()
    }
}

impl Format {
    /// This format as text.
    pub fn describe(&self) -> (r: String)
        ensures
            r@ == format_text(*self),
    {
        let mut out: String = "Format Configuration:\n  Block Size:       ".to_owned();
        push_decimal(&mut out, self.block_size_bytes);
        out.append(" B\n  Blocks per Group: ");
        push_decimal(&mut out, self.param_data_block_count_per_group);
        out.append("\n  Total Groups:     ");
        push_decimal(&mut out, self.group_count);
        out
    }
}

impl GeometryLayout {
    /// This geometry as text.
    pub fn describe(&self) -> (r: String)
        requires
            describable(*self),
        ensures
            r@ == geometry_text(*self),
    {
        let mut out: String = "Geometry Layout (relative):\n  Group Stride:        ".to_owned();
        push_decimal(&mut out, self.group_stride);
        out.append(" B\n  Inodes per Group:    ");
        push_decimal(&mut out, self.n_inodes_in_group);
        out.append("\n  Usable Blocks/Group: ");
        push_decimal(&mut out, self.usable_blocks_per_group);
        out.append("\n  Header Region:       ");
        out.append(self.rel_header_region.describe().as_str());
        out.append("\n  Data Bitmap Region:  ");
        out.append(self.rel_data_bitmap_region.describe().as_str());
        out.append("\n  INode Bitmap Region: ");
        out.append(self.rel_inode_bitmap_region.describe().as_str());
        out.append("\n  INode Table Region:  ");
        out.append(self.rel_inode_table_region.describe().as_str());
        out.append("\n  Data Payload Region: ");
        out.append(self.rel_data_region.describe().as_str());
        out
    }
}

impl INodeKind {
    /// The name of this kind.
    pub fn describe(&self) -> (r: String)
        ensures
            r@ == kind_text(*self),
    {
        match self {
            INodeKind::File => "File".to_owned(),
            INodeKind::Directory => "Directory".to_owned(),
            INodeKind::Symlink => "Symlink".to_owned(),
            INodeKind::Hardlink => "Hardlink".to_owned(),
        }
    }
}

impl INode {
    /// This inode as text, with its times as given texts.
    pub fn describe_with(&self, created: &str, modified: &str) -> (r: String)
        ensures
            r@ == inode_text(self@, created@, modified@),
    {
        let mut out: String = "INode #".to_owned();
        push_decimal(&mut out, self.inumber);
        out.append("\n- Number of Links: ");
        push_decimal(&mut out, self.nlink);
        out.append("\n- Kind: ");
        out.append(self.kind.describe().as_str());
        out.append("\n");
        let ghost head = out@;
        if !matches!(self.kind, INodeKind::Directory) {
            out.append("- Size: ");
            push_decimal(&mut out, self.total_file_size);
            out.append(" B\n");
            assert(out@ =~= head + ("- Size: "@ + decimal(self.total_file_size as nat) + " B\n"@));
        } else {
            assert(out@ =~= head + Seq::<char>::empty());
        }
        out.append("- Creation time: ");
        out.append(created);
        out.append("\n- Modification time: ");
        out.append(modified);
        out.append("\n- Immediate Extent address: ");
        push_decimal(&mut out, self.extent_addr.get());
        out.append(" (0x");
        push_hex8(&mut out, self.extent_addr.get());
        out.append(")\n");
        out
    }

    /// This inode as text, unless one of its times cannot be shown.
    pub fn describe(&self) -> (r: Option<String>)
        ensures
            opt_string(r) == match (chrono_display(self.ctime as i64), chrono_display(
                self.mtime as i64,
            )) {
                (Some(c), Some(m)) => Some(inode_text(self@, c, m)),
                _ => None,
            },
    {
        match (u64_to_utc_datetime(self.ctime), u64_to_utc_datetime(self.mtime)) {
            (Some(c), Some(m)) => Some(self.describe_with(c.as_str(), m.as_str())),
            _ => None,
        }
    }
}

impl<D: Device> XHFS<D> {
    /// What is known of this volume as a whole, as text.
    pub fn format_headers_report(&self) -> (r: Result<String, XHFSError>)
        requires
            self.wf(),
        ensures
            self.tells(r is Ok) ==> match self.image().header() {
                Err(e) => r == Err::<String, XHFSError>(e),
                Ok(h) => if self.ctrl.devices().len() == 0 {
                    r == Err::<String, XHFSError>(XHFSError::Error { err: Fault::NoCapacity })
                } else {
                    match self.image().remaining() {
                        Err(e) => r == Err::<String, XHFSError>(e),
                        Ok(n) => r is Ok && r->Ok_0@ == volume_text(
                            self.image(),
                            h.version,
                            n as usize,
                        ),
                    }
                },
            },
    {
        let header = match self.get_header() {
            Ok(h) => h,
            Err(e) => return Err(e),
        };
        let capacity: usize = match self.total_capacity() {
            Ok(n) => n,
            Err(e) => return Err(e),
        };
        let remaining: usize = match self.total_remaining_capacity() {
            Ok(n) => n,
            Err(e) => return Err(e),
        };
        proof {
            lemma_describable(self.static_format);
        }
        let mut out: String = "XHFS version: ".to_owned();
        push_decimal(&mut out, header.version as u64);
        out.append("\nCapacity:  ");
        push_aligned(&mut out, capacity as u64, 10);
        out.append(" B\nRemaining: ");
        push_aligned(&mut out, remaining as u64, 10);
        out.append(" B\n");
        out.append(self.static_format.describe().as_str());
        out.append("\n");
        out.append(self.geometry.describe().as_str());
        out.append("\n");
        Ok(out)
    }

    /// Fails where the report on this volume would.
    pub fn ensure_headers(&self) -> (r: Result<(), XHFSError>)
        requires
            self.wf(),
        ensures
            self.tells(r is Ok) ==> match self.image().header() {
                Err(e) => r == Err::<(), XHFSError>(e),
                Ok(_) => if self.ctrl.devices().len() == 0 {
                    r == Err::<(), XHFSError>(XHFSError::Error { err: Fault::NoCapacity })
                } else {
                    match self.image().remaining() {
                        Err(e) => r == Err::<(), XHFSError>(e),
                        Ok(_) => r == Ok::<(), XHFSError>(()),
                    }
                },
            },
    {
        match self.format_headers_report() {
            Ok(_) => Ok(()),
            Err(e) => Err(e),
        }
    }
}

/// The regions of a usable format have sizes that the machine can hold.
proof fn lemma_describable(f: Format)
    requires
        f.usable(),
    ensures
        describable(f.geometry()),
{
}

} // verus!
