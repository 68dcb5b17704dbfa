//! Reading and writing the parts of a formatted disk.
use crate::addr::MaybeU64;
use crate::device::Device;
use crate::error::{seen, Fault, XHFSError};
use crate::xhfs::bitmap::{bits_bytes, Bitmap};
use crate::xhfs::ds::{INode, Node, INODE_SIZE};
use crate::xhfs::image::Image;
use crate::xhfs::layout::{header_bytes, AddressSlot, GroupLayout, RegionSlot, XHFSHeader};
use crate::xhfs::XHFS;
use vstd::prelude::*;

verus! {

/// A resolved inode with its value taken by its view.
pub open spec fn seen_inode(r: Result<Option<INode>, XHFSError>) -> Result<
    Option<Node>,
    XHFSError,
> {
    match r {
        Ok(Some(n)) => Ok(Some(n@)),
        Ok(None) => Ok(None),
        Err(e) => Err(e),
    }
}

impl<D: Device> XHFS<D> {
    /// Number of bytes of the disk.
    pub(crate) fn disk_size(&self) -> (r: u64)
        requires
            self.wf(),
        ensures
            r == self.ctrl.disk().len(),
            r <= usize::MAX,
    {
        match self.ctrl.total_capacity() {
            Some(n) => n as u64,
            None => {
                proof {
                    self.ctrl.lemma_no_devices();
                }
                0
            },
        }
    }

    /// `n` bytes at `addr`, as they lie on the disk.
    pub(crate) fn read_raw(&self, addr: u64, n: u64) -> (r: Result<Vec<u8>, XHFSError>)
        requires
            self.wf(),
        ensures
            r is Ok ==> r->Ok_0@.len() == n,
            r is Ok && n > 0 ==> addr + n <= self.ctrl.disk().len(),
            self.tells(r is Ok) ==> seen(r) == self.image().raw(addr as int, n as int),
    {
        let total: u64 = self.disk_size();
        if n > 0 && (addr >= total || n > total - addr) {
            let first: u64 = if addr < total {
                total
            } else {
                addr
            };
            return Err(XHFSError::from_report(Fault::NoDevice { addr: first }));
        }
        if n == 0 {
            let out: Vec<u8> = Vec::new();
            assert(out@ =~= Seq::empty());
            return Ok(out);
        }
        match self.ctrl.raw_read(addr as usize, n as usize) {
            Ok(data) => Ok(data),
            Err(e) => Err(XHFSError::from_report(e)),
        }
    }

    /// `n` secret bytes at `addr`.
    pub(crate) fn read_clear(&self, addr: u64, n: u64) -> (r: Result<Vec<u8>, XHFSError>)
        requires
            self.wf(),
            n > 0 || addr <= usize::MAX,
        ensures
            r is Ok ==> r->Ok_0@.len() == n,
            r is Ok && n > 0 ==> addr + n <= self.ctrl.disk().len() <= usize::MAX,
            self.tells(r is Ok) ==> seen(r) == self.image().clear(addr as int, n as int),
    {
        let total: u64 = self.disk_size();
        if n > 0 && (addr >= total || n > total - addr) {
            let first: u64 = if addr < total {
                total
            } else {
                addr
            };
            return Err(XHFSError::from_report(Fault::NoDevice { addr: first }));
        }
        match self.ctrl.read(addr as usize, n as usize) {
            Ok(data) => Ok(data),
            Err(e) => Err(XHFSError::from_report(e)),
        }
    }

    /// Writes bytes as they are.
    pub(crate) fn write_raw(&mut self, addr: u64, data: &[u8]) -> (r: Result<(), XHFSError>)
        requires
            old(self).wf(),
        ensures
            Self::kept(old(self), final(self)),
            old(self).obeys(r is Ok) ==> (final(self).image(), r) == old(self).image().put_raw(
                addr as int,
                data@,
            ),
    {
        let total: u64 = self.disk_size();
        if data.len() == 0 {
            return Ok(());
        }
        if addr >= total || data.len() as u64 > total - addr {
            let first: u64 = if addr < total {
                total
            } else {
                addr
            };
            return Err(XHFSError::from_report(Fault::NoDevice { addr: first }));
        }
        match self.ctrl.raw_write(addr as usize, data) {
            Ok(()) => Ok(()),
            Err(e) => Err(XHFSError::from_report(e)),
        }
    }

    /// Writes secret bytes.
    pub(crate) fn write_clear(&mut self, addr: u64, data: &[u8]) -> (r: Result<(), XHFSError>)
        requires
            old(self).wf(),
            data@.len() > 0,
        ensures
            Self::kept(old(self), final(self)),
            old(self).obeys(r is Ok) ==> (final(self).image(), r) == old(self).image().put_clear(
                addr as int,
                data@,
            ),
    {
        let total: u64 = self.disk_size();
        if addr >= total || data.len() as u64 > total - addr {
            let first: u64 = if addr < total {
                total
            } else {
                addr
            };
            return Err(XHFSError::from_report(Fault::NoDevice { addr: first }));
        }
        match self.ctrl.write(addr as usize, data) {
            Ok(()) => Ok(()),
            Err(e) => Err(XHFSError::from_report(e)),
        }
    }
}

/// Facts on the sizes of the parts of a group.
pub proof fn lemma_format(m: Image)
    requires
        m.format.usable(),
    ensures
        m.format.stride() > 0,
        m.format.param_inode_count_per_group > 0,
        m.format.param_data_block_count_per_group > 0,
        m.format.block_size_bytes > 0,
        m.format.group_count > 0,
        m.format.data_size() >= m.format.param_data_block_count_per_group,
        m.format.data_size() >= m.format.block_size_bytes,
        m.format.data_at() < m.format.stride(),
{
    let f = m.format;
    assert(f.data_size() >= f.param_data_block_count_per_group && f.data_size()
        >= f.block_size_bytes) by (nonlinear_arith)
        requires
            f.data_size() == f.param_data_block_count_per_group * f.block_size_bytes,
            f.param_data_block_count_per_group > 0,
            f.block_size_bytes > 0,
    ;
}

/// Groups up to an addressable group are addressable.
pub proof fn lemma_addressable(m: Image, g: int, k: int)
    requires
        m.format.usable(),
        0 <= k <= g,
    ensures
        0 <= m.group_at(k) <= m.group_at(g),
        m.group_at(g + 1) == m.group_at(g) + m.format.stride(),
        m.addressable(g) ==> m.addressable(k),
        g < m.format.group_count ==> m.addressable(g),
{
    lemma_format(m);
    let s = m.format.stride();
    assert(0 <= k * s <= g * s && (g + 1) * s == g * s + s && (k + 1) * s <= (g + 1) * s)
        by (nonlinear_arith)
        requires
            0 <= k <= g,
            s > 0,
    ;
    if g < m.format.group_count {
        assert((g + 1) * s <= m.format.group_count * s) by (nonlinear_arith)
            requires
                g + 1 <= m.format.group_count,
                s > 0,
        ;
    }
}

/// The parts of an addressable group are where its layout says.
pub proof fn lemma_group(m: Image, g: int)
    requires
        m.format.usable(),
        0 <= g,
        m.addressable(g),
    ensures
        m.format.geometry().addressable(g),
        0 <= m.group_at(g),
        g <= u64::MAX,
        m.group_at(g) + m.format.stride() <= u64::MAX,
        ({
            let l = m.format.geometry().group(g);
            &&& l.g_index == g
            &&& l.data_bitmap_region.start.raw == m.data_bitmap_at(g)
            &&& l.data_bitmap_region.span() + 1 == m.format.data_bitmap_size()
            &&& l.inode_bitmap_region.start.raw == m.inode_bitmap_at(g)
            &&& l.inode_bitmap_region.span() + 1 == m.format.inode_bitmap_size()
            &&& l.inode_table_region.start.raw == m.group_at(g) + m.format.inode_table_at()
            &&& l.data_region.start.raw == m.data_at(g)
        }),
{
    lemma_format(m);
    lemma_addressable(m, g, g);
    let s = m.format.stride();
    assert(g <= g * s) by (nonlinear_arith)
        requires
            0 <= g,
            s > 0,
    ;
}

impl<D: Device> XHFS<D> {
    /// The layout of group `g`, if all of it has addresses.
    pub(crate) fn locate_group(&self, g: u64) -> (r: Option<GroupLayout>)
        requires
            self.wf(),
        ensures
            r is Some <==> self.image().addressable(g as int),
            r is Some ==> r->0 == self.geometry.group(g as int),
    {
        proof {
            lemma_format(self.image());
            lemma_addressable(self.image(), g as int, g as int);
        }
        let stride: u64 = self.geometry.group_stride;
        let end: u64 = match g.checked_mul(stride) {
            Some(o) => match o.checked_add(stride) {
                Some(e) => e,
                None => return None,
            },
            None => return None,
        };
        proof {
            lemma_group(self.image(), g as int);
        }
        GroupLayout::derive_from_group_index(g, &self.geometry)
    }

    /// The group that holds inode `inumber`, if it has a place.
    pub(crate) fn locate_inode(&self, inumber: u64) -> (r: Option<GroupLayout>)
        requires
            self.wf(),
        ensures
            r is Some <==> self.image().has_slot(inumber),
            r is Some ==> r->0 == self.geometry.group(self.image().inode_group(inumber)),
    {
        proof {
            lemma_format(self.image());
        }
        if inumber == 0 {
            return None;
        }
        self.locate_group((inumber - 1) / self.geometry.n_inodes_in_group)
    }

    /// The bitmap that a region holds.
    pub(crate) fn read_bitmap(&self, region: RegionSlot) -> (r: Result<Bitmap, XHFSError>)
        requires
            self.wf(),
            region.span() < usize::MAX,
        ensures
            self.tells(r is Ok) ==> seen(r) == self.image().bitmap(
                region.start.raw as int,
                region.span() + 1,
            ),
    {
        let slot = region.to_addr_slot();
        let raw_bitmap = match self.read_raw(slot.addr.get(), slot.capacity as u64) {
            Ok(b) => b,
            Err(e) => return Err(e),
        };
        match Bitmap::deserialize(raw_bitmap.as_slice()) {
            Ok(b) => Ok(b),
            Err(e) => Err(XHFSError::from_report(e)),
        }
    }

    /// Writes a bitmap to the start of a region.
    pub(crate) fn write_bitmap(&mut self, region: RegionSlot, bitmap: &Bitmap) -> (r: Result<
        (),
        XHFSError,
    >)
        requires
            old(self).wf(),
        ensures
            Self::kept(old(self), final(self)),
            old(self).obeys(r is Ok) ==> (final(self).image(), r) == old(self).image().put_raw(
                region.start.raw as int,
                bits_bytes(bitmap@),
            ),
    {
        match bitmap.serialize() {
            Ok(b) => self.write_raw(region.start.get(), b.as_slice()),
            Err(e) => Err(XHFSError::from_report(e)),
        }
    }

    /// Where inode `inumber` lies, if it has a place.
    pub fn resolve_inode_addr(&self, inumber: u64) -> (r: Option<AddressSlot>)
        requires
            self.wf(),
        ensures
            r is Some <==> self.image().has_slot(inumber),
            r is Some ==> r->0.addr.raw == self.image().inode_at(inumber) && r->0.capacity
                == INODE_SIZE,
    {
        let group = match self.locate_inode(inumber) {
            Some(g) => g,
            None => return None,
        };
        let ghost m = self.image();
        let ghost ni = self.static_format.param_inode_count_per_group as int;
        proof {
            lemma_format(m);
            lemma_group(m, m.inode_group(inumber));
            assert(0 <= (inumber - 1) % ni < ni);
        }
        let local: u64 = (inumber - 1) % self.geometry.n_inodes_in_group;
        let start: u64 = group.inode_table_region.start.get();
        let inode_size: usize = INode::serialized_size();
        Some(
            AddressSlot {
                addr: MaybeU64::from(start + inode_size as u64 * local),
                capacity: inode_size,
            },
        )
    }

    /// Inode `inumber`, unless it is not taken.
    pub fn resolve_inode(&self, inumber: u64) -> (r: Result<Option<INode>, XHFSError>)
        requires
            self.wf(),
        ensures
            self.tells(r is Ok) ==> seen_inode(r) == self.image().inode(inumber),
    {
        proof {
            reveal(Image::inode);
        }
        let ghost m = self.image();
        let group = match self.locate_inode(inumber) {
            Some(g) => g,
            None => return Ok(None),
        };
        let slot = match self.resolve_inode_addr(inumber) {
            Some(s) => s,
            None => return Ok(None),
        };
        proof {
            lemma_format(m);
            lemma_group(m, m.inode_group(inumber));
        }
        let bitmap = match self.read_bitmap(group.inode_bitmap_region) {
            Ok(b) => b,
            Err(e) => return Err(e),
        };
        let index: u64 = (inumber - 1) % self.geometry.n_inodes_in_group;
        match bitmap.get(index as usize) {
            Ok(true) => {},
            Ok(false) => return Ok(None),
            Err(e) => return Err(XHFSError::from_report(e)),
        }
        let raw_inode = match self.read_clear(slot.addr.get(), slot.capacity as u64) {
            Ok(b) => b,
            Err(e) => return Err(e),
        };
        match INode::deserialize(raw_inode.as_slice()) {
            Ok(inode) => Ok(Some(inode)),
            Err(e) => Err(XHFSError::from_report(e)),
        }
    }

    /// Writes an inode into its place, and then the inode bitmap of its group.
    pub(crate) fn store_inode(
        &mut self,
        inode: &INode,
        group: &GroupLayout,
        bitmap: &Bitmap,
    ) -> (r: Result<(), XHFSError>)
        requires
            old(self).wf(),
            old(self).image().has_slot(inode.inumber),
            *group == old(self).geometry.group(old(self).image().inode_group(inode.inumber)),
        ensures
            Self::kept(old(self), final(self)),
            old(self).obeys(r is Ok) ==> (final(self).image(), r) == old(self).image().store_inode(
                inode@,
                old(self).image().inode_group(inode.inumber),
                bitmap@,
            ),
    {
        let ghost m = self.image();
        proof {
            lemma_group(m, m.inode_group(inode.inumber));
        }
        let slot = match self.resolve_inode_addr(inode.inumber) {
            Some(s) => s,
            None => {
                return Err(
                    XHFSError::from_report(Fault::NoInodeSlot { inumber: inode.inumber }),
                );
            },
        };
        let bytes = match inode.serialize() {
            Ok(b) => b,
            Err(e) => return Err(XHFSError::from_report(e)),
        };
        match self.write_clear(slot.addr.get(), bytes.as_slice()) {
            Ok(()) => {},
            Err(e) => return Err(e),
        }
        self.write_bitmap(group.inode_bitmap_region, bitmap)
    }

    /// Stores an inode under its number and marks it taken.
    pub(crate) fn register_inode(&mut self, inode: &INode, overwrite: bool) -> (r: Result<
        (),
        XHFSError,
    >)
        requires
            old(self).wf(),
        ensures
            Self::kept(old(self), final(self)),
            old(self).obeys(r is Ok) ==> (final(self).image(), r) == old(self).image().register(
                inode@,
                overwrite,
            ),
    {
        proof {
            reveal(Image::register);
        }
        let ghost m = self.image();
        let group = match self.locate_inode(inode.inumber) {
            Some(g) => g,
            None => {
                return Err(XHFSError::from_report(Fault::NoGroupToRegister));
            },
        };
        proof {
            lemma_format(m);
            lemma_group(m, m.inode_group(inode.inumber));
        }
        let mut bitmap = match self.read_bitmap(group.inode_bitmap_region) {
            Ok(b) => b,
            Err(e) => return Err(e),
        };
        let index: u64 = (inode.inumber - 1) % self.geometry.n_inodes_in_group;
        let taken = match bitmap.get(index as usize) {
            Ok(t) => t,
            Err(e) => return Err(XHFSError::from_report(e)),
        };
        if !overwrite && taken {
            return Err(
                XHFSError::from_report(
                    Fault::INodeExists { inumber: inode.inumber, group: group.g_index },
                ),
            );
        }
        match bitmap.set(index as usize, true) {
            Ok(()) => {},
            Err(e) => return Err(XHFSError::from_report(e)),
        }
        self.store_inode(inode, &group, &bitmap)
    }

    /// The header at the start of the disk.
    pub fn get_header(&self) -> (r: Result<XHFSHeader, XHFSError>)
        requires
            self.wf(),
        ensures
            self.tells(r is Ok) ==> seen(r) == self.image().header(),
    {
        let raw = match self.read_raw(0, self.header_size as u64) {
            Ok(b) => b,
            Err(e) => return Err(e),
        };
        match XHFSHeader::deserialize(raw.as_slice()) {
            Ok(h) => Ok(h),
            Err(e) => Err(XHFSError::from_report(e)),
        }
    }

    /// Replaces the header at the start of the disk.
    pub fn update_header(&mut self, header: XHFSHeader) -> (r: Result<(), XHFSError>)
        requires
            old(self).wf(),
        ensures
            Self::kept(old(self), final(self)),
            old(self).obeys(r is Ok) ==> (final(self).image(), r) == old(self).image().put_raw(
                0,
                header_bytes(header@),
            ),
    {
        match header.serialize() {
            Ok(b) => self.write_raw(0, b.as_slice()),
            Err(e) => Err(XHFSError::from_report(e)),
        }
    }

    /// The inode of the root directory.
    pub fn get_root_inode(&self) -> (r: Result<INode, XHFSError>)
        requires
            self.wf(),
        ensures
            self.tells(r is Ok) ==> seen(r) == self.image().root(),
    {
        match self.resolve_inode(1) {
            Ok(Some(inode)) => Ok(inode),
            Ok(None) => Err(XHFSError::from_report(Fault::NoRoot)),
            Err(e) => Err(e),
        }
    }
}

} // verus!
