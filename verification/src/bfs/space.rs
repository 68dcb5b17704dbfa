//! Reading and writing the disk, its header and its chains of extents.
use crate::addr::MaybeU64;
use crate::bfs::image::{
    brute_fresh_header, brute_mounted, brute_formatted, first_empty, first_fit, Brute, SLOT_COUNT,
};
use crate::bfs::records::{INode, INodeKind};
use crate::bfs::vector::{no_slot, AddressVector, BruteFsHeader, BruteHeader, Freed};
use crate::bfs::BruteFS;
use crate::codec::{get_u64, push_bytes, zeros};
use crate::crypto::{Crypto, KeyDerivation};
use crate::device::disk::Controller;
use crate::device::Device;
use crate::error::{seen, Fault};
use crate::xhfs::ds::{Chunk, Extent};
use crate::xhfs::extent::cut;
use crate::xhfs::layout::{AddressSlot, RegionSlot};
use crate::xhfs::mount::{opt_text, password_fits};
use vstd::prelude::*;

verus! {

/// The slots that hold an address.
pub open spec fn used_slots(items: Seq<AddressSlot>) -> Seq<AddressSlot>
    decreases items.len(),
{
    if items.len() == 0 {
        Seq::empty()
    } else if items.last().addr.raw != 0 {
        used_slots(items.drop_last()).push(items.last())
    } else {
        used_slots(items.drop_last())
    }
}

/// True for a freed stretch of at least `wanted` bytes.
fn slot_fits(slot: &AddressSlot, wanted: usize) -> (r: bool)
    ensures
        r == (slot.addr.raw != 0 && wanted <= slot.capacity),
{
    slot.addr.is_some() && wanted <= slot.capacity
}

impl<D: Device> BruteFS<D> {
    /// Number of bytes of the disk.
    pub(crate) fn disk_size(&self) -> (r: u64)
        requires
            self.wf(),
        ensures
            r == self.ctrl.disk().len(),
            r <= usize::MAX,
    {
        match self.ctrl.total_capacity() {
            Some(n) => n as u64,
            None => {
                proof {
                    self.ctrl.lemma_no_devices();
                }
                0
            },
        }
    }

    /// Number of bytes of the disk, unless there is no device.
    pub fn total_capacity(&self) -> (r: Result<usize, Fault>)
        requires
            self.wf(),
        ensures
            match r {
                Ok(n) => self.ctrl.devices().len() > 0 && n == self.ctrl.disk().len(),
                Err(e) => self.ctrl.devices().len() == 0 && e == Fault::NotReady,
            },
    {
        match self.ctrl.total_capacity() {
            Some(n) => Ok(n),
            None => Err(Fault::NotReady),
        }
    }

    /// `n` secret bytes at `addr`.
    pub(crate) fn read_clear(&self, addr: u64, n: u64) -> (r: Result<Vec<u8>, Fault>)
        requires
            self.wf(),
            n > 0,
        ensures
            r is Ok ==> r->Ok_0@.len() == n,
            r is Ok ==> addr + n <= self.ctrl.disk().len() <= usize::MAX,
            self.tells(r is Ok) ==> seen(r) == self.image().clear(addr as int, n as int),
    {
        let total: u64 = self.disk_size();
        if addr >= total || n > total - addr {
            let first: u64 = if addr < total {
                total
            } else {
                addr
            };
            return Err(Fault::NoDevice { addr: first });
        }
        self.ctrl.read(addr as usize, n as usize)
    }

    /// Writes secret bytes.
    pub(crate) fn write_clear(&mut self, addr: u64, data: &[u8]) -> (r: Result<(), Fault>)
        requires
            old(self).wf(),
            data@.len() > 0,
        ensures
            Self::kept(old(self), final(self)),
            old(self).obeys(r is Ok) ==> (final(self).image(), r) == old(self).image().put_clear(
                addr as int,
                data@,
            ),
    {
        let total: u64 = self.disk_size();
        if addr >= total || data.len() as u64 > total - addr {
            let first: u64 = if addr < total {
                total
            } else {
                addr
            };
            return Err(Fault::NoDevice { addr: first });
        }
        self.ctrl.write(addr as usize, data)
    }

    /// A header with empty slots and without a nonce.
    fn header_template() -> (r: BruteFsHeader)
        ensures
            r@ == (BruteHeader {
                version: 1,
                freed: Freed {
                    global_offset: 0,
                    items: Seq::new(SLOT_COUNT as nat, |i: int| no_slot()),
                },
                nonce: zeros(12),
            }),
    {
        let r = BruteFsHeader {
            version: 1,
            extent_freed: AddressVector::allocate(1000),
            chacha20_nonce: [0;12],
        };
        assert(r@.nonce =~= zeros(12));
        r
    }

    /// The header.
    pub fn get_header(&self) -> (r: Result<BruteFsHeader, Fault>)
        requires
            self.wf(),
        ensures
            self.tells(r is Ok) ==> seen(r) == self.image().header(),
    {
        match self.ctrl.raw_read(0, self.header_size) {
            Ok(bytes) => BruteFsHeader::deserialize(bytes.as_slice()),
            Err(e) => Err(e),
        }
    }

    /// Replaces the header, its list compacted.
    pub fn update_header(&mut self, header: BruteFsHeader) -> (r: Result<(), Fault>)
        requires
            old(self).wf(),
        ensures
            Self::kept(old(self), final(self)),
            old(self).obeys(r is Ok) ==> (final(self).image(), r) == old(self).image().put_header(
                header@,
            ),
    {
        let mut header = header;
        header.extent_freed.compactify();
        match header.serialize() {
            Ok(bytes) => self.ctrl.raw_write(0, bytes.as_slice()),
            Err(e) => Err(e),
        }
    }

    /// Takes `wanted_size` bytes: from the first freed stretch that is long enough, else from
    /// the part of the disk that was never used.
    pub fn allocate(&mut self, wanted_size: usize) -> (r: Result<u64, Fault>)
        requires
            old(self).wf(),
        ensures
            Self::kept(old(self), final(self)),
            old(self).obeys(r is Ok) ==> (final(self).image(), r) == old(self).image().allocate(
                wanted_size,
            ),
    {
        let mut header = match self.get_header() {
            Ok(h) => h,
            Err(e) => return Err(e),
        };
        let n: usize = header.extent_freed.items.len();
        let mut i: usize = 0;
        while i < n && !slot_fits(&header.extent_freed.items[i], wanted_size)
            invariant
                i <= n,
                n == header.extent_freed.items@.len(),
                first_fit(header.extent_freed.items@, wanted_size as int, 0) == first_fit(
                    header.extent_freed.items@,
                    wanted_size as int,
                    i as int,
                ),
            decreases n - i,
        {
            i = i + 1;
        }
        if i < n {
            let slot = header.extent_freed.items[i];
            let free_addr: u64 = slot.addr.get();
            if wanted_size as u64 > u64::MAX - free_addr {
                return Err(Fault::AddressOverflow);
            }
            let left: usize = slot.capacity - wanted_size;
            let rest = if left == 0 {
                AddressSlot::default()
            } else {
                AddressSlot {
                    addr: MaybeU64::from(free_addr + wanted_size as u64),
                    capacity: left,
                }
            };
            header.extent_freed.items.set(i, rest);
            return match self.update_header(header) {
                Ok(()) => Ok(free_addr),
                Err(e) => Err(e),
            };
        }
        let total: u64 = self.disk_size();
        let addr: u64 = header.extent_freed.global_offset;
        let remaining: u64 = total.saturating_sub(addr);
        if remaining < wanted_size as u64 {
            return Err(Fault::NoRoom { wanted: wanted_size as u64, remaining });
        }
        if wanted_size as u64 > u64::MAX - addr {
            return Err(Fault::AddressOverflow);
        }
        header.extent_freed.global_offset = addr + wanted_size as u64;
        match self.update_header(header) {
            Ok(()) => Ok(addr),
            Err(e) => Err(e),
        }
    }

    /// Notes a freed stretch in the first empty slot; without one it is lost.
    pub fn mark_as_reusable(&mut self, new_slot_value: AddressSlot) -> (r: Result<(), Fault>)
        requires
            old(self).wf(),
        ensures
            Self::kept(old(self), final(self)),
            old(self).obeys(r is Ok) ==> (final(self).image(), r) == old(self).image().mark(
                new_slot_value,
            ),
    {
        let mut header = match self.get_header() {
            Ok(h) => h,
            Err(e) => return Err(e),
        };
        let n: usize = header.extent_freed.items.len();
        let mut i: usize = 0;
        while i < n && !header.extent_freed.items[i].is_free()
            invariant
                i <= n,
                n == header.extent_freed.items@.len(),
                first_empty(header.extent_freed.items@, 0) == first_empty(
                    header.extent_freed.items@,
                    i as int,
                ),
            decreases n - i,
        {
            i = i + 1;
        }
        if i < n {
            header.extent_freed.items.set(i, new_slot_value);
            self.update_header(header)
        } else {
            Ok(())
        }
    }

    /// The freed stretches.
    pub fn reusable_regions(&self) -> (r: Result<Vec<AddressSlot>, Fault>)
        requires
            self.wf(),
        ensures
            self.tells(r is Ok) ==> match self.image().header() {
                Ok(h) => r is Ok && r->Ok_0@ == used_slots(h.freed.items),
                Err(e) => r == Err::<Vec<AddressSlot>, Fault>(e),
            },
    {
        let header = match self.get_header() {
            Ok(h) => h,
            Err(e) => return Err(e),
        };
        let ghost items = header.extent_freed.items@;
        let mut out: Vec<AddressSlot> = Vec::new();
        let mut i: usize = 0;
        assert(out@ =~= used_slots(items.subrange(0, 0)));
        while i < header.extent_freed.items.len()
            invariant
                i <= items.len(),
                items == header.extent_freed.items@,
                out@ == used_slots(items.subrange(0, i as int)),
            decreases items.len() - i,
        {
            assert(items.subrange(0, i + 1).drop_last() =~= items.subrange(0, i as int));
            let slot = header.extent_freed.items[i];
            if !slot.is_free() {
                out.push(slot);
            }
            i = i + 1;
        }
        assert(items.subrange(0, i as int) =~= items);
        Ok(out)
    }

    /// The extent at `addr`.
    pub fn read_extent(&self, addr: u64) -> (r: Result<Extent, Fault>)
        requires
            self.wf(),
        ensures
            self.tells(r is Ok) ==> seen(r) == self.image().extent(addr),
    {
        let head = match self.read_clear(addr, 8) {
            Ok(b) => b,
            Err(e) => return Err(e),
        };
        let size: u64 = get_u64(head.as_slice(), 0);
        if addr > u64::MAX - 16 || size > u64::MAX - 16 - addr || addr + 16 + size
            > usize::MAX as u64 {
            return Err(Fault::AddressOverflow);
        }
        match self.read_clear(addr, 16 + size) {
            Ok(bytes) => Extent::deserialize(bytes.as_slice()),
            Err(e) => Err(e),
        }
    }

    /// Where the extent at `addr` lies, and the address of the next one with this one's size.
    pub fn read_extent_metadata(&self, addr: u64) -> (r: Result<
        (RegionSlot, AddressSlot),
        Fault,
    >)
        requires
            self.wf(),
        ensures
            self.tells(r is Ok) ==> r == self.image().extent_meta(addr),
    {
        let head = match self.read_clear(addr, 16) {
            Ok(b) => b,
            Err(e) => return Err(e),
        };
        let size: u64 = get_u64(head.as_slice(), 0);
        let next: u64 = get_u64(head.as_slice(), 8);
        if size > u64::MAX - 16 - addr || addr + 16 + size > usize::MAX as u64 {
            return Err(Fault::AddressOverflow);
        }
        Ok(
            (
                RegionSlot {
                    start: MaybeU64::from(addr),
                    end: MaybeU64::from(addr + 16 + size),
                },
                AddressSlot { addr: MaybeU64::from(next), capacity: size as usize },
            ),
        )
    }

    /// The regions of the extents from `addr` on, at most `stop` of them.
    pub fn find_full_extent_metadata(&self, addr: MaybeU64, stop: Option<u32>) -> (r: Result<
        Vec<RegionSlot>,
        Fault,
    >)
        requires
            self.wf(),
        ensures
            self.tells(r is Ok) ==> seen(r) == self.image().regions(
                addr,
                match stop {
                    Some(n) => n as nat,
                    None => u32::MAX as nat,
                },
            ),
    {
        let ghost m = self.image();
        let mut left: u32 = match stop {
            Some(n) => n,
            None => u32::MAX,
        };
        let ghost limit = left as nat;
        let ghost all = m.regions(addr, limit);
        let mut blocks: Vec<RegionSlot> = Vec::new();
        let mut at = addr;
        assert(all is Ok ==> blocks@ + all->Ok_0 =~= all->Ok_0);
        while at.is_some() && left > 0
            invariant
                self.wf(),
                m == self.image(),
                all == m.regions(addr, limit),
                limit == (match stop {
                    Some(n) => n as nat,
                    None => u32::MAX as nat,
                }),
                self.tells(true) ==> match m.regions(at, left as nat) {
                    Err(e) => all == Err::<Seq<RegionSlot>, _>(e),
                    Ok(rest) => all == Ok::<_, Fault>(blocks@ + rest),
                },
            decreases left,
        {
            let ghost had = blocks@;
            let (block, slot) = match self.read_extent_metadata(at.get()) {
                Ok(x) => x,
                Err(e) => return Err(e),
            };
            at = slot.addr;
            blocks.push(block);
            left = left - 1;
            proof {
                if self.tells(true) && m.regions(at, left as nat) is Ok {
                    let rest = m.regions(at, left as nat)->Ok_0;
                    assert(had + (seq![block] + rest) =~= blocks@ + rest);
                }
            }
        }
        proof {
            if self.tells(true) {
                assert(blocks@ + Seq::<RegionSlot>::empty() =~= blocks@);
            }
        }
        Ok(blocks)
    }

    /// The content that the extents from `addr` on hold.
    pub fn read_full_data_from_extent(&self, addr: MaybeU64) -> (r: Result<Vec<u8>, Fault>)
        requires
            self.wf(),
        ensures
            self.tells(r is Ok) ==> seen(r) == self.image().content(addr),
    {
        let ghost m = self.image();
        let mut fuel: u64 = self.disk_size();
        let mut data: Vec<u8> = Vec::new();
        let mut at = addr;
        let ghost all = m.content(addr);
        assert(all is Ok ==> data@ + all->Ok_0 =~= all->Ok_0);
        while at.is_some()
            invariant
                self.wf(),
                m == self.image(),
                all == m.content(addr),
                self.tells(true) ==> match m.chain(at, fuel as nat) {
                    Err(e) => all == Err::<Seq<u8>, _>(e),
                    Ok(rest) => all == Ok::<_, Fault>(data@ + rest),
                },
            decreases fuel,
        {
            if fuel == 0 {
                return Err(Fault::ExtentLoop);
            }
            let ghost had = data@;
            let extent = match self.read_extent(at.get()) {
                Ok(x) => x,
                Err(e) => return Err(e),
            };
            push_bytes(&mut data, extent.data.as_slice());
            at = extent.next;
            fuel = fuel - 1;
            proof {
                if self.tells(true) && m.chain(at, fuel as nat) is Ok {
                    let rest = m.chain(at, fuel as nat)->Ok_0;
                    assert(had + (extent.data@ + rest) =~= data@ + rest);
                }
            }
        }
        proof {
            if self.tells(true) {
                assert(data@ + Seq::<u8>::empty() =~= data@);
            }
        }
        Ok(data)
    }

    /// The bytes from `start` to before `end` of the content from `addr` on.
    pub fn seek_full_data_from_extent(&self, addr: MaybeU64, start: u64, end: u64) -> (r: Result<
        Vec<u8>,
        Fault,
    >)
        requires
            self.wf(),
        ensures
            self.tells(r is Ok) ==> seen(r) == self.image().seek(
                addr,
                0,
                start as int,
                end as int,
                self.image().disk.len(),
            ),
    {
        let ghost m = self.image();
        let mut fuel: u64 = self.disk_size();
        let ghost all = m.seek(addr, 0, start as int, end as int, m.disk.len());
        let mut buf: Vec<u8> = Vec::new();
        let mut cursor: u64 = 0;
        let mut at = addr;
        assert(all is Ok ==> buf@ + all->Ok_0 =~= all->Ok_0);
        while at.is_some()
            invariant
                self.wf(),
                m == self.image(),
                all == m.seek(addr, 0, start as int, end as int, m.disk.len()),
                self.tells(true) ==> match m.seek(
                    at,
                    cursor as int,
                    start as int,
                    end as int,
                    fuel as nat,
                ) {
                    Err(e) => all == Err::<Seq<u8>, _>(e),
                    Ok(rest) => all == Ok::<_, Fault>(buf@ + rest),
                },
            decreases fuel,
        {
            if fuel == 0 {
                return Err(Fault::ExtentLoop);
            }
            let extent = match self.read_extent(at.get()) {
                Ok(x) => x,
                Err(e) => return Err(e),
            };
            let size: u64 = extent.data.len() as u64;
            at = extent.next;
            fuel = fuel - 1;
            if size > u64::MAX - cursor {
                return Err(Fault::AddressOverflow);
            }
            let extent_end: u64 = cursor + size;
            if extent_end <= start {
                cursor = extent_end;
                continue;
            }
            if cursor >= end {
                assert(self.tells(true) ==> buf@ + Seq::<u8>::empty() =~= buf@);
                return Ok(buf);
            }
            let lo: u64 = start.saturating_sub(cursor);
            let hi: u64 = if end - cursor < size {
                end - cursor
            } else {
                size
            };
            let ghost had = buf@;
            if lo < hi {
                push_bytes(
                    &mut buf,
                    vstd::slice::slice_subrange(extent.data.as_slice(), lo as usize, hi as usize),
                );
            }
            proof {
                if self.tells(true) {
                    let part = cut(extent.data@, cursor as int, start as int, end as int);
                    assert(had + part =~= buf@);
                    match m.seek(at, extent_end as int, start as int, end as int, fuel as nat) {
                        Ok(rest) => {
                            assert(had + (part + rest) =~= buf@ + rest);
                        },
                        Err(e) => {},
                    }
                }
            }
            cursor = extent_end;
        }
        assert(self.tells(true) ==> buf@ + Seq::<u8>::empty() =~= buf@);
        Ok(buf)
    }

    /// Notes the stretches of the extents from `start_extent_addr` on as freed.
    pub fn free_full_extent(&mut self, start_extent_addr: MaybeU64) -> (r: Result<(), Fault>)
        requires
            old(self).wf(),
        ensures
            Self::kept(old(self), final(self)),
            old(self).obeys(r is Ok) ==> (final(self).image(), r) == old(self).image().free(
                start_extent_addr,
            ),
    {
        let mut fuel: u64 = self.disk_size();
        let mut at = start_extent_addr;
        while at.is_some()
            invariant
                Self::kept(old(self), self),
                old(self).obeys(true) ==> old(self).image().free(start_extent_addr)
                    == self.image().free_chain(at, fuel as nat),
            decreases fuel,
        {
            if fuel == 0 {
                return Err(Fault::ExtentLoop);
            }
            let extent = match self.read_extent(at.get()) {
                Ok(x) => x,
                Err(e) => return Err(e),
            };
            match self.mark_as_reusable(AddressSlot { addr: at, capacity: extent.data.len() }) {
                Ok(()) => {},
                Err(e) => return Err(e),
            }
            at = extent.next;
            fuel = fuel - 1;
        }
        Ok(())
    }

    /// Frees contents one after the other.
    pub fn free_all(&mut self, addresses: &[MaybeU64]) -> (r: Result<(), Fault>)
        requires
            old(self).wf(),
        ensures
            Self::kept(old(self), final(self)),
            old(self).obeys(r is Ok) ==> (final(self).image(), r) == old(self).image().free_all(
                addresses@,
            ),
    {
        let n: usize = addresses.len();
        let mut i: usize = 0;
        assert(addresses@.subrange(0, n as int) =~= addresses@);
        while i < n
            invariant
                i <= n,
                n == addresses@.len(),
                Self::kept(old(self), self),
                old(self).obeys(true) ==> old(self).image().free_all(addresses@)
                    == self.image().free_all(addresses@.subrange(i as int, n as int)),
            decreases n - i,
        {
            assert(addresses@.subrange(i as int, n as int).drop_first() =~= addresses@.subrange(
                i + 1,
                n as int,
            ));
            match self.free_full_extent(addresses[i]) {
                Ok(()) => {},
                Err(e) => return Err(e),
            }
            i = i + 1;
        }
        Ok(())
    }

    /// Stores a new extent.
    pub(crate) fn store_extent(&mut self, extent: Extent) -> (r: Result<u64, Fault>)
        requires
            old(self).wf(),
        ensures
            Self::kept(old(self), final(self)),
            old(self).obeys(r is Ok) ==> (final(self).image(), r) == old(self).image().store_chunk(
                extent@,
            ),
    {
        let size: usize = extent.data.len();
        if size > usize::MAX - 16 {
            return Err(Fault::AddressOverflow);
        }
        let addr: u64 = match self.allocate(size + 16) {
            Ok(a) => a,
            Err(e) => return Err(e),
        };
        match extent.serialize() {
            Ok(bytes) => match self.write_clear(addr, bytes.as_slice()) {
                Ok(()) => Ok(addr),
                Err(e) => Err(e),
            },
            Err(e) => Err(e),
        }
    }

    /// Stores data in one new extent.
    pub(crate) fn store_data(&mut self, data: Vec<u8>) -> (r: Result<u64, Fault>)
        requires
            old(self).wf(),
        ensures
            Self::kept(old(self), final(self)),
            old(self).obeys(r is Ok) ==> (final(self).image(), r) == old(self).image().store(data@),
    {
        self.store_extent(Extent { next: MaybeU64::from(0), data })
    }

    /// The last of the extents from `addr` on, with its address.
    fn find_last_extent(&self, addr: MaybeU64) -> (r: Result<Option<(u64, Extent)>, Fault>)
        requires
            self.wf(),
        ensures
            self.tells(r is Ok) ==> match r {
                Ok(Some((at, x))) => self.image().last_extent(addr, self.image().disk.len()) == Ok::<
                    _,
                    Fault,
                >(Some((at, x@))),
                Ok(None) => self.image().last_extent(addr, self.image().disk.len()) == Ok::<
                    Option<(u64, Chunk)>,
                    Fault,
                >(None),
                Err(e) => self.image().last_extent(addr, self.image().disk.len()) == Err::<
                    Option<(u64, Chunk)>,
                    Fault,
                >(e),
            },
    {
        let ghost m = self.image();
        let ghost all = m.last_extent(addr, m.disk.len());
        let mut fuel: u64 = self.disk_size();
        let mut found: Option<(u64, Extent)> = None;
        let mut at = addr;
        while at.is_some()
            invariant
                self.wf(),
                m == self.image(),
                all == m.last_extent(addr, m.disk.len()),
                self.tells(true) ==> match m.last_extent(at, fuel as nat) {
                    Ok(None) => match found {
                        Some((p, x)) => all == Ok::<_, Fault>(Some((p, x@))),
                        None => all == Ok::<Option<(u64, Chunk)>, Fault>(None),
                    },
                    other => all == other,
                },
            decreases fuel,
        {
            if fuel == 0 {
                return Err(Fault::ExtentLoop);
            }
            let extent = match self.read_extent(at.get()) {
                Ok(x) => x,
                Err(e) => return Err(e),
            };
            let here: u64 = at.get();
            at = extent.next;
            fuel = fuel - 1;
            found = Some((here, extent));
        }
        Ok(found)
    }

    /// Stores a new extent behind the last one from `start_extent_addr` on, and gives the
    /// address of the first.
    pub fn append_or_allocate_extent(
        &mut self,
        start_extent_addr: MaybeU64,
        new_extent: Extent,
    ) -> (r: Result<u64, Fault>)
        requires
            old(self).wf(),
        ensures
            Self::kept(old(self), final(self)),
            old(self).obeys(r is Ok) ==> (final(self).image(), r) == old(self).image().append(
                start_extent_addr,
                new_extent@,
            ),
    {
        let (prev_addr, mut prev) = match self.find_last_extent(start_extent_addr) {
            Ok(Some(x)) => x,
            Ok(None) => return self.store_extent(new_extent),
            Err(e) => return Err(e),
        };
        let size: usize = new_extent.data.len();
        if size > usize::MAX - 16 {
            return Err(Fault::AddressOverflow);
        }
        let addr: u64 = match self.allocate(size + 16) {
            Ok(a) => a,
            Err(e) => return Err(e),
        };
        prev.next = MaybeU64::from(addr);
        match prev.serialize() {
            Ok(bytes) => match self.write_clear(prev_addr, bytes.as_slice()) {
                Ok(()) => {},
                Err(e) => return Err(e),
            },
            Err(e) => return Err(e),
        }
        match new_extent.serialize() {
            Ok(bytes) => match self.write_clear(addr, bytes.as_slice()) {
                Ok(()) => Ok(start_extent_addr.get()),
                Err(e) => Err(e),
            },
            Err(e) => Err(e),
        }
    }

    /// The inode at `addr`.
    pub(crate) fn read_inode(&self, addr: u64) -> (r: Result<INode, Fault>)
        requires
            self.wf(),
        ensures
            self.tells(r is Ok) ==> r == self.image().inode(addr),
    {
        match self.read_clear(addr, 33) {
            Ok(bytes) => INode::deserialize(bytes.as_slice()),
            Err(e) => Err(e),
        }
    }

    /// Writes an inode.
    pub(crate) fn write_inode(&mut self, addr: u64, inode: &INode) -> (r: Result<(), Fault>)
        requires
            old(self).wf(),
        ensures
            Self::kept(old(self), final(self)),
            old(self).obeys(r is Ok) ==> (final(self).image(), r) == old(self).image().put_inode(
                addr,
                *inode,
            ),
    {
        match inode.serialize() {
            Ok(bytes) => self.write_clear(addr, bytes.as_slice()),
            Err(e) => Err(e),
        }
    }

    /// Takes room for an inode and writes it there.
    pub(crate) fn add_inode(&mut self, inode: &INode) -> (r: Result<u64, Fault>)
        requires
            old(self).wf(),
        ensures
            Self::kept(old(self), final(self)),
            old(self).obeys(r is Ok) ==> (final(self).image(), r) == old(self).image().new_inode(
                *inode,
            ),
    {
        let addr: u64 = match self.allocate(INode::serialized_size()) {
            Ok(a) => a,
            Err(e) => return Err(e),
        };
        match self.write_inode(addr, inode) {
            Ok(()) => Ok(addr),
            Err(e) => Err(e),
        }
    }

    /// Notes a time in an inode.
    pub fn update_mtime_at(&mut self, addr: u64, inode: INode, now: u64) -> (r: Result<(), Fault>)
        requires
            old(self).wf(),
        ensures
            Self::kept(old(self), final(self)),
            old(self).obeys(r is Ok) ==> (final(self).image(), r) == old(self).image().put_inode(
                addr,
                INode { mtime: now, ..inode },
            ),
    {
        let mut inode = inode;
        inode.mtime = now;
        self.write_inode(addr, &inode)
    }

    /// The root directory, with its address.
    pub fn get_root_inode(&self) -> (r: Result<(u64, INode), Fault>)
        requires
            self.wf(),
        ensures
            self.tells(r is Ok) ==> r == self.image().root(),
    {
        let addr: u64 = self.header_size as u64;
        match self.read_inode(addr) {
            Ok(inode) => Ok((addr, inode)),
            Err(e) => Err(e),
        }
    }

    /// Opens a formatted disk.
    pub fn from_formatted(
        ctrl: Controller<D>,
        password: Option<&str>,
        kd: &KeyDerivation,
    ) -> (r: Result<Self, Fault>)
        requires
            ctrl.wf(),
            password_fits(opt_text(password), *kd),
        ensures
            r is Ok ==> r->Ok_0.wf() && r->Ok_0.ctrl.devices() == ctrl.devices(),
            r is Ok && ctrl.steady() ==> r->Ok_0.steady(),
            r is Ok && ctrl.single() ==> r->Ok_0.ctrl.single(),
            r is Ok && ctrl.mirrored() ==> r->Ok_0.ctrl.mirrored(),
            ctrl.tells(r is Ok) ==> match r {
                Ok(x) => brute_mounted(ctrl.disk(), ctrl.cipher(), opt_text(password), *kd) == Ok::<_, Fault>(x.image()),
                Err(e) => brute_mounted(ctrl.disk(), ctrl.cipher(), opt_text(password), *kd)
                    == Err::<Brute, _>(e),
            },
    {
        let mut volume = BruteFS { header_size: 16036, ctrl };
        let header = match volume.get_header() {
            Ok(h) => h,
            Err(e) => return Err(e),
        };
        if let Some(p) = password {
            volume.ctrl.setup_crypto(Crypto::new(p, header.chacha20_nonce, kd));
        }
        match volume.get_root_inode() {
            Ok(_) => Ok(volume),
            Err(e) => Err(e),
        }
    }

    /// Formats a disk with a given nonce at a given time, and opens it.
    pub fn format_new_at(
        ctrl: Controller<D>,
        password: Option<&str>,
        kd: &KeyDerivation,
        nonce: [u8; 12],
        now: u64,
    ) -> (r: Result<Self, Fault>)
        requires
            ctrl.wf(),
            password_fits(opt_text(password), *kd),
        ensures
            r is Ok ==> r->Ok_0.wf(),
            r is Ok && ctrl.steady() ==> r->Ok_0.steady(),
            r is Ok && ctrl.single() ==> r->Ok_0.ctrl.single(),
            r is Ok && ctrl.mirrored() ==> r->Ok_0.ctrl.mirrored(),
            ctrl.obeys(r is Ok) ==> match r {
                Ok(x) => brute_formatted(
                    ctrl.disk(),
                    ctrl.cipher(),
                    opt_text(password),
                    *kd,
                    nonce@,
                    now,
                ) == Ok::<_, Fault>(x.image()),
                Err(e) => brute_formatted(
                    ctrl.disk(),
                    ctrl.cipher(),
                    opt_text(password),
                    *kd,
                    nonce@,
                    now,
                ) == Err::<Brute, _>(e),
            },
    {
        let root = INode {
            kind: INodeKind::Directory,
            total_file_size: 0,
            extent_addr: MaybeU64::from(0),
            mtime: now,
            ctime: now,
        };
        let mut header = Self::header_template();
        header.extent_freed.global_offset = 16069;
        header.chacha20_nonce = nonce;
        assert(header@ == brute_fresh_header(nonce@));
        let mut volume = BruteFS { header_size: 16036, ctrl };
        if let Some(p) = password {
            volume.ctrl.setup_crypto(Crypto::new(p, nonce, kd));
        }
        match header.serialize() {
            Ok(bytes) => match volume.ctrl.raw_write(0, bytes.as_slice()) {
                Ok(()) => {},
                Err(e) => return Err(e),
            },
            Err(e) => return Err(e),
        }
        match volume.write_inode(16036, &root) {
            Ok(()) => {},
            Err(e) => return Err(e),
        }
        Self::from_formatted(volume.ctrl, password, kd)
    }
}

} // verus!
