//! Writing, extending and freeing chains of extents.
use crate::addr::{maybe, MaybeU64};
use crate::codec::{copy_range, le64};
use crate::device::Device;
use crate::error::{end_of, range_end, Fault, XHFSError};
use crate::xhfs::bitmap::bits_bytes;
use crate::xhfs::blocks::{slot_pairs, AllocationSlot};
use crate::xhfs::ds::{chunk_bytes, Chunk, Extent};
use crate::xhfs::extent::lemma_aligned;
use crate::xhfs::image::{blocks_for, Image};
use crate::xhfs::layout::AddressSlot;
use crate::xhfs::volume::{lemma_format, lemma_group};
use crate::xhfs::XHFS;
use vstd::prelude::*;

verus! {

/// Number of blocks of `bs` bytes that extents take for `len` bytes of data, when one
/// extent has at most `max` bytes.
pub open spec fn blocks_needed(len: nat, max: int, bs: int) -> Result<int, XHFSError>
    decreases len,
{
    if len == 0 {
        Ok(0)
    } else if max <= 16 {
        Err(XHFSError::Error { err: Fault::GroupTooSmall })
    } else {
        let chunk = if len < max - 16 {
            len as int
        } else {
            max - 16
        };
        match blocks_needed((len - chunk) as nat, max, bs) {
            Err(e) => Err(e),
            Ok(n) => Ok(n + blocks_for(16 + chunk, bs)),
        }
    }
}

/// How `data` is laid out over slots: the address and the data of each extent, and what is
/// left over.
pub open spec fn spread(slots: Seq<(int, int)>, bs: int, data: Seq<u8>) -> (
    Seq<(int, Seq<u8>)>,
    Seq<u8>,
)
    decreases slots.len(),
{
    if slots.len() == 0 || data.len() == 0 {
        (Seq::empty(), data)
    } else {
        let room = slots[0].1 * bs;
        if room <= 16 {
            spread(slots.drop_first(), bs, data)
        } else {
            let n = if data.len() < room - 16 {
                data.len() as int
            } else {
                room - 16
            };
            let (plan, left) = spread(
                slots.drop_first(),
                bs,
                data.subrange(n, data.len() as int),
            );
            (seq![(slots[0].0, data.subrange(0, n))] + plan, left)
        }
    }
}

impl Image {
    /// Gives back the blocks of a stretch that starts at `addr`.
    pub open spec fn mark_reusable(self, addr: u64, size: int) -> (Image, Result<(), XHFSError>) {
        let g = addr as int / self.format.stride();
        let bs = self.format.block_size_bytes as int;
        if !self.addressable(g) {
            (self, Err(XHFSError::Error { err: Fault::AddressOverflow }))
        } else {
            match self.data_bits(g) {
                Err(e) => (self, Err(e)),
                Ok(bits) => if addr < self.data_at(g) {
                    (self, Err(XHFSError::Error { err: Fault::OutsideDataRegion { addr } }))
                } else {
                    let start = (addr - self.data_at(g)) / bs;
                    let count = freed_blocks(size, bs);
                    if start + count > self.format.param_data_block_count_per_group {
                        (
                            self,
                            Err(
                                XHFSError::Error {
                                    err: Fault::BitmapBoundary {
                                        start: start as u64,
                                        end: end_of(start, count),
                                        max: self.format.param_data_block_count_per_group,
                                    },
                                },
                            ),
                        )
                    } else if start + count > bits.len {
                        (
                            self,
                            Err(
                                XHFSError::Error {
                                    err: Fault::RangeOutOfBounds {
                                        start: start as u64,
                                        end: end_of(start, count),
                                        len: bits.len as u64,
                                    },
                                },
                            ),
                        )
                    } else {
                        self.put_raw(
                            self.data_bitmap_at(g),
                            bits_bytes(bits.fill(start, start + count, false)),
                        )
                    }
                },
            }
        }
    }

    /// Gives back the blocks of the extents from `addr` on.
    pub open spec fn free_chain(self, addr: MaybeU64, fuel: nat) -> (Image, Result<(), XHFSError>)
        decreases fuel,
    {
        if addr.raw == 0 {
            (self, Ok(()))
        } else if fuel == 0 {
            (self, Err(XHFSError::Error { err: Fault::ExtentLoop }))
        } else {
            match self.extent_meta(addr.raw) {
                Err(e) => (self, Err(e)),
                Ok(meta) => {
                    let (m, r) = self.mark_reusable(
                        addr.raw,
                        meta.full_aligned_region.span() as int,
                    );
                    match r {
                        Err(e) => (m, Err(e)),
                        Ok(()) => m.free_chain(meta.next_extent, (fuel - 1) as nat),
                    }
                },
            }
        }
    }

    /// Gives back the blocks of the content at `addr`.
    #[verifier::opaque]
    pub open spec fn free(self, addr: MaybeU64) -> (Image, Result<(), XHFSError>) {
        self.free_chain(addr, self.disk.len())
    }

    /// Writes extents, the last one first, each linked to the one after it.
    pub open spec fn write_plan(self, plan: Seq<(int, Seq<u8>)>) -> (
        Image,
        Result<MaybeU64, XHFSError>,
    )
        decreases plan.len(),
    {
        if plan.len() == 0 {
            (self, Ok(maybe(0)))
        } else {
            let (m, r) = self.write_plan(plan.drop_first());
            match r {
                Err(e) => (m, Err(e)),
                Ok(next) => {
                    let (m2, w) = m.put_clear(
                        plan[0].0,
                        chunk_bytes(Chunk { next, data: plan[0].1 }),
                    );
                    match w {
                        Err(e) => (m2, Err(e)),
                        Ok(()) => (m2, Ok(maybe(plan[0].0 as u64))),
                    }
                },
            }
        }
    }

    /// Stores `data` in blocks that are free, and gives the address of its first extent; no
    /// address if there is no data.
    #[verifier::opaque]
    pub open spec fn store(self, data: Seq<u8>) -> (Image, Result<MaybeU64, XHFSError>) {
        let bs = self.format.block_size_bytes as int;
        match blocks_needed(data.len(), self.format.data_size(), bs) {
            Err(e) => (self, Err(e)),
            Ok(n) => if n > usize::MAX {
                (self, Err(XHFSError::Error { err: Fault::AddressOverflow }))
            } else {
                let (m, r) = self.allocate(n);
                match r {
                    Err(e) => (m, Err(e)),
                    Ok(slots) => {
                        let (plan, left) = spread(slots, bs, data);
                        if left.len() > 0 {
                            (
                                m,
                                Err(
                                    XHFSError::Error {
                                        err: Fault::LayoutMismatch { left: left.len() as u64 },
                                    },
                                ),
                            )
                        } else {
                            m.write_plan(plan)
                        }
                    },
                }
            },
        }
    }

    /// Stores `data` after the content at `addr`, and gives the address of the whole.
    #[verifier::opaque]
    pub open spec fn append(self, addr: MaybeU64, data: Seq<u8>) -> (
        Image,
        Result<MaybeU64, XHFSError>,
    ) {
        match self.last_extent(addr, self.disk.len()) {
            Err(e) => (self, Err(e)),
            Ok(last) => {
                let (m, r) = self.store(data);
                if last.raw == 0 {
                    (m, r)
                } else {
                    match r {
                        Err(e) => (m, Err(e)),
                        Ok(next) => {
                            let (m2, w) = m.put_clear(last.raw + 8, le64(next.raw));
                            match w {
                                Err(e) => (m2, Err(e)),
                                Ok(()) => (m2, Ok(addr)),
                            }
                        },
                    }
                }
            },
        }
    }
}

/// Number of blocks that are given back for a stretch: at least one.
pub open spec fn freed_blocks(size: int, bs: int) -> int {
    if blocks_for(size, bs) < 1 {
        1
    } else {
        blocks_for(size, bs)
    }
}

proof fn lemma_freed_blocks(size: int, bs: int)
    requires
        size >= 0,
        bs >= 1,
    ensures
        freed_blocks(size, bs) == if size == 0 {
            1
        } else {
            (size - 1) / bs + 1
        },
        1 <= freed_blocks(size, bs) <= size + 1,
{
    if size == 0 {
        assert((bs - 1) / bs == 0) by (nonlinear_arith)
            requires
                bs >= 1,
        ;
    } else {
        lemma_aligned(size, bs);
        assert((size - 1) / bs <= size - 1) by (nonlinear_arith)
            requires
                size >= 1,
                bs >= 1,
        ;
    }
}

impl<D: Device> XHFS<D> {
    /// Gives back the blocks of a slot.
    pub fn mark_as_reusable(&mut self, addr_slot: AddressSlot) -> (r: Result<(), XHFSError>)
        requires
            old(self).wf(),
        ensures
            Self::kept(old(self), final(self)),
            old(self).obeys(r is Ok) ==> (final(self).image(), r) == old(self).image().mark_reusable(
                addr_slot.addr.raw,
                addr_slot.capacity as int,
            ),
    {
        let ghost m = self.image();
        let addr: u64 = addr_slot.addr.get();
        let size: u64 = addr_slot.capacity as u64;
        let bs: u64 = self.static_format.block_size_bytes;
        proof {
            lemma_format(m);
            lemma_freed_blocks(size as int, bs as int);
        }
        let g: u64 = addr / self.geometry.group_stride;
        let group = match self.locate_group(g) {
            Some(l) => l,
            None => return Err(XHFSError::from_report(Fault::AddressOverflow)),
        };
        proof {
            lemma_group(m, g as int);
        }
        let mut bitmap = match self.read_bitmap(group.data_bitmap_region) {
            Ok(b) => b,
            Err(e) => return Err(e),
        };
        let base: u64 = group.data_region.start.get();
        if addr < base {
            return Err(XHFSError::from_report(Fault::OutsideDataRegion { addr }));
        }
        let start: u64 = (addr - base) / bs;
        let before_last: u64 = if size == 0 {
            0
        } else {
            (size - 1) / bs
        };
        let max: u64 = self.geometry.usable_blocks_per_group;
        proof {
            assert((addr - base) / bs as int <= addr - base) by (nonlinear_arith)
                requires
                    addr - base >= 0,
                    bs >= 1,
            ;
        }
        if start > max || before_last >= max - start {
            let count: u64 = if before_last == u64::MAX {
                proof {
                    assert(false) by (nonlinear_arith)
                        requires
                            size > 0,
                            bs >= 1,
                            before_last == (size - 1) / bs as int,
                            before_last == u64::MAX,
                            size <= u64::MAX,
                    ;
                }
                before_last
            } else {
                before_last + 1
            };
            return Err(
                XHFSError::from_report(
                    Fault::BitmapBoundary {
                        start,
                        end: range_end(start, count),
                        max: self.geometry.usable_blocks_per_group,
                    },
                ),
            );
        }
        let count: u64 = before_last + 1;
        match bitmap.set_range(start as usize, count as usize, false) {
            Ok(()) => {},
            Err(e) => return Err(XHFSError::from_report(e)),
        }
        self.write_bitmap(group.data_bitmap_region, &bitmap)
    }

    /// Gives back the blocks of the extents from an address on.
    pub fn free_full_extent(&mut self, start_extent_addr: MaybeU64) -> (r: Result<(), XHFSError>)
        requires
            old(self).wf(),
        ensures
            Self::kept(old(self), final(self)),
            old(self).obeys(r is Ok) ==> (final(self).image(), r) == old(self).image().free(
                start_extent_addr,
            ),
    {
        proof {
            reveal(Image::free);
        }
        let mut fuel: u64 = self.disk_size();
        let mut at = start_extent_addr;
        while at.is_some()
            invariant
                Self::kept(old(self), self),
                old(self).obeys(true) ==> old(self).image().free(start_extent_addr)
                    == self.image().free_chain(at, fuel as nat),
            decreases fuel,
        {
            if fuel == 0 {
                return Err(XHFSError::from_report(Fault::ExtentLoop));
            }
            let meta = match self.read_extent_metadata(at.get()) {
                Ok(x) => x,
                Err(e) => return Err(e),
            };
            let span: u64 = meta.full_aligned_region.size_span();
            match self.mark_as_reusable(AddressSlot { addr: at, capacity: span as usize }) {
                Ok(()) => {},
                Err(e) => return Err(e),
            }
            at = meta.next_extent;
            fuel = fuel - 1;
        }
        Ok(())
    }

    /// Number of blocks that extents take for `len` bytes of data.
    fn count_blocks(&self, len: usize) -> (r: Result<usize, XHFSError>)
        requires
            self.wf(),
        ensures
            ({
                let n = blocks_needed(
                    len as nat,
                    self.static_format.data_size(),
                    self.static_format.block_size_bytes as int,
                );
                match r {
                    Ok(k) => n == Ok::<int, XHFSError>(k as int),
                    Err(e) => n == Err::<int, _>(e) || (n is Ok && n->Ok_0 > usize::MAX && e == (
                    XHFSError::Error { err: Fault::AddressOverflow })),
                }
            }),
    {
        let ghost f = self.static_format;
        proof {
            lemma_format(self.image());
        }
        let bs: u64 = self.static_format.block_size_bytes;
        let max: u64 = self.geometry.usable_blocks_per_group * bs;
        let mut left: u64 = len as u64;
        let mut needed: u64 = 0;
        while left > 0
            invariant
                self.wf(),
                f == self.static_format,
                f.stride() <= usize::MAX,
                bs == f.block_size_bytes,
                bs >= 1,
                max == f.data_size(),
                max <= usize::MAX,
                needed <= usize::MAX,
                match blocks_needed(left as nat, max as int, bs as int) {
                    Ok(n) => blocks_needed(len as nat, max as int, bs as int) == Ok::<
                        int,
                        XHFSError,
                    >(needed + n),
                    Err(e) => blocks_needed(len as nat, max as int, bs as int) == Err::<int, _>(e),
                },
            decreases left,
        {
            if max <= 16 {
                return Err(XHFSError::from_report(Fault::GroupTooSmall));
            }
            let chunk: u64 = if left < max - 16 {
                left
            } else {
                max - 16
            };
            proof {
                lemma_aligned(16 + chunk, bs as int);
                lemma_needed_nonneg((left - chunk) as nat, max as int, bs as int);
            }
            let blocks: u64 = (16 + chunk - 1) / bs + 1;
            if blocks > usize::MAX as u64 - needed {
                return Err(XHFSError::from_report(Fault::AddressOverflow));
            }
            needed = needed + blocks;
            left = left - chunk;
        }
        Ok(needed as usize)
    }

    /// Stores `data` in free blocks, and gives the address of its first extent.
    pub fn allocate_and_write_extent(&mut self, data: Vec<u8>) -> (r: Result<MaybeU64, XHFSError>)
        requires
            old(self).wf(),
        ensures
            Self::kept(old(self), final(self)),
            old(self).obeys(r is Ok) ==> (final(self).image(), r) == old(self).image().store(data@),
    {
        proof {
            reveal(Image::store);
        }
        let ghost m0 = self.image();
        let blocks: usize = match self.count_blocks(data.len()) {
            Ok(n) => n,
            Err(e) => return Err(e),
        };
        let slots = match self.allocate(blocks) {
            Ok(s) => s,
            Err(e) => return Err(e),
        };
        let bs: usize = self.static_format.block_size_bytes as usize;
        proof {
            lemma_format(m0);
            let f = m0.format;
            assert forall|i: int| 0 <= i < slots@.len() implies (#[trigger] slots@[i]).block_count
                * bs <= usize::MAX by {
                let c = slots@[i].block_count as int;
                assert(c * bs <= f.data_size()) by (nonlinear_arith)
                    requires
                        f.data_size() == f.param_data_block_count_per_group * f.block_size_bytes,
                        bs == f.block_size_bytes,
                        0 <= c <= f.param_data_block_count_per_group,
                ;
            }
            assert(spread(slot_pairs(slots@), bs as int, data@) == spread(
                slot_pairs(slots@),
                m0.format.block_size_bytes as int,
                data@,
            ));
        }
        let (plan, done) = spread_over(&slots, bs, data.as_slice());
        assert(done == data@.len() ==> data@.subrange(done as int, data@.len() as int).len() == 0);
        if done < data.len() {
            return Err(
                XHFSError::from_report(Fault::LayoutMismatch { left: (data.len() - done) as u64 }),
            );
        }
        self.write_extents(&plan)
    }

    /// Writes extents, the last one first, each linked to the one after it.
    fn write_extents(&mut self, plan: &Vec<(u64, Vec<u8>)>) -> (r: Result<MaybeU64, XHFSError>)
        requires
            old(self).wf(),
        ensures
            Self::kept(old(self), final(self)),
            old(self).obeys(r is Ok) ==> (final(self).image(), r) == old(self).image().write_plan(
                plan_pairs(plan@),
            ),
    {
        let ghost m = self.image();
        let ghost p = plan_pairs(plan@);
        let mut next = MaybeU64::from(0);
        let mut i: usize = plan.len();
        assert(p.subrange(i as int, p.len() as int) =~= Seq::empty());
        while i > 0
            invariant
                i <= plan@.len(),
                p == plan_pairs(plan@),
                Self::kept(old(self), self),
                old(self).obeys(true) ==> (self.image(), Ok::<_, XHFSError>(next)) == m.write_plan(
                    p.subrange(i as int, p.len() as int),
                ),
                m == old(self).image(),
            decreases i,
        {
            i = i - 1;
            let ghost rest = p.subrange(i as int, p.len() as int);
            assert(rest.drop_first() =~= p.subrange(i + 1, p.len() as int));
            assert(rest[0] == p[i as int]);
            let extent = Extent { next, data: copy_range(plan[i].1.as_slice(), 0, plan[i].1.len()) };
            assert(extent.data@ =~= plan@[i as int].1@);
            let addr: u64 = plan[i].0;
            let bytes = match extent.serialize() {
                Ok(b) => b,
                Err(e) => return Err(XHFSError::from_report(e)),
            };
            match self.write_clear(addr, bytes.as_slice()) {
                Ok(()) => {},
                Err(e) => {
                    proof {
                        if old(self).obeys(false) {
                            lemma_write_plan_err(m, p, i as int);
                        }
                    }
                    return Err(e);
                },
            }
            next = MaybeU64::from(addr);
        }
        assert(p.subrange(0, p.len() as int) =~= p);
        Ok(next)
    }

    /// Stores `data` after the content at an address, and gives the address of the whole.
    pub(crate) fn append_or_allocate_extent(
        &mut self,
        start_extent_addr: MaybeU64,
        data: Vec<u8>,
    ) -> (r: Result<MaybeU64, XHFSError>)
        requires
            old(self).wf(),
        ensures
            Self::kept(old(self), final(self)),
            old(self).obeys(r is Ok) ==> (final(self).image(), r) == old(self).image().append(
                start_extent_addr,
                data@,
            ),
    {
        proof {
            reveal(Image::append);
        }
        let last = match self.find_last_extent(start_extent_addr) {
            Ok(a) => a,
            Err(e) => return Err(e),
        };
        let new = match self.allocate_and_write_extent(data) {
            Ok(a) => a,
            Err(e) => return Err(e),
        };
        if last.is_none() {
            return Ok(new);
        }
        match self.update_extent_next(last.get(), new) {
            Ok(()) => Ok(start_extent_addr),
            Err(e) => Err(e),
        }
    }
}

proof fn lemma_needed_nonneg(len: nat, max: int, bs: int)
    requires
        bs >= 1,
    ensures
        blocks_needed(len, max, bs) is Ok ==> blocks_needed(len, max, bs)->Ok_0 >= 0,
        max > 16 ==> blocks_needed(len, max, bs) is Ok,
    decreases len,
{
    if len > 0 && max > 16 {
        let chunk = if len < max - 16 {
            len as int
        } else {
            max - 16
        };
        lemma_needed_nonneg((len - chunk) as nat, max, bs);
        lemma_aligned(16 + chunk, bs);
    }
}

/// Addresses and data of extents.
pub open spec fn plan_pairs(v: Seq<(u64, Vec<u8>)>) -> Seq<(int, Seq<u8>)> {
    Seq::new(v.len(), |i: int| (v[i].0 as int, v[i].1@))
}

proof fn lemma_write_plan_err(m: Image, plan: Seq<(int, Seq<u8>)>, i: int)
    requires
        0 <= i <= plan.len(),
        m.write_plan(plan.subrange(i, plan.len() as int)).1 is Err,
    ensures
        m.write_plan(plan) == m.write_plan(plan.subrange(i, plan.len() as int)),
    decreases i,
{
    if i > 0 {
        let rest = plan.subrange(i - 1, plan.len() as int);
        assert(rest.drop_first() =~= plan.subrange(i, plan.len() as int));
        lemma_write_plan_err(m, plan, i - 1);
    } else {
        assert(plan.subrange(0, plan.len() as int) =~= plan);
    }
}

/// Lays `data` out over slots. Gives the extents and how much of the data they hold.
fn spread_over(slots: &Vec<AllocationSlot>, bs: usize, data: &[u8]) -> (r: (
    Vec<(u64, Vec<u8>)>,
    usize,
))
    requires
        forall|i: int|
            0 <= i < slots@.len() ==> (#[trigger] slots@[i]).block_count * bs <= usize::MAX,
    ensures
        r.1 <= data@.len(),
        spread(slot_pairs(slots@), bs as int, data@) == (
            plan_pairs(r.0@),
            data@.subrange(r.1 as int, data@.len() as int),
        ),
{
    let ghost all = slot_pairs(slots@);
    let n: usize = data.len();
    let mut plan: Vec<(u64, Vec<u8>)> = Vec::new();
    let mut done: usize = 0;
    let mut i: usize = 0;
    assert(all.subrange(0, all.len() as int) =~= all);
    assert(data@.subrange(0, n as int) =~= data@);
    assert(plan_pairs(plan@) + spread(all, bs as int, data@).0 =~= spread(all, bs as int, data@).0);
    while i < slots.len()
        invariant
            i <= slots@.len(),
            n == data@.len(),
            done <= n,
            all == slot_pairs(slots@),
            forall|k: int|
                0 <= k < slots@.len() ==> (#[trigger] slots@[k]).block_count * bs <= usize::MAX,
            ({
                let rest = spread(
                    all.subrange(i as int, all.len() as int),
                    bs as int,
                    data@.subrange(done as int, n as int),
                );
                spread(all, bs as int, data@) == (plan_pairs(plan@) + rest.0, rest.1)
            }),
        decreases slots@.len() - i,
    {
        let ghost tail = all.subrange(i as int, all.len() as int);
        let ghost left = data@.subrange(done as int, n as int);
        let ghost had = plan_pairs(plan@);
        assert(tail.drop_first() =~= all.subrange(i + 1, all.len() as int));
        assert(tail[0] == all[i as int]);
        if done == n {
            assert(had + Seq::<(int, Seq<u8>)>::empty() =~= had);
            return (plan, done);
        }
        assert(slots@[i as int].block_count * bs <= usize::MAX);
        let room: usize = slots[i].block_count * bs;
        if room > 16 {
            let chunk: usize = if n - done < room - 16 {
                n - done
            } else {
                room - 16
            };
            let piece = copy_range(data, done, chunk);
            proof {
                assert(left.subrange(0, chunk as int) =~= piece@);
                assert(left.subrange(chunk as int, left.len() as int) =~= data@.subrange(
                    done + chunk,
                    n as int,
                ));
                let rest = spread(
                    tail.drop_first(),
                    bs as int,
                    data@.subrange(done + chunk, n as int),
                );
                let one = (slots@[i as int].absolute_byte_addr as int, piece@);
                assert(had + (seq![one] + rest.0) =~= had.push(one) + rest.0);
            }
            let ghost one = (slots@[i as int].absolute_byte_addr as int, piece@);
            plan.push((slots[i].absolute_byte_addr, piece));
            assert(plan_pairs(plan@) =~= had.push(one));
            done = done + chunk;
        }
        i = i + 1;
    }
    assert(plan_pairs(plan@) + Seq::<(int, Seq<u8>)>::empty() =~= plan_pairs(plan@));
    (plan, done)
}

} // verus!
