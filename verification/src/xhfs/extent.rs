//! Chains of extents: where contents are kept.
use crate::addr::MaybeU64;
use crate::codec::{get_u64, le64, push_bytes, push_u64};
use crate::device::Device;
use crate::error::{seen, Fault, XHFSError};
use crate::xhfs::ds::Extent;
use crate::xhfs::image::{aligned, blocks_for, ExtentMetadata, Image};
use crate::xhfs::layout::{AddressSlot, RegionSlot};
use crate::xhfs::volume::lemma_format;
use crate::xhfs::XHFS;
use vstd::prelude::*;

verus! {

/// Rounding up by whole units.
pub proof fn lemma_aligned(n: int, unit: int)
    requires
        n >= 1,
        unit >= 1,
    ensures
        blocks_for(n, unit) == (n - 1) / unit + 1,
        n <= aligned(n, unit) < n + unit,
        blocks_for(n, unit) >= 1,
{
    vstd::arithmetic::div_mod::lemma_div_plus_one(n - 1, unit);
    vstd::arithmetic::div_mod::lemma_fundamental_div_mod(n - 1, unit);
    let q = (n - 1) / unit;
    assert((q + 1) * unit == unit * q + unit) by (nonlinear_arith);
    assert(q >= 0) by (nonlinear_arith)
        requires
            q == (n - 1) / unit,
            n >= 1,
            unit >= 1,
    ;
}

/// The metadata of extents from `addr` on, at most `count` of them.
pub open spec fn metas(m: Image, addr: MaybeU64, count: nat) -> Result<
    Seq<ExtentMetadata>,
    XHFSError,
>
    decreases count,
{
    if addr.raw == 0 || count == 0 {
        Ok(Seq::empty())
    } else {
        match m.extent_meta(addr.raw) {
            Err(e) => Err(e),
            Ok(meta) => match metas(m, meta.next_extent, (count - 1) as nat) {
                Err(e) => Err(e),
                Ok(rest) => Ok(seq![meta] + rest),
            },
        }
    }
}

/// The part of `data`, which starts at position `at` of a content, that lies from
/// `start` to before `end`.
pub open spec fn cut(data: Seq<u8>, at: int, start: int, end: int) -> Seq<u8> {
    let lo = if start > at {
        start - at
    } else {
        0
    };
    let hi = if end - at < data.len() {
        end - at
    } else {
        data.len() as int
    };
    if lo < hi {
        data.subrange(lo, hi)
    } else {
        Seq::empty()
    }
}

impl Image {
    /// The bytes of an extent's data from `lo` to before `hi`.
    pub open spec fn extent_part(self, meta: ExtentMetadata, lo: int, hi: int) -> Result<
        Seq<u8>,
        XHFSError,
    > {
        if lo < hi {
            self.clear(meta.full_canon_data_slot.addr.raw + lo, hi - lo)
        } else {
            Ok(Seq::empty())
        }
    }

    /// The bytes from `start` to before `end` of the content from `addr` on, the first of
    /// which stands at position `at`. Only extents that reach into the range are read.
    pub open spec fn seek(self, addr: MaybeU64, at: int, start: int, end: int, fuel: nat) -> Result<
        Seq<u8>,
        XHFSError,
    >
        decreases fuel,
    {
        if addr.raw == 0 {
            Ok(Seq::empty())
        } else if fuel == 0 {
            Err(XHFSError::Error { err: Fault::ExtentLoop })
        } else {
            match self.extent_meta(addr.raw) {
                Err(e) => Err(e),
                Ok(meta) => {
                    let size = meta.full_canon_data_slot.capacity as int;
                    let next = meta.next_extent;
                    if at + size > u64::MAX {
                        Err(XHFSError::Error { err: Fault::AddressOverflow })
                    } else if at + size <= start {
                        self.seek(next, at + size, start, end, (fuel - 1) as nat)
                    } else if at >= end {
                        Ok(Seq::empty())
                    } else {
                        let lo = if start > at {
                            start - at
                        } else {
                            0
                        };
                        let hi = if end - at < size {
                            end - at
                        } else {
                            size
                        };
                        match self.extent_part(meta, lo, hi) {
                            Err(e) => Err(e),
                            Ok(part) => match self.seek(
                                next,
                                at + size,
                                start,
                                end,
                                (fuel - 1) as nat,
                            ) {
                                Err(e) => Err(e),
                                Ok(rest) => Ok(part + rest),
                            },
                        }
                    }
                },
            }
        }
    }

    /// The address of the last of the extents from `addr` on.
    pub open spec fn last_extent(self, addr: MaybeU64, fuel: nat) -> Result<MaybeU64, XHFSError>
        decreases fuel,
    {
        if addr.raw == 0 {
            Ok(addr)
        } else if fuel == 0 {
            Err(XHFSError::Error { err: Fault::ExtentLoop })
        } else {
            match self.extent_meta(addr.raw) {
                Err(e) => Err(e),
                Ok(meta) => if meta.next_extent.raw == 0 {
                    Ok(addr)
                } else {
                    self.last_extent(meta.next_extent, (fuel - 1) as nat)
                },
            }
        }
    }
}

impl<D: Device> XHFS<D> {
    /// Where the extent at `addr` lies and what comes after it.
    pub fn read_extent_metadata(&self, addr: u64) -> (r: Result<ExtentMetadata, XHFSError>)
        requires
            self.wf(),
        ensures
            r is Ok ==> r->Ok_0.full_canon_data_slot.addr.raw == addr + 16,
            r is Ok ==> addr + 16 + r->Ok_0.full_canon_data_slot.capacity <= usize::MAX,
            r is Ok ==> r->Ok_0.full_aligned_region.span() <= usize::MAX,
            self.tells(r is Ok) ==> r == self.image().extent_meta(addr),
    {
        let header = match self.read_clear(addr, 16) {
            Ok(b) => b,
            Err(e) => return Err(e),
        };
        let size: u64 = get_u64(header.as_slice(), 0);
        let next: u64 = get_u64(header.as_slice(), 8);
        let bs: u64 = self.static_format.block_size_bytes;
        proof {
            lemma_format(self.image());
            lemma_aligned(16 + size, bs as int);
        }
        if size > u64::MAX - 16 {
            return Err(XHFSError::from_report(Fault::AddressOverflow));
        }
        let footprint: u64 = 16 + size;
        let blocks: u64 = (footprint - 1) / bs;
        if blocks == u64::MAX {
            assert(aligned(16 + size, bs as int) > u64::MAX) by (nonlinear_arith)
                requires
                    aligned(16 + size, bs as int) == (blocks + 1) * bs,
                    blocks == u64::MAX,
                    bs >= 1,
            ;
            return Err(XHFSError::from_report(Fault::AddressOverflow));
        }
        let room: u64 = match (blocks + 1).checked_mul(bs) {
            Some(x) => x,
            None => return Err(XHFSError::from_report(Fault::AddressOverflow)),
        };
        if room > u64::MAX - addr || addr + room > usize::MAX as u64 {
            return Err(XHFSError::from_report(Fault::AddressOverflow));
        }
        Ok(
            ExtentMetadata {
                full_aligned_region: RegionSlot {
                    start: MaybeU64::from(addr),
                    end: MaybeU64::from(addr + room),
                },
                full_canon_region: RegionSlot {
                    start: MaybeU64::from(addr),
                    end: MaybeU64::from(addr + footprint),
                },
                full_canon_data_slot: AddressSlot {
                    addr: MaybeU64::from(addr + 16),
                    capacity: size as usize,
                },
                next_extent: MaybeU64::from(next),
            },
        )
    }

    /// The extent at `addr`.
    pub fn read_extent(&self, addr: u64) -> (r: Result<Extent, XHFSError>)
        requires
            self.wf(),
        ensures
            self.tells(r is Ok) ==> seen(r) == self.image().extent(addr),
    {
        let meta = match self.read_extent_metadata(addr) {
            Ok(m) => m,
            Err(e) => return Err(e),
        };
        let slot = meta.full_canon_data_slot;
        let data = match self.read_clear(slot.addr.get(), slot.capacity as u64) {
            Ok(d) => d,
            Err(e) => return Err(e),
        };
        Ok(Extent { next: meta.next_extent, data })
    }

    /// The content that the extents from `addr` on hold.
    pub(crate) fn read_full_data_from_extent(&self, addr: MaybeU64) -> (r: Result<
        Vec<u8>,
        XHFSError,
    >)
        requires
            self.wf(),
        ensures
            self.tells(r is Ok) ==> seen(r) == self.image().content(addr),
    {
        proof {
            reveal(Image::content);
        }
        let ghost m = self.image();
        let mut fuel: u64 = self.disk_size();
        let mut data: Vec<u8> = Vec::new();
        let mut at = addr;
        assert(m.chain(addr, m.disk.len()) is Ok ==> data@ + m.chain(addr, m.disk.len())->Ok_0
            =~= m.chain(addr, m.disk.len())->Ok_0);
        while at.is_some()
            invariant
                self.wf(),
                m == self.image(),
                self.tells(true) ==> match m.chain(at, fuel as nat) {
                    Err(e) => m.content(addr) == Err::<Seq<u8>, _>(e),
                    Ok(rest) => m.content(addr) == Ok::<_, XHFSError>(data@ + rest),
                },
            decreases fuel,
        {
            if fuel == 0 {
                return Err(XHFSError::from_report(Fault::ExtentLoop));
            }
            let ghost had = data@;
            let extent = match self.read_extent(at.get()) {
                Ok(x) => x,
                Err(e) => return Err(e),
            };
            push_bytes(&mut data, extent.data.as_slice());
            at = extent.next;
            fuel = fuel - 1;
            proof {
                if self.tells(true) && m.chain(at, fuel as nat) is Ok {
                    let rest = m.chain(at, fuel as nat)->Ok_0;
                    assert(had + (extent.data@ + rest) =~= data@ + rest);
                }
            }
        }
        proof {
            if self.tells(true) {
                assert(data@ + Seq::<u8>::empty() =~= data@);
            }
        }
        Ok(data)
    }

    /// The metadata of the extents from `addr` on, at most `stop` of them.
    pub fn find_full_extent_metadata(&self, addr: MaybeU64, stop: Option<u32>) -> (r: Result<
        Vec<ExtentMetadata>,
        XHFSError,
    >)
        requires
            self.wf(),
        ensures
            self.tells(r is Ok) ==> seen(r) == metas(
                self.image(),
                addr,
                match stop {
                    Some(n) => n as nat,
                    None => u32::MAX as nat,
                },
            ),
    {
        let ghost m = self.image();
        let mut left: u32 = match stop {
            Some(n) => n,
            None => u32::MAX,
        };
        let ghost all = left as nat;
        let mut blocks: Vec<ExtentMetadata> = Vec::new();
        let mut at = addr;
        assert(metas(m, addr, all) is Ok ==> blocks@ + metas(m, addr, all)->Ok_0 =~= metas(
            m,
            addr,
            all,
        )->Ok_0);
        while at.is_some() && left > 0
            invariant
                self.wf(),
                m == self.image(),
                all == (match stop {
                    Some(n) => n as nat,
                    None => u32::MAX as nat,
                }),
                self.tells(true) ==> match metas(m, at, left as nat) {
                    Err(e) => metas(m, addr, all) == Err::<Seq<ExtentMetadata>, _>(e),
                    Ok(rest) => metas(m, addr, all) == Ok::<_, XHFSError>(blocks@ + rest),
                },
            decreases left,
        {
            let ghost had = blocks@;
            let meta = match self.read_extent_metadata(at.get()) {
                Ok(x) => x,
                Err(e) => return Err(e),
            };
            at = meta.next_extent;
            blocks.push(meta);
            left = left - 1;
            proof {
                if self.tells(true) && metas(m, at, left as nat) is Ok {
                    let rest = metas(m, at, left as nat)->Ok_0;
                    assert(had + (seq![meta] + rest) =~= blocks@ + rest);
                }
            }
        }
        proof {
            if self.tells(true) {
                assert(blocks@ + Seq::<ExtentMetadata>::empty() =~= blocks@);
            }
        }
        Ok(blocks)
    }

    /// Makes the extent at `addr` be followed by the one at `next`.
    pub(crate) fn update_extent_next(&mut self, addr: u64, next: MaybeU64) -> (r: Result<
        (),
        XHFSError,
    >)
        requires
            old(self).wf(),
            addr <= u64::MAX - 8,
        ensures
            Self::kept(old(self), final(self)),
            old(self).obeys(r is Ok) ==> (final(self).image(), r) == old(self).image().put_clear(
                addr + 8,
                le64(next.raw),
            ),
    {
        let mut bytes: Vec<u8> = Vec::new();
        push_u64(&mut bytes, next.get());
        assert(bytes@ =~= le64(next.raw));
        self.write_clear(addr + Extent::HEADER_NEXT_OFFSET, bytes.as_slice())
    }

    /// The bytes from `start` to before `end` of the content from `addr` on.
    pub(crate) fn seek_full_data_from_extent(
        &self,
        addr: MaybeU64,
        start: u64,
        end: u64,
    ) -> (r: Result<Vec<u8>, XHFSError>)
        requires
            self.wf(),
        ensures
            self.tells(r is Ok) ==> seen(r) == self.image().seek(
                addr,
                0,
                start as int,
                end as int,
                self.image().disk.len(),
            ),
    {
        let ghost m = self.image();
        let mut fuel: u64 = self.disk_size();
        let ghost all = m.seek(addr, 0, start as int, end as int, m.disk.len());
        let mut buf: Vec<u8> = Vec::new();
        let mut cursor: u64 = 0;
        let mut at = addr;
        assert(all is Ok ==> buf@ + all->Ok_0 =~= all->Ok_0);
        while at.is_some()
            invariant
                self.wf(),
                m == self.image(),
                all == m.seek(addr, 0, start as int, end as int, m.disk.len()),
                self.tells(true) ==> match m.seek(
                    at,
                    cursor as int,
                    start as int,
                    end as int,
                    fuel as nat,
                ) {
                    Err(e) => all == Err::<Seq<u8>, _>(e),
                    Ok(rest) => all == Ok::<_, XHFSError>(buf@ + rest),
                },
            decreases fuel,
        {
            if fuel == 0 {
                return Err(XHFSError::from_report(Fault::ExtentLoop));
            }
            let meta = match self.read_extent_metadata(at.get()) {
                Ok(x) => x,
                Err(e) => return Err(e),
            };
            let size: u64 = meta.full_canon_data_slot.capacity as u64;
            at = meta.next_extent;
            fuel = fuel - 1;
            if size > u64::MAX - cursor {
                return Err(XHFSError::from_report(Fault::AddressOverflow));
            }
            let extent_end: u64 = cursor + size;
            if extent_end <= start {
                cursor = extent_end;
                continue;
            }
            if cursor >= end {
                assert(self.tells(true) ==> buf@ + Seq::<u8>::empty() =~= buf@);
                return Ok(buf);
            }
            let lo: u64 = start.saturating_sub(cursor);
            let hi: u64 = if end - cursor < size {
                end - cursor
            } else {
                size
            };
            let ghost had = buf@;
            let ghost part = Seq::<u8>::empty();
            if lo < hi {
                let base: u64 = meta.full_canon_data_slot.addr.get();
                let data = match self.read_clear(base + lo, hi - lo) {
                    Ok(d) => d,
                    Err(e) => return Err(e),
                };
                push_bytes(&mut buf, data.as_slice());
                proof {
                    part = data@;
                }
            }
            cursor = extent_end;
            proof {
                if self.tells(true) {
                    assert(had + part =~= buf@);
                    match m.seek(at, cursor as int, start as int, end as int, fuel as nat) {
                        Ok(rest) => {
                            assert(had + (part + rest) =~= buf@ + rest);
                        },
                        Err(e) => {},
                    }
                }
            }
        }
        assert(self.tells(true) ==> buf@ + Seq::<u8>::empty() =~= buf@);
        Ok(buf)
    }

    /// The address of the last of the extents from `addr` on; absent if there is none.
    pub(crate) fn find_last_extent(&self, addr: MaybeU64) -> (r: Result<MaybeU64, XHFSError>)
        requires
            self.wf(),
        ensures
            r is Ok ==> (r->Ok_0.raw == 0 <==> addr.raw == 0),
            r is Ok ==> r->Ok_0.raw <= u64::MAX - 8,
            self.tells(r is Ok) ==> r == self.image().last_extent(addr, self.image().disk.len()),
    {
        let ghost m = self.image();
        let mut fuel: u64 = self.disk_size();
        if addr.is_none() {
            return Ok(addr);
        }
        let mut at = addr;
        while fuel > 0
            invariant
                self.wf(),
                m == self.image(),
                at.raw != 0,
                addr.raw != 0,
                self.tells(true) ==> m.last_extent(addr, m.disk.len()) == m.last_extent(
                    at,
                    fuel as nat,
                ),
            decreases fuel,
        {
            let meta = match self.read_extent_metadata(at.get()) {
                Ok(x) => x,
                Err(e) => return Err(e),
            };
            if meta.next_extent.is_none() {
                return Ok(at);
            }
            at = meta.next_extent;
            fuel = fuel - 1;
        }
        Err(XHFSError::from_report(Fault::ExtentLoop))
    }
}

} // verus!
