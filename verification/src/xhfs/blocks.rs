//! Finding, taking and giving back data blocks.
use crate::device::Device;
use crate::error::{Fault, Operation, XHFSError};
use crate::xhfs::bitmap::{
    bit_at, bits_bytes, lemma_runs_within, run_pairs, runs, BitRunSlot, Bitmap, Bits,
};
use crate::xhfs::image::Image;
use crate::xhfs::layout::GroupLayout;
use crate::xhfs::volume::{lemma_addressable, lemma_format, lemma_group};
use crate::xhfs::XHFS;
use vstd::prelude::*;

verus! {

/// Consecutive blocks that were taken.
#[derive(Debug, Clone, Copy, PartialEq, Eq, Structural)]
pub struct AllocationSlot {
    pub absolute_byte_addr: u64,
    pub block_count: usize,
}

/// Address and number of blocks of slots.
pub open spec fn slot_pairs(v: Seq<AllocationSlot>) -> Seq<(int, int)> {
    Seq::new(v.len(), |i: int| (v[i].absolute_byte_addr as int, v[i].block_count as int))
}

/// No slot has more than `max` blocks.
pub open spec fn slots_fit(v: Seq<AllocationSlot>, max: u64) -> bool {
    forall|i: int| 0 <= i < v.len() ==> (#[trigger] v[i]).block_count <= max
}

/// Sum of the sizes of runs.
pub open spec fn total_run(rs: Seq<(nat, nat)>) -> int
    decreases rs.len(),
{
    if rs.len() == 0 {
        0
    } else {
        total_run(rs.drop_last()) + rs.last().1
    }
}

/// The first of the runs that has at least `wanted` slots.
pub open spec fn first_of_size(rs: Seq<(nat, nat)>, wanted: int) -> Option<(nat, nat)>
    decreases rs.len(),
{
    if rs.len() == 0 {
        None
    } else {
        match first_of_size(rs.drop_last(), wanted) {
            Some(r) => Some(r),
            None => if rs.last().1 >= wanted {
                Some(rs.last())
            } else {
                None
            },
        }
    }
}

/// A bitmap that is to be written for a group.
pub struct Commit {
    pub group: int,
    pub bits: Bits,
}

/// Blocks gathered so far.
pub struct Gather {
    /// Blocks that are still wanted.
    pub wanted: int,
    /// Address and number of the blocks found.
    pub slots: Seq<(int, int)>,
    /// Bitmaps in which they are marked.
    pub commits: Seq<Commit>,
}

impl Image {
    /// The runs of free data blocks of a group with the given bitmap.
    pub open spec fn free_runs(self, bits: Bits) -> Seq<(nat, nat)> {
        let blocks = self.format.param_data_block_count_per_group as nat;
        runs(
            bits.raw,
            false,
            if blocks < bits.len {
                blocks
            } else {
                bits.len
            },
        )
    }

    /// Where a data block of a group lies.
    pub open spec fn block_at(self, g: int, block: int) -> int {
        self.data_at(g) + block * self.format.block_size_bytes
    }

    /// Number of free bytes in the first `g` groups.
    pub open spec fn free_bytes(self, g: nat) -> Result<int, XHFSError>
        decreases g,
    {
        if g == 0 {
            Ok(0)
        } else {
            match self.free_bytes((g - 1) as nat) {
                Err(e) => Err(e),
                Ok(n) => match self.data_bits(g - 1) {
                    Err(e) => Err(e),
                    Ok(bits) => Ok(
                        n + total_run(self.free_runs(bits)) * self.format.block_size_bytes,
                    ),
                },
            }
        }
    }

    /// Number of bytes in free data blocks.
    pub open spec fn remaining(self) -> Result<int, XHFSError> {
        self.free_bytes(self.format.group_count as nat)
    }

    /// The first run of at least `wanted` free blocks from group `g` on: its group, its
    /// bitmap and its first block.
    pub open spec fn first_fit(self, wanted: int, g: int) -> Result<
        Option<(int, Bits, nat)>,
        XHFSError,
    >
        decreases self.format.group_count - g,
    {
        if g >= self.format.group_count {
            Ok(None)
        } else {
            match self.data_bits(g) {
                Err(e) => Err(e),
                Ok(bits) => match first_of_size(self.free_runs(bits), wanted) {
                    Some(run) => Ok(Some((g, bits, run.0))),
                    None => self.first_fit(wanted, g + 1),
                },
            }
        }
    }

    /// Takes blocks from the first `k` free runs of a group until none is wanted.
    pub open spec fn take_runs(self, g: int, bits: Bits, wanted: int, k: nat) -> (
        int,
        Bits,
        Seq<(int, int)>,
    )
        decreases k,
    {
        if k == 0 {
            (wanted, bits, Seq::empty())
        } else {
            let (left, b, slots) = self.take_runs(g, bits, wanted, (k - 1) as nat);
            let run = self.free_runs(bits)[k - 1];
            if left == 0 {
                (left, b, slots)
            } else {
                let count = if run.1 < left {
                    run.1 as int
                } else {
                    left
                };
                (
                    left - count,
                    b.fill(run.0 as int, run.0 + count, true),
                    slots.push((self.block_at(g, run.0 as int), count)),
                )
            }
        }
    }

    /// Takes free blocks of the first `g` groups, run by run, until none is wanted.
    pub open spec fn gather(self, wanted: int, g: nat) -> Result<Gather, XHFSError>
        decreases g,
    {
        if g == 0 {
            Ok(Gather { wanted, slots: Seq::empty(), commits: Seq::empty() })
        } else {
            match self.gather(wanted, (g - 1) as nat) {
                Err(e) => Err(e),
                Ok(p) => if p.wanted == 0 {
                    Ok(p)
                } else {
                    match self.data_bits(g - 1) {
                        Err(e) => Err(e),
                        Ok(bits) => {
                            let (left, b, slots) = self.take_runs(
                                g - 1,
                                bits,
                                p.wanted,
                                self.free_runs(bits).len(),
                            );
                            Ok(
                                Gather {
                                    wanted: left,
                                    slots: p.slots + slots,
                                    commits: if slots.len() > 0 {
                                        p.commits.push(Commit { group: g - 1, bits: b })
                                    } else {
                                        p.commits
                                    },
                                },
                            )
                        },
                    }
                },
            }
        }
    }

    /// Writes the first `k` of the bitmaps.
    pub open spec fn commit(self, commits: Seq<Commit>, k: nat) -> (Image, Result<(), XHFSError>)
        decreases k,
    {
        if k == 0 {
            (self, Ok(()))
        } else {
            let (m, r) = self.commit(commits, (k - 1) as nat);
            match r {
                Err(e) => (m, Err(e)),
                Ok(()) => m.put_raw(
                    self.data_bitmap_at(commits[k - 1].group),
                    bits_bytes(commits[k - 1].bits),
                ),
            }
        }
    }

    /// Takes `wanted` blocks: one run if a group has one that is long enough, else pieces
    /// in the order of the disk. Nothing is taken if there are too few.
    pub open spec fn allocate(self, wanted: int) -> (Image, Result<Seq<(int, int)>, XHFSError>) {
        match self.first_fit(wanted, 0) {
            Err(e) => (self, Err(e)),
            Ok(Some((g, bits, start))) => {
                let taken = bits.trimmed().fill(start as int, start + wanted, true);
                let (m, r) = self.put_raw(self.data_bitmap_at(g), bits_bytes(taken));
                match r {
                    Err(e) => (m, Err(e)),
                    Ok(()) => (m, Ok(seq![(self.block_at(g, start as int), wanted)])),
                }
            },
            Ok(None) => if wanted == 0 {
                (self, Ok(Seq::empty()))
            } else {
                match self.gather(wanted, self.format.group_count as nat) {
                    Err(e) => (self, Err(e)),
                    Ok(p) => if p.wanted > 0 {
                        (
                            self,
                            Err(
                                XHFSError::Insufficient {
                                    operation: Operation::Allocate,
                                    wanted: p.wanted as usize,
                                },
                            ),
                        )
                    } else {
                        let (m, r) = self.commit(p.commits, p.commits.len());
                        match r {
                            Err(e) => (m, Err(e)),
                            Ok(()) => (m, Ok(p.slots)),
                        }
                    },
                }
            },
        }
    }
}

/// How many of the first `n` bits have the value `target`.
pub open spec fn count_bits(raw: Seq<u8>, target: bool, n: nat) -> nat
    decreases n,
{
    if n == 0 {
        0
    } else {
        count_bits(raw, target, (n - 1) as nat) + (if bit_at(raw, n - 1) == target {
            1nat
        } else {
            0nat
        })
    }
}

/// Runs hold each bit of their value once.
pub proof fn runs_count_bits(raw: Seq<u8>, target: bool, n: nat)
    ensures
        total_run(runs(raw, target, n)) == count_bits(raw, target, n),
        count_bits(raw, target, n) <= n,
    decreases n,
{
    if n > 0 {
        let b = runs(raw, target, (n - 1) as nat);
        let a = runs(raw, target, n);
        runs_count_bits(raw, target, (n - 1) as nat);
        if a != b {
            if b.len() > 0 && b.last().0 + b.last().1 == n - 1 {
                assert(a.drop_last() =~= b.drop_last());
            } else {
                assert(a.drop_last() =~= b);
            }
        }
    }
}

/// The total size of runs.
pub(crate) fn sum_runs(
    v: &Vec<BitRunSlot>,
    Ghost(raw): Ghost<Seq<u8>>,
    Ghost(target): Ghost<bool>,
    Ghost(n): Ghost<nat>,
) -> (r: u64)
    requires
        run_pairs(v@) == runs(raw, target, n),
        n <= u64::MAX,
    ensures
        r == total_run(run_pairs(v@)),
        r <= n,
{
    proof {
        runs_count_bits(raw, target, n);
    }
    let ghost rs = run_pairs(v@);
    let mut total: u64 = 0;
    let mut i: usize = 0;
    while i < v.len()
        invariant
            i <= v@.len(),
            rs == run_pairs(v@),
            total == total_run(rs.subrange(0, i as int)),
            total_run(rs) <= u64::MAX,
        decreases v@.len() - i,
    {
        proof {
            assert(rs.subrange(0, i + 1).drop_last() =~= rs.subrange(0, i as int));
            lemma_total_prefix(rs, i + 1);
        }
        total = total + v[i].size as u64;
        i = i + 1;
    }
    assert(rs.subrange(0, i as int) =~= rs);
    total
}

proof fn lemma_total_prefix(rs: Seq<(nat, nat)>, k: int)
    requires
        0 <= k <= rs.len(),
    ensures
        0 <= total_run(rs.subrange(0, k)) <= total_run(rs),
    decreases rs.len() - k,
{
    if k < rs.len() {
        lemma_total_prefix(rs, k + 1);
        assert(rs.subrange(0, k + 1).drop_last() =~= rs.subrange(0, k));
        lemma_total_nonneg(rs.subrange(0, k));
    } else {
        assert(rs.subrange(0, k) =~= rs);
        lemma_total_nonneg(rs);
    }
}

proof fn lemma_total_nonneg(rs: Seq<(nat, nat)>)
    ensures
        0 <= total_run(rs),
    decreases rs.len(),
{
    if rs.len() > 0 {
        lemma_total_nonneg(rs.drop_last());
    }
}

impl<D: Device> XHFS<D> {
    /// The bitmap of the data blocks of group `g`.
    pub(crate) fn read_data_bitmap(&self, g: u64) -> (r: Result<(GroupLayout, Bitmap), XHFSError>)
        requires
            self.wf(),
            g < self.static_format.group_count,
        ensures
            r is Ok ==> r->Ok_0.0 == self.geometry.group(g as int),
            self.tells(r is Ok) ==> match r {
                Ok(p) => self.image().data_bits(g as int) == Ok::<_, XHFSError>(p.1@),
                Err(e) => self.image().data_bits(g as int) == Err::<Bits, _>(e),
            },
    {
        proof {
            lemma_format(self.image());
            lemma_addressable(self.image(), g as int, g as int);
            lemma_group(self.image(), g as int);
        }
        let group = match self.locate_group(g) {
            Some(l) => l,
            None => return Err(XHFSError::from_report(Fault::AddressOverflow)),
        };
        match self.read_bitmap(group.data_bitmap_region) {
            Ok(b) => Ok((group, b)),
            Err(e) => Err(e),
        }
    }

    /// The runs of free data blocks of a group with the given bitmap.
    pub(crate) fn free_block_runs(&self, bitmap: &Bitmap) -> (r: Vec<BitRunSlot>)
        requires
            self.wf(),
        ensures
            run_pairs(r@) == self.image().free_runs(bitmap@),
    {
        bitmap.runs_of(false, Some(self.geometry.usable_blocks_per_group as usize))
    }

    /// Number of bytes in free data blocks.
    pub fn total_remaining_capacity(&self) -> (r: Result<usize, XHFSError>)
        requires
            self.wf(),
        ensures
            self.tells(r is Ok) ==> match r {
                Ok(n) => self.image().remaining() == Ok::<int, XHFSError>(n as int),
                Err(e) => self.image().remaining() == Err::<int, _>(e),
            },
    {
        let ghost m = self.image();
        proof {
            lemma_format(m);
        }
        let bs: u64 = self.static_format.block_size_bytes;
        let blocks: u64 = self.static_format.param_data_block_count_per_group;
        let mut total: u64 = 0;
        let mut g: u64 = 0;
        while g < self.static_format.group_count
            invariant
                self.wf(),
                m == self.image(),
                g <= m.format.group_count,
                bs == m.format.block_size_bytes,
                blocks == m.format.param_data_block_count_per_group,
                total <= m.group_at(g as int),
                self.tells(true) ==> m.free_bytes(g as nat) == Ok::<int, XHFSError>(total as int),
            decreases self.static_format.group_count - g,
        {
            let (_, bitmap) = match self.read_data_bitmap(g) {
                Ok(p) => p,
                Err(e) => {
                    proof {
                        if self.tells(false) {
                            lemma_free_bytes_err(m, (g + 1) as nat, m.format.group_count as nat);
                        }
                    }
                    return Err(e);
                },
            };
            let free = self.free_block_runs(&bitmap);
            let ghost n = if blocks < bitmap@.len {
                blocks as nat
            } else {
                bitmap@.len
            };
            let count: u64 = sum_runs(&free, Ghost(bitmap@.raw), Ghost(false), Ghost(n));
            proof {
                lemma_format(m);
                lemma_addressable(m, g as int, g as int);
                assert(0 <= count * bs <= blocks * bs) by (nonlinear_arith)
                    requires
                        0 <= count <= blocks,
                        0 <= bs,
                ;
            }
            total = total + count * bs;
            g = g + 1;
        }
        Ok(total as usize)
    }
}

proof fn lemma_free_bytes_err(m: Image, a: nat, b: nat)
    requires
        a <= b,
        m.free_bytes(a) is Err,
    ensures
        m.free_bytes(b) == m.free_bytes(a),
    decreases b,
{
    if a < b {
        lemma_free_bytes_err(m, a, (b - 1) as nat);
    }
}

/// The first of the runs that has at least `wanted` slots.
fn pick_run(v: &Vec<BitRunSlot>, wanted: usize) -> (r: Option<BitRunSlot>)
    ensures
        match r {
            Some(x) => first_of_size(run_pairs(v@), wanted as int) == Some(
                (x.start as nat, x.size as nat),
            ) && x.size >= wanted && v@.contains(x),
            None => first_of_size(run_pairs(v@), wanted as int) is None,
        },
{
    let ghost rs = run_pairs(v@);
    let mut i: usize = 0;
    while i < v.len()
        invariant
            i <= v@.len(),
            rs == run_pairs(v@),
            first_of_size(rs.subrange(0, i as int), wanted as int) is None,
        decreases v@.len() - i,
    {
        proof {
            assert(rs.subrange(0, i + 1).drop_last() =~= rs.subrange(0, i as int));
        }
        if v[i].size >= wanted {
            proof {
                lemma_first_of_size(rs, wanted as int, i + 1);
                assert(v@[i as int] == v@[i as int]);
            }
            return Some(v[i]);
        }
        i = i + 1;
    }
    assert(rs.subrange(0, i as int) =~= rs);
    None
}

proof fn lemma_first_of_size(rs: Seq<(nat, nat)>, wanted: int, k: int)
    requires
        0 <= k <= rs.len(),
        first_of_size(rs.subrange(0, k), wanted) is Some,
    ensures
        first_of_size(rs, wanted) == first_of_size(rs.subrange(0, k), wanted),
    decreases rs.len() - k,
{
    if k < rs.len() {
        assert(rs.subrange(0, k + 1).drop_last() =~= rs.subrange(0, k));
        lemma_first_of_size(rs, wanted, k + 1);
    } else {
        assert(rs.subrange(0, k) =~= rs);
    }
}

/// A data block of an addressable group has an address.
proof fn lemma_block(m: Image, g: int, block: int)
    requires
        m.format.usable(),
        0 <= g,
        m.addressable(g),
        0 <= block <= m.format.param_data_block_count_per_group,
    ensures
        0 <= block * m.format.block_size_bytes <= m.format.data_size(),
        0 <= m.block_at(g, block) <= u64::MAX,
{
    lemma_format(m);
    lemma_group(m, g);
    let bs = m.format.block_size_bytes as int;
    let n = m.format.param_data_block_count_per_group as int;
    assert(0 <= block * bs <= n * bs) by (nonlinear_arith)
        requires
            0 <= block <= n,
            0 <= bs,
    ;
}

impl<D: Device> XHFS<D> {
    /// The first run of at least `wanted` free blocks: its group, its bitmap and its first
    /// block.
    fn find_run(&self, wanted: usize) -> (r: Result<Option<(u64, Bitmap, usize)>, XHFSError>)
        requires
            self.wf(),
        ensures
            match r {
                Ok(Some(p)) => p.0 < self.static_format.group_count && p.2 + wanted <= p.1@.len
                    && p.2 + wanted <= self.static_format.param_data_block_count_per_group,
                _ => true,
            },
            self.tells(r is Ok) ==> match r {
                Ok(Some(p)) => self.image().first_fit(wanted as int, 0) == Ok::<_, XHFSError>(
                    Some((p.0 as int, p.1@, p.2 as nat)),
                ),
                Ok(None) => self.image().first_fit(wanted as int, 0) == Ok::<_, XHFSError>(None::<(int, Bits, nat)>),
                Err(e) => self.image().first_fit(wanted as int, 0) == Err::<
                    Option<(int, Bits, nat)>,
                    _,
                >(e),
            },
    {
        let ghost m = self.image();
        let mut g: u64 = 0;
        while g < self.static_format.group_count
            invariant
                self.wf(),
                m == self.image(),
                g <= m.format.group_count,
                self.tells(true) ==> m.first_fit(wanted as int, 0) == m.first_fit(
                    wanted as int,
                    g as int,
                ),
            decreases self.static_format.group_count - g,
        {
            let (_, bitmap) = match self.read_data_bitmap(g) {
                Ok(p) => p,
                Err(e) => return Err(e),
            };
            let free = self.free_block_runs(&bitmap);
            if let Some(slot) = pick_run(&free, wanted) {
                proof {
                    let n = if m.format.param_data_block_count_per_group < bitmap@.len {
                        m.format.param_data_block_count_per_group as nat
                    } else {
                        bitmap@.len
                    };
                    lemma_runs_within(bitmap@.raw, false, n);
                    let k = choose|k: int| 0 <= k < free@.len() && free@[k] == slot;
                    assert(run_pairs(free@)[k] == (slot.start as nat, slot.size as nat));
                }
                return Ok(Some((g, bitmap, slot.start)));
            }
            g = g + 1;
        }
        Ok(None)
    }

    /// Takes blocks from the free runs of group `g` until none is wanted.
    fn take_from_group(
        &self,
        g: u64,
        group: &GroupLayout,
        bitmap: Bitmap,
        wanted: usize,
        slots: &mut Vec<AllocationSlot>,
    ) -> (r: (usize, Bitmap, bool))
        requires
            self.wf(),
            g < self.static_format.group_count,
            *group == self.geometry.group(g as int),
            slots_fit(old(slots)@, self.static_format.param_data_block_count_per_group),
        ensures
            slots_fit(final(slots)@, self.static_format.param_data_block_count_per_group),
            ({
                let (left, b, found) = self.image().take_runs(
                    g as int,
                    bitmap@,
                    wanted as int,
                    self.image().free_runs(bitmap@).len(),
                );
                &&& r.0 == left
                &&& r.1@ == b
                &&& r.2 == (found.len() > 0)
                &&& slot_pairs(final(slots)@) == slot_pairs(old(slots)@) + found
            }),
    {
        let ghost m = self.image();
        let ghost before = slot_pairs(slots@);
        let ghost bits = bitmap@;
        let ghost rs = m.free_runs(bits);
        proof {
            lemma_format(m);
            lemma_addressable(m, g as int, g as int);
            lemma_group(m, g as int);
            let n = if m.format.param_data_block_count_per_group < bits.len {
                m.format.param_data_block_count_per_group as nat
            } else {
                bits.len
            };
            lemma_runs_within(bits.raw, false, n);
        }
        let free = self.free_block_runs(&bitmap);
        let mut map = bitmap;
        let mut left: usize = wanted;
        let mut changed = false;
        let mut i: usize = 0;
        assert(slot_pairs(slots@) =~= before + Seq::<(int, int)>::empty());
        while i < free.len()
            invariant
                i <= free@.len(),
                self.wf(),
                m == self.image(),
                rs == run_pairs(free@),
                rs == m.free_runs(bits),
                g < m.format.group_count,
                m.addressable(g as int),
                *group == self.geometry.group(g as int),
                map@.len == bits.len,
                slots_fit(slots@, m.format.param_data_block_count_per_group),
                (left as int, map@) == (
                    m.take_runs(g as int, bits, wanted as int, i as nat).0,
                    m.take_runs(g as int, bits, wanted as int, i as nat).1,
                ),
                changed == (m.take_runs(g as int, bits, wanted as int, i as nat).2.len() > 0),
                slot_pairs(slots@) == before + m.take_runs(
                    g as int,
                    bits,
                    wanted as int,
                    i as nat,
                ).2,
                forall|k: int|
                    0 <= k < rs.len() ==> {
                        let r = #[trigger] rs[k];
                        r.1 > 0 && r.0 + r.1 <= bits.len && r.0 + r.1
                            <= m.format.param_data_block_count_per_group
                    },
            decreases free@.len() - i,
        {
            let slot = free[i];
            assert(rs[i as int] == (slot.start as nat, slot.size as nat));
            if left > 0 {
                let count: usize = if slot.size < left {
                    slot.size
                } else {
                    left
                };
                let _done = map.set_range(slot.start, count, true);
                proof {
                    lemma_block(m, g as int, slot.start as int);
                    lemma_group(m, g as int);
                }
                let addr: u64 = group.data_region.start.get() + slot.start as u64
                    * self.static_format.block_size_bytes;
                let ghost had = slot_pairs(slots@);
                let ghost found = m.take_runs(g as int, bits, wanted as int, i as nat).2;
                slots.push(AllocationSlot { absolute_byte_addr: addr, block_count: count });
                proof {
                    assert(slot_pairs(slots@) =~= had.push((addr as int, count as int)));
                    assert(had.push((addr as int, count as int)) =~= before + found.push(
                        (addr as int, count as int),
                    ));
                }
                changed = true;
                left = left - count;
            }
            i = i + 1;
        }
        (left, map, changed)
    }

    /// Takes `wanted` blocks: one run if a group has one that is long enough, else pieces
    /// in the order of the disk. Nothing is taken if there are too few.
    pub fn allocate(&mut self, wanted_blocks: usize) -> (r: Result<Vec<AllocationSlot>, XHFSError>)
        requires
            old(self).wf(),
        ensures
            Self::kept(old(self), final(self)),
            r is Ok ==> slots_fit(
                r->Ok_0@,
                old(self).static_format.param_data_block_count_per_group,
            ),
            old(self).obeys(r is Ok) ==> {
                let (m, s) = old(self).image().allocate(wanted_blocks as int);
                &&& final(self).image() == m
                &&& match r {
                    Ok(v) => s == Ok::<_, XHFSError>(slot_pairs(v@)),
                    Err(e) => s == Err::<Seq<(int, int)>, _>(e),
                }
            },
    {
        let ghost m = self.image();
        let mut slots: Vec<AllocationSlot> = Vec::new();
        match self.find_run(wanted_blocks) {
            Err(e) => return Err(e),
            Ok(Some((g, bitmap, start))) => {
                proof {
                    lemma_format(m);
                    lemma_addressable(m, g as int, g as int);
                    lemma_group(m, g as int);
                    lemma_block(m, g as int, start as int);
                }
                let group = match self.locate_group(g) {
                    Some(l) => l,
                    None => return Err(XHFSError::from_report(Fault::AddressOverflow)),
                };
                let mut taken = bitmap.clone();
                let _done = taken.set_range(start, wanted_blocks, true);
                let addr: u64 = group.data_region.start.get() + start as u64
                    * self.static_format.block_size_bytes;
                match self.write_bitmap(group.data_bitmap_region, &taken) {
                    Ok(()) => {},
                    Err(e) => return Err(e),
                }
                slots.push(AllocationSlot { absolute_byte_addr: addr, block_count: wanted_blocks });
                assert(slot_pairs(slots@) =~= seq![(addr as int, wanted_blocks as int)]);
                return Ok(slots);
            },
            Ok(None) => {},
        }
        if wanted_blocks == 0 {
            assert(slot_pairs(slots@) =~= Seq::empty());
            return Ok(slots);
        }
        let mut left: usize = wanted_blocks;
        let mut groups: Vec<u64> = Vec::new();
        let mut maps: Vec<Bitmap> = Vec::new();
        let mut g: u64 = 0;
        assert(slot_pairs(slots@) =~= Seq::empty());
        assert(commits_of(groups@, maps@) =~= Seq::empty());
        while g < self.static_format.group_count
            invariant
                self.wf(),
                *self == *old(self),
                m == self.image(),
                wanted_blocks > 0,
                self.obeys(true) ==> m.first_fit(wanted_blocks as int, 0) == Ok::<_, XHFSError>(
                    None::<(int, Bits, nat)>,
                ),
                g <= m.format.group_count,
                maps@.len() == groups@.len(),
                slots_fit(slots@, m.format.param_data_block_count_per_group),
                forall|k: int|
                    0 <= k < groups@.len() ==> #[trigger] groups@[k] < m.format.group_count,
                self.obeys(true) ==> m.gather(wanted_blocks as int, g as nat) == Ok::<_, XHFSError>(
                    Gather {
                        wanted: left as int,
                        slots: slot_pairs(slots@),
                        commits: commits_of(groups@, maps@),
                    },
                ),
            decreases self.static_format.group_count - g,
        {
            if left > 0 {
                let (group, bitmap) = match self.read_data_bitmap(g) {
                    Ok(p) => p,
                    Err(e) => {
                        proof {
                            if self.obeys(false) {
                                lemma_gather_err(
                                    m,
                                    wanted_blocks as int,
                                    (g + 1) as nat,
                                    m.format.group_count as nat,
                                );
                            }
                        }
                        return Err(e);
                    },
                };
                let ghost had = commits_of(groups@, maps@);
                let (rest, map, changed) = self.take_from_group(
                    g,
                    &group,
                    bitmap,
                    left,
                    &mut slots,
                );
                left = rest;
                if changed {
                    groups.push(g);
                    maps.push(map);
                    assert(commits_of(groups@, maps@) =~= had.push(
                        Commit { group: g as int, bits: map@ },
                    ));
                }
            }
            g = g + 1;
        }
        if left > 0 {
            return Err(
                XHFSError::Insufficient { operation: Operation::Allocate, wanted: left },
            );
        }
        let ghost commits = commits_of(groups@, maps@);
        let mut i: usize = 0;
        while i < groups.len()
            invariant
                i <= groups@.len(),
                maps@.len() == groups@.len(),
                slots_fit(slots@, m.format.param_data_block_count_per_group),
                Self::kept(old(self), self),
                m == old(self).image(),
                m.format.usable(),
                commits == commits_of(groups@, maps@),
                wanted_blocks > 0,
                old(self).obeys(true) ==> m.first_fit(wanted_blocks as int, 0) == Ok::<_, XHFSError>(
                    None::<(int, Bits, nat)>,
                ) && m.gather(wanted_blocks as int, m.format.group_count as nat) == Ok::<
                    _,
                    XHFSError,
                >(Gather { wanted: 0, slots: slot_pairs(slots@), commits }),
                forall|k: int|
                    0 <= k < groups@.len() ==> #[trigger] groups@[k] < m.format.group_count,
                old(self).obeys(true) ==> (self.image(), Ok::<(), XHFSError>(())) == m.commit(
                    commits,
                    i as nat,
                ),
            decreases groups@.len() - i,
        {
            let g: u64 = groups[i];
            assert(commits[i as int] == (Commit { group: g as int, bits: maps@[i as int]@ }));
            proof {
                lemma_format(m);
                lemma_addressable(m, g as int, g as int);
                lemma_group(m, g as int);
                lemma_group(self.image(), g as int);
            }
            let group = match self.locate_group(g) {
                Some(l) => l,
                None => return Err(XHFSError::from_report(Fault::AddressOverflow)),
            };
            match self.write_bitmap(group.data_bitmap_region, &maps[i]) {
                Ok(()) => {},
                Err(e) => {
                    proof {
                        if old(self).obeys(false) {
                            lemma_commit_err(m, commits, (i + 1) as nat, commits.len());
                        }
                    }
                    return Err(e);
                },
            }
            i = i + 1;
        }
        Ok(slots)
    }
}

/// Groups and their bitmaps as commits.
pub open spec fn commits_of(groups: Seq<u64>, maps: Seq<Bitmap>) -> Seq<Commit> {
    Seq::new(groups.len(), |i: int| Commit { group: groups[i] as int, bits: maps[i]@ })
}

proof fn lemma_gather_err(m: Image, wanted: int, a: nat, b: nat)
    requires
        a <= b,
        m.gather(wanted, a) is Err,
    ensures
        m.gather(wanted, b) == m.gather(wanted, a),
    decreases b,
{
    if a < b {
        lemma_gather_err(m, wanted, a, (b - 1) as nat);
    }
}

proof fn lemma_commit_err(m: Image, commits: Seq<Commit>, a: nat, b: nat)
    requires
        a <= b,
        m.commit(commits, a).1 is Err,
    ensures
        m.commit(commits, b) == m.commit(commits, a),
    decreases b,
{
    if a < b {
        lemma_commit_err(m, commits, a, (b - 1) as nat);
    }
}

} // verus!
