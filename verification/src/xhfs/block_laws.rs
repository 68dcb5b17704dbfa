//! Blocks that are taken were free, and nothing else changes.
use crate::codec::lemma_le64;
use crate::error::XHFSError;
use crate::xhfs::bitmap::{
    bit_at, bitmap_round_trip, bits_bytes, fill_bits, lemma_fill_bits, max_packed, maximal_run,
    runs_are_maximal, Bits,
};
use crate::xhfs::blocks::{first_of_size, Commit, Gather};
use crate::xhfs::image::Image;
use crate::xhfs::laws::lemma_same_read;
use crate::xhfs::store_laws::{in_spans, slot_spans, slots_ok};
use crate::xhfs::volume::{lemma_addressable, lemma_format};
use vstd::prelude::*;

verus! {

/// The group of an address and the distance from the start of the group.
pub proof fn lemma_place(m: Image, g: int, o: int)
    requires
        m.format.usable(),
        0 <= o < m.format.stride(),
    ensures
        (m.group_at(g) + o) / m.format.stride() == g,
        (m.group_at(g) + o) % m.format.stride() == o,
{
    lemma_format(m);
    vstd::arithmetic::div_mod::lemma_fundamental_div_mod_converse(
        m.group_at(g) + o,
        m.format.stride(),
        g,
        o,
    );
}

/// Groups lie one after the other.
pub proof fn lemma_groups_apart(m: Image, g: int, h: int)
    requires
        m.format.usable(),
        0 <= g < h,
    ensures
        0 <= m.group_at(g),
        m.group_at(g) + m.format.stride() <= m.group_at(h),
{
    lemma_format(m);
    lemma_addressable(m, h, g + 1);
    lemma_addressable(m, g, g);
}

/// Every data bitmap can be read and has a bit for each data block.
pub open spec fn mapped(m: Image) -> bool {
    forall|g: int|
        0 <= g < m.format.group_count ==> (#[trigger] m.data_bits(g)) is Ok
            && m.data_bits(g)->Ok_0.len == m.format.param_data_block_count_per_group
}

/// Data block `b` of group `g` is marked taken.
pub open spec fn taken(m: Image, g: int, b: int) -> bool {
    m.data_bits(g) is Ok && m.data_bits(g)->Ok_0.get(b)
}

/// Data block `b` of group `g` exists.
pub open spec fn is_block(m: Image, g: int, b: int) -> bool {
    0 <= g < m.format.group_count && 0 <= b < m.format.param_data_block_count_per_group
}

/// The same volume, with at most data bitmaps changed.
pub open spec fn same_but_marks(a: Image, b: Image) -> bool {
    &&& a.format == b.format
    &&& a.cipher == b.cipher
    &&& a.disk.len() == b.disk.len()
    &&& forall|i: int|
        0 <= i < a.disk.len() && !(a.format.data_bitmap_at() <= i % a.format.stride()
            < a.format.inode_bitmap_at()) ==> #[trigger] a.disk[i] == b.disk[i]
}

/// Bits that are read have the bytes that they need.
pub proof fn lemma_bits_wf(m: Image, g: int)
    requires
        m.format.usable(),
        m.data_bits(g) is Ok,
    ensures
        m.data_bits(g)->Ok_0.wf(),
        m.data_bits(g)->Ok_0.raw.len() <= max_packed(),
{
}

/// Writing the data bitmap of a group changes that bitmap and nothing else.
pub proof fn lemma_put_bits(m: Image, g: int, bits: Bits)
    requires
        m.format.usable(),
        0 <= g < m.format.group_count,
        bits.wf(),
        bits.len == m.format.param_data_block_count_per_group,
        m.put_raw(m.data_bitmap_at(g), bits_bytes(bits)).1 is Ok,
    ensures
        ({
            let m2 = m.put_raw(m.data_bitmap_at(g), bits_bytes(bits)).0;
            &&& m2.data_bits(g) == Ok::<_, XHFSError>(bits)
            &&& forall|h: int| 0 <= h && h != g ==> #[trigger] m2.data_bits(h) == m.data_bits(h)
            &&& same_but_marks(m, m2)
        }),
{
    let f = m.format;
    lemma_format(m);
    lemma_addressable(m, g, g);
    let bytes = bits_bytes(bits);
    lemma_le64(bits.len as u64);
    let at = m.data_bitmap_at(g);
    let m2 = m.put_raw(at, bytes).0;
    assert(bytes.len() == f.data_bitmap_size());
    assert(m2.disk.subrange(at, at + bytes.len()) =~= bytes);
    bitmap_round_trip(bits);
    assert forall|h: int| 0 <= h && h != g implies #[trigger] m2.data_bits(h) == m.data_bits(h) by {
        if h < g {
            lemma_groups_apart(m, h, g);
        } else {
            lemma_groups_apart(m, g, h);
        }
        lemma_same_read(m, m2, m.data_bitmap_at(h), f.data_bitmap_size());
    }
    assert forall|i: int|
        0 <= i < m.disk.len() && !(f.data_bitmap_at() <= i % f.stride()
            < f.inode_bitmap_at()) implies #[trigger] m.disk[i] == m2.disk[i] by {
        if at <= i < at + bytes.len() {
            lemma_place(m, g, i - m.group_at(g));
        }
    }
}

/// A slot of `count` blocks from block `b` of group `g` on.
pub open spec fn home(m: Image, slot: (int, int), g: int, b: int) -> bool {
    &&& 0 <= g < m.format.group_count
    &&& 0 <= b
    &&& 0 <= slot.1
    &&& b + slot.1 <= m.format.param_data_block_count_per_group
    &&& slot.0 == m.block_at(g, b)
}

/// The slot lies among the data blocks of a group.
pub open spec fn has_home(m: Image, slot: (int, int)) -> bool {
    exists|g: int, b: int| home(m, slot, g, b)
}

/// All slots lie among data blocks.
pub open spec fn all_home(m: Image, slots: Seq<(int, int)>) -> bool {
    forall|k: int| 0 <= k < slots.len() ==> has_home(m, #[trigger] slots[k])
}

/// Block `b` of group `g` lies in one of the slots.
pub open spec fn in_slots(m: Image, slots: Seq<(int, int)>, g: int, b: int) -> bool {
    in_spans(slot_spans(slots, m.format.block_size_bytes as int), m.block_at(g, b))
}

/// The blocks of a group, in numbers and in addresses.
pub proof fn lemma_block_order(m: Image, g: int, a: int, b: int)
    requires
        m.format.usable(),
        0 <= g < m.format.group_count,
        0 <= a <= b <= m.format.param_data_block_count_per_group,
    ensures
        m.block_at(g, b) == m.block_at(g, a) + (b - a) * m.format.block_size_bytes,
        m.block_at(g, a) <= m.block_at(g, b),
        a < b ==> m.block_at(g, a) < m.block_at(g, b),
        m.data_at(g) <= m.block_at(g, a),
        m.block_at(g, b) <= m.group_at(g + 1) <= usize::MAX,
        0 < m.data_at(g),
{
    lemma_format(m);
    lemma_addressable(m, g, g);
    lemma_addressable(m, m.format.group_count as int, g + 1);
    let bs = m.format.block_size_bytes as int;
    let n = m.format.param_data_block_count_per_group as int;
    assert(b * bs == a * bs + (b - a) * bs && 0 <= a * bs <= b * bs <= n * bs && (a < b ==> a * bs
        < b * bs)) by (nonlinear_arith)
        requires
            0 <= a <= b <= n,
            bs > 0,
    ;
}

/// Which block an address of a block belongs to: blocks do not overlap.
pub proof fn lemma_block_in_slot(m: Image, slot: (int, int), g: int, b: int, h: int, c: int)
    requires
        m.format.usable(),
        home(m, slot, g, b),
        is_block(m, h, c),
    ensures
        (slot.0 <= m.block_at(h, c) < slot.0 + slot.1 * m.format.block_size_bytes) <==> (h == g
            && b <= c < b + slot.1),
{
    let bs = m.format.block_size_bytes as int;
    lemma_block_order(m, g, b, b + slot.1);
    lemma_block_order(m, h, c, c + 1);
    if g < h {
        lemma_groups_apart(m, g, h);
        lemma_addressable(m, g, g);
    } else if h < g {
        lemma_groups_apart(m, h, g);
        lemma_addressable(m, h, h);
    } else {
        if c < b {
            lemma_block_order(m, g, c, b);
        } else if c >= b + slot.1 {
            lemma_block_order(m, g, b + slot.1, c);
        } else {
            lemma_block_order(m, g, b, c);
            lemma_block_order(m, g, c + 1, b + slot.1);
        }
    }
}

/// A slot with a home has addresses.
pub proof fn lemma_home_addr(m: Image, slot: (int, int))
    requires
        m.format.usable(),
        has_home(m, slot),
    ensures
        0 < slot.0,
        slot.0 + slot.1 * m.format.block_size_bytes <= usize::MAX,
{
    let (g, b) = choose|g: int, b: int| home(m, slot, g, b);
    lemma_block_order(m, g, b, b + slot.1);
}

/// The first long enough run is one of the runs.
pub proof fn lemma_first_is_run(rs: Seq<(nat, nat)>, wanted: int) -> (k: int)
    requires
        first_of_size(rs, wanted) is Some,
    ensures
        0 <= k < rs.len(),
        rs[k] == first_of_size(rs, wanted)->0,
        rs[k].1 >= wanted,
    decreases rs.len(),
{
    if first_of_size(rs.drop_last(), wanted) is Some {
        lemma_first_is_run(rs.drop_last(), wanted)
    } else {
        rs.len() - 1
    }
}

/// What the search for one run finds.
pub proof fn lemma_first_fit(m: Image, wanted: int, g: int)
    requires
        m.format.usable(),
        0 <= g,
        0 <= wanted,
        m.first_fit(wanted, g) is Ok,
        m.first_fit(wanted, g)->Ok_0 is Some,
    ensures
        ({
            let (h, bits, start) = m.first_fit(wanted, g)->Ok_0->0;
            &&& g <= h < m.format.group_count
            &&& m.data_bits(h) == Ok::<_, XHFSError>(bits)
            &&& start + wanted <= m.format.param_data_block_count_per_group
            &&& start + wanted <= bits.len
            &&& forall|i: int| start <= i < start + wanted ==> !(#[trigger] bits.get(i))
            &&& start > 0 ==> bits.get(start - 1)
        }),
    decreases m.format.group_count - g,
{
    let bits = m.data_bits(g)->Ok_0;
    let rs = m.free_runs(bits);
    match first_of_size(rs, wanted) {
        Some(run) => {
            let blocks = m.format.param_data_block_count_per_group as nat;
            let n = if blocks < bits.len {
                blocks
            } else {
                bits.len
            };
            runs_are_maximal(bits.raw, false, n);
            let k = lemma_first_is_run(rs, wanted);
            assert(maximal_run(bits.raw, false, n, rs[k]));
        },
        None => {
            lemma_first_fit(m, wanted, g + 1);
        },
    }
}

/// What a group gives up: blocks of its free runs, in ascending order.
pub proof fn lemma_take_runs(m: Image, g: int, bits: Bits, wanted: int, k: nat)
    requires
        m.format.usable(),
        0 <= g < m.format.group_count,
        bits.wf(),
        bits.len == m.format.param_data_block_count_per_group,
        0 <= wanted,
        k <= m.free_runs(bits).len(),
    ensures
        ({
            let (left, b, slots) = m.take_runs(g, bits, wanted, k);
            let end = if k == 0 {
                0
            } else {
                (m.free_runs(bits)[k - 1].0 + m.free_runs(bits)[k - 1].1) as int
            };
            &&& 0 <= left <= wanted
            &&& b.wf()
            &&& b.len == bits.len
            &&& all_home(m, slots)
            &&& slots_ok(slots, m.format.block_size_bytes as int)
            &&& end <= bits.len
            &&& forall|j: int|
                0 <= j < slots.len() ==> m.data_at(g) <= (#[trigger] slots[j]).0 && slots[j].0
                    + slots[j].1 * m.format.block_size_bytes <= m.block_at(g, end)
            &&& forall|c: int|
                0 <= c < bits.len ==> (#[trigger] b.get(c)) == (bits.get(c) || in_slots(
                    m,
                    slots,
                    g,
                    c,
                ))
            &&& forall|c: int| 0 <= c < bits.len && in_slots(m, slots, g, c) ==> !bits.get(c)
        }),
    decreases k,
{
    let rs = m.free_runs(bits);
    let bs = m.format.block_size_bytes as int;
    runs_are_maximal(bits.raw, false, bits.len);
    lemma_block_order(m, g, 0, bits.len as int);
    if k > 0 {
        lemma_take_runs(m, g, bits, wanted, (k - 1) as nat);
        let (left, b, slots) = m.take_runs(g, bits, wanted, (k - 1) as nat);
        let run = rs[k - 1];
        assert(maximal_run(bits.raw, false, bits.len, rs[k - 1]));
        let end0 = if k == 1 {
            0
        } else {
            (rs[k - 2].0 + rs[k - 2].1) as int
        };
        if k > 1 {
            assert(rs[k - 2].0 + rs[k - 2].1 < rs[k - 1].0);
        }
        lemma_block_order(m, g, end0, (run.0 + run.1) as int);
        if left != 0 {
            let count = if run.1 < left {
                run.1 as int
            } else {
                left
            };
            let one = (m.block_at(g, run.0 as int), count);
            let all = slots.push(one);
            lemma_block_order(m, g, run.0 as int, run.0 + count);
            lemma_block_order(m, g, run.0 + count, (run.0 + run.1) as int);
            lemma_block_order(m, g, end0, run.0 as int);
            assert(home(m, one, g, run.0 as int));
            let b2 = b.fill(run.0 as int, run.0 + count, true);
            lemma_fill_bits(b.raw, run.0 as int, run.0 + count, true);
            assert forall|j: int| 0 <= j < all.len() implies has_home(m, #[trigger] all[j]) by {
                if j < slots.len() {
                    assert(has_home(m, slots[j]));
                }
            }
            assert forall|j: int| 0 <= j < all.len() implies 0 < (#[trigger] all[j]).0 && all[j].1
                >= 0 && all[j].0 + all[j].1 * bs <= usize::MAX by {
                if j < slots.len() {
                    assert(0 < slots[j].0);
                }
            }
            assert forall|i: int, j: int| 0 <= i < j < all.len() implies (#[trigger] all[i]).0
                + all[i].1 * bs <= (#[trigger] all[j]).0 by {
                if j < slots.len() {
                    assert(slots[i].0 + slots[i].1 * bs <= slots[j].0);
                } else {
                    assert(slots[i].0 + slots[i].1 * bs <= m.block_at(g, end0));
                }
            }
            let ss = slot_spans(slots, bs);
            let aa = slot_spans(all, bs);
            assert forall|c: int| 0 <= c < bits.len implies in_slots(m, all, g, c) == (in_slots(
                m,
                slots,
                g,
                c,
            ) || run.0 <= c < run.0 + count) by {
                let x = m.block_at(g, c);
                lemma_block_in_slot(m, one, g, run.0 as int, g, c);
                if in_spans(aa, x) {
                    let j = choose|j: int| 0 <= j < aa.len() && (#[trigger] aa[j]).0 <= x < aa[j].1;
                    if j < slots.len() {
                        assert(ss[j] == aa[j]);
                    }
                }
                if in_spans(ss, x) {
                    let j = choose|j: int| 0 <= j < ss.len() && (#[trigger] ss[j]).0 <= x < ss[j].1;
                    assert(ss[j] == aa[j]);
                }
                if run.0 <= c < run.0 + count {
                    assert(aa[slots.len() as int].0 <= x < aa[slots.len() as int].1);
                }
            }
            assert forall|c: int| 0 <= c < bits.len implies (#[trigger] b2.get(c)) == (bits.get(c)
                || in_slots(m, all, g, c)) by {
                assert(bit_at(fill_bits(b.raw, run.0 as int, run.0 + count, true), c) == if run.0
                    <= c < run.0 + count {
                    true
                } else {
                    bit_at(b.raw, c)
                });
                assert(b.get(c) == (bits.get(c) || in_slots(m, slots, g, c)));
            }
            assert forall|c: int| 0 <= c < bits.len && in_slots(m, all, g, c) implies !bits.get(
                c,
            ) by {
                if run.0 <= c < run.0 + count {
                    assert(bit_at(bits.raw, c) == false);
                }
            }
        } else {
            assert forall|j: int| 0 <= j < slots.len() implies m.data_at(g) <= (
            #[trigger] slots[j]).0 && slots[j].0 + slots[j].1 * bs <= m.block_at(
                g,
                (run.0 + run.1) as int,
            ) by {
                assert(slots[j].0 + slots[j].1 * bs <= m.block_at(g, end0));
            }
        }
    } else {
        assert forall|c: int| 0 <= c < bits.len implies !in_slots(
            m,
            Seq::<(int, int)>::empty(),
            g,
            c,
        ) by {}
    }
}

/// The group of a bitmap that is to be written for group `h`.
pub open spec fn commit_for(commits: Seq<Commit>, h: int) -> bool {
    exists|j: int| 0 <= j < commits.len() && (#[trigger] commits[j]).group == h
}

/// Bitmaps for different groups, each fit for its group.
pub open spec fn commits_ok(m: Image, commits: Seq<Commit>) -> bool {
    &&& forall|j: int|
        0 <= j < commits.len() ==> 0 <= (#[trigger] commits[j]).group < m.format.group_count
            && commits[j].bits.wf() && commits[j].bits.len
            == m.format.param_data_block_count_per_group
    &&& forall|i: int, j: int|
        0 <= i < j < commits.len() ==> (#[trigger] commits[i]).group < (
        #[trigger] commits[j]).group
}

/// What is gathered from the first `g` groups.
pub open spec fn gathered(m: Image, p: Gather, g: int) -> bool {
    let bs = m.format.block_size_bytes as int;
    &&& all_home(m, p.slots)
    &&& slots_ok(p.slots, bs)
    &&& forall|j: int|
        0 <= j < p.slots.len() ==> (#[trigger] p.slots[j]).0 + p.slots[j].1 * bs <= m.group_at(g)
    &&& commits_ok(m, p.commits)
    &&& forall|j: int| 0 <= j < p.commits.len() ==> (#[trigger] p.commits[j]).group < g
    &&& forall|j: int, b: int|
        0 <= j < p.commits.len() && 0 <= b < m.format.param_data_block_count_per_group ==> (
        #[trigger] p.commits[j].bits.get(b)) == (taken(m, p.commits[j].group, b) || in_slots(
            m,
            p.slots,
            p.commits[j].group,
            b,
        ))
    &&& forall|h: int, b: int|
        is_block(m, h, b) && #[trigger] in_slots(m, p.slots, h, b) ==> !taken(m, h, b)
            && commit_for(p.commits, h)
}

/// Slots that end before a group have no block in it.
proof fn lemma_not_in_slots(m: Image, slots: Seq<(int, int)>, g: int, b: int)
    requires
        m.format.usable(),
        is_block(m, g, b),
        forall|j: int|
            0 <= j < slots.len() ==> (#[trigger] slots[j]).0 + slots[j].1
                * m.format.block_size_bytes <= m.group_at(g),
    ensures
        !in_slots(m, slots, g, b),
{
    lemma_block_order(m, g, b, b + 1);
    lemma_format(m);
    let ss = slot_spans(slots, m.format.block_size_bytes as int);
    let x = m.block_at(g, b);
    if in_spans(ss, x) {
        let j = choose|j: int| 0 <= j < ss.len() && (#[trigger] ss[j]).0 <= x < ss[j].1;
        assert(slots[j].0 + slots[j].1 * m.format.block_size_bytes <= m.group_at(g));
    }
}

/// Blocks in joined slots.
proof fn lemma_in_joined(m: Image, a: Seq<(int, int)>, b: Seq<(int, int)>, g: int, c: int)
    ensures
        in_slots(m, a + b, g, c) == (in_slots(m, a, g, c) || in_slots(m, b, g, c)),
{
    let bs = m.format.block_size_bytes as int;
    let x = m.block_at(g, c);
    let sa = slot_spans(a, bs);
    let sb = slot_spans(b, bs);
    let sc = slot_spans(a + b, bs);
    if in_spans(sa, x) {
        let j = choose|j: int| 0 <= j < sa.len() && (#[trigger] sa[j]).0 <= x < sa[j].1;
        assert(sc[j] == sa[j]);
    }
    if in_spans(sb, x) {
        let j = choose|j: int| 0 <= j < sb.len() && (#[trigger] sb[j]).0 <= x < sb[j].1;
        assert(sc[j + a.len()] == sb[j]);
    }
    if in_spans(sc, x) {
        let j = choose|j: int| 0 <= j < sc.len() && (#[trigger] sc[j]).0 <= x < sc[j].1;
        if j < a.len() {
            assert(sa[j] == sc[j]);
        } else {
            assert(sb[j - a.len()] == sc[j]);
        }
    }
}

/// Slots of one group have no block in another.
proof fn lemma_other_group(m: Image, slots: Seq<(int, int)>, g: int, h: int, b: int)
    requires
        m.format.usable(),
        0 <= g < m.format.group_count,
        is_block(m, h, b),
        h != g,
        forall|j: int|
            0 <= j < slots.len() ==> m.data_at(g) <= (#[trigger] slots[j]).0 && slots[j].0
                + slots[j].1 * m.format.block_size_bytes <= m.group_at(g + 1),
    ensures
        !in_slots(m, slots, h, b),
{
    lemma_format(m);
    lemma_block_order(m, h, b, b + 1);
    lemma_addressable(m, g, g);
    lemma_addressable(m, h, h);
    let ss = slot_spans(slots, m.format.block_size_bytes as int);
    let x = m.block_at(h, b);
    if in_spans(ss, x) {
        let j = choose|j: int| 0 <= j < ss.len() && (#[trigger] ss[j]).0 <= x < ss[j].1;
        assert(m.data_at(g) <= slots[j].0);
        if h < g {
            lemma_groups_apart(m, h, g);
        } else {
            lemma_groups_apart(m, g, h);
        }
    }
}

pub proof fn lemma_gather(m: Image, wanted: int, g: nat)
    requires
        m.format.usable(),
        mapped(m),
        0 <= wanted,
        g <= m.format.group_count,
        m.gather(wanted, g) is Ok,
    ensures
        0 <= m.gather(wanted, g)->Ok_0.wanted <= wanted,
        gathered(m, m.gather(wanted, g)->Ok_0, g as int),
    decreases g,
{
    let bs = m.format.block_size_bytes as int;
    if g == 0 {
        let p = m.gather(wanted, 0)->Ok_0;
        assert(p.slots.len() == 0);
        assert forall|h: int, b: int| is_block(m, h, b) implies !#[trigger] in_slots(
            m,
            p.slots,
            h,
            b,
        ) by {}
    } else {
        let h0 = g - 1;
        lemma_gather(m, wanted, (g - 1) as nat);
        let p = m.gather(wanted, (g - 1) as nat)->Ok_0;
        let q = m.gather(wanted, g)->Ok_0;
        lemma_addressable(m, h0, h0);
        lemma_format(m);
        if p.wanted == 0 {
            assert forall|j: int| 0 <= j < q.slots.len() implies (#[trigger] q.slots[j]).0
                + q.slots[j].1 * bs <= m.group_at(g as int) by {
                assert(p.slots[j].0 + p.slots[j].1 * bs <= m.group_at(h0));
            }
        } else {
            let bits = m.data_bits(h0)->Ok_0;
            lemma_bits_wf(m, h0);
            let n = m.free_runs(bits).len();
            lemma_take_runs(m, h0, bits, p.wanted, n);
            let (left, b, slots) = m.take_runs(h0, bits, p.wanted, n);
            let rs = m.free_runs(bits);
            let end = if n == 0 {
                0
            } else {
                (rs[n - 1].0 + rs[n - 1].1) as int
            };
            lemma_block_order(m, h0, 0, end);
            lemma_block_order(m, h0, 0, 0);
            assert forall|j: int| 0 <= j < slots.len() implies m.data_at(h0) <= (
            #[trigger] slots[j]).0 && slots[j].0 + slots[j].1 * bs <= m.group_at(h0 + 1) by {
                assert(slots[j].0 + slots[j].1 * bs <= m.block_at(h0, end));
            }
            let all = p.slots + slots;
            assert forall|j: int| 0 <= j < all.len() implies has_home(m, #[trigger] all[j]) by {
                if j < p.slots.len() {
                    assert(has_home(m, p.slots[j]));
                } else {
                    assert(has_home(m, slots[j - p.slots.len()]));
                }
            }
            assert forall|j: int| 0 <= j < all.len() implies 0 < (#[trigger] all[j]).0 && all[j].1
                >= 0 && all[j].0 + all[j].1 * bs <= usize::MAX by {
                if j < p.slots.len() {
                    assert(0 < p.slots[j].0);
                } else {
                    assert(0 < slots[j - p.slots.len()].0);
                }
            }
            assert forall|i: int, j: int| 0 <= i < j < all.len() implies (#[trigger] all[i]).0
                + all[i].1 * bs <= (#[trigger] all[j]).0 by {
                if j < p.slots.len() {
                    assert(p.slots[i].0 + p.slots[i].1 * bs <= p.slots[j].0);
                } else if i < p.slots.len() {
                    assert(p.slots[i].0 + p.slots[i].1 * bs <= m.group_at(h0));
                    assert(m.data_at(h0) <= slots[j - p.slots.len()].0);
                } else {
                    assert(slots[i - p.slots.len()].0 + slots[i - p.slots.len()].1 * bs <= slots[j
                        - p.slots.len()].0);
                }
            }
            assert forall|j: int| 0 <= j < all.len() implies (#[trigger] all[j]).0 + all[j].1 * bs
                <= m.group_at(g as int) by {
                if j < p.slots.len() {
                    assert(p.slots[j].0 + p.slots[j].1 * bs <= m.group_at(h0));
                } else {
                    assert(slots[j - p.slots.len()].0 + slots[j - p.slots.len()].1 * bs
                        <= m.group_at(h0 + 1));
                }
            }
            assert forall|h: int, c: int|
                is_block(m, h, c) && #[trigger] in_slots(m, all, h, c) implies !taken(m, h, c)
                && commit_for(q.commits, h) by {
                lemma_in_joined(m, p.slots, slots, h, c);
                if h == h0 {
                    lemma_not_in_slots(m, p.slots, h0, c);
                    assert(in_slots(m, slots, h0, c));
                    assert(slots.len() > 0);
                    assert(q.commits[p.commits.len() as int].group == h0);
                } else {
                    lemma_other_group(m, slots, h0, h, c);
                    assert(in_slots(m, p.slots, h, c));
                    let j = choose|j: int|
                        0 <= j < p.commits.len() && (#[trigger] p.commits[j]).group == h;
                    assert(q.commits[j].group == h);
                }
            }
            assert forall|j: int, c: int|
                0 <= j < q.commits.len() && 0 <= c
                    < m.format.param_data_block_count_per_group implies (
            #[trigger] q.commits[j].bits.get(c)) == (taken(m, q.commits[j].group, c) || in_slots(
                m,
                all,
                q.commits[j].group,
                c,
            )) by {
                let h = q.commits[j].group;
                lemma_in_joined(m, p.slots, slots, h, c);
                if j < p.commits.len() {
                    assert(q.commits[j] == p.commits[j]);
                    assert(p.commits[j].group < h0);
                    lemma_other_group(m, slots, h0, h, c);
                    assert(p.commits[j].bits.get(c) == (taken(m, h, c) || in_slots(
                        m,
                        p.slots,
                        h,
                        c,
                    )));
                } else {
                    lemma_not_in_slots(m, p.slots, h0, c);
                    assert(b.get(c) == (bits.get(c) || in_slots(m, slots, h0, c)));
                }
            }
            assert forall|i: int, j: int| 0 <= i < j < q.commits.len() implies (
            #[trigger] q.commits[i]).group < (#[trigger] q.commits[j]).group by {
                if j < p.commits.len() {
                    assert(p.commits[i].group < p.commits[j].group);
                } else {
                    assert(p.commits[i].group < h0);
                }
            }
            assert forall|j: int| 0 <= j < q.commits.len() implies 0 <= (
            #[trigger] q.commits[j]).group < m.format.group_count && q.commits[j].bits.wf()
                && q.commits[j].bits.len == m.format.param_data_block_count_per_group by {
                if j < p.commits.len() {
                    assert(p.commits[j].bits.wf());
                }
            }
            assert forall|j: int| 0 <= j < q.commits.len() implies (#[trigger] q.commits[j]).group
                < g by {
                if j < p.commits.len() {
                    assert(p.commits[j].group < h0);
                }
            }
        }
    }
}

pub proof fn lemma_commit(m: Image, commits: Seq<Commit>, k: nat)
    requires
        m.format.usable(),
        mapped(m),
        commits_ok(m, commits),
        k <= commits.len(),
        m.commit(commits, k).1 is Ok,
    ensures
        ({
            let m2 = m.commit(commits, k).0;
            &&& mapped(m2)
            &&& same_but_marks(m, m2)
            &&& forall|j: int|
                0 <= j < k ==> m2.data_bits((#[trigger] commits[j]).group) == Ok::<_, XHFSError>(
                    commits[j].bits,
                )
            &&& forall|h: int|
                0 <= h && !commit_for(commits.subrange(0, k as int), h)
                    ==> #[trigger] m2.data_bits(h) == m.data_bits(h)
        }),
    decreases k,
{
    if k > 0 {
        let m1 = m.commit(commits, (k - 1) as nat).0;
        lemma_commit(m, commits, (k - 1) as nat);
        let c = commits[k - 1];
        let m2 = m.commit(commits, k).0;
        assert(m.data_bitmap_at(c.group) == m1.data_bitmap_at(c.group));
        lemma_put_bits(m1, c.group, c.bits);
        let before = commits.subrange(0, k - 1);
        let now = commits.subrange(0, k as int);
        assert forall|h: int| 0 <= h < m2.format.group_count implies (#[trigger] m2.data_bits(
            h,
        )) is Ok && m2.data_bits(h)->Ok_0.len == m2.format.param_data_block_count_per_group by {
            if h != c.group {
                assert(m2.data_bits(h) == m1.data_bits(h));
            }
        }
        assert forall|j: int| 0 <= j < k implies m2.data_bits((#[trigger] commits[j]).group)
            == Ok::<_, XHFSError>(commits[j].bits) by {
            if j < k - 1 {
                assert(commits[j].group < commits[k - 1].group);
                assert(m2.data_bits(commits[j].group) == m1.data_bits(commits[j].group));
            }
        }
        assert forall|h: int| 0 <= h && !commit_for(now, h) implies #[trigger] m2.data_bits(h)
            == m.data_bits(h) by {
            assert(now[k - 1] == c);
            assert(h != c.group);
            assert(!commit_for(before, h)) by {
                if commit_for(before, h) {
                    let j = choose|j: int|
                        0 <= j < before.len() && (#[trigger] before[j]).group == h;
                    assert(now[j].group == h);
                }
            }
            assert(m2.data_bits(h) == m1.data_bits(h));
        }
    }
}

/// Blocks that are taken were free before and are marked after. They lie among the data
/// blocks without overlap, in ascending order. No other block changes its mark, and nothing
/// else on the disk changes.
pub proof fn allocation_takes_free_blocks(m: Image, wanted: int)
    requires
        m.format.usable(),
        mapped(m),
        0 <= wanted,
        m.allocate(wanted).1 is Ok,
    ensures
        ({
            let (m2, r) = m.allocate(wanted);
            let slots = r->Ok_0;
            &&& slots_ok(slots, m.format.block_size_bytes as int)
            &&& all_home(m, slots)
            &&& mapped(m2)
            &&& same_but_marks(m, m2)
            &&& forall|g: int, b: int|
                is_block(m, g, b) ==> #[trigger] taken(m2, g, b) == (taken(m, g, b) || in_slots(
                    m,
                    slots,
                    g,
                    b,
                ))
            &&& forall|g: int, b: int|
                is_block(m, g, b) && #[trigger] in_slots(m, slots, g, b) ==> !taken(m, g, b)
        }),
{
    let (m2, r) = m.allocate(wanted);
    let slots = r->Ok_0;
    let bs = m.format.block_size_bytes as int;
    lemma_format(m);
    match m.first_fit(wanted, 0)->Ok_0 {
        Some((g, bits, start)) => {
            lemma_first_fit(m, wanted, 0);
            lemma_bits_wf(m, g);
            let end = start + wanted;
            let slot = slots[0];
            assert(slot == (m.block_at(g, start as int), wanted));
            lemma_fill_bits(bits.raw, bits.len as int, 8 * bits.raw.len() as int, false);
            let t = bits.trimmed();
            lemma_fill_bits(t.raw, start as int, end, true);
            let new = t.fill(start as int, end, true);
            lemma_put_bits(m, g, new);
            assert(home(m, slot, g, start as int));
            assert(has_home(m, slot));
            lemma_home_addr(m, slot);
            let ss = slot_spans(slots, bs);
            assert forall|h: int, b: int| is_block(m, h, b) implies #[trigger] in_slots(
                m,
                slots,
                h,
                b,
            ) == (h == g && start <= b < end) by {
                lemma_block_in_slot(m, slot, g, start as int, h, b);
                if in_spans(ss, m.block_at(h, b)) {
                    let j = choose|j: int|
                        0 <= j < ss.len() && (#[trigger] ss[j]).0 <= m.block_at(h, b) < ss[j].1;
                    assert(j == 0);
                }
                if h == g && start <= b < end {
                    assert(ss[0].0 <= m.block_at(h, b) < ss[0].1);
                }
            }
            assert forall|h: int, b: int| is_block(m, h, b) implies #[trigger] taken(m2, h, b) == (
            taken(m, h, b) || in_slots(m, slots, h, b)) by {
                if h == g {
                    assert(bit_at(new.raw, b) == if start <= b < end {
                        true
                    } else {
                        bit_at(t.raw, b)
                    });
                    assert(bit_at(t.raw, b) == bit_at(bits.raw, b));
                } else {
                    assert(m2.data_bits(h) == m.data_bits(h));
                }
            }
            assert forall|h: int, b: int|
                is_block(m, h, b) && #[trigger] in_slots(m, slots, h, b) implies !taken(
                m,
                h,
                b,
            ) by {
                assert(!bits.get(b));
            }
            assert forall|h: int| 0 <= h < m2.format.group_count implies (#[trigger] m2.data_bits(
                h,
            )) is Ok && m2.data_bits(h)->Ok_0.len == m2.format.param_data_block_count_per_group by {
                if h != g {
                    assert(m2.data_bits(h) == m.data_bits(h));
                }
            }
        },
        None => {
            if wanted == 0 {
                assert(slots.len() == 0);
            } else {
                let gc = m.format.group_count as nat;
                lemma_gather(m, wanted, gc);
                let p = m.gather(wanted, gc)->Ok_0;
                lemma_commit(m, p.commits, p.commits.len());
                assert(p.commits.subrange(0, p.commits.len() as int) =~= p.commits);
                assert forall|h: int, b: int| is_block(m, h, b) implies #[trigger] taken(m2, h, b)
                    == (taken(m, h, b) || in_slots(m, slots, h, b)) by {
                    if commit_for(p.commits, h) {
                        let j = choose|j: int|
                            0 <= j < p.commits.len() && (#[trigger] p.commits[j]).group == h;
                        assert(m2.data_bits(p.commits[j].group) == Ok::<_, XHFSError>(
                            p.commits[j].bits,
                        ));
                        assert(p.commits[j].bits.get(b) == (taken(m, h, b) || in_slots(
                            m,
                            p.slots,
                            h,
                            b,
                        )));
                    } else {
                        assert(m2.data_bits(h) == m.data_bits(h));
                        assert(!in_slots(m, p.slots, h, b));
                    }
                }
            }
        },
    }
}

} // verus!
