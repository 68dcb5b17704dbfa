//! Storing, appending and freeing contents.
use crate::addr::{maybe, MaybeU64};
use crate::error::XHFSError;
use crate::xhfs::block_laws::{
    all_home, allocation_takes_free_blocks, has_home, home, in_slots, is_block,
    lemma_block_in_slot, lemma_block_order, lemma_groups_apart, lemma_place, mapped,
    same_but_marks, taken,
};
use crate::xhfs::extent::lemma_aligned;
use crate::xhfs::image::{aligned, blocks_for, Image};
use crate::xhfs::laws::{lemma_chain_fuel, lemma_extent_read, lemma_same_read, same_within, spans};
use crate::xhfs::store::{blocks_needed, spread};
use crate::xhfs::store_laws::{
    in_spans, lemma_plan_len, lemma_spread, lemma_write_plan, plan_data, plan_ok, plan_spans,
    same_but, slot_spans, slots_ok,
};
use crate::xhfs::volume::{lemma_addressable, lemma_format};
use vstd::prelude::*;

verus! {

/// The stretch is made of whole data blocks of one group.
pub open spec fn span_home(m: Image, s: (int, int)) -> bool {
    exists|g: int, b: int, c: int| span_is(m, s, g, b, c)
}

/// The stretch is made of `c` data blocks from block `b` of group `g` on.
pub open spec fn span_is(m: Image, s: (int, int), g: int, b: int, c: int) -> bool {
    home(m, (s.0, c), g, b) && s.1 == s.0 + c * m.format.block_size_bytes
}

/// Stretches that lie apart from one another.
pub open spec fn apart(s: Seq<(int, int)>) -> bool {
    forall|j: int, k: int|
        0 <= j < s.len() && 0 <= k < s.len() && j != k ==> (#[trigger] s[j]).1 <= (
        #[trigger] s[k]).0 || s[k].1 <= s[j].0
}

/// Where the content at `addr` lies.
pub open spec fn places(m: Image, addr: MaybeU64) -> Seq<(int, int)> {
    spans(m, addr, m.disk.len())
}

/// Block `b` of group `g` is part of the stretches.
pub open spec fn uses(m: Image, s: Seq<(int, int)>, g: int, b: int) -> bool {
    in_spans(s, m.block_at(g, b))
}

/// The stretches are whole data blocks, apart from one another and marked taken.
pub open spec fn owned(m: Image, s: Seq<(int, int)>) -> bool {
    &&& forall|k: int| 0 <= k < s.len() ==> span_home(m, #[trigger] s[k])
    &&& apart(s)
    &&& forall|g: int, b: int| is_block(m, g, b) && #[trigger] uses(m, s, g, b) ==> taken(m, g, b)
}

/// The content at `addr` can be read, and its blocks are its own.
pub open spec fn sound_content(m: Image, addr: MaybeU64) -> bool {
    m.content(addr) is Ok && owned(m, places(m, addr))
}

/// The block that a byte of a slot lies in.
pub proof fn lemma_byte_block(m: Image, s: (int, int), g: int, b: int, c: int, i: int) -> (k: int)
    requires
        m.format.usable(),
        span_is(m, s, g, b, c),
        s.0 <= i < s.1,
    ensures
        b <= k < b + c,
        is_block(m, g, k),
        m.block_at(g, k) <= i < m.block_at(g, k + 1),
        s.0 <= m.block_at(g, k) < s.1,
{
    lemma_format(m);
    let bs = m.format.block_size_bytes as int;
    let d = (i - s.0) / bs;
    vstd::arithmetic::div_mod::lemma_fundamental_div_mod(i - s.0, bs);
    assert(0 <= d < c) by (nonlinear_arith)
        requires
            i - s.0 == bs * d + (i - s.0) % bs,
            0 <= (i - s.0) % bs < bs,
            0 <= i - s.0 < c * bs,
            bs > 0,
    ;
    lemma_block_order(m, g, b, b + d);
    lemma_block_order(m, g, b + d, b + d + 1);
    assert(d * bs == bs * d && (b + d - b) * bs == d * bs && (b + d + 1 - (b + d)) * bs == bs)
        by (nonlinear_arith);
    lemma_block_in_slot(m, (s.0, c), g, b, g, b + d);
    b + d
}

/// A byte of a data block has the offset of a data byte in its group.
pub proof fn lemma_byte_offset(m: Image, s: (int, int), i: int)
    requires
        m.format.usable(),
        span_home(m, s),
        s.0 <= i < s.1,
    ensures
        m.format.data_at() <= i % m.format.stride(),
        0 <= i % m.format.stride() < m.format.stride(),
{
    let (g, b, c) = choose|g: int, b: int, c: int| span_is(m, s, g, b, c);
    lemma_block_order(m, g, b, b + c);
    lemma_addressable(m, g, g);
    lemma_format(m);
    lemma_place(m, g, i - m.group_at(g));
}

/// Stretches of taken blocks and stretches of free blocks have no byte in common.
proof fn lemma_taken_free_apart(m: Image, a: (int, int), b: (int, int), i: int)
    requires
        m.format.usable(),
        span_home(m, a),
        span_home(m, b),
        forall|g: int, c: int|
            is_block(m, g, c) && a.0 <= #[trigger] m.block_at(g, c) < a.1 ==> taken(m, g, c),
        forall|g: int, c: int|
            is_block(m, g, c) && b.0 <= #[trigger] m.block_at(g, c) < b.1 ==> !taken(m, g, c),
        a.0 <= i < a.1,
    ensures
        !(b.0 <= i < b.1),
{
    if b.0 <= i < b.1 {
        let (g, x, n) = choose|g: int, x: int, n: int| span_is(m, a, g, x, n);
        let (h, y, k) = choose|h: int, y: int, k: int| span_is(m, b, h, y, k);
        let p = lemma_byte_block(m, a, g, x, n, i);
        let q = lemma_byte_block(m, b, h, y, k, i);
        lemma_block_order(m, g, p, p + 1);
        lemma_block_order(m, h, q, q + 1);
        if g < h {
            lemma_groups_apart(m, g, h);
            lemma_addressable(m, g, g);
        } else if h < g {
            lemma_groups_apart(m, h, g);
            lemma_addressable(m, h, h);
        } else if p < q {
            lemma_block_order(m, g, p + 1, q);
        } else if q < p {
            lemma_block_order(m, g, q + 1, p);
        }
    }
}

/// Two stretches of whole blocks that share no block share no byte.
pub proof fn lemma_spans_apart(m: Image, a: (int, int), b: (int, int))
    requires
        m.format.usable(),
        span_home(m, a),
        span_home(m, b),
        forall|g: int, c: int|
            is_block(m, g, c) && a.0 <= #[trigger] m.block_at(g, c) < a.1 ==> !(b.0 <= m.block_at(
                g,
                c,
            ) < b.1),
    ensures
        a.0 >= a.1 || b.0 >= b.1 || a.1 <= b.0 || b.1 <= a.0,
{
    if a.0 < a.1 && b.0 < b.1 && a.1 > b.0 && b.1 > a.0 {
        let i = if a.0 < b.0 {
            b.0
        } else {
            a.0
        };
        let (g, x, n) = choose|g: int, x: int, n: int| span_is(m, a, g, x, n);
        let (h, y, k) = choose|h: int, y: int, k: int| span_is(m, b, h, y, k);
        let p = lemma_byte_block(m, a, g, x, n, i);
        let q = lemma_byte_block(m, b, h, y, k, i);
        lemma_block_order(m, g, p, p + 1);
        lemma_block_order(m, h, q, q + 1);
        if g < h {
            lemma_groups_apart(m, g, h);
            lemma_addressable(m, g, g);
        } else if h < g {
            lemma_groups_apart(m, h, g);
            lemma_addressable(m, h, h);
        } else if p < q {
            lemma_block_order(m, g, p + 1, q);
        } else if q < p {
            lemma_block_order(m, g, q + 1, p);
        }
    }
}

/// The blocks of a group have the same numbers on any disk with the same format.
pub proof fn lemma_same_format(a: Image, b: Image)
    requires
        a.format == b.format,
    ensures
        forall|g: int, c: int| #[trigger] a.block_at(g, c) == b.block_at(g, c),
        forall|g: int, c: int| #[trigger] is_block(a, g, c) == is_block(b, g, c),
        forall|s: (int, int)| #[trigger] span_home(a, s) == span_home(b, s),
        forall|s: Seq<(int, int)>, g: int, c: int|
            #[trigger] uses(a, s, g, c) == uses(b, s, g, c),
{
    assert forall|s: (int, int)| #[trigger] span_home(a, s) == span_home(b, s) by {
        if span_home(a, s) {
            let (g, x, n) = choose|g: int, x: int, n: int| span_is(a, s, g, x, n);
            assert(span_is(b, s, g, x, n));
        }
        if span_home(b, s) {
            let (g, x, n) = choose|g: int, x: int, n: int| span_is(b, s, g, x, n);
            assert(span_is(a, s, g, x, n));
        }
    }
}

/// The same volume with the same metadata: only data blocks and their marks may differ.
pub open spec fn same_meta(a: Image, b: Image) -> bool {
    &&& a.format == b.format
    &&& a.cipher == b.cipher
    &&& a.disk.len() == b.disk.len()
    &&& forall|i: int|
        0 <= i < a.disk.len() && i % a.format.stride() < a.format.data_at() && !(
        a.format.data_bitmap_at() <= i % a.format.stride() < a.format.inode_bitmap_at())
            ==> #[trigger] a.disk[i] == b.disk[i]
}

/// Everything that was sound is as before, and more blocks may be taken.
pub open spec fn grows(a: Image, b: Image) -> bool {
    &&& same_meta(a, b)
    &&& mapped(b)
    &&& forall|g: int, c: int| is_block(a, g, c) && #[trigger] taken(a, g, c) ==> taken(b, g, c)
    &&& forall|s: Seq<(int, int)>, k: int|
        owned(a, s) && 0 <= k < s.len() ==> same_within(a, b, (#[trigger] s[k]).0, s[k].1)
}

/// The slots of an allocation as stretches of free blocks.
proof fn lemma_plan_homes(m: Image, slots: Seq<(int, int)>, data: Seq<u8>)
    requires
        m.format.usable(),
        slots_ok(slots, m.format.block_size_bytes as int),
        all_home(m, slots),
    ensures
        ({
            let bs = m.format.block_size_bytes as int;
            let ps = plan_spans(spread(slots, bs, data).0, bs);
            forall|k: int| 0 <= k < ps.len() ==> span_home(m, #[trigger] ps[k])
        }),
    decreases slots.len(),
{
    lemma_format(m);
    let bs = m.format.block_size_bytes as int;
    if slots.len() > 0 && data.len() > 0 {
        let rest = slots.drop_first();
        assert forall|k: int| 0 <= k < rest.len() implies 0 < (#[trigger] rest[k]).0 && rest[k].1
            >= 0 && rest[k].0 + rest[k].1 * bs <= usize::MAX by {
            assert(rest[k] == slots[k + 1]);
        }
        assert forall|j: int, k: int| 0 <= j < k < rest.len() implies (#[trigger] rest[j]).0
            + rest[j].1 * bs <= (#[trigger] rest[k]).0 by {
            assert(rest[j] == slots[j + 1]);
            assert(rest[k] == slots[k + 1]);
        }
        assert forall|k: int| 0 <= k < rest.len() implies has_home(m, #[trigger] rest[k]) by {
            assert(rest[k] == slots[k + 1]);
        }
        let room = slots[0].1 * bs;
        let plan = spread(slots, bs, data).0;
        let ps = plan_spans(plan, bs);
        if room <= 16 {
            lemma_plan_homes(m, rest, data);
            assert(plan == spread(rest, bs, data).0);
        } else {
            let n = if data.len() < room - 16 {
                data.len() as int
            } else {
                room - 16
            };
            let tail = data.subrange(n, data.len() as int);
            lemma_plan_homes(m, rest, tail);
            let p2 = spread(rest, bs, tail).0;
            let p2s = plan_spans(p2, bs);
            assert(plan =~= seq![(slots[0].0, data.subrange(0, n))] + p2);
            assert forall|k: int| 0 <= k < ps.len() implies span_home(m, #[trigger] ps[k]) by {
                if k > 0 {
                    assert(plan[k] == p2[k - 1]);
                    assert(ps[k] == p2s[k - 1]);
                } else {
                    assert(has_home(m, slots[0]));
                    let (g, b) = choose|g: int, b: int| home(m, slots[0], g, b);
                    let c = blocks_for(16 + n, bs);
                    lemma_aligned(16 + n, bs);
                    assert(c <= slots[0].1) by (nonlinear_arith)
                        requires
                            c * bs < 16 + n + bs,
                            16 + n <= slots[0].1 * bs,
                            bs > 0,
                    ;
                    assert(span_is(m, ps[0], g, b, c));
                }
            }
        }
    }
}

/// Extents that are written to blocks just taken leave everything else as it was, also if not all
/// of them are written.
pub proof fn lemma_plan_written(m: Image, m1: Image, m2: Image, slots: Seq<(int, int)>, data: Seq<u8>)
    requires
        m.format.usable(),
        slots_ok(slots, m.format.block_size_bytes as int),
        all_home(m, slots),
        mapped(m1),
        same_but_marks(m, m1),
        forall|g: int, b: int|
            is_block(m, g, b) ==> #[trigger] taken(m1, g, b) == (taken(m, g, b) || in_slots(
                m,
                slots,
                g,
                b,
            )),
        forall|g: int, b: int|
            is_block(m, g, b) && #[trigger] in_slots(m, slots, g, b) ==> !taken(m, g, b),
        same_but(
            m1,
            m2,
            plan_spans(
                spread(slots, m.format.block_size_bytes as int, data).0,
                m.format.block_size_bytes as int,
            ),
        ),
    ensures
        grows(m, m2),
        forall|g: int, b: int|
            is_block(m, g, b) ==> #[trigger] taken(m2, g, b) == (taken(m, g, b) || in_slots(
                m,
                slots,
                g,
                b,
            )),
        ({
            let bs = m.format.block_size_bytes as int;
            let ps = plan_spans(spread(slots, bs, data).0, bs);
            forall|g: int, b: int|
                is_block(m, g, b) && #[trigger] uses(m, ps, g, b) ==> !taken(m, g, b) && taken(
                    m2,
                    g,
                    b,
                )
        }),
{
    let bs = m.format.block_size_bytes as int;
    lemma_format(m);
    let plan = spread(slots, bs, data).0;
    lemma_spread(slots, bs, data);
    lemma_plan_homes(m, slots, data);
    let ps = plan_spans(plan, bs);
    let ss = slot_spans(slots, bs);
    lemma_same_format(m, m1);
    lemma_same_format(m, m2);
    // marks are as the allocation left them
    assert forall|i: int|
        0 <= i < m.disk.len() && i % m.format.stride() < m.format.data_at() implies m1.disk[i]
        == m2.disk[i] by {
        assert(!in_spans(ps, i)) by {
            if in_spans(ps, i) {
                let k = choose|k: int| 0 <= k < ps.len() && (#[trigger] ps[k]).0 <= i < ps[k].1;
                lemma_byte_offset(m, ps[k], i);
            }
        }
    }
    assert forall|g: int| 0 <= g < m.format.group_count implies #[trigger] m2.data_bits(g)
        == m1.data_bits(g) by {
        lemma_marks_same(m1, m2, g);
    }
    assert forall|g: int| 0 <= g < m2.format.group_count implies (#[trigger] m2.data_bits(g)) is Ok
        && m2.data_bits(g)->Ok_0.len == m2.format.param_data_block_count_per_group by {
        assert(m2.data_bits(g) == m1.data_bits(g));
    }
    assert forall|g: int, b: int| is_block(m, g, b) implies #[trigger] taken(m2, g, b) == (taken(
        m,
        g,
        b,
    ) || in_slots(m, slots, g, b)) by {
        assert(m2.data_bits(g) == m1.data_bits(g));
        assert(taken(m1, g, b) == (taken(m, g, b) || in_slots(m, slots, g, b)));
    }
    assert forall|g: int, b: int| is_block(m, g, b) && #[trigger] uses(m, ps, g, b) implies !taken(
        m,
        g,
        b,
    ) && taken(m2, g, b) by {
        assert(in_spans(ps, m.block_at(g, b)));
        assert(in_spans(ss, m.block_at(g, b)));
        assert(in_slots(m, slots, g, b));
    }
    assert forall|s: Seq<(int, int)>, k: int| owned(m, s) && 0 <= k < s.len() implies same_within(
        m,
        m2,
        (#[trigger] s[k]).0,
        s[k].1,
    ) by {
        assert(span_home(m, s[k]));
        assert forall|i: int| 0 <= i < m.disk.len() && s[k].0 <= i < s[k].1 implies m.disk[i]
            == m2.disk[i] by {
            lemma_byte_offset(m, s[k], i);
            assert(m.disk[i] == m1.disk[i]);
            assert(!in_spans(ps, i)) by {
                if in_spans(ps, i) {
                    let j = choose|j: int| 0 <= j < ps.len() && (#[trigger] ps[j]).0 <= i < ps[j].1;
                    assert(span_home(m, ps[j]));
                    assert forall|g: int, c: int|
                        is_block(m, g, c) && s[k].0 <= #[trigger] m.block_at(g, c)
                            < s[k].1 implies taken(m, g, c) by {
                        assert(uses(m, s, g, c));
                    }
                    assert forall|g: int, c: int|
                        is_block(m, g, c) && ps[j].0 <= #[trigger] m.block_at(g, c)
                            < ps[j].1 implies !taken(m, g, c) by {
                        assert(uses(m, ps, g, c));
                    }
                    lemma_taken_free_apart(m, s[k], ps[j], i);
                }
            }
        }
    }
}

/// What is stored reads back. Its blocks were free and are now its own. Every content that
/// was sound reads as before, and nothing but data blocks and their marks changes.
pub proof fn stored_data_reads_back(m: Image, data: Seq<u8>)
    requires
        m.format.usable(),
        mapped(m),
        m.store(data).1 is Ok,
    ensures
        ({
            let m2 = m.store(data).0;
            let a = m.store(data).1->Ok_0;
            &&& m2.content(a) == Ok::<_, XHFSError>(data)
            &&& sound_content(m2, a)
            &&& data.len() > 0 <==> a.raw != 0
            &&& data.len() <= usize::MAX
            &&& grows(m, m2)
            &&& forall|g: int, b: int|
                is_block(m, g, b) && #[trigger] uses(m, places(m2, a), g, b) ==> !taken(m, g, b)
        }),
{
    reveal(Image::store);
    reveal(Image::content);
    let bs = m.format.block_size_bytes as int;
    lemma_format(m);
    let n = blocks_needed(data.len(), m.format.data_size(), bs)->Ok_0;
    lemma_needed(data.len(), m.format.data_size(), bs);
    allocation_takes_free_blocks(m, n);
    let (m1, r1) = m.allocate(n);
    let slots = r1->Ok_0;
    let (plan, left) = spread(slots, bs, data);
    lemma_spread(slots, bs, data);
    lemma_plan_homes(m, slots, data);
    lemma_write_plan(m1, plan);
    lemma_plan_len(plan, bs);
    assert(plan_data(plan) + left =~= plan_data(plan));
    let (m2, r2) = m.store(data);
    let a = r2->Ok_0;
    let ps = plan_spans(plan, bs);
    lemma_same_format(m, m1);
    lemma_same_format(m, m2);
    lemma_plan_short(m2, plan, bs);
    lemma_chain_fuel(m2, a, plan.len(), m2.disk.len());
    assert(places(m2, a) == ps);
    if data.len() > 0 {
        assert(plan.len() > 0);
    } else {
        assert(plan.len() == 0) by {
            if plan.len() > 0 {
                assert(plan[0].1.len() > 0);
            }
        }
    }
    lemma_plan_written(m, m1, m2, slots, data);
    assert(apart(ps)) by {
        assert forall|j: int, k: int|
            0 <= j < ps.len() && 0 <= k < ps.len() && j != k implies (#[trigger] ps[j]).1 <= (
        #[trigger] ps[k]).0 || ps[k].1 <= ps[j].0 by {
            if j < k {
                assert(plan[j].0 + aligned(16 + plan[j].1.len() as int, bs) <= plan[k].0);
            } else {
                assert(plan[k].0 + aligned(16 + plan[k].1.len() as int, bs) <= plan[j].0);
            }
        }
    }
    assert(owned(m2, ps)) by {
        assert forall|k: int| 0 <= k < ps.len() implies span_home(m2, #[trigger] ps[k]) by {
            assert(span_home(m, ps[k]));
        }
        assert forall|g: int, b: int|
            is_block(m2, g, b) && #[trigger] uses(m2, ps, g, b) implies taken(m2, g, b) by {
            assert(uses(m, ps, g, b));
        }
    }
}

/// Storing data marks the blocks that it was given, and no others.
pub proof fn lemma_store_marks(m: Image, data: Seq<u8>)
    requires
        m.format.usable(),
        mapped(m),
        m.store(data).1 is Ok,
    ensures
        ({
            let m2 = m.store(data).0;
            let bs = m.format.block_size_bytes as int;
            let n = blocks_needed(data.len(), m.format.data_size(), bs)->Ok_0;
            let slots = m.allocate(n).1->Ok_0;
            forall|g: int, b: int|
                is_block(m, g, b) ==> #[trigger] taken(m2, g, b) == (taken(m, g, b) || in_slots(
                    m,
                    slots,
                    g,
                    b,
                ))
        }),
{
    reveal(Image::store);
    let bs = m.format.block_size_bytes as int;
    lemma_format(m);
    let n = blocks_needed(data.len(), m.format.data_size(), bs)->Ok_0;
    lemma_needed(data.len(), m.format.data_size(), bs);
    allocation_takes_free_blocks(m, n);
    let (m1, r1) = m.allocate(n);
    let slots = r1->Ok_0;
    let plan = spread(slots, bs, data).0;
    lemma_spread(slots, bs, data);
    lemma_plan_homes(m, slots, data);
    lemma_same_format(m, m1);
    lemma_write_plan(m1, plan);
    lemma_plan_written(m, m1, m.store(data).0, slots, data);
}

pub proof fn lemma_needed(len: nat, max: int, bs: int)
    requires
        bs > 0,
    ensures
        blocks_needed(len, max, bs) is Ok ==> blocks_needed(len, max, bs)->Ok_0 >= 0,
    decreases len,
{
    if len > 0 && max > 16 {
        let chunk = if len < max - 16 {
            len as int
        } else {
            max - 16
        };
        lemma_needed((len - chunk) as nat, max, bs);
        lemma_aligned(16 + chunk, bs);
    }
}

/// Extents without overlap are no more than the disk has bytes.
proof fn lemma_plan_short(m: Image, plan: Seq<(int, Seq<u8>)>, bs: int)
    requires
        bs > 0,
        plan_ok(plan, bs),
        m.chain(
            maybe(
                if plan.len() == 0 {
                    0
                } else {
                    plan[0].0 as u64
                },
            ),
            plan.len(),
        ) is Ok,
        spans(
            m,
            maybe(
                if plan.len() == 0 {
                    0
                } else {
                    plan[0].0 as u64
                },
            ),
            plan.len(),
        ) == plan_spans(plan, bs),
        m.format.block_size_bytes == bs,
    ensures
        plan.len() <= m.disk.len(),
{
    if plan.len() > 0 {
        let last = plan.len() - 1;
        lemma_plan_ascends(plan, bs, last);
        lemma_spans_on_disk(m, maybe(plan[0].0 as u64), plan.len(), last);
        let s = plan_spans(plan, bs);
        assert(s[last].0 == plan[last].0);
    }
}

proof fn lemma_plan_ascends(plan: Seq<(int, Seq<u8>)>, bs: int, k: int)
    requires
        bs > 0,
        plan_ok(plan, bs),
        0 <= k < plan.len(),
    ensures
        plan[k].0 > k,
    decreases k,
{
    assert(0 < plan[k].0);
    if k > 0 {
        lemma_plan_ascends(plan, bs, k - 1);
        lemma_aligned(16 + plan[k - 1].1.len() as int, bs);
        assert(plan[k - 1].0 + aligned(16 + plan[k - 1].1.len() as int, bs) <= plan[k].0);
    }
}

/// Extents that can be read start on the disk.
proof fn lemma_spans_on_disk(m: Image, addr: MaybeU64, fuel: nat, k: int)
    requires
        m.format.block_size_bytes > 0,
        m.chain(addr, fuel) is Ok,
        0 <= k < spans(m, addr, fuel).len(),
    ensures
        spans(m, addr, fuel)[k].0 + 16 <= m.disk.len(),
    decreases fuel,
{
    let chunk = m.extent(addr.raw)->Ok_0;
    lemma_extent_read(m, addr.raw);
    let rest = spans(m, chunk.next, (fuel - 1) as nat);
    if k > 0 {
        lemma_spans_on_disk(m, chunk.next, (fuel - 1) as nat, k - 1);
        assert(spans(m, addr, fuel)[k] == rest[k - 1]);
    }
}

/// A data bitmap that did not change reads the same.
pub proof fn lemma_marks_same(a: Image, b: Image, g: int)
    requires
        a.format.usable(),
        a.format == b.format,
        a.cipher == b.cipher,
        a.disk.len() == b.disk.len(),
        0 <= g,
        forall|i: int|
            0 <= i < a.disk.len() && a.format.data_bitmap_at() <= i % a.format.stride()
                < a.format.inode_bitmap_at() ==> #[trigger] a.disk[i] == b.disk[i],
    ensures
        a.data_bits(g) == b.data_bits(g),
{
    lemma_format(a);
    lemma_addressable(a, g, g);
    let at = a.data_bitmap_at(g);
    let n = a.format.data_bitmap_size();
    assert forall|i: int| 0 <= i < a.disk.len() && at <= i < at + n implies a.disk[i]
        == b.disk[i] by {
        lemma_place(a, g, i - a.group_at(g));
    }
    lemma_same_read(a, b, at, n);
}

} // verus!
