//! What is stored reads back.
use crate::addr::maybe;
use crate::error::XHFSError;
use crate::xhfs::ds::Chunk;
use crate::xhfs::extent::lemma_aligned;
use crate::xhfs::image::{aligned, blocks_for, Image};
use crate::xhfs::laws::{lemma_chain_frame, lemma_put_extent, same_within, spans};
use crate::xhfs::store::spread;
use vstd::prelude::*;

verus! {

/// The data of the extents of a plan, one after the other.
pub open spec fn plan_data(plan: Seq<(int, Seq<u8>)>) -> Seq<u8>
    decreases plan.len(),
{
    if plan.len() == 0 {
        Seq::empty()
    } else {
        plan[0].1 + plan_data(plan.drop_first())
    }
}

/// Where the extents of a plan lie, each up to the end of its last block.
pub open spec fn plan_spans(plan: Seq<(int, Seq<u8>)>, bs: int) -> Seq<(int, int)> {
    Seq::new(
        plan.len(),
        |k: int| (plan[k].0, plan[k].0 + aligned(16 + plan[k].1.len() as int, bs)),
    )
}

/// Extents that can be addressed, in ascending order and without overlap.
pub open spec fn plan_ok(plan: Seq<(int, Seq<u8>)>, bs: int) -> bool {
    &&& forall|k: int|
        0 <= k < plan.len() ==> 0 < (#[trigger] plan[k]).0 && plan[k].0 + aligned(
            16 + plan[k].1.len() as int,
            bs,
        ) <= usize::MAX
    &&& forall|j: int, k: int|
        0 <= j < k < plan.len() ==> (#[trigger] plan[j]).0 + aligned(
            16 + plan[j].1.len() as int,
            bs,
        ) <= (#[trigger] plan[k]).0
}

/// Slots that can be addressed, in ascending order and without overlap.
pub open spec fn slots_ok(slots: Seq<(int, int)>, bs: int) -> bool {
    &&& forall|k: int|
        0 <= k < slots.len() ==> 0 < (#[trigger] slots[k]).0 && slots[k].1 >= 0 && slots[k].0
            + slots[k].1 * bs <= usize::MAX
    &&& forall|j: int, k: int|
        0 <= j < k < slots.len() ==> (#[trigger] slots[j]).0 + slots[j].1 * bs <= (
        #[trigger] slots[k]).0
}

/// `i` lies in one of the stretches.
pub open spec fn in_spans(s: Seq<(int, int)>, i: int) -> bool {
    exists|k: int| 0 <= k < s.len() && (#[trigger] s[k]).0 <= i < s[k].1
}

/// Each stretch of `a` lies in a stretch of `b`.
pub open spec fn spans_within(a: Seq<(int, int)>, b: Seq<(int, int)>) -> bool {
    forall|i: int| #[trigger] in_spans(a, i) ==> in_spans(b, i)
}

/// The stretches that slots cover.
pub open spec fn slot_spans(slots: Seq<(int, int)>, bs: int) -> Seq<(int, int)> {
    Seq::new(slots.len(), |k: int| (slots[k].0, slots[k].0 + slots[k].1 * bs))
}

/// The same volume, with at most the given stretches changed.
pub open spec fn same_but(a: Image, b: Image, s: Seq<(int, int)>) -> bool {
    &&& a.format == b.format
    &&& a.cipher == b.cipher
    &&& a.disk.len() == b.disk.len()
    &&& forall|i: int|
        0 <= i < a.disk.len() && !in_spans(s, i) ==> #[trigger] a.disk[i] == b.disk[i]
}

/// Extents that are written along a sound plan form a chain that reads as their data.
pub proof fn lemma_write_plan(m: Image, plan: Seq<(int, Seq<u8>)>)
    requires
        m.format.block_size_bytes > 0,
        plan_ok(plan, m.format.block_size_bytes as int),
        m.write_plan(plan).1 is Ok,
    ensures
        ({
            let bs = m.format.block_size_bytes as int;
            let m2 = m.write_plan(plan).0;
            let a = m.write_plan(plan).1->Ok_0;
            &&& a.raw == if plan.len() == 0 {
                0
            } else {
                plan[0].0
            }
            &&& m2.chain(a, plan.len()) == Ok::<_, XHFSError>(plan_data(plan))
            &&& spans(m2, a, plan.len()) == plan_spans(plan, bs)
            &&& same_but(m, m2, plan_spans(plan, bs))
        }),
    decreases plan.len(),
{
    let bs = m.format.block_size_bytes as int;
    if plan.len() > 0 {
        let rest = plan.drop_first();
        assert forall|k: int| 0 <= k < rest.len() implies 0 < (#[trigger] rest[k]).0 && rest[k].0
            + aligned(16 + rest[k].1.len() as int, bs) <= usize::MAX by {
            assert(rest[k] == plan[k + 1]);
        }
        assert forall|j: int, k: int| 0 <= j < k < rest.len() implies (#[trigger] rest[j]).0
            + aligned(16 + rest[j].1.len() as int, bs) <= (#[trigger] rest[k]).0 by {
            assert(rest[j] == plan[j + 1]);
            assert(rest[k] == plan[k + 1]);
        }
        lemma_write_plan(m, rest);
        let m1 = m.write_plan(rest).0;
        let next = m.write_plan(rest).1->Ok_0;
        let chunk = Chunk { next, data: plan[0].1 };
        let addr = plan[0].0 as u64;
        lemma_aligned(16 + plan[0].1.len() as int, bs);
        lemma_put_extent(m1, addr, chunk);
        let m2 = m.write_plan(plan).0;
        let ps = plan_spans(plan, bs);
        let rs = plan_spans(rest, bs);
        assert forall|k: int| 0 <= k < rs.len() implies same_within(
            m1,
            m2,
            (#[trigger] rs[k]).0,
            rs[k].1,
        ) by {
            assert(rest[k] == plan[k + 1]);
            assert(plan[0].0 + aligned(16 + plan[0].1.len() as int, bs) <= plan[k + 1].0);
        }
        lemma_chain_frame(m1, m2, next, rest.len());
        assert(spans(m2, maybe(addr), plan.len()) =~= ps) by {
            assert(seq![ps[0]] + rs =~= ps) by {
                assert forall|k: int| 0 < k < ps.len() implies ps[k] == rs[k - 1] by {
                    assert(rest[k - 1] == plan[k]);
                }
            }
        }
        assert forall|i: int| 0 <= i < m.disk.len() && !in_spans(ps, i) implies #[trigger] m.disk[i]
            == m2.disk[i] by {
            assert(!in_spans(rs, i)) by {
                if in_spans(rs, i) {
                    let k = choose|k: int| 0 <= k < rs.len() && (#[trigger] rs[k]).0 <= i < rs[k].1;
                    assert(rest[k] == plan[k + 1]);
                    assert(ps[k + 1] == rs[k]);
                }
            }
            assert(!(ps[0].0 <= i < ps[0].1));
            assert(m.disk[i] == m1.disk[i]);
        }
    } else {
        assert(spans(m, maybe(0), 0) =~= plan_spans(plan, bs));
    }
}

/// Data that is spread over sound slots makes a sound plan within the slots, and nothing of
/// it is lost.
pub proof fn lemma_spread(slots: Seq<(int, int)>, bs: int, data: Seq<u8>)
    requires
        bs > 0,
        slots_ok(slots, bs),
    ensures
        ({
            let (plan, left) = spread(slots, bs, data);
            &&& plan_ok(plan, bs)
            &&& plan_data(plan) + left == data
            &&& plan.len() <= slots.len()
            &&& spans_within(plan_spans(plan, bs), slot_spans(slots, bs))
            &&& plan.len() > 0 ==> slots.len() > 0 && plan[0].0 >= slots[0].0
            &&& forall|k: int| 0 <= k < plan.len() ==> (#[trigger] plan[k]).1.len() > 0
        }),
    decreases slots.len(),
{
    let (plan, left) = spread(slots, bs, data);
    if slots.len() == 0 || data.len() == 0 {
        assert(plan_data(plan) + left =~= data);
    } else {
        let rest = slots.drop_first();
        assert forall|k: int| 0 <= k < rest.len() implies 0 < (#[trigger] rest[k]).0 && rest[k].1
            >= 0 && rest[k].0 + rest[k].1 * bs <= usize::MAX by {
            assert(rest[k] == slots[k + 1]);
        }
        assert forall|j: int, k: int| 0 <= j < k < rest.len() implies (#[trigger] rest[j]).0
            + rest[j].1 * bs <= (#[trigger] rest[k]).0 by {
            assert(rest[j] == slots[j + 1]);
            assert(rest[k] == slots[k + 1]);
        }
        let room = slots[0].1 * bs;
        let ss = slot_spans(slots, bs);
        let rs = slot_spans(rest, bs);
        assert forall|i: int| #[trigger] in_spans(rs, i) implies in_spans(ss, i) by {
            let k = choose|k: int| 0 <= k < rs.len() && (#[trigger] rs[k]).0 <= i < rs[k].1;
            assert(ss[k + 1] == rs[k]) by {
                assert(rest[k] == slots[k + 1]);
            }
        }
        if room <= 16 {
            lemma_spread(rest, bs, data);
            assert forall|i: int| #[trigger] in_spans(plan_spans(plan, bs), i) implies in_spans(
                ss,
                i,
            ) by {
                assert(in_spans(rs, i));
            }
            if plan.len() > 0 {
                assert(slots[0].0 + slots[0].1 * bs <= slots[1].0);
                assert(rest[0] == slots[1]);
                assert(slots[0].1 * bs >= 0) by (nonlinear_arith)
                    requires
                        slots[0].1 >= 0,
                        bs > 0,
                ;
            }
        } else {
            let n = if data.len() < room - 16 {
                data.len() as int
            } else {
                room - 16
            };
            let tail = data.subrange(n, data.len() as int);
            lemma_spread(rest, bs, tail);
            let (p2, l2) = spread(rest, bs, tail);
            let one = (slots[0].0, data.subrange(0, n));
            assert(plan =~= seq![one] + p2);
            assert(plan.drop_first() =~= p2);
            lemma_room(n, slots[0].1, bs);
            let end = slots[0].0 + room;
            assert(plan[0].0 + aligned(16 + plan[0].1.len() as int, bs) <= end);
            assert forall|k: int| 0 <= k < plan.len() implies 0 < (#[trigger] plan[k]).0
                && plan[k].0 + aligned(16 + plan[k].1.len() as int, bs) <= usize::MAX by {
                if k > 0 {
                    assert(plan[k] == p2[k - 1]);
                }
            }
            assert forall|j: int, k: int| 0 <= j < k < plan.len() implies (#[trigger] plan[j]).0
                + aligned(16 + plan[j].1.len() as int, bs) <= (#[trigger] plan[k]).0 by {
                assert(plan[k] == p2[k - 1]);
                if j > 0 {
                    assert(plan[j] == p2[j - 1]);
                } else {
                    assert(rest[0] == slots[1]);
                    assert(end <= slots[1].0);
                    if k > 1 {
                        lemma_aligned(16 + p2[0].1.len() as int, bs);
                        assert(p2[0].0 + aligned(16 + p2[0].1.len() as int, bs) <= p2[k - 1].0);
                    }
                }
            }
            assert forall|k: int| 0 <= k < plan.len() implies (#[trigger] plan[k]).1.len() > 0 by {
                if k > 0 {
                    assert(plan[k] == p2[k - 1]);
                }
            }
            assert(plan_data(plan) + left =~= data) by {
                assert(data.subrange(0, n) + (plan_data(p2) + l2) =~= (data.subrange(0, n)
                    + plan_data(p2)) + l2);
                assert(data.subrange(0, n) + tail =~= data);
            }
            let ps = plan_spans(plan, bs);
            let p2s = plan_spans(p2, bs);
            assert forall|i: int| #[trigger] in_spans(ps, i) implies in_spans(ss, i) by {
                let k = choose|k: int| 0 <= k < ps.len() && (#[trigger] ps[k]).0 <= i < ps[k].1;
                if k == 0 {
                    assert(ss[0].0 <= i < ss[0].1);
                } else {
                    assert(plan[k] == p2[k - 1]);
                    assert(p2s[k - 1] == ps[k]);
                    assert(in_spans(p2s, i));
                    assert(in_spans(rs, i));
                }
            }
        }
    }
}

/// An extent of `n` bytes of data fits in the blocks that it was cut for.
proof fn lemma_room(n: int, count: int, bs: int)
    requires
        bs > 0,
        0 <= n,
        16 + n <= count * bs,
    ensures
        aligned(16 + n, bs) <= count * bs,
{
    lemma_aligned(16 + n, bs);
    let b = blocks_for(16 + n, bs);
    assert(b <= count) by (nonlinear_arith)
        requires
            b * bs < count * bs + bs,
            bs > 0,
    ;
    assert(b * bs <= count * bs) by (nonlinear_arith)
        requires
            b <= count,
            bs > 0,
    ;
}

/// The data of a sound plan is no longer than the stretch that it is laid out over.
pub proof fn lemma_plan_len(plan: Seq<(int, Seq<u8>)>, bs: int)
    requires
        bs > 0,
        plan_ok(plan, bs),
    ensures
        plan.len() > 0 ==> plan[0].0 + plan_data(plan).len() <= usize::MAX,
        plan_data(plan).len() <= usize::MAX,
    decreases plan.len(),
{
    if plan.len() > 0 {
        let rest = plan.drop_first();
        lemma_aligned(16 + plan[0].1.len() as int, bs);
        assert(plan[0].0 + aligned(16 + plan[0].1.len() as int, bs) <= usize::MAX);
        assert forall|k: int| 0 <= k < rest.len() implies 0 < (#[trigger] rest[k]).0 && rest[k].0
            + aligned(16 + rest[k].1.len() as int, bs) <= usize::MAX by {
            assert(rest[k] == plan[k + 1]);
        }
        assert forall|j: int, k: int| 0 <= j < k < rest.len() implies (#[trigger] rest[j]).0
            + aligned(16 + rest[j].1.len() as int, bs) <= (#[trigger] rest[k]).0 by {
            assert(rest[j] == plan[j + 1]);
            assert(rest[k] == plan[k + 1]);
        }
        lemma_plan_len(rest, bs);
        if rest.len() > 0 {
            assert(rest[0] == plan[1]);
            assert(plan[0].0 + aligned(16 + plan[0].1.len() as int, bs) <= plan[1].0);
        }
    }
}

} // verus!
