//! Where there is room, inodes are made and data is stored.
use crate::addr::{maybe, MaybeU64};
use crate::codec::{lemma_le64, zeros};
use crate::device::disk::in_keystream;
use crate::error::XHFSError;
use crate::xhfs::bitmap::{
    bit_at, bitmap_set_get, in_run, lemma_fill_bits, maximal_run, runs, runs_are_maximal,
};
use crate::xhfs::block_laws::{
    home, in_slots, is_block, lemma_bits_wf, lemma_block_in_slot, lemma_first_fit, mapped, taken,
};
use crate::xhfs::blocks::first_of_size;
use crate::xhfs::chain_laws::{lemma_store_marks, stored_data_reads_back};
use crate::xhfs::ds::{chunk_bytes, inode_round_trip, Chunk, INodeKind, Node};
use crate::xhfs::extent::lemma_aligned;
use crate::xhfs::free_laws::lemma_can_put_bits;
use crate::xhfs::image::{aligned, blocks_for, Image};
use crate::xhfs::inode_laws::{inodes_mapped, is_inode, lemma_free_inode, lemma_inode_place};
use crate::xhfs::ops::lemma_new_number;
use crate::xhfs::store::{blocks_needed, spread};
use crate::xhfs::store_laws::slot_spans;
use crate::xhfs::volume::{lemma_addressable, lemma_format};
use vstd::prelude::*;

verus! {

/// Bytes up to `end` can be written: they are on the disk and in the keystream.
pub open spec fn reaches(m: Image, end: int) -> bool {
    &&& end <= m.disk.len()
    &&& in_keystream(m.cipher, end)
}

/// The inode tables of all groups can be written.
pub open spec fn tables_reach(m: Image) -> bool {
    forall|g: int|
        0 <= g < m.format.group_count ==> reaches(m, #[trigger] m.group_at(g) + m.format.data_at())
}

/// Place `i` of group `g` holds no inode.
pub open spec fn free_place(m: Image, g: int, i: int) -> bool {
    &&& 0 <= g < m.format.group_count
    &&& 0 <= i < m.format.param_inode_count_per_group
    &&& !m.inode_bits(g)->Ok_0.get(i)
}

/// The search for a free inode comes to every group.
proof fn lemma_search(m: Image, start: int, j: int, d: int, i: int)
    requires
        m.format.usable(),
        inodes_mapped(m),
        0 <= start,
        0 <= j <= d < m.format.group_count,
        free_place(m, (start + d) % m.format.group_count as int, i),
    ensures
        m.free_inode(start, j) is Ok,
        m.free_inode(start, j)->Ok_0 is Some,
    decreases d - j,
{
    let count = m.format.group_count as int;
    let g = (start + j) % count;
    assert(0 <= g < count) by {
        vstd::arithmetic::div_mod::lemma_mod_bound(start + j, count);
    }
    let bits = m.inode_bits(g)->Ok_0;
    assert(m.inode_bits(g) is Ok);
    if j == d {
        let n = m.format.param_inode_count_per_group as nat;
        runs_are_maximal(bits.raw, false, n);
        assert(bit_at(bits.raw, i) == false);
    } else if m.free_inodes(bits).len() == 0 {
        lemma_search(m, start, j + 1, d, i);
    }
}

/// Where a place for an inode is free an inode can be made.
pub proof fn inode_is_made_where_one_is_free(
    m: Image,
    hint: u64,
    size: u64,
    addr: MaybeU64,
    kind: INodeKind,
    now: u64,
    g: int,
    i: int,
)
    requires
        m.format.usable(),
        inodes_mapped(m),
        is_inode(m, hint),
        tables_reach(m),
        free_place(m, g, i),
    ensures
        m.new_inode(hint, size, addr, kind, now).1 is Ok,
{
    reveal(Image::new_inode);
    lemma_inode_place(m, hint);
    lemma_format(m);
    let start = m.inode_group(hint);
    let count = m.format.group_count as int;
    let d = if g >= start {
        g - start
    } else {
        g - start + count
    };
    assert((start + d) % count == g) by {
        if g >= start {
            vstd::arithmetic::div_mod::lemma_small_mod(g as nat, count as nat);
        } else {
            vstd::arithmetic::div_mod::lemma_mod_add_multiples_vanish(g, count);
            vstd::arithmetic::div_mod::lemma_small_mod(g as nat, count as nat);
        }
    }
    lemma_search(m, start, 0, d, i);
    lemma_free_inode(m, start, 0);
    let (h, bits, k) = m.free_inode(start, 0)->Ok_0->0;
    lemma_addressable(m, h, h);
    lemma_new_number(m, h, k as int);
    let node = Node {
        kind,
        inumber: (h * m.format.param_inode_count_per_group + k + 1) as u64,
        nlink: 1,
        total_file_size: size,
        extent_addr: addr,
        mtime: now,
        ctime: now,
        extra_metadata: zeros(32),
    };
    inode_round_trip(node);
    lemma_inode_place(m, node.inumber);
    bitmap_set_get(bits, k as int, true, k as int);
    lemma_le64(bits.len as u64);
    assert(reaches(m, m.group_at(h) + m.format.data_at()));
}

/// A run of at least the wanted size is found.
proof fn lemma_some_of_size(rs: Seq<(nat, nat)>, wanted: int, k: int)
    requires
        0 <= k < rs.len(),
        rs[k].1 >= wanted,
    ensures
        first_of_size(rs, wanted) is Some,
    decreases rs.len(),
{
    if k < rs.len() - 1 {
        assert(rs.drop_last()[k] == rs[k]);
        lemma_some_of_size(rs.drop_last(), wanted, k);
    }
}

/// The `n` data blocks from block `b` of group `g` on are free.
pub open spec fn free_blocks(m: Image, g: int, b: int, n: int) -> bool {
    &&& 0 <= g < m.format.group_count
    &&& 0 <= b
    &&& b + n <= m.format.param_data_block_count_per_group
    &&& forall|c: int| b <= c < b + n ==> !#[trigger] m.data_bits(g)->Ok_0.get(c)
}

/// Free blocks that lie next to one another are found, if not earlier ones.
proof fn lemma_fit(m: Image, wanted: int, j: int, g: int, b: int)
    requires
        m.format.usable(),
        mapped(m),
        0 <= j <= g,
        1 <= wanted,
        free_blocks(m, g, b, wanted),
    ensures
        m.first_fit(wanted, j) is Ok,
        m.first_fit(wanted, j)->Ok_0 is Some,
    decreases g - j,
{
    let bits = m.data_bits(j)->Ok_0;
    assert(m.data_bits(j) is Ok);
    let n = m.format.param_data_block_count_per_group as nat;
    let rs = m.free_runs(bits);
    if j == g {
        runs_are_maximal(bits.raw, false, n);
        assert(!bits.get(b));
        assert(bit_at(bits.raw, b) == false);
        let k = choose|k: int|
            0 <= k < runs(bits.raw, false, n).len() && in_run(
                #[trigger] runs(bits.raw, false, n)[k],
                b,
            );
        let r = rs[k];
        assert(maximal_run(bits.raw, false, n, r));
        if r.0 + r.1 < b + wanted {
            assert(!bits.get((r.0 + r.1) as int));
        }
        lemma_some_of_size(rs, wanted, k);
    } else if first_of_size(rs, wanted) is None {
        lemma_fit(m, wanted, j + 1, g, b);
    }
}

/// Every stretch of `n` data blocks can be written with `size` bytes.
pub open spec fn blocks_reach(m: Image, n: int, size: int) -> bool {
    forall|g: int, b: int|
        0 <= g < m.format.group_count && 0 <= b && b + n
            <= m.format.param_data_block_count_per_group ==> reaches(
            m,
            #[trigger] m.block_at(g, b) + size,
        )
}

/// Data for which enough blocks are free next to one another can be stored.
pub proof fn data_is_stored_where_blocks_are_free(m: Image, data: Seq<u8>, g: int, b: int)
    requires
        m.format.usable(),
        mapped(m),
        data.len() > 0,
        16 + data.len() <= m.format.data_size(),
        free_blocks(m, g, b, blocks_for(16 + data.len() as int, m.format.block_size_bytes as int)),
        blocks_reach(
            m,
            blocks_for(16 + data.len() as int, m.format.block_size_bytes as int),
            16 + data.len() as int,
        ),
    ensures
        m.store(data).1 is Ok,
{
    reveal(Image::store);
    lemma_format(m);
    let bs = m.format.block_size_bytes as int;
    let len = data.len() as int;
    let n = blocks_for(16 + len, bs);
    lemma_aligned(16 + len, bs);
    lemma_fit(m, n, 0, g, b);
    lemma_first_fit(m, n, 0);
    let (h, bits, start) = m.first_fit(n, 0)->Ok_0->0;
    lemma_bits_wf(m, h);
    assert(blocks_needed(0, m.format.data_size(), bs) == Ok::<int, XHFSError>(0));
    assert(blocks_needed(data.len(), m.format.data_size(), bs) == Ok::<int, XHFSError>(n));
    lemma_fill_bits(bits.raw, bits.len as int, 8 * bits.raw.len() as int, false);
    let t = bits.trimmed();
    lemma_fill_bits(t.raw, start as int, start + n, true);
    lemma_can_put_bits(m, h, t.fill(start as int, start + n, true));
    let at = m.block_at(h, start as int);
    let slots = seq![(at, n)];
    let (m1, r1) = m.allocate(n);
    assert(r1 == Ok::<Seq<(int, int)>, XHFSError>(slots));
    assert(n * bs == aligned(16 + len, bs));
    let rest = data.subrange(len, len);
    assert(slots.drop_first() =~= Seq::<(int, int)>::empty());
    assert(spread(slots.drop_first(), bs, rest) == (Seq::<(int, Seq<u8>)>::empty(), rest));
    let plan = spread(slots, bs, data).0;
    assert(plan =~= seq![(at, data.subrange(0, len))]);
    assert(spread(slots, bs, data).1 =~= Seq::empty());
    assert(plan.drop_first() =~= Seq::empty());
    assert(m1.write_plan(plan.drop_first()) == (m1, Ok::<MaybeU64, XHFSError>(maybe(0))));
    let c = Chunk { next: maybe(0), data: data.subrange(0, len) };
    lemma_le64(c.data.len() as u64);
    lemma_le64(0);
    assert(chunk_bytes(c).len() == 16 + len);
    assert(reaches(m, m.block_at(h, start as int) + (16 + len)));
}

/// Storing data takes blocks from the front of a free stretch, so the rest of any free stretch
/// stays in one piece.
pub proof fn lemma_store_leaves_stretch(m: Image, data: Seq<u8>, g: int, b: int, len: int) -> (c:
    int)
    requires
        m.format.usable(),
        mapped(m),
        data.len() > 0,
        16 + data.len() <= m.format.data_size(),
        blocks_for(16 + data.len() as int, m.format.block_size_bytes as int) <= len,
        free_blocks(m, g, b, len),
        blocks_reach(
            m,
            blocks_for(16 + data.len() as int, m.format.block_size_bytes as int),
            16 + data.len() as int,
        ),
    ensures
        m.store(data).1 is Ok,
        free_blocks(
            m.store(data).0,
            g,
            c,
            len - blocks_for(16 + data.len() as int, m.format.block_size_bytes as int),
        ),
{
    lemma_format(m);
    let bs = m.format.block_size_bytes as int;
    let n = blocks_for(16 + data.len() as int, bs);
    lemma_aligned(16 + data.len() as int, bs);
    assert(free_blocks(m, g, b, n));
    data_is_stored_where_blocks_are_free(m, data, g, b);
    stored_data_reads_back(m, data);
    let m2 = m.store(data).0;
    assert(m2.format == m.format);
    assert(blocks_needed(0, m.format.data_size(), bs) == Ok::<int, XHFSError>(0));
    assert(blocks_needed(data.len(), m.format.data_size(), bs) == Ok::<int, XHFSError>(n));
    lemma_store_marks(m, data);
    lemma_fit(m, n, 0, g, b);
    lemma_first_fit(m, n, 0);
    let (h, bits, start) = m.first_fit(n, 0)->Ok_0->0;
    let slot = (m.block_at(h, start as int), n);
    let slots = seq![slot];
    assert(m.allocate(n).1 == Ok::<Seq<(int, int)>, XHFSError>(slots)) by {
        reveal(Image::store);
    }
    let c = if h == g && start <= b && b < start + n {
        start + n
    } else {
        b
    };
    if h == g && b < start < b + len {
        assert(!m.data_bits(g)->Ok_0.get(start - 1));
    }
    assert(free_blocks(m2, g, c, len - n)) by {
        assert forall|x: int| c <= x < c + (len - n) implies !#[trigger] m2.data_bits(
            g,
        )->Ok_0.get(x) by {
            assert(!m.data_bits(g)->Ok_0.get(x));
            assert(is_block(m, g, x));
            assert(!taken(m, g, x));
            assert(home(m, slot, h, start as int));
            lemma_block_in_slot(m, slot, h, start as int, g, x);
            let ss = slot_spans(slots, bs);
            assert(!in_slots(m, slots, g, x)) by {
                if in_slots(m, slots, g, x) {
                    let k = choose|k: int|
                        0 <= k < ss.len() && (#[trigger] ss[k]).0 <= m.block_at(g, x) < ss[k].1;
                    assert(k == 0);
                }
            }
            assert(!taken(m2, g, x));
            assert(m2.data_bits(g) is Ok);
        }
    }
    c
}

/// A new inode lies in the group of the inode that it is to be near to if that group has a free
/// place, and takes the first such place.
pub proof fn new_inode_is_near(
    m: Image,
    hint: u64,
    size: u64,
    addr: MaybeU64,
    kind: INodeKind,
    now: u64,
    i: int,
)
    requires
        m.format.usable(),
        inodes_mapped(m),
        is_inode(m, hint),
        free_place(m, m.inode_group(hint), i),
        m.new_inode(hint, size, addr, kind, now).1 is Ok,
    ensures
        ({
            let n = m.new_inode(hint, size, addr, kind, now).1->Ok_0.inumber;
            &&& m.inode_group(n) == m.inode_group(hint)
            &&& m.inode_index(n) <= i
        }),
{
    reveal(Image::new_inode);
    lemma_inode_place(m, hint);
    lemma_format(m);
    let start = m.inode_group(hint);
    let count = m.format.group_count as int;
    vstd::arithmetic::div_mod::lemma_small_mod(start as nat, count as nat);
    assert((start + 0) % count == start);
    let bits = m.inode_bits(start)->Ok_0;
    assert(m.inode_bits(start) is Ok);
    let most = m.format.param_inode_count_per_group as nat;
    let rs = runs(bits.raw, false, most);
    runs_are_maximal(bits.raw, false, most);
    assert(bit_at(bits.raw, i) == false);
    let k = choose|k: int| 0 <= k < rs.len() && in_run(#[trigger] rs[k], i);
    if k > 0 {
        assert(rs[0].0 + rs[0].1 < rs[k].0);
    }
    lemma_free_inode(m, start, 0);
    lemma_new_number(m, start, rs[0].0 as int);
}

} // verus!
