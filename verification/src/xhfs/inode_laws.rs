//! Inodes are read back as they were stored.
use crate::addr::MaybeU64;
use crate::codec::{lemma_le64, zeros};
use crate::device::disk::{lemma_clear_get, lemma_clear_put, plain};
use crate::error::XHFSError;
use crate::xhfs::bitmap::{
    bit_at, bitmap_round_trip, bitmap_set_get, bits_bytes, maximal_run, runs_are_maximal, Bits,
};
use crate::xhfs::block_laws::{lemma_groups_apart, lemma_place};
use crate::xhfs::ds::{inode_round_trip, node_bytes, INodeKind, Node, INODE_SIZE};
use crate::xhfs::image::Image;
use crate::xhfs::laws::{lemma_same_read, same_outside};
use crate::xhfs::ops::lemma_new_number;
use crate::xhfs::volume::{lemma_addressable, lemma_format};
use vstd::prelude::*;

verus! {

/// Inode number `n` belongs to one of the groups.
pub open spec fn is_inode(m: Image, n: u64) -> bool {
    n != 0 && m.inode_group(n) < m.format.group_count
}

/// Every inode bitmap can be read and has a bit for each inode.
pub open spec fn inodes_mapped(m: Image) -> bool {
    forall|g: int|
        0 <= g < m.format.group_count ==> (#[trigger] m.inode_bits(g)) is Ok
            && m.inode_bits(g)->Ok_0.len == m.format.param_inode_count_per_group
}

/// Inode `n` is taken.
pub open spec fn live(m: Image, n: u64) -> bool {
    is_inode(m, n) && m.inode(n) is Ok && m.inode(n)->Ok_0 is Some
}

/// The inode with number `n`.
pub open spec fn node_of(m: Image, n: u64) -> Node {
    m.inode(n)->Ok_0->0
}

/// The same volume, with at most inode bitmaps and inode tables changed.
pub open spec fn same_but_inodes(a: Image, b: Image) -> bool {
    &&& a.format == b.format
    &&& a.cipher == b.cipher
    &&& a.disk.len() == b.disk.len()
    &&& forall|i: int|
        0 <= i < a.disk.len() && !(a.format.inode_bitmap_at() <= i % a.format.stride()
            < a.format.data_at()) ==> #[trigger] a.disk[i] == b.disk[i]
}

/// The same volume with the same inodes: inode bitmaps and tables are unchanged.
pub open spec fn same_inodes(a: Image, b: Image) -> bool {
    &&& a.format == b.format
    &&& a.cipher == b.cipher
    &&& a.disk.len() == b.disk.len()
    &&& forall|i: int|
        0 <= i < a.disk.len() && a.format.inode_bitmap_at() <= i % a.format.stride()
            < a.format.data_at() ==> #[trigger] a.disk[i] == b.disk[i]
}

/// Facts on the place of an inode.
pub proof fn lemma_inode_place(m: Image, n: u64)
    requires
        m.format.usable(),
        is_inode(m, n),
    ensures
        m.has_slot(n),
        0 <= m.inode_group(n) < m.format.group_count,
        0 <= m.inode_index(n) < m.format.param_inode_count_per_group,
        n - 1 == m.inode_group(n) * m.format.param_inode_count_per_group + m.inode_index(n),
        m.group_at(m.inode_group(n)) + m.format.inode_table_at() <= m.inode_at(n),
        m.inode_at(n) + INODE_SIZE <= m.group_at(m.inode_group(n)) + m.format.data_at(),
        0 <= m.group_at(m.inode_group(n)),
{
    lemma_format(m);
    let ni = m.format.param_inode_count_per_group as int;
    vstd::arithmetic::div_mod::lemma_fundamental_div_mod(n - 1, ni);
    let g = m.inode_group(n);
    assert(ni * g == g * ni) by (nonlinear_arith);
    assert(g >= 0) by (nonlinear_arith)
        requires
            g == (n - 1) / ni,
            n >= 1,
            ni > 0,
    ;
    lemma_addressable(m, g, g);
}

/// Inodes have places of their own.
pub proof fn lemma_inode_places_apart(m: Image, n: u64, k: u64)
    requires
        m.format.usable(),
        is_inode(m, n),
        is_inode(m, k),
        n != k,
    ensures
        m.inode_at(n) + INODE_SIZE <= m.inode_at(k) || m.inode_at(k) + INODE_SIZE <= m.inode_at(n),
        m.inode_group(n) == m.inode_group(k) ==> m.inode_index(n) != m.inode_index(k),
{
    lemma_inode_place(m, n);
    lemma_inode_place(m, k);
    lemma_format(m);
    let g = m.inode_group(n);
    let h = m.inode_group(k);
    if g < h {
        lemma_groups_apart(m, g, h);
    } else if h < g {
        lemma_groups_apart(m, h, g);
    }
}

/// An inode whose bitmap and table are unchanged reads the same.
pub proof fn lemma_inode_same(a: Image, b: Image, n: u64)
    requires
        a.format.usable(),
        same_inodes(a, b),
        is_inode(a, n),
    ensures
        is_inode(b, n),
        a.inode(n) == b.inode(n),
{
    reveal(Image::inode);
    lemma_inode_place(a, n);
    lemma_format(a);
    let g = a.inode_group(n);
    lemma_inode_bits_same(a, b, g);
    let at = a.inode_at(n);
    assert forall|i: int| 0 <= i < a.disk.len() && at <= i < at + INODE_SIZE implies a.disk[i]
        == b.disk[i] by {
        lemma_place(a, g, i - a.group_at(g));
    }
    lemma_same_read(a, b, at, INODE_SIZE as int);
}

/// An inode bitmap that did not change reads the same.
pub proof fn lemma_inode_bits_same(a: Image, b: Image, g: int)
    requires
        a.format.usable(),
        same_inodes(a, b),
        0 <= g < a.format.group_count,
    ensures
        a.inode_bits(g) == b.inode_bits(g),
{
    lemma_format(a);
    lemma_addressable(a, g, g);
    let at = a.inode_bitmap_at(g);
    let n = a.format.inode_bitmap_size();
    assert forall|i: int| 0 <= i < a.disk.len() && at <= i < at + n implies a.disk[i]
        == b.disk[i] by {
        lemma_place(a, g, i - a.group_at(g));
    }
    lemma_same_read(a, b, at, n);
}

/// Writing the inode bitmap of a group changes that bitmap and nothing else.
pub proof fn lemma_put_inode_bits(m: Image, g: int, bits: Bits)
    requires
        m.format.usable(),
        0 <= g < m.format.group_count,
        bits.wf(),
        bits.len == m.format.param_inode_count_per_group,
        m.put_raw(m.inode_bitmap_at(g), bits_bytes(bits)).1 is Ok,
    ensures
        ({
            let m2 = m.put_raw(m.inode_bitmap_at(g), bits_bytes(bits)).0;
            &&& m2.inode_bits(g) == Ok::<_, XHFSError>(bits)
            &&& forall|h: int|
                0 <= h < m.format.group_count && h != g ==> #[trigger] m2.inode_bits(h)
                    == m.inode_bits(h)
            &&& same_but_inodes(m, m2)
            &&& forall|n: u64|
                is_inode(m, n) ==> #[trigger] m2.clear(m2.inode_at(n), INODE_SIZE as int)
                    == m.clear(m.inode_at(n), INODE_SIZE as int)
        }),
{
    let f = m.format;
    lemma_format(m);
    lemma_addressable(m, g, g);
    let bytes = bits_bytes(bits);
    lemma_le64(bits.len as u64);
    let at = m.inode_bitmap_at(g);
    let m2 = m.put_raw(at, bytes).0;
    assert(bytes.len() == f.inode_bitmap_size());
    assert(m2.disk.subrange(at, at + bytes.len()) =~= bytes);
    bitmap_round_trip(bits);
    assert forall|h: int| 0 <= h < f.group_count && h != g implies #[trigger] m2.inode_bits(h)
        == m.inode_bits(h) by {
        if h < g {
            lemma_groups_apart(m, h, g);
        } else {
            lemma_groups_apart(m, g, h);
        }
        lemma_same_read(m, m2, m.inode_bitmap_at(h), f.inode_bitmap_size());
    }
    assert forall|i: int|
        0 <= i < m.disk.len() && !(f.inode_bitmap_at() <= i % f.stride()
            < f.data_at()) implies #[trigger] m.disk[i] == m2.disk[i] by {
        if at <= i < at + bytes.len() {
            lemma_place(m, g, i - m.group_at(g));
        }
    }
    assert forall|n: u64| is_inode(m, n) implies #[trigger] m2.clear(
        m2.inode_at(n),
        INODE_SIZE as int,
    ) == m.clear(m.inode_at(n), INODE_SIZE as int) by {
        lemma_inode_place(m, n);
        let h = m.inode_group(n);
        if h < g {
            lemma_groups_apart(m, h, g);
        } else if g < h {
            lemma_groups_apart(m, g, h);
        }
        lemma_same_read(m, m2, m.inode_at(n), INODE_SIZE as int);
    }
}

/// Writing an inode into its place changes that place and nothing else.
proof fn lemma_put_inode(m: Image, node: Node)
    requires
        m.format.usable(),
        is_inode(m, node.inumber),
        node.extra_metadata.len() == 32,
        m.put_clear(m.inode_at(node.inumber), node_bytes(node)).1 is Ok,
    ensures
        ({
            let m2 = m.put_clear(m.inode_at(node.inumber), node_bytes(node)).0;
            &&& m2.clear(m.inode_at(node.inumber), INODE_SIZE as int) == Ok::<_, XHFSError>(
                node_bytes(node),
            )
            &&& forall|n: u64|
                is_inode(m, n) && n != node.inumber ==> #[trigger] m2.clear(
                    m2.inode_at(n),
                    INODE_SIZE as int,
                ) == m.clear(m.inode_at(n), INODE_SIZE as int)
            &&& forall|g: int|
                0 <= g < m.format.group_count ==> #[trigger] m2.inode_bits(g) == m.inode_bits(g)
            &&& same_but_inodes(m, m2)
        }),
{
    let f = m.format;
    lemma_format(m);
    inode_round_trip(node);
    let bytes = node_bytes(node);
    let at = m.inode_at(node.inumber);
    let m2 = m.put_clear(at, bytes).0;
    lemma_inode_place(m, node.inumber);
    assert(bytes.len() == INODE_SIZE) by {
        lemma_le64(node.inumber);
        lemma_le64(node.nlink);
        lemma_le64(node.total_file_size);
        lemma_le64(node.extent_addr.raw);
        lemma_le64(node.mtime);
        lemma_le64(node.ctime);
    }
    lemma_clear_put(m.cipher, m.disk, at, bytes);
    lemma_clear_get(m2.cipher, m2.disk, at, INODE_SIZE as int);
    assert(plain(m2.cipher, m2.disk).subrange(at, at + INODE_SIZE) =~= bytes);
    assert(same_outside(m, m2, at, at + INODE_SIZE));
    assert forall|n: u64| is_inode(m, n) && n != node.inumber implies #[trigger] m2.clear(
        m2.inode_at(n),
        INODE_SIZE as int,
    ) == m.clear(m.inode_at(n), INODE_SIZE as int) by {
        lemma_inode_place(m, n);
        lemma_inode_places_apart(m, n, node.inumber);
        lemma_same_read(m, m2, m.inode_at(n), INODE_SIZE as int);
    }
    let gn = m.inode_group(node.inumber);
    assert forall|g: int| 0 <= g < f.group_count implies #[trigger] m2.inode_bits(g)
        == m.inode_bits(g) by {
        lemma_addressable(m, g, g);
        if g < gn {
            lemma_groups_apart(m, g, gn);
        } else if gn < g {
            lemma_groups_apart(m, gn, g);
        }
        lemma_same_read(m, m2, m.inode_bitmap_at(g), f.inode_bitmap_size());
    }
    assert forall|i: int|
        0 <= i < m.disk.len() && !(f.inode_bitmap_at() <= i % f.stride()
            < f.data_at()) implies #[trigger] m.disk[i] == m2.disk[i] by {
        if at <= i < at + INODE_SIZE {
            lemma_place(m, gn, i - m.group_at(gn));
        }
    }
}

/// An inode that is stored with a bitmap in which its bit is set reads back; all inodes whose
/// bits did not change read as before.
pub proof fn lemma_store_inode(m: Image, node: Node, bits: Bits)
    requires
        m.format.usable(),
        inodes_mapped(m),
        is_inode(m, node.inumber),
        node.extra_metadata.len() == 32,
        bits.wf(),
        bits.len == m.format.param_inode_count_per_group,
        bits.get(m.inode_index(node.inumber)),
        forall|i: int|
            0 <= i < bits.len && i != m.inode_index(node.inumber) ==> (#[trigger] bits.get(i))
                == m.inode_bits(m.inode_group(node.inumber))->Ok_0.get(i),
        m.store_inode(node, m.inode_group(node.inumber), bits).1 is Ok,
    ensures
        ({
            let m2 = m.store_inode(node, m.inode_group(node.inumber), bits).0;
            &&& inodes_mapped(m2)
            &&& same_but_inodes(m, m2)
            &&& m2.inode(node.inumber) == Ok::<_, XHFSError>(Some(node))
            &&& forall|n: u64|
                is_inode(m, n) && n != node.inumber ==> #[trigger] m2.inode(n) == m.inode(n)
        }),
{
    reveal(Image::inode);
    let g = m.inode_group(node.inumber);
    lemma_inode_place(m, node.inumber);
    lemma_put_inode(m, node);
    inode_round_trip(node);
    let m1 = m.put_clear(m.inode_at(node.inumber), node_bytes(node)).0;
    assert(m1.inode_bitmap_at(g) == m.inode_bitmap_at(g));
    lemma_put_inode_bits(m1, g, bits);
    let m2 = m.store_inode(node, g, bits).0;
    assert forall|h: int| 0 <= h < m2.format.group_count implies (#[trigger] m2.inode_bits(h)) is Ok
        && m2.inode_bits(h)->Ok_0.len == m2.format.param_inode_count_per_group by {
        if h != g {
            assert(m2.inode_bits(h) == m1.inode_bits(h));
            assert(m1.inode_bits(h) == m.inode_bits(h));
        }
    }
    assert(is_inode(m1, node.inumber));
    assert(m2.clear(m2.inode_at(node.inumber), INODE_SIZE as int) == m1.clear(
        m1.inode_at(node.inumber),
        INODE_SIZE as int,
    ));
    assert forall|n: u64| is_inode(m, n) && n != node.inumber implies #[trigger] m2.inode(n)
        == m.inode(n) by {
        lemma_inode_place(m, n);
        lemma_inode_places_apart(m, n, node.inumber);
        assert(is_inode(m1, n));
        assert(m2.clear(m2.inode_at(n), INODE_SIZE as int) == m1.clear(
            m1.inode_at(n),
            INODE_SIZE as int,
        ));
        assert(m1.clear(m1.inode_at(n), INODE_SIZE as int) == m.clear(
            m.inode_at(n),
            INODE_SIZE as int,
        ));
        let h = m.inode_group(n);
        assert(m1.inode_bits(h) == m.inode_bits(h));
        if h != g {
            assert(m2.inode_bits(h) == m1.inode_bits(h));
        } else {
            assert(bits.get(m.inode_index(n)) == m.inode_bits(g)->Ok_0.get(m.inode_index(n)));
        }
    }
}

/// An inode that is registered reads back, and all other inodes read as before.
pub proof fn registered_inode_reads_back(m: Image, node: Node, overwrite: bool)
    requires
        m.format.usable(),
        inodes_mapped(m),
        is_inode(m, node.inumber),
        node.extra_metadata.len() == 32,
        m.register(node, overwrite).1 is Ok,
    ensures
        ({
            let m2 = m.register(node, overwrite).0;
            &&& inodes_mapped(m2)
            &&& same_but_inodes(m, m2)
            &&& m2.inode(node.inumber) == Ok::<_, XHFSError>(Some(node))
            &&& forall|n: u64|
                is_inode(m, n) && n != node.inumber ==> #[trigger] m2.inode(n) == m.inode(n)
        }),
{
    reveal(Image::register);
    let g = m.inode_group(node.inumber);
    let i = m.inode_index(node.inumber);
    lemma_inode_place(m, node.inumber);
    let bits = m.inode_bits(g)->Ok_0;
    let new = bits.set(i, true);
    bitmap_set_get(bits, i, true, i);
    assert forall|k: int| 0 <= k < new.len && k != i implies (#[trigger] new.get(k)) == bits.get(
        k,
    ) by {
        bitmap_set_get(bits, i, true, k);
    }
    lemma_store_inode(m, node, new);
}

/// What the search for a free inode finds.
pub proof fn lemma_free_inode(m: Image, start: int, i: int)
    requires
        m.format.usable(),
        0 <= start,
        0 <= i,
        m.free_inode(start, i) is Ok,
        m.free_inode(start, i)->Ok_0 is Some,
    ensures
        ({
            let (g, bits, k) = m.free_inode(start, i)->Ok_0->0;
            &&& 0 <= g < m.format.group_count
            &&& m.inode_bits(g) == Ok::<_, XHFSError>(bits)
            &&& k < m.format.param_inode_count_per_group
            &&& k < bits.len
            &&& !bits.get(k as int)
        }),
    decreases m.format.group_count - i,
{
    lemma_format(m);
    let count = m.format.group_count as int;
    let g = (start + i) % count;
    let bits = m.inode_bits(g)->Ok_0;
    let free = m.free_inodes(bits);
    if free.len() > 0 {
        let ni = m.format.param_inode_count_per_group as nat;
        let n = if ni < bits.len {
            ni
        } else {
            bits.len
        };
        runs_are_maximal(bits.raw, false, n);
        assert(maximal_run(bits.raw, false, n, free[0]));
        assert(bit_at(bits.raw, free[0].0 as int) == false);
    } else {
        lemma_free_inode(m, start, i + 1);
    }
}

/// A new inode was free, reads back as it was made, and all other inodes read as before.
pub proof fn new_inode_reads_back(
    m: Image,
    hint: u64,
    size: u64,
    extent_addr: MaybeU64,
    kind: INodeKind,
    now: u64,
)
    requires
        m.format.usable(),
        inodes_mapped(m),
        is_inode(m, hint),
        m.new_inode(hint, size, extent_addr, kind, now).1 is Ok,
    ensures
        ({
            let m2 = m.new_inode(hint, size, extent_addr, kind, now).0;
            let node = m.new_inode(hint, size, extent_addr, kind, now).1->Ok_0;
            &&& inodes_mapped(m2)
            &&& same_but_inodes(m, m2)
            &&& is_inode(m, node.inumber)
            &&& m.inode(node.inumber) == Ok::<_, XHFSError>(None::<Node>)
            &&& m2.inode(node.inumber) == Ok::<_, XHFSError>(Some(node))
            &&& node == (Node {
                kind,
                inumber: node.inumber,
                nlink: 1,
                total_file_size: size,
                extent_addr,
                mtime: now,
                ctime: now,
                extra_metadata: zeros(32),
            })
            &&& forall|n: u64|
                is_inode(m, n) && n != node.inumber ==> #[trigger] m2.inode(n) == m.inode(n)
        }),
{
    reveal(Image::inode);
    reveal(Image::new_inode);
    lemma_inode_place(m, hint);
    lemma_format(m);
    lemma_free_inode(m, m.inode_group(hint), 0);
    let (g, bits, k) = m.free_inode(m.inode_group(hint), 0)->Ok_0->0;
    lemma_addressable(m, g, g);
    lemma_new_number(m, g, k as int);
    let node = m.new_inode(hint, size, extent_addr, kind, now).1->Ok_0;
    let new = bits.set(k as int, true);
    bitmap_set_get(bits, k as int, true, k as int);
    assert forall|j: int| 0 <= j < new.len && j != k implies (#[trigger] new.get(j)) == bits.get(
        j,
    ) by {
        bitmap_set_get(bits, k as int, true, j);
    }
    lemma_store_inode(m, node, new);
}

/// Clearing the bit of an inode takes that inode away and no other.
pub proof fn lemma_clear_inode(m: Image, n: u64)
    requires
        m.format.usable(),
        inodes_mapped(m),
        is_inode(m, n),
    ensures
        ({
            let g = m.inode_group(n);
            let bits = m.inode_bits(g)->Ok_0.set(m.inode_index(n), false);
            let (m2, r) = m.put_raw(m.inode_bitmap_at(g), bits_bytes(bits));
            &&& r is Ok
            &&& inodes_mapped(m2)
            &&& same_but_inodes(m, m2)
            &&& m2.inode(n) == Ok::<_, XHFSError>(None::<Node>)
            &&& forall|k: u64| is_inode(m, k) && k != n ==> #[trigger] m2.inode(k) == m.inode(k)
        }),
{
    reveal(Image::inode);
    let g = m.inode_group(n);
    let i = m.inode_index(n);
    lemma_inode_place(m, n);
    lemma_format(m);
    lemma_addressable(m, g, g);
    let old = m.inode_bits(g)->Ok_0;
    let bits = old.set(i, false);
    bitmap_set_get(old, i, false, i);
    lemma_le64(bits.len as u64);
    lemma_put_inode_bits(m, g, bits);
    let m2 = m.put_raw(m.inode_bitmap_at(g), bits_bytes(bits)).0;
    assert forall|h: int| 0 <= h < m2.format.group_count implies (#[trigger] m2.inode_bits(h)) is Ok
        && m2.inode_bits(h)->Ok_0.len == m2.format.param_inode_count_per_group by {
        if h != g {
            assert(m2.inode_bits(h) == m.inode_bits(h));
        }
    }
    assert forall|k: u64| is_inode(m, k) && k != n implies #[trigger] m2.inode(k) == m.inode(
        k,
    ) by {
        lemma_inode_place(m, k);
        lemma_inode_places_apart(m, k, n);
        assert(m2.clear(m2.inode_at(k), INODE_SIZE as int) == m.clear(
            m.inode_at(k),
            INODE_SIZE as int,
        ));
        if m.inode_group(k) == g {
            bitmap_set_get(old, i, false, m.inode_index(k));
        } else {
            assert(m2.inode_bits(m.inode_group(k)) == m.inode_bits(m.inode_group(k)));
        }
    }
}

} // verus!
