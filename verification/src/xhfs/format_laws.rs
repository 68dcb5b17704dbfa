//! A freshly formatted disk.
use crate::addr::maybe;
use crate::codec::{lemma_le64, zeros};
use crate::crypto::{Cipher, KeyDerivation};
use crate::device::disk::{in_keystream, raw_put};
use crate::error::XHFSError;
use crate::xhfs::bitmap::{bitmap_round_trip, bitmap_set_get, byte_count, Bits};
use crate::xhfs::block_laws::{is_block, lemma_groups_apart, mapped, taken};
use crate::xhfs::chain_laws::{places, sound_content, uses};
use crate::xhfs::ds::{inode_round_trip, node_bytes, Node};
use crate::xhfs::image::Image;
use crate::xhfs::inode_laws::{
    inodes_mapped, is_inode, lemma_inode_place, live, node_of, registered_inode_reads_back,
};
use crate::xhfs::laws::head;
use crate::xhfs::layout::{
    empty_bitmap, header_bytes, header_round_trip, inferred_format, Header, HEADER_SIZE,
};
use crate::xhfs::mount::{
    accepted, cipher_for, formatted, fresh_groups, fresh_header, fresh_root, group_parts, mounted,
    put_all, WISHED_BLOCKS, WISHED_INODES,
};
use crate::xhfs::op_laws::{good_entries, grounded};
use crate::xhfs::sound::{ext, lemma_inodes_keep, lemma_same_head, node_ok, sound};
use crate::xhfs::tree::Entries;
use crate::xhfs::volume::{lemma_addressable, lemma_format};
use vstd::prelude::*;

verus! {

/// A bitmap of cleared bits, as bits.
pub open spec fn no_bits(n: u64) -> Bits {
    Bits { len: n as nat, raw: zeros(byte_count(n as nat)) }
}

proof fn lemma_no_bits(n: u64, i: int)
    requires
        0 <= i < n,
    ensures
        no_bits(n).wf(),
        !no_bits(n).get(i),
{
    let j = (7 - i % 8) as u8;
    assert((0u8 >> j) & 1u8 == 0u8) by (bit_vector)
        requires
            j < 8,
    ;
}

/// Group `g` of the disk is as formatting leaves it.
pub open spec fn fresh_at(d: Seq<u8>, h: Header, g: int) -> bool {
    let f = h.format;
    let at = g * f.stride();
    &&& 0 <= at
    &&& at + f.data_at() <= d.len()
    &&& d.subrange(at, at + HEADER_SIZE) == header_bytes(h)
    &&& d.subrange(at + f.data_bitmap_at(), at + f.inode_bitmap_at()) == empty_bitmap(
        f.param_data_block_count_per_group,
    )
    &&& d.subrange(at + f.inode_bitmap_at(), at + f.inode_table_at()) == empty_bitmap(
        f.param_inode_count_per_group,
    )
}

/// A write within one stretch leaves the bytes outside of it.
proof fn lemma_put_outside(d: Seq<u8>, at: int, data: Seq<u8>)
    requires
        raw_put(d, at, data).1 is Ok,
        0 <= at,
    ensures
        raw_put(d, at, data).0.len() == d.len(),
        forall|i: int|
            0 <= i < d.len() && !(at <= i < at + data.len()) ==> #[trigger] raw_put(
                d,
                at,
                data,
            ).0[i] == d[i],
        data.len() > 0 ==> at + data.len() <= d.len() && raw_put(d, at, data).0.subrange(
            at,
            at + data.len(),
        ) == data,
{
    if data.len() > 0 {
        assert(raw_put(d, at, data).0.subrange(at, at + data.len()) =~= data);
    }
}

/// A stretch outside of a write is unchanged.
proof fn lemma_put_keeps(d: Seq<u8>, at: int, data: Seq<u8>, lo: int, hi: int)
    requires
        raw_put(d, at, data).1 is Ok,
        0 <= at,
        0 <= lo <= hi <= d.len(),
        hi <= at || at + data.len() <= lo,
    ensures
        raw_put(d, at, data).0.subrange(lo, hi) == d.subrange(lo, hi),
{
    assert(raw_put(d, at, data).0.subrange(lo, hi) =~= d.subrange(lo, hi));
}

/// Writing a fresh group makes it fresh and leaves what lies before it.
proof fn lemma_fresh_group(d: Seq<u8>, h: Header, g: int)
    requires
        h.format.usable(),
        h.chacha20_nonce.len() == 12,
        h.extra_metadata.len() == 32,
        0 <= g < h.format.group_count,
        put_all(d, group_parts(h, g * h.format.stride())).1 is Ok,
    ensures
        ({
            let d2 = put_all(d, group_parts(h, g * h.format.stride())).0;
            &&& d2.len() == d.len()
            &&& fresh_at(d2, h, g)
            &&& forall|i: int|
                0 <= i < g * h.format.stride() && i < d.len() ==> #[trigger] d2[i] == d[i]
        }),
{
    let f = h.format;
    let m = Image { format: f, cipher: None, disk: d };
    lemma_format(m);
    lemma_addressable(m, g, g);
    let at = g * f.stride();
    assert(at == m.group_at(g));
    let parts = group_parts(h, at);
    header_round_trip(h);
    let a0 = header_bytes(h);
    let a1 = empty_bitmap(f.param_data_block_count_per_group);
    let a2 = empty_bitmap(f.param_inode_count_per_group);
    let a3 = zeros(f.inode_table_size() as nat);
    lemma_le64(f.param_data_block_count_per_group);
    lemma_le64(f.param_inode_count_per_group);
    assert(a0.len() == HEADER_SIZE) by {
        lemma_le64(f.block_size_bytes);
        lemma_le64(f.group_count);
    }
    assert(a1.len() == f.data_bitmap_size());
    assert(a2.len() == f.inode_bitmap_size());
    reveal_with_fuel(put_all, 5);
    let p3 = parts.drop_last();
    let p2 = p3.drop_last();
    let p1 = p2.drop_last();
    assert(parts.last() == (at + f.inode_table_at(), a3));
    assert(p3.last() == (at + f.inode_bitmap_at(), a2));
    assert(p2.last() == (at + f.data_bitmap_at(), a1));
    assert(p1.last() == (at, a0));
    assert(p1.drop_last() =~= Seq::empty());
    let d1 = raw_put(d, at, a0).0;
    let d2 = raw_put(d1, at + f.data_bitmap_at(), a1).0;
    let d3 = raw_put(d2, at + f.inode_bitmap_at(), a2).0;
    let d4 = raw_put(d3, at + f.inode_table_at(), a3).0;
    lemma_put_outside(d, at, a0);
    lemma_put_outside(d1, at + f.data_bitmap_at(), a1);
    lemma_put_outside(d2, at + f.inode_bitmap_at(), a2);
    lemma_put_outside(d3, at + f.inode_table_at(), a3);
    let b = at + f.data_bitmap_at();
    let c = at + f.inode_bitmap_at();
    let t = at + f.inode_table_at();
    lemma_put_keeps(d1, b, a1, at, b);
    lemma_put_keeps(d2, c, a2, at, b);
    lemma_put_keeps(d3, t, a3, at, b);
    lemma_put_keeps(d2, c, a2, b, c);
    lemma_put_keeps(d3, t, a3, b, c);
    lemma_put_keeps(d3, t, a3, c, t);
}

/// All groups that were written are fresh.
proof fn lemma_fresh_groups(d: Seq<u8>, h: Header, g: nat)
    requires
        h.format.usable(),
        h.chacha20_nonce.len() == 12,
        h.extra_metadata.len() == 32,
        g <= h.format.group_count,
        fresh_groups(d, h, g).1 is Ok,
    ensures
        fresh_groups(d, h, g).0.len() == d.len(),
        forall|k: int| 0 <= k < g ==> #[trigger] fresh_at(fresh_groups(d, h, g).0, h, k),
    decreases g,
{
    if g > 0 {
        lemma_fresh_groups(d, h, (g - 1) as nat);
        let d1 = fresh_groups(d, h, (g - 1) as nat).0;
        lemma_fresh_group(d1, h, g - 1);
        let d2 = fresh_groups(d, h, g).0;
        let f = h.format;
        let m = Image { format: f, cipher: None, disk: d };
        lemma_format(m);
        assert forall|k: int| 0 <= k < g implies #[trigger] fresh_at(d2, h, k) by {
            if k < g - 1 {
                assert(fresh_at(d1, h, k));
                lemma_groups_apart(m, k, g - 1);
                let at = k * f.stride();
                assert(d2.subrange(at, at + HEADER_SIZE) =~= d1.subrange(at, at + HEADER_SIZE));
                assert(d2.subrange(at + f.data_bitmap_at(), at + f.inode_bitmap_at())
                    =~= d1.subrange(at + f.data_bitmap_at(), at + f.inode_bitmap_at()));
                assert(d2.subrange(at + f.inode_bitmap_at(), at + f.inode_table_at())
                    =~= d1.subrange(at + f.inode_bitmap_at(), at + f.inode_table_at()));
            }
        }
    }
}

/// On a fresh disk every bitmap can be read and no bit is set.
proof fn lemma_fresh_bits(m: Image, h: Header, g: int)
    requires
        m.format.usable(),
        m.format == h.format,
        0 <= g < m.format.group_count,
        fresh_at(m.disk, h, g),
    ensures
        m.data_bits(g) == Ok::<_, XHFSError>(no_bits(m.format.param_data_block_count_per_group)),
        m.inode_bits(g) == Ok::<_, XHFSError>(no_bits(m.format.param_inode_count_per_group)),
{
    lemma_format(m);
    lemma_no_bits(m.format.param_data_block_count_per_group, 0);
    lemma_no_bits(m.format.param_inode_count_per_group, 0);
    bitmap_round_trip(no_bits(m.format.param_data_block_count_per_group));
    bitmap_round_trip(no_bits(m.format.param_inode_count_per_group));
}

/// A freshly formatted volume is grounded: it starts with its header, all data blocks are free,
/// and the root directory, which is empty, is the only inode.
pub proof fn formatted_volume_is_empty(
    disk: Seq<u8>,
    cipher: Option<Cipher>,
    password: Option<Seq<char>>,
    kd: KeyDerivation,
    nonce: Seq<u8>,
    now: u64,
)
    requires
        nonce.len() == 12,
        formatted(disk, cipher, password, kd, nonce, now) is Ok,
    ensures
        ({
            let m = formatted(disk, cipher, password, kd, nonce, now)->Ok_0;
            &&& grounded(m)
            &&& m.disk.len() == disk.len()
            &&& m.cipher == cipher_for(password, nonce, kd, cipher)
            &&& accepted(m.format) == Ok::<_, XHFSError>(m.format)
            &&& m.disk.len() >= HEADER_SIZE
            &&& m.disk.subrange(0, HEADER_SIZE as int) == header_bytes(
                fresh_header(m.format, nonce),
            )
            &&& m.root() == Ok::<_, XHFSError>(fresh_root(now))
            &&& m.dir(fresh_root(now).extent_addr) == Ok::<Entries, XHFSError>(Seq::empty())
            &&& forall|n: u64| #[trigger] live(m, n) ==> n == 1
            &&& forall|g: int, b: int| is_block(m, g, b) ==> !#[trigger] taken(m, g, b)
        }),
{
    let f = inferred_format(disk.len() as u64, WISHED_BLOCKS, WISHED_INODES)->Ok_0;
    let h = fresh_header(f, nonce);
    let d = fresh_groups(disk, h, f.group_count as nat).0;
    lemma_fresh_groups(disk, h, f.group_count as nat);
    let m0 = mounted(d, cipher_for(password, nonce, kd, cipher), password, kd)->Ok_0;
    assert(fresh_at(d, h, 0));
    header_round_trip(h);
    assert(0 * f.stride() == 0);
    assert(m0.format == f);
    assert(m0.disk == d);
    lemma_format(m0);
    assert forall|g: int| 0 <= g < f.group_count implies (#[trigger] m0.data_bits(g)) == Ok::<
        _,
        XHFSError,
    >(no_bits(f.param_data_block_count_per_group)) && m0.inode_bits(g) == Ok::<_, XHFSError>(
        no_bits(f.param_inode_count_per_group),
    ) by {
        assert(fresh_at(d, h, g));
        lemma_fresh_bits(m0, h, g);
    }
    assert(inodes_mapped(m0)) by {
        assert forall|g: int| 0 <= g < f.group_count implies (#[trigger] m0.inode_bits(g)) is Ok
            && m0.inode_bits(g)->Ok_0.len == f.param_inode_count_per_group by {
            assert(m0.data_bits(g) is Ok);
        }
    }
    assert forall|n: u64| is_inode(m0, n) implies #[trigger] m0.inode(n) == Ok::<_, XHFSError>(
        None::<Node>,
    ) by {
        reveal(Image::inode);
        lemma_inode_place(m0, n);
        assert(m0.data_bits(m0.inode_group(n)) is Ok);
        lemma_no_bits(f.param_inode_count_per_group, m0.inode_index(n));
    }
    let root = fresh_root(now);
    assert(is_inode(m0, 1)) by {
        assert(m0.inode_group(1) == 0) by (nonlinear_arith)
            requires
                m0.inode_group(1) == (1u64 - 1) / m0.format.param_inode_count_per_group as int,
                m0.format.param_inode_count_per_group > 0,
        ;
    }
    registered_inode_reads_back(m0, root, false);
    let m = m0.register(root, false).0;
    lemma_inodes_keep(m0, m);
    lemma_same_head(m0, m);
    assert(m.disk.subrange(0, HEADER_SIZE as int) == d.subrange(0, HEADER_SIZE as int)) by {
        reveal(head);
    }
    assert forall|n: u64| #[trigger] live(m, n) implies n == 1 by {
        if n != 1 {
            assert(is_inode(m0, n));
            assert(m.inode(n) == m0.inode(n));
        }
    }
    assert forall|g: int, b: int| is_block(m, g, b) implies !#[trigger] taken(m, g, b) by {
        assert(m.data_bits(g) == m0.data_bits(g));
        lemma_no_bits(f.param_data_block_count_per_group, b);
    }
    assert(m.content(maybe(0)) == Ok::<Seq<u8>, XHFSError>(Seq::empty())) by {
        reveal(Image::content);
    }
    assert(places(m, maybe(0)) =~= Seq::empty());
    assert forall|g: int, b: int| !(#[trigger] uses(m, places(m, maybe(0)), g, b)) by {}
    assert(sound_content(m, maybe(0)));
    assert(sound(m, Seq::empty())) by {
        assert forall|n: u64| is_inode(m, n) implies (#[trigger] m.inode(n)) is Ok by {
            assert(is_inode(m0, n));
            if n != 1 {
                assert(m.inode(n) == m0.inode(n));
            }
        }
        assert forall|n: u64| #[trigger] live(m, n) implies node_ok(m, n) by {}
        assert(mapped(m)) by {
            assert forall|g: int| 0 <= g < m.format.group_count implies (#[trigger] m.data_bits(
                g,
            )) is Ok && m.data_bits(g)->Ok_0.len == m.format.param_data_block_count_per_group by {
                assert(m.data_bits(g) == m0.data_bits(g));
            }
        }
    }
    assert(grounded(m)) by {
        reveal(grounded);
        assert forall|n: u64|
            #[trigger] live(m, n) && node_of(m, n).kind is Directory && m.dir(
                ext(m, n),
            ) is Ok implies good_entries(m, m.dir(ext(m, n))->Ok_0) by {
            assert(n == 1);
        }
    }
}

/// A fresh group is written where the disk reaches to its data.
proof fn lemma_group_written(d: Seq<u8>, h: Header, g: int)
    requires
        h.format.usable(),
        h.chacha20_nonce.len() == 12,
        h.extra_metadata.len() == 32,
        0 <= g < h.format.group_count,
        g * h.format.stride() + h.format.data_at() <= d.len(),
    ensures
        put_all(d, group_parts(h, g * h.format.stride())).1 is Ok,
{
    let f = h.format;
    let m = Image { format: f, cipher: None, disk: d };
    lemma_format(m);
    lemma_addressable(m, g, g);
    let at = g * f.stride();
    assert(at == m.group_at(g));
    let parts = group_parts(h, at);
    header_round_trip(h);
    let a0 = header_bytes(h);
    let a1 = empty_bitmap(f.param_data_block_count_per_group);
    let a2 = empty_bitmap(f.param_inode_count_per_group);
    let a3 = zeros(f.inode_table_size() as nat);
    lemma_le64(f.param_data_block_count_per_group);
    lemma_le64(f.param_inode_count_per_group);
    assert(a0.len() == HEADER_SIZE) by {
        lemma_le64(f.block_size_bytes);
        lemma_le64(f.group_count);
    }
    assert(a1.len() == f.data_bitmap_size());
    assert(a2.len() == f.inode_bitmap_size());
    reveal_with_fuel(put_all, 5);
    let p3 = parts.drop_last();
    let p2 = p3.drop_last();
    let p1 = p2.drop_last();
    assert(parts.last() == (at + f.inode_table_at(), a3));
    assert(p3.last() == (at + f.inode_bitmap_at(), a2));
    assert(p2.last() == (at + f.data_bitmap_at(), a1));
    assert(p1.last() == (at, a0));
    assert(p1.drop_last() =~= Seq::empty());
    let d1 = raw_put(d, at, a0).0;
    let d2 = raw_put(d1, at + f.data_bitmap_at(), a1).0;
    let d3 = raw_put(d2, at + f.inode_bitmap_at(), a2).0;
    lemma_put_outside(d, at, a0);
    lemma_put_outside(d1, at + f.data_bitmap_at(), a1);
    lemma_put_outside(d2, at + f.inode_bitmap_at(), a2);
}

proof fn lemma_groups_written(d: Seq<u8>, h: Header, g: nat)
    requires
        h.format.usable(),
        h.chacha20_nonce.len() == 12,
        h.extra_metadata.len() == 32,
        g <= h.format.group_count,
        h.format.group_count * h.format.stride() <= d.len(),
    ensures
        fresh_groups(d, h, g).1 is Ok,
    decreases g,
{
    if g > 0 {
        lemma_groups_written(d, h, (g - 1) as nat);
        lemma_fresh_groups(d, h, (g - 1) as nat);
        let f = h.format;
        let m = Image { format: f, cipher: None, disk: d };
        lemma_format(m);
        let all = f.group_count as int;
        let stride = f.stride();
        assert((g - 1) * stride + stride <= all * stride) by (nonlinear_arith)
            requires
                g <= all,
                stride > 0,
        ;
        lemma_group_written(fresh_groups(d, h, (g - 1) as nat).0, h, g - 1);
    }
}

/// Free space can be told where all data bitmaps can be read.
proof fn lemma_told(m: Image, g: nat)
    requires
        g <= m.format.group_count,
        forall|k: int| 0 <= k < m.format.group_count ==> (#[trigger] m.data_bits(k)) is Ok,
    ensures
        m.free_bytes(g) is Ok,
    decreases g,
{
    if g > 0 {
        lemma_told(m, (g - 1) as nat);
        assert(m.data_bits(g - 1) is Ok);
    }
}

/// A disk is formatted where its size is enough for a group, all groups fit on it, and the
/// keystream reaches to the end of the disk.
pub proof fn disk_with_room_is_formatted(
    disk: Seq<u8>,
    cipher: Option<Cipher>,
    password: Option<Seq<char>>,
    kd: KeyDerivation,
    nonce: Seq<u8>,
    now: u64,
)
    requires
        nonce.len() == 12,
        disk.len() <= u64::MAX,
        in_keystream(cipher_for(password, nonce, kd, cipher), disk.len() as int),
        inferred_format(disk.len() as u64, 20_480, 4096) is Ok,
        ({
            let f = inferred_format(disk.len() as u64, 20_480, 4096)->Ok_0;
            f.usable() && f.group_count * f.stride() <= disk.len()
        }),
    ensures
        formatted(disk, cipher, password, kd, nonce, now) is Ok,
{
    let f = inferred_format(disk.len() as u64, WISHED_BLOCKS, WISHED_INODES)->Ok_0;
    let c = cipher_for(password, nonce, kd, cipher);
    let h = fresh_header(f, nonce);
    assert(accepted(f) == Ok::<_, XHFSError>(f));
    lemma_groups_written(disk, h, f.group_count as nat);
    lemma_fresh_groups(disk, h, f.group_count as nat);
    let d = fresh_groups(disk, h, f.group_count as nat).0;
    let m = Image { format: f, cipher: c, disk: d };
    lemma_format(m);
    assert(fresh_at(d, h, 0));
    header_round_trip(h);
    assert(0 * f.stride() == 0);
    assert forall|g: int| 0 <= g < f.group_count implies (#[trigger] m.data_bits(g)) == Ok::<
        _,
        XHFSError,
    >(no_bits(f.param_data_block_count_per_group)) && m.inode_bits(g) == Ok::<_, XHFSError>(
        no_bits(f.param_inode_count_per_group),
    ) by {
        assert(fresh_at(d, h, g));
        lemma_fresh_bits(m, h, g);
    }
    lemma_told(m, f.group_count as nat);
    assert(mounted(d, c, password, kd) == Ok::<_, XHFSError>(m));
    let root = fresh_root(now);
    assert(is_inode(m, 1) && m.inode_group(1) == 0 && m.inode_index(1) == 0) by {
        assert(m.inode_group(1) == 0 && m.inode_index(1) == 0) by (nonlinear_arith)
            requires
                m.inode_group(1) == (1u64 - 1) / m.format.param_inode_count_per_group as int,
                m.inode_index(1) == (1u64 - 1) % m.format.param_inode_count_per_group as int,
                m.format.param_inode_count_per_group > 0,
        ;
    }
    reveal(Image::register);
    lemma_inode_place(m, 1);
    assert(m.data_bits(0) is Ok);
    lemma_no_bits(f.param_inode_count_per_group, 0);
    inode_round_trip(root);
    bitmap_set_get(no_bits(f.param_inode_count_per_group), 0, true, 0);
    lemma_le64(f.param_inode_count_per_group);
    lemma_addressable(m, 0, 0);
    let m1 = m.put_clear(m.inode_at(1), node_bytes(root)).0;
    assert(m1.disk.len() == m.disk.len());
    assert(1 * f.stride() <= f.group_count * f.stride()) by (nonlinear_arith)
        requires
            f.group_count >= 1,
            f.stride() > 0,
    ;
}

} // verus!
