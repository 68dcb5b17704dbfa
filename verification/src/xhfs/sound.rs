//! A sound volume: every inode has its own content in blocks of its own, and every
//! operation leaves it so.
use crate::addr::MaybeU64;
use crate::error::XHFSError;
use crate::xhfs::block_laws::{is_block, mapped, same_but_marks, taken};
use crate::xhfs::chain_laws::{
    grows, lemma_byte_offset, lemma_marks_same, lemma_same_format, places, same_meta,
    sound_content, span_home, stored_data_reads_back, uses,
};
use crate::xhfs::ds::{INodeKind, Node};
use crate::xhfs::free_laws::{disjoint, freed_blocks_are_free, lemma_marks_leave_data};
use crate::xhfs::image::Image;
use crate::xhfs::inode_laws::{
    inodes_mapped, is_inode, lemma_clear_inode, lemma_inode_bits_same, lemma_inode_place,
    lemma_inode_same, live, new_inode_reads_back, node_of, registered_inode_reads_back,
    same_but_inodes, same_inodes,
};
use crate::xhfs::laws::{agree_on, extents, head, lemma_chain_frame, lemma_head, same_within};
use crate::xhfs::layout::HEADER_SIZE;
use crate::xhfs::volume::lemma_format;
use vstd::prelude::*;

verus! {

/// Where the content of inode `n` starts.
pub open spec fn ext(m: Image, n: u64) -> MaybeU64 {
    node_of(m, n).extent_addr
}

/// Two contents have no block in common.
pub open spec fn parts_apart(m: Image, a: MaybeU64, b: MaybeU64) -> bool {
    disjoint(m, places(m, a), places(m, b))
}

/// An inode stands under its own number and has a sound content.
pub open spec fn node_ok(m: Image, n: u64) -> bool {
    &&& node_of(m, n).inumber == n
    &&& node_of(m, n).extra_metadata.len() == 32
    &&& sound_content(m, ext(m, n))
}

/// All bitmaps and inodes can be read; every taken inode has a sound content that shares no
/// block with the content of another inode. The same holds of the contents at the addresses
/// `loose`, which belong to no inode.
pub open spec fn sound(m: Image, loose: Seq<MaybeU64>) -> bool {
    &&& m.format.usable()
    &&& mapped(m)
    &&& inodes_mapped(m)
    &&& forall|n: u64| is_inode(m, n) ==> (#[trigger] m.inode(n)) is Ok
    &&& forall|n: u64| #[trigger] live(m, n) ==> node_ok(m, n)
    &&& forall|n: u64, k: u64|
        #[trigger] live(m, n) && #[trigger] live(m, k) && n != k ==> parts_apart(
            m,
            ext(m, n),
            ext(m, k),
        )
    &&& forall|j: int| 0 <= j < loose.len() ==> sound_content(m, #[trigger] loose[j])
    &&& forall|n: u64, j: int|
        #[trigger] live(m, n) && 0 <= j < loose.len() ==> parts_apart(
            m,
            ext(m, n),
            #[trigger] loose[j],
        )
    &&& forall|i: int, j: int|
        0 <= i < loose.len() && 0 <= j < loose.len() && i != j ==> parts_apart(
            m,
            #[trigger] loose[i],
            #[trigger] loose[j],
        )
}

/// The content at `addr` is sound and the same on both disks.
pub open spec fn same_content(a: Image, b: Image, addr: MaybeU64) -> bool {
    &&& sound_content(b, addr)
    &&& b.content(addr) == a.content(addr)
    &&& places(b, addr) == places(a, addr)
    &&& extents(b, addr, b.disk.len()) == extents(a, addr, a.disk.len())
}

/// All inodes are the same on both disks.
pub open spec fn same_nodes(a: Image, b: Image) -> bool {
    forall|n: u64| is_inode(a, n) ==> #[trigger] b.inode(n) == a.inode(n)
}

pub proof fn lemma_disjoint_same(a: Image, b: Image, s: Seq<(int, int)>, t: Seq<(int, int)>)
    requires
        a.format == b.format,
    ensures
        disjoint(a, s, t) == disjoint(b, s, t),
        disjoint(a, s, t) == disjoint(a, t, s),
{
    lemma_same_format(a, b);
    lemma_same_format(b, a);
    if disjoint(a, s, t) {
        assert forall|g: int, c: int|
            is_block(b, g, c) && #[trigger] uses(b, s, g, c) implies !uses(b, t, g, c) by {
            assert(uses(a, s, g, c));
            assert(is_block(a, g, c));
        }
        assert forall|g: int, c: int|
            is_block(a, g, c) && #[trigger] uses(a, t, g, c) implies !uses(a, s, g, c) by {}
    }
    if disjoint(b, s, t) {
        assert forall|g: int, c: int|
            is_block(a, g, c) && #[trigger] uses(a, s, g, c) implies !uses(a, t, g, c) by {
            assert(uses(b, s, g, c));
            assert(is_block(b, g, c));
        }
    }
    if disjoint(a, t, s) {
        assert forall|g: int, c: int|
            is_block(a, g, c) && #[trigger] uses(a, s, g, c) implies !uses(a, t, g, c) by {}
    }
}

/// A content whose bytes and marks are unchanged is unchanged.
pub proof fn lemma_content_kept(a: Image, b: Image, addr: MaybeU64)
    requires
        a.format.usable(),
        a.format == b.format,
        a.cipher == b.cipher,
        a.disk.len() == b.disk.len(),
        sound_content(a, addr),
        agree_on(a, b, places(a, addr)),
        forall|g: int, c: int|
            is_block(a, g, c) && #[trigger] uses(a, places(a, addr), g, c) ==> taken(b, g, c),
    ensures
        same_content(a, b, addr),
{
    reveal(Image::content);
    lemma_format(a);
    lemma_chain_frame(a, b, addr, a.disk.len());
    lemma_same_format(a, b);
    lemma_same_format(b, a);
    let s = places(a, addr);
    assert forall|k: int| 0 <= k < s.len() implies span_home(b, #[trigger] s[k]) by {
        assert(span_home(a, s[k]));
    }
    assert forall|g: int, c: int| is_block(b, g, c) && #[trigger] uses(b, s, g, c) implies taken(
        b,
        g,
        c,
    ) by {
        assert(uses(a, s, g, c));
        assert(is_block(a, g, c));
    }
}

/// What changes data blocks, marks or inodes leaves the header alone.
pub proof fn lemma_same_head(a: Image, b: Image)
    requires
        a.format.usable(),
        same_but_inodes(a, b) || same_but_marks(a, b) || same_meta(a, b),
    ensures
        head(b) == head(a),
{
    lemma_format(a);
    assert forall|i: int|
        0 <= i < a.disk.len() && i % a.format.stride() < HEADER_SIZE implies #[trigger] a.disk[i]
        == b.disk[i] by {}
    lemma_head(a, b);
}

/// Storing keeps every sound content and all inodes.
pub proof fn lemma_store_keeps(a: Image, b: Image)
    requires
        a.format.usable(),
        grows(a, b),
    ensures
        same_nodes(a, b),
        inodes_mapped(a) ==> inodes_mapped(b),
        forall|addr: MaybeU64| #[trigger] sound_content(a, addr) ==> same_content(a, b, addr),
{
    lemma_format(a);
    assert(same_inodes(a, b));
    assert forall|n: u64| is_inode(a, n) implies #[trigger] b.inode(n) == a.inode(n) by {
        lemma_inode_same(a, b, n);
    }
    assert forall|addr: MaybeU64| #[trigger] sound_content(a, addr) implies same_content(
        a,
        b,
        addr,
    ) by {
        let s = places(a, addr);
        assert forall|g: int, c: int| is_block(a, g, c) && #[trigger] uses(a, s, g, c) implies taken(
            b,
            g,
            c,
        ) by {
            assert(taken(a, g, c));
        }
        lemma_content_kept(a, b, addr);
    }
    if inodes_mapped(a) {
        assert forall|g: int| 0 <= g < b.format.group_count implies (#[trigger] b.inode_bits(
            g,
        )) is Ok && b.inode_bits(g)->Ok_0.len == b.format.param_inode_count_per_group by {
            lemma_inode_bits_same(a, b, g);
            assert(a.inode_bits(g) is Ok);
        }
    }
}

/// Changing inodes keeps every sound content and all marks.
pub proof fn lemma_inodes_keep(a: Image, b: Image)
    requires
        a.format.usable(),
        same_but_inodes(a, b),
    ensures
        mapped(a) ==> mapped(b),
        forall|g: int| 0 <= g < a.format.group_count ==> #[trigger] b.data_bits(g) == a.data_bits(g),
        forall|addr: MaybeU64| #[trigger] sound_content(a, addr) ==> same_content(a, b, addr),
{
    lemma_format(a);
    assert forall|g: int| 0 <= g < a.format.group_count implies #[trigger] b.data_bits(g)
        == a.data_bits(g) by {
        lemma_marks_same(a, b, g);
    }
    assert forall|addr: MaybeU64| #[trigger] sound_content(a, addr) implies same_content(
        a,
        b,
        addr,
    ) by {
        let s = places(a, addr);
        assert forall|k: int| 0 <= k < s.len() implies same_within(
            a,
            b,
            (#[trigger] s[k]).0,
            s[k].1,
        ) by {
            assert(span_home(a, s[k]));
            assert forall|i: int| 0 <= i < a.disk.len() && s[k].0 <= i < s[k].1 implies a.disk[i]
                == b.disk[i] by {
                lemma_byte_offset(a, s[k], i);
            }
        }
        assert forall|g: int, c: int| is_block(a, g, c) && #[trigger] uses(a, s, g, c) implies taken(
            b,
            g,
            c,
        ) by {
            assert(taken(a, g, c));
            assert(b.data_bits(g) == a.data_bits(g));
        }
        lemma_content_kept(a, b, addr);
    }
    if mapped(a) {
        assert forall|g: int| 0 <= g < b.format.group_count implies (#[trigger] b.data_bits(g)) is Ok
            && b.data_bits(g)->Ok_0.len == b.format.param_data_block_count_per_group by {
            assert(a.data_bits(g) is Ok);
            assert(b.data_bits(g) == a.data_bits(g));
        }
    }
}

/// What holds of a volume is carried over to another disk with the same inodes and contents.
pub proof fn lemma_sound_carries(a: Image, b: Image, loose: Seq<MaybeU64>)
    requires
        sound(a, loose),
        a.format == b.format,
        mapped(b),
        inodes_mapped(b),
        same_nodes(a, b),
        forall|n: u64| #[trigger] live(a, n) ==> same_content(a, b, ext(a, n)),
        forall|j: int| 0 <= j < loose.len() ==> same_content(a, b, #[trigger] loose[j]),
    ensures
        sound(b, loose),
        forall|n: u64| #[trigger] live(b, n) == live(a, n),
{
    assert forall|n: u64| #[trigger] live(b, n) == live(a, n) by {
        assert(is_inode(a, n) == is_inode(b, n));
        if is_inode(a, n) {
            assert(b.inode(n) == a.inode(n));
        }
    }
    assert forall|n: u64| is_inode(b, n) implies (#[trigger] b.inode(n)) is Ok by {
        assert(is_inode(a, n));
        assert(b.inode(n) == a.inode(n));
    }
    assert forall|n: u64| #[trigger] live(b, n) implies node_ok(b, n) by {
        assert(live(a, n));
        assert(b.inode(n) == a.inode(n));
        assert(same_content(a, b, ext(a, n)));
    }
    assert forall|n: u64, k: u64|
        #[trigger] live(b, n) && #[trigger] live(b, k) && n != k implies parts_apart(
        b,
        ext(b, n),
        ext(b, k),
    ) by {
        assert(live(a, n) && live(a, k));
        assert(b.inode(n) == a.inode(n));
        assert(b.inode(k) == a.inode(k));
        assert(same_content(a, b, ext(a, n)));
        assert(same_content(a, b, ext(a, k)));
        lemma_disjoint_same(a, b, places(a, ext(a, n)), places(a, ext(a, k)));
    }
    assert forall|n: u64, j: int| #[trigger] live(b, n) && 0 <= j < loose.len() implies parts_apart(
        b,
        ext(b, n),
        #[trigger] loose[j],
    ) by {
        assert(live(a, n));
        assert(b.inode(n) == a.inode(n));
        assert(same_content(a, b, ext(a, n)));
        assert(same_content(a, b, loose[j]));
        lemma_disjoint_same(a, b, places(a, ext(a, n)), places(a, loose[j]));
    }
    assert forall|i: int, j: int|
        0 <= i < loose.len() && 0 <= j < loose.len() && i != j implies parts_apart(
        b,
        #[trigger] loose[i],
        #[trigger] loose[j],
    ) by {
        assert(same_content(a, b, loose[i]));
        assert(same_content(a, b, loose[j]));
        lemma_disjoint_same(a, b, places(a, loose[i]), places(a, loose[j]));
    }
}

/// Storing data on a sound volume leaves it sound, with one more content that belongs to no
/// inode yet.
pub proof fn lemma_sound_store(m: Image, loose: Seq<MaybeU64>, data: Seq<u8>)
    requires
        sound(m, loose),
        m.store(data).1 is Ok,
    ensures
        ({
            let m2 = m.store(data).0;
            let a = m.store(data).1->Ok_0;
            &&& sound(m2, loose.push(a))
            &&& m2.content(a) == Ok::<_, XHFSError>(data)
            &&& data.len() <= usize::MAX
            &&& same_nodes(m, m2)
            &&& m2.format == m.format
            &&& m2.disk.len() == m.disk.len()
            &&& head(m2) == head(m)
            &&& forall|addr: MaybeU64|
                #[trigger] sound_content(m, addr) ==> same_content(m, m2, addr)
        }),
{
    stored_data_reads_back(m, data);
    let m2 = m.store(data).0;
    let a = m.store(data).1->Ok_0;
    lemma_same_head(m, m2);
    lemma_store_keeps(m, m2);
    assert forall|n: u64| #[trigger] live(m, n) implies same_content(m, m2, ext(m, n)) by {
        assert(node_ok(m, n));
    }
    lemma_sound_carries(m, m2, loose);
    let all = loose.push(a);
    lemma_same_format(m, m2);
    assert forall|addr: MaybeU64| sound_content(m, addr) implies #[trigger] parts_apart(
        m2,
        addr,
        a,
    ) && parts_apart(m2, a, addr) by {
        assert(same_content(m, m2, addr));
        let s = places(m, addr);
        let t = places(m2, a);
        assert forall|g: int, c: int| is_block(m2, g, c) && #[trigger] uses(m2, s, g, c) implies !uses(
            m2,
            t,
            g,
            c,
        ) by {
            assert(uses(m, s, g, c));
            assert(is_block(m, g, c));
            assert(taken(m, g, c));
            assert(uses(m, t, g, c) == uses(m2, t, g, c));
        }
        lemma_disjoint_same(m2, m2, s, t);
    }
    assert forall|j: int| 0 <= j < all.len() implies sound_content(m2, #[trigger] all[j]) by {
        if j < loose.len() {
            assert(sound_content(m, loose[j]));
        }
    }
    assert forall|n: u64, j: int| #[trigger] live(m2, n) && 0 <= j < all.len() implies parts_apart(
        m2,
        ext(m2, n),
        #[trigger] all[j],
    ) by {
        assert(live(m, n));
        assert(m2.inode(n) == m.inode(n));
        if j < loose.len() {
            assert(parts_apart(m2, ext(m2, n), loose[j]));
        } else {
            assert(node_ok(m, n));
            assert(parts_apart(m2, ext(m, n), a));
        }
    }
    assert forall|i: int, j: int|
        0 <= i < all.len() && 0 <= j < all.len() && i != j implies parts_apart(
        m2,
        #[trigger] all[i],
        #[trigger] all[j],
    ) by {
        if i < loose.len() && j < loose.len() {
            assert(parts_apart(m2, loose[i], loose[j]));
        } else if i < loose.len() {
            assert(sound_content(m, loose[i]));
            assert(parts_apart(m2, loose[i], a));
        } else {
            assert(sound_content(m, loose[j]));
            assert(parts_apart(m2, loose[j], a));
        }
    }
}

/// Letting an inode point to a loose content leaves the volume sound; the inode's old content
/// is loose then.
pub proof fn lemma_sound_point(m: Image, loose: Seq<MaybeU64>, j: int, node: Node)
    requires
        sound(m, loose),
        0 <= j < loose.len(),
        live(m, node.inumber),
        node.extra_metadata.len() == 32,
        node.extent_addr == loose[j],
        m.register(node, true).1 is Ok,
    ensures
        ({
            let m2 = m.register(node, true).0;
            &&& sound(m2, loose.update(j, ext(m, node.inumber)))
            &&& m2.inode(node.inumber) == Ok::<_, XHFSError>(Some(node))
            &&& forall|n: u64|
                is_inode(m, n) && n != node.inumber ==> #[trigger] m2.inode(n) == m.inode(n)
            &&& m2.format == m.format
            &&& m2.disk.len() == m.disk.len()
            &&& head(m2) == head(m)
            &&& forall|addr: MaybeU64|
                #[trigger] sound_content(m, addr) ==> same_content(m, m2, addr)
        }),
{
    let id = node.inumber;
    registered_inode_reads_back(m, node, true);
    let m2 = m.register(node, true).0;
    lemma_same_head(m, m2);
    lemma_inodes_keep(m, m2);
    let new = loose.update(j, ext(m, id));
    assert forall|n: u64| #[trigger] live(m2, n) == live(m, n) by {
        assert(is_inode(m, n) == is_inode(m2, n));
        if is_inode(m, n) && n != id {
            assert(m2.inode(n) == m.inode(n));
        }
    }
    // every content of the new family was a content of the old one
    assert forall|n: u64| #[trigger] live(m2, n) implies sound_content(m, ext(m2, n)) && (if n
        == id {
        ext(m2, n) == loose[j]
    } else {
        ext(m2, n) == ext(m, n)
    }) by {
        assert(live(m, n));
        assert(node_ok(m, n));
        if n != id {
            assert(m2.inode(n) == m.inode(n));
        } else {
            assert(sound_content(m, loose[j]));
        }
    }
    assert(node_ok(m, id));
    assert forall|k: int| 0 <= k < new.len() implies sound_content(m, #[trigger] new[k]) by {
        if k != j {
            assert(sound_content(m, loose[k]));
        }
    }
    assert forall|n: u64| is_inode(m2, n) implies (#[trigger] m2.inode(n)) is Ok by {
        assert(is_inode(m, n));
        if n != id {
            assert(m2.inode(n) == m.inode(n));
        }
    }
    assert forall|n: u64| #[trigger] live(m2, n) implies node_ok(m2, n) by {
        assert(live(m, n));
        assert(node_ok(m, n));
        assert(same_content(m, m2, ext(m2, n)));
        if n != id {
            assert(m2.inode(n) == m.inode(n));
        }
    }
    assert forall|n: u64, k: u64|
        #[trigger] live(m2, n) && #[trigger] live(m2, k) && n != k implies parts_apart(
        m2,
        ext(m2, n),
        ext(m2, k),
    ) by {
        assert(live(m, n) && live(m, k));
        assert(same_content(m, m2, ext(m2, n)));
        assert(same_content(m, m2, ext(m2, k)));
        let s = places(m, ext(m2, n));
        let t = places(m, ext(m2, k));
        assert(disjoint(m, s, t)) by {
            if n == id {
                assert(parts_apart(m, ext(m, k), loose[j]));
                lemma_disjoint_same(m, m, t, s);
            } else if k == id {
                assert(parts_apart(m, ext(m, n), loose[j]));
            } else {
                assert(parts_apart(m, ext(m, n), ext(m, k)));
            }
        }
        lemma_disjoint_same(m, m2, s, t);
    }
    assert forall|k: int| 0 <= k < new.len() implies sound_content(m2, #[trigger] new[k]) by {
        assert(sound_content(m, new[k]));
    }
    assert forall|n: u64, k: int| #[trigger] live(m2, n) && 0 <= k < new.len() implies parts_apart(
        m2,
        ext(m2, n),
        #[trigger] new[k],
    ) by {
        assert(live(m, n));
        assert(same_content(m, m2, ext(m2, n)));
        assert(sound_content(m, new[k]));
        let s = places(m, ext(m2, n));
        let t = places(m, new[k]);
        assert(disjoint(m, s, t)) by {
            if n == id && k == j {
                assert(parts_apart(m, ext(m, id), loose[j]));
                lemma_disjoint_same(m, m, t, s);
            } else if n == id {
                assert(parts_apart(m, loose[j], loose[k]));
            } else if k == j {
                assert(parts_apart(m, ext(m, n), ext(m, id)));
            } else {
                assert(parts_apart(m, ext(m, n), loose[k]));
            }
        }
        lemma_disjoint_same(m, m2, s, t);
    }
    assert forall|i: int, k: int|
        0 <= i < new.len() && 0 <= k < new.len() && i != k implies parts_apart(
        m2,
        #[trigger] new[i],
        #[trigger] new[k],
    ) by {
        assert(sound_content(m, new[i]));
        assert(sound_content(m, new[k]));
        let s = places(m, new[i]);
        let t = places(m, new[k]);
        assert(disjoint(m, s, t)) by {
            if i == j {
                assert(parts_apart(m, ext(m, id), loose[k]));
            } else if k == j {
                assert(parts_apart(m, ext(m, id), loose[i]));
                lemma_disjoint_same(m, m, t, s);
            } else {
                assert(parts_apart(m, loose[i], loose[k]));
            }
        }
        lemma_disjoint_same(m, m2, s, t);
    }
}

/// Changing an inode but for its content leaves the volume sound.
pub proof fn lemma_sound_note(m: Image, loose: Seq<MaybeU64>, node: Node)
    requires
        sound(m, loose),
        live(m, node.inumber),
        node.extra_metadata.len() == 32,
        node.extent_addr == ext(m, node.inumber),
        m.register(node, true).1 is Ok,
    ensures
        ({
            let m2 = m.register(node, true).0;
            &&& sound(m2, loose)
            &&& m2.inode(node.inumber) == Ok::<_, XHFSError>(Some(node))
            &&& forall|n: u64|
                is_inode(m, n) && n != node.inumber ==> #[trigger] m2.inode(n) == m.inode(n)
            &&& m2.format == m.format
            &&& m2.disk.len() == m.disk.len()
            &&& head(m2) == head(m)
            &&& forall|addr: MaybeU64|
                #[trigger] sound_content(m, addr) ==> same_content(m, m2, addr)
        }),
{
    let id = node.inumber;
    registered_inode_reads_back(m, node, true);
    let m2 = m.register(node, true).0;
    lemma_same_head(m, m2);
    lemma_inodes_keep(m, m2);
    lemma_sound_renoted(m, m2, loose, id);
}

/// A volume on which one inode changed, but not its content, is sound as before.
proof fn lemma_sound_renoted(m: Image, m2: Image, loose: Seq<MaybeU64>, id: u64)
    requires
        sound(m, loose),
        m2.format == m.format,
        mapped(m2),
        inodes_mapped(m2),
        live(m, id),
        m2.inode(id) is Ok,
        m2.inode(id)->Ok_0 is Some,
        node_of(m2, id).inumber == id,
        node_of(m2, id).extra_metadata.len() == 32,
        ext(m2, id) == ext(m, id),
        forall|n: u64| is_inode(m, n) && n != id ==> #[trigger] m2.inode(n) == m.inode(n),
        forall|addr: MaybeU64| #[trigger] sound_content(m, addr) ==> same_content(m, m2, addr),
    ensures
        sound(m2, loose),
{
    assert forall|n: u64| #[trigger] live(m2, n) == live(m, n) by {
        assert(is_inode(m, n) == is_inode(m2, n));
        if is_inode(m, n) && n != id {
            assert(m2.inode(n) == m.inode(n));
        }
    }
    assert forall|n: u64| is_inode(m2, n) implies (#[trigger] m2.inode(n)) is Ok by {
        assert(is_inode(m, n));
        if n != id {
            assert(m2.inode(n) == m.inode(n));
        }
    }
    assert forall|n: u64| #[trigger] live(m2, n) implies node_ok(m2, n) && ext(m2, n) == ext(
        m,
        n,
    ) && same_content(m, m2, ext(m, n)) by {
        assert(live(m, n));
        assert(node_ok(m, n));
        assert(sound_content(m, ext(m, n)));
        if n != id {
            assert(m2.inode(n) == m.inode(n));
        }
    }
    assert forall|j: int| 0 <= j < loose.len() implies same_content(m, m2, #[trigger] loose[j]) by {
        assert(sound_content(m, loose[j]));
    }
    assert forall|n: u64, k: u64|
        #[trigger] live(m2, n) && #[trigger] live(m2, k) && n != k implies parts_apart(
        m2,
        ext(m2, n),
        ext(m2, k),
    ) by {
        assert(live(m, n) && live(m, k));
        assert(parts_apart(m, ext(m, n), ext(m, k)));
        lemma_disjoint_same(m, m2, places(m, ext(m, n)), places(m, ext(m, k)));
    }
    assert forall|n: u64, j: int| #[trigger] live(m2, n) && 0 <= j < loose.len() implies parts_apart(
        m2,
        ext(m2, n),
        #[trigger] loose[j],
    ) by {
        assert(live(m, n));
        assert(parts_apart(m, ext(m, n), loose[j]));
        assert(same_content(m, m2, loose[j]));
        lemma_disjoint_same(m, m2, places(m, ext(m, n)), places(m, loose[j]));
    }
    assert forall|i: int, j: int|
        0 <= i < loose.len() && 0 <= j < loose.len() && i != j implies parts_apart(
        m2,
        #[trigger] loose[i],
        #[trigger] loose[j],
    ) by {
        assert(parts_apart(m, loose[i], loose[j]));
        assert(same_content(m, m2, loose[i]));
        assert(same_content(m, m2, loose[j]));
        lemma_disjoint_same(m, m2, places(m, loose[i]), places(m, loose[j]));
    }
}

/// Freeing a content keeps every content that shares no block with it.
pub proof fn lemma_free_keeps(m: Image, x: MaybeU64)
    requires
        m.format.usable(),
        mapped(m),
        sound_content(m, x),
    ensures
        ({
            let (m2, r) = m.free(x);
            &&& r is Ok
            &&& m2.format == m.format
            &&& m2.cipher == m.cipher
            &&& m2.disk.len() == m.disk.len()
            &&& head(m2) == head(m)
            &&& mapped(m2)
            &&& same_nodes(m, m2)
            &&& inodes_mapped(m) ==> inodes_mapped(m2)
            &&& same_inodes(m, m2)
            &&& forall|addr: MaybeU64|
                #[trigger] sound_content(m, addr) && parts_apart(m, addr, x) ==> same_content(
                    m,
                    m2,
                    addr,
                )
        }),
{
    freed_blocks_are_free(m, x);
    let m2 = m.free(x).0;
    lemma_same_head(m, m2);
    lemma_format(m);
    assert(same_inodes(m, m2));
    assert forall|n: u64| is_inode(m, n) implies #[trigger] m2.inode(n) == m.inode(n) by {
        lemma_inode_same(m, m2, n);
    }
    if inodes_mapped(m) {
        assert forall|g: int| 0 <= g < m2.format.group_count implies (#[trigger] m2.inode_bits(
            g,
        )) is Ok && m2.inode_bits(g)->Ok_0.len == m2.format.param_inode_count_per_group by {
            lemma_inode_bits_same(m, m2, g);
            assert(m.inode_bits(g) is Ok);
        }
    }
    assert forall|addr: MaybeU64|
        #[trigger] sound_content(m, addr) && parts_apart(m, addr, x) implies same_content(
        m,
        m2,
        addr,
    ) by {
        let s = places(m, addr);
        assert forall|k: int| 0 <= k < s.len() implies same_within(
            m,
            m2,
            (#[trigger] s[k]).0,
            s[k].1,
        ) by {
            assert(span_home(m, s[k]));
            lemma_marks_leave_data(m, m2, s[k]);
        }
        assert forall|g: int, c: int| is_block(m, g, c) && #[trigger] uses(m, s, g, c) implies taken(
            m2,
            g,
            c,
        ) by {
            assert(taken(m, g, c));
            assert(!uses(m, places(m, x), g, c));
        }
        lemma_content_kept(m, m2, addr);
    }
}

/// Freeing a loose content succeeds and leaves the volume sound without it.
pub proof fn lemma_sound_free(m: Image, loose: Seq<MaybeU64>, j: int)
    requires
        sound(m, loose),
        0 <= j < loose.len(),
    ensures
        ({
            let (m2, r) = m.free(loose[j]);
            &&& r is Ok
            &&& sound(m2, loose.remove(j))
            &&& same_nodes(m, m2)
            &&& m2.format == m.format
            &&& m2.disk.len() == m.disk.len()
            &&& head(m2) == head(m)
            &&& forall|addr: MaybeU64|
                #[trigger] sound_content(m, addr) && parts_apart(m, addr, loose[j])
                    ==> same_content(m, m2, addr)
        }),
{
    let x = loose[j];
    let rest = loose.remove(j);
    assert(sound_content(m, x));
    lemma_free_keeps(m, x);
    let m2 = m.free(x).0;
    assert forall|k: int| 0 <= k < rest.len() implies sound_content(m, #[trigger] rest[k])
        && parts_apart(m, rest[k], x) by {
        let i = if k < j {
            k
        } else {
            k + 1
        };
        assert(rest[k] == loose[i]);
        assert(sound_content(m, loose[i]));
        assert(parts_apart(m, loose[i], loose[j]));
    }
    assert(sound(m, rest)) by {
        assert forall|n: u64, k: int| #[trigger] live(m, n) && 0 <= k < rest.len() implies parts_apart(
            m,
            ext(m, n),
            #[trigger] rest[k],
        ) by {
            let i = if k < j {
                k
            } else {
                k + 1
            };
            assert(rest[k] == loose[i]);
            assert(parts_apart(m, ext(m, n), loose[i]));
        }
        assert forall|a: int, b: int|
            0 <= a < rest.len() && 0 <= b < rest.len() && a != b implies parts_apart(
            m,
            #[trigger] rest[a],
            #[trigger] rest[b],
        ) by {
            let i = if a < j {
                a
            } else {
                a + 1
            };
            let k = if b < j {
                b
            } else {
                b + 1
            };
            assert(rest[a] == loose[i]);
            assert(rest[b] == loose[k]);
            assert(parts_apart(m, loose[i], loose[k]));
        }
    }
    assert forall|n: u64| #[trigger] live(m, n) implies same_content(m, m2, ext(m, n)) by {
        assert(node_ok(m, n));
        assert(parts_apart(m, ext(m, n), loose[j]));
        assert(sound_content(m, ext(m, n)));
    }
    assert forall|k: int| 0 <= k < rest.len() implies same_content(m, m2, #[trigger] rest[k]) by {
        assert(sound_content(m, rest[k]));
    }
    lemma_sound_carries(m, m2, rest);
}

/// Giving a loose content to a new inode leaves the volume sound.
pub proof fn lemma_sound_new_inode(
    m: Image,
    loose: Seq<MaybeU64>,
    hint: u64,
    size: u64,
    addr: MaybeU64,
    kind: INodeKind,
    now: u64,
)
    requires
        sound(m, loose.push(addr)),
        is_inode(m, hint),
        m.new_inode(hint, size, addr, kind, now).1 is Ok,
    ensures
        ({
            let m2 = m.new_inode(hint, size, addr, kind, now).0;
            let node = m.new_inode(hint, size, addr, kind, now).1->Ok_0;
            &&& sound(m2, loose)
            &&& node.extent_addr == addr
            &&& node.kind == kind
            &&& node.total_file_size == size
            &&& node.nlink == 1
            &&& node.extra_metadata.len() == 32
            &&& is_inode(m, node.inumber)
            &&& !live(m, node.inumber)
            &&& m2.inode(node.inumber) == Ok::<_, XHFSError>(Some(node))
            &&& forall|n: u64|
                is_inode(m, n) && n != node.inumber ==> #[trigger] m2.inode(n) == m.inode(n)
            &&& m2.format == m.format
            &&& m2.disk.len() == m.disk.len()
            &&& head(m2) == head(m)
            &&& forall|a: MaybeU64| #[trigger] sound_content(m, a) ==> same_content(m, m2, a)
        }),
{
    let all = loose.push(addr);
    let last = loose.len() as int;
    new_inode_reads_back(m, hint, size, addr, kind, now);
    let m2 = m.new_inode(hint, size, addr, kind, now).0;
    let node = m.new_inode(hint, size, addr, kind, now).1->Ok_0;
    let id = node.inumber;
    lemma_same_head(m, m2);
    lemma_inodes_keep(m, m2);
    assert(all[last] == addr);
    assert(sound_content(m, all[last]));
    assert forall|n: u64| #[trigger] live(m2, n) == (live(m, n) || n == id) by {
        assert(is_inode(m, n) == is_inode(m2, n));
        if is_inode(m, n) && n != id {
            assert(m2.inode(n) == m.inode(n));
        }
    }
    assert forall|n: u64| is_inode(m2, n) implies (#[trigger] m2.inode(n)) is Ok by {
        assert(is_inode(m, n));
        if n != id {
            assert(m2.inode(n) == m.inode(n));
        }
    }
    assert forall|n: u64| #[trigger] live(m2, n) implies node_ok(m2, n) && sound_content(
        m,
        ext(m2, n),
    ) && (n != id ==> live(m, n) && ext(m2, n) == ext(m, n)) by {
        if n != id {
            assert(live(m, n));
            assert(node_ok(m, n));
            assert(m2.inode(n) == m.inode(n));
            assert(same_content(m, m2, ext(m, n)));
        } else {
            assert(same_content(m, m2, addr));
        }
    }
    assert forall|n: u64, k: u64|
        #[trigger] live(m2, n) && #[trigger] live(m2, k) && n != k implies parts_apart(
        m2,
        ext(m2, n),
        ext(m2, k),
    ) by {
        assert(same_content(m, m2, ext(m2, n)));
        assert(same_content(m, m2, ext(m2, k)));
        let s = places(m, ext(m2, n));
        let t = places(m, ext(m2, k));
        assert(disjoint(m, s, t)) by {
            if n == id {
                assert(live(m, k));
                assert(parts_apart(m, ext(m, k), all[last]));
                lemma_disjoint_same(m, m, t, s);
            } else if k == id {
                assert(live(m, n));
                assert(parts_apart(m, ext(m, n), all[last]));
            } else {
                assert(live(m, n) && live(m, k));
                assert(parts_apart(m, ext(m, n), ext(m, k)));
            }
        }
        lemma_disjoint_same(m, m2, s, t);
    }
    assert forall|j: int| 0 <= j < loose.len() implies sound_content(m2, #[trigger] loose[j])
        && same_content(m, m2, loose[j]) by {
        assert(all[j] == loose[j]);
        assert(sound_content(m, all[j]));
    }
    assert forall|n: u64, j: int| #[trigger] live(m2, n) && 0 <= j < loose.len() implies parts_apart(
        m2,
        ext(m2, n),
        #[trigger] loose[j],
    ) by {
        assert(all[j] == loose[j]);
        assert(same_content(m, m2, ext(m2, n)));
        assert(same_content(m, m2, loose[j]));
        let s = places(m, ext(m2, n));
        let t = places(m, loose[j]);
        assert(disjoint(m, s, t)) by {
            if n == id {
                assert(parts_apart(m, all[last], all[j]));
            } else {
                assert(live(m, n));
                assert(parts_apart(m, ext(m, n), all[j]));
            }
        }
        lemma_disjoint_same(m, m2, s, t);
    }
    assert forall|i: int, j: int|
        0 <= i < loose.len() && 0 <= j < loose.len() && i != j implies parts_apart(
        m2,
        #[trigger] loose[i],
        #[trigger] loose[j],
    ) by {
        assert(all[i] == loose[i]);
        assert(all[j] == loose[j]);
        assert(parts_apart(m, all[i], all[j]));
        assert(same_content(m, m2, loose[i]));
        assert(same_content(m, m2, loose[j]));
        lemma_disjoint_same(m, m2, places(m, loose[i]), places(m, loose[j]));
    }
}

/// Taking a link away from an inode leaves the volume sound. With its last link the inode
/// goes, and its blocks are free again; every other inode stays as it is.
pub proof fn lemma_sound_drop_link(m: Image, n: u64)
    requires
        sound(m, Seq::empty()),
        is_inode(m, n),
        m.drop_link(n).1 is Ok,
    ensures
        ({
            let m2 = m.drop_link(n).0;
            &&& sound(m2, Seq::empty())
            &&& m2.inode(n) == Ok::<_, XHFSError>(
                if live(m, n) && node_of(m, n).nlink > 1 {
                    Some(Node { nlink: (node_of(m, n).nlink - 1) as u64, ..node_of(m, n) })
                } else {
                    None::<Node>
                },
            )
            &&& forall|k: u64| is_inode(m, k) && k != n ==> #[trigger] m2.inode(k) == m.inode(k)
            &&& forall|k: u64|
                #[trigger] live(m, k) && (k != n || node_of(m, n).nlink > 1) ==> same_content(
                    m,
                    m2,
                    ext(m, k),
                )
            &&& m2.format == m.format
            &&& m2.disk.len() == m.disk.len()
            &&& head(m2) == head(m)
        }),
{
    reveal(Image::inode);
    lemma_inode_place(m, n);
    let g = m.inode_group(n);
    let i = m.inode_index(n);
    let m2 = m.drop_link(n).0;
    let none = Seq::<MaybeU64>::empty();
    assert(m.inode_bits(g) is Ok);
    let bits = m.inode_bits(g)->Ok_0;
    if !bits.get(i) {
        assert forall|k: u64| #[trigger] live(m, k) implies same_content(m, m2, ext(m, k)) by {
            assert(node_ok(m, k));
        }
    } else {
        assert(m.inode(n) is Ok);
        assert(live(m, n));
        assert(node_ok(m, n));
        let node = node_of(m, n);
        if node.nlink > 1 {
            let new = Node { nlink: (node.nlink - 1) as u64, ..node };
            lemma_sound_note(m, none, new);
            assert forall|k: u64| #[trigger] live(m, k) implies same_content(
                m,
                m2,
                ext(m, k),
            ) by {
                assert(node_ok(m, k));
                assert(sound_content(m, ext(m, k)));
            }
        } else {
            lemma_free_keeps(m, node.extent_addr);
            let m1 = m.free(node.extent_addr).0;
            lemma_inode_bits_same(m, m1, g);
            assert(is_inode(m1, n));
            lemma_clear_inode(m1, n);
            lemma_same_head(m1, m2);
            lemma_inodes_keep(m1, m2);
            assert forall|k: u64| is_inode(m, k) && k != n implies #[trigger] m2.inode(k)
                == m.inode(k) by {
                assert(is_inode(m1, k));
                assert(m1.inode(k) == m.inode(k));
            }
            assert forall|k: u64| #[trigger] live(m, k) && k != n implies same_content(
                m,
                m2,
                ext(m, k),
            ) by {
                assert(node_ok(m, k));
                assert(parts_apart(m, ext(m, k), ext(m, n)));
                assert(sound_content(m, ext(m, k)));
                assert(same_content(m, m1, ext(m, k)));
                assert(sound_content(m1, ext(m, k)));
                assert(same_content(m1, m2, ext(m, k)));
            }
            lemma_sound_without(m, m2, n);
        }
    }
}

/// A volume from which one inode is gone is sound as before.
proof fn lemma_sound_without(m: Image, m2: Image, id: u64)
    requires
        sound(m, Seq::empty()),
        m2.format == m.format,
        mapped(m2),
        inodes_mapped(m2),
        m2.inode(id) == Ok::<_, XHFSError>(None::<Node>),
        forall|n: u64| is_inode(m, n) && n != id ==> #[trigger] m2.inode(n) == m.inode(n),
        forall|n: u64| #[trigger] live(m, n) && n != id ==> same_content(m, m2, ext(m, n)),
    ensures
        sound(m2, Seq::empty()),
{
    assert forall|n: u64| #[trigger] live(m2, n) implies live(m, n) && n != id && ext(m2, n) == ext(
        m,
        n,
    ) by {
        assert(is_inode(m, n) == is_inode(m2, n));
        if n != id {
            assert(m2.inode(n) == m.inode(n));
        }
    }
    assert forall|n: u64| is_inode(m2, n) implies (#[trigger] m2.inode(n)) is Ok by {
        assert(is_inode(m, n));
        if n != id {
            assert(m2.inode(n) == m.inode(n));
        }
    }
    assert forall|n: u64| #[trigger] live(m2, n) implies node_ok(m2, n) by {
        assert(live(m, n));
        assert(node_ok(m, n));
        assert(m2.inode(n) == m.inode(n));
        assert(same_content(m, m2, ext(m, n)));
    }
    assert forall|n: u64, k: u64|
        #[trigger] live(m2, n) && #[trigger] live(m2, k) && n != k implies parts_apart(
        m2,
        ext(m2, n),
        ext(m2, k),
    ) by {
        assert(live(m, n) && live(m, k));
        assert(parts_apart(m, ext(m, n), ext(m, k)));
        assert(same_content(m, m2, ext(m, n)));
        assert(same_content(m, m2, ext(m, k)));
        lemma_disjoint_same(m, m2, places(m, ext(m, n)), places(m, ext(m, k)));
    }
}

/// Letting an inode point to a stored content and freeing its old content leaves the volume
/// sound. The inode has the new content, and every other inode and its content are as before.
pub proof fn lemma_sound_replace(m: Image, loose: Seq<MaybeU64>, node: Node, addr: MaybeU64, t: u64)
    requires
        sound(m, loose.push(addr)),
        live(m, node.inumber),
        node.extra_metadata.len() == 32,
        node.extent_addr == ext(m, node.inumber),
        m.replace_content(node, addr, t).1 is Ok,
    ensures
        ({
            let m2 = m.replace_content(node, addr, t).0;
            let new = Node { extent_addr: addr, mtime: t, ..node };
            &&& sound(m2, loose)
            &&& m2.inode(node.inumber) == Ok::<_, XHFSError>(Some(new))
            &&& same_content(m, m2, addr)
            &&& forall|n: u64|
                is_inode(m, n) && n != node.inumber ==> #[trigger] m2.inode(n) == m.inode(n)
            &&& forall|n: u64|
                #[trigger] live(m, n) && n != node.inumber ==> same_content(m, m2, ext(m, n))
            &&& forall|j: int| 0 <= j < loose.len() ==> same_content(m, m2, #[trigger] loose[j])
            &&& m2.format == m.format
            &&& m2.disk.len() == m.disk.len()
            &&& head(m2) == head(m)
        }),
{
    let id = node.inumber;
    let all = loose.push(addr);
    let last = loose.len() as int;
    let new = Node { extent_addr: addr, mtime: t, ..node };
    lemma_sound_point(m, all, last, new);
    let m1 = m.register(new, true).0;
    let l1 = all.update(last, ext(m, id));
    assert(l1[last] == node.extent_addr);
    lemma_sound_free(m1, l1, last);
    let m2 = m.replace_content(node, addr, t).0;
    assert(l1.remove(last) =~= loose);
    assert(is_inode(m1, id));
    assert forall|n: u64| is_inode(m, n) && n != id implies #[trigger] m2.inode(n) == m.inode(
        n,
    ) by {
        assert(is_inode(m1, n));
        assert(m1.inode(n) == m.inode(n));
    }
    assert(m2.inode(id) == m1.inode(id));
    assert(live(m1, id));
    assert(ext(m1, id) == addr);
    assert(parts_apart(m1, ext(m1, id), l1[last]));
    assert(all[last] == addr);
    assert(sound_content(m, all[last]));
    assert(same_content(m, m1, addr));
    assert(sound_content(m1, addr));
    assert forall|n: u64| #[trigger] live(m, n) && n != id implies same_content(
        m,
        m2,
        ext(m, n),
    ) by {
        assert(m1.inode(n) == m.inode(n));
        assert(live(m1, n));
        assert(node_ok(m, n));
        assert(sound_content(m, ext(m, n)));
        assert(same_content(m, m1, ext(m, n)));
        assert(sound_content(m1, ext(m, n)));
        assert(parts_apart(m1, ext(m1, n), l1[last]));
    }
    assert forall|j: int| 0 <= j < loose.len() implies same_content(m, m2, #[trigger] loose[j]) by {
        assert(all[j] == loose[j]);
        assert(l1[j] == loose[j]);
        assert(sound_content(m, all[j]));
        assert(same_content(m, m1, loose[j]));
        assert(parts_apart(m1, l1[j], l1[last]));
        assert(sound_content(m1, loose[j]));
    }
}

} // verus!
