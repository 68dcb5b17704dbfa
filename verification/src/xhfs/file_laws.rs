//! Appending to files and linking to them, seen through paths.
use crate::addr::MaybeU64;
use crate::codec::{le64, lemma_le64};
use crate::error::XHFSError;
use crate::utils::components;
use crate::xhfs::block_laws::{is_block, taken};
use crate::xhfs::chain_laws::{owned, places, sound_content, uses};
use crate::xhfs::ds::{hardlink_round_trip, Hardlink, INodeKind, Node};
use crate::xhfs::free_laws::{appended_data_follows, disjoint};
use crate::xhfs::image::Image;
use crate::xhfs::inode_laws::{
    is_inode, lemma_inode_bits_same, lemma_inode_same, live, node_of, same_inodes,
};
use crate::xhfs::laws::{same_volume, same_within};
use crate::xhfs::op_laws::{
    extends, good_entries, grounded, lemma_grounded, lemma_node_ok, lemma_walk_extends,
    lemma_walk_live, lemma_written,
};
use crate::xhfs::sound::{
    ext, lemma_content_kept, lemma_disjoint_same, lemma_same_head, lemma_sound_note, lemma_sound_point,
    lemma_sound_store, node_ok, parts_apart, same_content, same_nodes, sound,
};
use crate::xhfs::tree::WriteOption;
use crate::xhfs::volume::lemma_format;
use vstd::prelude::*;

verus! {

/// A volume stays sound when a loose content is forgotten.
proof fn lemma_sound_less(m: Image, addr: MaybeU64)
    requires
        sound(m, seq![addr]),
    ensures
        sound(m, Seq::empty()),
{
}

/// Appending to the content of an inode that has one leaves the volume sound.
pub proof fn lemma_sound_grown(m: Image, id: u64, data: Seq<u8>)
    requires
        sound(m, Seq::empty()),
        live(m, id),
        ext(m, id).raw != 0,
        m.append(ext(m, id), data).1 is Ok,
    ensures
        ({
            let m2 = m.append(ext(m, id), data).0;
            &&& m.append(ext(m, id), data).1 == Ok::<_, XHFSError>(ext(m, id))
            &&& sound(m2, Seq::empty())
            &&& same_nodes(m, m2)
            &&& m2.format == m.format
            &&& same_volume(m, m2)
            &&& m2.content(ext(m, id)) == Ok::<_, XHFSError>(m.content(ext(m, id))->Ok_0 + data)
            &&& forall|n: u64|
                #[trigger] live(m, n) && n != id ==> same_content(m, m2, ext(m, n))
        }),
{
    let addr = ext(m, id);
    assert(node_ok(m, id));
    appended_data_follows(m, addr, data);
    let m2 = m.append(addr, data).0;
    lemma_same_head(m, m2);
    let old = places(m, addr);
    let new = places(m2, addr);
    lemma_format(m);
    assert(same_inodes(m, m2));
    assert forall|n: u64| is_inode(m, n) implies #[trigger] m2.inode(n) == m.inode(n) by {
        lemma_inode_same(m, m2, n);
    }
    assert forall|g: int| 0 <= g < m2.format.group_count implies (#[trigger] m2.inode_bits(g)) is Ok
        && m2.inode_bits(g)->Ok_0.len == m2.format.param_inode_count_per_group by {
        lemma_inode_bits_same(m, m2, g);
        assert(m.inode_bits(g) is Ok);
    }
    assert forall|n: u64| #[trigger] live(m, n) && n != id implies same_content(m, m2, ext(m, n))
        && disjoint(m, places(m, ext(m, n)), new) by {
        assert(node_ok(m, n));
        assert(parts_apart(m, ext(m, n), ext(m, id)));
        let s = places(m, ext(m, n));
        assert(owned(m, s));
        assert forall|k: int| 0 <= k < s.len() implies same_within(
            m,
            m2,
            (#[trigger] s[k]).0,
            s[k].1,
        ) by {}
        assert forall|g: int, c: int| is_block(m, g, c) && #[trigger] uses(m, s, g, c) implies taken(
            m2,
            g,
            c,
        ) by {
            assert(taken(m, g, c));
        }
        lemma_content_kept(m, m2, ext(m, n));
        assert forall|g: int, c: int|
            is_block(m, g, c) && #[trigger] uses(m, s, g, c) implies !uses(m, new, g, c) by {
            assert(taken(m, g, c));
            assert(!uses(m, old, g, c));
        }
    }
    assert forall|n: u64| #[trigger] live(m2, n) == live(m, n) by {
        assert(is_inode(m, n) == is_inode(m2, n));
        if is_inode(m, n) {
            assert(m2.inode(n) == m.inode(n));
        }
    }
    assert forall|n: u64| is_inode(m2, n) implies (#[trigger] m2.inode(n)) is Ok by {
        assert(is_inode(m, n));
        assert(m2.inode(n) == m.inode(n));
    }
    assert forall|n: u64| #[trigger] live(m2, n) implies node_ok(m2, n) by {
        assert(live(m, n));
        assert(node_ok(m, n));
        assert(m2.inode(n) == m.inode(n));
    }
    assert forall|n: u64, k: u64|
        #[trigger] live(m2, n) && #[trigger] live(m2, k) && n != k implies parts_apart(
        m2,
        ext(m2, n),
        ext(m2, k),
    ) by {
        assert(live(m, n) && live(m, k));
        assert(m2.inode(n) == m.inode(n));
        assert(m2.inode(k) == m.inode(k));
        if n == id {
            lemma_disjoint_same(m, m2, places(m, ext(m, k)), new);
            lemma_disjoint_same(m2, m2, places(m, ext(m, k)), new);
        } else if k == id {
            lemma_disjoint_same(m, m2, places(m, ext(m, n)), new);
        } else {
            assert(parts_apart(m, ext(m, n), ext(m, k)));
            lemma_disjoint_same(m, m2, places(m, ext(m, n)), places(m, ext(m, k)));
        }
    }
}

/// Appending to a file: it has the data after its old content, and every other inode and its
/// content are as before.
pub proof fn lemma_appended(m: Image, node: Node, data: Seq<u8>, t: u64, fuel: nat)
    requires
        grounded(m),
        live(m, node.inumber),
        node == node_of(m, node.inumber),
        node.kind is File,
        m.append_inode(node, data, t, fuel).1 is Ok,
    ensures
        ({
            let m2 = m.append_inode(node, data, t, fuel).0;
            let new = m.append_inode(node, data, t, fuel).1->Ok_0;
            let id = node.inumber;
            &&& grounded(m2)
            &&& extends(m, m2)
            &&& same_volume(m, m2)
            &&& live(m2, id)
            &&& node_of(m2, id) == new
            &&& new.kind is File
            &&& new.total_file_size == node.total_file_size + data.len()
            &&& new == (Node {
                total_file_size: (node.total_file_size + data.len()) as u64,
                extent_addr: new.extent_addr,
                mtime: t,
                ..node
            })
            &&& m2.content(new.extent_addr) == Ok::<_, XHFSError>(
                m.content(node.extent_addr)->Ok_0 + data,
            )
            &&& forall|n: u64|
                is_inode(m, n) && n != id ==> #[trigger] m2.inode(n) == m.inode(n)
            &&& forall|n: u64|
                #[trigger] live(m, n) && n != id ==> same_content(m, m2, ext(m, n))
        }),
{
    reveal(Image::append);
    reveal(Image::content);
    reveal(grounded);
    let id = node.inumber;
    let none = Seq::<MaybeU64>::empty();
    assert(node_ok(m, id));
    let (m1, r1) = m.append(node.extent_addr, data);
    let addr = r1->Ok_0;
    let new = Node {
        total_file_size: (node.total_file_size + data.len()) as u64,
        extent_addr: addr,
        mtime: t,
        ..node
    };
    let m2 = m.append_inode(node, data, t, fuel).0;
    if node.extent_addr.raw != 0 {
        lemma_sound_grown(m, id, data);
        assert(m1.inode(id) == m.inode(id));
        assert(live(m1, id));
        lemma_sound_note(m1, none, new);
        assert forall|n: u64| #[trigger] live(m, n) && n != id implies same_content(
            m,
            m2,
            ext(m, n),
        ) by {
            assert(same_content(m, m1, ext(m, n)));
            assert(sound_content(m1, ext(m, n)));
        }
        assert(node_ok(m1, id));
        assert(sound_content(m1, addr));
    } else {
        assert(m.last_extent(node.extent_addr, m.disk.len()) == Ok::<_, XHFSError>(
            node.extent_addr,
        ));
        assert(m.append(node.extent_addr, data) == m.store(data));
        lemma_sound_store(m, none, data);
        assert(m1.inode(id) == m.inode(id));
        assert(live(m1, id));
        assert(none.push(addr) =~= seq![addr]);
        lemma_sound_point(m1, seq![addr], 0, new);
        assert(seq![addr].update(0, ext(m1, id)) =~= seq![ext(m1, id)]);
        lemma_sound_less(m2, ext(m1, id));
        assert(m.content(node.extent_addr)->Ok_0 + data =~= data);
        assert(seq![addr][0] == addr);
        assert(sound_content(m1, addr));
        assert forall|n: u64| #[trigger] live(m, n) && n != id implies same_content(
            m,
            m2,
            ext(m, n),
        ) by {
            assert(node_ok(m, n));
            assert(sound_content(m, ext(m, n)));
            assert(same_content(m, m1, ext(m, n)));
            assert(sound_content(m1, ext(m, n)));
        }
    }
    assert forall|n: u64| is_inode(m, n) && n != id implies #[trigger] m2.inode(n) == m.inode(
        n,
    ) by {
        assert(is_inode(m1, n));
        assert(m1.inode(n) == m.inode(n));
    }
    lemma_grounded(m, m2, id, id);
}

/// Data that is appended to a file is read back after the old content.
pub proof fn appended_file_reads_back(m: Image, path: Seq<char>, data: Seq<u8>, t: u64)
    requires
        grounded(m),
        m.lookup(path) is Ok,
        m.lookup(path)->Ok_0.kind is File,
        m.fappend(path, data, t).1 is Ok,
    ensures
        m.fread(path) is Ok,
        m.fappend(path, data, t).0.fread(path) == Ok::<_, XHFSError>(m.fread(path)->Ok_0 + data),
        grounded(m.fappend(path, data, t).0),
        same_volume(m, m.fappend(path, data, t).0),
{
    let parts = components(path);
    let m2 = m.fappend(path, data, t).0;
    lemma_walk_live(m, parts, parts.len());
    let node = m.lookup(path)->Ok_0;
    lemma_appended(m, node, data, t, m.disk.len());
    lemma_walk_extends(m, m2, parts, parts.len());
}

/// A hard link that was made reads as the file it links to, and the file counts one more link.
pub proof fn hardlink_reads_as_its_target(
    m: Image,
    path: Seq<char>,
    target: Seq<char>,
    opt: WriteOption,
    now: u64,
)
    requires
        grounded(m),
        m.parent(path) is Ok ==> m.parent(path)->Ok_0.0.kind is Directory,
        m.lookup(path) is Err,
        m.hardlink(path, target, opt, now).1 is Ok,
    ensures
        ({
            let m2 = m.hardlink(path, target, opt, now).0;
            &&& grounded(m2)
            &&& same_volume(m, m2)
            &&& m2.fread(path) == m.fread(target)
            &&& m2.fread(target) == m.fread(target)
            &&& m2.lookup(target) is Ok
            &&& m2.lookup(target)->Ok_0.nlink == m.lookup(target)->Ok_0.nlink + 1
            &&& m2.lookup(target)->Ok_0 == (Node {
                nlink: (m.lookup(target)->Ok_0.nlink + 1) as u64,
                ..m.lookup(target)->Ok_0
            })
            &&& m2.lookup(path) is Ok
            &&& m2.lookup(path)->Ok_0.kind is Hardlink
            &&& m2.lookup(path)->Ok_0.total_file_size == 8
            &&& m2.lookup(path)->Ok_0.inumber != m.lookup(target)->Ok_0.inumber
            &&& m2.follow(m2.lookup(path)->Ok_0) == m2.lookup(target)
            &&& m2.content(m2.lookup(path)->Ok_0.extent_addr) == Ok::<_, XHFSError>(
                le64(m.lookup(target)->Ok_0.inumber),
            )
            &&& m.lookup(target)->Ok_0.kind is File
        }),
{
    lemma_le64(m.lookup(target)->Ok_0.inumber);
    let parts = components(target);
    let node = m.lookup(target)->Ok_0;
    let id = node.inumber;
    lemma_walk_live(m, parts, parts.len());
    let data = le64(id);
    let (m1, r1) = m.blob_write(path, data, INodeKind::Hardlink, opt, now);
    lemma_written(m, path, data, INodeKind::Hardlink, opt, now);
    let m2 = m.hardlink(path, target, opt, now).0;
    let link = m1.lookup(path)->Ok_0;
    assert(live(m, id));
    assert(id != link.inumber);
    assert(live(m1, id) && node_of(m1, id) == node);
    assert(same_content(m, m1, ext(m, id)));
    let counted = Node { nlink: (node.nlink + 1) as u64, ..node };
    lemma_counted(m1, node);
    lemma_walk_extends(m, m1, parts, parts.len());
    lemma_walk_live(m1, parts, parts.len());
    lemma_walk_extends(m1, m2, parts, parts.len());
    lemma_walk_extends(m1, m2, components(path), components(path).len());
    assert(live(m1, link.inumber));
    assert(m2.inode(link.inumber) == m1.inode(link.inumber));
    lemma_node_ok(m1, link.inumber);
    assert(same_content(m1, m2, link.extent_addr));
    assert(m2.lookup(path) == Ok::<_, XHFSError>(link));
    hardlink_round_trip(Hardlink { inumber: id });
    assert(m2.follow(link) == Ok::<_, XHFSError>(counted));
    lemma_node_ok(m1, id);
    assert(same_content(m1, m2, node.extent_addr));
}

/// Counting one more link changes the inode and nothing else.
pub proof fn lemma_counted(m: Image, node: Node)
    requires
        grounded(m),
        live(m, node.inumber),
        node == node_of(m, node.inumber),
        m.count_link(node).1 is Ok,
    ensures
        ({
            let m2 = m.count_link(node).0;
            let counted = Node { nlink: (node.nlink + 1) as u64, ..node };
            &&& node.nlink < u64::MAX
            &&& grounded(m2)
            &&& same_volume(m, m2)
            &&& extends(m, m2)
            &&& m2.inode(node.inumber) == Ok::<_, XHFSError>(Some(counted))
            &&& live(m2, node.inumber)
            &&& forall|n: u64|
                is_inode(m, n) && n != node.inumber ==> #[trigger] m2.inode(n) == m.inode(n)
            &&& forall|n: u64| #[trigger] live(m, n) ==> same_content(m, m2, ext(m, n))
        }),
{
    reveal(grounded);
    let id = node.inumber;
    let counted = Node { nlink: (node.nlink + 1) as u64, ..node };
    assert(node_ok(m, id));
    lemma_sound_note(m, Seq::empty(), counted);
    let m2 = m.count_link(node).0;
    assert forall|n: u64| #[trigger] live(m, n) implies same_content(m, m2, ext(m, n)) by {
        assert(node_ok(m, n));
        assert(sound_content(m, ext(m, n)));
    }
    assert(same_content(m, m2, ext(m, id)));
    if node.kind is Directory && m.dir(ext(m, id)) is Ok {
        assert(good_entries(m, m.dir(ext(m, id))->Ok_0));
    }
    lemma_grounded(m, m2, id, id);
}

} // verus!
