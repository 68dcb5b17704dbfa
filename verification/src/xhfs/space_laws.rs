//! Blocks that are no longer needed are given back, and no others.
use crate::addr::{maybe, MaybeU64};
use crate::error::XHFSError;
use crate::utils::components;
use crate::xhfs::block_laws::{is_block, mapped, taken};
use crate::xhfs::chain_laws::{lemma_same_format, lemma_store_marks, places, sound_content, uses};
use crate::xhfs::ds::{INodeKind, Node};
use crate::xhfs::free_laws::freed_blocks_are_free;
use crate::xhfs::image::Image;
use crate::xhfs::inode_laws::{
    lemma_clear_inode, lemma_inode_bits_same, lemma_inode_place, live, node_of,
    registered_inode_reads_back,
};
use crate::xhfs::op_laws::{
    grounded, lemma_lookup_split, lemma_node_ok, lemma_position, lemma_walk_live,
};
use crate::xhfs::sound::{
    ext, lemma_free_keeps, lemma_inodes_keep, lemma_sound_drop_link, lemma_sound_store, node_ok,
    same_content, sound,
};
use crate::xhfs::tree::{entry_position, WriteOption};
use vstd::prelude::*;

verus! {

/// The blocks of the content at `addr` are given back, and no other block changes.
pub open spec fn given_back(m: Image, m2: Image, addr: MaybeU64) -> bool {
    forall|g: int, b: int|
        is_block(m, g, b) ==> #[trigger] taken(m2, g, b) == (taken(m, g, b) && !uses(
            m,
            places(m, addr),
            g,
            b,
        ))
}

/// An inode that points to new content gives the blocks of the former content back.
pub proof fn replaced_content_is_given_back(m: Image, node: Node, addr: MaybeU64, t: u64)
    requires
        m.format.usable(),
        sound(m, Seq::empty()),
        live(m, node.inumber),
        node.extra_metadata.len() == 32,
        node.extent_addr == ext(m, node.inumber),
        m.replace_content(node, addr, t).1 is Ok,
    ensures
        given_back(m, m.replace_content(node, addr, t).0, node.extent_addr),
        mapped(m.replace_content(node, addr, t).0),
{
    let new = Node { extent_addr: addr, mtime: t, ..node };
    let old = node.extent_addr;
    assert(node_ok(m, node.inumber));
    registered_inode_reads_back(m, new, true);
    let m1 = m.register(new, true).0;
    lemma_inodes_keep(m, m1);
    assert(same_content(m, m1, old));
    freed_blocks_are_free(m1, old);
    lemma_same_format(m, m1);
    let m2 = m.replace_content(node, addr, t).0;
    assert forall|g: int, b: int| is_block(m, g, b) implies #[trigger] taken(m2, g, b) == (taken(
        m,
        g,
        b,
    ) && !uses(m, places(m, old), g, b)) by {
        assert(is_block(m1, g, b));
        assert(m1.data_bits(g) == m.data_bits(g));
        assert(taken(m1, g, b) == taken(m, g, b));
        assert(uses(m1, places(m1, old), g, b) == uses(m, places(m, old), g, b));
    }
}

/// Writing over a file gives back all blocks that its former content had. No other block that was
/// taken is given back.
pub proof fn overwriting_gives_the_old_blocks_back(
    m: Image,
    path: Seq<char>,
    data: Seq<u8>,
    opt: WriteOption,
    now: u64,
    g: int,
    b: int,
)
    requires
        grounded(m),
        m.lookup(path) is Ok,
        m.blob_write(path, data, INodeKind::File, opt, now).1 is Ok,
        is_block(m, g, b),
    ensures
        ({
            let m2 = m.blob_write(path, data, INodeKind::File, opt, now).0;
            let old = m.lookup(path)->Ok_0.extent_addr;
            &&& uses(m, places(m, old), g, b) ==> taken(m, g, b) && !taken(m2, g, b)
            &&& !uses(m, places(m, old), g, b) && taken(m, g, b) ==> taken(m2, g, b)
        }),
{
    lemma_lookup_split(m, path);
    let parts = components(path);
    lemma_walk_live(m, parts, parts.len());
    let node = m.lookup(path)->Ok_0;
    let old = node.extent_addr;
    let (m1, r1) = m.store(data);
    lemma_node_ok(m, node.inumber);
    reveal(grounded);
    assert(node_ok(m, node.inumber));
    lemma_sound_store(m, Seq::empty(), data);
    lemma_store_marks(m, data);
    assert(sound_content(m, old));
    assert(same_content(m, m1, old));
    assert(m1.inode(node.inumber) == m.inode(node.inumber));
    assert(live(m1, node.inumber));
    assert(sound(m1, Seq::empty())) by {
        let all = Seq::<MaybeU64>::empty().push(r1->Ok_0);
        assert(sound(m1, all));
    }
    let sized = Node { total_file_size: data.len() as u64, ..node };
    let t = match opt.modified {
        Some(t) => t,
        None => now,
    };
    replaced_content_is_given_back(m1, sized, r1->Ok_0, t);
    lemma_same_format(m, m1);
    assert(is_block(m1, g, b));
    assert(uses(m1, places(m1, old), g, b) == uses(m, places(m, old), g, b));
}

/// Dropping the last link to an inode gives its blocks back; dropping another gives none back.
pub proof fn last_link_gives_the_blocks_back(m: Image, n: u64)
    requires
        sound(m, Seq::empty()),
        live(m, n),
        m.drop_link(n).1 is Ok,
    ensures
        node_of(m, n).nlink <= 1 ==> given_back(m, m.drop_link(n).0, ext(m, n)),
        node_of(m, n).nlink > 1 ==> forall|g: int, b: int|
            is_block(m, g, b) ==> #[trigger] taken(m.drop_link(n).0, g, b) == taken(m, g, b),
{
    reveal(Image::inode);
    let node = node_of(m, n);
    let old = ext(m, n);
    let m2 = m.drop_link(n).0;
    assert(node_ok(m, n));
    lemma_inode_place(m, n);
    if node.nlink > 1 {
        let less = Node { nlink: (node.nlink - 1) as u64, ..node };
        registered_inode_reads_back(m, less, true);
        lemma_inodes_keep(m, m2);
        assert forall|g: int, b: int| is_block(m, g, b) implies #[trigger] taken(m2, g, b) == taken(
            m,
            g,
            b,
        ) by {
            assert(m2.data_bits(g) == m.data_bits(g));
        }
    } else {
        freed_blocks_are_free(m, old);
        lemma_free_keeps(m, old);
        let m1 = m.free(old).0;
        assert(m1.inode(n) == m.inode(n));
        lemma_clear_inode(m1, n);
        assert(m1.inode_bits(m.inode_group(n)) == m.inode_bits(m.inode_group(n))) by {
            lemma_inode_bits_same(m, m1, m.inode_group(n));
        }
        lemma_inodes_keep(m1, m2);
        assert forall|g: int, b: int| is_block(m, g, b) implies #[trigger] taken(m2, g, b) == (
        taken(m, g, b) && !uses(m, places(m, old), g, b)) by {
            assert(is_block(m1, g, b));
            assert(m2.data_bits(g) == m1.data_bits(g));
            assert(taken(m2, g, b) == taken(m1, g, b));
        }
    }
}

/// Removing a file or symbolic link with one link that is the only entry of its directory gives all
/// blocks of its content back, and takes none.
pub proof fn removing_gives_the_blocks_back(
    m: Image,
    path: Seq<char>,
    now: u64,
    g: int,
    b: int,
)
    requires
        grounded(m),
        m.parent(path) is Ok,
        m.lookup(path) is Ok,
        m.lookup(path)->Ok_0.kind is File || m.lookup(path)->Ok_0.kind is Symlink,
        m.lookup(path)->Ok_0.nlink <= 1,
        m.dir(m.parent(path)->Ok_0.0.extent_addr)->Ok_0.len() == 1,
        m.unlink(path, now).1 is Ok,
        is_block(m, g, b),
    ensures
        ({
            let m2 = m.unlink(path, now).0;
            let old = m.lookup(path)->Ok_0.extent_addr;
            &&& uses(m, places(m, old), g, b) ==> taken(m, g, b) && !taken(m2, g, b)
            &&& !taken(m, g, b) ==> !taken(m2, g, b)
        }),
{
    lemma_lookup_split(m, path);
    let parts = components(path);
    lemma_walk_live(m, parts, parts.len());
    lemma_walk_live(m, parts, (parts.len() - 1) as nat);
    let node = m.lookup(path)->Ok_0;
    let n = node.inumber;
    let (parent, name) = m.parent(path)->Ok_0;
    let e = m.dir(parent.extent_addr)->Ok_0;
    lemma_position(e, name);
    let i = entry_position(e, name)->0;
    assert(e.remove(i).len() == 0);
    lemma_node_ok(m, n);
    reveal(grounded);
    assert(node_ok(m, n));
    assert(m.link_chain(seq![n], n, m.disk.len()) == Ok::<_, XHFSError>(seq![n]));
    reveal_with_fuel(Image::drop_links, 2);
    assert(seq![n].drop_last() =~= Seq::<u64>::empty());
    let m1 = m.drop_link(n).0;
    lemma_sound_drop_link(m, n);
    last_link_gives_the_blocks_back(m, n);
    assert(parent.inumber != n);
    assert(m1.inode(parent.inumber) == m.inode(parent.inumber));
    assert(live(m1, parent.inumber));
    assert(node_ok(m, parent.inumber));
    replaced_content_is_given_back(m1, parent, maybe(0), now);
    assert(is_block(m1, g, b));
}

} // verus!
