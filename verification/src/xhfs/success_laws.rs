//! Where there is room, what is asked for is done.
use crate::addr::{maybe, MaybeU64};
use crate::codec::{le64, lemma_le64};
use crate::error::XHFSError;
use crate::utils::{absolute, components, path_starts_with};
use crate::xhfs::bitmap::lemma_fill_bits;
use crate::xhfs::block_laws::{
    in_slots, is_block, lemma_bits_wf, lemma_first_fit, mapped, taken,
};
use crate::xhfs::blocks::first_of_size;
use crate::xhfs::chain_laws::{lemma_store_marks, stored_data_reads_back};
use crate::xhfs::dir_laws::lemma_without;
use crate::xhfs::ds::{dir_bytes, INodeKind, Node};
use crate::xhfs::extent::lemma_aligned;
use crate::xhfs::failure_laws::{lemma_register_succeeds, lemma_replace_content_succeeds};
use crate::xhfs::file_laws::lemma_sound_grown;
use crate::xhfs::free_laws::{freed_blocks_are_free, lemma_can_put_bits};
use crate::xhfs::image::{blocks_for, Image};
use crate::xhfs::inode_laws::{
    is_inode, lemma_clear_inode, lemma_inode_bits_same, lemma_inode_place, live,
    new_inode_reads_back, node_of, registered_inode_reads_back, same_but_inodes,
};
use crate::xhfs::mkdir_laws::{
    dir_size, entries_fit, lemma_dir_size, lemma_still_reaches,
};
use crate::xhfs::name_laws::plain_entry_is_removable;
use crate::xhfs::op_laws::{
    grounded, lemma_dir_len, lemma_good, lemma_lookup_split, lemma_node_ok, lemma_position,
    lemma_walk_live, lemma_written,
};
use crate::xhfs::room_laws::{
    blocks_reach, data_is_stored_where_blocks_are_free, free_blocks, free_place,
    inode_is_made_where_one_is_free, lemma_store_leaves_stretch, tables_reach,
};
use crate::xhfs::sound::{
    lemma_free_keeps, lemma_inodes_keep, lemma_sound_drop_link, lemma_sound_free,
    lemma_sound_new_inode, lemma_sound_point, lemma_sound_store, node_ok, sound,
};
use crate::xhfs::store::{blocks_needed, spread};
use crate::xhfs::store_laws::slot_spans;
use crate::xhfs::tree::{entry_position, last_entry, without, Entries, WriteOption};
use crate::xhfs::unlink_laws::{lemma_drop_links, lemma_sound_zero, removable_links, stack_ok};
use crate::xhfs::volume::lemma_format;
use vstd::prelude::*;
use vstd::utf8::*;

verus! {

/// Blocks that `len` bytes of data take.
pub open spec fn blocks_of(m: Image, len: nat) -> int {
    if len == 0 {
        0
    } else {
        blocks_for(16 + len as int, m.format.block_size_bytes as int)
    }
}

/// Data of `len` bytes fits into one extent, wherever blocks for it are free.
pub open spec fn data_fits(m: Image, len: nat) -> bool {
    len > 0 ==> 16 + len <= m.format.data_size() && blocks_reach(
        m,
        blocks_of(m, len),
        16 + len as int,
    )
}

/// Looking for no blocks at all never fails.
proof fn lemma_fit_nothing(m: Image, g: int)
    requires
        m.format.usable(),
        mapped(m),
        0 <= g,
    ensures
        m.first_fit(0, g) is Ok,
    decreases m.format.group_count - g,
{
    if g < m.format.group_count {
        assert(m.data_bits(g) is Ok);
        if first_of_size(m.free_runs(m.data_bits(g)->Ok_0), 0) is None {
            lemma_fit_nothing(m, g + 1);
        }
    }
}

/// No data can always be stored, and has no address.
pub proof fn nothing_can_always_be_stored(m: Image)
    requires
        m.format.usable(),
        mapped(m),
    ensures
        m.store(Seq::empty()).1 == Ok::<MaybeU64, XHFSError>(maybe(0)),
{
    reveal(Image::store);
    let none = Seq::<u8>::empty();
    let bs = m.format.block_size_bytes as int;
    lemma_fit_nothing(m, 0);
    assert(blocks_needed(0, m.format.data_size(), bs) == Ok::<int, XHFSError>(0));
    if m.first_fit(0, 0)->Ok_0 is Some {
        lemma_first_fit(m, 0, 0);
        let (h, bits, start) = m.first_fit(0, 0)->Ok_0->0;
        lemma_bits_wf(m, h);
        lemma_fill_bits(bits.raw, bits.len as int, 8 * bits.raw.len() as int, false);
        let t = bits.trimmed();
        lemma_fill_bits(t.raw, start as int, start as int + 0, true);
        lemma_can_put_bits(m, h, t.fill(start as int, start as int + 0, true));
    }
    let slots = m.allocate(0).1->Ok_0;
    assert(m.allocate(0).1 is Ok);
    assert(spread(slots, bs, none) == (Seq::<(int, Seq<u8>)>::empty(), none));
}

/// Data is stored where there is room.
proof fn lemma_can_store(m: Image, data: Seq<u8>, h: int, b: int)
    requires
        m.format.usable(),
        mapped(m),
        data_fits(m, data.len()),
        free_blocks(m, h, b, blocks_of(m, data.len())),
    ensures
        m.store(data).1 is Ok,
{
    if data.len() == 0 {
        assert(data =~= Seq::empty());
        nothing_can_always_be_stored(m);
    } else {
        data_is_stored_where_blocks_are_free(m, data, h, b);
    }
}

/// Data is stored where there is room, and what is left of the room is still free.
proof fn lemma_store_leaves(m: Image, data: Seq<u8>, h: int, b: int, len: int) -> (c: int)
    requires
        sound(m, Seq::empty()),
        data_fits(m, data.len()),
        free_blocks(m, h, b, len),
        blocks_of(m, data.len()) <= len,
    ensures
        m.store(data).1 is Ok,
        free_blocks(m.store(data).0, h, c, len - blocks_of(m, data.len())),
        m.store(data).0.cipher == m.cipher,
        m.store(data).0.disk.len() == m.disk.len(),
        m.store(data).0.format == m.format,
{
    lemma_format(m);
    if data.len() == 0 {
        assert(data =~= Seq::empty());
        nothing_can_always_be_stored(m);
        stored_data_reads_back(m, data);
        lemma_store_nothing_marks(m, h, b, len);
        b
    } else {
        lemma_aligned(16 + data.len() as int, m.format.block_size_bytes as int);
        let c = lemma_store_leaves_stretch(m, data, h, b, len);
        stored_data_reads_back(m, data);
        c
    }
}

/// Storing no data takes no block.
proof fn lemma_store_nothing_marks(m: Image, h: int, b: int, len: int)
    requires
        m.format.usable(),
        mapped(m),
        free_blocks(m, h, b, len),
    ensures
        free_blocks(m.store(Seq::empty()).0, h, b, len),
{
    let none = Seq::<u8>::empty();
    let bs = m.format.block_size_bytes as int;
    nothing_can_always_be_stored(m);
    stored_data_reads_back(m, none);
    lemma_store_marks(m, none);
    lemma_format(m);
    let m2 = m.store(none).0;
    assert(blocks_needed(0, m.format.data_size(), bs) == Ok::<int, XHFSError>(0));
    assert(m.allocate(0).1 is Ok) by {
        reveal(Image::store);
    }
    let slots = m.allocate(0).1->Ok_0;
    assert forall|x: int| b <= x < b + len implies !#[trigger] m2.data_bits(h)->Ok_0.get(x) by {
        assert(!m.data_bits(h)->Ok_0.get(x));
        assert(is_block(m, h, x));
        assert(!taken(m, h, x));
        let ss = slot_spans(slots, bs);
        assert(!in_slots(m, slots, h, x)) by {
            if in_slots(m, slots, h, x) {
                let k = choose|k: int|
                    0 <= k < ss.len() && (#[trigger] ss[k]).0 <= m.block_at(h, x) < ss[k].1;
                assert(slots[k].1 == 0);
                assert(slots[k].1 * bs == 0);
            }
        }
        assert(!taken(m2, h, x));
        assert(m2.data_bits(h) is Ok);
    }
}

/// A file or symbolic link is written over if that is allowed, the data is smaller than the free
/// space, and as many blocks as it takes are free next to one another.
pub proof fn overwriting_succeeds_with_room(
    m: Image,
    path: Seq<char>,
    data: Seq<u8>,
    kind: INodeKind,
    opt: WriteOption,
    now: u64,
    h: int,
    b: int,
)
    requires
        grounded(m),
        m.lookup(path) is Ok,
        m.parent(path) is Ok,
        m.lookup(path)->Ok_0.kind is File || m.lookup(path)->Ok_0.kind is Symlink,
        opt.overwrite,
        m.remaining() is Ok,
        data.len() < m.remaining()->Ok_0,
        data_fits(m, data.len()),
        free_blocks(m, h, b, blocks_of(m, data.len())),
    ensures
        m.blob_write(path, data, kind, opt, now).1 is Ok,
{
    let none = Seq::<MaybeU64>::empty();
    lemma_lookup_split(m, path);
    let parts = components(path);
    let k = (parts.len() - 1) as nat;
    let (parent, name) = m.parent(path)->Ok_0;
    lemma_walk_live(m, parts, k);
    let e = m.dir(parent.extent_addr)->Ok_0;
    lemma_position(e, name);
    lemma_good(m, parent.inumber);
    let id = e[entry_position(e, name)->0].1;
    assert(is_inode(m, id));
    assert(live(m, id));
    lemma_node_ok(m, id);
    assert(sound(m, none)) by {
        reveal(grounded);
    }
    lemma_can_store(m, data, h, b);
    lemma_sound_store(m, none, data);
    let (m1, r1) = m.store(data);
    assert(m1.inode(id) == m.inode(id));
    assert(live(m1, id));
    let sized = Node { total_file_size: data.len() as u64, ..node_of(m, id) };
    let t = match opt.modified {
        Some(t) => t,
        None => now,
    };
    lemma_replace_content_succeeds(m1, none, sized, r1->Ok_0, t);
}

/// A place that holds no inode is free.
proof fn lemma_spare_place(m: Image, n: u64)
    requires
        sound(m, Seq::empty()),
        is_inode(m, n),
        m.inode(n) == Ok::<_, XHFSError>(None::<Node>),
    ensures
        free_place(m, m.inode_group(n), m.inode_index(n)),
{
    reveal(Image::inode);
    lemma_inode_place(m, n);
    assert(m.inode_bits(m.inode_group(n)) is Ok);
}

/// A directory takes over new entries where there is room for them.
proof fn lemma_can_replace_entries(
    m: Image,
    node: Node,
    f: Entries,
    now: u64,
    h: int,
    b: int,
)
    requires
        sound(m, Seq::empty()),
        live(m, node.inumber),
        node == node_of(m, node.inumber),
        dir_bytes(f) is Ok,
        dir_bytes(f)->Ok_0.len() > 0,
        data_fits(m, dir_bytes(f)->Ok_0.len()),
        free_blocks(m, h, b, blocks_of(m, dir_bytes(f)->Ok_0.len())),
    ensures
        m.replace_entries(node, f, now).1 is Ok,
{
    let none = Seq::<MaybeU64>::empty();
    let data = dir_bytes(f)->Ok_0;
    lemma_can_store(m, data, h, b);
    lemma_sound_store(m, none, data);
    let (m1, r1) = m.store(data);
    assert(m1.inode(node.inumber) == m.inode(node.inumber));
    assert(node_ok(m, node.inumber));
    lemma_replace_content_succeeds(m1, none, node, r1->Ok_0, now);
}

/// A file or link is made at a path that leads nowhere if the directory for it is there, its name
/// can be stored, the data is smaller than the free space, an inode is not taken, and blocks for
/// the data and for the entries of the directory are free next to one another.
pub proof fn writing_new_succeeds_with_room(
    m: Image,
    path: Seq<char>,
    data: Seq<u8>,
    kind: INodeKind,
    opt: WriteOption,
    now: u64,
    spare: u64,
    h: int,
    b: int,
)
    requires
        grounded(m),
        !(kind is Directory),
        m.lookup(path) is Err,
        m.parent(path) is Ok,
        m.parent(path)->Ok_0.0.kind is Directory,
        m.dir(m.parent(path)->Ok_0.0.extent_addr) is Ok,
        entry_position(
            m.dir(m.parent(path)->Ok_0.0.extent_addr)->Ok_0,
            components(path).last(),
        ) is None,
        m.remaining() is Ok,
        data.len() < m.remaining()->Ok_0,
        tables_reach(m),
        is_inode(m, spare),
        m.inode(spare) == Ok::<_, XHFSError>(None::<Node>),
        data_fits(m, data.len()),
        ({
            let e = m.dir(m.parent(path)->Ok_0.0.extent_addr)->Ok_0;
            &&& dir_bytes(e.push((components(path).last(), 0))) is Ok
            &&& entries_fit(m, e.len() + 1)
            &&& free_blocks(
                m,
                h,
                b,
                blocks_of(m, data.len()) + blocks_for(
                    dir_size(e.len() + 1),
                    m.format.block_size_bytes as int,
                ),
            )
        }),
    ensures
        m.blob_write(path, data, kind, opt, now).1 is Ok,
{
    let none = Seq::<MaybeU64>::empty();
    lemma_lookup_split(m, path);
    let parts = components(path);
    let k = (parts.len() - 1) as nat;
    let (parent, name) = m.parent(path)->Ok_0;
    lemma_walk_live(m, parts, k);
    let p = parent.inumber;
    let e = m.dir(parent.extent_addr)->Ok_0;
    assert(sound(m, none)) by {
        reveal(grounded);
    }
    lemma_format(m);
    let bs = m.format.block_size_bytes as int;
    let size = dir_size(e.len() + 1);
    let need = blocks_for(size, bs);
    lemma_aligned(size, bs);
    let len = blocks_of(m, data.len()) + need;
    let c = lemma_store_leaves(m, data, h, b, len);
    lemma_sound_store(m, none, data);
    let (m1, r1) = m.store(data);
    let addr = r1->Ok_0;
    assert(m1.inode(p) == m.inode(p));
    assert(m1.inode(spare) == m.inode(spare));
    lemma_still_reaches(m, m1, need, size);
    lemma_sound_less(m1, addr);
    lemma_spare_place(m1, spare);
    inode_is_made_where_one_is_free(
        m1,
        p,
        data.len() as u64,
        addr,
        kind,
        now,
        m1.inode_group(spare),
        m1.inode_index(spare),
    );
    lemma_sound_new_inode(m1, none, p, data.len() as u64, addr, kind, now);
    new_inode_reads_back(m1, p, data.len() as u64, addr, kind, now);
    let (m2, r2) = m1.new_inode(p, data.len() as u64, addr, kind, now);
    let id = r2->Ok_0.inumber;
    assert(id != p);
    assert(m2.inode(p) == m1.inode(p));
    lemma_inodes_keep(m1, m2);
    assert(free_blocks(m2, h, c, need)) by {
        assert(m2.data_bits(h) == m1.data_bits(h));
        assert forall|x: int| c <= x < c + need implies !#[trigger] m2.data_bits(h)->Ok_0.get(x) by {
            assert(!m1.data_bits(h)->Ok_0.get(x));
        }
    }
    lemma_still_reaches(m1, m2, need, size);
    lemma_dir_size(e, name, id);
    lemma_can_replace_entries(m2, parent, e.push((name, id)), now, h, c);
}

/// A volume stays sound when a loose content is forgotten.
proof fn lemma_sound_less(m: Image, addr: MaybeU64)
    requires
        sound(m, Seq::<MaybeU64>::empty().push(addr)),
    ensures
        sound(m, Seq::empty()),
{
}

/// The extents of a content that can be read have a last one, whose head can be written.
proof fn lemma_last_extent(m: Image, addr: MaybeU64, fuel: nat)
    requires
        m.chain(addr, fuel) is Ok,
    ensures
        m.last_extent(addr, fuel) is Ok,
        addr.raw != 0 ==> m.last_extent(addr, fuel)->Ok_0.raw != 0 && m.clear(
            m.last_extent(addr, fuel)->Ok_0.raw as int,
            16,
        ) is Ok,
    decreases fuel,
{
    if addr.raw != 0 {
        let meta = m.extent_meta(addr.raw)->Ok_0;
        if meta.next_extent.raw != 0 {
            lemma_last_extent(m, meta.next_extent, (fuel - 1) as nat);
        }
    }
}

/// Data is appended to a file if blocks for it are free next to one another and the size can still
/// be counted.
pub proof fn appending_succeeds_with_room(
    m: Image,
    path: Seq<char>,
    data: Seq<u8>,
    t: u64,
    h: int,
    b: int,
)
    requires
        grounded(m),
        m.lookup(path) is Ok,
        m.lookup(path)->Ok_0.kind is File,
        m.lookup(path)->Ok_0.total_file_size + data.len() <= u64::MAX,
        data_fits(m, data.len()),
        free_blocks(m, h, b, blocks_of(m, data.len())),
    ensures
        m.fappend(path, data, t).1 is Ok,
{
    reveal(Image::append);
    reveal(Image::content);
    let none = Seq::<MaybeU64>::empty();
    let parts = components(path);
    lemma_walk_live(m, parts, parts.len());
    let node = m.lookup(path)->Ok_0;
    let id = node.inumber;
    assert(sound(m, none)) by {
        reveal(grounded);
    }
    lemma_node_ok(m, id);
    lemma_can_store(m, data, h, b);
    stored_data_reads_back(m, data);
    lemma_sound_store(m, none, data);
    let m1 = m.store(data).0;
    lemma_last_extent(m, node.extent_addr, m.disk.len());
    let (m2, r2) = m.append(node.extent_addr, data);
    lemma_le64(m.store(data).1->Ok_0.raw);
    assert(r2 is Ok);
    let new = Node {
        total_file_size: (node.total_file_size + data.len()) as u64,
        extent_addr: r2->Ok_0,
        mtime: t,
        ..node
    };
    if node.extent_addr.raw != 0 {
        lemma_sound_grown(m, id, data);
        assert(m2.inode(id) == m.inode(id));
    } else {
        assert(m.append(node.extent_addr, data) == m.store(data));
        assert(m2.inode(id) == m.inode(id));
    }
    assert(live(m2, id));
    lemma_register_succeeds(m2, new);
}

/// The same volume, on which no block was taken that was free.
pub open spec fn takes_nothing(m: Image, m2: Image) -> bool {
    &&& m2.format == m.format
    &&& m2.cipher == m.cipher
    &&& m2.disk.len() == m.disk.len()
    &&& mapped(m2)
    &&& forall|g: int, b: int| is_block(m, g, b) && #[trigger] taken(m2, g, b) ==> taken(m, g, b)
}

proof fn lemma_still_free(m: Image, m2: Image, h: int, b: int, n: int)
    requires
        takes_nothing(m, m2),
        mapped(m),
        free_blocks(m, h, b, n),
    ensures
        free_blocks(m2, h, b, n),
{
    assert forall|c: int| b <= c < b + n implies !#[trigger] m2.data_bits(h)->Ok_0.get(c) by {
        assert(!m.data_bits(h)->Ok_0.get(c));
        assert(is_block(m, h, c));
        assert(!taken(m, h, c));
        assert(!taken(m2, h, c));
        assert(m2.data_bits(h) is Ok);
    }
}

/// A link can always be taken away from an inode, and that takes no block.
proof fn lemma_drop_link_succeeds(m: Image, n: u64)
    requires
        sound(m, Seq::empty()),
        is_inode(m, n),
    ensures
        m.drop_link(n).1 is Ok,
        takes_nothing(m, m.drop_link(n).0),
{
    reveal(Image::inode);
    lemma_inode_place(m, n);
    let g = m.inode_group(n);
    let i = m.inode_index(n);
    assert(m.inode_bits(g) is Ok);
    let bits = m.inode_bits(g)->Ok_0;
    let m2 = m.drop_link(n).0;
    if bits.get(i) {
        assert(m.inode(n) is Ok);
        assert(live(m, n));
        assert(node_ok(m, n));
        let node = node_of(m, n);
        if node.nlink > 1 {
            let new = Node { nlink: (node.nlink - 1) as u64, ..node };
            lemma_register_succeeds(m, new);
            registered_inode_reads_back(m, new, true);
            lemma_inodes_keep(m, m2);
            lemma_same_marks(m, m2);
        } else {
            freed_blocks_are_free(m, node.extent_addr);
            let m1 = m.free(node.extent_addr).0;
            lemma_free_keeps(m, node.extent_addr);
            lemma_inode_bits_same(m, m1, g);
            assert(is_inode(m1, n));
            lemma_clear_inode(m1, n);
            lemma_inodes_keep(m1, m2);
            lemma_same_marks(m1, m2);
            assert forall|x: int, y: int| is_block(m, x, y) && #[trigger] taken(
                m2,
                x,
                y,
            ) implies taken(m, x, y) by {
                assert(is_block(m1, x, y));
                assert(taken(m1, x, y));
            }
        }
    }
}

proof fn lemma_same_marks(m: Image, m2: Image)
    requires
        m.format.usable(),
        mapped(m),
        same_but_inodes(m, m2),
    ensures
        takes_nothing(m, m2),
{
    lemma_inodes_keep(m, m2);
    assert forall|g: int, b: int| is_block(m, g, b) && #[trigger] taken(m2, g, b) implies taken(
        m,
        g,
        b,
    ) by {
        assert(m2.data_bits(g) == m.data_bits(g));
    }
}

proof fn lemma_drop_links_succeed(m: Image, stack: Seq<u64>)
    requires
        sound(m, Seq::empty()),
        stack_ok(m, stack),
    ensures
        m.drop_links(stack).1 is Ok,
        takes_nothing(m, m.drop_links(stack).0),
        sound(m.drop_links(stack).0, Seq::empty()),
    decreases stack.len(),
{
    if stack.len() > 0 {
        let top = stack.last();
        let rest = stack.drop_last();
        assert(is_inode(m, stack[stack.len() - 1]));
        lemma_drop_link_succeeds(m, top);
        lemma_sound_drop_link(m, top);
        let m1 = m.drop_link(top).0;
        assert forall|k: int| 0 <= k < rest.len() implies is_inode(m1, #[trigger] rest[k]) by {
            assert(is_inode(m, stack[k]));
        }
        lemma_drop_links_succeed(m1, rest);
        let m2 = m.drop_links(stack).0;
        assert forall|g: int, b: int| is_block(m, g, b) && #[trigger] taken(m2, g, b) implies taken(
            m,
            g,
            b,
        ) by {
            assert(is_block(m1, g, b));
            assert(taken(m1, g, b));
        }
    }
}

/// A file, a link or an empty directory is removed if the entries that are left in its directory
/// can be stored: there are none, or blocks for them are free next to one another.
pub proof fn removing_succeeds_with_room(m: Image, path: Seq<char>, now: u64, h: int, b: int)
    requires
        grounded(m),
        m.parent(path) is Ok,
        m.lookup(path) is Ok,
        m.lookup(path)->Ok_0.inumber != m.parent(path)->Ok_0.0.inumber,
        removable_links(m, m.lookup(path)->Ok_0.inumber),
        m.link_chain(
            seq![m.lookup(path)->Ok_0.inumber],
            m.lookup(path)->Ok_0.inumber,
            m.disk.len(),
        ) is Ok,
        m.lookup(path)->Ok_0.kind is Directory ==> m.dir(m.lookup(path)->Ok_0.extent_addr)
            == Ok::<Entries, XHFSError>(Seq::empty()),
        ({
            let e = m.dir(m.parent(path)->Ok_0.0.extent_addr)->Ok_0;
            let rest = e.remove(entry_position(e, components(path).last())->0);
            e.len() > 1 ==> {
                &&& dir_bytes(rest) is Ok
                &&& data_fits(m, dir_bytes(rest)->Ok_0.len())
                &&& free_blocks(m, h, b, blocks_of(m, dir_bytes(rest)->Ok_0.len()))
            }
        }),
    ensures
        m.unlink(path, now).1 is Ok,
{
    let none = Seq::<MaybeU64>::empty();
    lemma_lookup_split(m, path);
    let parts = components(path);
    let k = (parts.len() - 1) as nat;
    let (parent, name) = m.parent(path)->Ok_0;
    let p = parent.inumber;
    lemma_walk_live(m, parts, k);
    lemma_walk_live(m, parts, parts.len());
    let e = m.dir(parent.extent_addr)->Ok_0;
    lemma_position(e, name);
    lemma_good(m, p);
    let i = entry_position(e, name)->0;
    let id = e[i].1;
    assert(is_inode(m, id));
    assert(live(m, id));
    lemma_node_ok(m, id);
    assert(sound(m, none)) by {
        reveal(grounded);
    }
    let stack = m.link_chain(seq![id], id, m.disk.len())->Ok_0;
    lemma_drop_links_succeed(m, stack);
    lemma_drop_links(m, stack);
    let m1 = m.drop_links(stack).0;
    assert(!stack.contains(p)) by {
        if stack.contains(p) {
            let j = choose|j: int| 0 <= j < stack.len() && stack[j] == p;
            assert(stack[j] != id);
            assert(live(m, stack[j]));
        }
    }
    assert(m1.inode(p) == m.inode(p));
    let rest = e.remove(i);
    if rest.len() == 0 {
        lemma_sound_zero(m1);
        assert(node_ok(m, p));
        lemma_replace_content_succeeds(m1, none, parent, maybe(0), now);
    } else {
        let data = dir_bytes(rest)->Ok_0;
        lemma_dir_len(rest);
        lemma_still_free(m, m1, h, b, blocks_of(m, data.len()));
        lemma_still_reaches(m, m1, blocks_of(m, data.len()), 16 + data.len() as int);
        lemma_can_replace_entries(m1, parent, rest, now, h, b);
    }
}

/// A file can be removed whenever it is the only entry of its directory, however full the volume
/// is.
pub proof fn only_entry_is_always_removed(m: Image, path: Seq<char>, now: u64)
    requires
        grounded(m),
        m.parent(path) is Ok,
        m.lookup(path) is Ok,
        m.lookup(path)->Ok_0.kind is File || m.lookup(path)->Ok_0.kind is Symlink,
        m.dir(m.parent(path)->Ok_0.0.extent_addr)->Ok_0.len() == 1,
    ensures
        m.unlink(path, now).1 is Ok,
{
    lemma_lookup_split(m, path);
    let parts = components(path);
    lemma_walk_live(m, parts, (parts.len() - 1) as nat);
    lemma_walk_live(m, parts, parts.len());
    plain_entry_is_removable(m, path);
    removing_succeeds_with_room(m, path, now, 0, 0);
}

/// A hard link is made to a file where a new entry can be made, unless the links of the file cannot
/// be counted further.
pub proof fn hardlinking_succeeds_with_room(
    m: Image,
    path: Seq<char>,
    target: Seq<char>,
    opt: WriteOption,
    now: u64,
)
    requires
        grounded(m),
        m.lookup(path) is Err,
        m.parent(path) is Ok,
        m.parent(path)->Ok_0.0.kind is Directory,
        m.lookup(target) is Ok,
        m.lookup(target)->Ok_0.kind is File,
        m.lookup(target)->Ok_0.nlink < u64::MAX,
        m.blob_write(
            path,
            le64(m.lookup(target)->Ok_0.inumber),
            INodeKind::Hardlink,
            opt,
            now,
        ).1 is Ok,
    ensures
        m.hardlink(path, target, opt, now).1 is Ok,
{
    let parts = components(target);
    lemma_walk_live(m, parts, parts.len());
    let node = m.lookup(target)->Ok_0;
    let data = le64(node.inumber);
    lemma_written(m, path, data, INodeKind::Hardlink, opt, now);
    let m1 = m.blob_write(path, data, INodeKind::Hardlink, opt, now).0;
    assert(live(m, node.inumber));
    assert(live(m1, node.inumber) && node_of(m1, node.inumber) == node);
    lemma_node_ok(m1, node.inumber);
    assert(sound(m1, Seq::empty())) by {
        reveal(grounded);
    }
    lemma_register_succeeds(m1, Node { nlink: (node.nlink + 1) as u64, ..node });
}

/// A symbolic link is made where a new entry can be made, if the directory of its target is there.
pub proof fn symlinking_succeeds_with_room(
    m: Image,
    path: Seq<char>,
    target: Seq<char>,
    opt: WriteOption,
    now: u64,
)
    requires
        m.parent(target) is Ok,
        m.blob_write(
            path,
            encode_utf8(absolute(components(target))),
            INodeKind::Symlink,
            opt,
            now,
        ).1 is Ok,
    ensures
        m.symlink(path, target, opt, now).1 is Ok,
{
}

/// A file that can be read is copied where its content can be written.
pub proof fn copying_succeeds_with_room(
    m: Image,
    src: Seq<char>,
    dest: Seq<char>,
    opt: WriteOption,
    now: u64,
)
    requires
        m.fread(src) is Ok,
        m.blob_write(dest, m.fread(src)->Ok_0, INodeKind::File, opt, now).1 is Ok,
    ensures
        m.fcopy(src, dest, opt, now).1 is Ok,
{
}

/// A file of a grounded volume can be read, and so can what a link to a file stands for.
pub proof fn file_can_always_be_read(m: Image, path: Seq<char>)
    requires
        grounded(m),
        m.lookup(path) is Ok,
        m.lookup(path)->Ok_0.kind is File,
    ensures
        m.fread(path) is Ok,
{
    let parts = components(path);
    lemma_walk_live(m, parts, parts.len());
}

/// An inode takes over new content and gives the old one back.
proof fn lemma_point_and_free(m: Image, loose: Seq<MaybeU64>, j: int, node: Node, now: u64)
    requires
        sound(m, loose),
        0 <= j < loose.len(),
        live(m, node.inumber),
        node == node_of(m, node.inumber),
    ensures
        ({
            let (m1, r1) = m.register(Node { extent_addr: loose[j], mtime: now, ..node }, true);
            &&& r1 is Ok
            &&& sound(m1, loose.update(j, node.extent_addr))
            &&& forall|n: u64|
                is_inode(m, n) && n != node.inumber ==> #[trigger] m1.inode(n) == m.inode(n)
            &&& m1.format == m.format
        }),
{
    assert(node_ok(m, node.inumber));
    let new = Node { extent_addr: loose[j], mtime: now, ..node };
    lemma_register_succeeds(m, new);
    lemma_sound_point(m, loose, j, new);
}

/// An entry is moved to a name that is not there, in the same directory or in another one, if the
/// new name can be stored and blocks for the new entries of the directories are free next to one
/// another.
pub proof fn moving_succeeds_with_room(
    m: Image,
    src: Seq<char>,
    dest: Seq<char>,
    now: u64,
    h: int,
    b: int,
)
    requires
        grounded(m),
        !path_starts_with(dest, src),
        m.parent(src) is Ok,
        m.parent(dest) is Ok,
        m.parent(src)->Ok_0.0.kind is Directory,
        m.parent(dest)->Ok_0.0.kind is Directory,
        m.lookup(src) is Ok,
        m.dir(m.parent(dest)->Ok_0.0.extent_addr) is Ok,
        entry_position(
            m.dir(m.parent(dest)->Ok_0.0.extent_addr)->Ok_0,
            components(dest).last(),
        ) is None,
        ({
            let from = m.parent(src)->Ok_0.0;
            let to = m.parent(dest)->Ok_0.0;
            let ea = m.dir(from.extent_addr)->Ok_0;
            let eb = m.dir(to.extent_addr)->Ok_0;
            let name = components(dest).last();
            let left = without(ea, components(src).last());
            let n = m.lookup(src)->Ok_0.inumber;
            if from.inumber == to.inumber {
                let f = dir_bytes(left.push((name, n)));
                &&& f is Ok
                &&& data_fits(m, f->Ok_0.len())
                &&& free_blocks(m, h, b, blocks_of(m, f->Ok_0.len()))
            } else {
                let f = dir_bytes(left);
                let g = dir_bytes(eb.push((name, n)));
                &&& f is Ok
                &&& g is Ok
                &&& data_fits(m, f->Ok_0.len())
                &&& data_fits(m, g->Ok_0.len())
                &&& free_blocks(
                    m,
                    h,
                    b,
                    blocks_of(m, f->Ok_0.len()) + blocks_of(m, g->Ok_0.len()),
                )
            }
        }),
    ensures
        m.fmove(src, dest, now).1 is Ok,
{
    let none = Seq::<MaybeU64>::empty();
    lemma_lookup_split(m, src);
    lemma_lookup_split(m, dest);
    let sp = components(src);
    let dp = components(dest);
    let (from, src_name) = m.parent(src)->Ok_0;
    let (to, dst_name) = m.parent(dest)->Ok_0;
    let p = from.inumber;
    let q = to.inumber;
    lemma_walk_live(m, sp, (sp.len() - 1) as nat);
    lemma_walk_live(m, dp, (dp.len() - 1) as nat);
    lemma_walk_live(m, sp, sp.len());
    let ea = m.dir(from.extent_addr)->Ok_0;
    let eb = m.dir(to.extent_addr)->Ok_0;
    lemma_good(m, p);
    lemma_good(m, q);
    lemma_position(ea, src_name);
    let i = entry_position(ea, src_name)->0;
    let n = ea[i].1;
    assert(is_inode(m, n));
    assert(live(m, n));
    lemma_node_ok(m, n);
    lemma_without(m, ea, src_name);
    let left = without(ea, src_name);
    assert(sound(m, none)) by {
        reveal(grounded);
    }
    lemma_format(m);
    assert(last_entry(ea, src_name) == Some(n));
    if p == q {
        lemma_rename_succeeds(m, from, ea, src_name, dst_name, n, now, h, b);
    } else {
        lemma_transfer_succeeds(m, from, ea, src_name, to, eb, dst_name, n, now, h, b);
    }
}

proof fn lemma_rename_succeeds(
    m: Image,
    from: Node,
    ea: Entries,
    src_name: Seq<char>,
    dst_name: Seq<char>,
    n: u64,
    now: u64,
    h: int,
    b: int,
)
    requires
        sound(m, Seq::empty()),
        live(m, from.inumber),
        from == node_of(m, from.inumber),
        entry_position(ea, dst_name) is None,
        last_entry(ea, src_name) == Some(n),
        ({
            let f = dir_bytes(without(ea, src_name).push((dst_name, n)));
            &&& f is Ok
            &&& data_fits(m, f->Ok_0.len())
            &&& free_blocks(m, h, b, blocks_of(m, f->Ok_0.len()))
        }),
    ensures
        m.rename(from, ea, src_name, dst_name, now).1 is Ok,
{
    let none = Seq::<MaybeU64>::empty();
    let p = from.inumber;
    let f = dir_bytes(without(ea, src_name).push((dst_name, n)))->Ok_0;
    lemma_can_store(m, f, h, b);
    lemma_sound_store(m, none, f);
    let (m1, r1) = m.store(f);
    let addr = r1->Ok_0;
    assert(m1.inode(p) == m.inode(p));
    let l = none.push(addr);
    assert(l[0] == addr);
    lemma_point_and_free(m1, l, 0, from, now);
    let m2 = m1.register(Node { extent_addr: addr, mtime: now, ..from }, true).0;
    let l2 = l.update(0, from.extent_addr);
    assert(l2[0] == from.extent_addr);
    lemma_sound_free(m2, l2, 0);
}

proof fn lemma_transfer_succeeds(
    m: Image,
    from: Node,
    ea: Entries,
    src_name: Seq<char>,
    to: Node,
    eb: Entries,
    dst_name: Seq<char>,
    n: u64,
    now: u64,
    h: int,
    b: int,
)
    requires
        sound(m, Seq::empty()),
        live(m, from.inumber),
        from == node_of(m, from.inumber),
        live(m, to.inumber),
        to == node_of(m, to.inumber),
        from.inumber != to.inumber,
        entry_position(eb, dst_name) is None,
        last_entry(ea, src_name) == Some(n),
        ({
            let f = dir_bytes(without(ea, src_name));
            let g = dir_bytes(eb.push((dst_name, n)));
            &&& f is Ok
            &&& g is Ok
            &&& data_fits(m, f->Ok_0.len())
            &&& data_fits(m, g->Ok_0.len())
            &&& free_blocks(m, h, b, blocks_of(m, f->Ok_0.len()) + blocks_of(m, g->Ok_0.len()))
        }),
    ensures
        m.transfer(from, ea, src_name, to, eb, dst_name, now).1 is Ok,
{
    let none = Seq::<MaybeU64>::empty();
    let p = from.inumber;
    let q = to.inumber;
    let f = dir_bytes(without(ea, src_name))->Ok_0;
    let g = dir_bytes(eb.push((dst_name, n)))->Ok_0;
    lemma_blocks_of(m, g.len());
    let len = blocks_of(m, f.len()) + blocks_of(m, g.len());
    let c = lemma_store_leaves(m, f, h, b, len);
    lemma_sound_store(m, none, f);
    let (m1, r1) = m.store(f);
    let a = r1->Ok_0;
    let l1 = none.push(a);
    lemma_still_reaches(m, m1, blocks_of(m, g.len()), 16 + g.len() as int);
    lemma_can_store(m1, g, h, c);
    lemma_sound_store(m1, l1, g);
    let (m2, r2) = m1.store(g);
    let d = r2->Ok_0;
    let l2 = l1.push(d);
    assert(l2[0] == a && l2[1] == d);
    assert(m1.inode(p) == m.inode(p) && m1.inode(q) == m.inode(q));
    assert(m2.inode(p) == m1.inode(p) && m2.inode(q) == m1.inode(q));
    lemma_commit_succeeds(m2, l2, from, to, now);
}

proof fn lemma_commit_succeeds(m: Image, l: Seq<MaybeU64>, from: Node, to: Node, now: u64)
    requires
        l.len() == 2,
        sound(m, l),
        live(m, from.inumber),
        from == node_of(m, from.inumber),
        live(m, to.inumber),
        to == node_of(m, to.inumber),
        from.inumber != to.inumber,
    ensures
        m.commit_transfer(from, l[0], to, l[1], now).1 is Ok,
{
    let p = from.inumber;
    let a = l[0];
    lemma_point_and_free(m, l, 1, to, now);
    let m3 = m.register(Node { extent_addr: l[1], mtime: now, ..to }, true).0;
    let l3 = l.update(1, to.extent_addr);
    assert(l3[0] == a && l3[1] == to.extent_addr);
    assert(m3.inode(p) == m.inode(p));
    lemma_point_and_free(m3, l3, 0, from, now);
    let m4 = m3.register(Node { extent_addr: a, mtime: now, ..from }, true).0;
    let l4 = l3.update(0, from.extent_addr);
    assert(l4[0] == from.extent_addr && l4[1] == to.extent_addr);
    let m5 = m4.free_unless(from.extent_addr, a).0;
    if from.extent_addr != a {
        lemma_sound_free(m4, l4, 0);
        let l5 = l4.remove(0);
        assert(l5[0] == to.extent_addr);
        lemma_sound_free(m5, l5, 0);
    } else {
        lemma_sound_free(m4, l4, 1);
    }
}

proof fn lemma_blocks_of(m: Image, len: nat)
    requires
        m.format.usable(),
    ensures
        blocks_of(m, len) >= 0,
{
    lemma_format(m);
    if len > 0 {
        lemma_aligned(16 + len as int, m.format.block_size_bytes as int);
    }
}

} // verus!
