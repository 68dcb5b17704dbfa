//! What a write that fails leaves behind: every file is as it was.
use crate::addr::{maybe, MaybeU64};
use crate::codec::{lemma_le64, zeros};
use crate::error::XHFSError;
use crate::utils::{components, path_starts_with};
use crate::xhfs::bitmap::{bitmap_set_get, lemma_fill_bits, Bits};
use crate::xhfs::block_laws::{
    allocation_takes_free_blocks, commits_ok, lemma_bits_wf, lemma_commit, lemma_first_fit,
    lemma_gather, mapped,
};
use crate::xhfs::blocks::Commit;
use crate::xhfs::chain_laws::{grows, lemma_needed, lemma_plan_written};
use crate::xhfs::dir_laws::{files_kept, lemma_extends_trans, lemma_make_dir};
use crate::xhfs::ds::{dir_bytes, inode_round_trip, node_bytes, Chunk, INodeKind, Node};
use crate::xhfs::file_laws::lemma_sound_grown;
use crate::xhfs::extent::lemma_aligned;
use crate::xhfs::free_laws::lemma_can_put_bits;
use crate::xhfs::image::{aligned, Image};
use crate::xhfs::inode_laws::{
    inodes_mapped, is_inode, lemma_free_inode, lemma_inode_place, live, node_of,
};
use crate::xhfs::laws::same_volume;
use crate::xhfs::move_laws::lemma_sound_free_unless;
use crate::xhfs::op_laws::{
    entries_extend, extends, good_entries, grounded, lemma_entries_push, lemma_good,
    lemma_lookup_split, lemma_position, lemma_walk_extends, lemma_walk_live,
};
use crate::xhfs::sound::{
    ext, lemma_same_head, lemma_sound_carries, lemma_sound_free, lemma_sound_new_inode,
    lemma_sound_point, lemma_sound_store, lemma_store_keeps, node_ok, same_content, sound,
};
use crate::xhfs::store::{blocks_needed, spread};
use crate::xhfs::store_laws::{in_spans, lemma_spread, plan_ok, plan_spans, same_but};
use crate::xhfs::tree::{entry_position, last_entry, without, Entries, WriteOption};
use crate::xhfs::unlink_laws::lemma_sound_zero;
use crate::xhfs::volume::{lemma_addressable, lemma_format};
use vstd::prelude::*;

verus! {

/// Bitmaps that fit can be written.
proof fn lemma_commit_succeeds(m: Image, commits: Seq<Commit>, k: nat)
    requires
        m.format.usable(),
        mapped(m),
        commits_ok(m, commits),
        k <= commits.len(),
    ensures
        m.commit(commits, k).1 is Ok,
    decreases k,
{
    if k > 0 {
        lemma_commit_succeeds(m, commits, (k - 1) as nat);
        lemma_commit(m, commits, (k - 1) as nat);
        let m1 = m.commit(commits, (k - 1) as nat).0;
        let c = commits[k - 1];
        assert(m1.data_bits(c.group) is Ok);
        lemma_can_put_bits(m1, c.group, c.bits);
        assert(m.data_bitmap_at(c.group) == m1.data_bitmap_at(c.group));
    }
}

/// An allocation that is refused changes nothing.
pub proof fn refused_allocation_changes_nothing(m: Image, wanted: int)
    requires
        m.format.usable(),
        mapped(m),
        0 <= wanted,
        m.allocate(wanted).1 is Err,
    ensures
        m.allocate(wanted).0 == m,
{
    lemma_format(m);
    match m.first_fit(wanted, 0) {
        Err(_) => {},
        Ok(Some((g, bits, start))) => {
            lemma_first_fit(m, wanted, 0);
            lemma_bits_wf(m, g);
            lemma_fill_bits(bits.raw, bits.len as int, 8 * bits.raw.len() as int, false);
            let t = bits.trimmed();
            lemma_fill_bits(t.raw, start as int, start + wanted, true);
            lemma_can_put_bits(m, g, t.fill(start as int, start + wanted, true));
        },
        Ok(None) => {
            let n = m.format.group_count as nat;
            if wanted != 0 && m.gather(wanted, n) is Ok && m.gather(wanted, n)->Ok_0.wanted <= 0 {
                lemma_gather(m, wanted, n);
                let p = m.gather(wanted, n)->Ok_0;
                lemma_commit_succeeds(m, p.commits, p.commits.len());
            }
        },
    }
}

/// Writing extents changes no byte outside of the plan, also if it fails.
proof fn lemma_write_plan_frame(m: Image, plan: Seq<(int, Seq<u8>)>)
    requires
        m.format.block_size_bytes > 0,
        plan_ok(plan, m.format.block_size_bytes as int),
    ensures
        same_but(
            m,
            m.write_plan(plan).0,
            plan_spans(plan, m.format.block_size_bytes as int),
        ),
    decreases plan.len(),
{
    let bs = m.format.block_size_bytes as int;
    if plan.len() > 0 {
        let rest = plan.drop_first();
        assert forall|k: int| 0 <= k < rest.len() implies 0 < (#[trigger] rest[k]).0 && rest[k].0
            + aligned(16 + rest[k].1.len() as int, bs) <= usize::MAX by {
            assert(rest[k] == plan[k + 1]);
        }
        assert forall|j: int, k: int| 0 <= j < k < rest.len() implies (#[trigger] rest[j]).0
            + aligned(16 + rest[j].1.len() as int, bs) <= (#[trigger] rest[k]).0 by {
            assert(rest[j] == plan[j + 1]);
            assert(rest[k] == plan[k + 1]);
        }
        lemma_write_plan_frame(m, rest);
        let m1 = m.write_plan(rest).0;
        let m2 = m.write_plan(plan).0;
        let ps = plan_spans(plan, bs);
        let rs = plan_spans(rest, bs);
        lemma_aligned(16 + plan[0].1.len() as int, bs);
        assert forall|i: int| 0 <= i < m.disk.len() && !in_spans(ps, i) implies #[trigger] m.disk[i]
            == m2.disk[i] by {
            assert(!in_spans(rs, i)) by {
                if in_spans(rs, i) {
                    let k = choose|k: int| 0 <= k < rs.len() && (#[trigger] rs[k]).0 <= i < rs[k].1;
                    assert(rest[k] == plan[k + 1]);
                    assert(ps[k + 1] == rs[k]);
                }
            }
            assert(!(ps[0].0 <= i < ps[0].1));
            assert(m.disk[i] == m1.disk[i]);
            if m.write_plan(rest).1 is Ok {
                let c = Chunk { next: m.write_plan(rest).1->Ok_0, data: plan[0].1 };
                lemma_le64(c.data.len() as u64);
                lemma_le64(c.next.raw);
            }
        }
    }
}

/// Storing leaves all that was sound as it was, also if it fails.
proof fn lemma_store_grows(m: Image, data: Seq<u8>)
    requires
        m.format.usable(),
        mapped(m),
    ensures
        grows(m, m.store(data).0),
{
    reveal(Image::store);
    let bs = m.format.block_size_bytes as int;
    lemma_format(m);
    lemma_needed(data.len(), m.format.data_size(), bs);
    assert(grows(m, m));
    match blocks_needed(data.len(), m.format.data_size(), bs) {
        Err(_) => {},
        Ok(n) => {
            if n <= usize::MAX {
                let (m1, r1) = m.allocate(n);
                match r1 {
                    Err(_) => {
                        refused_allocation_changes_nothing(m, n);
                    },
                    Ok(slots) => {
                        allocation_takes_free_blocks(m, n);
                        let plan = spread(slots, bs, data).0;
                        lemma_spread(slots, bs, data);
                        lemma_write_plan_frame(m1, plan);
                        let m2 = m.store(data).0;
                        assert(same_but(m1, m1, plan_spans(plan, bs)));
                        lemma_plan_written(m, m1, m2, slots, data);
                    },
                }
            }
        },
    }
}

/// Writing an inode fails before anything is written, if at all.
proof fn lemma_store_inode_fails(m: Image, node: Node, g: int, bits: Bits)
    requires
        m.format.usable(),
        0 <= g < m.format.group_count,
        m.inode_bits(g) is Ok,
        bits.wf(),
        bits.len == m.format.param_inode_count_per_group,
        m.store_inode(node, g, bits).1 is Err,
    ensures
        m.store_inode(node, g, bits).0 == m,
{
    lemma_format(m);
    lemma_addressable(m, g, g);
    lemma_le64(bits.len as u64);
    let m1 = m.put_clear(m.inode_at(node.inumber), node_bytes(node)).0;
    assert(m1.disk.len() == m.disk.len());
}

/// An inode that cannot be registered changes nothing.
proof fn lemma_register_fails(m: Image, node: Node)
    requires
        m.format.usable(),
        inodes_mapped(m),
        is_inode(m, node.inumber),
        m.register(node, true).1 is Err,
    ensures
        m.register(node, true).0 == m,
{
    reveal(Image::register);
    lemma_inode_place(m, node.inumber);
    let g = m.inode_group(node.inumber);
    let i = m.inode_index(node.inumber);
    let bits = m.inode_bits(g)->Ok_0;
    bitmap_set_get(bits, i, true, i);
    if m.store_inode(node, g, bits.set(i, true)).1 is Err {
        lemma_store_inode_fails(m, node, g, bits.set(i, true));
    }
}

/// A new inode that cannot be made changes nothing.
proof fn lemma_new_inode_fails(
    m: Image,
    hint: u64,
    size: u64,
    addr: MaybeU64,
    kind: INodeKind,
    now: u64,
)
    requires
        m.format.usable(),
        inodes_mapped(m),
        is_inode(m, hint),
        m.new_inode(hint, size, addr, kind, now).1 is Err,
    ensures
        m.new_inode(hint, size, addr, kind, now).0 == m,
{
    reveal(Image::new_inode);
    lemma_inode_place(m, hint);
    let start = m.inode_group(hint);
    if m.free_inode(start, 0) is Ok && m.free_inode(start, 0)->Ok_0 is Some {
        lemma_free_inode(m, start, 0);
        let (g, bits, i) = m.free_inode(start, 0)->Ok_0->0;
        bitmap_set_get(bits, i as int, true, i as int);
        let node = Node {
            kind,
            inumber: (g * m.format.param_inode_count_per_group + i + 1) as u64,
            nlink: 1,
            total_file_size: size,
            extent_addr: addr,
            mtime: now,
            ctime: now,
            extra_metadata: zeros(32),
        };
        if m.store_inode(node, g, bits.set(i as int, true)).1 is Err {
            lemma_store_inode_fails(m, node, g, bits.set(i as int, true));
        }
    }
}

/// Every inode is as it was, with its content. What was added is not a directory, or is empty.
pub open spec fn untouched(m: Image, m2: Image) -> bool {
    &&& same_volume(m, m2)
    &&& forall|n: u64| #[trigger]
        live(m, n) ==> m2.inode(n) == m.inode(n) && same_content(m, m2, ext(m, n))
    &&& forall|n: u64| #[trigger]
        live(m2, n) && !live(m, n) && node_of(m2, n).kind is Directory ==> m2.dir(ext(m2, n)) == Ok::<
            Entries,
            XHFSError,
        >(Seq::empty())
}

/// Two steps that leave the inodes alone do so together.
proof fn lemma_untouched_trans(a: Image, b: Image, c: Image)
    requires
        untouched(a, b),
        untouched(b, c),
    ensures
        untouched(a, c),
{
    assert forall|n: u64| #[trigger] live(a, n) implies c.inode(n) == a.inode(n) && same_content(
        a,
        c,
        ext(a, n),
    ) by {
        assert(b.inode(n) == a.inode(n));
        assert(live(b, n));
        assert(same_content(b, c, ext(b, n)));
        assert(same_content(a, b, ext(a, n)));
    }
    assert forall|n: u64| #[trigger]
        live(c, n) && !live(a, n) && node_of(c, n).kind is Directory implies c.dir(ext(c, n)) == Ok::<
        Entries,
        XHFSError,
    >(Seq::empty()) by {
        if live(b, n) {
            assert(c.inode(n) == b.inode(n));
            assert(same_content(b, c, ext(b, n)));
        }
    }
}

/// A store, whether it fails or not, leaves the inodes alone.
proof fn lemma_store_leaves(m: Image, loose: Seq<MaybeU64>, data: Seq<u8>)
    requires
        sound(m, loose),
    ensures
        sound(m.store(data).0, loose),
        untouched(m, m.store(data).0),
        forall|n: u64| is_inode(m, n) ==> #[trigger] m.store(data).0.inode(n) == m.inode(n),
{
    let m2 = m.store(data).0;
    lemma_store_grows(m, data);
    lemma_store_keeps(m, m2);
    lemma_same_head(m, m2);
    assert forall|n: u64| #[trigger] live(m, n) implies same_content(m, m2, ext(m, n)) by {
        assert(node_ok(m, n));
    }
    lemma_sound_carries(m, m2, loose);
}

/// A content that cannot be replaced is left as it is.
proof fn lemma_replace_content_fails(
    m: Image,
    loose: Seq<MaybeU64>,
    node: Node,
    addr: MaybeU64,
    t: u64,
)
    requires
        sound(m, loose.push(addr)),
        live(m, node.inumber),
        node.extra_metadata.len() == 32,
        node.extent_addr == ext(m, node.inumber),
        m.replace_content(node, addr, t).1 is Err,
    ensures
        m.replace_content(node, addr, t).0 == m,
{
    let new = Node { extent_addr: addr, mtime: t, ..node };
    let all = loose.push(addr);
    let j = loose.len() as int;
    assert(all[j] == addr);
    if m.register(new, true).1 is Ok {
        lemma_sound_point(m, all, j, new);
        let m1 = m.register(new, true).0;
        let left = all.update(j, ext(m, node.inumber));
        assert(left[j] == node.extent_addr);
        lemma_sound_free(m1, left, j);
    } else {
        lemma_register_fails(m, new);
    }
}

/// Entries that cannot be replaced are left as they are.
proof fn lemma_replace_entries_fails(m: Image, node: Node, e: Entries, now: u64)
    requires
        sound(m, Seq::empty()),
        live(m, node.inumber),
        node == node_of(m, node.inumber),
        m.replace_entries(node, e, now).1 is Err,
    ensures
        sound(m.replace_entries(node, e, now).0, Seq::empty()),
        untouched(m, m.replace_entries(node, e, now).0),
{
    let none = Seq::<MaybeU64>::empty();
    assert(node_ok(m, node.inumber));
    lemma_untouched_self(m);
    if dir_bytes(e) is Ok {
        let data = dir_bytes(e)->Ok_0;
        lemma_store_leaves(m, none, data);
        let (m1, r1) = m.store(data);
        if r1 is Ok {
            lemma_sound_store(m, none, data);
            assert(m1.inode(node.inumber) == m.inode(node.inumber));
            lemma_replace_content_fails(m1, none, node, r1->Ok_0, now);
        }
    }
}

proof fn lemma_untouched_self(m: Image)
    requires
        sound(m, Seq::empty()),
    ensures
        untouched(m, m),
{
    assert forall|n: u64| #[trigger] live(m, n) implies same_content(m, m, ext(m, n)) by {
        assert(node_ok(m, n));
    }
}

/// An entry that cannot be made leaves everything as it is.
proof fn lemma_create_fails(
    m: Image,
    parent: Node,
    e: Entries,
    name: Seq<char>,
    data: Seq<u8>,
    kind: INodeKind,
    now: u64,
)
    requires
        sound(m, Seq::empty()),
        live(m, parent.inumber),
        parent == node_of(m, parent.inumber),
        m.create(parent, e, name, data, kind, now).1 is Err,
    ensures
        sound(m.create(parent, e, name, data, kind, now).0, Seq::empty()),
        untouched(m, m.create(parent, e, name, data, kind, now).0),
{
    let none = Seq::<MaybeU64>::empty();
    let p = parent.inumber;
    lemma_store_leaves(m, none, data);
    let (m1, r1) = m.store(data);
    if r1 is Ok && !(kind is Directory) {
        let addr = r1->Ok_0;
        let size = data.len() as u64;
        lemma_sound_store(m, none, data);
        assert(m1.inode(p) == m.inode(p));
        assert(is_inode(m1, p));
        let (m2, r2) = m1.new_inode(p, size, addr, kind, now);
        if r2 is Err {
            lemma_new_inode_fails(m1, p, size, addr, kind, now);
        } else {
            lemma_sound_new_inode(m1, none, p, size, addr, kind, now);
            let id = r2->Ok_0.inumber;
            assert(untouched(m1, m2)) by {
                assert forall|n: u64| #[trigger] live(m1, n) implies m2.inode(n) == m1.inode(n)
                    && same_content(m1, m2, ext(m1, n)) by {
                    assert(node_ok(m1, n));
                }
                assert forall|n: u64| #[trigger] live(m2, n) && !live(m1, n) implies !(node_of(
                    m2,
                    n,
                ).kind is Directory) by {
                    if n != id {
                        assert(m2.inode(n) == m1.inode(n));
                    }
                }
            }
            lemma_untouched_trans(m, m1, m2);
            assert(live(m1, p));
            assert(m2.inode(p) == m.inode(p));
            lemma_replace_entries_fails(m2, parent, e.push((name, id)), now);
            let m3 = m.create(parent, e, name, data, kind, now).0;
            lemma_untouched_trans(m, m2, m3);
        }
    }
}

/// A file that cannot be replaced is left as it is.
proof fn lemma_overwrite_fails(m: Image, id: u64, data: Seq<u8>, opt: WriteOption, now: u64)
    requires
        sound(m, Seq::empty()),
        is_inode(m, id),
        m.overwrite(id, data, opt, now).1 is Err,
    ensures
        sound(m.overwrite(id, data, opt, now).0, Seq::empty()),
        untouched(m, m.overwrite(id, data, opt, now).0),
{
    let none = Seq::<MaybeU64>::empty();
    lemma_untouched_self(m);
    if m.entry_inode(id) is Ok {
        let node = m.entry_inode(id)->Ok_0;
        assert(live(m, id));
        assert(node_ok(m, id));
        lemma_store_leaves(m, none, data);
        let (m1, r1) = m.store(data);
        if r1 is Ok {
            lemma_sound_store(m, none, data);
            assert(m1.inode(id) == m.inode(id));
            let sized = Node { total_file_size: data.len() as u64, ..node };
            let t = match opt.modified {
                Some(t) => t,
                None => now,
            };
            if m1.replace_content(sized, r1->Ok_0, t).1 is Err {
                lemma_replace_content_fails(m1, none, sized, r1->Ok_0, t);
            }
        }
    }
}

/// An inode that is there can be written anew.
pub proof fn lemma_register_succeeds(m: Image, node: Node)
    requires
        m.format.usable(),
        inodes_mapped(m),
        live(m, node.inumber),
        node.extra_metadata.len() == 32,
    ensures
        m.register(node, true).1 is Ok,
{
    reveal(Image::register);
    reveal(Image::inode);
    lemma_inode_place(m, node.inumber);
    inode_round_trip(node);
    let g = m.inode_group(node.inumber);
    let i = m.inode_index(node.inumber);
    let bits = m.inode_bits(g)->Ok_0;
    bitmap_set_get(bits, i, true, i);
    lemma_format(m);
    lemma_addressable(m, g, g);
    lemma_le64(bits.len as u64);
    let m1 = m.put_clear(m.inode_at(node.inumber), node_bytes(node)).0;
    assert(m1.disk.len() == m.disk.len());
}

/// Content that was stored can always be taken over by an inode that is there.
pub proof fn lemma_replace_content_succeeds(
    m: Image,
    loose: Seq<MaybeU64>,
    node: Node,
    addr: MaybeU64,
    t: u64,
)
    requires
        sound(m, loose.push(addr)),
        live(m, node.inumber),
        node.extra_metadata.len() == 32,
        node.extent_addr == ext(m, node.inumber),
    ensures
        m.replace_content(node, addr, t).1 is Ok,
{
    let new = Node { extent_addr: addr, mtime: t, ..node };
    let all = loose.push(addr);
    let j = loose.len() as int;
    assert(all[j] == addr);
    lemma_register_succeeds(m, new);
    lemma_sound_point(m, all, j, new);
    let m1 = m.register(new, true).0;
    let left = all.update(j, ext(m, node.inumber));
    assert(left[j] == node.extent_addr);
    lemma_sound_free(m1, left, j);
}

/// An append that fails leaves everything as it is.
proof fn lemma_append_fails(m: Image, node: Node, data: Seq<u8>, t: u64, fuel: nat)
    requires
        grounded(m),
        live(m, node.inumber),
        node == node_of(m, node.inumber),
        node.kind is File || node.kind is Directory,
        m.append_inode(node, data, t, fuel).1 is Err,
    ensures
        sound(m.append_inode(node, data, t, fuel).0, Seq::empty()),
        untouched(m, m.append_inode(node, data, t, fuel).0),
{
    reveal(Image::append);
    let none = Seq::<MaybeU64>::empty();
    let id = node.inumber;
    assert(sound(m, none)) by {
        reveal(grounded);
    }
    assert(node_ok(m, id));
    lemma_untouched_self(m);
    if node.kind is File && node.total_file_size + data.len() <= u64::MAX {
        lemma_store_leaves(m, none, data);
        let (m1, r1) = m.append(node.extent_addr, data);
        if r1 is Ok {
            let new = Node {
                total_file_size: (node.total_file_size + data.len()) as u64,
                extent_addr: r1->Ok_0,
                mtime: t,
                ..node
            };
            if node.extent_addr.raw != 0 {
                lemma_sound_grown(m, id, data);
                assert(m1.inode(id) == m.inode(id));
                lemma_register_succeeds(m1, new);
            } else {
                assert(m.append(node.extent_addr, data) == m.store(data));
                assert(m1.inode(id) == m.inode(id));
                lemma_register_succeeds(m1, new);
            }
        }
    }
}

/// A directory that cannot take another name is left as it is.
proof fn lemma_rename_fails(
    m: Image,
    dir: Node,
    e: Entries,
    src_name: Seq<char>,
    dst_name: Seq<char>,
    now: u64,
)
    requires
        sound(m, Seq::empty()),
        live(m, dir.inumber),
        dir == node_of(m, dir.inumber),
        m.rename(dir, e, src_name, dst_name, now).1 is Err,
    ensures
        sound(m.rename(dir, e, src_name, dst_name, now).0, Seq::empty()),
        untouched(m, m.rename(dir, e, src_name, dst_name, now).0),
{
    let id = dir.inumber;
    let none = Seq::<MaybeU64>::empty();
    assert(node_ok(m, id));
    lemma_untouched_self(m);
    if entry_position(e, dst_name) is None && last_entry(e, src_name) is Some {
        let f = without(e, src_name).push((dst_name, last_entry(e, src_name)->0));
        if dir_bytes(f) is Ok {
            let bytes = dir_bytes(f)->Ok_0;
            lemma_store_leaves(m, none, bytes);
            let (m1, r1) = m.store(bytes);
            if r1 is Ok {
                let addr = r1->Ok_0;
                lemma_sound_store(m, none, bytes);
                assert(m1.inode(id) == m.inode(id));
                let new = Node { extent_addr: addr, mtime: now, ..dir };
                let l1 = none.push(addr);
                assert(l1[0] == addr);
                lemma_register_succeeds(m1, new);
                lemma_sound_point(m1, l1, 0, new);
                let m2 = m1.register(new, true).0;
                let l2 = l1.update(0, ext(m1, id));
                assert(l2[0] == dir.extent_addr);
                lemma_sound_free_unless(m2, l2, 0, addr);
            }
        }
    }
}

/// Directories whose new entries are stored can be made to point to them.
proof fn lemma_commit_transfer_succeeds(
    m: Image,
    from: Node,
    a: MaybeU64,
    to: Node,
    b: MaybeU64,
    now: u64,
)
    requires
        sound(m, seq![a, b]),
        live(m, from.inumber),
        from == node_of(m, from.inumber),
        live(m, to.inumber),
        to == node_of(m, to.inumber),
        from.inumber != to.inumber,
    ensures
        m.commit_transfer(from, a, to, b, now).1 is Ok,
{
    let p = from.inumber;
    let q = to.inumber;
    let l2 = seq![a, b];
    assert(node_ok(m, p) && node_ok(m, q));
    let nb = Node { extent_addr: b, mtime: now, ..to };
    lemma_register_succeeds(m, nb);
    lemma_sound_point(m, l2, 1, nb);
    let m3 = m.register(nb, true).0;
    let l3 = l2.update(1, ext(m, q));
    assert(l3[0] == a && l3[1] == to.extent_addr);
    assert(m3.inode(p) == m.inode(p));
    let na = Node { extent_addr: a, mtime: now, ..from };
    lemma_register_succeeds(m3, na);
    lemma_sound_point(m3, l3, 0, na);
    let m4 = m3.register(na, true).0;
    let l4 = l3.update(0, ext(m3, p));
    assert(l4[0] == from.extent_addr && l4[1] == to.extent_addr);
    lemma_sound_free_unless(m4, l4, 0, a);
    let m5 = m4.free_unless(from.extent_addr, a).0;
    let l5 = l4.remove(0);
    assert(l5[0] == to.extent_addr);
    lemma_sound_free_unless(m5, l5, 0, b);
}

/// Directories between which an entry cannot be transferred are left as they are.
proof fn lemma_transfer_fails(
    m: Image,
    from: Node,
    ea: Entries,
    src_name: Seq<char>,
    to: Node,
    eb: Entries,
    dst_name: Seq<char>,
    now: u64,
)
    requires
        sound(m, Seq::empty()),
        live(m, from.inumber),
        from == node_of(m, from.inumber),
        live(m, to.inumber),
        to == node_of(m, to.inumber),
        from.inumber != to.inumber,
        m.transfer(from, ea, src_name, to, eb, dst_name, now).1 is Err,
    ensures
        sound(m.transfer(from, ea, src_name, to, eb, dst_name, now).0, Seq::empty()),
        untouched(m, m.transfer(from, ea, src_name, to, eb, dst_name, now).0),
{
    let none = Seq::<MaybeU64>::empty();
    lemma_untouched_self(m);
    if entry_position(eb, dst_name) is None && last_entry(ea, src_name) is Some {
        let fa = without(ea, src_name);
        let fb = eb.push((dst_name, last_entry(ea, src_name)->0));
        if dir_bytes(fa) is Ok {
            let ba = dir_bytes(fa)->Ok_0;
            lemma_store_leaves(m, none, ba);
            let (m1, r1) = m.store(ba);
            if r1 is Ok && dir_bytes(fb) is Ok {
                let a = r1->Ok_0;
                let bb = dir_bytes(fb)->Ok_0;
                lemma_sound_store(m, none, ba);
                lemma_store_leaves(m1, none, bb);
                let (m2, r2) = m1.store(bb);
                lemma_untouched_trans(m, m1, m2);
                if r2 is Ok {
                    let b = r2->Ok_0;
                    lemma_sound_store(m1, none.push(a), bb);
                    assert(none.push(a).push(b) =~= seq![a, b]);
                    assert(live(m1, from.inumber) && live(m1, to.inumber));
                    assert(m2.inode(from.inumber) == m.inode(from.inumber));
                    assert(m2.inode(to.inumber) == m.inode(to.inumber));
                    lemma_commit_transfer_succeeds(m2, from, a, to, b, now);
                }
            }
        }
    }
}

/// A path that leads somewhere leads to the same inode when none was touched.
proof fn lemma_walk_untouched(m: Image, m2: Image, parts: Seq<Seq<char>>, k: nat)
    requires
        grounded(m),
        untouched(m, m2),
        m.walk(parts, k) is Ok,
    ensures
        m2.walk(parts, k) == m.walk(parts, k),
    decreases k,
{
    lemma_walk_live(m, parts, k);
    let n = m.walk(parts, k)->Ok_0.inumber;
    assert(live(m, n));
    assert(m2.inode(n) == m.inode(n));
    if k > 0 {
        lemma_walk_untouched(m, m2, parts, (k - 1) as nat);
        lemma_walk_live(m, parts, (k - 1) as nat);
        let d = m.walk(parts, (k - 1) as nat)->Ok_0.inumber;
        assert(live(m, d));
        assert(same_content(m, m2, ext(m, d)));
        let e = m.dir(ext(m, d))->Ok_0;
        lemma_good(m, d);
        lemma_position(e, parts[k - 1]);
        let i = entry_position(e, parts[k - 1])->0;
        assert(is_inode(m, e[i].1));
        assert(live(m, e[i].1));
        assert(m2.inode(e[i].1) == m.inode(e[i].1));
    }
}

/// Where no inode was touched the volume is still grounded, and paths and files are as before.
proof fn lemma_untouched_law(m: Image, m2: Image, other: Seq<char>)
    requires
        grounded(m),
        sound(m2, Seq::empty()),
        untouched(m, m2),
    ensures
        grounded(m2),
        m.lookup(other) is Ok ==> m2.lookup(other) == m.lookup(other),
        m.lookup(other) is Ok && m.lookup(other)->Ok_0.kind is File ==> m2.fread(other) == m.fread(
            other,
        ),
{
    assert(grounded(m2)) by {
        reveal(grounded);
        assert forall|n: u64| #[trigger] live(m2, n) && node_of(m2, n).kind is Directory && m2.dir(
            ext(m2, n),
        ) is Ok implies good_entries(m2, m2.dir(ext(m2, n))->Ok_0) by {
            let e = m2.dir(ext(m2, n))->Ok_0;
            if live(m, n) {
                assert(m2.inode(n) == m.inode(n));
                assert(same_content(m, m2, ext(m, n)));
                assert(good_entries(m, e));
            }
            assert forall|i: int| 0 <= i < e.len() implies is_inode(m2, (#[trigger] e[i]).1) by {
                assert(is_inode(m, e[i].1));
            }
        }
    }
    if m.lookup(other) is Ok {
        let to = components(other);
        lemma_walk_untouched(m, m2, to, to.len());
        lemma_walk_live(m, to, to.len());
        let n = m.lookup(other)->Ok_0.inumber;
        assert(live(m, n));
        assert(same_content(m, m2, ext(m, n)));
    }
}

/// A write that fails leaves the volume grounded and every file as it was: new data never goes
/// where data is.
pub proof fn failed_write_leaves_files_alone(
    m: Image,
    path: Seq<char>,
    data: Seq<u8>,
    kind: INodeKind,
    opt: WriteOption,
    now: u64,
    other: Seq<char>,
)
    requires
        grounded(m),
        m.parent(path) is Ok ==> m.parent(path)->Ok_0.0.kind is Directory,
        m.blob_write(path, data, kind, opt, now).1 is Err,
    ensures
        ({
            let m2 = m.blob_write(path, data, kind, opt, now).0;
            &&& grounded(m2)
            &&& untouched(m, m2)
            &&& m.lookup(other) is Ok ==> m2.lookup(other) == m.lookup(other)
            &&& m.lookup(other) is Ok && m.lookup(other)->Ok_0.kind is File ==> m2.fread(other)
                == m.fread(other)
        }),
{
    let m2 = m.blob_write(path, data, kind, opt, now).0;
    assert(sound(m, Seq::empty())) by {
        reveal(grounded);
    }
    lemma_untouched_self(m);
    assert(sound(m2, Seq::empty()) && untouched(m, m2)) by {
        if m.remaining() is Ok && data.len() < m.remaining()->Ok_0 && m.parent(path) is Ok && m.dir(
            m.parent(path)->Ok_0.0.extent_addr,
        ) is Ok {
            lemma_lookup_split(m, path);
            let parts = components(path);
            let (parent, name) = m.parent(path)->Ok_0;
            lemma_walk_live(m, parts, (parts.len() - 1) as nat);
            let e = m.dir(parent.extent_addr)->Ok_0;
            lemma_position(e, name);
            match entry_position(e, name) {
                Some(i) => {
                    lemma_good(m, parent.inumber);
                    assert(is_inode(m, e[i].1));
                    lemma_overwrite_fails(m, e[i].1, data, opt, now);
                },
                None => {
                    lemma_create_fails(m, parent, e, name, data, kind, now);
                },
            }
        }
    }
    lemma_untouched_law(m, m2, other);
}

/// An append that fails leaves the volume grounded and every file as it was.
pub proof fn failed_append_leaves_files_alone(
    m: Image,
    path: Seq<char>,
    data: Seq<u8>,
    t: u64,
    other: Seq<char>,
)
    requires
        grounded(m),
        m.lookup(path) is Ok ==> m.lookup(path)->Ok_0.kind is File || m.lookup(path)->Ok_0.kind
            is Directory,
        m.fappend(path, data, t).1 is Err,
    ensures
        ({
            let m2 = m.fappend(path, data, t).0;
            &&& grounded(m2)
            &&& untouched(m, m2)
            &&& m.lookup(other) is Ok ==> m2.lookup(other) == m.lookup(other)
            &&& m.lookup(other) is Ok && m.lookup(other)->Ok_0.kind is File ==> m2.fread(other)
                == m.fread(other)
        }),
{
    let m2 = m.fappend(path, data, t).0;
    assert(sound(m, Seq::empty())) by {
        reveal(grounded);
    }
    lemma_untouched_self(m);
    if m.lookup(path) is Ok {
        let parts = components(path);
        lemma_walk_live(m, parts, parts.len());
        lemma_append_fails(m, m.lookup(path)->Ok_0, data, t, m.disk.len());
    }
    lemma_untouched_law(m, m2, other);
}

/// A move that fails leaves the volume grounded, every entry where it was and every file as it was.
pub proof fn failed_move_changes_nothing(
    m: Image,
    src: Seq<char>,
    dest: Seq<char>,
    now: u64,
    other: Seq<char>,
)
    requires
        grounded(m),
        m.fmove(src, dest, now).1 is Err,
    ensures
        ({
            let m2 = m.fmove(src, dest, now).0;
            &&& grounded(m2)
            &&& untouched(m, m2)
            &&& m.lookup(other) is Ok ==> m2.lookup(other) == m.lookup(other)
            &&& m.lookup(other) is Ok && m.lookup(other)->Ok_0.kind is File ==> m2.fread(other)
                == m.fread(other)
        }),
{
    let m2 = m.fmove(src, dest, now).0;
    assert(sound(m, Seq::empty())) by {
        reveal(grounded);
    }
    lemma_untouched_self(m);
    assert(sound(m2, Seq::empty()) && untouched(m, m2)) by {
        if !path_starts_with(dest, src) && m.parent(src) is Ok && m.parent(dest) is Ok {
            lemma_lookup_split(m, src);
            lemma_lookup_split(m, dest);
            let sp = components(src);
            let dp = components(dest);
            let (from, src_name) = m.parent(src)->Ok_0;
            let (to, dst_name) = m.parent(dest)->Ok_0;
            lemma_walk_live(m, sp, (sp.len() - 1) as nat);
            lemma_walk_live(m, dp, (dp.len() - 1) as nat);
            if m.dir(from.extent_addr) is Ok {
                let ea = m.dir(from.extent_addr)->Ok_0;
                if from.inumber == to.inumber {
                    lemma_rename_fails(m, from, ea, src_name, dst_name, now);
                } else if m.dir(to.extent_addr) is Ok {
                    let eb = m.dir(to.extent_addr)->Ok_0;
                    lemma_transfer_fails(m, from, ea, src_name, to, eb, dst_name, now);
                }
            }
        }
    }
    lemma_untouched_law(m, m2, other);
}

/// Where no inode was touched every path leads where it led and files are kept.
proof fn lemma_untouched_extends(m: Image, m2: Image)
    requires
        grounded(m),
        untouched(m, m2),
    ensures
        extends(m, m2),
        files_kept(m, m2),
{
    reveal(extends);
    assert forall|n: u64| #[trigger] live(m, n) implies live(m2, n) && node_of(m2, n) == node_of(
        m,
        n,
    ) && same_content(m, m2, ext(m, n)) && m2.dir(ext(m2, n)) == m.dir(ext(m, n)) by {
        assert(m2.inode(n) == m.inode(n));
    }
    assert forall|n: u64|
        #[trigger] live(m, n) && node_of(m, n).kind is Directory && m.dir(
            ext(m, n),
        ) is Ok implies m2.dir(ext(m2, n)) is Ok && entries_extend(
        m.dir(ext(m, n))->Ok_0,
        m2.dir(ext(m2, n))->Ok_0,
    ) by {
        assert(m2.dir(ext(m2, n)) == m.dir(ext(m, n)));
    }
}

/// A directory that cannot be made in another leaves everything as it is.
proof fn lemma_make_dir_fails(m: Image, parent: Node, e: Entries, name: Seq<char>, now: u64)
    requires
        sound(m, Seq::empty()),
        live(m, parent.inumber),
        parent == node_of(m, parent.inumber),
    ensures
        ({
            let (m1, r1) = m.new_inode(parent.inumber, 0, maybe(0), INodeKind::Directory, now);
            let (m2, r2) = m1.replace_entries(parent, e.push((name, r1->Ok_0.inumber)), now);
            &&& r1 is Err ==> m1 == m
            &&& r1 is Ok && r2 is Err ==> sound(m2, Seq::empty()) && untouched(m, m2)
        }),
{
    let p = parent.inumber;
    let none = Seq::<MaybeU64>::empty();
    let (m1, r1) = m.new_inode(p, 0, maybe(0), INodeKind::Directory, now);
    if r1 is Err {
        lemma_new_inode_fails(m, p, 0, maybe(0), INodeKind::Directory, now);
    } else {
        lemma_sound_zero(m);
        lemma_sound_new_inode(m, none, p, 0, maybe(0), INodeKind::Directory, now);
        let id = r1->Ok_0.inumber;
        assert(m1.content(maybe(0)) == Ok::<Seq<u8>, XHFSError>(Seq::empty())) by {
            reveal(Image::content);
        }
        assert(m1.dir(maybe(0)) == Ok::<Entries, XHFSError>(Seq::empty()));
        assert(untouched(m, m1)) by {
            assert forall|n: u64| #[trigger] live(m, n) implies m1.inode(n) == m.inode(n)
                && same_content(m, m1, ext(m, n)) by {
                assert(node_ok(m, n));
            }
            assert forall|n: u64| #[trigger] live(m1, n) && !live(m, n) implies n == id by {
                if n != id {
                    assert(m1.inode(n) == m.inode(n));
                }
            }
        }
        assert(m1.inode(p) == m.inode(p));
        let f = e.push((name, id));
        let (m2, r2) = m1.replace_entries(parent, f, now);
        if r2 is Err {
            lemma_replace_entries_fails(m1, parent, f, now);
            lemma_untouched_trans(m, m1, m2);
        }
    }
}

/// Making directories from part `k` of a path on, until it fails.
#[verifier::spinoff_prover]
#[verifier::rlimit(60)]
proof fn lemma_mkdir_fails(
    m: Image,
    parts: Seq<Seq<char>>,
    k: int,
    node: Node,
    created: bool,
    recursive: bool,
    now: u64,
)
    requires
        grounded(m),
        0 <= k <= parts.len(),
        m.walk(parts, k as nat) == Ok::<_, XHFSError>(node),
        m.mkdir_from(parts, k, node, created, recursive, now).1 is Err,
    ensures
        ({
            let m2 = m.mkdir_from(parts, k, node, created, recursive, now).0;
            &&& grounded(m2)
            &&& same_volume(m, m2)
            &&& extends(m, m2)
            &&& files_kept(m, m2)
        }),
    decreases parts.len() - k,
{
    assert(sound(m, Seq::empty())) by {
        reveal(grounded);
    }
    lemma_untouched_self(m);
    lemma_untouched_extends(m, m);
    lemma_walk_live(m, parts, k as nat);
    if k < parts.len() && node.kind is Directory && m.dir(node.extent_addr) is Ok {
        let p = node.inumber;
        let e = m.dir(node.extent_addr)->Ok_0;
        let name = parts[k];
        lemma_position(e, name);
        match entry_position(e, name) {
            Some(i) => {
                if m.entry_inode(e[i].1) is Ok {
                    let next = m.entry_inode(e[i].1)->Ok_0;
                    assert(m.walk(parts, (k + 1) as nat) == Ok::<_, XHFSError>(next));
                    lemma_mkdir_fails(m, parts, k + 1, next, created, recursive, now);
                }
            },
            None => {
                if recursive || parts.len() <= 1 {
                    lemma_make_dir_fails(m, node, e, name, now);
                    let (m1, r1) = m.new_inode(p, 0, maybe(0), INodeKind::Directory, now);
                    if r1 is Ok {
                        let new = r1->Ok_0;
                        let (m2, r2) = m1.replace_entries(node, e.push((name, new.inumber)), now);
                        if r2 is Err {
                            lemma_untouched_extends(m, m2);
                            lemma_untouched_law(m, m2, name);
                        } else {
                            let id = lemma_make_dir(m, node, name, now);
                            lemma_walk_extends(m, m2, parts, k as nat);
                            lemma_entries_push(e, name, id);
                            assert(m2.walk(parts, (k + 1) as nat) == Ok::<_, XHFSError>(new));
                            lemma_mkdir_fails(m2, parts, k + 1, new, true, recursive, now);
                            let m3 = m.mkdir_from(parts, k, node, created, recursive, now).0;
                            lemma_extends_trans(m, m2, m3);
                            assert forall|n: u64| #[trigger]
                                live(m, n) && !(node_of(m, n).kind is Directory) implies live(m3, n)
                                && node_of(m3, n) == node_of(m, n) && same_content(
                                m,
                                m3,
                                ext(m, n),
                            ) by {
                                assert(live(m2, n) && node_of(m2, n) == node_of(m, n));
                                assert(same_content(m, m2, ext(m, n)));
                                assert(same_content(m2, m3, ext(m2, n)));
                            }
                        }
                    }
                }
            },
        }
    }
}

/// When directories cannot be made the volume stays grounded, every path still leads where it led,
/// and files keep their contents. Those of the directories that could be made are there.
pub proof fn failed_mkdir_leaves_files_alone(m: Image, path: Seq<char>, recursive: bool, now: u64)
    requires
        grounded(m),
        m.mkdir(path, recursive, now).1 is Err,
    ensures
        ({
            let m2 = m.mkdir(path, recursive, now).0;
            &&& grounded(m2)
            &&& same_volume(m, m2)
            &&& extends(m, m2)
            &&& files_kept(m, m2)
        }),
{
    assert(sound(m, Seq::empty())) by {
        reveal(grounded);
    }
    lemma_untouched_self(m);
    lemma_untouched_extends(m, m);
    if m.root() is Ok {
        lemma_mkdir_fails(m, components(path), 0, m.root()->Ok_0, false, recursive, now);
    }
}

} // verus!
