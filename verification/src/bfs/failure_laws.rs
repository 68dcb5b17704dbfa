//! What a write that fails leaves behind: every file is as it was.
use crate::addr::maybe;
use crate::bfs::image::{first_fit, shrunk, Brute, WriteOption};
use crate::bfs::laws::{lemma_first_fit, lemma_header, replaced_header_reads_back};
use crate::bfs::op_laws::{
    carries_on, lemma_inode_added, lemma_pointed, lemma_split, lemma_walk_carries,
    lemma_walk_known,
};
use crate::bfs::records::{INode, INodeKind, INODE_SIZE};
use crate::bfs::sound::{
    inode_fine, lemma_sound_less, lemma_sound_store, lemma_sound_take, owned, same_inode, seal,
    sound, start_of, stretch, ROOT_AT,
};
use crate::bfs::tree_laws::{brute_grounded, entries_of, listed, neat};
use crate::bfs::unlink_laws::lemma_sound_drop;
use crate::bfs::vector::{BruteHeader, Freed};
use crate::error::Fault;
use crate::utils::components;
use crate::xhfs::ds::dir_bytes;
use crate::xhfs::op_laws::lemma_position;
use crate::xhfs::tree::{entry_position, Entries};
use vstd::prelude::*;

verus! {

/// An allocation that is refused changes nothing.
pub proof fn brute_refused_allocation_changes_nothing(m: Brute, wanted: usize)
    requires
        m.header() is Ok,
        m.allocate(wanted).1 is Err,
    ensures
        m.allocate(wanted).0 == m,
{
    let h = m.header()->Ok_0;
    lemma_header(m);
    lemma_first_fit(h.freed.items, wanted as int, 0);
    match first_fit(h.freed.items, wanted as int, 0) {
        Some(k) => {
            let items = h.freed.items.update(k, shrunk(h.freed.items[k], wanted as int));
            replaced_header_reads_back(
                m,
                BruteHeader { freed: Freed { items, ..h.freed }, ..h },
            );
        },
        None => {
            let at = h.freed.global_offset;
            replaced_header_reads_back(
                m,
                BruteHeader {
                    freed: Freed { global_offset: (at + wanted) as u64, ..h.freed },
                    ..h
                },
            );
        },
    }
}

/// Every known inode is as it was, with its content.
pub open spec fn brute_untouched(m: Brute, m2: Brute, known: Set<u64>) -> bool {
    &&& m2.disk.len() == m.disk.len()
    &&& seal(m2) == seal(m)
    &&& forall|k: u64| #[trigger] known.contains(k) ==> same_inode(m, m2, k)
}

/// A store that fails leaves the inodes alone.
proof fn lemma_store_fails(m: Brute, known: Set<u64>, data: Seq<u8>)
    requires
        sound(m, known, Set::empty()),
        m.store(data).1 is Err,
    ensures
        sound(m.store(data).0, known, Set::empty()),
        brute_untouched(m, m.store(data).0, known),
{
    let none = Set::<int>::empty();
    if data.len() + 16 <= usize::MAX {
        let wanted = (data.len() + 16) as usize;
        let (m1, r1) = m.allocate(wanted);
        if r1 is Err {
            brute_refused_allocation_changes_nothing(m, wanted);
        } else {
            lemma_sound_take(m, known, none, wanted);
            lemma_sound_less(
                m1,
                known,
                none.union(stretch(r1->Ok_0 as int, wanted as int)),
                none,
            );
        }
    }
}

/// A new inode that cannot be made leaves the inodes alone.
proof fn lemma_new_inode_fails(m: Brute, known: Set<u64>, n: INode)
    requires
        sound(m, known, Set::empty()),
        m.new_inode(n).1 is Err,
    ensures
        sound(m.new_inode(n).0, known, Set::empty()),
        brute_untouched(m, m.new_inode(n).0, known),
{
    let none = Set::<int>::empty();
    let (m1, r1) = m.allocate(INODE_SIZE as usize);
    if r1 is Err {
        brute_refused_allocation_changes_nothing(m, INODE_SIZE as usize);
    } else {
        lemma_sound_take(m, known, none, INODE_SIZE as usize);
        lemma_sound_less(
            m1,
            known,
            none.union(stretch(r1->Ok_0 as int, INODE_SIZE as int)),
            none,
        );
    }
}

/// Data that is stored but not taken over leaves the inodes alone.
proof fn lemma_pointing_fails(
    m: Brute,
    known: Set<u64>,
    a: u64,
    n: INode,
    data: Seq<u8>,
    mtime: u64,
)
    requires
        sound(m, known, Set::empty()),
        known.contains(a),
        m.inode(a) == Ok::<_, Fault>(n),
        m.store(data).1 is Ok,
        m.store(data).0.point(a, n, m.store(data).1->Ok_0, mtime).1 is Err,
    ensures
        ({
            let m2 = m.store(data).0.point(a, n, m.store(data).1->Ok_0, mtime).0;
            &&& sound(m2, known, Set::empty())
            &&& brute_untouched(m, m2, known)
        }),
{
    let none = Set::<int>::empty();
    lemma_sound_store(m, known, none, data);
    let (m1, r1) = m.store(data);
    let new = r1->Ok_0;
    let got = none.union(stretch(new as int, data.len() as int + 16));
    assert(same_inode(m, m1, a));
    if m1.put_inode(a, INode { extent_addr: maybe(new), mtime, ..n }).1 is Ok {
        lemma_pointed(m1, known, got, a, n, new, data, mtime);
    }
    lemma_sound_less(m1, known, got, none);
}

/// Entries that cannot be replaced are left as they are.
proof fn lemma_replace_entries_fails(
    m: Brute,
    known: Set<u64>,
    a: u64,
    n: INode,
    e: Entries,
    mtime: u64,
)
    requires
        sound(m, known, Set::empty()),
        known.contains(a),
        m.inode(a) == Ok::<_, Fault>(n),
        m.replace_entries(a, n, e, mtime).1 is Err,
    ensures
        sound(m.replace_entries(a, n, e, mtime).0, known, Set::empty()),
        brute_untouched(m, m.replace_entries(a, n, e, mtime).0, known),
{
    if dir_bytes(e) is Ok {
        let data = dir_bytes(e)->Ok_0;
        if m.store(data).1 is Err {
            lemma_store_fails(m, known, data);
        } else {
            lemma_pointing_fails(m, known, a, n, data, mtime);
        }
    }
}

/// A file that cannot be replaced is left as it is.
proof fn lemma_overwrite_fails(
    m: Brute,
    known: Set<u64>,
    at: u64,
    data: Seq<u8>,
    opt: WriteOption,
    now: u64,
)
    requires
        sound(m, known, Set::empty()),
        known.contains(at),
        m.overwrite(at, data, opt, now).1 is Err,
    ensures
        sound(m.overwrite(at, data, opt, now).0, known, Set::empty()),
        brute_untouched(m, m.overwrite(at, data, opt, now).0, known),
{
    assert(inode_fine(m, at));
    if m.store(data).1 is Err {
        lemma_store_fails(m, known, data);
    } else {
        let n = m.inode(at)->Ok_0;
        let (m1, r1) = m.store(data);
        if m1.point(at, n, r1->Ok_0, now).1 is Err {
            lemma_pointing_fails(m, known, at, n, data, now);
        }
    }
}

/// An entry that cannot be made leaves everything as it is.
proof fn lemma_create_fails(
    m: Brute,
    known: Set<u64>,
    addr: u64,
    parent: INode,
    e: Entries,
    name: Seq<char>,
    data: Seq<u8>,
    is_symlink: bool,
    now: u64,
)
    requires
        sound(m, known, Set::empty()),
        known.contains(addr),
        m.inode(addr) == Ok::<_, Fault>(parent),
        m.create(addr, parent, e, name, data, is_symlink, now).1 is Err,
    ensures
        sound(m.create(addr, parent, e, name, data, is_symlink, now).0, known, Set::empty()),
        brute_untouched(m, m.create(addr, parent, e, name, data, is_symlink, now).0, known),
{
    let none = Set::<int>::empty();
    let (m1, r1) = m.store(data);
    if r1 is Err {
        lemma_store_fails(m, known, data);
    } else {
        let at = r1->Ok_0;
        lemma_sound_store(m, known, none, data);
        let got = none.union(stretch(at as int, data.len() as int + 16));
        let n = INode {
            kind: if is_symlink {
                INodeKind::Symlink
            } else {
                INodeKind::File
            },
            total_file_size: data.len() as u64,
            extent_addr: maybe(at),
            mtime: now,
            ctime: now,
        };
        let (m2, r2) = m1.new_inode(n);
        assert(same_inode(m, m1, addr));
        if r2 is Err {
            lemma_sound_less(m1, known, got, none);
            lemma_new_inode_fails(m1, known, n);
            assert forall|k: u64| #[trigger] known.contains(k) implies same_inode(m, m2, k) by {
                assert(same_inode(m, m1, k));
                assert(same_inode(m1, m2, k));
            }
        } else {
            lemma_inode_added(m1, known, got, n, at, data);
            let id = r2->Ok_0;
            let all = known.insert(id);
            assert(all.contains(id));
            assert(known.contains(ROOT_AT));
            lemma_sound_drop(m2, all, id);
            assert(all.remove(id) =~= known);
            lemma_sound_less(m2, known, Set::new(|x: int| owned(m2, id, x)), none);
            assert(same_inode(m1, m2, addr));
            lemma_replace_entries_fails(m2, known, addr, parent, e.push((name, id)), now);
            let m3 = m.create(addr, parent, e, name, data, is_symlink, now).0;
            assert forall|k: u64| #[trigger] known.contains(k) implies same_inode(m, m3, k) by {
                assert(same_inode(m, m1, k));
                assert(same_inode(m1, m2, k));
                assert(same_inode(m2, m3, k));
            }
        }
    }
}

/// A write that fails leaves the volume as sound as it was, and every file as it was.
pub proof fn brute_failed_write_leaves_files_alone(
    m: Brute,
    known: Set<u64>,
    path: Seq<char>,
    data: Seq<u8>,
    is_symlink: bool,
    opt: WriteOption,
    now: u64,
    other: Seq<char>,
)
    requires
        brute_grounded(m, known),
        m.parent(path) is Ok ==> m.parent(path)->Ok_0.0.1.kind is Directory,
        m.blob_write(path, data, is_symlink, opt, now).1 is Err,
    ensures
        ({
            let m2 = m.blob_write(path, data, is_symlink, opt, now).0;
            &&& brute_grounded(m2, known)
            &&& brute_untouched(m, m2, known)
            &&& m.lookup(other) is Ok ==> m2.lookup(other) == m.lookup(other)
            &&& m.lookup(other) is Ok && m.lookup(other)->Ok_0.1.kind is File ==> m2.fread(other)
                == m.fread(other)
        }),
{
    let m2 = m.blob_write(path, data, is_symlink, opt, now).0;
    reveal(brute_grounded);
    assert(sound(m2, known, Set::empty()) && brute_untouched(m, m2, known)) by {
        if m.parent(path) is Ok && m.dir(m.parent(path)->Ok_0.0.1.extent_addr) is Ok {
            lemma_split(m, path);
            let parts = components(path);
            let ((addr, parent), name) = m.parent(path)->Ok_0;
            lemma_walk_known(m, known, parts, (parts.len() - 1) as nat);
            let e = m.dir(parent.extent_addr)->Ok_0;
            assert(listed(m, known, addr));
            lemma_position(e, name);
            match entry_position(e, name) {
                Some(i) => {
                    assert(known.contains(entries_of(m, addr)[i].1));
                    lemma_overwrite_fails(m, known, e[i].1, data, opt, now);
                },
                None => {
                    lemma_create_fails(m, known, addr, parent, e, name, data, is_symlink, now);
                },
            }
        }
    }
    assert(neat(m2, known)) by {
        assert forall|k: u64| #[trigger] listed(m2, known, k) implies listed(m, known, k)
            && entries_of(m2, k) == entries_of(m, k) by {
            assert(same_inode(m, m2, k));
        }
    }
    if m.lookup(other) is Ok {
        let to = components(other);
        assert(carries_on(m, m2, known)) by {
            assert forall|k: u64| #[trigger] known.contains(k) implies m2.inode(k) == m.inode(k)
                && m.inode(k) is Ok && m2.dir(start_of(m2, k)) == m.dir(start_of(m, k)) by {
                assert(same_inode(m, m2, k));
                assert(inode_fine(m, k));
            }
        }
        lemma_walk_known(m, known, to, to.len());
        lemma_walk_carries(m, m2, known, to, to.len());
        let (at, n) = m.lookup(other)->Ok_0;
        assert(same_inode(m, m2, at));
        if n.kind is File {
            assert(m.target(other, m.disk.len()) == Ok::<_, Fault>(n));
            assert(m2.target(other, m2.disk.len()) == Ok::<_, Fault>(n));
        }
    }
}

} // verus!
