//! What the operations on files promise.
use crate::addr::maybe;
use crate::bfs::files::lemma_walk_prefix;
use crate::bfs::image::{
    brute_formatted, brute_fresh_header, brute_mounted, Brute, WriteOption, BRUTE_HEADER_SIZE,
    SLOT_COUNT,
};
use crate::bfs::records::{inode_round_trip, node_bytes, INode, INodeKind, INODE_SIZE};
use crate::bfs::sound::{
    held, in_chain, in_content, in_extent, in_inode, inode_fine, lemma_loose_same, lemma_put_frame,
    lemma_put_inode, lemma_sound_adopt, lemma_sound_free, lemma_sound_less, lemma_sound_point,
    lemma_sound_put, lemma_sound_store, lemma_sound_take, owned, same_inode, seal, sound, start_of,
    stored, stretch, ROOT_AT,
};
use crate::bfs::tree_laws::{
    brute_grounded, entries_of, lemma_neat_file, lemma_neat_push, listed, neat,
};
use crate::bfs::vector::{
    brute_bytes, brute_header_round_trip, hold_count, is_freed, lemma_count_freed, lemma_rows_len,
    no_slot,
};
use crate::codec::lemma_le64;
use crate::crypto::{Cipher, KeyDerivation};
use crate::device::disk::disk_raw_write_read;
use crate::error::Fault;
use crate::utils::components;
use crate::xhfs::ds::{dir_bytes, directory_round_trip};
use crate::xhfs::op_laws::{entries_extend, lemma_dir_len, lemma_entries_push, lemma_position};
use crate::xhfs::mount::cipher_for;
use crate::xhfs::tree::{entry_position, Entries};
use vstd::prelude::*;

verus! {

/// Every known inode is still there, of the same kind, and every directory still has its entries.
pub open spec fn carries_on(a: Brute, b: Brute, known: Set<u64>) -> bool {
    forall|n: u64| #[trigger] known.contains(n) ==> {
        &&& b.inode(n) is Ok
        &&& b.inode(n)->Ok_0.kind == a.inode(n)->Ok_0.kind
        &&& a.inode(n)->Ok_0.kind is Directory && a.dir(start_of(a, n)) is Ok ==> b.dir(
            start_of(b, n),
        ) is Ok && entries_extend(a.dir(start_of(a, n))->Ok_0, b.dir(start_of(b, n))->Ok_0)
    }
}

/// A path leads to known inodes.
pub proof fn lemma_walk_known(m: Brute, known: Set<u64>, parts: Seq<Seq<char>>, k: nat)
    requires
        brute_grounded(m, known),
        k <= parts.len(),
        m.walk(parts, k) is Ok,
    ensures
        known.contains(m.walk(parts, k)->Ok_0.0),
        m.inode(m.walk(parts, k)->Ok_0.0) == Ok::<_, Fault>(m.walk(parts, k)->Ok_0.1),
    decreases k,
{
    reveal(brute_grounded);
    if k > 0 {
        lemma_walk_known(m, known, parts, (k - 1) as nat);
        let (at, n) = m.walk(parts, (k - 1) as nat)->Ok_0;
        assert(listed(m, known, at));
        let e = entries_of(m, at);
        lemma_position(e, parts[k - 1]);
        let i = entry_position(e, parts[k - 1])->0;
        assert(known.contains(e[i].1));
    }
}

/// A path that leads somewhere leads there still.
pub proof fn lemma_walk_carries(a: Brute, b: Brute, known: Set<u64>, parts: Seq<Seq<char>>, k: nat)
    requires
        brute_grounded(a, known),
        carries_on(a, b, known),
        k <= parts.len(),
        a.walk(parts, k) is Ok,
    ensures
        b.walk(parts, k) == Ok::<_, Fault>(
            (a.walk(parts, k)->Ok_0.0, b.inode(a.walk(parts, k)->Ok_0.0)->Ok_0),
        ),
    decreases k,
{
    assert(known.contains(ROOT_AT)) by {
        reveal(brute_grounded);
    }
    if k > 0 {
        lemma_walk_carries(a, b, known, parts, (k - 1) as nat);
        lemma_walk_known(a, known, parts, (k - 1) as nat);
        lemma_walk_known(a, known, parts, k);
        let at = a.walk(parts, (k - 1) as nat)->Ok_0.0;
        let e = a.dir(start_of(a, at))->Ok_0;
        assert(entry_position(e, parts[k - 1]) is Some);
    }
}

/// What is at a path is what its parent has under its name.
pub proof fn lemma_split(m: Brute, path: Seq<char>)
    requires
        m.parent(path) is Ok,
    ensures
        ({
            let ((at, n), name) = m.parent(path)->Ok_0;
            let parts = components(path);
            &&& parts.len() > 0
            &&& name == parts.last()
            &&& m.walk(parts, (parts.len() - 1) as nat) == Ok::<_, Fault>((at, n))
            &&& m.lookup(path) == m.child(n, name, parts.len() - 1)
        }),
{
    let parts = components(path);
    lemma_walk_prefix(m, parts, parts.drop_last(), (parts.len() - 1) as nat);
}

/// Letting an inode point to stored data and freeing what it had before.
pub proof fn lemma_pointed(
    m: Brute,
    known: Set<u64>,
    loose: Set<int>,
    a: u64,
    n: INode,
    new: u64,
    data: Seq<u8>,
    mtime: u64,
)
    requires
        sound(m, known, loose),
        known.contains(a),
        m.inode(a) == Ok::<_, Fault>(n),
        stored(m, new, data),
        forall|x: int| in_extent(new, data.len() as int, x) ==> #[trigger] loose.contains(x),
        m.put_inode(a, INode { extent_addr: maybe(new), mtime, ..n }).1 is Ok,
    ensures
        m.point(a, n, new, mtime).1 is Ok,
        ({
            let m2 = m.point(a, n, new, mtime).0;
            &&& sound(m2, known, Set::empty())
            &&& m2.inode(a) == Ok::<_, Fault>(INode { extent_addr: maybe(new), mtime, ..n })
            &&& m2.content(maybe(new)) == Ok::<_, Fault>(data)
            &&& m2.disk.len() == m.disk.len()
            &&& seal(m2) == seal(m)
            &&& forall|k: u64| #[trigger] known.contains(k) && k != a ==> same_inode(m, m2, k)
        }),
{
    let n2 = INode { extent_addr: maybe(new), mtime, ..n };
    assert forall|x: int| #[trigger] in_content(m, n2.extent_addr, x) implies loose.contains(x) by {
        assert(in_extent(new, data.len() as int, x));
    }
    lemma_sound_point(m, known, loose, a, n2);
    let m1 = m.put_inode(a, n2).0;
    let old = start_of(m, a);
    let gone = Set::new(
        |x: int|
            in_content(m1, old, x) || loose.contains(x) && !in_content(m, n2.extent_addr, x),
    );
    let m2 = m.point(a, n, new, mtime).0;
    assert forall|x: int| #[trigger] in_chain(
        m1,
        old,
        m1.disk.len(),
        x,
    ) implies gone.contains(x) by {
        assert(in_content(m1, old, x));
    }
    assert(inode_fine(m, a));
    lemma_sound_free(m1, known, gone, old, m1.disk.len());
    lemma_sound_less(
        m2,
        known,
        gone.difference(Set::new(|x: int| in_chain(m1, old, m1.disk.len(), x))),
        Set::empty(),
    );
    assert forall|k: u64| #[trigger] known.contains(k) && k != a implies same_inode(m, m2, k) by {
        assert(same_inode(m, m1, k));
        assert(same_inode(m1, m2, k));
    }
    assert(same_inode(m1, m2, a));
}

/// Replacing the content of a file.
pub proof fn lemma_overwritten(
    m: Brute,
    known: Set<u64>,
    at: u64,
    data: Seq<u8>,
    opt: WriteOption,
    now: u64,
)
    requires
        sound(m, known, Set::empty()),
        known.contains(at),
        m.overwrite(at, data, opt, now).1 is Ok,
    ensures
        ({
            let m2 = m.overwrite(at, data, opt, now).0;
            let n = m.inode(at)->Ok_0;
            &&& opt.overwrite
            &&& !(n.kind is Directory)
            &&& sound(m2, known, Set::empty())
            &&& m2.inode(at) == Ok::<_, Fault>(
                INode { extent_addr: start_of(m2, at), mtime: now, ..n },
            )
            &&& m2.content(start_of(m2, at)) == Ok::<_, Fault>(data)
            &&& m2.disk.len() == m.disk.len()
            &&& seal(m2) == seal(m)
            &&& forall|k: u64| #[trigger] known.contains(k) && k != at ==> same_inode(m, m2, k)
        }),
{
    let n = m.inode(at)->Ok_0;
    let none = Set::<int>::empty();
    lemma_sound_store(m, known, none, data);
    let (m1, r1) = m.store(data);
    let new = r1->Ok_0;
    let got = none.union(stretch(new as int, data.len() as int + 16));
    assert(same_inode(m, m1, at));
    lemma_pointed(m1, known, got, at, n, new, data, now);
    let m2 = m.overwrite(at, data, opt, now).0;
    assert forall|k: u64| #[trigger] known.contains(k) && k != at implies same_inode(m, m2, k) by {
        assert(same_inode(m, m1, k));
        assert(same_inode(m1, m2, k));
    }
}

/// Replacing the entries of a directory.
pub proof fn lemma_entries_replaced(m: Brute, known: Set<u64>, a: u64, n: INode, e: Entries, mtime: u64)
    requires
        sound(m, known, Set::empty()),
        known.contains(a),
        m.inode(a) == Ok::<_, Fault>(n),
        m.replace_entries(a, n, e, mtime).1 is Ok,
    ensures
        ({
            let m2 = m.replace_entries(a, n, e, mtime).0;
            &&& sound(m2, known, Set::empty())
            &&& m2.inode(a) == Ok::<_, Fault>(
                INode { extent_addr: start_of(m2, a), mtime, ..n },
            )
            &&& m2.dir(start_of(m2, a)) == Ok::<_, Fault>(e)
            &&& m2.disk.len() == m.disk.len()
            &&& seal(m2) == seal(m)
            &&& forall|k: u64| #[trigger] known.contains(k) && k != a ==> same_inode(m, m2, k)
        }),
{
    let none = Set::<int>::empty();
    let data = dir_bytes(e)->Ok_0;
    lemma_dir_len(e);
    directory_round_trip(e);
    lemma_sound_store(m, known, none, data);
    let (m1, r1) = m.store(data);
    let new = r1->Ok_0;
    let got = none.union(stretch(new as int, data.len() as int + 16));
    assert(same_inode(m, m1, a));
    lemma_pointed(m1, known, got, a, n, new, data, mtime);
    let m2 = m.replace_entries(a, n, e, mtime).0;
    assert forall|k: u64| #[trigger] known.contains(k) && k != a implies same_inode(m, m2, k) by {
        assert(same_inode(m, m1, k));
        assert(same_inode(m1, m2, k));
    }
}

/// A new inode for data that was stored.
pub proof fn lemma_inode_added(
    m: Brute,
    known: Set<u64>,
    loose: Set<int>,
    n: INode,
    at: u64,
    data: Seq<u8>,
)
    requires
        sound(m, known, loose),
        stored(m, at, data),
        n.extent_addr == maybe(at),
        !(n.kind is Directory),
        forall|x: int| in_extent(at, data.len() as int, x) ==> #[trigger] loose.contains(x),
        m.new_inode(n).1 is Ok,
    ensures
        ({
            let (m2, r) = m.new_inode(n);
            let id = r->Ok_0;
            &&& !known.contains(id)
            &&& sound(m2, known.insert(id), Set::empty())
            &&& m2.inode(id) == Ok::<_, Fault>(n)
            &&& m2.content(maybe(at)) == Ok::<_, Fault>(data)
            &&& m2.disk.len() == m.disk.len()
            &&& seal(m2) == seal(m)
            &&& forall|k: u64| #[trigger] known.contains(k) ==> same_inode(m, m2, k)
        }),
{
    let (m1, r1) = m.allocate(INODE_SIZE as usize);
    let id = r1->Ok_0;
    let got = stretch(id as int, 33);
    lemma_sound_take(m, known, loose, INODE_SIZE as usize);
    let all = loose.union(got);
    inode_round_trip(n);
    let bytes = node_bytes(n);
    assert forall|x: int| id <= x < id + bytes.len() implies #[trigger] all.contains(x) by {
        assert(got.contains(x));
    }
    lemma_sound_put(m1, known, all, id, bytes);
    lemma_put_frame(m1, id as int, bytes);
    let m2 = m.new_inode(n).0;
    lemma_put_inode(m1, id, n);
    assert forall|x: int| #[trigger] in_content(m, maybe(at), x) implies m.disk[x]
        == m2.disk[x] by {
        assert(in_extent(at, data.len() as int, x));
        assert(loose.contains(x));
        assert(held(m, x));
        if got.contains(x) {
            assert(!loose.contains(x));
        }
    }
    lemma_loose_same(m, m2, maybe(at));
    if known.contains(id) {
        assert(in_inode(id, id as int));
        assert(got.contains(id as int));
        assert(all.contains(id as int));
        assert(owned(m2, id, id as int));
    }
    assert forall|x: int| in_inode(id, x) implies !#[trigger] in_content(m2, maybe(at), x) by {
        if in_content(m2, maybe(at), x) {
            assert(in_content(m, maybe(at), x));
            assert(in_extent(at, data.len() as int, x));
            assert(got.contains(x));
            assert(loose.contains(x));
        }
    }
    assert(inode_fine(m2, id));
    assert forall|x: int| #[trigger] owned(m2, id, x) implies all.contains(x) by {
        if in_inode(id, x) {
            assert(got.contains(x));
        } else {
            assert(in_content(m, maybe(at), x));
            assert(in_extent(at, data.len() as int, x));
        }
    }
    lemma_sound_adopt(m2, known, all, id);
    lemma_sound_less(
        m2,
        known.insert(id),
        all.difference(Set::new(|x: int| owned(m2, id, x))),
        Set::empty(),
    );
    assert forall|k: u64| #[trigger] known.contains(k) implies same_inode(m, m2, k) by {
        assert(same_inode(m, m1, k));
        assert(same_inode(m1, m2, k));
    }
}

/// What a write leaves behind: an inode of the kind with the data at the path, and all else as it
/// was.
pub open spec fn brute_written(
    m: Brute,
    m2: Brute,
    known: Set<u64>,
    id: u64,
    path: Seq<char>,
    data: Seq<u8>,
) -> bool {
    &&& brute_grounded(m2, known.insert(id))
    &&& carries_on(m, m2, known)
    &&& m2.disk.len() == m.disk.len()
    &&& seal(m2) == seal(m)
    &&& m2.lookup(path) is Ok
    &&& m2.lookup(path)->Ok_0.0 == id
    &&& m2.inode(id) == Ok::<_, Fault>(m2.lookup(path)->Ok_0.1)
    &&& m2.content(m2.lookup(path)->Ok_0.1.extent_addr) == Ok::<_, Fault>(data)
    &&& forall|k: u64|
        #[trigger] known.contains(k) && k != id && !(m.inode(k)->Ok_0.kind is Directory)
            ==> same_inode(m, m2, k)
}

/// A write over a file that is there.
pub proof fn lemma_written_over(
    m: Brute,
    known: Set<u64>,
    path: Seq<char>,
    data: Seq<u8>,
    is_symlink: bool,
    opt: WriteOption,
    now: u64,
)
    requires
        brute_grounded(m, known),
        m.blob_write(path, data, is_symlink, opt, now).1 is Ok,
        m.parent(path)->Ok_0.0.1.kind is Directory,
        m.lookup(path) is Ok,
    ensures
        known.contains(m.lookup(path)->Ok_0.0),
        brute_written(
            m,
            m.blob_write(path, data, is_symlink, opt, now).0,
            known,
            m.lookup(path)->Ok_0.0,
            path,
            data,
        ),
        ({
            let m2 = m.blob_write(path, data, is_symlink, opt, now).0;
            let (at, n) = m.lookup(path)->Ok_0;
            &&& opt.overwrite
            &&& !(n.kind is Directory)
            &&& m2.lookup(path)->Ok_0.1 == INode { extent_addr: start_of(m2, at), mtime: now, ..n }
            &&& forall|k: u64| #[trigger] known.contains(k) && k != at ==> same_inode(m, m2, k)
        }),
{
    reveal(brute_grounded);
    lemma_split(m, path);
    let parts = components(path);
    let ((addr, parent), name) = m.parent(path)->Ok_0;
    let e = m.dir(parent.extent_addr)->Ok_0;
    let i = entry_position(e, name)->0;
    let at = e[i].1;
    let m2 = m.blob_write(path, data, is_symlink, opt, now).0;
    lemma_walk_known(m, known, parts, parts.len());
    lemma_overwritten(m, known, at, data, opt, now);
    assert(known.insert(at) =~= known);
    assert forall|n: u64| #[trigger] known.contains(n) implies ({
        &&& m2.inode(n) is Ok
        &&& m2.inode(n)->Ok_0.kind == m.inode(n)->Ok_0.kind
        &&& m.inode(n)->Ok_0.kind is Directory && m.dir(start_of(m, n)) is Ok ==> m2.dir(
            start_of(m2, n),
        ) is Ok && entries_extend(m.dir(start_of(m, n))->Ok_0, m2.dir(start_of(m2, n))->Ok_0)
    }) by {
        assert(inode_fine(m, n));
        if n != at {
            assert(same_inode(m, m2, n));
        }
    }
    lemma_walk_carries(m, m2, known, parts, parts.len());
    lemma_neat_file(m, m2, known, at);
}

/// The inode of a new file or link.
pub open spec fn fresh_blob(is_symlink: bool, size: nat, at: u64, now: u64) -> INode {
    INode {
        kind: if is_symlink {
            INodeKind::Symlink
        } else {
            INodeKind::File
        },
        total_file_size: size as u64,
        extent_addr: maybe(at),
        mtime: now,
        ctime: now,
    }
}

/// A new file or link is entered into a directory.
proof fn lemma_created(
    m: Brute,
    known: Set<u64>,
    addr: u64,
    parent: INode,
    e: Entries,
    name: Seq<char>,
    data: Seq<u8>,
    is_symlink: bool,
    now: u64,
) -> (id: u64)
    requires
        brute_grounded(m, known),
        known.contains(addr),
        m.inode(addr) == Ok::<_, Fault>(parent),
        parent.kind is Directory,
        m.dir(parent.extent_addr) == Ok::<_, Fault>(e),
        entry_position(e, name) is None,
        m.create(addr, parent, e, name, data, is_symlink, now).1 is Ok,
    ensures
        ({
            let m2 = m.create(addr, parent, e, name, data, is_symlink, now).0;
            &&& !known.contains(id)
            &&& brute_grounded(m2, known.insert(id))
            &&& m2.disk.len() == m.disk.len()
            &&& seal(m2) == seal(m)
            &&& m2.inode(id) == Ok::<_, Fault>(
                fresh_blob(is_symlink, data.len(), start_of(m2, id).raw, now),
            )
            &&& m2.content(start_of(m2, id)) == Ok::<_, Fault>(data)
            &&& m2.inode(addr) == Ok::<_, Fault>(
                INode { extent_addr: start_of(m2, addr), mtime: now, ..parent },
            )
            &&& m2.dir(start_of(m2, addr)) == Ok::<_, Fault>(e.push((name, id)))
            &&& forall|k: u64| #[trigger] known.contains(k) && k != addr ==> same_inode(m, m2, k)
        }),
{
    reveal(brute_grounded);
    let none = Set::<int>::empty();
    lemma_sound_store(m, known, none, data);
    let (m1, r1) = m.store(data);
    let at = r1->Ok_0;
    let got = none.union(stretch(at as int, data.len() as int + 16));
    let n = fresh_blob(is_symlink, data.len(), at, now);
    lemma_inode_added(m1, known, got, n, at, data);
    let (m2, r2) = m1.new_inode(n);
    let id = r2->Ok_0;
    let all = known.insert(id);
    let f = e.push((name, id));
    assert(same_inode(m, m1, addr));
    assert(same_inode(m1, m2, addr));
    lemma_entries_replaced(m2, all, addr, parent, f, now);
    let m3 = m.create(addr, parent, e, name, data, is_symlink, now).0;
    assert(all.contains(id));
    assert(same_inode(m2, m3, id));
    assert forall|k: u64| #[trigger] known.contains(k) && k != addr implies same_inode(m, m3, k) by {
        assert(same_inode(m, m1, k));
        assert(same_inode(m1, m2, k));
        assert(all.contains(k));
        assert(same_inode(m2, m3, k));
    }
    assert(listed(m, known, addr));
    lemma_neat_push(m, m3, known, addr, name, id);
    id
}

/// A write that makes a new entry.
pub proof fn lemma_written_new(
    m: Brute,
    known: Set<u64>,
    path: Seq<char>,
    data: Seq<u8>,
    is_symlink: bool,
    opt: WriteOption,
    now: u64,
) -> (id: u64)
    requires
        brute_grounded(m, known),
        m.blob_write(path, data, is_symlink, opt, now).1 is Ok,
        m.parent(path)->Ok_0.0.1.kind is Directory,
        m.lookup(path) is Err,
    ensures
        !known.contains(id),
        brute_written(m, m.blob_write(path, data, is_symlink, opt, now).0, known, id, path, data),
        ({
            let m2 = m.blob_write(path, data, is_symlink, opt, now).0;
            let ((addr, parent), name) = m.parent(path)->Ok_0;
            &&& known.contains(addr)
            &&& m2.lookup(path)->Ok_0.1 == fresh_blob(
                is_symlink,
                data.len(),
                start_of(m2, id).raw,
                now,
            )
            &&& m2.inode(addr) == Ok::<_, Fault>(
                INode { extent_addr: start_of(m2, addr), mtime: now, ..parent },
            )
            &&& m.dir(parent.extent_addr) is Ok
            &&& m2.dir(start_of(m2, addr)) == Ok::<_, Fault>(
                m.dir(parent.extent_addr)->Ok_0.push((name, id)),
            )
            &&& forall|k: u64| #[trigger] known.contains(k) && k != addr ==> same_inode(m, m2, k)
        }),
{
    lemma_split(m, path);
    let none = Set::<int>::empty();
    let parts = components(path);
    let ((addr, parent), name) = m.parent(path)->Ok_0;
    let e = m.dir(parent.extent_addr)->Ok_0;
    reveal(brute_grounded);
    lemma_walk_known(m, known, parts, (parts.len() - 1) as nat);
    assert(listed(m, known, addr));
    match entry_position(e, name) {
        Some(i) => {
            lemma_position(e, name);
            assert(known.contains(entries_of(m, addr)[i].1));
            assert(inode_fine(m, e[i].1));
        },
        None => {},
    }
    let id = lemma_created(m, known, addr, parent, e, name, data, is_symlink, now);
    let m3 = m.blob_write(path, data, is_symlink, opt, now).0;
    lemma_entries_push(e, name, id);
    assert forall|k: u64| #[trigger] known.contains(k) implies ({
        &&& m3.inode(k) is Ok
        &&& m3.inode(k)->Ok_0.kind == m.inode(k)->Ok_0.kind
        &&& m.inode(k)->Ok_0.kind is Directory && m.dir(start_of(m, k)) is Ok ==> m3.dir(
            start_of(m3, k),
        ) is Ok && entries_extend(m.dir(start_of(m, k))->Ok_0, m3.dir(start_of(m3, k))->Ok_0)
    }) by {
        assert(inode_fine(m, k));
        if k != addr {
            assert(same_inode(m, m3, k));
        }
    }
    lemma_walk_carries(m, m3, known, parts, (parts.len() - 1) as nat);
    id
}

/// The parent of the path is a directory, and what is at the path, if anything, is no symbolic
/// link.
pub open spec fn brute_writable(m: Brute, path: Seq<char>) -> bool {
    &&& m.parent(path) is Ok ==> m.parent(path)->Ok_0.0.1.kind is Directory
    &&& m.lookup(path) is Ok ==> !(m.lookup(path)->Ok_0.1.kind is Symlink)
}

/// A write that succeeds does what `brute_written` says.
pub proof fn lemma_written(
    m: Brute,
    known: Set<u64>,
    path: Seq<char>,
    data: Seq<u8>,
    is_symlink: bool,
    opt: WriteOption,
    now: u64,
) -> (id: u64)
    requires
        brute_grounded(m, known),
        m.parent(path) is Ok ==> m.parent(path)->Ok_0.0.1.kind is Directory,
        m.blob_write(path, data, is_symlink, opt, now).1 is Ok,
    ensures
        brute_written(m, m.blob_write(path, data, is_symlink, opt, now).0, known, id, path, data),
        m.lookup(path) is Ok ==> id == m.lookup(path)->Ok_0.0,
        m.lookup(path) is Err ==> !known.contains(id),
        m.blob_write(path, data, is_symlink, opt, now).0.lookup(path)->Ok_0.1.kind == (
        match m.lookup(path) {
            Ok(x) => x.1.kind,
            Err(_) => if is_symlink {
                INodeKind::Symlink
            } else {
                INodeKind::File
            },
        }),
{
    if m.lookup(path) is Ok {
        lemma_written_over(m, known, path, data, is_symlink, opt, now);
        m.lookup(path)->Ok_0.0
    } else {
        lemma_written_new(m, known, path, data, is_symlink, opt, now)
    }
}

/// What is written to a file is read back from it, and the volume stays sound.
pub proof fn brute_file_reads_back(
    m: Brute,
    known: Set<u64>,
    path: Seq<char>,
    data: Seq<u8>,
    opt: WriteOption,
    now: u64,
)
    requires
        brute_grounded(m, known),
        brute_writable(m, path),
        m.blob_write(path, data, false, opt, now).1 is Ok,
    ensures
        m.blob_write(path, data, false, opt, now).0.fread(path) == Ok::<_, Fault>(data),
        exists|id: u64| #[trigger]
            brute_grounded(m.blob_write(path, data, false, opt, now).0, known.insert(id)),
        seal(m.blob_write(path, data, false, opt, now).0) == seal(m),
{
    let id = lemma_written(m, known, path, data, false, opt, now);
    let m2 = m.blob_write(path, data, false, opt, now).0;
    assert(brute_grounded(m2, known.insert(id)));
    let n = m2.lookup(path)->Ok_0.1;
    assert(!(n.kind is Directory)) by {
        if m.lookup(path) is Ok {
            reveal(brute_grounded);
            lemma_split(m, path);
            let (at, old) = m.lookup(path)->Ok_0;
            let parts = components(path);
            lemma_walk_known(m, known, parts, parts.len());
            lemma_overwritten(m, known, at, data, opt, now);
        }
    }
    assert(m2.target(path, m2.disk.len()) == Ok::<_, Fault>(n));
}

/// A file keeps its content when something is written to another path.
pub proof fn brute_other_files_keep_their_content(
    m: Brute,
    known: Set<u64>,
    path: Seq<char>,
    data: Seq<u8>,
    is_symlink: bool,
    opt: WriteOption,
    now: u64,
    other: Seq<char>,
)
    requires
        brute_grounded(m, known),
        m.parent(path) is Ok ==> m.parent(path)->Ok_0.0.1.kind is Directory,
        m.blob_write(path, data, is_symlink, opt, now).1 is Ok,
        m.lookup(other) is Ok,
        m.lookup(other)->Ok_0.1.kind is File,
        m.lookup(path) is Ok ==> m.lookup(path)->Ok_0.0 != m.lookup(other)->Ok_0.0,
    ensures
        m.blob_write(path, data, is_symlink, opt, now).0.lookup(other) == m.lookup(other),
        m.blob_write(path, data, is_symlink, opt, now).0.fread(other) == m.fread(other),
{
    reveal(brute_grounded);
    let none = Set::<int>::empty();
    let id = lemma_written(m, known, path, data, is_symlink, opt, now);
    let m2 = m.blob_write(path, data, is_symlink, opt, now).0;
    let parts = components(other);
    lemma_walk_known(m, known, parts, parts.len());
    lemma_walk_carries(m, m2, known, parts, parts.len());
    let (at, n) = m.lookup(other)->Ok_0;
    assert(known.contains(at));
    assert(at != id);
    assert(same_inode(m, m2, at));
    assert(m.target(other, m.disk.len()) == Ok::<_, Fault>(n));
    assert(m2.target(other, m2.disk.len()) == Ok::<_, Fault>(n));
}

/// A copy of a file has the content of the file.
pub proof fn brute_copy_has_same_content(
    m: Brute,
    known: Set<u64>,
    src: Seq<char>,
    dest: Seq<char>,
    opt: WriteOption,
    now: u64,
)
    requires
        brute_grounded(m, known),
        brute_writable(m, dest),
        m.fcopy(src, dest, opt, now).1 is Ok,
    ensures
        m.fread(src) is Ok,
        m.fcopy(src, dest, opt, now).0.fread(dest) == m.fread(src),
{
    brute_file_reads_back(m, known, dest, m.fread(src)->Ok_0, opt, now);
}

/// Empty slots hold no address.
proof fn lemma_empty_slots(n: nat, x: int)
    ensures
        hold_count(Seq::new(n, |i: int| no_slot()), x) == 0,
    decreases n,
{
    let s = Seq::new(n, |i: int| no_slot());
    if n > 0 {
        lemma_empty_slots((n - 1) as nat, x);
        assert(s.drop_last() =~= Seq::new((n - 1) as nat, |i: int| no_slot()));
    }
}

/// A disk that was formatted is sound, and holds an empty root directory and nothing else.
pub proof fn formatted_brute_volume_is_empty(
    disk: Seq<u8>,
    cipher: Option<Cipher>,
    password: Option<Seq<char>>,
    kd: KeyDerivation,
    nonce: Seq<u8>,
    now: u64,
)
    requires
        disk.len() <= usize::MAX,
        nonce.len() == 12,
        brute_formatted(disk, cipher, password, kd, nonce, now) is Ok,
    ensures
        ({
            let m = brute_formatted(disk, cipher, password, kd, nonce, now)->Ok_0;
            &&& brute_grounded(m, Set::empty().insert(ROOT_AT))
            &&& m.inode(ROOT_AT) == Ok::<_, Fault>(
                INode {
                    kind: INodeKind::Directory,
                    total_file_size: 0,
                    extent_addr: maybe(0),
                    mtime: now,
                    ctime: now,
                },
            )
            &&& m.dir(start_of(m, ROOT_AT)) == Ok::<_, Fault>(Seq::<(Seq<char>, u64)>::empty())
            &&& m.header() == Ok::<_, Fault>(brute_fresh_header(nonce))
            &&& m.cipher == cipher_for(password, nonce, kd, cipher)
            &&& m.disk.len() == disk.len()
            &&& brute_mounted(m.disk, cipher, password, kd) == Ok::<_, Fault>(m)
        }),
{
    let m = brute_formatted(disk, cipher, password, kd, nonce, now)->Ok_0;
    let c = cipher_for(password, nonce, kd, cipher);
    let h = brute_fresh_header(nonce);
    let m0 = Brute { cipher: c, disk };
    let bytes = brute_bytes(h);
    let (m1, r1) = m0.put_raw(0, bytes);
    brute_header_round_trip(h);
    lemma_rows_len(h.freed.items);
    lemma_le64(h.freed.items.len() as u64);
    lemma_le64(h.freed.global_offset);
    assert(bytes.len() == BRUTE_HEADER_SIZE);
    disk_raw_write_read(disk, 0, bytes);
    let root = INode {
        kind: INodeKind::Directory,
        total_file_size: 0,
        extent_addr: maybe(0),
        mtime: now,
        ctime: now,
    };
    let m2 = m1.put_inode(BRUTE_HEADER_SIZE, root).0;
    lemma_put_inode(m1, BRUTE_HEADER_SIZE, root);
    inode_round_trip(root);
    lemma_put_frame(m1, BRUTE_HEADER_SIZE as int, node_bytes(root));
    assert(m2.disk.subrange(0, BRUTE_HEADER_SIZE as int) =~= m1.disk.subrange(
        0,
        BRUTE_HEADER_SIZE as int,
    ));
    assert(m2.header() == Ok::<_, Fault>(h));
    let plain = Brute { cipher: c, disk: m2.disk };
    assert(plain == m2);
    assert(m == m2);
    assert forall|x: int| #[trigger] hold_count(h.freed.items, x) == 0 by {
        lemma_empty_slots(SLOT_COUNT as nat, x);
    }
    assert forall|x: int| #[trigger] is_freed(h.freed.items, x) implies false by {
        lemma_count_freed(h.freed.items, x);
        assert(hold_count(h.freed.items, x) == 0);
    }
    let known = Set::<u64>::empty().insert(ROOT_AT);
    assert(m.content(maybe(0)) == Ok::<_, Fault>(Seq::<u8>::empty()));
    assert forall|x: int| !#[trigger] in_content(m, maybe(0), x) by {}
    assert(m.dir(maybe(0)) == Ok::<_, Fault>(Seq::<(Seq<char>, u64)>::empty()));
    assert(inode_fine(m, ROOT_AT));
    assert forall|a: u64, x: int| known.contains(a) && #[trigger] owned(m, a, x) implies held(
        m,
        x,
    ) by {
        assert(in_inode(ROOT_AT, x));
    }
    assert(brute_grounded(m, known)) by {
        reveal(brute_grounded);
        assert(neat(m, known)) by {
            assert forall|a: u64| #[trigger] listed(m, known, a) implies a == ROOT_AT && entries_of(
                m,
                a,
            ).len() == 0 by {}
        }
    }
}

} // verus!
