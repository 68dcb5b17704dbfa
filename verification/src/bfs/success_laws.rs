//! With enough room that was never used, every operation succeeds.
use crate::addr::{maybe, MaybeU64};
use crate::bfs::append_laws::{lemma_last, lemma_target_known};
use crate::bfs::dir_laws::{empty_directory, lemma_directory_added, lemma_mkdir_walks};
use crate::bfs::image::{first_empty, first_fit, shrunk, Brute, WriteOption};
use crate::bfs::laws::{lemma_first_empty, lemma_first_fit, lemma_header, replaced_header_reads_back};
use crate::bfs::move_laws::{brute_paths_are_unique, lemma_transferred, lemma_without_one};
use crate::bfs::op_laws::{
    fresh_blob, lemma_inode_added, lemma_pointed, lemma_split, lemma_walk_known,
};
use crate::bfs::records::{inode_round_trip, node_bytes, INode, INODE_SIZE};
use crate::bfs::sound::{
    freed_list, in_chain, in_content, inode_fine, lemma_extent_place, lemma_sound_free,
    lemma_sound_put, lemma_sound_store, lemma_sound_take, owned, same_inode, sound, start_of,
    stretch, ROOT_AT,
};
use crate::bfs::tree_laws::{brute_grounded, entries_of, listed, tidy};
use crate::bfs::unlink_laws::{lemma_cleared_out, lemma_entry_unlinked, lemma_sound_drop};
use crate::bfs::vector::{is_freed, slot_holds, BruteHeader, Freed};
use crate::codec::lemma_le64;
use crate::device::disk::in_keystream;
use crate::error::Fault;
use crate::utils::{absolute, components};
use crate::xhfs::ds::{chunk_bytes, dir_bytes, entry_rows, lemma_entry_rows_len, Chunk};
use crate::xhfs::layout::AddressSlot;
use crate::xhfs::mkdir_laws::lemma_dir_size;
use crate::xhfs::op_laws::lemma_position;
use crate::xhfs::tree::{entry_position, Entries};
use vstd::prelude::*;
use vstd::utf8::*;

verus! {

/// Number of bytes that were never used.
pub open spec fn never_used(m: Brute) -> int {
    m.disk.len() - freed_list(m).global_offset
}

/// The keystream reaches to the end of the disk.
pub open spec fn covered(m: Brute) -> bool {
    in_keystream(m.cipher, m.disk.len() as int)
}

/// Number of bytes that an extent with data takes.
pub open spec fn extent_room(n: nat) -> nat {
    n + 16
}

/// Number of bytes that an extent with the entries of a directory takes.
pub open spec fn dir_room(n: nat) -> nat {
    8 + 264 * n + 16
}

/// Room is found where enough was never used, and no more of it is taken than is wanted.
proof fn lemma_room(m: Brute, known: Set<u64>, loose: Set<int>, wanted: usize)
    requires
        sound(m, known, loose),
        0 < wanted <= never_used(m),
    ensures
        m.allocate(wanted).1 is Ok,
        never_used(m.allocate(wanted).0) >= never_used(m) - wanted,
        m.allocate(wanted).0.disk.len() == m.disk.len(),
        m.allocate(wanted).0.cipher == m.cipher,
        m.allocate(wanted).1->Ok_0 + wanted <= m.disk.len(),
{
    let h = m.header()->Ok_0;
    let items = h.freed.items;
    lemma_header(m);
    lemma_first_fit(items, wanted as int, 0);
    match first_fit(items, wanted as int, 0) {
        Some(k) => {
            let s = items[k];
            let end = s.addr.raw + s.capacity - 1;
            assert(slot_holds(s, end));
            assert(is_freed(items, end));
            let new = items.update(k, shrunk(s, wanted as int));
            replaced_header_reads_back(
                m,
                BruteHeader { freed: Freed { items: new, ..h.freed }, ..h },
            );
        },
        None => {
            let at = h.freed.global_offset;
            replaced_header_reads_back(
                m,
                BruteHeader {
                    freed: Freed { global_offset: (at + wanted) as u64, ..h.freed },
                    ..h
                },
            );
        },
    }
}

/// Data is stored where there is room for it.
proof fn lemma_stored(m: Brute, known: Set<u64>, loose: Set<int>, data: Seq<u8>)
    requires
        sound(m, known, loose),
        covered(m),
        extent_room(data.len()) <= never_used(m),
    ensures
        m.store(data).1 is Ok,
        never_used(m.store(data).0) >= never_used(m) - extent_room(data.len()),
        covered(m.store(data).0),
{
    let wanted = (data.len() + 16) as usize;
    lemma_room(m, known, loose, wanted);
    lemma_sound_take(m, known, loose, wanted);
    let (m1, r) = m.allocate(wanted);
    let at = r->Ok_0;
    let got = stretch(at as int, wanted as int);
    let all = loose.union(got);
    let bytes = chunk_bytes(Chunk { next: maybe(0), data });
    lemma_le64(data.len() as u64);
    lemma_le64(0);
    assert forall|x: int| at <= x < at + bytes.len() implies #[trigger] all.contains(x) by {
        assert(got.contains(x));
    }
    lemma_sound_put(m1, known, all, at, bytes);
}

/// A known inode can be written.
proof fn lemma_inode_writable(m: Brute, known: Set<u64>, loose: Set<int>, a: u64, n: INode)
    requires
        sound(m, known, loose),
        known.contains(a),
    ensures
        m.put_inode(a, n).1 is Ok,
{
    inode_round_trip(n);
    assert(inode_fine(m, a));
}

/// An inode is made where there is room for it.
proof fn lemma_inode_made(m: Brute, known: Set<u64>, loose: Set<int>, n: INode)
    requires
        sound(m, known, loose),
        covered(m),
        33 <= never_used(m),
    ensures
        m.new_inode(n).1 is Ok,
        never_used(m.new_inode(n).0) >= never_used(m) - 33,
        covered(m.new_inode(n).0),
{
    lemma_room(m, known, loose, INODE_SIZE as usize);
    lemma_sound_take(m, known, loose, INODE_SIZE as usize);
    let (m1, r) = m.allocate(INODE_SIZE as usize);
    let at = r->Ok_0;
    let got = stretch(at as int, 33);
    let all = loose.union(got);
    inode_round_trip(n);
    let bytes = node_bytes(n);
    assert forall|x: int| at <= x < at + bytes.len() implies #[trigger] all.contains(x) by {
        assert(got.contains(x));
    }
    lemma_sound_put(m1, known, all, at, bytes);
}

/// Data that is stored is taken over by a known inode.
proof fn lemma_pointing(m: Brute, known: Set<u64>, a: u64, n: INode, data: Seq<u8>, mtime: u64)
    requires
        sound(m, known, Set::empty()),
        covered(m),
        known.contains(a),
        m.inode(a) == Ok::<_, Fault>(n),
        extent_room(data.len()) <= never_used(m),
    ensures
        m.store(data).1 is Ok,
        m.store(data).0.point(a, n, m.store(data).1->Ok_0, mtime).1 is Ok,
{
    let none = Set::<int>::empty();
    lemma_stored(m, known, none, data);
    lemma_sound_store(m, known, none, data);
    let (m1, r1) = m.store(data);
    let new = r1->Ok_0;
    let got = none.union(stretch(new as int, data.len() as int + 16));
    assert(same_inode(m, m1, a));
    lemma_inode_writable(
        m1,
        known,
        got,
        a,
        INode { extent_addr: maybe(new), mtime, ..n },
    );
    lemma_pointed(m1, known, got, a, n, new, data, mtime);
}

/// A write over a file or link succeeds where there is room for the data.
pub proof fn brute_overwriting_succeeds_with_room(
    m: Brute,
    known: Set<u64>,
    path: Seq<char>,
    data: Seq<u8>,
    is_symlink: bool,
    now: u64,
)
    requires
        brute_grounded(m, known),
        covered(m),
        m.parent(path) is Ok,
        m.parent(path)->Ok_0.0.1.kind is Directory,
        m.lookup(path) is Ok,
        !(m.lookup(path)->Ok_0.1.kind is Directory),
        extent_room(data.len()) <= never_used(m),
    ensures
        m.blob_write(path, data, is_symlink, WriteOption { overwrite: true }, now).1 is Ok,
{
    lemma_split(m, path);
    let parts = components(path);
    lemma_walk_known(m, known, parts, parts.len());
    reveal(brute_grounded);
    let (at, n) = m.lookup(path)->Ok_0;
    lemma_pointing(m, known, at, n, data, now);
}

/// A write to a path where nothing is succeeds where there is room for the data, an inode and the
/// entries of the directory, unless the name is too long for an entry.
pub proof fn brute_writing_new_succeeds_with_room(
    m: Brute,
    known: Set<u64>,
    path: Seq<char>,
    data: Seq<u8>,
    is_symlink: bool,
    opt: WriteOption,
    now: u64,
)
    requires
        brute_grounded(m, known),
        covered(m),
        m.parent(path) is Ok,
        m.parent(path)->Ok_0.0.1.kind is Directory,
        m.dir(m.parent(path)->Ok_0.0.1.extent_addr) is Ok,
        m.lookup(path) is Err,
        ({
            let e = m.dir(m.parent(path)->Ok_0.0.1.extent_addr)->Ok_0;
            &&& dir_bytes(e.push((components(path).last(), 0))) is Ok
            &&& extent_room(data.len()) + 33 + dir_room(e.len() + 1) <= never_used(m)
        }),
    ensures
        m.blob_write(path, data, is_symlink, opt, now).1 is Ok,
{
    lemma_split(m, path);
    let parts = components(path);
    let ((addr, parent), name) = m.parent(path)->Ok_0;
    let e = m.dir(parent.extent_addr)->Ok_0;
    lemma_walk_known(m, known, parts, (parts.len() - 1) as nat);
    assert(listed(m, known, addr));
    reveal(brute_grounded);
    lemma_position(e, name);
    match entry_position(e, name) {
        Some(i) => {
            assert(known.contains(entries_of(m, addr)[i].1));
            assert(inode_fine(m, e[i].1));
        },
        None => {},
    }
    let none = Set::<int>::empty();
    lemma_stored(m, known, none, data);
    lemma_sound_store(m, known, none, data);
    let (m1, r1) = m.store(data);
    let at = r1->Ok_0;
    let got = none.union(stretch(at as int, data.len() as int + 16));
    let n = fresh_blob(is_symlink, data.len(), at, now);
    lemma_inode_made(m1, known, got, n);
    lemma_inode_added(m1, known, got, n, at, data);
    let (m2, r2) = m1.new_inode(n);
    let id = r2->Ok_0;
    let all = known.insert(id);
    assert(same_inode(m, m1, addr));
    assert(same_inode(m1, m2, addr));
    assert(all.contains(addr));
    lemma_dir_size(e, name, id);
    lemma_entry_rows_len(e.push((name, id)));
    lemma_le64((e.len() + 1) as u64);
    let bytes = dir_bytes(e.push((name, id)))->Ok_0;
    lemma_pointing(m2, all, addr, parent, bytes, now);
}

/// A symbolic link is made where there is room for it, to any path whose parent is there.
pub proof fn brute_linking_succeeds_with_room(
    m: Brute,
    known: Set<u64>,
    path: Seq<char>,
    target: Seq<char>,
    opt: WriteOption,
    now: u64,
)
    requires
        brute_grounded(m, known),
        covered(m),
        m.parent(target) is Ok,
        m.parent(path) is Ok,
        m.parent(path)->Ok_0.0.1.kind is Directory,
        m.dir(m.parent(path)->Ok_0.0.1.extent_addr) is Ok,
        m.lookup(path) is Err,
        ({
            let e = m.dir(m.parent(path)->Ok_0.0.1.extent_addr)->Ok_0;
            let data = encode_utf8(absolute(components(target)));
            &&& dir_bytes(e.push((components(path).last(), 0))) is Ok
            &&& extent_room(data.len()) + 33 + dir_room(e.len() + 1) <= never_used(m)
        }),
    ensures
        m.link(path, target, opt, now).1 is Ok,
{
    let data = encode_utf8(absolute(components(target)));
    brute_writing_new_succeeds_with_room(m, known, path, data, true, opt, now);
}

/// Data is appended where there is room for it, to any file that has an extent.
pub proof fn brute_appending_succeeds_with_room(
    m: Brute,
    known: Set<u64>,
    path: Seq<char>,
    data: Seq<u8>,
)
    requires
        brute_grounded(m, known),
        covered(m),
        m.target(path, m.disk.len()) is Ok,
        m.target(path, m.disk.len())->Ok_0.kind is File,
        m.target(path, m.disk.len())->Ok_0.extent_addr.raw != 0,
        extent_room(data.len()) <= never_used(m),
    ensures
        m.fappend(path, data).1 is Ok,
{
    let fuel = m.disk.len();
    let a = lemma_target_known(m, known, path, fuel);
    reveal(brute_grounded);
    let addr = start_of(m, a);
    let none = Set::<int>::empty();
    assert(inode_fine(m, a));
    lemma_last(m, addr, fuel);
    let (at, c) = m.last_extent(addr, fuel)->Ok_0->0;
    let wanted = (data.len() + 16) as usize;
    lemma_room(m, known, none, wanted);
    let (m1, r1) = m.allocate(wanted);
    let id = r1->Ok_0;
    lemma_le64(c.data.len() as u64);
    lemma_le64(id);
    lemma_le64(data.len() as u64);
    lemma_le64(0);
    lemma_extent_place(m, at);
    let bytes1 = chunk_bytes(Chunk { next: maybe(id), ..c });
    let bytes2 = chunk_bytes(Chunk { next: maybe(0), data });
    assert(bytes1.len() == 16 + c.data.len());
    assert(bytes2.len() == wanted);
}

/// A file, a link or an empty directory is removed where there is room for the entries that are
/// left.
pub proof fn brute_removing_succeeds_with_room(
    m: Brute,
    known: Set<u64>,
    path: Seq<char>,
    now: u64,
)
    requires
        brute_grounded(m, known),
        covered(m),
        m.parent(path) is Ok,
        m.parent(path)->Ok_0.0.1.kind is Directory,
        m.lookup(path) is Ok,
        m.lookup(path)->Ok_0.1.kind is Directory ==> m.list(path) == Ok::<Entries, Fault>(
            Seq::empty(),
        ),
        dir_bytes(m.dir(m.parent(path)->Ok_0.0.1.extent_addr)->Ok_0) is Ok,
        dir_room(m.dir(m.parent(path)->Ok_0.0.1.extent_addr)->Ok_0.len()) <= never_used(m),
    ensures
        m.unlink(path, now).1 is Ok,
{
    lemma_split(m, path);
    let parts = components(path);
    let ((addr, parent), name) = m.parent(path)->Ok_0;
    let e = m.dir(parent.extent_addr)->Ok_0;
    lemma_walk_known(m, known, parts, (parts.len() - 1) as nat);
    lemma_walk_known(m, known, parts, parts.len());
    assert(listed(m, known, addr));
    lemma_position(e, name);
    let i = entry_position(e, name)->0;
    let id = e[i].1;
    let n = m.inode(id)->Ok_0;
    assert(n == m.lookup(path)->Ok_0.1);
    if n.kind is Directory {
        assert(m.target(path, m.disk.len()) == Ok::<_, Fault>(n));
    }
    assert(id != addr) by {
        if id == addr {
            brute_paths_are_unique(m, known, parts, (parts.len() - 1) as nat, parts, parts.len());
        }
    }
    reveal(brute_grounded);
    assert(tidy(e));
    assert(id != ROOT_AT);
    assert(inode_fine(m, id));
    lemma_clearing(m, known, id, n);
    let loose = lemma_cleared_out(m, known, id, n);
    let (m1, r1) = m.clear_out(n);
    let rest = known.remove(id);
    assert(rest.contains(addr));
    assert(same_inode(m, m1, addr));
    lemma_rows_without(e, i);
    let bytes = dir_bytes(e.remove(i))->Ok_0;
    lemma_stored(m1, rest, loose, bytes);
    lemma_entry_unlinked(m1, rest, loose, addr, parent, e.remove(i), id, r1->Ok_0, now);
}

/// The entries without one of them can be stored if all of them can, and take no more room.
proof fn lemma_rows_without(e: Entries, i: int)
    requires
        dir_bytes(e) is Ok,
        0 <= i < e.len(),
    ensures
        dir_bytes(e.remove(i)) is Ok,
        extent_room(dir_bytes(e.remove(i))->Ok_0.len()) == dir_room((e.len() - 1) as nat),
{
    lemma_rows_each(e, i);
    lemma_entry_rows_len(e.remove(i));
    lemma_le64((e.len() - 1) as u64);
}

proof fn lemma_rows_each(e: Entries, i: int)
    requires
        entry_rows(e) is Ok,
        0 <= i < e.len(),
    ensures
        entry_rows(e.remove(i)) is Ok,
    decreases e.len(),
{
    let d = e.drop_last();
    let f = e.remove(i);
    if i == e.len() - 1 {
        assert(f =~= d);
    } else {
        lemma_rows_each(d, i);
        assert(f.drop_last() =~= d.remove(i));
        assert(f.last() == e.last());
    }
}

/// Clearing out takes nothing of what was never used.
proof fn lemma_clearing(m: Brute, known: Set<u64>, id: u64, n: INode)
    requires
        sound(m, known, Set::empty()),
        covered(m),
        known.contains(id),
        id != ROOT_AT,
        m.inode(id) == Ok::<_, Fault>(n),
        n.kind is Directory ==> m.dir(n.extent_addr) == Ok::<Entries, Fault>(Seq::empty()),
    ensures
        m.clear_out(n).1 is Ok,
        never_used(m.clear_out(n).0) == never_used(m),
        covered(m.clear_out(n).0),
{
    assert(inode_fine(m, id));
    if !(n.kind is Directory) {
        let all = Set::new(|x: int| owned(m, id, x));
        lemma_sound_drop(m, known, id);
        assert forall|x: int| #[trigger]
            in_chain(m, n.extent_addr, m.disk.len(), x) implies all.contains(x) by {
            assert(in_content(m, n.extent_addr, x));
        }
        lemma_sound_free(m, known.remove(id), all, n.extent_addr, m.disk.len());
        lemma_freeing(m, n.extent_addr, m.disk.len());
    }
}

/// Noting freed stretches takes nothing of what was never used.
proof fn lemma_freeing(m: Brute, addr: MaybeU64, fuel: nat)
    requires
        m.header() is Ok,
    ensures
        m.free_chain(addr, fuel).0.header() is Ok,
        never_used(m.free_chain(addr, fuel).0) == never_used(m),
        m.free_chain(addr, fuel).0.cipher == m.cipher,
        m.free_chain(addr, fuel).0.disk.len() == m.disk.len(),
    decreases fuel,
{
    if addr.raw != 0 && fuel > 0 && m.extent(addr.raw) is Ok {
        let c = m.extent(addr.raw)->Ok_0;
        let slot = AddressSlot { addr, capacity: c.data.len() as usize };
        let h = m.header()->Ok_0;
        lemma_header(m);
        lemma_first_empty(h.freed.items, 0);
        match first_empty(h.freed.items, 0) {
            Some(k) => {
                replaced_header_reads_back(
                    m,
                    BruteHeader {
                        freed: Freed { items: h.freed.items.update(k, slot), ..h.freed },
                        ..h
                    },
                );
            },
            None => {},
        }
        lemma_freeing(m.mark(slot).0, c.next, (fuel - 1) as nat);
    }
}

/// An entry is moved where there is room for the entries of both directories, unless there is one
/// at the destination or the new name is too long for an entry.
pub proof fn brute_moving_succeeds_with_room(
    m: Brute,
    known: Set<u64>,
    src: Seq<char>,
    dest: Seq<char>,
)
    requires
        brute_grounded(m, known),
        covered(m),
        m.parent(src) is Ok,
        m.parent(src)->Ok_0.0.1.kind is Directory,
        m.parent(dest) is Ok,
        m.parent(dest)->Ok_0.0.1.kind is Directory,
        m.lookup(src) is Ok,
        m.lookup(dest) is Err,
        ({
            let ea = m.dir(m.parent(src)->Ok_0.0.1.extent_addr)->Ok_0;
            let eb = m.dir(m.parent(dest)->Ok_0.0.1.extent_addr)->Ok_0;
            &&& m.dir(m.parent(dest)->Ok_0.0.1.extent_addr) is Ok
            &&& dir_bytes(ea) is Ok
            &&& dir_bytes(eb.push((components(dest).last(), 0))) is Ok
            &&& dir_room(ea.len()) + dir_room(eb.len() + 1) <= never_used(m)
        }),
    ensures
        m.fmove(src, dest).1 is Ok,
{
    lemma_split(m, src);
    lemma_split(m, dest);
    let sp = components(src);
    let dp = components(dest);
    let ((pa, from), src_name) = m.parent(src)->Ok_0;
    let ((pb, to), dst_name) = m.parent(dest)->Ok_0;
    let ea = m.dir(from.extent_addr)->Ok_0;
    let eb = m.dir(to.extent_addr)->Ok_0;
    lemma_walk_known(m, known, sp, (sp.len() - 1) as nat);
    lemma_walk_known(m, known, dp, (dp.len() - 1) as nat);
    assert(listed(m, known, pa));
    assert(listed(m, known, pb));
    reveal(brute_grounded);
    lemma_without_one(ea, src_name);
    let i = entry_position(ea, src_name)->0;
    let id = ea[i].1;
    lemma_position(eb, dst_name);
    match entry_position(eb, dst_name) {
        Some(j) => {
            assert(known.contains(entries_of(m, pb)[j].1));
            assert(inode_fine(m, eb[j].1));
        },
        None => {},
    }
    let fa = ea.remove(i);
    lemma_rows_without(ea, i);
    if pa == pb {
        let f = fa.push((dst_name, id));
        assert(f.drop_last() =~= fa);
        assert(eb.push((dst_name, 0u64)).drop_last() =~= eb);
        lemma_entry_rows_len(f);
        lemma_le64(f.len() as u64);
        lemma_pointing(m, known, pa, from, dir_bytes(f)->Ok_0, from.mtime);
    } else {
        let fb = eb.push((dst_name, id));
        lemma_dir_size(eb, dst_name, id);
        lemma_entry_rows_len(fb);
        lemma_le64(fb.len() as u64);
        let ba = dir_bytes(fa)->Ok_0;
        let bb = dir_bytes(fb)->Ok_0;
        let none = Set::<int>::empty();
        lemma_stored(m, known, none, ba);
        lemma_sound_store(m, known, none, ba);
        let (m1, r1) = m.store(ba);
        let got = none.union(stretch(r1->Ok_0 as int, ba.len() as int + 16));
        lemma_stored(m1, known, got, bb);
        lemma_transferred(m, known, pa, from, fa, pb, to, fb);
    }
}

/// A directory with one component more than a directory that is there is made where there is room
/// for an inode and the entries, unless the name is too long for an entry.
pub proof fn brute_mkdir_succeeds_with_room(
    m: Brute,
    known: Set<u64>,
    path: Seq<char>,
    recursive: bool,
    now: u64,
)
    requires
        brute_grounded(m, known),
        covered(m),
        m.parent(path) is Ok,
        m.parent(path)->Ok_0.0.1.kind is Directory,
        m.dir(m.parent(path)->Ok_0.0.1.extent_addr) is Ok,
        m.lookup(path) is Err,
        recursive || components(path).len() == 1,
        ({
            let e = m.dir(m.parent(path)->Ok_0.0.1.extent_addr)->Ok_0;
            &&& dir_bytes(e.push((components(path).last(), 0))) is Ok
            &&& 33 + dir_room(e.len() + 1) <= never_used(m)
        }),
    ensures
        m.mkdir(path, recursive, now).1 == Ok::<bool, Fault>(true),
{
    lemma_split(m, path);
    let parts = components(path);
    let last = (parts.len() - 1) as nat;
    let ((addr, parent), name) = m.parent(path)->Ok_0;
    let e = m.dir(parent.extent_addr)->Ok_0;
    lemma_walk_known(m, known, parts, last);
    assert(listed(m, known, addr));
    reveal(brute_grounded);
    lemma_position(e, name);
    match entry_position(e, name) {
        Some(i) => {
            assert(known.contains(entries_of(m, addr)[i].1));
            assert(inode_fine(m, e[i].1));
        },
        None => {},
    }
    let none = Set::<int>::empty();
    let new = empty_directory(now);
    lemma_inode_made(m, known, none, new);
    lemma_directory_added(m, known, now);
    let (m1, r) = m.new_inode(new);
    let id = r->Ok_0;
    let all = known.insert(id);
    assert(same_inode(m, m1, addr));
    assert(all.contains(addr));
    lemma_dir_size(e, name, id);
    lemma_entry_rows_len(e.push((name, id)));
    lemma_le64((e.len() + 1) as u64);
    lemma_pointing(m1, all, addr, parent, dir_bytes(e.push((name, id)))->Ok_0, now);
    let m2 = m1.replace_entries(addr, parent, e.push((name, id)), now).0;
    assert(m2.mkdir_from(parts, parts.len() as int, id, new, true, recursive, now).1 == Ok::<
        bool,
        Fault,
    >(true));
    assert(m.mkdir_from(parts, last as int, addr, parent, false, recursive, now).1 == Ok::<
        bool,
        Fault,
    >(true));
    lemma_mkdir_walks(m, parts, last, recursive, now);
}

} // verus!
