//! What the inodes and the lists of entries tell after each operation, and what is refused.
use crate::addr::{maybe, MaybeU64};
use crate::bfs::image::{
    brute_formatted, brute_fresh_header, brute_mounted, Brute, BruteStat, WriteOption,
    BRUTE_HEADER_SIZE,
};
use crate::bfs::op_laws::{
    formatted_brute_volume_is_empty, lemma_split, lemma_walk_known, lemma_written_new,
    lemma_written_over,
};
use crate::bfs::records::{inode_round_trip, node_bytes, INode, INodeKind};
use crate::bfs::sound::{
    inode_fine, lemma_extent_place, lemma_put_frame, lemma_put_inode, same_inode, start_of,
};
use crate::bfs::success_laws::never_used;
use crate::bfs::tree_laws::{brute_grounded, entries_of, listed};
use crate::bfs::unlink_laws::{lemma_unlinked, lemma_walk_past};
use crate::bfs::vector::{brute_bytes, brute_header_round_trip, lemma_rows_len};
use crate::codec::lemma_le64;
use crate::crypto::{Cipher, KeyDerivation};
use crate::device::disk::{disk_raw_write_read, in_keystream, lemma_clear_get};
use crate::error::Fault;
use crate::utils::components;
use crate::xhfs::mount::cipher_for;
use crate::xhfs::op_laws::lemma_position;
use crate::xhfs::tree::{entry_position, last_entry, Entries};
use crate::xhfs::volume_laws::keyed_by;
use vstd::prelude::*;

verus! {

/// A write over a file or link keeps its inode: its address, kind, noted size and time of creation.
/// The time of the last change is the present one. No other inode changes, so no list does.
pub proof fn brute_overwriting_keeps_the_inode(
    m: Brute,
    known: Set<u64>,
    path: Seq<char>,
    data: Seq<u8>,
    is_symlink: bool,
    opt: WriteOption,
    now: u64,
)
    requires
        brute_grounded(m, known),
        m.parent(path) is Ok ==> m.parent(path)->Ok_0.0.1.kind is Directory,
        m.blob_write(path, data, is_symlink, opt, now).1 is Ok,
        m.lookup(path) is Ok,
    ensures
        ({
            let m2 = m.blob_write(path, data, is_symlink, opt, now).0;
            let (at, old) = m.lookup(path)->Ok_0;
            let (at2, new) = m2.lookup(path)->Ok_0;
            &&& opt.overwrite
            &&& m2.lookup(path) is Ok
            &&& at2 == at
            &&& new.kind == old.kind
            &&& new.total_file_size == old.total_file_size
            &&& new.ctime == old.ctime
            &&& new.mtime == now
            &&& m2.content(new.extent_addr) == Ok::<_, Fault>(data)
            &&& forall|k: u64| #[trigger] known.contains(k) && k != at ==> m2.inode(k) == m.inode(k)
                && m2.content(start_of(m2, k)) == m.content(start_of(m, k))
        }),
{
    lemma_written_over(m, known, path, data, is_symlink, opt, now);
    let m2 = m.blob_write(path, data, is_symlink, opt, now).0;
    let at = m.lookup(path)->Ok_0.0;
    assert forall|k: u64| #[trigger] known.contains(k) && k != at implies m2.inode(k) == m.inode(k)
        && m2.content(start_of(m2, k)) == m.content(start_of(m, k)) by {
        assert(same_inode(m, m2, k));
    }
}

/// A write to a path where nothing is makes an inode of the wished kind that notes the size of the
/// data and the present time. It comes last in the list of its directory, which notes the present
/// time as that of its last change. No other inode changes.
pub proof fn brute_writing_makes_a_new_inode(
    m: Brute,
    known: Set<u64>,
    path: Seq<char>,
    data: Seq<u8>,
    is_symlink: bool,
    opt: WriteOption,
    now: u64,
)
    requires
        brute_grounded(m, known),
        m.parent(path) is Ok ==> m.parent(path)->Ok_0.0.1.kind is Directory,
        m.blob_write(path, data, is_symlink, opt, now).1 is Ok,
        m.lookup(path) is Err,
    ensures
        ({
            let m2 = m.blob_write(path, data, is_symlink, opt, now).0;
            let ((addr, parent), name) = m.parent(path)->Ok_0;
            let (id, new) = m2.lookup(path)->Ok_0;
            &&& m2.lookup(path) is Ok
            &&& !known.contains(id)
            &&& is_symlink ==> new.kind is Symlink
            &&& !is_symlink ==> new.kind is File
            &&& data.len() <= u64::MAX ==> new.total_file_size == data.len()
            &&& new.mtime == now
            &&& new.ctime == now
            &&& m2.content(new.extent_addr) == Ok::<_, Fault>(data)
            &&& m2.inode(addr) is Ok
            &&& m2.inode(addr)->Ok_0.kind == parent.kind
            &&& m2.inode(addr)->Ok_0.ctime == parent.ctime
            &&& m2.inode(addr)->Ok_0.mtime == now
            &&& m2.dir(start_of(m2, addr)) == Ok::<_, Fault>(
                m.dir(parent.extent_addr)->Ok_0.push((components(path).last(), id)),
            )
            &&& forall|k: u64| #[trigger]
                known.contains(k) && k != addr ==> m2.inode(k) == m.inode(k) && m2.content(
                    start_of(m2, k),
                ) == m.content(start_of(m, k))
        }),
{
    lemma_split(m, path);
    let id = lemma_written_new(m, known, path, data, is_symlink, opt, now);
    let m2 = m.blob_write(path, data, is_symlink, opt, now).0;
    let addr = m.parent(path)->Ok_0.0.0;
    assert forall|k: u64| #[trigger] known.contains(k) && k != addr implies m2.inode(k)
        == m.inode(k) && m2.content(start_of(m2, k)) == m.content(start_of(m, k)) by {
        assert(same_inode(m, m2, k));
    }
}

/// A removal takes the entry out of the list of its directory, which notes the present time, and
/// leaves all other entries in their order. Every path that does not lead to what is removed leads
/// where it led, and all that is there but the directory is as it was.
pub proof fn brute_unlinking_leaves_other_paths(
    m: Brute,
    known: Set<u64>,
    path: Seq<char>,
    now: u64,
    other: Seq<char>,
)
    requires
        brute_grounded(m, known),
        m.parent(path) is Ok ==> m.parent(path)->Ok_0.0.1.kind is Directory,
        m.unlink(path, now).1 is Ok,
        m.lookup(other) is Ok,
        m.lookup(other)->Ok_0.0 != m.lookup(path)->Ok_0.0,
    ensures
        ({
            let m2 = m.unlink(path, now).0;
            let ((addr, parent), name) = m.parent(path)->Ok_0;
            let e = m.dir(parent.extent_addr)->Ok_0;
            let i = entry_position(e, components(path).last())->0;
            let (at, n) = m.lookup(other)->Ok_0;
            &&& m2.lookup(other) is Ok
            &&& m2.lookup(other)->Ok_0.0 == at
            &&& at != addr ==> m2.lookup(other) == m.lookup(other) && m2.content(n.extent_addr)
                == m.content(n.extent_addr)
            &&& at == addr ==> m2.lookup(other)->Ok_0.1.kind is Directory && m2.lookup(
                other,
            )->Ok_0.1.ctime == n.ctime && m2.lookup(other)->Ok_0.1.mtime == now
            &&& 0 <= i < e.len()
            &&& m2.dir(start_of(m2, addr)) == Ok::<_, Fault>(e.remove(i))
        }),
{
    let (addr, i) = lemma_unlinked(m, known, path, now);
    lemma_split(m, path);
    let m2 = m.unlink(path, now).0;
    let parts = components(other);
    lemma_walk_known(m, known, parts, parts.len());
    lemma_walk_past(m, m2, known, addr, i, parts, parts.len());
    let at = m.lookup(other)->Ok_0.0;
    let e = entries_of(m, addr);
    lemma_walk_known(m, known, components(path), (components(path).len() - 1) as nat);
    lemma_position(e, e[i].0);
    assert(entry_position(e, e[i].0) == Some(i)) by {
        reveal(brute_grounded);
        assert(listed(m, known, addr));
    }
    if at != addr {
        assert(same_inode(m, m2, at));
    }
}

/// What is known of an entry is what its inode tells; a directory has no size. The last component
/// of the path is its name.
pub proof fn brute_stats_tell_of_the_entry(m: Brute, path: Seq<char>)
    requires
        components(path).len() > 0,
    ensures
        m.lookup(path) is Err ==> m.stats(path) == Ok::<_, Fault>(None::<BruteStat>),
        m.lookup(path) is Ok ==> {
            let n = m.lookup(path)->Ok_0.1;
            let s = m.stats(path)->Ok_0->0;
            &&& m.stats(path) is Ok
            &&& m.stats(path)->Ok_0 is Some
            &&& s.name == components(path).last()
            &&& s.kind == n.kind
            &&& s.mtime == n.mtime
            &&& s.ctime == n.ctime
            &&& n.kind is Directory ==> s.size is None
            &&& !(n.kind is Directory) ==> s.size == Some(n.total_file_size as usize)
        },
{
}

/// The root is told as a directory without a size that is called `/`.
pub proof fn brute_stats_tell_of_the_root(m: Brute, path: Seq<char>)
    requires
        components(path).len() == 0,
        m.root() is Ok,
    ensures
        ({
            let n = m.inode(BRUTE_HEADER_SIZE)->Ok_0;
            let s = m.stats(path)->Ok_0->0;
            &&& m.stats(path) is Ok
            &&& m.stats(path)->Ok_0 is Some
            &&& s.name == seq!['/']
            &&& s.kind == n.kind
            &&& s.size is None
            &&& s.mtime == n.mtime
            &&& s.ctime == n.ctime
        }),
{
}

/// What is known of a file that was just made: a file, the size of its data, the present time.
pub proof fn brute_stats_tell_of_a_new_file(
    m: Brute,
    known: Set<u64>,
    path: Seq<char>,
    data: Seq<u8>,
    opt: WriteOption,
    now: u64,
)
    requires
        brute_grounded(m, known),
        m.parent(path) is Ok ==> m.parent(path)->Ok_0.0.1.kind is Directory,
        m.blob_write(path, data, false, opt, now).1 is Ok,
        m.lookup(path) is Err,
        data.len() <= usize::MAX,
    ensures
        m.blob_write(path, data, false, opt, now).0.stats(path) == Ok::<_, Fault>(
            Some(
                BruteStat {
                    name: components(path).last(),
                    kind: INodeKind::File,
                    size: Some(data.len() as usize),
                    mtime: now,
                    ctime: now,
                },
            ),
        ),
{
    lemma_split(m, path);
    brute_writing_makes_a_new_inode(m, known, path, data, false, opt, now);
}

/// The names in the list of a directory are those that are found in it, and each leads to the
/// inode that the list tells.
pub proof fn brute_listed_names_are_those_found(
    m: Brute,
    known: Set<u64>,
    path: Seq<char>,
    name: Seq<char>,
    depth: int,
)
    requires
        brute_grounded(m, known),
        m.lookup(path) is Ok,
        m.lookup(path)->Ok_0.1.kind is Directory,
        m.list(path) is Ok,
    ensures
        ({
            let n = m.lookup(path)->Ok_0.1;
            let e = m.list(path)->Ok_0;
            let found = m.child(n, name, depth);
            &&& found is Ok <==> exists|i: int| 0 <= i < e.len() && (#[trigger] e[i]).0 == name
            &&& forall|i: int|
                0 <= i < e.len() && (#[trigger] e[i]).0 == name ==> found is Ok && found->Ok_0.0
                    == e[i].1
        }),
{
    reveal(brute_grounded);
    let parts = components(path);
    lemma_walk_known(m, known, parts, parts.len());
    let (at, n) = m.lookup(path)->Ok_0;
    assert(m.target(path, m.disk.len()) == Ok::<_, Fault>(n));
    assert(listed(m, known, at));
    let e = entries_of(m, at);
    lemma_position(e, name);
    match entry_position(e, name) {
        Some(i) => {
            assert(known.contains(e[i].1));
            assert(inode_fine(m, e[i].1));
        },
        None => {},
    }
}

/// A file has no list, and a directory has no content to read, to append to or to write over.
pub proof fn brute_kinds_are_told_apart(
    m: Brute,
    path: Seq<char>,
    data: Seq<u8>,
    start: u64,
    end: u64,
    is_symlink: bool,
    opt: WriteOption,
    now: u64,
)
    requires
        m.lookup(path) is Ok,
    ensures
        m.lookup(path)->Ok_0.1.kind is File ==> m.list(path) == Err::<Entries, _>(
            Fault::CannotListFile,
        ),
        m.lookup(path)->Ok_0.1.kind is Directory ==> {
            &&& m.fread(path) == Err::<Seq<u8>, _>(Fault::CannotReadDirectory)
            &&& m.fseek(path, start, end) == Err::<Seq<u8>, _>(Fault::CannotReadDirectory)
            &&& m.fappend(path, data).0 == m
            &&& m.fappend(path, data).1 == Err::<(), _>(Fault::CannotAppendDirectory)
            &&& m.parent(path) is Ok && m.parent(path)->Ok_0.0.1.kind is Directory ==> m.blob_write(
                path,
                data,
                is_symlink,
                opt,
                now,
            ).0 == m && m.blob_write(path, data, is_symlink, opt, now).1 == Err::<(), _>(
                Fault::NotAFile,
            )
        },
{
    let n = m.lookup(path)->Ok_0.1;
    assert(!(n.kind is Symlink) ==> m.target(path, m.disk.len()) == Ok::<_, Fault>(n));
    if m.parent(path) is Ok {
        lemma_split(m, path);
    }
}

/// A file or link that is there is not replaced unless that is asked for.
pub proof fn brute_file_is_not_replaced_unasked(
    m: Brute,
    path: Seq<char>,
    data: Seq<u8>,
    is_symlink: bool,
    now: u64,
)
    requires
        m.parent(path) is Ok,
        m.parent(path)->Ok_0.0.1.kind is Directory,
        m.lookup(path) is Ok,
        !(m.lookup(path)->Ok_0.1.kind is Directory),
    ensures
        ({
            let opt = WriteOption { overwrite: false };
            let (m2, r) = m.blob_write(path, data, is_symlink, opt, now);
            m2 == m && r == Err::<(), _>(Fault::FileExists)
        }),
{
    lemma_split(m, path);
}

/// A directory that has entries is not removed, nor is what is not there.
pub proof fn brute_needed_directory_is_not_removed(m: Brute, path: Seq<char>, now: u64)
    requires
        m.parent(path) is Ok,
        m.parent(path)->Ok_0.0.1.kind is Directory,
    ensures
        m.lookup(path) is Ok && m.lookup(path)->Ok_0.1.kind is Directory && m.list(path) is Ok
            && m.list(path)->Ok_0.len() > 0 ==> m.unlink(path, now).0 == m && m.unlink(path, now).1
            == Err::<(), _>(Fault::DirectoryNotEmpty),
        m.lookup(path) is Err ==> m.unlink(path, now).0 == m && m.unlink(path, now).1 is Err,
{
    lemma_split(m, path);
    if m.lookup(path) is Ok && m.lookup(path)->Ok_0.1.kind is Directory {
        let n = m.lookup(path)->Ok_0.1;
        assert(m.target(path, m.disk.len()) == Ok::<_, Fault>(n));
    }
}

/// Nothing is moved onto an entry that is there, and what is not there is not moved.
pub proof fn brute_move_needs_a_source_and_a_free_name(
    m: Brute,
    known: Set<u64>,
    src: Seq<char>,
    dest: Seq<char>,
)
    requires
        brute_grounded(m, known),
        m.parent(src) is Ok,
        m.parent(src)->Ok_0.0.1.kind is Directory,
        m.parent(dest) is Ok,
        m.parent(dest)->Ok_0.0.1.kind is Directory,
        m.lookup(dest) is Ok || m.lookup(src) is Err,
    ensures
        m.fmove(src, dest).0 == m,
        m.fmove(src, dest).1 is Err,
{
    lemma_split(m, src);
    lemma_split(m, dest);
    lemma_walk_known(m, known, components(src), (components(src).len() - 1) as nat);
    let ((pa, from), src_name) = m.parent(src)->Ok_0;
    let e = entries_of(m, pa);
    if m.lookup(src) is Err && m.dir(from.extent_addr) is Ok {
        assert(entry_position(e, src_name) is None) by {
            reveal(brute_grounded);
            assert(listed(m, known, pa));
            lemma_position(e, src_name);
            match entry_position(e, src_name) {
                Some(i) => {
                    assert(known.contains(e[i].1));
                    assert(inode_fine(m, e[i].1));
                },
                None => {},
            }
        }
        lemma_position(e, src_name);
        lemma_no_last(e, src_name);
    }
}

/// A name that no entry has is not that of a last entry.
proof fn lemma_no_last(e: Entries, name: Seq<char>)
    requires
        forall|i: int| 0 <= i < e.len() ==> (#[trigger] e[i]).0 != name,
    ensures
        last_entry(e, name) is None,
    decreases e.len(),
{
    if e.len() > 0 {
        let d = e.drop_last();
        assert forall|i: int| 0 <= i < d.len() implies (#[trigger] d[i]).0 != name by {
            assert(d[i] == e[i]);
        }
        lemma_no_last(d, name);
    }
}

/// Opening a volume changes nothing on the disk. It is read with the key of the password and the
/// nonce that the header tells; without a password it is read with the cipher that the disk has
/// already.
pub proof fn brute_opening_follows_the_header(
    disk: Seq<u8>,
    cipher: Option<Cipher>,
    password: Option<Seq<char>>,
    kd: KeyDerivation,
)
    requires
        brute_mounted(disk, cipher, password, kd) is Ok,
    ensures
        ({
            let m = brute_mounted(disk, cipher, password, kd)->Ok_0;
            &&& m.disk == disk
            &&& m.header() is Ok
            &&& m.root() is Ok
            &&& password is Some ==> m.cipher is Some && keyed_by(
                m.cipher->0,
                password->0,
                m.header()->Ok_0.nonce,
                kd,
            )
            &&& password is None ==> m.cipher == cipher
        }),
{
    assert(brute_mounted(disk, cipher, password, kd)->Ok_0.header() == (Brute {
        cipher,
        disk,
    }).header());
}

/// A freshly formatted volume holds an empty root directory that was made and changed at the
/// present time. It is read with the key of its password and nonce.
pub proof fn brute_fresh_volume_holds_an_empty_root(
    disk: Seq<u8>,
    cipher: Option<Cipher>,
    password: Option<Seq<char>>,
    kd: KeyDerivation,
    nonce: Seq<u8>,
    now: u64,
    path: Seq<char>,
)
    requires
        disk.len() <= usize::MAX,
        nonce.len() == 12,
        brute_formatted(disk, cipher, password, kd, nonce, now) is Ok,
    ensures
        ({
            let m = brute_formatted(disk, cipher, password, kd, nonce, now)->Ok_0;
            let root = m.inode(BRUTE_HEADER_SIZE)->Ok_0;
            &&& m.inode(BRUTE_HEADER_SIZE) is Ok
            &&& root.kind is Directory
            &&& root.total_file_size == 0
            &&& root.mtime == now
            &&& root.ctime == now
            &&& m.header() is Ok
            &&& m.header()->Ok_0.nonce == nonce
            &&& password is Some ==> m.cipher is Some && keyed_by(
                m.cipher->0,
                password->0,
                nonce,
                kd,
            )
            &&& password is None ==> m.cipher == cipher
            &&& components(path).len() == 0 ==> m.list(path) == Ok::<Entries, Fault>(Seq::empty())
            &&& components(path).len() > 0 ==> m.lookup(path) is Err
        }),
{
    formatted_brute_volume_is_empty(disk, cipher, password, kd, nonce, now);
    let m = brute_formatted(disk, cipher, password, kd, nonce, now)->Ok_0;
    let parts = components(path);
    if parts.len() > 0 {
        assert(m.walk(parts, 0) == m.root());
        assert(m.walk(parts, 1) is Err);
        lemma_blocked(m, parts, 1, parts.len());
    }
}

proof fn lemma_blocked(m: Brute, parts: Seq<Seq<char>>, j: nat, k: nat)
    requires
        j <= k,
        m.walk(parts, j) is Err,
    ensures
        m.walk(parts, k) is Err,
    decreases k,
{
    if j < k {
        lemma_blocked(m, parts, j, (k - 1) as nat);
    }
}

/// A disk that holds the header and the root inode, with a keystream that reaches to its end, is
/// formatted. All that lies behind them was then never used.
pub proof fn brute_disk_with_room_is_formatted(
    disk: Seq<u8>,
    cipher: Option<Cipher>,
    password: Option<Seq<char>>,
    kd: KeyDerivation,
    nonce: Seq<u8>,
    now: u64,
)
    requires
        16036 + 33 <= disk.len() <= usize::MAX,
        nonce.len() == 12,
        in_keystream(cipher_for(password, nonce, kd, cipher), disk.len() as int),
    ensures
        brute_formatted(disk, cipher, password, kd, nonce, now) is Ok,
        ({
            let m = brute_formatted(disk, cipher, password, kd, nonce, now)->Ok_0;
            never_used(m) == disk.len() - 16036 - 33
        }),
{
    let c = cipher_for(password, nonce, kd, cipher);
    let h = brute_fresh_header(nonce);
    let bytes = brute_bytes(h);
    let m0 = Brute { cipher: c, disk };
    let m1 = m0.put_raw(0, bytes).0;
    brute_header_round_trip(h);
    lemma_rows_len(h.freed.items);
    lemma_le64(h.freed.items.len() as u64);
    lemma_le64(h.freed.global_offset);
    assert(bytes.len() == BRUTE_HEADER_SIZE);
    disk_raw_write_read(disk, 0, bytes);
    let root = INode {
        kind: INodeKind::Directory,
        total_file_size: 0,
        extent_addr: maybe(0),
        mtime: now,
        ctime: now,
    };
    inode_round_trip(root);
    let m2 = m1.put_inode(BRUTE_HEADER_SIZE, root).0;
    lemma_put_inode(m1, BRUTE_HEADER_SIZE, root);
    lemma_put_frame(m1, BRUTE_HEADER_SIZE as int, node_bytes(root));
    assert(m2.disk.subrange(0, BRUTE_HEADER_SIZE as int) =~= m1.disk.subrange(
        0,
        BRUTE_HEADER_SIZE as int,
    ));
    assert(m2.header() == Ok::<_, Fault>(h));
    assert(Brute { cipher: c, disk: m2.disk } == m2);
    assert(brute_formatted(disk, cipher, password, kd, nonce, now) == Ok::<_, Fault>(m2));
}

/// The regions of extents lie one behind the other as the content does: each starts at the address
/// of its extent and reaches over the header of the extent and its data.
pub proof fn brute_regions_hold_the_content(m: Brute, addr: MaybeU64, count: nat)
    requires
        m.disk.len() <= usize::MAX,
        addr.raw != 0,
        count > 0,
        m.extent(addr.raw) is Ok,
        m.regions(addr, count) is Ok,
    ensures
        ({
            let c = m.extent(addr.raw)->Ok_0;
            let r = m.regions(addr, count)->Ok_0;
            &&& r.len() > 0
            &&& r[0].start.raw == addr.raw
            &&& r[0].end.raw == addr.raw + 16 + c.data.len()
            &&& m.regions(c.next, (count - 1) as nat) == Ok::<_, Fault>(r.drop_first())
        }),
{
    lemma_extent_place(m, addr.raw);
    let a = addr.raw as int;
    let s8 = m.clear(a, 8)->Ok_0;
    let s16 = m.clear(a, 16)->Ok_0;
    let size = m.extent(addr.raw)->Ok_0.data.len() as int;
    let all = m.clear(a, 16 + size)->Ok_0;
    lemma_clear_get(m.cipher, m.disk, a, 8);
    lemma_clear_get(m.cipher, m.disk, a, 16);
    lemma_clear_get(m.cipher, m.disk, a, 16 + size);
    assert(s8.subrange(0, 8) =~= s16.subrange(0, 8));
    assert(all.subrange(8, 16) =~= s16.subrange(8, 16));
    let (region, next) = m.extent_meta(addr.raw)->Ok_0;
    let rest = m.regions(next.addr, (count - 1) as nat)->Ok_0;
    assert((seq![region] + rest).drop_first() =~= rest);
}

} // verus!
