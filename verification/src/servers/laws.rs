//! What a WebDAV server promises.
use crate::error::XHFSError;
use crate::interface::cli::joined_path;
use crate::interface::laws::{flushing_keeps_what_was_written, promised, ready};
use crate::path_laws::{joining_adds_a_component, plain};
use crate::servers::webdav::{dav_copied, DavFault, OpenFile, SeekTo, XHFSAdapter};
use crate::utils::components;
use crate::xhfs::block_laws::mapped;
use crate::xhfs::dir_laws::{files_kept, made_directory_is_there};
use crate::xhfs::dirs::names_of;
use crate::xhfs::ds::{dir_bytes, name_slot, INodeKind, Node};
use crate::xhfs::image::Image;
use crate::xhfs::inode_laws::{live, node_of};
use crate::xhfs::link_laws::{between, seek_reads_part_of_file};
use crate::xhfs::mkdir_laws::{
    blocks_to_make, entries_fit, first_missing, mkdir_succeeds_with_room, spare_inodes,
};
use crate::xhfs::move_laws::{moved_entry_is_found, way_without};
use crate::xhfs::name_laws::plain_entry_is_removable;
use crate::xhfs::node_laws::{overwriting_keeps_the_inode, tells_of};
use crate::xhfs::op_laws::{
    grounded, lemma_good, lemma_lookup_split, lemma_node_ok, lemma_position_unique,
    lemma_walk_live, lemma_written, writable, written_file_reads_back,
};
use crate::xhfs::ops::lemma_walk_prefix;
use crate::xhfs::room_laws::{free_blocks, tables_reach};
use crate::xhfs::sound::{ext, same_content};
use crate::xhfs::stream::stream_copied;
use crate::xhfs::stream_laws::streamed_copy_has_same_content;
use crate::xhfs::success_laws::{only_entry_is_always_removed, overwriting_succeeds_with_room};
use crate::xhfs::tree::{Entries, Stat, WriteOption};
use crate::xhfs::unlink_laws::{removable_links, removed_with, unlinked_path_is_gone};
use crate::xhfs::volume::lemma_format;
use crate::xhfs::volume_laws::{free_in_groups, free_space_is_that_of_free_blocks};
use vstd::prelude::*;

verus! {

/// A handle as it is when a file is opened: at the start, with nothing held back.
pub open spec fn fresh_handle(f: OpenFile, a: XHFSAdapter, path: Seq<char>) -> bool {
    &&& f.path == path
    &&& f.offset == 0
    &&& f.buffer.len() == 0
    &&& f.chunk_size == a.chunk_size
    &&& f.read_only == a.read_only
}

/// A file that is there is opened for writing anew if the volume is not offered for reading only
/// and has free space: it is emptied, and nothing of it but its size, its content and the time of
/// its last change is changed. The handle stands at its start with nothing held back.
pub proof fn file_is_opened_anew(m: Image, a: XHFSAdapter, path: Seq<char>, now: u64)
    requires
        grounded(m),
        !a.read_only,
        m.lookup(path) is Ok,
        m.lookup(path)->Ok_0.kind is File,
        m.parent(path) is Ok,
        m.remaining() is Ok,
        m.remaining()->Ok_0 > 0,
    ensures
        ({
            let (m2, r) = m.dav_open(a, path, true, true, now);
            let old = m.lookup(path)->Ok_0;
            let new = m2.lookup(path)->Ok_0;
            &&& r is Ok
            &&& fresh_handle(r->Ok_0, a, path)
            &&& tells_of(r->Ok_0.estat, components(path).last(), new)
            &&& m2.fread(path) == Ok::<Seq<u8>, XHFSError>(Seq::empty())
            &&& ready(m2, r->Ok_0)
            &&& promised(m2, r->Ok_0) == Seq::<u8>::empty()
            &&& m2.lookup(path) is Ok
            &&& new.total_file_size == 0
            &&& new.nlink == old.nlink
            &&& new.inumber == old.inumber
            &&& new.ctime == old.ctime
            &&& new.mtime == now
        }),
{
    let none = Seq::<u8>::empty();
    let opt = WriteOption { overwrite: true, modified: None };
    lemma_some_group(m, path);
    overwriting_succeeds_with_room(m, path, none, INodeKind::File, opt, now, 0, 0);
    lemma_lookup_split(m, path);
    written_file_reads_back(m, path, none, opt, now);
    overwriting_keeps_the_inode(m, path, none, INodeKind::File, opt, now);
    let (m2, r) = m.dav_open(a, path, true, true, now);
    assert(promised(m2, r->Ok_0) =~= none);
}

/// A volume with inodes has a group.
proof fn lemma_some_group(m: Image, path: Seq<char>)
    requires
        grounded(m),
        m.lookup(path) is Ok,
    ensures
        m.format.group_count > 0,
{
    let parts = components(path);
    lemma_walk_live(m, parts, parts.len());
    lemma_node_ok(m, m.lookup(path)->Ok_0.inumber);
    lemma_format(m);
}

/// Whatever path is opened for writing anew, if that succeeds the file is there and empty, and the
/// handle stands at its start with nothing held back.
pub proof fn opened_anew_is_empty(m: Image, a: XHFSAdapter, path: Seq<char>, now: u64)
    requires
        grounded(m),
        writable(m, path),
        m.dav_open(a, path, true, true, now).1 is Ok,
    ensures
        ({
            let (m2, r) = m.dav_open(a, path, true, true, now);
            &&& fresh_handle(r->Ok_0, a, path)
            &&& m2.fread(path) == Ok::<Seq<u8>, XHFSError>(Seq::empty())
            &&& ready(m2, r->Ok_0)
            &&& promised(m2, r->Ok_0) == Seq::<u8>::empty()
        }),
{
    let none = Seq::<u8>::empty();
    let opt = WriteOption { overwrite: true, modified: None };
    written_file_reads_back(m, path, none, opt, now);
    lemma_written(m, path, none, INodeKind::File, opt, now);
    let (m2, r) = m.dav_open(a, path, true, true, now);
    assert(promised(m2, r->Ok_0) =~= none);
}

/// A volume that is offered for reading only is not opened for writing anew, and stays as it is.
pub proof fn reading_only_refuses_to_empty(m: Image, a: XHFSAdapter, path: Seq<char>, now: u64)
    requires
        a.read_only,
    ensures
        m.dav_open(a, path, true, true, now) == (m, Err::<OpenFile, _>(DavFault::Forbidden)),
{
}

/// Opening without emptying changes nothing. A file is opened at its start, with nothing held back;
/// a directory is refused, and so is a path that leads nowhere.
pub proof fn opening_changes_nothing(
    m: Image,
    a: XHFSAdapter,
    path: Seq<char>,
    write: bool,
    truncate: bool,
    now: u64,
)
    requires
        !write || !truncate,
        components(path).len() > 0,
    ensures
        m.dav_open(a, path, write, truncate, now).0 == m,
        m.lookup(path) is Err ==> m.dav_open(a, path, write, truncate, now).1 == Err::<
            OpenFile,
            _,
        >(DavFault::NotFound),
        m.lookup(path) is Ok && m.lookup(path)->Ok_0.kind is Directory ==> m.dav_open(
            a,
            path,
            write,
            truncate,
            now,
        ).1 == Err::<OpenFile, _>(DavFault::Forbidden),
        m.lookup(path) is Ok && (m.lookup(path)->Ok_0.kind is File || m.lookup(
            path,
        )->Ok_0.kind is Symlink) ==> {
            let r = m.dav_open(a, path, write, truncate, now).1;
            &&& r is Ok
            &&& fresh_handle(r->Ok_0, a, path)
            &&& tells_of(r->Ok_0.estat, components(path).last(), m.lookup(path)->Ok_0)
        },
        m.lookup(path) is Ok && m.lookup(path)->Ok_0.kind is Hardlink && m.follow(
            m.lookup(path)->Ok_0,
        ) is Ok && m.follow(m.lookup(path)->Ok_0)->Ok_0.kind is File ==> {
            let r = m.dav_open(a, path, write, truncate, now).1;
            &&& r is Ok
            &&& fresh_handle(r->Ok_0, a, path)
            &&& tells_of(
                r->Ok_0.estat,
                components(path).last(),
                m.follow(m.lookup(path)->Ok_0)->Ok_0,
            )
        },
{
}

/// Holding data back or appending it keeps it behind all that was written before.
proof fn lemma_hold(m: Image, f: OpenFile, data: Seq<u8>, now: u64)
    requires
        ready(m, f),
        f.hold(m, data, now).2 is Ok,
    ensures
        ready(f.hold(m, data, now).0, f.hold(m, data, now).1),
        promised(f.hold(m, data, now).0, f.hold(m, data, now).1) == promised(m, f) + data,
        f.hold(m, data, now).1.offset == f.offset,
        f.hold(m, data, now).1.path == f.path,
{
    let g = OpenFile { buffer: f.buffer + data, ..f };
    assert(m.fread(f.path)->Ok_0 + (f.buffer + data) =~= promised(m, f) + data);
    if g.buffer.len() >= f.chunk_size {
        flushing_keeps_what_was_written(m, g, now);
        let (m2, h, r) = g.flush(m, now);
        assert(m2.fread(f.path)->Ok_0 + h.buffer =~= m2.fread(f.path)->Ok_0);
    }
}

/// The bytes of all pieces from the `k`th on, one after the other.
pub open spec fn bytes_from(pieces: Seq<Seq<u8>>, k: int) -> Seq<u8>
    decreases pieces.len() - k,
{
    if k >= pieces.len() {
        Seq::empty()
    } else {
        pieces[k] + bytes_from(pieces, k + 1)
    }
}

/// Pieces that are written to an open file come one after the other behind all that was written
/// before, and the place moves on by their bytes.
pub proof fn pieces_follow_one_another(
    m: Image,
    f: OpenFile,
    pieces: Seq<Seq<u8>>,
    k: int,
    now: u64,
)
    requires
        ready(m, f),
        0 <= k <= pieces.len(),
        f.write_pieces(m, pieces, k, now).2 is Ok,
    ensures
        ({
            let (m2, g, r) = f.write_pieces(m, pieces, k, now);
            &&& ready(m2, g)
            &&& g.path == f.path
            &&& promised(m2, g) == promised(m, f) + bytes_from(pieces, k)
            &&& g.offset == f.offset + bytes_from(pieces, k).len()
        }),
    decreases pieces.len() - k,
{
    if k < pieces.len() {
        let moved = OpenFile { offset: (f.offset + pieces[k].len()) as u64, ..f };
        lemma_hold(m, moved, pieces[k], now);
        let (m1, g, r) = moved.hold(m, pieces[k], now);
        pieces_follow_one_another(m1, g, pieces, k + 1, now);
        assert(promised(m, moved) == promised(m, f));
        assert(promised(m, f) + pieces[k] + bytes_from(pieces, k + 1) =~= promised(m, f) + (
        pieces[k] + bytes_from(pieces, k + 1)));
    } else {
        assert(promised(m, f) + bytes_from(pieces, k) =~= promised(m, f));
    }
}

/// A file that is opened for writing anew, written and flushed holds what was written and nothing
/// else, whatever it held before.
pub proof fn saved_file_holds_what_was_written(
    m: Image,
    a: XHFSAdapter,
    path: Seq<char>,
    pieces: Seq<Seq<u8>>,
    t0: u64,
    t1: u64,
    t2: u64,
)
    requires
        grounded(m),
        writable(m, path),
        m.dav_open(a, path, true, true, t0).1 is Ok,
        ({
            let (m1, r) = m.dav_open(a, path, true, true, t0);
            let (m2, g, w) = r->Ok_0.write_pieces(m1, pieces, 0, t1);
            &&& w is Ok
            &&& g.flush(m2, t2).2 is Ok
        }),
    ensures
        ({
            let (m1, r) = m.dav_open(a, path, true, true, t0);
            let (m2, g, w) = r->Ok_0.write_pieces(m1, pieces, 0, t1);
            g.flush(m2, t2).0.fread(path) == Ok::<_, XHFSError>(bytes_from(pieces, 0))
        }),
{
    opened_anew_is_empty(m, a, path, t0);
    let (m1, r) = m.dav_open(a, path, true, true, t0);
    let f = r->Ok_0;
    pieces_follow_one_another(m1, f, pieces, 0, t1);
    let (m2, g, w) = f.write_pieces(m1, pieces, 0, t1);
    flushing_keeps_what_was_written(m2, g, t2);
    assert(Seq::<u8>::empty() + bytes_from(pieces, 0) =~= bytes_from(pieces, 0));
}

/// A handle that is for reading only writes nothing.
pub proof fn reading_handle_writes_nothing(m: Image, f: OpenFile, data: Seq<u8>, now: u64)
    requires
        f.read_only,
    ensures
        f.write(m, data, now) == (m, f, Err::<(), _>(DavFault::Forbidden)),
{
}

/// Reading from an open file gives the bytes from the present place on of all that was written,
/// as many as are asked for or as there are, and the place moves on by as many. What was held back
/// is in the file afterwards.
pub proof fn reading_gives_what_follows(m: Image, f: OpenFile, count: usize, now: u64)
    requires
        ready(m, f),
        f.flush(m, now).2 is Ok,
        f.offset + count <= u64::MAX,
        promised(m, f).len() <= u64::MAX,
    ensures
        ({
            let (m2, g, r) = f.read(m, count, now);
            let data = between(promised(m, f), f.offset, (f.offset + count) as u64);
            &&& r == Ok::<_, DavFault>(data)
            &&& g.offset == f.offset + data.len()
            &&& g.buffer.len() == 0
            &&& m2.fread(f.path) == Ok::<_, XHFSError>(promised(m, f))
            &&& f.offset <= promised(m, f).len() && data.len() < count ==> g.offset == promised(
                m,
                f,
            ).len()
        }),
{
    flushing_keeps_what_was_written(m, f, now);
    let (m2, g, r) = f.flush(m, now);
    let parts = components(f.path);
    lemma_walk_live(m2, parts, parts.len());
    lemma_node_ok(m2, m2.lookup(f.path)->Ok_0.inumber);
    seek_reads_part_of_file(m2, f.path, f.offset, (f.offset + count) as u64);
}

/// A place is sought from the start, from the present place or from the end of the file as it was
/// when it was opened. A place before the start is refused.
pub proof fn places_are_sought(f: OpenFile, n: i64, at: u64)
    requires
        f.offset <= i64::MAX,
        f.estat.size is Some ==> f.estat.size->0 <= i64::MAX,
    ensures
        f.sought(SeekTo::Start(at)) == Ok::<_, DavFault>(at),
        0 <= f.offset + n <= i64::MAX ==> f.sought(SeekTo::Current(n)) == Ok::<_, DavFault>(
            (f.offset + n) as u64,
        ),
        f.offset + n < 0 ==> f.sought(SeekTo::Current(n)) == Err::<u64, _>(
            DavFault::GeneralFailure,
        ),
        ({
            let size = if f.estat.size is Some {
                f.estat.size->0 as int
            } else {
                0
            };
            &&& 0 <= size + n <= i64::MAX ==> f.sought(SeekTo::End(n)) == Ok::<_, DavFault>(
                (size + n) as u64,
            )
            &&& size + n < 0 ==> f.sought(SeekTo::End(n)) == Err::<u64, _>(
                DavFault::GeneralFailure,
            )
        }),
{
}

/// What a server tells of a path is what holds of the entry; of a hard link, what holds of what it
/// stands for. Of a path that leads nowhere it tells nothing.
pub proof fn metadata_tells_of_the_entry(m: Image, path: Seq<char>)
    requires
        components(path).len() > 0,
    ensures
        m.lookup(path) is Err ==> m.dav_metadata(path) == Err::<Stat, _>(DavFault::NotFound),
        m.lookup(path) is Ok && !(m.lookup(path)->Ok_0.kind is Hardlink) ==> m.dav_metadata(
            path,
        ) is Ok && tells_of(
            m.dav_metadata(path)->Ok_0,
            components(path).last(),
            m.lookup(path)->Ok_0,
        ),
        m.lookup(path) is Ok && m.lookup(path)->Ok_0.kind is Hardlink && m.follow(
            m.lookup(path)->Ok_0,
        ) is Ok ==> m.dav_metadata(path) is Ok && tells_of(
            m.dav_metadata(path)->Ok_0,
            components(path).last(),
            m.follow(m.lookup(path)->Ok_0)->Ok_0,
        ),
{
}

/// What is told of an entry in a directory: what holds of its inode, or of the inode that it
/// stands for as a hard link.
pub open spec fn told_of(m: Image, s: Stat, name: Seq<char>, n: u64) -> bool {
    if node_of(m, n).kind is Hardlink {
        tells_of(s, name, m.follow(node_of(m, n))->Ok_0)
    } else {
        tells_of(s, name, node_of(m, n))
    }
}

/// A path can hold the names of a directory, and all that they lead to can be told of.
pub open spec fn tellable(m: Image, e: Entries) -> bool {
    forall|i: int|
        0 <= i < e.len() ==> plain((#[trigger] e[i]).0) && live(m, e[i].1) && (node_of(
            m,
            e[i].1,
        ).kind is Hardlink ==> m.follow(node_of(m, e[i].1)) is Ok)
}

proof fn lemma_told(m: Image, path: Seq<char>, e: Entries, n: nat)
    requires
        grounded(m),
        m.lookup(path) is Ok,
        m.lookup(path)->Ok_0.kind is Directory,
        m.dir(m.lookup(path)->Ok_0.extent_addr) == Ok::<_, XHFSError>(e),
        tellable(m, e),
        n <= e.len(),
    ensures
        m.dav_entries(path, names_of(e), n).len() == n,
        forall|i: int|
            0 <= i < n ==> told_of(
                m,
                #[trigger] m.dav_entries(path, names_of(e), n)[i],
                e[i].0,
                e[i].1,
            ),
    decreases n,
{
    if n > 0 {
        lemma_told(m, path, e, (n - 1) as nat);
        let i = n - 1;
        let name = e[i].0;
        entry_is_found_by_its_path(m, path, e, i);
        joining_adds_a_component(path, name);
        let full = joined_path(path, name);
        assert(names_of(e)[i] == name);
        assert(components(full).last() == name);
    }
}

/// The path of an entry of a directory leads to the inode of the entry.
pub proof fn entry_is_found_by_its_path(m: Image, path: Seq<char>, e: Entries, i: int)
    requires
        grounded(m),
        m.lookup(path) is Ok,
        m.lookup(path)->Ok_0.kind is Directory,
        m.dir(m.lookup(path)->Ok_0.extent_addr) == Ok::<_, XHFSError>(e),
        0 <= i < e.len(),
        plain(e[i].0),
        live(m, e[i].1),
    ensures
        m.lookup(joined_path(path, e[i].0)) == Ok::<_, XHFSError>(node_of(m, e[i].1)),
{
    let parts = components(path);
    let name = e[i].0;
    let full = joined_path(path, name);
    joining_adds_a_component(path, name);
    let all = components(full);
    lemma_walk_live(m, parts, parts.len());
    lemma_good(m, m.lookup(path)->Ok_0.inumber);
    lemma_position_unique(m, e, i);
    assert(all.drop_last() =~= parts);
    lemma_walk_prefix(m, all, parts, parts.len());
}

/// A directory is told of entry by entry, in their order, each under its name.
pub proof fn directory_is_told_entry_by_entry(m: Image, path: Seq<char>, e: Entries)
    requires
        grounded(m),
        m.lookup(path) is Ok,
        m.lookup(path)->Ok_0.kind is Directory,
        m.dir(m.lookup(path)->Ok_0.extent_addr) == Ok::<_, XHFSError>(e),
        tellable(m, e),
        components(path).len() > 0 ==> components(path).last() != ".localized"@,
    ensures
        ({
            let r = m.dav_read_dir(path);
            &&& r is Ok
            &&& r->Ok_0.len() == e.len()
            &&& forall|i: int|
                0 <= i < e.len() ==> told_of(m, #[trigger] r->Ok_0[i], e[i].0, e[i].1)
        }),
{
    lemma_told(m, path, e, e.len());
}

/// A volume that is offered for reading only is not changed: every wish to do so is forbidden.
pub proof fn reading_only_forbids_changes(
    m: Image,
    a: XHFSAdapter,
    path: Seq<char>,
    to: Seq<char>,
    now: u64,
)
    requires
        a.read_only,
    ensures
        m.dav_create_dir(a, path, now).0 == m,
        m.dav_create_dir(a, path, now).1 == Err::<(), _>(DavFault::Forbidden),
        m.dav_remove(a, path, now).0 == m,
        m.dav_remove(a, path, now).1 == Err::<(), _>(DavFault::Forbidden),
        m.dav_rename(a, path, to, now).0 == m,
        m.dav_rename(a, path, to, now).1 == Err::<(), _>(DavFault::Forbidden),
{
}

/// A directory that is wished for is there afterwards: a new one is empty, one that was there is
/// as it was, and files keep their contents. The wish is granted where there is room for it, with
/// all the directories that lead to it.
pub proof fn wished_directory_is_made(
    m: Image,
    a: XHFSAdapter,
    path: Seq<char>,
    now: u64,
    j: nat,
    node: Node,
    e: Entries,
    spare: Seq<u64>,
    h: int,
    b: int,
)
    requires
        grounded(m),
        !a.read_only,
    ensures
        ({
            let (m2, r) = m.dav_create_dir(a, path, now);
            &&& r is Ok ==> {
                &&& m2.lookup(path) is Ok
                &&& m.lookup(path) is Ok ==> m2 == m
                &&& m.lookup(path) is Err ==> m2.lookup(path)->Ok_0.kind is Directory && m2.dir(
                    m2.lookup(path)->Ok_0.extent_addr,
                ) == Ok::<Entries, XHFSError>(Seq::empty())
                &&& files_kept(m, m2)
            }
            &&& r is Err ==> r == Err::<(), _>(DavFault::GeneralFailure)
            &&& room_to_make(m, path, j, node, e, spare, h, b) ==> r is Ok
        }),
{
    if m.dav_create_dir(a, path, now).1 is Ok {
        made_directory_is_there(m, path, true, now);
    }
    if room_to_make(m, path, j, node, e, spare, h, b) {
        mkdir_succeeds_with_room(m, path, true, now, j, node, e, spare, h, b);
    }
}

/// There are spare inodes and free blocks for the directories that are missing on a path, and their
/// names are not too long.
pub open spec fn room_to_make(
    m: Image,
    path: Seq<char>,
    j: nat,
    node: Node,
    e: Entries,
    spare: Seq<u64>,
    h: int,
    b: int,
) -> bool {
    &&& first_missing(m, path, j, node, e)
    &&& dir_bytes(e.push((components(path)[j as int], 0))) is Ok
    &&& forall|k: int|
        j < k < components(path).len() ==> name_slot(#[trigger] components(path)[k]) is Ok
    &&& tables_reach(m)
    &&& entries_fit(m, e.len() + 1)
    &&& j + 1 < components(path).len() ==> entries_fit(m, 1)
    &&& spare.len() == components(path).len() - j
    &&& spare_inodes(m, spare)
    &&& free_blocks(m, h, b, blocks_to_make(m, e.len() + 1, spare.len()))
}

/// What is removed is no longer found, and no other file goes with it but those that only it led
/// to.
pub proof fn removed_entry_is_not_found(m: Image, a: XHFSAdapter, path: Seq<char>, now: u64)
    requires
        grounded(m),
        !a.read_only,
        m.dav_remove(a, path, now).1 is Ok,
        m.parent(path)->Ok_0.0.kind is Directory,
        m.lookup(path) is Ok ==> removable_links(m, m.lookup(path)->Ok_0.inumber),
    ensures
        ({
            let m2 = m.dav_remove(a, path, now).0;
            &&& m.lookup(path) is Ok
            &&& m2.lookup(path) is Err
            &&& m2.dav_metadata(path) is Err
            &&& forall|n: u64|
                #[trigger] live(m, n) && !(node_of(m, n).kind is Directory) && !removed_with(
                    m,
                    m.lookup(path)->Ok_0.inumber,
                ).contains(n) ==> live(m2, n) && node_of(m2, n) == node_of(m, n) && same_content(
                    m,
                    m2,
                    ext(m, n),
                )
        }),
{
    unlinked_path_is_gone(m, path, now);
    lemma_lookup_split(m, path);
}

/// A file or link that is the only entry of its directory can always be removed.
pub proof fn only_entry_is_removed(m: Image, a: XHFSAdapter, path: Seq<char>, now: u64)
    requires
        grounded(m),
        !a.read_only,
        m.parent(path) is Ok,
        m.lookup(path) is Ok,
        m.lookup(path)->Ok_0.kind is File || m.lookup(path)->Ok_0.kind is Symlink,
        m.dir(m.parent(path)->Ok_0.0.extent_addr)->Ok_0.len() == 1,
    ensures
        m.dav_remove(a, path, now).1 is Ok,
        m.dav_remove(a, path, now).0.lookup(path) is Err,
{
    only_entry_is_always_removed(m, path, now);
    lemma_lookup_split(m, path);
    plain_entry_is_removable(m, path);
    unlinked_path_is_gone(m, path, now);
}

/// What is renamed is found under its new name and no longer under the old one, and files keep
/// their contents.
pub proof fn renamed_entry_is_found(
    m: Image,
    a: XHFSAdapter,
    from: Seq<char>,
    to: Seq<char>,
    now: u64,
)
    requires
        grounded(m),
        !a.read_only,
        m.dav_rename(a, from, to, now).1 is Ok,
        m.parent(from)->Ok_0.0.kind is Directory,
        m.parent(to)->Ok_0.0.kind is Directory,
        way_without(
            m,
            components(from),
            (components(from).len() - 1) as nat,
            m.parent(from)->Ok_0.0.inumber,
            m.parent(from)->Ok_0.1,
        ),
        way_without(
            m,
            components(to),
            (components(to).len() - 1) as nat,
            m.parent(from)->Ok_0.0.inumber,
            m.parent(from)->Ok_0.1,
        ),
        m.lookup(from) is Ok,
    ensures
        ({
            let m2 = m.dav_rename(a, from, to, now).0;
            &&& m2.lookup(to) is Ok
            &&& m2.lookup(to)->Ok_0.inumber == m.lookup(from)->Ok_0.inumber
            &&& m2.lookup(from) is Err
            &&& m.lookup(to) is Err
            &&& files_kept(m, m2)
        }),
{
    moved_entry_is_found(m, from, to, now);
}

/// A copy has the content of the file that was copied, also where it replaces another.
pub proof fn copy_has_the_same_content(
    m: Image,
    a: XHFSAdapter,
    from: Seq<char>,
    to: Seq<char>,
    now: u64,
    m2: Image,
)
    requires
        grounded(m),
        a.chunk_size > 0,
        writable(m, to),
        m.lookup(from) is Ok,
        m.lookup(from)->Ok_0.kind is File,
        m.lookup(to) is Ok ==> m.lookup(to)->Ok_0.inumber != m.lookup(from)->Ok_0.inumber,
        dav_copied(m, a, from, to, now, m2, Ok(())),
    ensures
        m.fread(from) is Ok,
        m2.fread(to) == m.fread(from),
{
    let opt = WriteOption { overwrite: true, modified: None };
    assert(stream_copied(m, from, to, a.chunk_size as nat, opt, now, m2, Ok(())));
    streamed_copy_has_same_content(m, from, to, a.chunk_size as nat, opt, now, m2);
}

/// The quota tells the size of the disk first and then the bytes of the blocks that are not taken.
pub proof fn quota_tells_size_and_free_space(m: Image)
    requires
        mapped(m),
        m.disk.len() <= u64::MAX,
        free_in_groups(m, m.format.group_count as nat) * m.format.block_size_bytes as int
            <= u64::MAX,
    ensures
        ({
            let r = m.dav_quota();
            &&& r is Ok
            &&& r->Ok_0.0 == m.disk.len()
            &&& r->Ok_0.1 == free_in_groups(m, m.format.group_count as nat)
                * m.format.block_size_bytes as int
        }),
{
    free_space_is_that_of_free_blocks(m);
    let n = free_in_groups(m, m.format.group_count as nat);
    let bs = m.format.block_size_bytes as int;
    assert(n * bs >= 0) by (nonlinear_arith)
        requires
            bs >= 0,
    ;
}

/// Less than a chunk is held back without touching the volume. Once there is a chunk nothing is
/// held back any longer.
pub proof fn less_than_a_chunk_is_held_back(m: Image, f: OpenFile, data: Seq<u8>, now: u64)
    requires
        !f.read_only,
        f.offset + data.len() <= u64::MAX,
    ensures
        ({
            let (m2, g, r) = f.write(m, data, now);
            &&& f.buffer.len() + data.len() < f.chunk_size ==> m2 == m && r is Ok && g.buffer
                == f.buffer + data && g.offset == f.offset + data.len()
            &&& f.buffer.len() + data.len() >= f.chunk_size ==> g.buffer.len() == 0
        }),
{
}

/// A write that the volume has no room for is answered as too large, any other failure as a general
/// one. What was held back is lost then.
pub proof fn want_of_room_is_told(m: Image, f: OpenFile, now: u64)
    requires
        f.buffer.len() > 0,
        m.fappend(f.path, f.buffer, now).1 is Err,
    ensures
        ({
            let e = m.fappend(f.path, f.buffer, now).1->Err_0;
            let (m2, g, r) = f.flush(m, now);
            &&& m2 == m.fappend(f.path, f.buffer, now).0
            &&& g.buffer.len() == 0
            &&& e is Insufficient ==> r == Err::<(), _>(DavFault::TooLarge)
            &&& e is Error ==> r == Err::<(), _>(DavFault::GeneralFailure)
        }),
{
}

} // verus!
