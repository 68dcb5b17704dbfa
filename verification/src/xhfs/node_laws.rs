//! What writing, appending and linking change of an inode, and what is told of it.
use crate::codec::{le64, zeros};
use crate::error::XHFSError;
use crate::utils::components;
use crate::xhfs::chain_laws::sound_content;
use crate::xhfs::ds::{INodeKind, Node};
use crate::xhfs::failure_laws::lemma_register_succeeds;
use crate::xhfs::file_laws::{hardlink_reads_as_its_target, lemma_appended, lemma_counted};
use crate::xhfs::image::Image;
use crate::xhfs::inode_laws::{is_inode, live, node_of};
use crate::xhfs::op_laws::{
    grounded, lemma_create, lemma_entries_push, lemma_extends_node, lemma_good,
    lemma_lookup_again, lemma_lookup_split, lemma_node_ok, lemma_overwrite, lemma_position,
    lemma_walk_extends, lemma_walk_live, lemma_written,
};
use crate::xhfs::sound::{ext, lemma_sound_note, lemma_sound_store, node_ok, same_content};
use crate::xhfs::tree::{entry_position, Stat, WriteOption};
use vstd::prelude::*;

verus! {

/// Writing over what is at a path changes its size, its content and the time of its last change,
/// and nothing else of it: it has the number, the kind, the links and the time of making that it
/// had. The time is the wished one, or the present if none is wished.
pub proof fn overwriting_keeps_the_inode(
    m: Image,
    path: Seq<char>,
    data: Seq<u8>,
    kind: INodeKind,
    opt: WriteOption,
    now: u64,
)
    requires
        grounded(m),
        !(kind is Directory),
        m.lookup(path) is Ok,
        m.blob_write(path, data, kind, opt, now).1 is Ok,
    ensures
        ({
            let old = m.lookup(path)->Ok_0;
            let m2 = m.blob_write(path, data, kind, opt, now).0;
            let new = m2.lookup(path)->Ok_0;
            &&& m2.lookup(path) is Ok
            &&& new.nlink == old.nlink
            &&& new.inumber == old.inumber
            &&& new.kind == old.kind
            &&& new.ctime == old.ctime
            &&& new.extra_metadata == old.extra_metadata
            &&& new.total_file_size == data.len()
            &&& new.mtime == if opt.modified is Some {
                opt.modified->0
            } else {
                now
            }
            &&& m2.content(new.extent_addr) == Ok::<_, XHFSError>(data)
        }),
{
    lemma_lookup_split(m, path);
    lemma_written(m, path, data, kind, opt, now);
    let (parent, name) = m.parent(path)->Ok_0;
    let parts = components(path);
    let k = (parts.len() - 1) as nat;
    let e = m.dir(parent.extent_addr)->Ok_0;
    let i = entry_position(e, name)->0;
    let id = e[i].1;
    lemma_walk_live(m, parts, k);
    lemma_walk_live(m, parts, parts.len());
    lemma_position(e, name);
    lemma_good(m, parent.inumber);
    assert(is_inode(m, id));
    assert(live(m, id));
    lemma_node_ok(m, id);
    lemma_overwrite(m, id, data, opt, now);
    lemma_stored_len(m, data);
}

/// Data that could be stored is no longer than an address counts.
proof fn lemma_stored_len(m: Image, data: Seq<u8>)
    requires
        grounded(m),
        m.store(data).1 is Ok,
    ensures
        data.len() <= usize::MAX,
{
    reveal(grounded);
    lemma_sound_store(m, Seq::empty(), data);
}

/// What is made at a path by a write has one link and was made and changed at the present time,
/// whatever time is wished. The directory that it lies in was changed at that time too, and is
/// otherwise as it was.
pub proof fn writing_makes_a_new_inode(
    m: Image,
    path: Seq<char>,
    data: Seq<u8>,
    kind: INodeKind,
    opt: WriteOption,
    now: u64,
)
    requires
        grounded(m),
        !(kind is Directory),
        m.parent(path) is Ok ==> m.parent(path)->Ok_0.0.kind is Directory,
        m.lookup(path) is Err,
        m.blob_write(path, data, kind, opt, now).1 is Ok,
    ensures
        ({
            let m2 = m.blob_write(path, data, kind, opt, now).0;
            let new = m2.lookup(path)->Ok_0;
            let parts = components(path);
            let k = (parts.len() - 1) as nat;
            let before = m.walk(parts, k)->Ok_0;
            let after = m2.walk(parts, k)->Ok_0;
            &&& m2.lookup(path) is Ok
            &&& !live(m, new.inumber)
            &&& new.nlink == 1
            &&& new.kind == kind
            &&& new.total_file_size == data.len()
            &&& new.mtime == now
            &&& new.ctime == now
            &&& new.extra_metadata == zeros(32)
            &&& m2.content(new.extent_addr) == Ok::<_, XHFSError>(data)
            &&& parts.len() > 0
            &&& m.walk(parts, k) is Ok
            &&& m2.walk(parts, k) is Ok
            &&& m2.dir(after.extent_addr) is Ok
            &&& m2.dir(after.extent_addr)->Ok_0 == m.dir(before.extent_addr)->Ok_0.push(
                (parts.last(), new.inumber),
            )
            &&& after.mtime == now
            &&& after == (Node { extent_addr: after.extent_addr, mtime: now, ..before })
        }),
{
    lemma_written(m, path, data, kind, opt, now);
    lemma_lookup_split(m, path);
    let m2 = m.blob_write(path, data, kind, opt, now).0;
    let (parent, name) = m.parent(path)->Ok_0;
    let parts = components(path);
    let k = (parts.len() - 1) as nat;
    let e = m.dir(parent.extent_addr)->Ok_0;
    lemma_walk_live(m, parts, k);
    lemma_position(e, name);
    lemma_good(m, parent.inumber);
    if entry_position(e, name) is Some {
        let id = e[entry_position(e, name)->0].1;
        assert(is_inode(m, id));
        lemma_overwrite(m, id, data, opt, now);
        lemma_node_ok(m, id);
        assert(m.lookup(path) is Ok);
    }
    let id = lemma_create(m, parent, name, data, kind, now);
    lemma_stored_len(m, data);
    lemma_walk_extends(m, m2, parts, k);
    lemma_extends_node(m, m2, parent.inumber);
    lemma_entries_push(e, name, id);
    lemma_lookup_again(m2, path, node_of(m2, parent.inumber));
    lemma_node_ok(m2, id);
    assert(m2.lookup(path)->Ok_0 == node_of(m2, id));
}

/// Appending to a file changes its size, its content and the time of its last change, and nothing
/// else of it.
pub proof fn appending_keeps_the_inode(m: Image, path: Seq<char>, data: Seq<u8>, t: u64)
    requires
        grounded(m),
        m.lookup(path) is Ok,
        m.lookup(path)->Ok_0.kind is File,
        m.fappend(path, data, t).1 is Ok,
    ensures
        ({
            let old = m.lookup(path)->Ok_0;
            let m2 = m.fappend(path, data, t).0;
            let new = m2.lookup(path)->Ok_0;
            &&& m2.lookup(path) is Ok
            &&& new.nlink == old.nlink
            &&& new.inumber == old.inumber
            &&& new.kind == old.kind
            &&& new.ctime == old.ctime
            &&& new.extra_metadata == old.extra_metadata
            &&& new.total_file_size == old.total_file_size + data.len()
            &&& new.mtime == t
        }),
{
    let parts = components(path);
    let m2 = m.fappend(path, data, t).0;
    lemma_walk_live(m, parts, parts.len());
    let node = m.lookup(path)->Ok_0;
    lemma_appended(m, node, data, t, m.disk.len());
    lemma_walk_extends(m, m2, parts, parts.len());
}

/// What is told of an inode under a name is what the inode holds; a directory has no size.
pub open spec fn tells_of(s: Stat, name: Seq<char>, n: Node) -> bool {
    &&& s.name == name
    &&& s.kind == n.kind
    &&& s.nlink == n.nlink
    &&& s.mtime == n.mtime
    &&& s.ctime == n.ctime
    &&& s.size == if n.kind is Directory {
        None
    } else {
        Some(n.total_file_size as usize)
    }
}

/// What is told of a path is what the inode holds that the path leads to, under the last name of
/// the path. Of a path that leads nowhere nothing is told, and no other path is without. A hard
/// link is told of as itself unless it is to be followed.
pub proof fn stats_tell_of_the_entry(m: Image, path: Seq<char>, follow_hardlink: bool)
    requires
        components(path).len() > 0,
    ensures
        m.lookup(path) is Err ==> m.stats(path, follow_hardlink) == Ok::<_, XHFSError>(
            None::<Stat>,
        ),
        m.lookup(path) is Ok && !(follow_hardlink && m.lookup(path)->Ok_0.kind is Hardlink) ==> {
            let s = m.stats(path, follow_hardlink);
            &&& s is Ok
            &&& s->Ok_0 is Some
            &&& tells_of(s->Ok_0->0, components(path).last(), m.lookup(path)->Ok_0)
        },
        m.path_exists(path) == Ok::<bool, XHFSError>(m.lookup(path) is Ok),
{
}

/// Of the root it is told that it is a directory without a size, under the name of a slash.
pub proof fn stats_tell_of_the_root(m: Image, path: Seq<char>, follow_hardlink: bool)
    requires
        components(path).len() == 0,
        m.root() is Ok,
        m.root()->Ok_0.kind is Directory,
    ensures
        ({
            let s = m.stats(path, follow_hardlink);
            &&& s is Ok
            &&& s->Ok_0 is Some
            &&& tells_of(s->Ok_0->0, seq!['/'], m.root()->Ok_0)
        }),
        m.path_exists(path) == Ok::<bool, XHFSError>(true),
{
}

/// Of a hard link that was made it is told what holds of the file it links to, under the name of
/// the link, if it is to be followed: the kind, size, links and times of the file, which counts one
/// link more than before. If it is not to be followed it is told that it is a hard link of eight
/// bytes with one link, made at the present time.
pub proof fn stats_tell_of_a_hardlink(
    m: Image,
    path: Seq<char>,
    target: Seq<char>,
    opt: WriteOption,
    now: u64,
)
    requires
        grounded(m),
        m.parent(path) is Ok ==> m.parent(path)->Ok_0.0.kind is Directory,
        m.lookup(path) is Err,
        m.hardlink(path, target, opt, now).1 is Ok,
    ensures
        ({
            let m2 = m.hardlink(path, target, opt, now).0;
            let file = m2.lookup(target)->Ok_0;
            let before = m.lookup(target)->Ok_0;
            let followed = m2.stats(path, true);
            let itself = m2.stats(path, false);
            &&& m2.lookup(target) is Ok
            &&& file.kind is File
            &&& file.nlink == before.nlink + 1
            &&& file.total_file_size == before.total_file_size
            &&& file.mtime == before.mtime
            &&& file.ctime == before.ctime
            &&& file.inumber == before.inumber
            &&& followed is Ok && followed->Ok_0 is Some
            &&& tells_of(followed->Ok_0->0, components(path).last(), file)
            &&& itself is Ok && itself->Ok_0 is Some
            &&& itself->Ok_0->0.kind is Hardlink
            &&& itself->Ok_0->0.name == components(path).last()
            &&& itself->Ok_0->0.size == Some(8usize)
            &&& itself->Ok_0->0.nlink == 1
            &&& itself->Ok_0->0.mtime == now
            &&& itself->Ok_0->0.ctime == now
        }),
{
    hardlink_reads_as_its_target(m, path, target, opt, now);
    lemma_lookup_split(m, path);
    let file = m.lookup(target)->Ok_0;
    writing_makes_a_new_inode(m, path, le64(file.inumber), INodeKind::Hardlink, opt, now);
    lemma_link_kept(m, path, target, opt, now);
}

/// Counting the link leaves the link itself as it was written.
proof fn lemma_link_kept(
    m: Image,
    path: Seq<char>,
    target: Seq<char>,
    opt: WriteOption,
    now: u64,
)
    requires
        grounded(m),
        m.parent(path) is Ok ==> m.parent(path)->Ok_0.0.kind is Directory,
        m.lookup(path) is Err,
        m.hardlink(path, target, opt, now).1 is Ok,
    ensures
        m.hardlink(path, target, opt, now).0.lookup(path) == m.blob_write(
            path,
            le64(m.lookup(target)->Ok_0.inumber),
            INodeKind::Hardlink,
            opt,
            now,
        ).0.lookup(path),
{
    let node = m.lookup(target)->Ok_0;
    let parts = components(target);
    let data = le64(node.inumber);
    let m1 = m.blob_write(path, data, INodeKind::Hardlink, opt, now).0;
    let m2 = m.hardlink(path, target, opt, now).0;
    lemma_walk_live(m, parts, parts.len());
    lemma_written(m, path, data, INodeKind::Hardlink, opt, now);
    let link = m1.lookup(path)->Ok_0;
    assert(live(m, node.inumber));
    assert(node_of(m1, node.inumber) == node);
    lemma_counted(m1, node);
    lemma_walk_extends(m1, m2, components(path), components(path).len());
    assert(m2.inode(link.inumber) == m1.inode(link.inumber));
}

/// Noting a time in an inode changes the time of its last change to that time, and nothing else of
/// it or of any other inode. An inode that is there can always be noted.
pub proof fn noted_time_is_told(m: Image, n: u64, mtime: u64)
    requires
        grounded(m),
        live(m, n),
    ensures
        ({
            let old = node_of(m, n);
            let (m2, r) = m.noted(old, mtime);
            &&& r is Ok
            &&& r->Ok_0.mtime == mtime
            &&& r->Ok_0 == Node { mtime, ..old }
            &&& m2.inode(n) == Ok::<_, XHFSError>(Some(r->Ok_0))
            &&& m2.disk.len() == m.disk.len()
            &&& forall|k: u64| is_inode(m, k) && k != n ==> #[trigger] m2.inode(k) == m.inode(k)
            &&& forall|k: u64| #[trigger] live(m, k) ==> same_content(m, m2, ext(m, k))
        }),
{
    reveal(grounded);
    lemma_node_ok(m, n);
    let old = node_of(m, n);
    let new = Node { mtime, ..old };
    lemma_register_succeeds(m, new);
    lemma_sound_note(m, Seq::empty(), new);
    let m2 = m.noted(old, mtime).0;
    assert forall|k: u64| #[trigger] live(m, k) implies same_content(m, m2, ext(m, k)) by {
        assert(node_ok(m, k));
        assert(sound_content(m, ext(m, k)));
    }
}

} // verus!
