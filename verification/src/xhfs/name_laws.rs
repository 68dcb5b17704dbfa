//! What becomes of files and paths when a name is taken away.
use crate::error::XHFSError;
use crate::utils::components;
use crate::xhfs::ds::{hardlink_parse, hardlink_round_trip, Hardlink, INodeKind, Node};
use crate::xhfs::file_laws::hardlink_reads_as_its_target;
use crate::xhfs::image::Image;
use crate::xhfs::inode_laws::{is_inode, lemma_inode_place, live, node_of};
use crate::xhfs::link_laws::well_linked;
use crate::xhfs::node_laws::overwriting_keeps_the_inode;
use crate::xhfs::op_laws::{
    grounded, lemma_good, lemma_lookup_again, lemma_lookup_split, lemma_node_ok, lemma_position,
    lemma_position_unique, lemma_walk_extends, lemma_walk_live, lemma_written,
};
use crate::xhfs::sound::{ext, same_content};
use crate::xhfs::tree::{entry_position, Entries, WriteOption};
use crate::xhfs::unlink_laws::{
    lemma_removed, lemma_steps, lemma_unlink_entry, lemma_walk_down, removable_links, removed_with,
    step_kept, steps, unlinked_path_is_gone,
};
use crate::xhfs::volume::lemma_format;
use vstd::prelude::*;

verus! {

/// A walk that does not end at a removed inode can still be made.
proof fn lemma_other_walk(
    m: Image,
    m2: Image,
    parts: Seq<Seq<char>>,
    k: nat,
    parent: Node,
    e: Entries,
    i: int,
)
    requires
        grounded(m),
        live(m, parent.inumber),
        parent == node_of(m, parent.inumber),
        parent.kind is Directory,
        m.dir(parent.extent_addr) == Ok::<_, XHFSError>(e),
        0 <= i < e.len(),
        live(m2, parent.inumber),
        parent.inumber != e[i].1,
        node_of(m2, parent.inumber).kind is Directory,
        m2.dir(ext(m2, parent.inumber)) == Ok::<_, XHFSError>(e.remove(i)),
        node_of(m, e[i].1).kind is Directory ==> m.dir(ext(m, e[i].1)) == Ok::<Entries, XHFSError>(
            Seq::empty(),
        ),
        forall|n: u64|
            #[trigger] live(m, n) && n != parent.inumber && n != e[i].1 && node_of(
                m,
                n,
            ).kind is Directory ==> live(m2, n) && node_of(m2, n) == node_of(m, n) && same_content(
                m,
                m2,
                ext(m, n),
            ),
        m.walk(parts, k) is Ok,
        m.walk(parts, k)->Ok_0.inumber != e[i].1,
        live(m2, m.walk(parts, k)->Ok_0.inumber),
    ensures
        m2.walk(parts, k) == Ok::<_, XHFSError>(node_of(m2, m.walk(parts, k)->Ok_0.inumber)),
{
    let p = parent.inumber;
    let id = e[i].1;
    lemma_walk_live(m, parts, k);
    lemma_good(m, p);
    lemma_removed(m, e, i);
    assert forall|j: int| 0 <= j < k implies #[trigger] step_kept(m, m2, parts, j) by {
        lemma_passed(m, m2, parts, j as nat, k, parent, e, i);
        lemma_walk_down(m, parts, (j + 1) as nat, k);
        lemma_walk_live(m, parts, (j + 1) as nat);
        let n = m.walk(parts, j as nat)->Ok_0.inumber;
        let next = m.walk(parts, (j + 1) as nat)->Ok_0.inumber;
        if j + 1 < k {
            lemma_passed(m, m2, parts, (j + 1) as nat, k, parent, e, i);
        }
        assert(next != id && live(m2, next));
        let d = m.dir(ext(m, n))->Ok_0;
        lemma_position(d, parts[j]);
        lemma_good(m, n);
        let x = entry_position(d, parts[j])->0;
        assert(is_inode(m, d[x].1));
        assert(live(m, d[x].1));
        lemma_node_ok(m, d[x].1);
        assert(d[x].1 == next);
        if n == p {
            assert(d == e);
            assert(parts[j] != e[i].0) by {
                if parts[j] == e[i].0 {
                    lemma_position_unique(m, e, i);
                }
            }
        }
    }
    lemma_walk_down(m, parts, 0, k);
    lemma_walk_live(m, parts, 0);
    assert(live(m2, 1)) by {
        if k > 0 {
            lemma_passed(m, m2, parts, 0, k, parent, e, i);
        }
    }
    assert(steps(m, m2, parts, k));
    lemma_steps(m, m2, parts, k);
}

/// An inode that a walk passes is a directory with entries, so it is not the removed one.
proof fn lemma_passed(
    m: Image,
    m2: Image,
    parts: Seq<Seq<char>>,
    j: nat,
    k: nat,
    parent: Node,
    e: Entries,
    i: int,
)
    requires
        grounded(m),
        m.walk(parts, k) is Ok,
        j < k,
        0 <= i < e.len(),
        live(m2, parent.inumber),
        node_of(m2, parent.inumber).kind is Directory,
        node_of(m, e[i].1).kind is Directory ==> m.dir(ext(m, e[i].1)) == Ok::<Entries, XHFSError>(
            Seq::empty(),
        ),
        forall|n: u64|
            #[trigger] live(m, n) && n != parent.inumber && n != e[i].1 && node_of(
                m,
                n,
            ).kind is Directory ==> live(m2, n) && node_of(m2, n) == node_of(m, n) && same_content(
                m,
                m2,
                ext(m, n),
            ),
    ensures
        ({
            let n = m.walk(parts, j)->Ok_0.inumber;
            &&& m.walk(parts, j) is Ok
            &&& live(m, n)
            &&& node_of(m, n) == m.walk(parts, j)->Ok_0
            &&& node_of(m, n).kind is Directory
            &&& m.dir(ext(m, n)) is Ok
            &&& entry_position(m.dir(ext(m, n))->Ok_0, parts[j as int]) is Some
            &&& n != e[i].1
            &&& live(m2, n)
            &&& node_of(m2, n).kind is Directory
            &&& n != parent.inumber ==> node_of(m2, n) == node_of(m, n) && same_content(
                m,
                m2,
                ext(m, n),
            )
        }),
{
    lemma_walk_down(m, parts, j, k);
    lemma_walk_live(m, parts, j);
    let n = m.walk(parts, j)->Ok_0.inumber;
    lemma_position(m.dir(ext(m, n))->Ok_0, parts[j as int]);
    assert(live(m, n));
}

/// What removing an entry does, in terms of inodes.
proof fn lemma_unlinked(m: Image, path: Seq<char>, now: u64) -> (r: (Node, Entries, int))
    requires
        grounded(m),
        m.unlink(path, now).1 is Ok,
        m.parent(path)->Ok_0.0.kind is Directory,
        m.lookup(path) is Ok ==> removable_links(m, m.lookup(path)->Ok_0.inumber),
    ensures
        ({
            let (parent, e, i) = r;
            let parts = components(path);
            &&& parts.len() > 0
            &&& m.walk(parts, (parts.len() - 1) as nat) == Ok::<_, XHFSError>(parent)
            &&& live(m, parent.inumber)
            &&& parent == node_of(m, parent.inumber)
            &&& parent.kind is Directory
            &&& m.dir(parent.extent_addr) == Ok::<_, XHFSError>(e)
            &&& 0 <= i < e.len()
            &&& e[i].0 == parts.last()
            &&& live(m, e[i].1)
            &&& m.lookup(path) == Ok::<_, XHFSError>(node_of(m, e[i].1))
            &&& node_of(m, e[i].1).inumber == e[i].1
            &&& removable_links(m, e[i].1)
            &&& m.unlink(path, now) == m.unlink_entry(
                parent,
                e.remove(i),
                node_of(m, e[i].1),
                now,
            )
        }),
{
    lemma_lookup_split(m, path);
    let parts = components(path);
    let k = (parts.len() - 1) as nat;
    let (parent, name) = m.parent(path)->Ok_0;
    lemma_walk_live(m, parts, k);
    let e = m.dir(parent.extent_addr)->Ok_0;
    lemma_position(e, name);
    lemma_good(m, parent.inumber);
    let i = entry_position(e, name)->0;
    let id = e[i].1;
    assert(is_inode(m, id));
    assert(live(m, id));
    lemma_node_ok(m, id);
    lemma_lookup_again(m, path, parent);
    (parent, e, i)
}

/// The chain of an inode that is no hard link is the inode alone.
proof fn lemma_chain_alone(m: Image, id: u64)
    requires
        live(m, id),
        !(node_of(m, id).kind is Hardlink),
    ensures
        removed_with(m, id) == seq![id],
        m.link_chain(seq![id], id, m.disk.len()) is Ok,
{
}

/// The chain of a hard link to a file is the link and the file.
proof fn lemma_chain_link(m: Image, id: u64, file: u64)
    requires
        m.disk.len() > 0,
        live(m, id),
        node_of(m, id).kind is Hardlink,
        m.follow(node_of(m, id)) == Ok::<_, XHFSError>(node_of(m, file)),
        live(m, file),
        node_of(m, file).inumber == file,
        node_of(m, file).kind is File,
    ensures
        m.link_chain(seq![id], id, m.disk.len()) == Ok::<_, XHFSError>(seq![id, file]),
        id != file,
{
    assert(!seq![id].contains(file)) by {
        if seq![id].contains(file) {
            assert(seq![id][0] == file);
        }
    }
    let one = seq![id].push(file);
    assert(one =~= seq![id, file]);
    assert(m.link_chain(one, file, (m.disk.len() - 1) as nat) == Ok::<_, XHFSError>(one));
}

/// A file, link or empty directory that is no hard link can be removed.
pub proof fn plain_entry_is_removable(m: Image, path: Seq<char>)
    requires
        grounded(m),
        m.lookup(path) is Ok,
        !(m.lookup(path)->Ok_0.kind is Hardlink),
    ensures
        removable_links(m, m.lookup(path)->Ok_0.inumber),
{
    let parts = components(path);
    lemma_walk_live(m, parts, parts.len());
    let id = m.lookup(path)->Ok_0.inumber;
    lemma_chain_alone(m, id);
    assert(seq![id].contains(id)) by {
        assert(seq![id][0] == id);
    }
}

/// A hard link that stands for a file can be removed.
pub proof fn hardlink_is_removable(m: Image, path: Seq<char>, file: Node)
    requires
        grounded(m),
        m.lookup(path) is Ok,
        m.lookup(path)->Ok_0.kind is Hardlink,
        m.follow(m.lookup(path)->Ok_0) == Ok::<_, XHFSError>(file),
        well_linked(m, m.lookup(path)->Ok_0),
        file.kind is File,
    ensures
        removable_links(m, m.lookup(path)->Ok_0.inumber),
        removed_with(m, m.lookup(path)->Ok_0.inumber) == seq![
            m.lookup(path)->Ok_0.inumber,
            file.inumber,
        ],
        live(m, file.inumber),
        node_of(m, file.inumber) == file,
{
    let parts = components(path);
    lemma_walk_live(m, parts, parts.len());
    let link = m.lookup(path)->Ok_0;
    let id = link.inumber;
    let k = hardlink_parse(m.content(link.extent_addr)->Ok_0)->Ok_0.inumber;
    assert(live(m, k));
    lemma_node_ok(m, k);
    lemma_disk(m, id);
    lemma_chain_link(m, id, file.inumber);
    let s = seq![id, file.inumber];
    assert(s.contains(id)) by {
        assert(s[0] == id);
    }
}

/// A disk with inodes has bytes.
proof fn lemma_disk(m: Image, n: u64)
    requires
        grounded(m),
        live(m, n),
    ensures
        m.disk.len() > 0,
{
    reveal(Image::inode);
    lemma_node_ok(m, n);
    if m.disk.len() == 0 {
        assert(m.inode_bits(m.inode_group(n)) is Ok);
        lemma_format(m);
        lemma_inode_place(m, n);
    }
}

/// Removing a name takes one link away. The inode at the path is gone if that was its last link;
/// else it stays with one link less, with its content and all else that it held. The directory that
/// the name was in has all its other entries in their order, and was changed at the present time.
pub proof fn unlinking_takes_one_link_away(m: Image, path: Seq<char>, now: u64)
    requires
        grounded(m),
        m.unlink(path, now).1 is Ok,
        m.parent(path)->Ok_0.0.kind is Directory,
        m.lookup(path) is Ok ==> removable_links(m, m.lookup(path)->Ok_0.inumber),
    ensures
        ({
            let m2 = m.unlink(path, now).0;
            let old = m.lookup(path)->Ok_0;
            let parts = components(path);
            let k = (parts.len() - 1) as nat;
            let before = m.walk(parts, k)->Ok_0;
            let after = m2.walk(parts, k)->Ok_0;
            &&& m.lookup(path) is Ok
            &&& old.nlink <= 1 ==> !live(m2, old.inumber)
            &&& old.nlink > 1 ==> live(m2, old.inumber) && node_of(m2, old.inumber) == (Node {
                nlink: (old.nlink - 1) as u64,
                ..old
            }) && m2.content(old.extent_addr) == m.content(old.extent_addr)
            &&& parts.len() > 0
            &&& m.walk(parts, k) is Ok
            &&& m2.walk(parts, k) is Ok
            &&& after == (Node { extent_addr: after.extent_addr, mtime: now, ..before })
            &&& exists|i: int|
                {
                    &&& 0 <= i < m.dir(before.extent_addr)->Ok_0.len()
                    &&& (#[trigger] m.dir(before.extent_addr)->Ok_0[i]) == (
                        parts.last(),
                        old.inumber,
                    )
                    &&& m2.dir(after.extent_addr) == Ok::<_, XHFSError>(
                        m.dir(before.extent_addr)->Ok_0.remove(i),
                    )
                }
        }),
{
    let m2 = m.unlink(path, now).0;
    let (parent, e, i) = lemma_unlinked(m, path, now);
    lemma_unlink_entry(m, parent, e, i, now);
    let id = e[i].1;
    assert(removed_with(m, id).contains(id));
    let parts = components(path);
    let k = (parts.len() - 1) as nat;
    lemma_other_walk(m, m2, parts, k, parent, e, i);
    assert(e[i] == (parts.last(), id));
}

/// A path that does not lead to what is removed, nor to what that stands for as a hard link, leads
/// where it led before. Unless that is the directory that the removed name was in, it is exactly as
/// before; a file reads as before.
pub proof fn unlinking_leaves_other_paths(
    m: Image,
    path: Seq<char>,
    other: Seq<char>,
    now: u64,
)
    requires
        grounded(m),
        m.unlink(path, now).1 is Ok,
        m.parent(path)->Ok_0.0.kind is Directory,
        m.lookup(path) is Ok ==> removable_links(m, m.lookup(path)->Ok_0.inumber),
        m.lookup(other) is Ok,
        !removed_with(m, m.lookup(path)->Ok_0.inumber).contains(m.lookup(other)->Ok_0.inumber),
    ensures
        ({
            let m2 = m.unlink(path, now).0;
            let n = m.lookup(other)->Ok_0;
            &&& m2.lookup(other) is Ok
            &&& m2.lookup(other)->Ok_0.inumber == n.inumber
            &&& m2.lookup(other)->Ok_0.kind == n.kind
            &&& n.inumber != m.parent(path)->Ok_0.0.inumber ==> m2.lookup(other) == m.lookup(other)
                && m2.content(n.extent_addr) == m.content(n.extent_addr)
            &&& n.kind is File ==> m2.fread(other) == m.fread(other)
        }),
{
    let m2 = m.unlink(path, now).0;
    let (parent, e, i) = lemma_unlinked(m, path, now);
    lemma_lookup_split(m, path);
    lemma_unlink_entry(m, parent, e, i, now);
    let id = e[i].1;
    let parts = components(other);
    lemma_walk_live(m, parts, parts.len());
    let n = m.lookup(other)->Ok_0.inumber;
    assert(removed_with(m, id).contains(id));
    assert(live(m, n));
    assert(live(m2, n));
    lemma_other_walk(m, m2, parts, parts.len(), parent, e, i);
}

/// A file with more than one link outlives the removal of a hard link to it: it is found under its
/// own name with one link less, with its content and all else that it held.
pub proof fn file_outlives_its_hardlink(m: Image, link: Seq<char>, path: Seq<char>, now: u64)
    requires
        grounded(m),
        m.lookup(path) is Ok,
        m.lookup(path)->Ok_0.kind is File,
        m.lookup(path)->Ok_0.nlink > 1,
        m.lookup(link) is Ok,
        m.lookup(link)->Ok_0.kind is Hardlink,
        well_linked(m, m.lookup(link)->Ok_0),
        m.follow(m.lookup(link)->Ok_0) == m.lookup(path),
        m.unlink(link, now).1 is Ok,
    ensures
        ({
            let m2 = m.unlink(link, now).0;
            let file = m.lookup(path)->Ok_0;
            &&& grounded(m2)
            &&& m2.lookup(link) is Err
            &&& m2.lookup(path) == Ok::<_, XHFSError>(
                Node { nlink: (file.nlink - 1) as u64, ..file },
            )
            &&& m2.fread(path) == m.fread(path)
        }),
{
    let m2 = m.unlink(link, now).0;
    let file = m.lookup(path)->Ok_0;
    lemma_lookup_split(m, link);
    hardlink_is_removable(m, link, file);
    unlinked_path_is_gone(m, link, now);
    let (parent, e, i) = lemma_unlinked(m, link, now);
    lemma_unlink_entry(m, parent, e, i, now);
    let id = e[i].1;
    let gone = removed_with(m, id);
    assert(gone.contains(file.inumber)) by {
        assert(gone[1] == file.inumber);
    }
    let parts = components(path);
    lemma_walk_live(m, parts, parts.len());
    assert(live(m2, file.inumber));
    lemma_other_walk(m, m2, parts, parts.len(), parent, e, i);
}

/// A hard link outlives the removal of the name of its file while the file has more than one link:
/// it still reads as the file did.
pub proof fn hardlink_outlives_the_name_of_its_file(
    m: Image,
    link: Seq<char>,
    path: Seq<char>,
    now: u64,
)
    requires
        grounded(m),
        m.lookup(path) is Ok,
        m.lookup(path)->Ok_0.kind is File,
        m.lookup(path)->Ok_0.nlink > 1,
        m.lookup(link) is Ok,
        m.lookup(link)->Ok_0.kind is Hardlink,
        well_linked(m, m.lookup(link)->Ok_0),
        m.follow(m.lookup(link)->Ok_0) == m.lookup(path),
        m.unlink(path, now).1 is Ok,
    ensures
        ({
            let m2 = m.unlink(path, now).0;
            let file = m.lookup(path)->Ok_0;
            &&& grounded(m2)
            &&& m2.lookup(path) is Err
            &&& m2.lookup(link) == m.lookup(link)
            &&& m2.follow(m2.lookup(link)->Ok_0) == Ok::<_, XHFSError>(
                Node { nlink: (file.nlink - 1) as u64, ..file },
            )
            &&& m2.fread(link) == m.fread(path)
        }),
{
    let m2 = m.unlink(path, now).0;
    let file = m.lookup(path)->Ok_0;
    let l = m.lookup(link)->Ok_0;
    lemma_lookup_split(m, path);
    hardlink_is_removable(m, link, file);
    plain_entry_is_removable(m, path);
    unlinked_path_is_gone(m, path, now);
    unlinking_takes_one_link_away(m, path, now);
    let lp = components(link);
    lemma_walk_live(m, lp, lp.len());
    let pp = components(path);
    lemma_walk_live(m, pp, pp.len());
    lemma_chain_alone(m, file.inumber);
    let gone = removed_with(m, file.inumber);
    assert(gone[0] == file.inumber);
    assert(!gone.contains(l.inumber)) by {
        if gone.contains(l.inumber) {
            assert(l.inumber == file.inumber);
        }
    }
    let (parent, e, i) = lemma_unlinked(m, path, now);
    lemma_lookup_split(m, path);
    unlinking_leaves_other_paths(m, path, link, now);
    assert(l.inumber != parent.inumber);
    let n = hardlink_parse(m.content(l.extent_addr)->Ok_0)->Ok_0.inumber;
    assert(live(m, n));
    lemma_node_ok(m, n);
    assert(n == file.inumber);
    assert(m2.inode(n) == Ok::<_, XHFSError>(Some(node_of(m2, n))));
}

/// While a file has both its own name and a hard link, removing one of the names leaves the other,
/// and what is read under it is what was last written over the file, whatever that was.
pub proof fn written_file_outlives_a_name(
    m: Image,
    link: Seq<char>,
    path: Seq<char>,
    data: Seq<u8>,
    opt: WriteOption,
    link_opt: WriteOption,
    t0: u64,
    t1: u64,
    t2: u64,
)
    requires
        grounded(m),
        m.parent(link) is Ok ==> m.parent(link)->Ok_0.0.kind is Directory,
        m.lookup(link) is Err,
        m.lookup(path) is Ok,
        m.lookup(path)->Ok_0.nlink > 0,
        m.hardlink(link, path, link_opt, t0).1 is Ok,
        m.hardlink(link, path, link_opt, t0).0.blob_write(
            path,
            data,
            INodeKind::File,
            opt,
            t1,
        ).1 is Ok,
    ensures
        ({
            let m1 = m.hardlink(link, path, link_opt, t0).0;
            let m2 = m1.blob_write(path, data, INodeKind::File, opt, t1).0;
            &&& m2.lookup(path)->Ok_0.nlink == m.lookup(path)->Ok_0.nlink + 1
            &&& m2.fread(path) == Ok::<_, XHFSError>(data)
            &&& m2.fread(link) == Ok::<_, XHFSError>(data)
            &&& m2.unlink(link, t2).1 is Ok ==> m2.unlink(link, t2).0.fread(path) == Ok::<
                _,
                XHFSError,
            >(data)
            &&& m2.unlink(path, t2).1 is Ok ==> m2.unlink(path, t2).0.fread(link) == Ok::<
                _,
                XHFSError,
            >(data)
        }),
{
    hardlink_reads_as_its_target(m, link, path, link_opt, t0);
    let m1 = m.hardlink(link, path, link_opt, t0).0;
    let file = m1.lookup(path)->Ok_0;
    let l = m1.lookup(link)->Ok_0;
    lemma_lookup_split(m1, path);
    lemma_written(m1, path, data, INodeKind::File, opt, t1);
    overwriting_keeps_the_inode(m1, path, data, INodeKind::File, opt, t1);
    let m2 = m1.blob_write(path, data, INodeKind::File, opt, t1).0;
    let lp = components(link);
    let pp = components(path);
    lemma_walk_live(m1, lp, lp.len());
    lemma_walk_live(m1, pp, pp.len());
    lemma_walk_live(m2, pp, pp.len());
    lemma_walk_extends(m1, m2, lp, lp.len());
    assert(live(m1, l.inumber));
    assert(l.inumber != file.inumber);
    assert(same_content(m1, m2, ext(m1, l.inumber)));
    assert(m2.lookup(link) == Ok::<_, XHFSError>(l));
    hardlink_round_trip(Hardlink { inumber: file.inumber });
    let new = m2.lookup(path)->Ok_0;
    assert(m2.follow(l) == Ok::<_, XHFSError>(new));
    if m2.unlink(link, t2).1 is Ok {
        file_outlives_its_hardlink(m2, link, path, t2);
    }
    if m2.unlink(path, t2).1 is Ok {
        hardlink_outlives_the_name_of_its_file(m2, link, path, t2);
    }
}

} // verus!
