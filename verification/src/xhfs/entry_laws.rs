//! What directories list, and where links lead.
use crate::error::{Fault, XHFSError};
use crate::interface::cli::joined_path;
use crate::path_laws::{
    joining_adds_a_component, no_parents, normalizing_keeps_components, plain,
};
use crate::utils::{absolute, components, is_dot_dot, same_path};
use crate::xhfs::dir_laws::made_directory_is_there;
use crate::xhfs::ds::{INodeKind, Node};
use crate::xhfs::image::Image;
use crate::xhfs::inode_laws::{is_inode, live};
use crate::xhfs::name_laws::unlinking_takes_one_link_away;
use crate::xhfs::node_laws::writing_makes_a_new_inode;
use crate::xhfs::op_laws::{
    grounded, lemma_create, lemma_good, lemma_lookup_split, lemma_node_ok, lemma_overwrite,
    lemma_position, lemma_walk_extends, lemma_walk_live, lemma_written,
};
use crate::xhfs::ops::lemma_walk_prefix;
use crate::xhfs::sound::{ext, same_content};
use crate::xhfs::tree::{entry_position, split_parent, Entries, WriteOption};
use crate::xhfs::unlink_laws::removable_links;
use vstd::prelude::*;
use vstd::utf8::*;

verus! {

/// A path goes to the directory of its parent and from there to its last name.
pub proof fn path_is_parent_and_name(path: Seq<char>)
    ensures
        ({
            let parts = components(path);
            &&& split_parent(path) is Ok <==> parts.len() > 0 && !is_dot_dot(parts.last())
            &&& split_parent(path) is Ok ==> split_parent(path)->Ok_0.0.push(
                split_parent(path)->Ok_0.1,
            ) == parts
            &&& parts.len() > 0 && is_dot_dot(parts.last()) ==> split_parent(path) == Err::<
                (Seq<Seq<char>>, Seq<char>),
                _,
            >(XHFSError::Error { err: Fault::MissingFilename })
        }),
{
    let parts = components(path);
    if parts.len() > 0 {
        assert(parts.drop_last().push(parts.last()) =~= parts);
    }
}

/// A directory lists its entries. A name is among them if and only if the path of the directory
/// with that name behind it leads to an entry; it then leads to the inode of the entry.
pub proof fn listed_names_are_those_found(
    m: Image,
    path: Seq<char>,
    name: Seq<char>,
    e: Entries,
    fuel: nat,
)
    requires
        m.lookup(path) is Ok,
        m.lookup(path)->Ok_0.kind is Directory,
        m.dir(m.lookup(path)->Ok_0.extent_addr) == Ok::<_, XHFSError>(e),
        plain(name),
    ensures
        m.list(path, fuel) == Ok::<_, XHFSError>(e),
        (forall|i: int| 0 <= i < e.len() ==> (#[trigger] e[i]).0 != name) ==> m.lookup(
            joined_path(path, name),
        ) == Err::<Node, _>(
            XHFSError::Error {
                err: Fault::PathMissing { depth: (components(path).len() + 1) as u64 },
            },
        ),
        forall|i: int|
            0 <= i < e.len() && (#[trigger] e[i]).0 == name && (forall|j: int|
                0 <= j < i ==> (#[trigger] e[j]).0 != name) ==> m.lookup(joined_path(path, name))
                == m.entry_inode(e[i].1),
{
    let parts = components(path);
    joining_adds_a_component(path, name);
    let all = components(joined_path(path, name));
    assert(all.drop_last() =~= parts);
    lemma_walk_prefix(m, all, parts, parts.len());
    lemma_position(e, name);
}

/// A file is not listed, nor is a hard link.
pub proof fn only_directories_are_listed(m: Image, path: Seq<char>, fuel: nat)
    requires
        m.lookup(path) is Ok,
    ensures
        m.lookup(path)->Ok_0.kind is File ==> m.list(path, fuel) == Err::<Entries, _>(
            XHFSError::Error { err: Fault::CannotListFile },
        ),
        m.lookup(path)->Ok_0.kind is Hardlink ==> m.list(path, fuel) == Err::<Entries, _>(
            XHFSError::Error { err: Fault::CannotListHardlink },
        ),
{
}

/// A walk over parts that begin with those of another path passes where that path leads.
proof fn lemma_inside(m: Image, dir: Seq<char>, path: Seq<char>)
    requires
        components(path).len() > 0,
        components(path).drop_last() == components(dir),
    ensures
        m.walk(components(path), (components(path).len() - 1) as nat) == m.lookup(dir),
{
    let parts = components(path);
    lemma_walk_prefix(m, parts, parts.drop_last(), (parts.len() - 1) as nat);
}

/// A file or link that is made in a directory is listed there last, behind all that was listed
/// before.
pub proof fn new_entry_is_listed_last(
    m: Image,
    dir: Seq<char>,
    path: Seq<char>,
    data: Seq<u8>,
    kind: INodeKind,
    opt: WriteOption,
    now: u64,
    fuel: nat,
)
    requires
        grounded(m),
        !(kind is Directory),
        components(path).len() > 0,
        components(path).drop_last() == components(dir),
        m.lookup(dir) is Ok,
        m.lookup(dir)->Ok_0.kind is Directory,
        m.lookup(path) is Err,
        m.blob_write(path, data, kind, opt, now).1 is Ok,
    ensures
        ({
            let m2 = m.blob_write(path, data, kind, opt, now).0;
            &&& m.list(dir, fuel) is Ok
            &&& m2.lookup(path) is Ok
            &&& m2.list(dir, fuel) == Ok::<_, XHFSError>(
                m.list(dir, fuel)->Ok_0.push(
                    (components(path).last(), m2.lookup(path)->Ok_0.inumber),
                ),
            )
        }),
{
    let m2 = m.blob_write(path, data, kind, opt, now).0;
    lemma_lookup_split(m, path);
    lemma_inside(m, dir, path);
    lemma_inside(m2, dir, path);
    writing_makes_a_new_inode(m, path, data, kind, opt, now);
}

/// Writing over a file leaves the list of every directory as it is.
pub proof fn overwriting_leaves_lists_alone(
    m: Image,
    dir: Seq<char>,
    path: Seq<char>,
    data: Seq<u8>,
    kind: INodeKind,
    opt: WriteOption,
    now: u64,
    fuel: nat,
)
    requires
        grounded(m),
        !(kind is Directory),
        m.lookup(path) is Ok,
        m.lookup(dir) is Ok,
        m.lookup(dir)->Ok_0.kind is Directory,
        m.blob_write(path, data, kind, opt, now).1 is Ok,
    ensures
        m.blob_write(path, data, kind, opt, now).0.list(dir, fuel) == m.list(dir, fuel),
{
    let m2 = m.blob_write(path, data, kind, opt, now).0;
    let parts = components(path);
    let dp = components(dir);
    lemma_lookup_split(m, path);
    lemma_written(m, path, data, kind, opt, now);
    let (parent, name) = m.parent(path)->Ok_0;
    lemma_walk_live(m, parts, (parts.len() - 1) as nat);
    lemma_walk_live(m, parts, parts.len());
    lemma_walk_live(m, dp, dp.len());
    lemma_walk_extends(m, m2, dp, dp.len());
    let e = m.dir(parent.extent_addr)->Ok_0;
    let id = e[entry_position(e, name)->0].1;
    lemma_position(e, name);
    lemma_good(m, parent.inumber);
    assert(is_inode(m, id));
    lemma_node_ok(m, id);
    lemma_overwrite(m, id, data, opt, now);
    let d = m.lookup(dir)->Ok_0.inumber;
    assert(d != id);
    assert(live(m, d));
    assert(m2.inode(d) == m.inode(d));
    assert(same_content(m, m2, ext(m, d)));
}

/// An entry that is removed is no longer listed; all others are, in their order.
pub proof fn removed_entry_is_not_listed(
    m: Image,
    dir: Seq<char>,
    path: Seq<char>,
    now: u64,
    fuel: nat,
) -> (i: int)
    requires
        grounded(m),
        components(path).len() > 0,
        components(path).drop_last() == components(dir),
        m.lookup(path) is Ok,
        removable_links(m, m.lookup(path)->Ok_0.inumber),
        m.unlink(path, now).1 is Ok,
    ensures
        ({
            let m2 = m.unlink(path, now).0;
            let e = m.list(dir, fuel)->Ok_0;
            &&& m.list(dir, fuel) is Ok
            &&& 0 <= i < e.len()
            &&& e[i] == (components(path).last(), m.lookup(path)->Ok_0.inumber)
            &&& m2.list(dir, fuel) == Ok::<_, XHFSError>(e.remove(i))
        }),
{
    let m2 = m.unlink(path, now).0;
    lemma_lookup_split(m, path);
    lemma_inside(m, dir, path);
    lemma_inside(m2, dir, path);
    unlinking_takes_one_link_away(m, path, now);
    let parts = components(path);
    let k = (parts.len() - 1) as nat;
    let before = m.walk(parts, k)->Ok_0;
    let after = m2.walk(parts, k)->Ok_0;
    let old = m.lookup(path)->Ok_0;
    choose|i: int|
        {
            &&& 0 <= i < m.dir(before.extent_addr)->Ok_0.len()
            &&& (#[trigger] m.dir(before.extent_addr)->Ok_0[i]) == (parts.last(), old.inumber)
            &&& m2.dir(after.extent_addr) == Ok::<_, XHFSError>(
                m.dir(before.extent_addr)->Ok_0.remove(i),
            )
        }
}

/// A directory that was made is listed as empty.
pub proof fn made_directory_lists_nothing(
    m: Image,
    path: Seq<char>,
    recursive: bool,
    now: u64,
    fuel: nat,
)
    requires
        grounded(m),
        m.mkdir(path, recursive, now).1 == Ok::<bool, XHFSError>(true),
    ensures
        m.mkdir(path, recursive, now).0.list(path, fuel) == Ok::<Entries, XHFSError>(Seq::empty()),
{
    made_directory_is_there(m, path, recursive, now);
}

/// A symbolic link that was made leads to what its target leads to, whatever that is, and is itself
/// an entry of its own with one link. What it leads to is as it was.
pub proof fn symlink_leads_to_its_target(
    m: Image,
    path: Seq<char>,
    target: Seq<char>,
    opt: WriteOption,
    now: u64,
)
    requires
        grounded(m),
        m.parent(path) is Ok ==> m.parent(path)->Ok_0.0.kind is Directory,
        m.lookup(path) is Err,
        no_parents(components(target)),
        m.lookup(target) is Ok,
        m.symlink(path, target, opt, now).1 is Ok,
    ensures
        ({
            let m2 = m.symlink(path, target, opt, now).0;
            let link = m2.lookup(path)->Ok_0;
            let text = encode_utf8(absolute(components(target)));
            &&& m2.lookup(path) is Ok
            &&& link.kind is Symlink
            &&& link.nlink == 1
            &&& link.total_file_size == text.len()
            &&& m2.content(link.extent_addr) == Ok::<_, XHFSError>(text)
            &&& m2.follow(link) == m2.lookup(target)
            &&& m2.lookup(target) is Ok
            &&& m2.lookup(target)->Ok_0.inumber == m.lookup(target)->Ok_0.inumber
            &&& m2.lookup(target)->Ok_0.nlink == m.lookup(target)->Ok_0.nlink
        }),
{
    let link = absolute(components(target));
    let data = encode_utf8(link);
    let m2 = m.symlink(path, target, opt, now).0;
    encode_utf8_valid_utf8(link);
    encode_utf8_decode_utf8(link);
    lemma_written(m, path, data, INodeKind::Symlink, opt, now);
    writing_makes_a_new_inode(m, path, data, INodeKind::Symlink, opt, now);
    normalizing_keeps_components(target);
    let parts = components(target);
    lemma_walk_live(m, parts, parts.len());
    lemma_walk_extends(m, m2, parts, parts.len());
    lemma_lookup_split(m, path);
    let n = m.lookup(target)->Ok_0.inumber;
    let pp = components(path);
    let k = (pp.len() - 1) as nat;
    lemma_walk_live(m, pp, k);
    let p = m.walk(pp, k)->Ok_0.inumber;
    lemma_walk_extends(m, m2, pp, k);
    lemma_walk_live(m2, parts, parts.len());
    lemma_walk_live(m2, pp, k);
    if n != p {
        let (parent, name) = m.parent(path)->Ok_0;
        let e = m.dir(parent.extent_addr)->Ok_0;
        lemma_position(e, name);
        lemma_good(m, p);
        if entry_position(e, name) is Some {
            let id = e[entry_position(e, name)->0].1;
            assert(is_inode(m, id));
            lemma_overwrite(m, id, data, opt, now);
            lemma_node_ok(m, id);
        }
        let id = lemma_create(m, parent, name, data, INodeKind::Symlink, now);
        assert(live(m, n));
        assert(m2.inode(n) == m.inode(n));
    }
}

/// A symbolic link to a directory lists what the directory lists.
pub proof fn symlink_lists_as_its_target(m: Image, path: Seq<char>, target: Seq<char>, fuel: nat)
    requires
        m.lookup(path) is Ok,
        m.lookup(path)->Ok_0.kind is Symlink,
        m.content(m.lookup(path)->Ok_0.extent_addr) == Ok::<_, XHFSError>(encode_utf8(target)),
        !same_path(target, path),
    ensures
        m.list(path, fuel + 1) == m.list(target, fuel),
{
    encode_utf8_valid_utf8(target);
    encode_utf8_decode_utf8(target);
}

/// Only a file is linked to by a hard link; any other target is refused and nothing changes.
pub proof fn hardlink_only_to_a_file(
    m: Image,
    path: Seq<char>,
    target: Seq<char>,
    opt: WriteOption,
    now: u64,
)
    requires
        m.lookup(target) is Ok,
        !(m.lookup(target)->Ok_0.kind is File),
    ensures
        m.hardlink(path, target, opt, now) == (
            m,
            Err::<(), _>(
                XHFSError::Error {
                    err: Fault::HardlinkTarget { kind: m.lookup(target)->Ok_0.kind },
                },
            ),
        ),
{
}

/// What leads nowhere is not linked to, not copied, not read and not appended to.
pub proof fn missing_path_is_refused(
    m: Image,
    path: Seq<char>,
    dest: Seq<char>,
    data: Seq<u8>,
    opt: WriteOption,
    now: u64,
)
    requires
        m.lookup(path) is Err,
    ensures
        m.hardlink(dest, path, opt, now) == (m, Err::<(), _>(m.lookup(path)->Err_0)),
        m.fcopy(path, dest, opt, now) == (m, Err::<(), _>(m.lookup(path)->Err_0)),
        m.fread(path) == Err::<Seq<u8>, _>(m.lookup(path)->Err_0),
        m.fappend(path, data, now) == (m, Err::<(), _>(m.lookup(path)->Err_0)),
{
}

/// A path whose way stops at a file, at a link or at a name that is not there leads nowhere, and
/// the depth at which it stops is told.
pub proof fn way_stops_where_it_is_blocked(m: Image, path: Seq<char>, k: nat)
    requires
        k < components(path).len(),
        m.walk(components(path), k) is Ok,
    ensures
        ({
            let n = m.walk(components(path), k)->Ok_0;
            let r = m.lookup(path);
            &&& n.kind is File ==> r == Err::<Node, _>(
                XHFSError::Error { err: Fault::FileInPath { depth: k as u64 } },
            )
            &&& n.kind is Symlink || n.kind is Hardlink ==> r == Err::<Node, _>(
                XHFSError::Error { err: Fault::LinkInPath { depth: k as u64 } },
            )
            &&& n.kind is Directory && m.dir(n.extent_addr) is Ok && (forall|i: int|
                0 <= i < m.dir(n.extent_addr)->Ok_0.len() ==> (#[trigger] m.dir(
                    n.extent_addr,
                )->Ok_0[i]).0 != components(path)[k as int]) ==> r == Err::<Node, _>(
                XHFSError::Error { err: Fault::PathMissing { depth: (k + 1) as u64 } },
            )
        }),
{
    let parts = components(path);
    let n = m.walk(parts, k)->Ok_0;
    if n.kind is Directory && m.dir(n.extent_addr) is Ok {
        lemma_position(m.dir(n.extent_addr)->Ok_0, parts[k as int]);
    }
    if m.walk(parts, k + 1) is Err {
        lemma_stopped(m, parts, k + 1, parts.len());
    }
}

proof fn lemma_stopped(m: Image, parts: Seq<Seq<char>>, j: nat, k: nat)
    requires
        j <= k,
        m.walk(parts, j) is Err,
    ensures
        m.walk(parts, k) == m.walk(parts, j),
    decreases k,
{
    if j < k {
        lemma_stopped(m, parts, j, (k - 1) as nat);
    }
}

} // verus!
