//! Making directories and moving entries, seen through paths.
use crate::addr::{maybe, MaybeU64};
use crate::error::XHFSError;
use crate::utils::components;
use crate::xhfs::chain_laws::sound_content;
use crate::xhfs::ds::{INodeKind, Node};
use crate::xhfs::image::Image;
use crate::xhfs::inode_laws::{is_inode, live, new_inode_reads_back, node_of};
use crate::xhfs::laws::same_volume;
use crate::xhfs::op_laws::{
    entries_extend, extends, fresh_node, good_entries, grounded, lemma_entries_push, lemma_good,
    lemma_good_push, lemma_grounded, lemma_node_ok, lemma_position, lemma_replace_entries,
    lemma_walk_extends, lemma_walk_live,
};
use crate::xhfs::sound::{ext, lemma_sound_new_inode, node_ok, same_content};
use crate::xhfs::tree::{entry_position, last_entry, without, Entries};
use crate::xhfs::unlink_laws::lemma_sound_zero;
use vstd::prelude::*;

verus! {

/// What extends an extension of a volume extends the volume.
pub proof fn lemma_extends_trans(a: Image, b: Image, c: Image)
    requires
        extends(a, b),
        extends(b, c),
    ensures
        extends(a, c),
{
    reveal(extends);
    assert forall|n: u64| #[trigger] live(a, n) implies live(c, n) && node_of(c, n).kind == node_of(
        a,
        n,
    ).kind by {
        assert(live(b, n));
    }
    assert forall|n: u64|
        #[trigger] live(a, n) && node_of(a, n).kind is Directory && a.dir(
            ext(a, n),
        ) is Ok implies c.dir(ext(c, n)) is Ok && entries_extend(
        a.dir(ext(a, n))->Ok_0,
        c.dir(ext(c, n))->Ok_0,
    ) by {
        assert(live(b, n));
        let e = a.dir(ext(a, n))->Ok_0;
        let f = b.dir(ext(b, n))->Ok_0;
        let g = c.dir(ext(c, n))->Ok_0;
        assert(entries_extend(e, f));
        assert(entries_extend(f, g));
        assert forall|name: Seq<char>|
            (#[trigger] entry_position(e, name)) is Some implies entry_position(g, name) is Some
            && g[entry_position(g, name)->0].1 == e[entry_position(e, name)->0].1 by {
            assert(entry_position(f, name) is Some);
        }
    }
}

pub proof fn lemma_extends_self(a: Image)
    ensures
        extends(a, a),
{
    reveal(extends);
}

/// Files and links are as before, with their contents.
pub open spec fn files_kept(m: Image, m2: Image) -> bool {
    forall|n: u64|
        #[trigger] live(m, n) && !(node_of(m, n).kind is Directory) ==> live(m2, n) && node_of(
            m2,
            n,
        ) == node_of(m, n) && same_content(m, m2, ext(m, n))
}

/// Inodes keep what they hold but for the address of the content and the time of the last change,
/// which is the former one or `now`.
pub open spec fn lasting(m: Image, m2: Image, now: u64) -> bool {
    forall|n: u64| #[trigger] live(m, n) ==> {
        let old = node_of(m, n);
        let new = node_of(m2, n);
        &&& live(m2, n)
        &&& new == Node { extent_addr: new.extent_addr, mtime: new.mtime, ..old }
        &&& new.mtime == old.mtime || new.mtime == now
    }
}

/// Making one directory in another.
pub proof fn lemma_make_dir(m: Image, parent: Node, name: Seq<char>, now: u64) -> (id: u64)
    requires
        grounded(m),
        live(m, parent.inumber),
        parent == node_of(m, parent.inumber),
        parent.kind is Directory,
        m.dir(parent.extent_addr) is Ok,
        entry_position(m.dir(parent.extent_addr)->Ok_0, name) is None,
        m.new_inode(parent.inumber, 0, maybe(0), INodeKind::Directory, now).1 is Ok,
        ({
            let (m1, r1) = m.new_inode(parent.inumber, 0, maybe(0), INodeKind::Directory, now);
            m1.replace_entries(
                parent,
                m.dir(parent.extent_addr)->Ok_0.push((name, r1->Ok_0.inumber)),
                now,
            ).1 is Ok
        }),
    ensures
        ({
            let e = m.dir(parent.extent_addr)->Ok_0;
            let (m1, r1) = m.new_inode(parent.inumber, 0, maybe(0), INodeKind::Directory, now);
            let m2 = m1.replace_entries(parent, e.push((name, r1->Ok_0.inumber)), now).0;
            let p = parent.inumber;
            &&& id == r1->Ok_0.inumber
            &&& grounded(m2)
            &&& same_volume(m, m2)
            &&& extends(m, m2)
            &&& files_kept(m, m2)
            &&& lasting(m, m2, now)
            &&& live(m2, id)
            &&& node_of(m2, id) == r1->Ok_0
            &&& r1->Ok_0 == fresh_node(id, INodeKind::Directory, 0, maybe(0), now)
            &&& live(m2, p)
            &&& node_of(m2, p) == (Node { extent_addr: ext(m2, p), mtime: now, ..parent })
            &&& m2.dir(ext(m2, p)) == Ok::<_, XHFSError>(e.push((name, id)))
            &&& m2.dir(ext(m2, id)) == Ok::<Entries, XHFSError>(Seq::empty())
        }),
{
    reveal(Image::content);
    reveal(grounded);
    let p = parent.inumber;
    let e = m.dir(parent.extent_addr)->Ok_0;
    let none = Seq::<MaybeU64>::empty();
    lemma_sound_zero(m);
    lemma_sound_new_inode(m, none, p, 0, maybe(0), INodeKind::Directory, now);
    new_inode_reads_back(m, p, 0, maybe(0), INodeKind::Directory, now);
    let (m1, r1) = m.new_inode(p, 0, maybe(0), INodeKind::Directory, now);
    let node = r1->Ok_0;
    let id = node.inumber;
    assert(id != p);
    assert(m1.inode(p) == m.inode(p));
    assert(live(m1, p));
    let f = e.push((name, id));
    lemma_replace_entries(m1, none, parent, f, now);
    let m2 = m1.replace_entries(parent, f, now).0;
    assert(good_entries(m, e));
    lemma_good_push(m, e, name, id);
    lemma_entries_push(e, name, id);
    assert(m2.inode(id) == m1.inode(id));
    assert(m2.content(maybe(0)) == Ok::<Seq<u8>, XHFSError>(Seq::empty()));
    assert(m2.dir(maybe(0)) == Ok::<Entries, XHFSError>(Seq::empty()));
    assert forall|n: u64| is_inode(m, n) && n != p && n != id implies #[trigger] m2.inode(n)
        == m.inode(n) by {
        assert(is_inode(m1, n));
        assert(m1.inode(n) == m.inode(n));
    }
    assert forall|n: u64| #[trigger] live(m, n) && n != p implies same_content(
        m,
        m2,
        ext(m, n),
    ) by {
        assert(n != id);
        assert(node_ok(m, n));
        assert(sound_content(m, ext(m, n)));
        assert(same_content(m, m1, ext(m, n)));
        assert(m1.inode(n) == m.inode(n));
        assert(live(m1, n));
        assert(same_content(m1, m2, ext(m1, n)));
    }
    lemma_grounded(m, m2, p, id);
    assert forall|n: u64|
        #[trigger] live(m, n) && !(node_of(m, n).kind is Directory) implies live(m2, n) && node_of(
        m2,
        n,
    ) == node_of(m, n) && same_content(m, m2, ext(m, n)) by {
        assert(n != p && n != id);
        assert(m2.inode(n) == m.inode(n));
    }
    assert forall|n: u64| #[trigger] live(m, n) && n != p implies m2.inode(n) == m.inode(n) by {
        assert(n != id);
        assert(is_inode(m, n));
    }
    id
}

/// A way that is blocked stays blocked further on.
proof fn lemma_walk_blocked(m: Image, parts: Seq<Seq<char>>, j: nat, k: nat)
    requires
        j <= k,
        m.walk(parts, j) is Err,
    ensures
        m.walk(parts, k) is Err,
    decreases k,
{
    if j < k {
        lemma_walk_blocked(m, parts, j, (k - 1) as nat);
    }
}

/// Making the directories of a path from some part on.
#[verifier::spinoff_prover]
#[verifier::rlimit(80)]
proof fn lemma_mkdir_from(
    m: Image,
    parts: Seq<Seq<char>>,
    k: int,
    node: Node,
    created: bool,
    recursive: bool,
    now: u64,
)
    requires
        grounded(m),
        0 <= k <= parts.len(),
        m.walk(parts, k as nat) == Ok::<_, XHFSError>(node),
        created ==> node == fresh_node(node.inumber, INodeKind::Directory, 0, maybe(0), now),
        m.mkdir_from(parts, k, node, created, recursive, now).1 is Ok,
    ensures
        ({
            let (m2, r) = m.mkdir_from(parts, k, node, created, recursive, now);
            &&& grounded(m2)
            &&& same_volume(m, m2)
            &&& extends(m, m2)
            &&& files_kept(m, m2)
            &&& lasting(m, m2, now)
            &&& m2.walk(parts, parts.len()) is Ok
            &&& r->Ok_0 ==> m2.walk(parts, parts.len())->Ok_0 == fresh_node(
                m2.walk(parts, parts.len())->Ok_0.inumber,
                INodeKind::Directory,
                0,
                maybe(0),
                now,
            )
            &&& !r->Ok_0 ==> m2 == m
            &&& r->Ok_0 == (created || m.walk(parts, parts.len()) is Err)
        }),
    decreases parts.len() - k,
{
    lemma_extends_self(m);
    lemma_walk_live(m, parts, k as nat);
    assert(files_kept(m, m)) by {
        assert forall|n: u64| #[trigger] live(m, n) implies same_content(m, m, ext(m, n)) by {
            lemma_node_ok(m, n);
        }
    }
    if k < parts.len() {
        let p = node.inumber;
        let e = m.dir(node.extent_addr)->Ok_0;
        assert(m.dir(maybe(0)) == Ok::<Entries, XHFSError>(Seq::empty())) by {
            reveal(Image::content);
        }
        let name = parts[k];
        lemma_position(e, name);
        lemma_good(m, p);
        match entry_position(e, name) {
            Some(i) => {
                let next = m.entry_inode(e[i].1)->Ok_0;
                assert(m.walk(parts, (k + 1) as nat) == Ok::<_, XHFSError>(next));
                lemma_mkdir_from(m, parts, k + 1, next, created, recursive, now);
            },
            None => {
                let (m1, r1) = m.new_inode(p, 0, maybe(0), INodeKind::Directory, now);
                let new = r1->Ok_0;
                let f = e.push((name, new.inumber));
                let m2 = m1.replace_entries(node, f, now).0;
                let id = lemma_make_dir(m, node, name, now);
                assert(m.walk(parts, (k + 1) as nat) is Err);
                lemma_walk_blocked(m, parts, (k + 1) as nat, parts.len());
                lemma_walk_extends(m, m2, parts, k as nat);
                lemma_entries_push(e, name, id);
                assert(m2.walk(parts, (k + 1) as nat) == Ok::<_, XHFSError>(new));
                lemma_mkdir_from(m2, parts, k + 1, new, true, recursive, now);
                let m3 = m.mkdir_from(parts, k, node, created, recursive, now).0;
                lemma_extends_trans(m, m2, m3);
                assert forall|n: u64|
                    #[trigger] live(m, n) && !(node_of(m, n).kind is Directory) implies live(m3, n)
                    && node_of(m3, n) == node_of(m, n) && same_content(m, m3, ext(m, n)) by {
                    assert(live(m2, n) && node_of(m2, n) == node_of(m, n));
                    assert(same_content(m, m2, ext(m, n)));
                    assert(same_content(m2, m3, ext(m2, n)));
                }
                assert forall|n: u64| #[trigger] live(m, n) implies live(m2, n) by {}
            },
        }
    }
}

/// A directory that was missing is made: it is there, new and empty, with one link. One that is
/// there is left, and then nothing changes. Every path still leads where it led, files keep their
/// contents, and other directories change only by a new entry.
pub proof fn made_directory_is_there(m: Image, path: Seq<char>, recursive: bool, now: u64)
    requires
        grounded(m),
        m.mkdir(path, recursive, now).1 is Ok,
    ensures
        ({
            let (m2, r) = m.mkdir(path, recursive, now);
            &&& grounded(m2)
            &&& same_volume(m, m2)
            &&& extends(m, m2)
            &&& files_kept(m, m2)
            &&& lasting(m, m2, now)
            &&& m2.lookup(path) is Ok
            &&& r->Ok_0 == (m.lookup(path) is Err)
            &&& r->Ok_0 ==> {
                let n = m2.lookup(path)->Ok_0;
                &&& n.kind is Directory
                &&& n.nlink == 1
                &&& n.total_file_size == 0
                &&& n.mtime == now
                &&& n.ctime == now
                &&& m2.dir(n.extent_addr) == Ok::<Entries, XHFSError>(Seq::empty())
            }
            &&& !r->Ok_0 ==> m2 == m
        }),
{
    reveal(Image::content);
    lemma_mkdir_from(m, components(path), 0, m.root()->Ok_0, false, recursive, now);
}

/// The entries with other names.
pub proof fn lemma_without(m: Image, e: Entries, name: Seq<char>)
    requires
        good_entries(m, e),
    ensures
        good_entries(m, without(e, name)),
        without(e, name).len() <= e.len(),
        entry_position(without(e, name), name) is None,
        forall|k: int|
            0 <= k < without(e, name).len() ==> e.contains(#[trigger] without(e, name)[k]),
        forall|x: Seq<char>|
            x != name ==> ({
                let a = #[trigger] entry_position(e, x);
                let b = entry_position(without(e, name), x);
                &&& a is Some <==> b is Some
                &&& a is Some ==> without(e, name)[b->0] == e[a->0]
            }),
        match last_entry(e, name) {
            Some(n) => entry_position(e, name) is Some && e[entry_position(e, name)->0].1 == n,
            None => entry_position(e, name) is None && without(e, name) == e,
        },
    decreases e.len(),
{
    if e.len() > 0 {
        let d = e.drop_last();
        assert forall|i: int, j: int| 0 <= i < d.len() && 0 <= j < d.len() && i != j implies (
        #[trigger] d[i]).0 != (#[trigger] d[j]).0 by {
            assert(e[i].0 != e[j].0);
        }
        assert forall|i: int| 0 <= i < d.len() implies is_inode(m, (#[trigger] d[i]).1) by {
            assert(is_inode(m, e[i].1));
        }
        lemma_without(m, d, name);
        let w = without(e, name);
        let b = without(d, name);
        let last = e.last();
        assert(e[e.len() - 1] == last);
        lemma_position(b, last.0);
        lemma_position(d, last.0);
        if last.0 == name {
            lemma_position(d, name);
            assert(entry_position(d, name) is None) by {
                if entry_position(d, name) is Some {
                    let i = entry_position(d, name)->0;
                    assert(d[i] == e[i]);
                    assert(e[i].0 != e[e.len() - 1].0);
                }
            }
            assert(w == b);
        } else {
            assert(w == b.push(last));
            assert(w.drop_last() =~= b);
            assert(entry_position(b, last.0) is None) by {
                if entry_position(b, last.0) is Some {
                    let i = entry_position(b, last.0)->0;
                    assert(d.contains(b[i]));
                    let k = choose|k: int| 0 <= k < d.len() && d[k] == b[i];
                    assert(e[k].0 != e[e.len() - 1].0);
                }
            }
            lemma_good_push(m, b, last.0, last.1);
            lemma_position(d, name);
            if last_entry(e, name) is Some {
                let i = entry_position(d, name)->0;
                assert(d[i] == e[i]);
            }
            if last_entry(e, name) is None {
                assert(b == d);
                assert(w =~= e);
            }
        }
        assert forall|k: int| 0 <= k < w.len() implies e.contains(#[trigger] w[k]) by {
            if k < b.len() {
                assert(d.contains(b[k]));
                let i = choose|i: int| 0 <= i < d.len() && d[i] == b[k];
                assert(e[i] == w[k]);
            } else {
                assert(e[e.len() - 1] == w[k]);
            }
        }
        assert forall|x: Seq<char>| x != name implies ({
            let a = #[trigger] entry_position(e, x);
            let c = entry_position(w, x);
            &&& a is Some <==> c is Some
            &&& a is Some ==> w[c->0] == e[a->0]
        }) by {
            lemma_position(e, x);
            lemma_position(d, x);
            lemma_position(b, x);
            let a0 = entry_position(d, x);
            let c0 = entry_position(b, x);
            if a0 is Some {
                assert(d[a0->0] == e[a0->0]);
                assert(b[c0->0] == d[a0->0]);
            }
        }
    }
}

} // verus!
