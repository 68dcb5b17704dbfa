//! What the operations on files and directories do, seen through paths.
use crate::addr::MaybeU64;
use crate::codec::zeros;
use crate::error::XHFSError;
use crate::utils::components;
use crate::xhfs::chain_laws::sound_content;
use crate::xhfs::ds::{dir_bytes, directory_round_trip, lemma_entry_rows_len, INodeKind, Node};
use crate::xhfs::image::Image;
use crate::xhfs::inode_laws::{is_inode, live, new_inode_reads_back, node_of};
use crate::xhfs::laws::same_volume;
use crate::xhfs::ops::lemma_walk_prefix;
use crate::xhfs::sound::{
    ext, lemma_sound_new_inode, lemma_sound_replace, lemma_sound_store, node_ok, same_content,
    sound,
};
use crate::xhfs::stream::noted_time;
use crate::xhfs::tree::{entry_position, Entries, WriteOption};
use crate::xhfs::volume::lemma_format;
use vstd::prelude::*;
use vstd::utf8::*;

verus! {

/// Every name occurs once, and every number belongs to an inode.
pub open spec fn good_entries(m: Image, e: Entries) -> bool {
    &&& forall|i: int, j: int|
        0 <= i < e.len() && 0 <= j < e.len() && i != j ==> (#[trigger] e[i]).0 != (
        #[trigger] e[j]).0
    &&& forall|i: int| 0 <= i < e.len() ==> is_inode(m, (#[trigger] e[i]).1)
    &&& e.len() <= u64::MAX
}

/// A sound volume whose directories have good entries.
#[verifier::opaque]
pub open spec fn grounded(m: Image) -> bool {
    &&& sound(m, Seq::empty())
    &&& forall|n: u64|
        #[trigger] live(m, n) && node_of(m, n).kind is Directory && m.dir(ext(m, n)) is Ok
            ==> good_entries(m, m.dir(ext(m, n))->Ok_0)
}

/// The first entry with a name.
pub proof fn lemma_position(e: Entries, name: Seq<char>)
    ensures
        match entry_position(e, name) {
            Some(i) => 0 <= i < e.len() && e[i].0 == name && forall|j: int|
                0 <= j < i ==> (#[trigger] e[j]).0 != name,
            None => forall|j: int| 0 <= j < e.len() ==> (#[trigger] e[j]).0 != name,
        },
    decreases e.len(),
{
    if e.len() > 0 {
        lemma_position(e.drop_last(), name);
        match entry_position(e.drop_last(), name) {
            Some(i) => {
                assert(e.drop_last()[i] == e[i]);
                assert forall|j: int| 0 <= j < i implies (#[trigger] e[j]).0 != name by {
                    assert(e.drop_last()[j] == e[j]);
                }
            },
            None => {
                assert forall|j: int| 0 <= j < e.len() - 1 implies (#[trigger] e[j]).0 != name by {
                    assert(e.drop_last()[j] == e[j]);
                }
            },
        }
    }
}

/// With unique names, an entry is found at its place.
pub proof fn lemma_position_unique(m: Image, e: Entries, i: int)
    requires
        good_entries(m, e),
        0 <= i < e.len(),
    ensures
        entry_position(e, e[i].0) == Some(i),
{
    lemma_position(e, e[i].0);
}

/// What a walk finds on a grounded volume is the inode under its number.
pub proof fn lemma_walk_live(m: Image, parts: Seq<Seq<char>>, k: nat)
    requires
        grounded(m),
        m.walk(parts, k) is Ok,
    ensures
        live(m, m.walk(parts, k)->Ok_0.inumber),
        node_of(m, m.walk(parts, k)->Ok_0.inumber) == m.walk(parts, k)->Ok_0,
        node_ok(m, m.walk(parts, k)->Ok_0.inumber),
        k == 0 ==> m.walk(parts, k)->Ok_0.inumber == 1,
    decreases k,
{
    reveal(grounded);
    lemma_format(m);
    let node = m.walk(parts, k)->Ok_0;
    if k == 0 {
        assert(m.inode_group(1) == 0) by (nonlinear_arith)
            requires
                m.inode_group(1) == (1u64 - 1) / m.format.param_inode_count_per_group as int,
                m.format.param_inode_count_per_group > 0,
        ;
        assert(live(m, 1));
        assert(node_ok(m, 1));
    } else {
        let dir = m.walk(parts, (k - 1) as nat)->Ok_0;
        lemma_walk_live(m, parts, (k - 1) as nat);
        let e = m.dir(dir.extent_addr)->Ok_0;
        assert(good_entries(m, e));
        lemma_position(e, parts[k - 1]);
        let i = entry_position(e, parts[k - 1])->0;
        assert(is_inode(m, e[i].1));
        assert(live(m, e[i].1));
        assert(node_ok(m, e[i].1));
    }
}

/// Every entry that could be found can still be found, under the same number.
pub open spec fn entries_extend(e: Entries, f: Entries) -> bool {
    forall|name: Seq<char>|
        (#[trigger] entry_position(e, name)) is Some ==> entry_position(f, name) is Some
            && f[entry_position(f, name)->0].1 == e[entry_position(e, name)->0].1
}

/// Every inode is still there, of the same kind, and every directory still has its entries.
#[verifier::opaque]
pub open spec fn extends(a: Image, b: Image) -> bool {
    &&& a.format == b.format
    &&& forall|n: u64|
        #[trigger] live(a, n) ==> live(b, n) && node_of(b, n).kind == node_of(a, n).kind
    &&& forall|n: u64|
        #[trigger] live(a, n) && node_of(a, n).kind is Directory && a.dir(ext(a, n)) is Ok
            ==> b.dir(ext(b, n)) is Ok && entries_extend(
            a.dir(ext(a, n))->Ok_0,
            b.dir(ext(b, n))->Ok_0,
        )
}

/// An inode is still there, of the same kind.
pub proof fn lemma_extends_node(a: Image, b: Image, n: u64)
    requires
        extends(a, b),
        live(a, n),
    ensures
        a.format == b.format,
        live(b, n),
        node_of(b, n).kind == node_of(a, n).kind,
{
    reveal(extends);
}

/// What a directory led to it still leads to.
proof fn lemma_child_extends(a: Image, b: Image, dir: Node, name: Seq<char>, depth: int)
    requires
        grounded(a),
        extends(a, b),
        live(a, dir.inumber),
        node_of(a, dir.inumber) == dir,
        a.child(dir, name, depth) is Ok,
    ensures
        b.child(node_of(b, dir.inumber), name, depth) == Ok::<_, XHFSError>(
            node_of(b, a.child(dir, name, depth)->Ok_0.inumber),
        ),
        live(b, a.child(dir, name, depth)->Ok_0.inumber),
{
    reveal(extends);
    reveal(grounded);
    let e = a.dir(dir.extent_addr)->Ok_0;
    let f = b.dir(ext(b, dir.inumber))->Ok_0;
    assert(entries_extend(e, f));
    assert(good_entries(a, e));
    lemma_position(e, name);
    let i = entry_position(e, name)->0;
    let k = e[i].1;
    assert(is_inode(a, k));
    assert(live(a, k));
    assert(node_ok(a, k));
    assert(live(b, k));
}

/// A path that led to an inode still leads to it.
pub proof fn lemma_walk_extends(a: Image, b: Image, parts: Seq<Seq<char>>, k: nat)
    requires
        grounded(a),
        extends(a, b),
        a.walk(parts, k) is Ok,
    ensures
        b.walk(parts, k) == Ok::<_, XHFSError>(node_of(b, a.walk(parts, k)->Ok_0.inumber)),
        live(b, a.walk(parts, k)->Ok_0.inumber),
    decreases k,
{
    lemma_walk_live(a, parts, k);
    let node = a.walk(parts, k)->Ok_0;
    lemma_extends_node(a, b, node.inumber);
    if k == 0 {
        assert(node.inumber == 1);
    } else {
        let dir = a.walk(parts, (k - 1) as nat)->Ok_0;
        lemma_walk_live(a, parts, (k - 1) as nat);
        lemma_walk_extends(a, b, parts, (k - 1) as nat);
        lemma_child_extends(a, b, dir, parts[k - 1], k - 1);
    }
}

/// A volume on which at most two inodes changed is grounded, and extends the old one, if that
/// holds of those two.
pub proof fn lemma_grounded(a: Image, b: Image, x: u64, y: u64)
    requires
        grounded(a),
        sound(b, Seq::empty()),
        a.format == b.format,
        forall|n: u64| is_inode(a, n) && n != x && n != y ==> #[trigger] b.inode(n) == a.inode(n),
        forall|n: u64|
            #[trigger] live(a, n) && n != x && n != y ==> same_content(a, b, ext(a, n)),
        forall|n: u64|
            (n == x || n == y) && #[trigger] live(b, n) && node_of(b, n).kind is Directory && b.dir(
                ext(b, n),
            ) is Ok ==> good_entries(a, b.dir(ext(b, n))->Ok_0),
    ensures
        grounded(b),
        (forall|n: u64|
            (n == x || n == y) && #[trigger] live(a, n) ==> live(b, n) && node_of(b, n).kind
                == node_of(a, n).kind && (node_of(a, n).kind is Directory && a.dir(ext(a, n)) is Ok
                ==> b.dir(ext(b, n)) is Ok && entries_extend(
                a.dir(ext(a, n))->Ok_0,
                b.dir(ext(b, n))->Ok_0,
            ))) ==> extends(a, b),
{
    reveal(extends);
    reveal(grounded);
    assert forall|n: u64|
        #[trigger] live(b, n) && node_of(b, n).kind is Directory && b.dir(
            ext(b, n),
        ) is Ok implies good_entries(b, b.dir(ext(b, n))->Ok_0) by {
        if n != x && n != y {
            assert(is_inode(a, n));
            assert(b.inode(n) == a.inode(n));
            assert(live(a, n));
            assert(same_content(a, b, ext(a, n)));
            assert(good_entries(a, a.dir(ext(a, n))->Ok_0));
        }
        let e = b.dir(ext(b, n))->Ok_0;
        assert(good_entries(a, e));
        assert forall|i: int| 0 <= i < e.len() implies is_inode(b, (#[trigger] e[i]).1) by {
            assert(is_inode(a, e[i].1));
        }
    }
    if forall|n: u64|
        (n == x || n == y) && #[trigger] live(a, n) ==> live(b, n) && node_of(b, n).kind == node_of(
            a,
            n,
        ).kind && (node_of(a, n).kind is Directory && a.dir(ext(a, n)) is Ok ==> b.dir(
            ext(b, n),
        ) is Ok && entries_extend(a.dir(ext(a, n))->Ok_0, b.dir(ext(b, n))->Ok_0)) {
        assert forall|n: u64| #[trigger] live(a, n) implies live(b, n) && node_of(b, n).kind
            == node_of(a, n).kind by {
            if n != x && n != y {
                assert(b.inode(n) == a.inode(n));
            }
        }
        assert forall|n: u64|
            #[trigger] live(a, n) && node_of(a, n).kind is Directory && a.dir(
                ext(a, n),
            ) is Ok implies b.dir(ext(b, n)) is Ok && entries_extend(
            a.dir(ext(a, n))->Ok_0,
            b.dir(ext(b, n))->Ok_0,
        ) by {
            if n != x && n != y {
                assert(b.inode(n) == a.inode(n));
                assert(same_content(a, b, ext(a, n)));
            }
        }
    }
}

/// Adding an entry under a new name keeps the other entries.
pub proof fn lemma_entries_push(e: Entries, name: Seq<char>, n: u64)
    requires
        entry_position(e, name) is None,
    ensures
        entries_extend(e, e.push((name, n))),
        entry_position(e.push((name, n)), name) == Some(e.len() as int),
{
    let f = e.push((name, n));
    assert(f.drop_last() =~= e);
    assert forall|x: Seq<char>| (#[trigger] entry_position(e, x)) is Some implies entry_position(
        f,
        x,
    ) is Some && f[entry_position(f, x)->0].1 == e[entry_position(e, x)->0].1 by {
        lemma_position(e, x);
    }
}

/// A good directory with one more good entry is good.
pub proof fn lemma_good_push(m: Image, e: Entries, name: Seq<char>, n: u64)
    requires
        good_entries(m, e),
        entry_position(e, name) is None,
        is_inode(m, n),
        e.len() < u64::MAX,
    ensures
        good_entries(m, e.push((name, n))),
{
    let f = e.push((name, n));
    lemma_position(e, name);
    assert forall|i: int, j: int| 0 <= i < f.len() && 0 <= j < f.len() && i != j implies (
    #[trigger] f[i]).0 != (#[trigger] f[j]).0 by {
        if i < e.len() && j < e.len() {
            assert(e[i].0 != e[j].0);
        }
    }
    assert forall|i: int| 0 <= i < f.len() implies is_inode(m, (#[trigger] f[i]).1) by {
        if i < e.len() {
            assert(is_inode(m, e[i].1));
        }
    }
}

/// A directory whose bytes can be counted has fewer entries than that.
pub proof fn lemma_dir_len(e: Entries)
    requires
        dir_bytes(e) is Ok,
    ensures
        264 * e.len() <= dir_bytes(e)->Ok_0.len(),
{
    lemma_entry_rows_len(e);
}

/// Replacing the entries of a directory: the directory has them, and every other inode and its
/// content are as before.
pub proof fn lemma_replace_entries(
    m: Image,
    loose: Seq<MaybeU64>,
    node: Node,
    e: Entries,
    now: u64,
)
    requires
        sound(m, loose),
        live(m, node.inumber),
        node == node_of(m, node.inumber),
        m.replace_entries(node, e, now).1 is Ok,
    ensures
        ({
            let m2 = m.replace_entries(node, e, now).0;
            &&& sound(m2, loose)
            &&& e.len() <= u64::MAX
            &&& live(m2, node.inumber)
            &&& node_of(m2, node.inumber) == (Node {
                extent_addr: ext(m2, node.inumber),
                mtime: now,
                ..node
            })
            &&& m2.dir(ext(m2, node.inumber)) == Ok::<_, XHFSError>(e)
            &&& forall|n: u64|
                is_inode(m, n) && n != node.inumber ==> #[trigger] m2.inode(n) == m.inode(n)
            &&& forall|n: u64|
                #[trigger] live(m, n) && n != node.inumber ==> same_content(m, m2, ext(m, n))
            &&& forall|j: int| 0 <= j < loose.len() ==> same_content(m, m2, #[trigger] loose[j])
            &&& m2.format == m.format
            &&& same_volume(m, m2)
        }),
{
    let bytes = dir_bytes(e)->Ok_0;
    lemma_sound_store(m, loose, bytes);
    lemma_dir_len(e);
    directory_round_trip(e);
    let (m1, r1) = m.store(bytes);
    let addr = r1->Ok_0;
    let id = node.inumber;
    assert(m1.inode(id) == m.inode(id));
    assert(node_ok(m, id));
    lemma_sound_replace(m1, loose, node, addr, now);
    let m2 = m.replace_entries(node, e, now).0;
    assert forall|n: u64| is_inode(m, n) && n != id implies #[trigger] m2.inode(n) == m.inode(
        n,
    ) by {
        assert(is_inode(m1, n));
        assert(m1.inode(n) == m.inode(n));
    }
    assert forall|n: u64| #[trigger] live(m, n) && n != id implies same_content(
        m,
        m2,
        ext(m, n),
    ) by {
        assert(node_ok(m, n));
        assert(sound_content(m, ext(m, n)));
        assert(same_content(m, m1, ext(m, n)));
        assert(m1.inode(n) == m.inode(n));
        assert(live(m1, n));
        assert(same_content(m1, m2, ext(m1, n)));
    }
    assert forall|j: int| 0 <= j < loose.len() implies same_content(m, m2, #[trigger] loose[j]) by {
        assert(sound_content(m, loose[j]));
        assert(same_content(m, m1, loose[j]));
        assert(same_content(m1, m2, loose[j]));
    }
}

/// An inode as it is made: one link, made and changed at the same time.
pub open spec fn fresh_node(
    id: u64,
    kind: INodeKind,
    size: u64,
    extent_addr: MaybeU64,
    now: u64,
) -> Node {
    Node {
        inumber: id,
        kind,
        nlink: 1,
        total_file_size: size,
        extent_addr,
        mtime: now,
        ctime: now,
        extra_metadata: zeros(32),
    }
}

/// Making a new entry: the name leads to a new inode with the data, the directory keeps its
/// other entries, and every other inode and its content are as before.
pub proof fn lemma_create(
    m: Image,
    parent: Node,
    name: Seq<char>,
    data: Seq<u8>,
    kind: INodeKind,
    now: u64,
) -> (id: u64)
    requires
        grounded(m),
        live(m, parent.inumber),
        parent == node_of(m, parent.inumber),
        parent.kind is Directory,
        m.dir(parent.extent_addr) is Ok,
        entry_position(m.dir(parent.extent_addr)->Ok_0, name) is None,
        !(kind is Directory),
        m.create(parent, m.dir(parent.extent_addr)->Ok_0, name, data, kind, now).1 is Ok,
    ensures
        ({
            let e = m.dir(parent.extent_addr)->Ok_0;
            let m2 = m.create(parent, e, name, data, kind, now).0;
            let p = parent.inumber;
            &&& grounded(m2)
            &&& extends(m, m2)
            &&& same_volume(m, m2)
            &&& !live(m, id)
            &&& live(m2, id)
            &&& node_of(m2, id).kind == kind
            &&& node_of(m2, id).total_file_size == data.len() as u64
            &&& m2.content(ext(m2, id)) == Ok::<_, XHFSError>(data)
            &&& node_of(m2, id) == fresh_node(id, kind, data.len() as u64, ext(m2, id), now)
            &&& node_of(m2, p) == (Node { extent_addr: ext(m2, p), mtime: now, ..parent })
            &&& m2.dir(ext(m2, p)) == Ok::<_, XHFSError>(e.push((name, id)))
            &&& forall|n: u64|
                is_inode(m, n) && n != p && n != id ==> #[trigger] m2.inode(n) == m.inode(n)
            &&& forall|n: u64|
                #[trigger] live(m, n) && n != p ==> same_content(m, m2, ext(m, n))
        }),
{
    reveal(grounded);
    let p = parent.inumber;
    let e = m.dir(parent.extent_addr)->Ok_0;
    let none = Seq::<MaybeU64>::empty();
    let (m1, r1) = m.store(data);
    let addr = r1->Ok_0;
    lemma_sound_store(m, none, data);
    assert(none.push(addr) =~= seq![addr]);
    assert(is_inode(m1, p));
    assert(m1.inode(p) == m.inode(p));
    let size = data.len() as u64;
    lemma_sound_new_inode(m1, none, p, size, addr, kind, now);
    let (m2, r2) = m1.new_inode(p, size, addr, kind, now);
    let node = r2->Ok_0;
    new_inode_reads_back(m1, p, size, addr, kind, now);
    let id = node.inumber;
    assert(live(m1, p));
    assert(id != p);
    assert(m2.inode(p) == m1.inode(p));
    assert(live(m2, p));
    let f = e.push((name, id));
    lemma_replace_entries(m2, none, parent, f, now);
    let m3 = m.create(parent, e, name, data, kind, now).0;
    assert(good_entries(m, e));
    lemma_good_push(m, e, name, id);
    lemma_entries_push(e, name, id);
    assert(sound_content(m1, addr)) by {
        assert(none.push(addr)[0] == addr);
    }
    assert(same_content(m1, m2, addr));
    assert(live(m2, id));
    assert(same_content(m2, m3, ext(m2, id)));
    assert(m3.inode(id) == m2.inode(id));
    assert forall|n: u64| is_inode(m, n) && n != p && n != id implies #[trigger] m3.inode(n)
        == m.inode(n) by {
        assert(is_inode(m1, n) && is_inode(m2, n));
        assert(m1.inode(n) == m.inode(n));
        assert(m2.inode(n) == m1.inode(n));
    }
    assert(!live(m, id)) by {
        if live(m, id) {
            assert(m1.inode(id) == m.inode(id));
            assert(live(m1, id));
        }
    }
    assert forall|n: u64| #[trigger] live(m, n) && n != p implies same_content(
        m,
        m3,
        ext(m, n),
    ) by {
        assert(n != id);
        assert(node_ok(m, n));
        assert(sound_content(m, ext(m, n)));
        assert(same_content(m, m1, ext(m, n)));
        assert(sound_content(m1, ext(m, n)));
        assert(same_content(m1, m2, ext(m, n)));
        assert(m1.inode(n) == m.inode(n));
        assert(m2.inode(n) == m1.inode(n));
        assert(live(m2, n));
        assert(same_content(m2, m3, ext(m2, n)));
    }
    lemma_grounded(m, m3, p, id);
    assert(live(m3, id));
    id
}

/// Replacing the content of a file or link: it has the data, and every other inode and its
/// content are as before.
pub proof fn lemma_overwrite(m: Image, id: u64, data: Seq<u8>, opt: WriteOption, now: u64)
    requires
        grounded(m),
        is_inode(m, id),
        m.overwrite(id, data, opt, now).1 is Ok,
    ensures
        ({
            let m2 = m.overwrite(id, data, opt, now).0;
            &&& grounded(m2)
            &&& extends(m, m2)
            &&& same_volume(m, m2)
            &&& live(m, id)
            &&& live(m2, id)
            &&& !(node_of(m, id).kind is Directory)
            &&& m2.content(ext(m2, id)) == Ok::<_, XHFSError>(data)
            &&& node_of(m2, id).total_file_size == data.len() as u64
            &&& node_of(m2, id) == (Node {
                total_file_size: data.len() as u64,
                extent_addr: ext(m2, id),
                mtime: noted_time(opt, now),
                ..node_of(m, id)
            })
            &&& forall|n: u64|
                is_inode(m, n) && n != id ==> #[trigger] m2.inode(n) == m.inode(n)
            &&& forall|n: u64|
                #[trigger] live(m, n) && n != id ==> same_content(m, m2, ext(m, n))
        }),
{
    reveal(grounded);
    let none = Seq::<MaybeU64>::empty();
    assert(live(m, id));
    assert(node_ok(m, id));
    let node = node_of(m, id);
    let (m1, r1) = m.store(data);
    let addr = r1->Ok_0;
    lemma_sound_store(m, none, data);
    assert(m1.inode(id) == m.inode(id));
    assert(live(m1, id));
    let sized = Node { total_file_size: data.len() as u64, ..node };
    let t = match opt.modified {
        Some(t) => t,
        None => now,
    };
    lemma_sound_replace(m1, none, sized, addr, t);
    let m2 = m.overwrite(id, data, opt, now).0;
    assert forall|n: u64| is_inode(m, n) && n != id implies #[trigger] m2.inode(n) == m.inode(
        n,
    ) by {
        assert(is_inode(m1, n));
        assert(m1.inode(n) == m.inode(n));
    }
    assert forall|n: u64| #[trigger] live(m, n) && n != id implies same_content(
        m,
        m2,
        ext(m, n),
    ) by {
        assert(node_ok(m, n));
        assert(sound_content(m, ext(m, n)));
        assert(same_content(m, m1, ext(m, n)));
        assert(m1.inode(n) == m.inode(n));
        assert(live(m1, n));
        assert(same_content(m1, m2, ext(m1, n)));
    }
    lemma_grounded(m, m2, id, id);
}

/// A path leads to an entry of a directory.
pub proof fn lemma_lookup_split(m: Image, path: Seq<char>)
    requires
        m.parent(path) is Ok,
    ensures
        ({
            let parts = components(path);
            let (parent, name) = m.parent(path)->Ok_0;
            &&& parts.len() > 0
            &&& name == parts.last()
            &&& m.walk(parts, (parts.len() - 1) as nat) == Ok::<_, XHFSError>(parent)
            &&& m.lookup(path) == m.child(parent, name, parts.len() - 1)
        }),
{
    let parts = components(path);
    lemma_walk_prefix(m, parts, parts.drop_last(), (parts.len() - 1) as nat);
}

/// The parent of the path is a directory, and what is at the path, if anything, is no symbolic
/// link.
pub open spec fn writable(m: Image, path: Seq<char>) -> bool {
    &&& m.parent(path) is Ok ==> m.parent(path)->Ok_0.0.kind is Directory
    &&& m.lookup(path) is Ok ==> !(m.lookup(path)->Ok_0.kind is Symlink)
}

/// What was written to a path is there: an inode of the kind, with the data as its content. The
/// volume is still grounded, every path still leads where it led, and the contents of all other
/// files are as before.
pub open spec fn written(
    m: Image,
    m2: Image,
    path: Seq<char>,
    data: Seq<u8>,
    kind: INodeKind,
    opt: WriteOption,
) -> bool {
    let node = m2.lookup(path)->Ok_0;
    &&& grounded(m2)
    &&& extends(m, m2)
    &&& same_volume(m, m2)
    &&& m2.lookup(path) is Ok
    &&& live(m2, node.inumber)
    &&& node == node_of(m2, node.inumber)
    &&& node.total_file_size == data.len() as u64
    &&& m2.content(node.extent_addr) == Ok::<_, XHFSError>(data)
    &&& match m.lookup(path) {
        Ok(old) => node.inumber == old.inumber && node.kind == old.kind && live(m, old.inumber) && (
        old.kind is File || old.kind is Symlink) && opt.overwrite,
        Err(_) => node.kind == kind && !live(m, node.inumber),
    }
    &&& others_kept(m, m2, node.inumber)
}

/// All inodes but `id` that are not directories are as before, with their contents.
pub open spec fn others_kept(m: Image, m2: Image, id: u64) -> bool {
    forall|n: u64|
        #[trigger] live(m, n) && n != id && !(node_of(m, n).kind is Directory) ==> live(m2, n)
            && node_of(m2, n) == node_of(m, n) && same_content(m, m2, ext(m, n))
}

proof fn lemma_written_over(
    m: Image,
    path: Seq<char>,
    data: Seq<u8>,
    kind: INodeKind,
    opt: WriteOption,
    now: u64,
    parent: Node,
    e: Entries,
    i: int,
)
    requires
        grounded(m),
        components(path).len() > 0,
        m.walk(components(path), (components(path).len() - 1) as nat) == Ok::<_, XHFSError>(parent),
        parent.kind is Directory,
        m.dir(parent.extent_addr) == Ok::<_, XHFSError>(e),
        entry_position(e, components(path).last()) == Some(i),
        m.overwrite(e[i].1, data, opt, now).1 is Ok,
    ensures
        written(m, m.overwrite(e[i].1, data, opt, now).0, path, data, kind, opt),
{
    let parts = components(path);
    let name = parts.last();
    let k = (parts.len() - 1) as nat;
    let p = parent.inumber;
    let id = e[i].1;
    let m2 = m.overwrite(id, data, opt, now).0;
    lemma_walk_live(m, parts, k);
    lemma_position(e, name);
    lemma_good(m, p);
    assert(is_inode(m, id));
    lemma_overwrite(m, id, data, opt, now);
    lemma_extends_node(m, m2, id);
    lemma_walk_extends(m, m2, parts, k);
    lemma_child_of(m, m2, parent, name, k as int);
    lemma_lookup_again(m, path, parent);
    lemma_lookup_again(m2, path, node_of(m2, p));
    lemma_node_ok(m, id);
    lemma_node_ok(m2, id);
    assert forall|n: u64|
        #[trigger] live(m, n) && n != id && !(node_of(m, n).kind is Directory) implies live(m2, n)
        && node_of(m2, n) == node_of(m, n) && same_content(m, m2, ext(m, n)) by {
        lemma_extends_node(m, m2, n);
        assert(m2.inode(n) == m.inode(n));
    }
}

#[verifier::spinoff_prover]
#[verifier::rlimit(80)]
proof fn lemma_written_new(
    m: Image,
    path: Seq<char>,
    data: Seq<u8>,
    kind: INodeKind,
    opt: WriteOption,
    now: u64,
    parent: Node,
    e: Entries,
)
    requires
        grounded(m),
        components(path).len() > 0,
        m.walk(components(path), (components(path).len() - 1) as nat) == Ok::<_, XHFSError>(parent),
        parent.kind is Directory,
        !(kind is Directory),
        m.dir(parent.extent_addr) == Ok::<_, XHFSError>(e),
        entry_position(e, components(path).last()) is None,
        m.create(parent, e, components(path).last(), data, kind, now).1 is Ok,
    ensures
        written(
            m,
            m.create(parent, e, components(path).last(), data, kind, now).0,
            path,
            data,
            kind,
            opt,
        ),
{
    let parts = components(path);
    let name = parts.last();
    let k = (parts.len() - 1) as nat;
    let p = parent.inumber;
    let m2 = m.create(parent, e, name, data, kind, now).0;
    lemma_walk_live(m, parts, k);
    let id = lemma_create(m, parent, name, data, kind, now);
    lemma_walk_extends(m, m2, parts, k);
    lemma_extends_node(m, m2, p);
    lemma_entries_push(e, name, id);
    let dir2 = node_of(m2, p);
    assert(dir2.kind is Directory);
    assert(m2.child(dir2, name, k as int) == Ok::<_, XHFSError>(node_of(m2, id)));
    lemma_lookup_again(m, path, parent);
    lemma_lookup_again(m2, path, dir2);
    lemma_node_ok(m2, id);
    assert forall|n: u64|
        #[trigger] live(m, n) && n != id && !(node_of(m, n).kind is Directory) implies live(m2, n)
        && node_of(m2, n) == node_of(m, n) && same_content(m, m2, ext(m, n)) by {
        assert(n != p);
        lemma_extends_node(m, m2, n);
        assert(m2.inode(n) == m.inode(n));
    }
}

/// A write that succeeds does what `written` says.
pub proof fn lemma_written(
    m: Image,
    path: Seq<char>,
    data: Seq<u8>,
    kind: INodeKind,
    opt: WriteOption,
    now: u64,
)
    requires
        grounded(m),
        !(kind is Directory),
        m.parent(path) is Ok ==> m.parent(path)->Ok_0.0.kind is Directory,
        m.blob_write(path, data, kind, opt, now).1 is Ok,
    ensures
        written(m, m.blob_write(path, data, kind, opt, now).0, path, data, kind, opt),
{
    lemma_lookup_split(m, path);
    let (parent, name) = m.parent(path)->Ok_0;
    let e = m.dir(parent.extent_addr)->Ok_0;
    match entry_position(e, name) {
        Some(i) => {
            lemma_written_over(m, path, data, kind, opt, now, parent, e, i);
        },
        None => {
            lemma_written_new(m, path, data, kind, opt, now, parent, e);
        },
    }
}

pub proof fn lemma_good(m: Image, n: u64)
    requires
        grounded(m),
        live(m, n),
        node_of(m, n).kind is Directory,
        m.dir(ext(m, n)) is Ok,
    ensures
        good_entries(m, m.dir(ext(m, n))->Ok_0),
{
    reveal(grounded);
}

pub proof fn lemma_node_ok(m: Image, n: u64)
    requires
        grounded(m),
        live(m, n),
    ensures
        node_ok(m, n),
        m.format.usable(),
{
    reveal(grounded);
}

/// A path whose parent is known leads to the parent's entry.
pub proof fn lemma_lookup_again(m: Image, path: Seq<char>, parent: Node)
    requires
        components(path).len() > 0,
        m.walk(components(path), (components(path).len() - 1) as nat) == Ok::<_, XHFSError>(parent),
    ensures
        m.lookup(path) == m.child(parent, components(path).last(), components(path).len() - 1),
{
}

/// An entry of a directory that kept its entries leads to the same inode.
proof fn lemma_child_of(a: Image, b: Image, dir: Node, name: Seq<char>, depth: int)
    requires
        grounded(a),
        extends(a, b),
        live(a, dir.inumber),
        node_of(a, dir.inumber) == dir,
        dir.kind is Directory,
        a.dir(dir.extent_addr) is Ok,
        entry_position(a.dir(dir.extent_addr)->Ok_0, name) is Some,
        live(a, a.dir(dir.extent_addr)->Ok_0[entry_position(
            a.dir(dir.extent_addr)->Ok_0,
            name,
        )->0].1),
    ensures
        a.child(dir, name, depth) is Ok,
        b.child(node_of(b, dir.inumber), name, depth) == Ok::<_, XHFSError>(
            node_of(
                b,
                a.dir(dir.extent_addr)->Ok_0[entry_position(
                    a.dir(dir.extent_addr)->Ok_0,
                    name,
                )->0].1,
            ),
        ),
{
    let e = a.dir(dir.extent_addr)->Ok_0;
    let k = e[entry_position(e, name)->0].1;
    lemma_node_ok(a, k);
    lemma_child_extends(a, b, dir, name, depth);
}

/// What is written to a file is read back from it.
pub proof fn written_file_reads_back(
    m: Image,
    path: Seq<char>,
    data: Seq<u8>,
    opt: WriteOption,
    now: u64,
)
    requires
        grounded(m),
        writable(m, path),
        m.blob_write(path, data, INodeKind::File, opt, now).1 is Ok,
    ensures
        m.blob_write(path, data, INodeKind::File, opt, now).0.fread(path) == Ok::<_, XHFSError>(
            data,
        ),
        grounded(m.blob_write(path, data, INodeKind::File, opt, now).0),
        same_volume(m, m.blob_write(path, data, INodeKind::File, opt, now).0),
{
    lemma_written(m, path, data, INodeKind::File, opt, now);
}

/// A file keeps its content when something is written to another path.
pub proof fn other_files_keep_their_content(
    m: Image,
    path: Seq<char>,
    data: Seq<u8>,
    kind: INodeKind,
    opt: WriteOption,
    now: u64,
    other: Seq<char>,
)
    requires
        grounded(m),
        !(kind is Directory),
        m.parent(path) is Ok ==> m.parent(path)->Ok_0.0.kind is Directory,
        m.blob_write(path, data, kind, opt, now).1 is Ok,
        m.lookup(other) is Ok,
        m.lookup(other)->Ok_0.kind is File,
        m.lookup(path) is Ok ==> m.lookup(path)->Ok_0.inumber != m.lookup(other)->Ok_0.inumber,
    ensures
        m.blob_write(path, data, kind, opt, now).0.lookup(other) == m.lookup(other),
        m.blob_write(path, data, kind, opt, now).0.fread(other) == m.fread(other),
{
    let m2 = m.blob_write(path, data, kind, opt, now).0;
    lemma_written(m, path, data, kind, opt, now);
    let parts = components(other);
    lemma_walk_live(m, parts, parts.len());
    lemma_walk_extends(m, m2, parts, parts.len());
    let n = m.lookup(other)->Ok_0.inumber;
    assert(live(m, n));
}

/// A path that leads somewhere leads to the same inode after a write.
pub proof fn paths_survive_writes(
    m: Image,
    path: Seq<char>,
    data: Seq<u8>,
    kind: INodeKind,
    opt: WriteOption,
    now: u64,
    other: Seq<char>,
)
    requires
        grounded(m),
        !(kind is Directory),
        m.parent(path) is Ok ==> m.parent(path)->Ok_0.0.kind is Directory,
        m.blob_write(path, data, kind, opt, now).1 is Ok,
        m.lookup(other) is Ok,
    ensures
        m.blob_write(path, data, kind, opt, now).0.lookup(other) is Ok,
        m.blob_write(path, data, kind, opt, now).0.lookup(other)->Ok_0.inumber == m.lookup(
            other,
        )->Ok_0.inumber,
        m.blob_write(path, data, kind, opt, now).0.lookup(other)->Ok_0.kind == m.lookup(
            other,
        )->Ok_0.kind,
{
    let m2 = m.blob_write(path, data, kind, opt, now).0;
    lemma_written(m, path, data, kind, opt, now);
    let parts = components(other);
    lemma_walk_live(m, parts, parts.len());
    lemma_walk_extends(m, m2, parts, parts.len());
    lemma_extends_node(m, m2, m.lookup(other)->Ok_0.inumber);
    lemma_node_ok(m2, m.lookup(other)->Ok_0.inumber);
}

/// A copy of a file has the content of the file.
pub proof fn copied_file_has_same_content(
    m: Image,
    src: Seq<char>,
    dest: Seq<char>,
    opt: WriteOption,
    now: u64,
)
    requires
        grounded(m),
        writable(m, dest),
        m.fcopy(src, dest, opt, now).1 is Ok,
    ensures
        m.fread(src) is Ok,
        m.fcopy(src, dest, opt, now).0.fread(dest) == m.fread(src),
{
    written_file_reads_back(m, dest, m.fread(src)->Ok_0, opt, now);
}

} // verus!
