//! Moving entries, seen through paths.
use crate::addr::MaybeU64;
use crate::codec::u64_at;
use crate::error::XHFSError;
use crate::utils::components;
use crate::xhfs::chain_laws::sound_content;
use crate::xhfs::dir_laws::{files_kept, lemma_without};
use crate::xhfs::ds::{dir_bytes, dir_parse, directory_round_trip, entries_parse, Node};
use crate::xhfs::image::Image;
use crate::xhfs::inode_laws::{is_inode, live, node_of};
use crate::xhfs::laws::{head, same_volume};
use crate::xhfs::op_laws::{
    good_entries, grounded, lemma_dir_len, lemma_entries_push, lemma_good, lemma_good_push,
    lemma_grounded, lemma_lookup_again, lemma_lookup_split, lemma_node_ok, lemma_position,
    lemma_walk_live,
};
use crate::xhfs::sound::{
    ext, lemma_sound_free, lemma_sound_point, lemma_sound_store, node_ok, parts_apart,
    same_content, same_nodes, sound,
};
use crate::xhfs::tree::{entry_position, last_entry, without, Entries};
use crate::xhfs::unlink_laws::{lemma_steps, lemma_walk_down, step_kept};
use vstd::prelude::*;

verus! {

/// A volume stays sound when a loose content is forgotten.
proof fn lemma_sound_forget(m: Image, loose: Seq<MaybeU64>, j: int)
    requires
        sound(m, loose),
        0 <= j < loose.len(),
    ensures
        sound(m, loose.remove(j)),
{
    let rest = loose.remove(j);
    assert forall|k: int| 0 <= k < rest.len() implies (#[trigger] rest[k]) == loose[if k < j {
        k
    } else {
        k + 1
    }] by {}
    assert forall|k: int| 0 <= k < rest.len() implies sound_content(m, #[trigger] rest[k]) by {
        let i = if k < j {
            k
        } else {
            k + 1
        };
        assert(sound_content(m, loose[i]));
    }
    assert forall|n: u64, k: int| #[trigger] live(m, n) && 0 <= k < rest.len() implies parts_apart(
        m,
        ext(m, n),
        #[trigger] rest[k],
    ) by {
        let i = if k < j {
            k
        } else {
            k + 1
        };
        assert(parts_apart(m, ext(m, n), loose[i]));
    }
    assert forall|a: int, b: int|
        0 <= a < rest.len() && 0 <= b < rest.len() && a != b implies parts_apart(
        m,
        #[trigger] rest[a],
        #[trigger] rest[b],
    ) by {
        let i = if a < j {
            a
        } else {
            a + 1
        };
        let k = if b < j {
            b
        } else {
            b + 1
        };
        assert(parts_apart(m, loose[i], loose[k]));
    }
}

/// Freeing the old content of an inode, unless it is the new one, succeeds and leaves the volume
/// sound and all inodes and their contents as they are.
pub proof fn lemma_sound_free_unless(m: Image, loose: Seq<MaybeU64>, j: int, new: MaybeU64)
    requires
        sound(m, loose),
        0 <= j < loose.len(),
    ensures
        ({
            let (m2, r) = m.free_unless(loose[j], new);
            &&& r is Ok
            &&& sound(m2, loose.remove(j))
            &&& same_nodes(m, m2)
            &&& m2.format == m.format
            &&& m2.disk.len() == m.disk.len()
            &&& head(m2) == head(m)
            &&& forall|n: u64| #[trigger] live(m, n) ==> same_content(m, m2, ext(m, n))
        }),
{
    let m2 = m.free_unless(loose[j], new).0;
    if loose[j] == new {
        lemma_sound_forget(m, loose, j);
        assert forall|n: u64| #[trigger] live(m, n) implies same_content(m, m2, ext(m, n)) by {
            assert(node_ok(m, n));
        }
    } else {
        lemma_sound_free(m, loose, j);
        assert forall|n: u64| #[trigger] live(m, n) implies same_content(m, m2, ext(m, n)) by {
            assert(node_ok(m, n));
            assert(parts_apart(m, ext(m, n), loose[j]));
            assert(sound_content(m, ext(m, n)));
        }
    }
}

/// What the entries of one directory are after its last change, everything else being as
/// before.
pub open spec fn only_dirs(m: Image, m2: Image, p: u64, e: Entries, q: u64, f: Entries) -> bool {
    &&& m2.format == m.format
    &&& m2.disk.len() == m.disk.len()
    &&& head(m2) == head(m)
    &&& sound(m2, Seq::empty())
    &&& live(m2, p)
    &&& live(m2, q)
    &&& node_of(m2, p).kind == node_of(m, p).kind
    &&& node_of(m2, q).kind == node_of(m, q).kind
    &&& m2.dir(ext(m2, p)) == Ok::<_, XHFSError>(e)
    &&& m2.dir(ext(m2, q)) == Ok::<_, XHFSError>(f)
    &&& forall|n: u64|
        is_inode(m, n) && n != p && n != q ==> #[trigger] m2.inode(n) == m.inode(n)
    &&& forall|n: u64|
        #[trigger] live(m, n) && n != p && n != q ==> same_content(m, m2, ext(m, n))
}

proof fn lemma_rename(
    m: Image,
    dir: Node,
    e: Entries,
    src_name: Seq<char>,
    dst_name: Seq<char>,
    now: u64,
)
    requires
        sound(m, Seq::empty()),
        live(m, dir.inumber),
        dir == node_of(m, dir.inumber),
        m.rename(dir, e, src_name, dst_name, now).1 is Ok,
    ensures
        last_entry(e, src_name) is Some,
        entry_position(e, dst_name) is None,
        ({
            let f = without(e, src_name).push((dst_name, last_entry(e, src_name)->0));
            only_dirs(
                m,
                m.rename(dir, e, src_name, dst_name, now).0,
                dir.inumber,
                f,
                dir.inumber,
                f,
            )
        }),
        ({
            let m2 = m.rename(dir, e, src_name, dst_name, now).0;
            node_of(m2, dir.inumber) == (Node {
                extent_addr: ext(m2, dir.inumber),
                mtime: now,
                ..dir
            })
        }),
{
    let id = dir.inumber;
    let none = Seq::<MaybeU64>::empty();
    let f = without(e, src_name).push((dst_name, last_entry(e, src_name)->0));
    let bytes = dir_bytes(f)->Ok_0;
    lemma_sound_store(m, none, bytes);
    lemma_dir_len(f);
    directory_round_trip(f);
    let (m1, r1) = m.store(bytes);
    let addr = r1->Ok_0;
    assert(m1.inode(id) == m.inode(id));
    assert(live(m1, id));
    assert(node_ok(m, id));
    let new = Node { extent_addr: addr, mtime: now, ..dir };
    let l1 = none.push(addr);
    assert(l1[0] == addr);
    lemma_sound_point(m1, l1, 0, new);
    let m2 = m1.register(new, true).0;
    let l2 = l1.update(0, ext(m1, id));
    assert(l2[0] == dir.extent_addr);
    lemma_sound_free_unless(m2, l2, 0, addr);
    assert(l2.remove(0) =~= none);
    let m3 = m.rename(dir, e, src_name, dst_name, now).0;
    assert(live(m2, id));
    assert(m3.inode(id) == m2.inode(id));
    assert(sound_content(m1, addr));
    assert(same_content(m1, m2, addr));
    assert(same_content(m2, m3, ext(m2, id)));
    assert forall|n: u64| is_inode(m, n) && n != id implies #[trigger] m3.inode(n) == m.inode(
        n,
    ) by {
        assert(is_inode(m1, n) && is_inode(m2, n));
        assert(m1.inode(n) == m.inode(n));
        assert(m2.inode(n) == m1.inode(n));
    }
    assert forall|n: u64| #[trigger] live(m, n) && n != id implies same_content(
        m,
        m3,
        ext(m, n),
    ) by {
        assert(node_ok(m, n));
        assert(sound_content(m, ext(m, n)));
        assert(same_content(m, m1, ext(m, n)));
        assert(sound_content(m1, ext(m, n)));
        assert(same_content(m1, m2, ext(m, n)));
        assert(m1.inode(n) == m.inode(n));
        assert(m2.inode(n) == m1.inode(n));
        assert(live(m2, n));
        assert(same_content(m2, m3, ext(m2, n)));
    }
}

proof fn lemma_transfer(
    m: Image,
    from: Node,
    ea: Entries,
    src_name: Seq<char>,
    to: Node,
    eb: Entries,
    dst_name: Seq<char>,
    now: u64,
)
    requires
        sound(m, Seq::empty()),
        live(m, from.inumber),
        from == node_of(m, from.inumber),
        live(m, to.inumber),
        to == node_of(m, to.inumber),
        from.inumber != to.inumber,
        m.transfer(from, ea, src_name, to, eb, dst_name, now).1 is Ok,
    ensures
        last_entry(ea, src_name) is Some,
        entry_position(eb, dst_name) is None,
        only_dirs(
            m,
            m.transfer(from, ea, src_name, to, eb, dst_name, now).0,
            from.inumber,
            without(ea, src_name),
            to.inumber,
            eb.push((dst_name, last_entry(ea, src_name)->0)),
        ),
        ({
            let m2 = m.transfer(from, ea, src_name, to, eb, dst_name, now).0;
            &&& node_of(m2, from.inumber) == (Node {
                extent_addr: ext(m2, from.inumber),
                mtime: now,
                ..from
            })
            &&& node_of(m2, to.inumber) == (Node {
                extent_addr: ext(m2, to.inumber),
                mtime: now,
                ..to
            })
        }),
{
    let p = from.inumber;
    let q = to.inumber;
    let none = Seq::<MaybeU64>::empty();
    let ca = without(ea, src_name);
    let cb = eb.push((dst_name, last_entry(ea, src_name)->0));
    let ba = dir_bytes(ca)->Ok_0;
    let bb = dir_bytes(cb)->Ok_0;
    lemma_sound_store(m, none, ba);
    lemma_dir_len(ca);
    directory_round_trip(ca);
    let (m1, r1) = m.store(ba);
    let a = r1->Ok_0;
    let l1 = none.push(a);
    assert(l1[0] == a);
    lemma_sound_store(m1, l1, bb);
    lemma_dir_len(cb);
    directory_round_trip(cb);
    let (m2, r2) = m1.store(bb);
    let b = r2->Ok_0;
    let l2 = l1.push(b);
    assert(l2[0] == a && l2[1] == b);
    assert(m1.inode(p) == m.inode(p) && m1.inode(q) == m.inode(q));
    assert(m2.inode(p) == m1.inode(p) && m2.inode(q) == m1.inode(q));
    assert(live(m2, p) && live(m2, q));
    assert(node_ok(m, p) && node_ok(m, q));
    assert(sound_content(m1, a));
    assert(same_content(m1, m2, a));
    let nb = Node { extent_addr: b, mtime: now, ..to };
    lemma_sound_point(m2, l2, 1, nb);
    let m3 = m2.register(nb, true).0;
    let l3 = l2.update(1, ext(m2, q));
    assert(l3[0] == a && l3[1] == to.extent_addr);
    assert(m3.inode(p) == m2.inode(p));
    assert(live(m3, p) && live(m3, q));
    let na = Node { extent_addr: a, mtime: now, ..from };
    lemma_sound_point(m3, l3, 0, na);
    let m4 = m3.register(na, true).0;
    let l4 = l3.update(0, ext(m3, p));
    assert(l4[0] == from.extent_addr && l4[1] == to.extent_addr);
    assert(m4.inode(q) == m3.inode(q));
    assert(live(m4, p) && live(m4, q));
    lemma_sound_free_unless(m4, l4, 0, a);
    let m5 = m4.free_unless(from.extent_addr, a).0;
    let l5 = l4.remove(0);
    assert(l5[0] == to.extent_addr);
    assert(m5.inode(p) == m4.inode(p) && m5.inode(q) == m4.inode(q));
    assert(live(m5, p) && live(m5, q));
    lemma_sound_free_unless(m5, l5, 0, b);
    let m6 = m.transfer(from, ea, src_name, to, eb, dst_name, now).0;
    assert(l5.remove(0) =~= none);
    assert(m6.inode(p) == m5.inode(p) && m6.inode(q) == m5.inode(q));
    // the new entries are where the directories point to
    assert(sound_content(m2, a));
    assert(sound_content(m2, b)) by {
        assert(sound_content(m2, l2[1]));
    }
    assert(same_content(m2, m3, a) && same_content(m2, m3, b));
    assert(sound_content(m3, a) && sound_content(m3, b));
    assert(same_content(m3, m4, a) && same_content(m3, m4, b));
    assert(same_content(m4, m5, ext(m4, p)) && same_content(m4, m5, ext(m4, q)));
    assert(same_content(m5, m6, ext(m5, p)) && same_content(m5, m6, ext(m5, q)));
    assert forall|n: u64| is_inode(m, n) && n != p && n != q implies #[trigger] m6.inode(n)
        == m.inode(n) by {
        lemma_chain_nodes(m, m1, m2, m3, m4, m5, m6, p, q, n);
    }
    assert forall|n: u64| #[trigger] live(m, n) && n != p && n != q implies same_content(
        m,
        m6,
        ext(m, n),
    ) by {
        lemma_chain_nodes(m, m1, m2, m3, m4, m5, m6, p, q, n);
        assert(node_ok(m, n));
        assert(sound_content(m, ext(m, n)));
        assert(same_content(m, m1, ext(m, n)));
        assert(sound_content(m1, ext(m, n)));
        assert(same_content(m1, m2, ext(m, n)));
        assert(sound_content(m2, ext(m, n)));
        assert(same_content(m2, m3, ext(m, n)));
        assert(sound_content(m3, ext(m, n)));
        assert(same_content(m3, m4, ext(m, n)));
        assert(live(m4, n));
        assert(same_content(m4, m5, ext(m4, n)));
        assert(live(m5, n));
        assert(same_content(m5, m6, ext(m5, n)));
    }
}

/// An inode that no step of a transfer changes is the same all along.
proof fn lemma_chain_nodes(
    m: Image,
    m1: Image,
    m2: Image,
    m3: Image,
    m4: Image,
    m5: Image,
    m6: Image,
    p: u64,
    q: u64,
    n: u64,
)
    requires
        is_inode(m, n),
        n != p,
        n != q,
        m1.format == m.format,
        m2.format == m.format,
        m3.format == m.format,
        m4.format == m.format,
        m5.format == m.format,
        same_nodes(m, m1),
        same_nodes(m1, m2),
        forall|k: u64| is_inode(m2, k) && k != q ==> #[trigger] m3.inode(k) == m2.inode(k),
        forall|k: u64| is_inode(m3, k) && k != p ==> #[trigger] m4.inode(k) == m3.inode(k),
        same_nodes(m4, m5),
        same_nodes(m5, m6),
    ensures
        m4.inode(n) == m.inode(n),
        m5.inode(n) == m.inode(n),
        m6.inode(n) == m.inode(n),
{
    assert(is_inode(m1, n) && is_inode(m2, n) && is_inode(m3, n) && is_inode(m4, n) && is_inode(
        m5,
        n,
    ));
    assert(m1.inode(n) == m.inode(n));
    assert(m2.inode(n) == m1.inode(n));
    assert(m3.inode(n) == m2.inode(n));
    assert(m4.inode(n) == m3.inode(n));
    assert(m5.inode(n) == m4.inode(n));
    assert(m6.inode(n) == m5.inode(n));
}

/// The way along the first `k` parts of a path does not take the entry `name` of directory `p`.
pub open spec fn way_without(m: Image, parts: Seq<Seq<char>>, k: nat, p: u64, name: Seq<char>) -> bool {
    forall|j: int|
        0 <= j < k ==> !(#[trigger] m.walk(parts, j as nat)->Ok_0.inumber == p && parts[j] == name)
}

/// A walk that does not take a removed entry can still be made.
proof fn lemma_way(
    m: Image,
    m2: Image,
    parts: Seq<Seq<char>>,
    k: nat,
    p: u64,
    e: Entries,
    q: u64,
    f: Entries,
    name: Seq<char>,
)
    requires
        grounded(m),
        only_dirs(m, m2, p, e, q, f),
        live(m, p),
        live(m, q),
        node_of(m, p).kind is Directory,
        node_of(m, q).kind is Directory,
        m.dir(ext(m, p)) is Ok,
        m.dir(ext(m, q)) is Ok,
        forall|x: Seq<char>|
            x != name && (#[trigger] entry_position(m.dir(ext(m, p))->Ok_0, x)) is Some
                ==> entry_position(e, x) is Some && e[entry_position(e, x)->0].1 == m.dir(
                ext(m, p),
            )->Ok_0[entry_position(m.dir(ext(m, p))->Ok_0, x)->0].1,
        p != q ==> forall|x: Seq<char>|
            (#[trigger] entry_position(m.dir(ext(m, q))->Ok_0, x)) is Some ==> entry_position(
                f,
                x,
            ) is Some && f[entry_position(f, x)->0].1 == m.dir(ext(m, q))->Ok_0[entry_position(
                m.dir(ext(m, q))->Ok_0,
                x,
            )->0].1,
        m.walk(parts, k) is Ok,
        way_without(m, parts, k, p, name),
    ensures
        m2.walk(parts, k) == Ok::<_, XHFSError>(node_of(m2, m.walk(parts, k)->Ok_0.inumber)),
        live(m, m.walk(parts, k)->Ok_0.inumber),
        live(m2, m.walk(parts, k)->Ok_0.inumber),
{
    assert forall|j: int| 0 <= j < k implies #[trigger] step_kept(m, m2, parts, j) by {
        lemma_walk_down(m, parts, j as nat, k);
        lemma_walk_live(m, parts, j as nat);
        lemma_walk_down(m, parts, (j + 1) as nat, k);
        lemma_walk_live(m, parts, (j + 1) as nat);
        let n = m.walk(parts, j as nat)->Ok_0.inumber;
        let next = m.walk(parts, (j + 1) as nat)->Ok_0.inumber;
        let d = m.dir(ext(m, n))->Ok_0;
        lemma_position(d, parts[j]);
        lemma_good(m, n);
        let x = entry_position(d, parts[j])->0;
        assert(is_inode(m, d[x].1));
        assert(live(m, d[x].1));
        lemma_node_ok(m, d[x].1);
        assert(d[x].1 == next);
        if next != p && next != q {
            assert(m2.inode(next) == m.inode(next));
        }
        assert(live(m2, next));
        if n != p && n != q {
            assert(m2.inode(n) == m.inode(n));
            assert(same_content(m, m2, ext(m, n)));
        }
    }
    lemma_walk_down(m, parts, 0, k);
    lemma_walk_live(m, parts, 0);
    lemma_walk_live(m, parts, k);
    assert(live(m2, 1)) by {
        if 1u64 != p && 1u64 != q {
            assert(m2.inode(1) == m.inode(1));
        }
    }
    let last = m.walk(parts, k)->Ok_0.inumber;
    if last != p && last != q {
        assert(m2.inode(last) == m.inode(last));
    }
    lemma_steps(m, m2, parts, k);
}

/// An entry that was moved is found at its destination and no longer at its source. The volume
/// is still grounded, and files keep their contents.
pub proof fn moved_entry_is_found(m: Image, src: Seq<char>, dest: Seq<char>, now: u64)
    requires
        grounded(m),
        m.fmove(src, dest, now).1 is Ok,
        m.parent(src)->Ok_0.0.kind is Directory,
        m.parent(dest)->Ok_0.0.kind is Directory,
        way_without(
            m,
            components(src),
            (components(src).len() - 1) as nat,
            m.parent(src)->Ok_0.0.inumber,
            m.parent(src)->Ok_0.1,
        ),
        way_without(
            m,
            components(dest),
            (components(dest).len() - 1) as nat,
            m.parent(src)->Ok_0.0.inumber,
            m.parent(src)->Ok_0.1,
        ),
        m.lookup(src) is Ok,
    ensures
        ({
            let m2 = m.fmove(src, dest, now).0;
            &&& grounded(m2)
            &&& same_volume(m, m2)
            &&& files_kept(m, m2)
            &&& m2.lookup(dest) is Ok
            &&& m2.lookup(dest)->Ok_0.inumber == m.lookup(src)->Ok_0.inumber
            &&& m2.lookup(dest)->Ok_0.kind == m.lookup(src)->Ok_0.kind
            &&& m2.lookup(src) is Err
            &&& m.lookup(dest) is Err
            &&& ({
                let n = m.lookup(src)->Ok_0;
                let from = m.parent(src)->Ok_0.0;
                let to = m.parent(dest)->Ok_0.0;
                &&& n.inumber != from.inumber && n.inumber != to.inumber ==> m2.lookup(dest)
                    == m.lookup(src) && m2.content(n.extent_addr) == m.content(n.extent_addr)
                &&& live(m2, from.inumber)
                &&& live(m2, to.inumber)
                &&& node_of(m2, from.inumber) == (Node {
                    extent_addr: ext(m2, from.inumber),
                    mtime: now,
                    ..from
                })
                &&& node_of(m2, to.inumber) == (Node {
                    extent_addr: ext(m2, to.inumber),
                    mtime: now,
                    ..to
                })
                &&& m2.dir(ext(m2, to.inumber)) is Ok
                &&& m2.dir(ext(m2, to.inumber))->Ok_0.last() == (
                    components(dest).last(),
                    n.inumber,
                )
                &&& forall|k: u64|
                    #[trigger] live(m, k) && k != from.inumber && k != to.inumber ==> live(m2, k)
                        && node_of(m2, k) == node_of(m, k) && same_content(m, m2, ext(m, k))
            })
        }),
{
    lemma_lookup_split(m, src);
    lemma_lookup_split(m, dest);
    let sp = components(src);
    let dp = components(dest);
    let sk = (sp.len() - 1) as nat;
    let dk = (dp.len() - 1) as nat;
    let (from, src_name) = m.parent(src)->Ok_0;
    let (to, dst_name) = m.parent(dest)->Ok_0;
    let p = from.inumber;
    let q = to.inumber;
    lemma_walk_live(m, sp, sk);
    lemma_walk_live(m, dp, dk);
    let ea = m.dir(from.extent_addr)->Ok_0;
    let eb = m.dir(to.extent_addr)->Ok_0;
    lemma_good(m, p);
    lemma_good(m, q);
    lemma_without(m, ea, src_name);
    let m2 = m.fmove(src, dest, now).0;
    let n = last_entry(ea, src_name)->0;
    let rest = without(ea, src_name);
    lemma_grounded_sound(m);
    lemma_position(ea, src_name);
    lemma_position(rest, dst_name);
    if p == q {
        lemma_rename(m, from, ea, src_name, dst_name, now);
        let f = rest.push((dst_name, n));
        lemma_position(ea, dst_name);
        assert(dst_name != src_name);
        assert(entry_position(ea, dst_name) is None);
        assert(entry_position(rest, dst_name) is None);
        lemma_entries_push(rest, dst_name, n);
        assert(is_inode(m, n)) by {
            let i = entry_position(ea, src_name)->0;
            assert(is_inode(m, ea[i].1));
        }
        lemma_good_push_any(m, rest, dst_name, n, m2, p);
        lemma_moved(m, m2, p, f, q, f, src_name, ea, eb);
        lemma_way(m, m2, sp, sk, p, f, q, f, src_name);
        lemma_way(m, m2, dp, dk, p, f, q, f, src_name);
        assert(entry_position(f, src_name) is None) by {
            lemma_position(f, src_name);
            lemma_position(rest, src_name);
            if entry_position(f, src_name) is Some {
                let i = entry_position(f, src_name)->0;
                if i < rest.len() {
                    assert(rest[i] == f[i]);
                }
            }
        }
    } else {
        lemma_transfer(m, from, ea, src_name, to, eb, dst_name, now);
        let f = eb.push((dst_name, n));
        lemma_entries_push(eb, dst_name, n);
        assert(is_inode(m, n)) by {
            let i = entry_position(ea, src_name)->0;
            assert(is_inode(m, ea[i].1));
        }
        lemma_good_push_any(m, eb, dst_name, n, m2, q);
        lemma_moved(m, m2, p, rest, q, f, src_name, ea, eb);
        lemma_way(m, m2, sp, sk, p, rest, q, f, src_name);
        lemma_way(m, m2, dp, dk, p, rest, q, f, src_name);
    }
    lemma_lookup_again(m, src, from);
    lemma_lookup_again(m, dest, to);
    lemma_lookup_again(m2, src, node_of(m2, p));
    lemma_lookup_again(m2, dest, node_of(m2, q));
    // the moved inode itself is still there
    assert(live(m, n));
    lemma_node_ok(m, n);
    if n != p && n != q {
        assert(m2.inode(n) == m.inode(n));
    }
    assert(live(m2, n));
    lemma_node_ok(m2, n);
    assert forall|k: u64| #[trigger] live(m, k) && k != p && k != q implies live(m2, k) && node_of(
        m2,
        k,
    ) == node_of(m, k) && same_content(m, m2, ext(m, k)) by {
        assert(m2.inode(k) == m.inode(k));
    }
}

/// A path that does not take the moved entry leads where it led before. Unless that is one of the
/// two directories, it is exactly as before; a file reads as before.
pub proof fn moving_leaves_other_paths(
    m: Image,
    src: Seq<char>,
    dest: Seq<char>,
    other: Seq<char>,
    now: u64,
)
    requires
        grounded(m),
        m.fmove(src, dest, now).1 is Ok,
        m.parent(src)->Ok_0.0.kind is Directory,
        m.parent(dest)->Ok_0.0.kind is Directory,
        m.lookup(src) is Ok,
        m.lookup(other) is Ok,
        way_without(
            m,
            components(other),
            components(other).len(),
            m.parent(src)->Ok_0.0.inumber,
            m.parent(src)->Ok_0.1,
        ),
    ensures
        ({
            let m2 = m.fmove(src, dest, now).0;
            let n = m.lookup(other)->Ok_0;
            &&& m2.lookup(other) is Ok
            &&& m2.lookup(other)->Ok_0.kind == n.kind
            &&& n.inumber != m.parent(src)->Ok_0.0.inumber && n.inumber != m.parent(
                dest,
            )->Ok_0.0.inumber ==> m2.lookup(other) == m.lookup(other) && m2.content(n.extent_addr)
                == m.content(n.extent_addr)
            &&& n.kind is File ==> m2.fread(other) == m.fread(other)
        }),
{
    lemma_lookup_split(m, src);
    lemma_lookup_split(m, dest);
    let sp = components(src);
    let dp = components(dest);
    let op = components(other);
    let (from, src_name) = m.parent(src)->Ok_0;
    let (to, dst_name) = m.parent(dest)->Ok_0;
    let p = from.inumber;
    let q = to.inumber;
    lemma_walk_live(m, sp, (sp.len() - 1) as nat);
    lemma_walk_live(m, dp, (dp.len() - 1) as nat);
    lemma_walk_live(m, op, op.len());
    let ea = m.dir(from.extent_addr)->Ok_0;
    let eb = m.dir(to.extent_addr)->Ok_0;
    lemma_good(m, p);
    lemma_good(m, q);
    lemma_without(m, ea, src_name);
    let m2 = m.fmove(src, dest, now).0;
    let rest = without(ea, src_name);
    lemma_grounded_sound(m);
    lemma_position(ea, src_name);
    let n = last_entry(ea, src_name)->0;
    if p == q {
        lemma_rename(m, from, ea, src_name, dst_name, now);
        let f = rest.push((dst_name, n));
        lemma_position(ea, dst_name);
        assert(dst_name != src_name);
        assert(entry_position(rest, dst_name) is None);
        lemma_entries_push(rest, dst_name, n);
        lemma_way(m, m2, op, op.len(), p, f, q, f, src_name);
    } else {
        lemma_transfer(m, from, ea, src_name, to, eb, dst_name, now);
        let f = eb.push((dst_name, n));
        lemma_entries_push(eb, dst_name, n);
        lemma_way(m, m2, op, op.len(), p, rest, q, f, src_name);
    }
    let k = m.lookup(other)->Ok_0.inumber;
    if k != p && k != q {
        assert(m2.inode(k) == m.inode(k));
    }
}

proof fn lemma_grounded_sound(m: Image)
    requires
        grounded(m),
    ensures
        sound(m, Seq::empty()),
{
    reveal(grounded);
}

/// Good entries with one more good entry, where they can be stored at all.
proof fn lemma_good_push_any(m: Image, e: Entries, name: Seq<char>, n: u64, m2: Image, q: u64)
    requires
        good_entries(m, e),
        entry_position(e, name) is None,
        is_inode(m, n),
        m2.dir(ext(m2, q)) == Ok::<_, XHFSError>(e.push((name, n))),
    ensures
        good_entries(m, e.push((name, n))),
{
    let s = m2.content(ext(m2, q))->Ok_0;
    lemma_parsed_len(s);
    lemma_good_push(m, e, name, n);
}

/// Entries that are read are no more than a 64-bit number counts.
proof fn lemma_parsed_len(s: Seq<u8>)
    requires
        dir_parse(s) is Ok,
    ensures
        dir_parse(s)->Ok_0.len() <= u64::MAX,
{
    if s.len() >= 8 {
        lemma_entries_len(s, u64_at(s, 0) as nat);
    }
}

proof fn lemma_entries_len(s: Seq<u8>, n: nat)
    requires
        entries_parse(s, n) is Ok,
    ensures
        entries_parse(s, n)->Ok_0.len() == n,
    decreases n,
{
    if n > 0 {
        lemma_entries_len(s, (n - 1) as nat);
    }
}

/// A volume on which only two directories changed is grounded if their entries are good.
proof fn lemma_moved(
    m: Image,
    m2: Image,
    p: u64,
    e: Entries,
    q: u64,
    f: Entries,
    src_name: Seq<char>,
    ea: Entries,
    eb: Entries,
)
    requires
        grounded(m),
        only_dirs(m, m2, p, e, q, f),
        live(m, p),
        live(m, q),
        node_of(m, p).kind is Directory,
        node_of(m, q).kind is Directory,
        good_entries(m, e),
        good_entries(m, f),
    ensures
        grounded(m2),
        files_kept(m, m2),
{
    lemma_grounded(m, m2, p, q);
    assert forall|n: u64|
        #[trigger] live(m, n) && !(node_of(m, n).kind is Directory) implies live(m2, n) && node_of(
        m2,
        n,
    ) == node_of(m, n) && same_content(m, m2, ext(m, n)) by {
        assert(n != p && n != q);
        assert(m2.inode(n) == m.inode(n));
    }
}

} // verus!
