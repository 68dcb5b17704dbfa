//! What moving an entry promises.
use crate::addr::{maybe, MaybeU64};
use crate::bfs::dir_laws::brute_files_kept;
use crate::bfs::image::Brute;
use crate::bfs::op_laws::{lemma_entries_replaced, lemma_split, lemma_walk_known};
use crate::bfs::records::{inode_round_trip, INode};
use crate::bfs::sound::{
    held, in_chain, in_content, in_extent, inode_fine, lemma_loose_same, lemma_sound_free,
    lemma_sound_less, lemma_sound_point, lemma_sound_store, owned, same_inode, seal, sound,
    start_of, stretch, ROOT_AT,
};
use crate::bfs::tree_laws::{
    brute_grounded, closed, entries_of, lemma_neat_step, listed, neat, tidy, unrelated,
};
use crate::bfs::unlink_laws::{lemma_kept_address, lemma_taken_out};
use crate::error::Fault;
use crate::utils::components;
use crate::xhfs::ds::{dir_bytes, directory_round_trip};
use crate::xhfs::op_laws::{lemma_dir_len, lemma_entries_push, lemma_position};
use crate::xhfs::tree::{entry_position, last_entry, without, Entries};
use vstd::prelude::*;

verus! {

/// In a sound volume whose directories form a tree, only one path leads to an inode.
pub proof fn brute_paths_are_unique(
    m: Brute,
    known: Set<u64>,
    p: Seq<Seq<char>>,
    a: nat,
    q: Seq<Seq<char>>,
    b: nat,
)
    requires
        brute_grounded(m, known),
        a <= p.len(),
        b <= q.len(),
        m.walk(p, a) is Ok,
        m.walk(q, b) is Ok,
        m.walk(p, a)->Ok_0.0 == m.walk(q, b)->Ok_0.0,
    ensures
        a == b,
        p.subrange(0, a as int) == q.subrange(0, b as int),
    decreases a + b,
{
    reveal(brute_grounded);
    if a > 0 {
        lemma_walk_known(m, known, p, (a - 1) as nat);
        let d = m.walk(p, (a - 1) as nat)->Ok_0.0;
        assert(listed(m, known, d));
        lemma_position(entries_of(m, d), p[a - 1]);
        let i = entry_position(entries_of(m, d), p[a - 1])->0;
        assert(entries_of(m, d)[i].1 != ROOT_AT);
        if b > 0 {
            lemma_walk_known(m, known, q, (b - 1) as nat);
            let c = m.walk(q, (b - 1) as nat)->Ok_0.0;
            assert(listed(m, known, c));
            lemma_position(entries_of(m, c), q[b - 1]);
            let j = entry_position(entries_of(m, c), q[b - 1])->0;
            if c != d {
                assert(unrelated(entries_of(m, d), entries_of(m, c)));
                assert(entries_of(m, d)[i].1 != entries_of(m, c)[j].1);
            } else if i < j {
                assert(entries_of(m, d)[i].1 != entries_of(m, d)[j].1);
            } else if j < i {
                assert(entries_of(m, d)[j].1 != entries_of(m, d)[i].1);
            }
            brute_paths_are_unique(m, known, p, (a - 1) as nat, q, (b - 1) as nat);
            assert(p.subrange(0, a as int) =~= p.subrange(0, a - 1).push(p[a - 1]));
            assert(q.subrange(0, b as int) =~= q.subrange(0, b - 1).push(q[b - 1]));
        }
    } else if b > 0 {
        lemma_walk_known(m, known, q, (b - 1) as nat);
        let c = m.walk(q, (b - 1) as nat)->Ok_0.0;
        assert(listed(m, known, c));
        lemma_position(entries_of(m, c), q[b - 1]);
        let j = entry_position(entries_of(m, c), q[b - 1])->0;
        assert(entries_of(m, c)[j].1 != ROOT_AT);
    } else {
        assert(p.subrange(0, 0) =~= q.subrange(0, 0));
    }
}

/// Where names are distinct, leaving out a name takes out one entry.
pub proof fn lemma_without_one(e: Entries, name: Seq<char>)
    requires
        tidy(e),
    ensures
        match entry_position(e, name) {
            Some(i) => 0 <= i < e.len() && e[i].0 == name && without(e, name) == e.remove(i)
                && last_entry(e, name) == Some(e[i].1),
            None => without(e, name) == e && last_entry(e, name) is None,
        },
    decreases e.len(),
{
    lemma_position(e, name);
    if e.len() > 0 {
        let d = e.drop_last();
        let last = e.last();
        assert(tidy(d)) by {
            assert forall|i: int, j: int| 0 <= i < j < d.len() implies (#[trigger] d[i]).0 != (
            #[trigger] d[j]).0 && d[i].1 != d[j].1 by {
                assert(e[i].0 != e[j].0 && e[i].1 != e[j].1);
            }
            assert forall|i: int| 0 <= i < d.len() implies (#[trigger] d[i]).1 != ROOT_AT by {
                assert(e[i].1 != ROOT_AT);
            }
        }
        lemma_without_one(d, name);
        lemma_position(d, name);
        match entry_position(d, name) {
            Some(i) => {
                assert(d[i] == e[i]);
                assert(e[i].0 != e[e.len() - 1].0);
                assert(entry_position(e, name) == Some(i));
                assert(without(e, name) =~= e.remove(i));
            },
            None => {
                if last.0 == name {
                    assert(without(e, name) =~= e.remove(e.len() - 1));
                } else {
                    assert(without(e, name) =~= e);
                }
            },
        }
    }
}

/// The entries of two directories are replaced at once.
#[verifier::rlimit(60)]
pub proof fn lemma_transferred(
    m: Brute,
    known: Set<u64>,
    pa: u64,
    from: INode,
    ca: Entries,
    pb: u64,
    to: INode,
    cb: Entries,
)
    requires
        sound(m, known, Set::empty()),
        known.contains(pa),
        known.contains(pb),
        pa != pb,
        m.inode(pa) == Ok::<_, Fault>(from),
        m.inode(pb) == Ok::<_, Fault>(to),
        dir_bytes(ca) is Ok,
        dir_bytes(cb) is Ok,
        m.store(dir_bytes(ca)->Ok_0).1 is Ok,
        m.store(dir_bytes(ca)->Ok_0).0.store(dir_bytes(cb)->Ok_0).1 is Ok,
    ensures
        m.commit_transfer(pa, from, dir_bytes(ca)->Ok_0, pb, to, dir_bytes(cb)->Ok_0).1 is Ok,
        ({
            let m2 = m.commit_transfer(
                pa,
                from,
                dir_bytes(ca)->Ok_0,
                pb,
                to,
                dir_bytes(cb)->Ok_0,
            ).0;
            &&& sound(m2, known, Set::empty())
            &&& m2.inode(pa) == Ok::<_, Fault>(INode { extent_addr: start_of(m2, pa), ..from })
            &&& m2.dir(start_of(m2, pa)) == Ok::<_, Fault>(ca)
            &&& m2.inode(pb) == Ok::<_, Fault>(INode { extent_addr: start_of(m2, pb), ..to })
            &&& m2.dir(start_of(m2, pb)) == Ok::<_, Fault>(cb)
            &&& m2.disk.len() == m.disk.len()
            &&& seal(m2) == seal(m)
            &&& forall|k: u64| #[trigger]
                known.contains(k) && k != pa && k != pb ==> same_inode(m, m2, k)
        }),
{
    let none = Set::<int>::empty();
    let ba = dir_bytes(ca)->Ok_0;
    let bb = dir_bytes(cb)->Ok_0;
    let fuel = m.disk.len();
    let olda = from.extent_addr;
    let oldb = to.extent_addr;
    lemma_dir_len(ca);
    lemma_dir_len(cb);
    directory_round_trip(ca);
    directory_round_trip(cb);
    // both are stored
    lemma_sound_store(m, known, none, ba);
    let (m1, r1) = m.store(ba);
    let a = r1->Ok_0;
    let gota = stretch(a as int, ba.len() as int + 16);
    let l1 = none.union(gota);
    lemma_sound_store(m1, known, l1, bb);
    let (m2, r2) = m1.store(bb);
    let b = r2->Ok_0;
    let gotb = stretch(b as int, bb.len() as int + 16);
    let l2 = l1.union(gotb);
    assert(same_inode(m, m1, pa) && same_inode(m1, m2, pa));
    assert(same_inode(m, m1, pb) && same_inode(m1, m2, pb));
    assert forall|x: int| #[trigger] in_content(m1, maybe(a), x) implies m1.disk[x]
        == m2.disk[x] && l2.contains(x) && !gotb.contains(x) by {
        assert(in_extent(a, ba.len() as int, x));
        assert(gota.contains(x));
        assert(l1.contains(x));
    }
    lemma_loose_same(m1, m2, maybe(a));
    assert forall|x: int| #[trigger] in_content(m2, maybe(a), x) implies l2.contains(x) by {
        assert(in_content(m1, maybe(a), x));
    }
    // the first directory points to its new entries
    let na = INode { extent_addr: maybe(a), ..from };
    inode_round_trip(na);
    lemma_sound_point(m2, known, l2, pa, na);
    let m3 = m2.put_inode(pa, na).0;
    let l3 = Set::new(
        |x: int| in_content(m3, olda, x) || l2.contains(x) && !in_content(m2, maybe(a), x),
    );
    assert forall|x: int| #[trigger] in_content(m2, maybe(b), x) implies m2.disk[x]
        == m3.disk[x] && l3.contains(x) by {
        assert(in_extent(b, bb.len() as int, x));
        assert(gotb.contains(x));
        assert(l2.contains(x));
        assert(held(m2, x));
        assert(!owned(m2, pa, x));
        lemma_kept_address(m2, pa, na, x);
        if in_content(m2, maybe(a), x) {
            assert(in_content(m1, maybe(a), x));
        }
    }
    lemma_loose_same(m2, m3, maybe(b));
    assert forall|x: int| #[trigger] in_content(m3, maybe(b), x) implies l3.contains(x) by {
        assert(in_content(m2, maybe(b), x));
    }
    assert(same_inode(m2, m3, pb));
    // so does the second
    let nb = INode { extent_addr: maybe(b), ..to };
    inode_round_trip(nb);
    lemma_sound_point(m3, known, l3, pb, nb);
    let m4 = m3.put_inode(pb, nb).0;
    let l4 = Set::new(
        |x: int| in_content(m4, oldb, x) || l3.contains(x) && !in_content(m3, maybe(b), x),
    );
    assert(same_inode(m3, m4, pa));
    assert forall|x: int| #[trigger] in_content(m3, olda, x) implies m3.disk[x] == m4.disk[x]
        && l4.contains(x) && !in_content(m4, oldb, x) by {
        assert(l3.contains(x));
        assert(held(m3, x));
        assert(!owned(m3, pb, x));
        lemma_kept_address(m3, pb, nb, x);
        assert(in_content(m2, olda, x));
        assert(owned(m2, pa, x));
        if in_content(m3, maybe(b), x) {
            assert(in_content(m2, maybe(b), x));
            assert(in_extent(b, bb.len() as int, x));
            assert(l2.contains(x));
        }
        if in_content(m4, oldb, x) {
            assert(in_content(m3, oldb, x));
        }
    }
    lemma_loose_same(m3, m4, olda);
    assert forall|x: int| #[trigger] in_chain(m4, olda, fuel, x) implies l4.contains(x) by {
        assert(in_content(m4, olda, x));
        assert(in_content(m3, olda, x));
    }
    // the old entries are freed
    assert(inode_fine(m2, pa));
    lemma_sound_free(m4, known, l4, olda, fuel);
    let m5 = m4.free(olda).0;
    let l5 = l4.difference(Set::new(|x: int| in_chain(m4, olda, fuel, x)));
    assert forall|x: int| #[trigger] in_content(m4, oldb, x) implies m4.disk[x] == m5.disk[x]
        && l5.contains(x) by {
        assert(l4.contains(x));
        assert(held(m4, x));
        if in_chain(m4, olda, fuel, x) {
            assert(in_content(m4, olda, x));
            assert(in_content(m3, olda, x));
        }
    }
    lemma_loose_same(m4, m5, oldb);
    assert forall|x: int| #[trigger] in_chain(m5, oldb, fuel, x) implies l5.contains(x) by {
        assert(in_content(m5, oldb, x));
        assert(in_content(m4, oldb, x));
    }
    lemma_sound_free(m5, known, l5, oldb, fuel);
    let m6 = m5.free(oldb).0;
    reveal_with_fuel(Brute::free_all, 3);
    assert(seq![olda, oldb].drop_first() =~= seq![oldb]);
    assert(seq![oldb].drop_first() =~= Seq::<MaybeU64>::empty());
    assert(m6 == m.commit_transfer(pa, from, ba, pb, to, bb).0);
    lemma_sound_less(
        m6,
        known,
        l5.difference(Set::new(|x: int| in_chain(m5, oldb, fuel, x))),
        none,
    );
    assert forall|k: u64| #[trigger] known.contains(k) && k != pa && k != pb implies same_inode(
        m,
        m6,
        k,
    ) by {
        assert(same_inode(m, m1, k));
        assert(same_inode(m1, m2, k));
        assert(same_inode(m2, m3, k));
        assert(same_inode(m3, m4, k));
        assert(same_inode(m4, m5, k));
        assert(same_inode(m5, m6, k));
    }
    assert(same_inode(m4, m5, pa) && same_inode(m5, m6, pa));
    assert(same_inode(m4, m5, pb) && same_inode(m5, m6, pb));
}

/// Every entry of the one that leads elsewhere than to `id` is still in the other.
spec fn entries_past(e: Entries, f: Entries, id: u64) -> bool {
    forall|x: Seq<char>|
        (#[trigger] entry_position(e, x)) is Some && e[entry_position(e, x)->0].1 != id
            ==> entry_position(f, x) is Some && f[entry_position(f, x)->0].1
            == e[entry_position(e, x)->0].1
}

/// All inodes are still there, and all directories still have the entries that lead elsewhere
/// than to `id`.
spec fn leads_past(m: Brute, m2: Brute, known: Set<u64>, id: u64) -> bool {
    forall|n: u64| #[trigger] known.contains(n) ==> {
        &&& m2.inode(n) is Ok
        &&& m2.inode(n)->Ok_0.kind == m.inode(n)->Ok_0.kind
        &&& listed(m, known, n) ==> m2.dir(start_of(m2, n)) is Ok && entries_past(
            entries_of(m, n),
            entries_of(m2, n),
            id,
        )
    }
}

/// A path that does not come by the inode `id` leads where it led.
proof fn lemma_walk_avoiding(
    m: Brute,
    m2: Brute,
    known: Set<u64>,
    id: u64,
    parts: Seq<Seq<char>>,
    k: nat,
)
    requires
        brute_grounded(m, known),
        leads_past(m, m2, known, id),
        k <= parts.len(),
        m.walk(parts, k) is Ok,
        forall|j: nat| j <= k ==> (#[trigger] m.walk(parts, j))->Ok_0.0 != id,
    ensures
        m2.walk(parts, k) == Ok::<_, Fault>(
            (m.walk(parts, k)->Ok_0.0, m2.inode(m.walk(parts, k)->Ok_0.0)->Ok_0),
        ),
    decreases k,
{
    lemma_walk_known(m, known, parts, k);
    let c = m.walk(parts, k)->Ok_0.0;
    assert(known.contains(c));
    if k > 0 {
        lemma_walk_known(m, known, parts, (k - 1) as nat);
        let d = m.walk(parts, (k - 1) as nat)->Ok_0.0;
        assert(listed(m, known, d));
        lemma_walk_avoiding(m, m2, known, id, parts, (k - 1) as nat);
        assert(known.contains(d));
        assert(m.walk(parts, k)->Ok_0.0 != id);
        assert(entry_position(entries_of(m, d), parts[k - 1]) is Some);
    }
}

/// One entry is taken out and an entry for the same inode is added.
proof fn lemma_renamed_entries(e: Entries, i: int, name: Seq<char>)
    requires
        tidy(e),
        0 <= i < e.len(),
        entry_position(e, name) is None,
    ensures
        tidy(e.remove(i).push((name, e[i].1))),
        entries_past(e, e.remove(i).push((name, e[i].1)), e[i].1),
        entry_position(e.remove(i).push((name, e[i].1)), e[i].0) is None,
        entry_position(e.remove(i).push((name, e[i].1)), name) == Some(e.len() - 1),
        forall|k: int|
            0 <= k < e.len() ==> exists|j: int|
                0 <= j < e.len() && (#[trigger] e[j]).1 == (#[trigger] e.remove(i).push(
                    (name, e[i].1),
                )[k]).1,
{
    let r = e.remove(i);
    let id = e[i].1;
    let f = r.push((name, id));
    lemma_taken_out(e, i);
    assert(entry_position(r, name) is None);
    lemma_entries_push(r, name, id);
    lemma_position(e, name);
    assert(e[i].0 != name);
    assert(f.drop_last() =~= r);
    lemma_position(r, name);
    lemma_position(r, e[i].0);
    lemma_position(f, e[i].0);
    assert forall|k: int| 0 <= k < e.len() implies exists|j: int|
        0 <= j < e.len() && (#[trigger] e[j]).1 == (#[trigger] f[k]).1 by {
        if k < r.len() {
            assert(f[k] == r[k]);
            let j = choose|j: int| 0 <= j < e.len() && #[trigger] e[j] == r[k];
            assert(e[j].1 == f[k].1);
        } else {
            assert(e[i].1 == f[k].1);
        }
    }
    assert(tidy(f)) by {
        assert forall|k: int| 0 <= k < f.len() implies (#[trigger] f[k]).1 != ROOT_AT by {
            if k < r.len() {
                assert(f[k] == r[k]);
            } else {
                assert(e[i].1 != ROOT_AT);
            }
        }
        assert forall|k: int, l: int| 0 <= k < l < f.len() implies (#[trigger] f[k]).0 != (
        #[trigger] f[l]).0 && f[k].1 != f[l].1 by {
            assert(f[k] == r[k]);
            if l < r.len() {
                assert(f[l] == r[l]);
            }
        }
    }
    assert forall|x: Seq<char>|
        (#[trigger] entry_position(e, x)) is Some && e[entry_position(e, x)->0].1
            != id implies entry_position(f, x) is Some && f[entry_position(f, x)->0].1
        == e[entry_position(e, x)->0].1 by {
        if x == e[i].0 {
            lemma_position(e, x);
            let p = entry_position(e, x)->0;
            if p < i {
                assert(e[p].0 != e[i].0);
            }
        }
        assert(entry_position(r, x) is Some);
    }
}

/// What a move leaves behind: the entry is in the one directory under its new name and in no
/// other.
spec fn moved(
    m: Brute,
    m2: Brute,
    known: Set<u64>,
    pa: u64,
    src_name: Seq<char>,
    pb: u64,
    dst_name: Seq<char>,
    id: u64,
) -> bool {
    &&& brute_grounded(m2, known)
    &&& m2.disk.len() == m.disk.len()
    &&& seal(m2) == seal(m)
    &&& leads_past(m, m2, known, id)
    &&& brute_files_kept(m, m2, known)
    &&& id != pa
    &&& m2.inode(pa) == Ok::<_, Fault>(
        INode { extent_addr: start_of(m2, pa), ..m.inode(pa)->Ok_0 },
    )
    &&& m2.inode(pb) == Ok::<_, Fault>(
        INode { extent_addr: start_of(m2, pb), ..m.inode(pb)->Ok_0 },
    )
    &&& ({
        let left = entries_of(m, pa).remove(entry_position(entries_of(m, pa), src_name)->0);
        if pa == pb {
            m2.dir(start_of(m2, pa)) == Ok::<_, Fault>(left.push((dst_name, id)))
        } else {
            &&& m2.dir(start_of(m2, pa)) == Ok::<_, Fault>(left)
            &&& m2.dir(start_of(m2, pb)) == Ok::<_, Fault>(
                entries_of(m, pb).push((dst_name, id)),
            )
        }
    })
    &&& forall|k: u64| #[trigger]
        known.contains(k) && k != pa && k != pb ==> same_inode(m, m2, k)
    &&& entry_position(entries_of(m2, pa), src_name) is None
    &&& entry_position(entries_of(m2, pb), dst_name) is Some
    &&& entries_of(m2, pb)[entry_position(entries_of(m2, pb), dst_name)->0].1 == id
}

/// An entry gets another name in its directory.
proof fn lemma_rename_moves(
    m: Brute,
    known: Set<u64>,
    addr: u64,
    n: INode,
    src_name: Seq<char>,
    dst_name: Seq<char>,
) -> (id: u64)
    requires
        brute_grounded(m, known),
        known.contains(addr),
        m.inode(addr) == Ok::<_, Fault>(n),
        n.kind is Directory,
        m.dir(n.extent_addr) is Ok,
        m.rename(addr, n, m.dir(n.extent_addr)->Ok_0, src_name, dst_name).1 is Ok,
        last_entry(m.dir(n.extent_addr)->Ok_0, src_name) != Some(addr),
    ensures
        last_entry(m.dir(n.extent_addr)->Ok_0, src_name) == Some(id),
        moved(
            m,
            m.rename(addr, n, m.dir(n.extent_addr)->Ok_0, src_name, dst_name).0,
            known,
            addr,
            src_name,
            addr,
            dst_name,
            id,
        ),
{
    reveal(brute_grounded);
    let e = m.dir(n.extent_addr)->Ok_0;
    assert(listed(m, known, addr));
    lemma_without_one(e, src_name);
    let i = entry_position(e, src_name)->0;
    let id = e[i].1;
    let f = e.remove(i).push((dst_name, id));
    let m2 = m.rename(addr, n, e, src_name, dst_name).0;
    lemma_renamed_entries(e, i, dst_name);
    lemma_entries_replaced(m, known, addr, n, f, n.mtime);
    assert(closed(f, known)) by {
        assert forall|k: int| 0 <= k < f.len() implies known.contains((#[trigger] f[k]).1) by {
            let j = choose|j: int| 0 <= j < e.len() && (#[trigger] e[j]).1 == f[k].1;
            assert(known.contains(e[j].1));
        }
    }
    assert forall|b: u64| #[trigger] listed(m, known, b) && b != addr implies unrelated(
        f,
        entries_of(m, b),
    ) && closed(entries_of(m, b), known) by {
        let g = entries_of(m, b);
        assert(unrelated(e, g));
        assert forall|k: int, l: int| 0 <= k < f.len() && 0 <= l < g.len() implies (
        #[trigger] f[k]).1 != (#[trigger] g[l]).1 by {
            let j = choose|j: int| 0 <= j < e.len() && (#[trigger] e[j]).1 == f[k].1;
            assert(e[j].1 != g[l].1);
        }
    }
    lemma_neat_step(m, m2, known, known, addr, f);
    assert forall|k: u64| #[trigger] known.contains(k) implies ({
        &&& m2.inode(k) is Ok
        &&& m2.inode(k)->Ok_0.kind == m.inode(k)->Ok_0.kind
        &&& listed(m, known, k) ==> m2.dir(start_of(m2, k)) is Ok && entries_past(
            entries_of(m, k),
            entries_of(m2, k),
            id,
        )
    }) by {
        assert(inode_fine(m, k));
        if k != addr {
            assert(same_inode(m, m2, k));
        }
    }
    id
}

/// The entries of two directories change.
proof fn lemma_neat_two(
    m: Brute,
    m2: Brute,
    known: Set<u64>,
    pa: u64,
    i: int,
    pb: u64,
    name: Seq<char>,
)
    requires
        neat(m, known),
        listed(m, known, pa),
        listed(m, known, pb),
        pa != pb,
        0 <= i < entries_of(m, pa).len(),
        entry_position(entries_of(m, pb), name) is None,
        m2.dir(start_of(m2, pa)) == Ok::<_, Fault>(entries_of(m, pa).remove(i)),
        m2.dir(start_of(m2, pb)) == Ok::<_, Fault>(
            entries_of(m, pb).push((name, entries_of(m, pa)[i].1)),
        ),
        forall|k: u64| #[trigger]
            known.contains(k) && k != pa && k != pb ==> same_inode(m, m2, k),
    ensures
        neat(m2, known),
{
    let ea = entries_of(m, pa);
    let eb = entries_of(m, pb);
    let id = ea[i].1;
    let fa = ea.remove(i);
    let fb = eb.push((name, id));
    lemma_taken_out(ea, i);
    lemma_position(eb, name);
    assert(unrelated(ea, eb));
    assert(tidy(fb)) by {
        assert forall|k: int| 0 <= k < fb.len() implies (#[trigger] fb[k]).1 != ROOT_AT by {
            if k < eb.len() {
                assert(fb[k] == eb[k]);
            } else {
                assert(ea[i].1 != ROOT_AT);
            }
        }
        assert forall|k: int, l: int| 0 <= k < l < fb.len() implies (#[trigger] fb[k]).0 != (
        #[trigger] fb[l]).0 && fb[k].1 != fb[l].1 by {
            assert(fb[k] == eb[k]);
            if l < eb.len() {
                assert(fb[l] == eb[l]);
            } else {
                assert(ea[i].1 != eb[k].1);
            }
        }
    }
    assert(closed(fa, known)) by {
        assert forall|k: int| 0 <= k < fa.len() implies known.contains((#[trigger] fa[k]).1) by {
            let j = choose|j: int| 0 <= j < ea.len() && #[trigger] ea[j] == fa[k];
            assert(known.contains(ea[j].1));
        }
    }
    assert(closed(fb, known)) by {
        assert forall|k: int| 0 <= k < fb.len() implies known.contains((#[trigger] fb[k]).1) by {
            if k < eb.len() {
                assert(fb[k] == eb[k]);
            } else {
                assert(known.contains(ea[i].1));
            }
        }
    }
    assert(unrelated(fa, fb)) by {
        assert forall|k: int, l: int| 0 <= k < fa.len() && 0 <= l < fb.len() implies (
        #[trigger] fa[k]).1 != (#[trigger] fb[l]).1 by {
            let j = choose|j: int| 0 <= j < ea.len() && #[trigger] ea[j] == fa[k];
            if l < eb.len() {
                assert(fb[l] == eb[l]);
                assert(ea[j].1 != eb[l].1);
            }
        }
    }
    assert forall|c: u64| #[trigger] listed(m, known, c) && c != pa && c != pb implies unrelated(
        fa,
        entries_of(m, c),
    ) && unrelated(fb, entries_of(m, c)) by {
        let g = entries_of(m, c);
        assert(unrelated(ea, g));
        assert(unrelated(eb, g));
        assert forall|k: int, l: int| 0 <= k < fa.len() && 0 <= l < g.len() implies (
        #[trigger] fa[k]).1 != (#[trigger] g[l]).1 by {
            let j = choose|j: int| 0 <= j < ea.len() && #[trigger] ea[j] == fa[k];
            assert(ea[j].1 != g[l].1);
        }
        assert forall|k: int, l: int| 0 <= k < fb.len() && 0 <= l < g.len() implies (
        #[trigger] fb[k]).1 != (#[trigger] g[l]).1 by {
            if k < eb.len() {
                assert(fb[k] == eb[k]);
            } else {
                assert(ea[i].1 != g[l].1);
            }
        }
    }
    assert forall|k: u64| #[trigger] listed(m2, known, k) && k != pa && k != pb implies listed(
        m,
        known,
        k,
    ) && entries_of(m2, k) == entries_of(m, k) by {
        assert(same_inode(m, m2, k));
    }
    assert forall|k: u64, l: u64|
        #[trigger] listed(m2, known, k) && #[trigger] listed(m2, known, l) && k
            != l implies unrelated(entries_of(m2, k), entries_of(m2, l)) by {
        lemma_unrelated_turns(fa, fb);
        if k != pa && k != pb {
            lemma_unrelated_turns(fa, entries_of(m, k));
            lemma_unrelated_turns(fb, entries_of(m, k));
        }
    }
}

proof fn lemma_unrelated_turns(e: Entries, f: Entries)
    requires
        unrelated(e, f),
    ensures
        unrelated(f, e),
{
}

/// A transfer from one directory to another.
proof fn lemma_transfer_moves(
    m: Brute,
    known: Set<u64>,
    pa: u64,
    from: INode,
    src_name: Seq<char>,
    pb: u64,
    to: INode,
    dst_name: Seq<char>,
) -> (id: u64)
    requires
        brute_grounded(m, known),
        known.contains(pa),
        known.contains(pb),
        pa != pb,
        m.inode(pa) == Ok::<_, Fault>(from),
        m.inode(pb) == Ok::<_, Fault>(to),
        from.kind is Directory,
        to.kind is Directory,
        m.dir(from.extent_addr) is Ok,
        m.dir(to.extent_addr) is Ok,
        last_entry(m.dir(from.extent_addr)->Ok_0, src_name) != Some(pa),
        m.transfer(
            pa,
            from,
            m.dir(from.extent_addr)->Ok_0,
            src_name,
            pb,
            to,
            m.dir(to.extent_addr)->Ok_0,
            dst_name,
        ).1 is Ok,
    ensures
        last_entry(m.dir(from.extent_addr)->Ok_0, src_name) == Some(id),
        moved(
            m,
            m.transfer(
                pa,
                from,
                m.dir(from.extent_addr)->Ok_0,
                src_name,
                pb,
                to,
                m.dir(to.extent_addr)->Ok_0,
                dst_name,
            ).0,
            known,
            pa,
            src_name,
            pb,
            dst_name,
            id,
        ),
{
    reveal(brute_grounded);
    let ea = m.dir(from.extent_addr)->Ok_0;
    let eb = m.dir(to.extent_addr)->Ok_0;
    assert(listed(m, known, pa) && listed(m, known, pb));
    lemma_without_one(ea, src_name);
    let i = entry_position(ea, src_name)->0;
    let id = ea[i].1;
    let fa = ea.remove(i);
    let fb = eb.push((dst_name, id));
    let m2 = m.transfer(pa, from, ea, src_name, pb, to, eb, dst_name).0;
    lemma_taken_out(ea, i);
    lemma_entries_push(eb, dst_name, id);
    lemma_transferred(m, known, pa, from, fa, pb, to, fb);
    lemma_neat_two(m, m2, known, pa, i, pb, dst_name);
    assert(entries_past(ea, fa, id)) by {
        assert forall|x: Seq<char>|
            (#[trigger] entry_position(ea, x)) is Some && ea[entry_position(ea, x)->0].1
                != id implies entry_position(fa, x) is Some && fa[entry_position(fa, x)->0].1
            == ea[entry_position(ea, x)->0].1 by {
            if x == ea[i].0 {
                assert(entry_position(ea, x) == Some(i));
            }
        }
    }
    assert forall|k: u64| #[trigger] known.contains(k) implies ({
        &&& m2.inode(k) is Ok
        &&& m2.inode(k)->Ok_0.kind == m.inode(k)->Ok_0.kind
        &&& listed(m, known, k) ==> m2.dir(start_of(m2, k)) is Ok && entries_past(
            entries_of(m, k),
            entries_of(m2, k),
            id,
        )
    }) by {
        assert(inode_fine(m, k));
        if k != pa && k != pb {
            assert(same_inode(m, m2, k));
        }
    }
    id
}

/// The one directory has lost the last component of the source, the other has got the last
/// component of the destination behind its other entries. Neither has changed otherwise.
pub open spec fn brute_shifted(m: Brute, m2: Brute, src: Seq<char>, dest: Seq<char>) -> bool {
    let (pa, from) = m.parent(src)->Ok_0.0;
    let (pb, to) = m.parent(dest)->Ok_0.0;
    let ea = m.dir(from.extent_addr)->Ok_0;
    let eb = m.dir(to.extent_addr)->Ok_0;
    let left = ea.remove(entry_position(ea, components(src).last())->0);
    let added = (components(dest).last(), m.lookup(src)->Ok_0.0);
    &&& m2.inode(pa) == Ok::<_, Fault>(INode { extent_addr: start_of(m2, pa), ..from })
    &&& m2.inode(pb) == Ok::<_, Fault>(INode { extent_addr: start_of(m2, pb), ..to })
    &&& pa == pb ==> m2.dir(start_of(m2, pa)) == Ok::<_, Fault>(left.push(added))
    &&& pa != pb ==> m2.dir(start_of(m2, pa)) == Ok::<_, Fault>(left) && m2.dir(start_of(m2, pb))
        == Ok::<_, Fault>(eb.push(added))
}

/// An entry that was moved is found at its destination and no longer at its source, and files keep
/// their contents. The destination may not lie below what is moved.
pub proof fn brute_moved_entry_is_found(m: Brute, known: Set<u64>, src: Seq<char>, dest: Seq<char>)
    requires
        brute_grounded(m, known),
        m.fmove(src, dest).1 is Ok,
        m.parent(src)->Ok_0.0.1.kind is Directory,
        m.parent(dest)->Ok_0.0.1.kind is Directory,
        !components(src).is_prefix_of(components(dest)),
    ensures
        ({
            let m2 = m.fmove(src, dest).0;
            &&& brute_grounded(m2, known)
            &&& brute_files_kept(m, m2, known)
            &&& seal(m2) == seal(m)
            &&& m.lookup(src) is Ok
            &&& m.lookup(dest) is Err
            &&& m2.lookup(src) is Err
            &&& m2.lookup(dest) is Ok
            &&& m2.lookup(dest) == m.lookup(src)
            &&& m.lookup(src)->Ok_0.1.kind is File ==> m2.fread(dest) == m.fread(src)
            &&& brute_shifted(m, m2, src, dest)
        }),
{
    lemma_split(m, src);
    lemma_split(m, dest);
    let sp = components(src);
    let dp = components(dest);
    let sk = (sp.len() - 1) as nat;
    let dk = (dp.len() - 1) as nat;
    let ((pa, from), src_name) = m.parent(src)->Ok_0;
    let ((pb, to), dst_name) = m.parent(dest)->Ok_0;
    lemma_walk_known(m, known, sp, sk);
    lemma_walk_known(m, known, dp, dk);
    assert(listed(m, known, pa));
    let ea = m.dir(from.extent_addr)->Ok_0;
    let m2 = m.fmove(src, dest).0;
    assert(tidy(ea) && closed(ea, known)) by {
        reveal(brute_grounded);
    }
    lemma_without_one(ea, src_name);
    let i = entry_position(ea, src_name)->0;
    let id = ea[i].1;
    assert(known.contains(id));
    assert(inode_fine(m, id)) by {
        reveal(brute_grounded);
    }
    assert(m.walk(sp, sp.len()) is Ok);
    assert forall|j: nat| j <= sk implies (#[trigger] m.walk(sp, j))->Ok_0.0 != id by {
        lemma_walk_down(m, sp, j, sk);
        if m.walk(sp, j)->Ok_0.0 == id {
            brute_paths_are_unique(m, known, sp, j, sp, sp.len());
        }
    }
    assert forall|j: nat| j <= dk implies (#[trigger] m.walk(dp, j))->Ok_0.0 != id by {
        lemma_walk_down(m, dp, j, dk);
        if m.walk(dp, j)->Ok_0.0 == id {
            brute_paths_are_unique(m, known, dp, j, sp, sp.len());
            assert(sp.subrange(0, sp.len() as int) =~= sp);
            assert(sp =~= dp.subrange(0, sp.len() as int));
        }
    }
    assert(m.walk(sp, sk)->Ok_0.0 != id);
    if pa == pb {
        lemma_rename_moves(m, known, pa, from, src_name, dst_name);
    } else {
        lemma_transfer_moves(m, known, pa, from, src_name, pb, to, dst_name);
    }
    lemma_walk_avoiding(m, m2, known, id, sp, sk);
    lemma_walk_avoiding(m, m2, known, id, dp, dk);
    assert(known.contains(pa) && known.contains(pb));
    assert(m.walk(dp, dk)->Ok_0.0 != id);
    assert(same_inode(m, m2, id));
    if m.lookup(src)->Ok_0.1.kind is File {
        assert(same_inode(m, m2, id));
        let n = m.lookup(src)->Ok_0.1;
        assert(m.target(src, m.disk.len()) == Ok::<_, Fault>(n));
        assert(m2.target(dest, m2.disk.len()) == Ok::<_, Fault>(n));
    }
}

/// Every shorter way of a way that leads somewhere leads somewhere.
proof fn lemma_walk_down(m: Brute, parts: Seq<Seq<char>>, j: nat, k: nat)
    requires
        j <= k,
        m.walk(parts, k) is Ok,
    ensures
        m.walk(parts, j) is Ok,
    decreases k,
{
    if j < k {
        lemma_walk_down(m, parts, j, (k - 1) as nat);
    }
}

/// A move changes no path but those that lead by what is moved: they lead to the inodes that they
/// led to, and a file or link is as it was.
pub proof fn brute_moving_leaves_other_paths(
    m: Brute,
    known: Set<u64>,
    src: Seq<char>,
    dest: Seq<char>,
    other: Seq<char>,
)
    requires
        brute_grounded(m, known),
        m.fmove(src, dest).1 is Ok,
        m.parent(src)->Ok_0.0.1.kind is Directory,
        m.parent(dest)->Ok_0.0.1.kind is Directory,
        !components(src).is_prefix_of(components(dest)),
        !components(src).is_prefix_of(components(other)),
        m.lookup(other) is Ok,
    ensures
        ({
            let m2 = m.fmove(src, dest).0;
            let n = m.lookup(other)->Ok_0.1;
            &&& m2.lookup(other) is Ok
            &&& m2.lookup(other)->Ok_0.0 == m.lookup(other)->Ok_0.0
            &&& m2.lookup(other)->Ok_0.1 == INode {
                extent_addr: m2.lookup(other)->Ok_0.1.extent_addr,
                ..n
            }
            &&& !(n.kind is Directory) ==> m2.lookup(other) == m.lookup(other) && m2.content(
                n.extent_addr,
            ) == m.content(n.extent_addr)
        }),
{
    lemma_split(m, src);
    lemma_split(m, dest);
    brute_moved_entry_is_found(m, known, src, dest);
    let sp = components(src);
    let dp = components(dest);
    let op = components(other);
    let sk = (sp.len() - 1) as nat;
    let dk = (dp.len() - 1) as nat;
    let ((pa, from), src_name) = m.parent(src)->Ok_0;
    let ((pb, to), dst_name) = m.parent(dest)->Ok_0;
    lemma_walk_known(m, known, sp, sk);
    lemma_walk_known(m, known, dp, dk);
    lemma_walk_known(m, known, op, op.len());
    assert(listed(m, known, pa));
    let ea = m.dir(from.extent_addr)->Ok_0;
    let m2 = m.fmove(src, dest).0;
    assert(tidy(ea) && closed(ea, known)) by {
        reveal(brute_grounded);
    }
    lemma_without_one(ea, src_name);
    let i = entry_position(ea, src_name)->0;
    let id = ea[i].1;
    assert(m.walk(sp, sp.len())->Ok_0.0 == id);
    assert(id != pa) by {
        if id == pa {
            brute_paths_are_unique(m, known, sp, sk, sp, sp.len());
        }
    }
    if pa == pb {
        lemma_rename_moves(m, known, pa, from, src_name, dst_name);
    } else {
        lemma_transfer_moves(m, known, pa, from, src_name, pb, to, dst_name);
    }
    assert forall|j: nat| j <= op.len() implies (#[trigger] m.walk(op, j))->Ok_0.0 != id by {
        lemma_walk_down(m, op, j, op.len());
        if m.walk(op, j)->Ok_0.0 == id {
            brute_paths_are_unique(m, known, op, j, sp, sp.len());
            assert(sp.subrange(0, sp.len() as int) =~= sp);
            assert(sp =~= op.subrange(0, sp.len() as int));
        }
    }
    lemma_walk_avoiding(m, m2, known, id, op, op.len());
    let at = m.lookup(other)->Ok_0.0;
    if at != pa && at != pb {
        assert(same_inode(m, m2, at));
    }
}

} // verus!
