//! What removing an entry promises.
use crate::addr::{maybe, MaybeU64};
use crate::bfs::image::Brute;
use crate::bfs::records::{inode_round_trip, node_bytes, INode, INODE_SIZE};
use crate::bfs::sound::{
    chain_apart, held, in_chain, in_content, in_extent, in_inode, inode_fine, lemma_loose_same,
    lemma_put_frame, lemma_sound_free, lemma_sound_less, lemma_sound_mark, lemma_sound_point,
    lemma_sound_store, owned, same_inode, seal, sound, start_of, stretch, ROOT_AT,
};
use crate::bfs::tree_laws::{
    brute_grounded, closed, entries_of, lemma_neat_step, listed, tidy, unrelated,
};
use crate::bfs::op_laws::{lemma_split, lemma_walk_known};
use crate::bfs::vector::slot_holds;
use crate::error::Fault;
use crate::utils::components;
use crate::xhfs::ds::{dir_bytes, directory_round_trip};
use crate::xhfs::layout::AddressSlot;
use crate::xhfs::op_laws::{lemma_dir_len, lemma_position};
use crate::xhfs::tree::{entry_position, Entries};
use vstd::prelude::*;

verus! {

/// An inode that is no longer known leaves its addresses loose.
pub proof fn lemma_sound_drop(m: Brute, known: Set<u64>, a: u64)
    requires
        sound(m, known, Set::empty()),
        known.contains(a),
        a != ROOT_AT,
    ensures
        sound(m, known.remove(a), Set::new(|x: int| owned(m, a, x))),
{
    let rest = known.remove(a);
    let loose = Set::new(|x: int| owned(m, a, x));
    assert forall|n: u64| #[trigger] rest.contains(n) implies inode_fine(m, n) by {
        assert(known.contains(n));
    }
    assert forall|x: int| #[trigger] loose.contains(x) implies held(m, x) by {
        assert(owned(m, a, x));
    }
    assert forall|n: u64, x: int| rest.contains(n) && loose.contains(x) implies !#[trigger] owned(
        m,
        n,
        x,
    ) by {
        assert(owned(m, a, x));
    }
}

/// What is left to be given back of an inode: the inode itself and the content at `garbage`.
pub open spec fn left_over(m: Brute, id: u64, garbage: MaybeU64, loose: Set<int>) -> bool {
    &&& m.content(garbage) is Ok
    &&& chain_apart(m, garbage, m.disk.len())
    &&& forall|x: int| #[trigger] in_content(m, garbage, x) ==> loose.contains(x) && !in_inode(id, x)
    &&& forall|x: int| #[trigger] in_inode(id, x) ==> loose.contains(x)
}

/// Clearing out an inode that is no longer known.
pub proof fn lemma_cleared_out(m: Brute, known: Set<u64>, id: u64, n: INode) -> (loose: Set<int>)
    requires
        sound(m, known, Set::empty()),
        known.contains(id),
        id != ROOT_AT,
        m.inode(id) == Ok::<_, Fault>(n),
        m.clear_out(n).1 is Ok,
    ensures
        ({
            let (m2, r) = m.clear_out(n);
            &&& sound(m2, known.remove(id), loose)
            &&& left_over(m2, id, r->Ok_0, loose)
            &&& m2.disk.len() == m.disk.len()
            &&& seal(m2) == seal(m)
            &&& forall|k: u64| #[trigger] known.contains(k) && k != id ==> same_inode(m, m2, k)
        }),
{
    let rest = known.remove(id);
    let all = Set::new(|x: int| owned(m, id, x));
    let fuel = m.disk.len();
    lemma_sound_drop(m, known, id);
    assert(inode_fine(m, id));
    assert forall|x: int| #[trigger] in_chain(m, n.extent_addr, fuel, x) implies all.contains(x) by {
        assert(in_content(m, n.extent_addr, x));
    }
    if n.kind is Directory {
        assert forall|x: int| #[trigger] in_content(m, n.extent_addr, x) implies all.contains(x)
            && !in_inode(id, x) by {
            if in_inode(id, x) {
                assert(!in_content(m, start_of(m, id), x));
            }
        }
        all
    } else {
        lemma_sound_free(m, rest, all, n.extent_addr, fuel);
        let loose = all.difference(Set::new(|x: int| in_chain(m, n.extent_addr, fuel, x)));
        let m2 = m.clear_out(n).0;
        assert forall|x: int| #[trigger] in_inode(id, x) implies loose.contains(x) by {
            assert(owned(m, id, x));
            assert(!in_content(m, start_of(m, id), x));
        }
        assert forall|x: int| !#[trigger] in_content(m2, maybe(0), x) by {}
        assert forall|k: u64| #[trigger] known.contains(k) && k != id implies same_inode(
            m,
            m2,
            k,
        ) by {
            assert(rest.contains(k));
        }
        loose
    }
}

/// Writing the entries that are left and giving back what is left over.
#[verifier::rlimit(40)]
pub proof fn lemma_entry_unlinked(
    m: Brute,
    known: Set<u64>,
    loose: Set<int>,
    addr: u64,
    parent: INode,
    rest: Entries,
    id: u64,
    garbage: MaybeU64,
    now: u64,
)
    requires
        sound(m, known, loose),
        known.contains(addr),
        m.inode(addr) == Ok::<_, Fault>(parent),
        left_over(m, id, garbage, loose),
        m.store_entries(rest).1 is Ok,
    ensures
        m.unlink_entry(addr, parent, rest, id, garbage, now).1 is Ok,
        ({
            let m2 = m.unlink_entry(addr, parent, rest, id, garbage, now).0;
            &&& sound(m2, known, Set::empty())
            &&& m2.inode(addr) == Ok::<_, Fault>(
                INode { extent_addr: start_of(m2, addr), mtime: now, ..parent },
            )
            &&& m2.dir(start_of(m2, addr)) == Ok::<_, Fault>(rest)
            &&& m2.disk.len() == m.disk.len()
            &&& seal(m2) == seal(m)
            &&& forall|k: u64| #[trigger] known.contains(k) && k != addr ==> same_inode(m, m2, k)
        }),
{
    let data = dir_bytes(rest)->Ok_0;
    lemma_dir_len(rest);
    directory_round_trip(rest);
    lemma_sound_store(m, known, loose, data);
    let (m1, r1) = m.store(data);
    let new = r1->Ok_0;
    let got = stretch(new as int, data.len() as int + 16);
    let loose1 = loose.union(got);
    let n2 = INode { extent_addr: maybe(new), mtime: now, ..parent };
    let old = parent.extent_addr;
    let fuel = m.disk.len();
    assert(same_inode(m, m1, addr));
    assert(inode_fine(m, addr));
    assert forall|x: int| #[trigger] in_content(m1, maybe(new), x) implies loose1.contains(x) by {
        assert(in_extent(new, data.len() as int, x));
        assert(got.contains(x));
    }
    inode_round_trip(n2);
    lemma_sound_point(m1, known, loose1, addr, n2);
    let m2 = m1.put_inode(addr, n2).0;
    let loose2 = Set::new(
        |x: int|
            in_content(m2, old, x) || loose1.contains(x) && !in_content(m1, maybe(new), x),
    );
    assert forall|x: int| #[trigger] loose.contains(x) implies loose2.contains(x) && m2.disk[x]
        == m.disk[x] && !in_content(m2, old, x) by {
        assert(m1.disk[x] == m.disk[x]);
        assert(held(m, x));
        assert(!owned(m, addr, x));
        assert(!owned(m1, addr, x));
        if in_content(m1, maybe(new), x) {
            assert(in_extent(new, data.len() as int, x));
            assert(got.contains(x));
        }
        assert(!in_inode(addr, x));
        lemma_kept_address(m1, addr, n2, x);
        if in_content(m2, old, x) {
            assert(in_content(m1, old, x));
        }
    }
    let slot = AddressSlot { addr: maybe(id), capacity: INODE_SIZE as usize };
    assert forall|x: int| #[trigger] slot_holds(slot, x) implies loose2.contains(x) by {
        assert(in_inode(id, x));
        assert(loose.contains(x));
    }
    lemma_sound_mark(m2, known, loose2, slot);
    let m3 = m2.mark(slot).0;
    let loose3 = loose2.difference(Set::new(|x: int| slot_holds(slot, x)));
    assert forall|x: int| #[trigger] in_content(m, garbage, x) implies m.disk[x] == m3.disk[x]
        && loose3.contains(x) by {
        assert(loose.contains(x));
        assert(held(m, x));
        if slot_holds(slot, x) {
            assert(in_inode(id, x));
        }
    }
    lemma_loose_same(m, m3, garbage);
    assert forall|x: int| #[trigger] in_chain(m3, garbage, fuel, x) implies loose3.contains(x) by {
        assert(in_content(m3, garbage, x));
        assert(in_content(m, garbage, x));
    }
    lemma_sound_free(m3, known, loose3, garbage, fuel);
    let m4 = m3.free(garbage).0;
    let loose4 = loose3.difference(Set::new(|x: int| in_chain(m3, garbage, fuel, x)));
    assert forall|x: int| #[trigger] in_content(m2, old, x) implies m2.disk[x] == m4.disk[x]
        && loose4.contains(x) by {
        assert(loose2.contains(x));
        assert(held(m2, x));
        assert(!loose.contains(x));
        if slot_holds(slot, x) {
            assert(in_inode(id, x));
        }
        if in_chain(m3, garbage, fuel, x) {
            assert(in_content(m3, garbage, x));
            assert(in_content(m, garbage, x));
        }
    }
    lemma_loose_same(m2, m4, old);
    assert forall|x: int| #[trigger] in_chain(m4, old, fuel, x) implies loose4.contains(x) by {
        assert(in_content(m4, old, x));
        assert(in_content(m2, old, x));
    }
    lemma_sound_free(m4, known, loose4, old, fuel);
    let m5 = m4.free(old).0;
    reveal_with_fuel(Brute::free_all, 3);
    assert(seq![garbage, old].drop_first() =~= seq![old]);
    assert(seq![old].drop_first() =~= Seq::<MaybeU64>::empty());
    assert(m5 == m.unlink_entry(addr, parent, rest, id, garbage, now).0);
    lemma_sound_less(
        m5,
        known,
        loose4.difference(Set::new(|x: int| in_chain(m4, old, fuel, x))),
        Set::empty(),
    );
    assert forall|k: u64| #[trigger] known.contains(k) && k != addr implies same_inode(m, m5, k) by {
        assert(same_inode(m, m1, k));
        assert(same_inode(m1, m2, k));
        assert(same_inode(m2, m3, k));
        assert(same_inode(m3, m4, k));
        assert(same_inode(m4, m5, k));
    }
    assert(same_inode(m2, m3, addr));
    assert(same_inode(m3, m4, addr));
    assert(same_inode(m4, m5, addr));
}

/// An address outside of an inode that is written keeps its byte.
pub proof fn lemma_kept_address(m: Brute, a: u64, n: INode, x: int)
    requires
        !in_inode(a, x),
        0 <= x < m.disk.len(),
    ensures
        m.put_inode(a, n).0.disk[x] == m.disk[x],
{
    inode_round_trip(n);
    lemma_put_frame(m, a as int, node_bytes(n));
}

/// The entries that are left when one is taken out.
pub proof fn lemma_taken_out(e: Entries, i: int)
    requires
        tidy(e),
        0 <= i < e.len(),
    ensures
        tidy(e.remove(i)),
        entry_position(e.remove(i), e[i].0) is None,
        forall|k: int| 0 <= k < e.len() - 1 ==> (#[trigger] e.remove(i)[k]).1 != e[i].1,
        forall|k: int|
            0 <= k < e.len() - 1 ==> exists|j: int|
                0 <= j < e.len() && #[trigger] e[j] == #[trigger] e.remove(i)[k],
        forall|x: Seq<char>|
            x != e[i].0 && (#[trigger] entry_position(e, x)) is Some ==> entry_position(
                e.remove(i),
                x,
            ) is Some && e.remove(i)[entry_position(e.remove(i), x)->0] == e[entry_position(
                e,
                x,
            )->0],
        forall|x: Seq<char>| entry_position(e, x) is None ==> (#[trigger] entry_position(
            e.remove(i),
            x,
        )) is None,
{
    let r = e.remove(i);
    assert forall|k: int| 0 <= k < r.len() implies (#[trigger] r[k]) == e[if k < i {
        k
    } else {
        k + 1
    }] by {}
    assert forall|k: int, l: int| 0 <= k < l < r.len() implies (#[trigger] r[k]).0 != (
    #[trigger] r[l]).0 && r[k].1 != r[l].1 by {
        let x = if k < i {
            k
        } else {
            k + 1
        };
        let y = if l < i {
            l
        } else {
            l + 1
        };
        assert(e[x].0 != e[y].0 && e[x].1 != e[y].1);
    }
    assert forall|k: int| 0 <= k < r.len() implies (#[trigger] r[k]).1 != ROOT_AT && r[k].1
        != e[i].1 && exists|j: int| 0 <= j < e.len() && #[trigger] e[j] == r[k] by {
        let x = if k < i {
            k
        } else {
            k + 1
        };
        assert(e[x] == r[k]);
        assert(e[x].1 != ROOT_AT);
        if x < i {
            assert(e[x].1 != e[i].1);
        } else {
            assert(e[i].1 != e[x].1);
        }
    }
    assert forall|x: Seq<char>| #[trigger] entry_position(r, x) is Some implies x != e[i].0
        && entry_position(e, x) is Some by {
        lemma_position(r, x);
        lemma_position(e, x);
        let k = entry_position(r, x)->0;
        let y = if k < i {
            k
        } else {
            k + 1
        };
        assert(e[y] == r[k]);
        if y < i {
            assert(e[y].0 != e[i].0);
        } else {
            assert(e[i].0 != e[y].0);
        }
    }
    assert forall|x: Seq<char>|
        x != e[i].0 && (#[trigger] entry_position(e, x)) is Some implies entry_position(r, x) is Some
        && r[entry_position(r, x)->0] == e[entry_position(e, x)->0] by {
        lemma_position(e, x);
        lemma_position(r, x);
        let p = entry_position(e, x)->0;
        let k = if p < i {
            p
        } else {
            p - 1
        };
        assert(r[k] == e[p]);
        let q = entry_position(r, x)->0;
        if q != k {
            if q < k {
                assert(r[q].0 != r[k].0);
            } else {
                assert(r[k].0 != r[q].0);
            }
        }
    }
}

/// The directories after an entry was taken out of one of them and its inode is gone.
pub open spec fn taken_out(m: Brute, m2: Brute, known: Set<u64>, addr: u64, i: int) -> bool {
    let e = entries_of(m, addr);
    let id = e[i].1;
    &&& listed(m, known, addr)
    &&& 0 <= i < e.len()
    &&& id != addr
    &&& m2.inode(addr) is Ok
    &&& m2.inode(addr)->Ok_0.kind is Directory
    &&& m2.dir(start_of(m2, addr)) == Ok::<_, Fault>(e.remove(i))
    &&& listed(m, known, id) ==> entries_of(m, id).len() == 0
    &&& forall|k: u64| #[trigger]
        known.contains(k) && k != addr && k != id ==> same_inode(m, m2, k)
}

/// A path that does not lead to what was removed leads where it led.
pub proof fn lemma_walk_past(
    m: Brute,
    m2: Brute,
    known: Set<u64>,
    addr: u64,
    i: int,
    parts: Seq<Seq<char>>,
    k: nat,
)
    requires
        brute_grounded(m, known),
        taken_out(m, m2, known, addr, i),
        k <= parts.len(),
        m.walk(parts, k) is Ok,
        m.walk(parts, k)->Ok_0.0 != entries_of(m, addr)[i].1,
    ensures
        m2.inode(m.walk(parts, k)->Ok_0.0) is Ok,
        m2.walk(parts, k) == Ok::<_, Fault>(
            (m.walk(parts, k)->Ok_0.0, m2.inode(m.walk(parts, k)->Ok_0.0)->Ok_0),
        ),
    decreases k,
{
    let e = entries_of(m, addr);
    let id = e[i].1;
    lemma_walk_known(m, known, parts, k);
    let c = m.walk(parts, k)->Ok_0.0;
    assert(known.contains(c));
    if c != addr {
        assert(same_inode(m, m2, c));
    }
    if k > 0 {
        lemma_walk_known(m, known, parts, (k - 1) as nat);
        let (d, n) = m.walk(parts, (k - 1) as nat)->Ok_0;
        let name = parts[k - 1];
        assert(listed(m, known, d));
        lemma_position(entries_of(m, d), name);
        lemma_walk_past(m, m2, known, addr, i, parts, (k - 1) as nat);
        if d == addr {
            assert(tidy(e)) by {
                reveal(brute_grounded);
            }
            lemma_taken_out(e, i);
            if name == e[i].0 {
                let p = entry_position(e, name)->0;
                if p < i {
                    assert(e[p].0 != e[i].0);
                } else if i < p {
                    assert(e[i].0 != e[p].0);
                }
            }
        } else {
            assert(same_inode(m, m2, d));
        }
    }
}

/// What a removal that succeeds does.
pub proof fn lemma_unlinked(m: Brute, known: Set<u64>, path: Seq<char>, now: u64) -> (r: (u64, int))
    requires
        brute_grounded(m, known),
        m.parent(path)->Ok_0.0.1.kind is Directory,
        m.unlink(path, now).1 is Ok,
    ensures
        ({
            let m2 = m.unlink(path, now).0;
            let (addr, i) = r;
            &&& taken_out(m, m2, known, addr, i)
            &&& m.parent(path)->Ok_0.0.0 == addr
            &&& m2.inode(addr) == Ok::<_, Fault>(
                INode {
                    extent_addr: start_of(m2, addr),
                    mtime: now,
                    ..m.parent(path)->Ok_0.0.1
                },
            )
            &&& m.parent(path)->Ok_0.1 == entries_of(m, addr)[i].0
            &&& m.lookup(path) is Ok
            &&& m.lookup(path)->Ok_0.0 == entries_of(m, addr)[i].1
            &&& brute_grounded(m2, known.remove(entries_of(m, addr)[i].1))
            &&& m2.disk.len() == m.disk.len()
            &&& seal(m2) == seal(m)
        }),
{
    lemma_split(m, path);
    let parts = components(path);
    let ((addr, parent), name) = m.parent(path)->Ok_0;
    let e = m.dir(parent.extent_addr)->Ok_0;
    lemma_walk_known(m, known, parts, (parts.len() - 1) as nat);
    assert(listed(m, known, addr));
    lemma_position(e, name);
    let i = entry_position(e, name)->0;
    let id = e[i].1;
    let n = m.inode(id)->Ok_0;
    let m2 = m.unlink(path, now).0;
    reveal(brute_grounded);
    assert(id != ROOT_AT);
    assert(known.contains(id));
    let loose = lemma_cleared_out(m, known, id, n);
    let (m1, r1) = m.clear_out(n);
    let rest = known.remove(id);
    assert(rest.contains(addr));
    assert(same_inode(m, m1, addr));
    lemma_entry_unlinked(m1, rest, loose, addr, parent, e.remove(i), id, r1->Ok_0, now);
    assert forall|k: u64| #[trigger] known.contains(k) && k != addr && k != id implies same_inode(
        m,
        m2,
        k,
    ) by {
        assert(rest.contains(k));
        assert(same_inode(m, m1, k));
        assert(same_inode(m1, m2, k));
    }
    lemma_taken_out(e, i);
    let f = e.remove(i);
    assert(closed(f, rest)) by {
        assert forall|k: int| 0 <= k < f.len() implies rest.contains((#[trigger] f[k]).1) by {
            let j = choose|j: int| 0 <= j < e.len() && #[trigger] e[j] == f[k];
            assert(known.contains(e[j].1));
        }
    }
    assert forall|b: u64| #[trigger] listed(m, known, b) && b != addr implies unrelated(
        f,
        entries_of(m, b),
    ) && closed(entries_of(m, b), rest) by {
        let g = entries_of(m, b);
        assert(unrelated(e, g));
        assert forall|k: int, l: int| 0 <= k < f.len() && 0 <= l < g.len() implies (
        #[trigger] f[k]).1 != (#[trigger] g[l]).1 by {
            let j = choose|j: int| 0 <= j < e.len() && #[trigger] e[j] == f[k];
            assert(e[j].1 != g[l].1);
        }
        assert forall|l: int| 0 <= l < g.len() implies rest.contains((#[trigger] g[l]).1) by {
            assert(e[i].1 != g[l].1);
        }
    }
    lemma_neat_step(m, m2, known, rest, addr, f);
    (addr, i)
}

/// A path that was removed leads nowhere. The volume knows one inode less, and every file that is
/// left keeps its content.
pub proof fn brute_unlinked_path_is_gone(
    m: Brute,
    known: Set<u64>,
    path: Seq<char>,
    now: u64,
    other: Seq<char>,
)
    requires
        brute_grounded(m, known),
        m.parent(path) is Ok ==> m.parent(path)->Ok_0.0.1.kind is Directory,
        m.unlink(path, now).1 is Ok,
    ensures
        m.lookup(path) is Ok,
        m.unlink(path, now).0.lookup(path) is Err,
        brute_grounded(m.unlink(path, now).0, known.remove(m.lookup(path)->Ok_0.0)),
        seal(m.unlink(path, now).0) == seal(m),
        m.lookup(other) is Ok && m.lookup(other)->Ok_0.1.kind is File && m.lookup(other)->Ok_0.0
            != m.lookup(path)->Ok_0.0 ==> m.unlink(path, now).0.lookup(other) == m.lookup(other)
            && m.unlink(path, now).0.fread(other) == m.fread(other),
{
    let m2 = m.unlink(path, now).0;
    let (addr, i) = lemma_unlinked(m, known, path, now);
    let e = entries_of(m, addr);
    let id = e[i].1;
    lemma_split(m, path);
    let parts = components(path);
    lemma_walk_past(m, m2, known, addr, i, parts, (parts.len() - 1) as nat);
    assert(tidy(e)) by {
        reveal(brute_grounded);
    }
    lemma_taken_out(e, i);
    assert(m2.walk(parts, parts.len()) is Err);
    if m.lookup(other) is Ok && m.lookup(other)->Ok_0.1.kind is File && m.lookup(other)->Ok_0.0
        != id {
        let to = components(other);
        lemma_walk_past(m, m2, known, addr, i, to, to.len());
        lemma_walk_known(m, known, to, to.len());
        let (at, n) = m.lookup(other)->Ok_0;
        assert(known.contains(at));
        assert(same_inode(m, m2, at));
        assert(m.target(other, m.disk.len()) == Ok::<_, Fault>(n));
        assert(m2.target(other, m2.disk.len()) == Ok::<_, Fault>(n));
    }
}

} // verus!
