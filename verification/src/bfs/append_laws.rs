//! What appending promises.
use crate::addr::{maybe, MaybeU64};
use crate::bfs::image::{Brute, BRUTE_HEADER_SIZE};
use crate::bfs::laws::written_extent_reads_back;
use crate::bfs::op_laws::{carries_on, lemma_walk_carries, lemma_walk_known};
use crate::bfs::sound::{
    chain_apart, held, in_chain, in_content, in_extent, in_inode, inode_fine, lemma_extent_place,
    lemma_extent_same, lemma_header_same, lemma_inode_read, lemma_inode_same, lemma_put_frame,
    lemma_sound_take, owned, same_inode, seal, sound, start_of, stretch,
};
use crate::bfs::tree_laws::{brute_grounded, lemma_neat_file};
use crate::codec::lemma_le64;
use crate::error::Fault;
use crate::utils::components;
use crate::xhfs::ds::{chunk_bytes, Chunk};
use crate::xhfs::op_laws::entries_extend;
use vstd::prelude::*;
use vstd::set_lib::*;
use vstd::utf8::*;

verus! {

/// The addresses of the extents from `addr` on.
spec fn starts(m: Brute, addr: MaybeU64, fuel: nat) -> Seq<int>
    decreases fuel,
{
    if addr.raw == 0 || fuel == 0 || m.extent(addr.raw) is Err {
        Seq::empty()
    } else {
        seq![addr.raw as int] + starts(m, m.extent(addr.raw)->Ok_0.next, (fuel - 1) as nat)
    }
}

/// Extents that lie apart start at different addresses.
proof fn lemma_starts(m: Brute, addr: MaybeU64, fuel: nat)
    requires
        m.chain(addr, fuel) is Ok,
        chain_apart(m, addr, fuel),
    ensures
        starts(m, addr, fuel).no_duplicates(),
        forall|i: int|
            0 <= i < starts(m, addr, fuel).len() ==> in_chain(
                m,
                addr,
                fuel,
                #[trigger] starts(m, addr, fuel)[i],
            ) && 0 <= starts(m, addr, fuel)[i] < m.disk.len(),
    decreases fuel,
{
    if addr.raw != 0 {
        let c = m.extent(addr.raw)->Ok_0;
        let rest = (fuel - 1) as nat;
        let s = starts(m, c.next, rest);
        lemma_starts(m, c.next, rest);
        lemma_extent_place(m, addr.raw);
        let all = starts(m, addr, fuel);
        assert forall|i: int| 0 <= i < all.len() implies in_chain(m, addr, fuel, #[trigger] all[i])
            && 0 <= all[i] < m.disk.len() by {
            if i > 0 {
                assert(all[i] == s[i - 1]);
            } else {
                assert(in_extent(addr.raw, c.data.len() as int, all[i]));
            }
        }
        assert forall|i: int, j: int| 0 <= i < all.len() && 0 <= j < all.len() && i != j implies all[i]
            != all[j] by {
            assert(in_extent(addr.raw, c.data.len() as int, addr.raw as int));
            if i > 0 {
                assert(all[i] == s[i - 1]);
                assert(in_chain(m, c.next, rest, s[i - 1]));
            }
            if j > 0 {
                assert(all[j] == s[j - 1]);
                assert(in_chain(m, c.next, rest, s[j - 1]));
            }
        }
    }
}

/// No more extents are read than there are.
proof fn lemma_fuel(m: Brute, addr: MaybeU64, a: nat, b: nat)
    requires
        m.chain(addr, a) is Ok,
        starts(m, addr, a).len() <= b <= a,
    ensures
        m.chain(addr, b) == m.chain(addr, a),
        forall|x: int| #[trigger] in_chain(m, addr, b, x) == in_chain(m, addr, a, x),
        chain_apart(m, addr, a) ==> chain_apart(m, addr, b),
    decreases a,
{
    if addr.raw != 0 {
        let c = m.extent(addr.raw)->Ok_0;
        lemma_fuel(m, c.next, (a - 1) as nat, (b - 1) as nat);
        assert forall|x: int| #[trigger] in_chain(m, addr, b, x) == in_chain(m, addr, a, x) by {
            assert(in_chain(m, c.next, (b - 1) as nat, x) == in_chain(m, c.next, (a - 1) as nat, x));
        }
        if chain_apart(m, addr, a) {
            assert forall|x: int|
                in_extent(addr.raw, c.data.len() as int, x) implies !#[trigger] in_chain(
                m,
                c.next,
                (b - 1) as nat,
                x,
            ) by {
                assert(!in_chain(m, c.next, (a - 1) as nat, x));
            }
        }
    }
}

/// Extents that lie apart are no more than there are addresses.
proof fn lemma_enough_fuel(m: Brute, addr: MaybeU64, fuel: nat)
    requires
        m.chain(addr, fuel) is Ok,
        chain_apart(m, addr, fuel),
        m.disk.len() <= fuel,
    ensures
        m.chain(addr, m.disk.len()) == m.chain(addr, fuel),
        forall|x: int| #[trigger]
            in_chain(m, addr, m.disk.len(), x) == in_chain(m, addr, fuel, x),
        chain_apart(m, addr, m.disk.len()),
{
    let s = starts(m, addr, fuel);
    lemma_starts(m, addr, fuel);
    s.unique_seq_to_set();
    lemma_int_range(0, m.disk.len() as int);
    assert(s.to_set().subset_of(set_int_range(0, m.disk.len() as int)));
    lemma_len_subset(s.to_set(), set_int_range(0, m.disk.len() as int));
    lemma_fuel(m, addr, fuel, m.disk.len());
}

/// The last extent is one of the extents.
pub proof fn lemma_last(m: Brute, addr: MaybeU64, fuel: nat)
    requires
        m.chain(addr, fuel) is Ok,
        addr.raw != 0,
    ensures
        m.last_extent(addr, fuel) is Ok,
        m.last_extent(addr, fuel)->Ok_0 is Some,
        ({
            let (at, c) = m.last_extent(addr, fuel)->Ok_0->0;
            &&& at != 0
            &&& m.extent(at) == Ok::<_, Fault>(c)
            &&& forall|x: int|
                in_extent(at, c.data.len() as int, x) ==> #[trigger] in_chain(m, addr, fuel, x)
        }),
    decreases fuel,
{
    let c = m.extent(addr.raw)->Ok_0;
    let rest = (fuel - 1) as nat;
    if c.next.raw != 0 {
        lemma_last(m, c.next, rest);
        let (at, d) = m.last_extent(c.next, rest)->Ok_0->0;
        assert forall|x: int| in_extent(at, d.data.len() as int, x) implies #[trigger] in_chain(
            m,
            addr,
            fuel,
            x,
        ) by {
            assert(in_chain(m, c.next, rest, x));
        }
    }
}

/// A new extent behind the last one.
proof fn lemma_chain_grown(
    m: Brute,
    m2: Brute,
    addr: MaybeU64,
    fuel: nat,
    at: u64,
    c: Chunk,
    id: u64,
    data: Seq<u8>,
)
    requires
        m.chain(addr, fuel) is Ok,
        chain_apart(m, addr, fuel),
        addr.raw != 0,
        m.last_extent(addr, fuel) == Ok::<_, Fault>(Some((at, c))),
        m.cipher == m2.cipher,
        m.disk.len() == m2.disk.len(),
        id != 0,
        m2.extent(at) == Ok::<_, Fault>(Chunk { next: maybe(id), ..c }),
        m2.extent(id) == Ok::<_, Fault>(Chunk { next: maybe(0), data }),
        forall|x: int| #[trigger]
            in_chain(m, addr, fuel, x) && !in_extent(at, c.data.len() as int, x) ==> m.disk[x]
                == m2.disk[x],
        forall|x: int|
            in_extent(id, data.len() as int, x) ==> !#[trigger] in_chain(m, addr, fuel, x),
    ensures
        m2.chain(addr, fuel + 1) == Ok::<_, Fault>(m.chain(addr, fuel)->Ok_0 + data),
        forall|x: int| #[trigger]
            in_chain(m2, addr, fuel + 1, x) == (in_chain(m, addr, fuel, x) || in_extent(
                id,
                data.len() as int,
                x,
            )),
        chain_apart(m2, addr, fuel + 1),
    decreases fuel,
{
    let e = m.extent(addr.raw)->Ok_0;
    let rest = (fuel - 1) as nat;
    if e.next.raw == 0 {
        assert(at == addr.raw && c == e);
        assert(m.chain(e.next, rest) == Ok::<_, Fault>(Seq::<u8>::empty()));
        assert(m2.chain(maybe(0), rest) == Ok::<_, Fault>(Seq::<u8>::empty()));
        assert(data + Seq::<u8>::empty() =~= data);
        assert(m2.chain(maybe(id), fuel) == Ok::<_, Fault>(data));
        assert(e.data + Seq::<u8>::empty() =~= e.data);
        assert forall|x: int| #[trigger] in_chain(m2, maybe(id), fuel, x) == in_extent(
            id,
            data.len() as int,
            x,
        ) by {
            assert(!in_chain(m2, maybe(0), rest, x));
        }
        assert forall|x: int| #[trigger] in_chain(m2, addr, fuel + 1, x) == (in_chain(
            m,
            addr,
            fuel,
            x,
        ) || in_extent(id, data.len() as int, x)) by {
            assert(!in_chain(m, e.next, rest, x));
            assert(in_chain(m2, maybe(id), fuel, x) == in_extent(id, data.len() as int, x));
        }
        assert(chain_apart(m2, maybe(0), rest));
        assert(chain_apart(m2, maybe(id), fuel));
        assert forall|x: int| in_extent(addr.raw, e.data.len() as int, x) implies !#[trigger] in_chain(
            m2,
            maybe(id),
            fuel,
            x,
        ) by {
            if in_extent(id, data.len() as int, x) {
                assert(!in_chain(m, addr, fuel, x));
            }
        }
    } else {
        lemma_last(m, e.next, rest);
        assert forall|x: int| #[trigger] in_extent(addr.raw, e.data.len() as int, x) implies m.disk[x]
            == m2.disk[x] by {
            assert(!in_chain(m, e.next, rest, x));
            assert(in_chain(m, addr, fuel, x));
        }
        lemma_extent_same(m, m2, addr.raw);
        assert forall|x: int| #[trigger]
            in_chain(m, e.next, rest, x) && !in_extent(at, c.data.len() as int, x) implies m.disk[x]
            == m2.disk[x] by {
            assert(in_chain(m, addr, fuel, x));
        }
        assert forall|x: int| in_extent(id, data.len() as int, x) implies !#[trigger] in_chain(
            m,
            e.next,
            rest,
            x,
        ) by {
            assert(!in_chain(m, addr, fuel, x));
        }
        lemma_chain_grown(m, m2, e.next, rest, at, c, id, data);
        let tail = m.chain(e.next, rest)->Ok_0;
        assert(e.data + (tail + data) =~= (e.data + tail) + data);
        assert forall|x: int| #[trigger] in_chain(m2, addr, fuel + 1, x) == (in_chain(
            m,
            addr,
            fuel,
            x,
        ) || in_extent(id, data.len() as int, x)) by {
            assert(in_chain(m2, e.next, rest + 1, x) == (in_chain(m, e.next, rest, x) || in_extent(
                id,
                data.len() as int,
                x,
            )));
        }
        assert forall|x: int| in_extent(addr.raw, e.data.len() as int, x) implies !#[trigger] in_chain(
            m2,
            e.next,
            fuel,
            x,
        ) by {
            assert(in_chain(m2, e.next, rest + 1, x) == (in_chain(m, e.next, rest, x) || in_extent(
                id,
                data.len() as int,
                x,
            )));
            assert(in_chain(m, addr, fuel, x));
        }
    }
}

/// One known inode takes loose addresses for its content; all others are left alone.
proof fn lemma_sound_grown(a: Brute, b: Brute, known: Set<u64>, loose: Set<int>, n: u64)
    requires
        sound(a, known, loose),
        known.contains(n),
        a.cipher == b.cipher,
        a.disk.len() == b.disk.len(),
        b.header() == a.header(),
        forall|k: u64, x: int|
            known.contains(k) && k != n && #[trigger] owned(a, k, x) ==> a.disk[x] == b.disk[x],
        inode_fine(b, n),
        forall|x: int| #[trigger] owned(b, n, x) ==> owned(a, n, x) || loose.contains(x),
    ensures
        sound(b, known, Set::empty()),
        forall|k: u64| #[trigger] known.contains(k) && k != n ==> same_inode(a, b, k),
{
    assert forall|k: u64| #[trigger] known.contains(k) && k != n implies same_inode(a, b, k)
        && inode_fine(b, k) && (forall|x: int| #[trigger] owned(b, k, x) == owned(a, k, x)) by {
        assert(inode_fine(a, k));
        lemma_inode_same(a, b, k);
    }
    assert forall|k: u64, x: int| known.contains(k) && #[trigger] owned(b, k, x) implies held(
        b,
        x,
    ) by {
        if k != n {
            assert(owned(a, k, x));
        } else if owned(a, n, x) {
            assert(held(a, x));
        } else {
            assert(loose.contains(x));
        }
    }
    assert forall|p: u64, q: u64, x: int|
        known.contains(p) && known.contains(q) && p != q && #[trigger] owned(
            b,
            p,
            x,
        ) implies !#[trigger] owned(b, q, x) by {
        if p == n {
            assert(owned(a, n, x) || loose.contains(x));
            assert(!owned(a, q, x));
        } else if q == n {
            if owned(b, n, x) {
                assert(owned(a, p, x));
                assert(owned(a, n, x) || loose.contains(x));
            }
        } else {
            assert(owned(a, p, x));
            assert(!owned(a, q, x));
        }
    }
}

/// Appending to the content of a known inode.
proof fn lemma_appended(m: Brute, known: Set<u64>, a: u64, data: Seq<u8>)
    requires
        sound(m, known, Set::empty()),
        known.contains(a),
        start_of(m, a).raw != 0,
        m.append(start_of(m, a), Chunk { next: maybe(0), data }).1 is Ok,
    ensures
        ({
            let m2 = m.append(start_of(m, a), Chunk { next: maybe(0), data }).0;
            &&& sound(m2, known, Set::empty())
            &&& m2.inode(a) == m.inode(a)
            &&& m2.content(start_of(m, a)) == Ok::<_, Fault>(
                m.content(start_of(m, a))->Ok_0 + data,
            )
            &&& m2.disk.len() == m.disk.len()
            &&& seal(m2) == seal(m)
            &&& forall|k: u64| #[trigger] known.contains(k) && k != a ==> same_inode(m, m2, k)
        }),
{
    let addr = start_of(m, a);
    let fuel = m.disk.len();
    let none = Set::<int>::empty();
    let new = Chunk { next: maybe(0), data };
    assert(inode_fine(m, a));
    lemma_last(m, addr, fuel);
    let (at, c) = m.last_extent(addr, fuel)->Ok_0->0;
    let wanted = (data.len() + 16) as usize;
    let (m1, r1) = m.allocate(wanted);
    let id = r1->Ok_0;
    let got = stretch(id as int, wanted as int);
    let loose = none.union(got);
    lemma_sound_take(m, known, none, wanted);
    let joined = Chunk { next: maybe(id), ..c };
    lemma_le64(c.data.len() as u64);
    lemma_le64(id);
    lemma_le64(data.len() as u64);
    lemma_le64(0);
    lemma_extent_place(m, at);
    let bytes1 = chunk_bytes(joined);
    let bytes2 = chunk_bytes(new);
    assert(bytes1.len() == 16 + c.data.len());
    assert(bytes2.len() == wanted);
    let m2 = m1.put_clear(at as int, bytes1).0;
    let m3 = m2.put_clear(id as int, bytes2).0;
    assert(m3 == m.append(addr, new).0);
    written_extent_reads_back(m1, at, joined);
    written_extent_reads_back(m2, id, new);
    lemma_put_frame(m1, at as int, bytes1);
    lemma_put_frame(m2, id as int, bytes2);
    assert forall|x: int| #[trigger] in_extent(at, c.data.len() as int, x) implies owned(m, a, x)
        && owned(m1, a, x) && !got.contains(x) by {
        assert(in_chain(m, addr, fuel, x));
        assert(in_content(m, addr, x));
        assert(owned(m, a, x));
        assert(owned(m1, a, x));
        if got.contains(x) {
            assert(loose.contains(x));
        }
    }
    assert forall|x: int| #[trigger] in_extent(at, joined.data.len() as int, x) implies m2.disk[x]
        == m3.disk[x] by {
        assert(in_extent(at, c.data.len() as int, x));
        assert(held(m, x));
    }
    lemma_extent_same(m2, m3, at);
    assert forall|x: int| #[trigger]
        in_chain(m, addr, fuel, x) && !in_extent(at, c.data.len() as int, x) implies m.disk[x]
        == m3.disk[x] by {
        assert(in_content(m, addr, x));
        assert(owned(m, a, x));
        assert(held(m, x));
        assert(owned(m1, a, x));
        if got.contains(x) {
            assert(loose.contains(x));
        }
    }
    assert forall|x: int| in_extent(id, data.len() as int, x) implies !#[trigger] in_chain(
        m,
        addr,
        fuel,
        x,
    ) by {
        assert(got.contains(x));
        assert(loose.contains(x));
        if in_chain(m, addr, fuel, x) {
            assert(in_content(m, addr, x));
            assert(owned(m, a, x));
            assert(owned(m1, a, x));
        }
    }
    lemma_chain_grown(m, m3, addr, fuel, at, c, id, data);
    lemma_enough_fuel(m3, addr, fuel + 1);
    // the inode itself is not written to
    assert forall|x: int| #[trigger] in_inode(a, x) implies m1.disk[x] == m3.disk[x] && !in_content(
        m3,
        addr,
        x,
    ) by {
        assert(owned(m, a, x));
        assert(held(m, x));
        assert(owned(m1, a, x));
        assert(!in_content(m, addr, x));
        assert(!in_chain(m, addr, fuel, x));
        if got.contains(x) {
            assert(loose.contains(x));
        }
        assert(in_chain(m3, addr, m3.disk.len(), x) == in_chain(m3, addr, fuel + 1, x));
        if in_extent(id, data.len() as int, x) {
            assert(got.contains(x));
        }
    }
    lemma_inode_read(m1, m3, a);
    assert(same_inode(m, m1, a));
    assert forall|x: int| #[trigger] owned(m3, a, x) implies owned(m1, a, x) || loose.contains(x) by {
        if !in_inode(a, x) {
            assert(in_chain(m3, addr, m3.disk.len(), x) == in_chain(m3, addr, fuel + 1, x));
            if in_chain(m, addr, fuel, x) {
                assert(in_content(m, addr, x));
                assert(owned(m, a, x));
            } else {
                assert(got.contains(x));
            }
        }
    }
    assert forall|k: u64, x: int|
        known.contains(k) && k != a && #[trigger] owned(m1, k, x) implies m1.disk[x]
        == m3.disk[x] by {
        assert(owned(m, k, x));
        assert(held(m, x));
        assert(!loose.contains(x));
        if in_extent(at, c.data.len() as int, x) {
            assert(owned(m, a, x));
        }
        assert(!got.contains(x));
    }
    assert forall|x: int| 0 <= x < BRUTE_HEADER_SIZE && x < m1.disk.len() implies m1.disk[x]
        == m3.disk[x] by {
        if in_extent(at, c.data.len() as int, x) {
            assert(held(m, x));
        }
        if got.contains(x) {
            assert(loose.contains(x));
            assert(held(m1, x));
        }
    }
    lemma_header_same(m1, m3);
    lemma_sound_grown(m1, m3, known, loose, a);
    assert forall|k: u64| #[trigger] known.contains(k) && k != a implies same_inode(m, m3, k) by {
        assert(same_inode(m, m1, k));
        assert(same_inode(m1, m3, k));
    }
}

/// The inode that a path stands for, links followed, is known.
pub proof fn lemma_target_known(m: Brute, known: Set<u64>, path: Seq<char>, fuel: nat) -> (a: u64)
    requires
        brute_grounded(m, known),
        m.target(path, fuel) is Ok,
    ensures
        known.contains(a),
        m.inode(a) == m.target(path, fuel),
        !(m.inode(a)->Ok_0.kind is Symlink),
    decreases fuel,
{
    let parts = components(path);
    lemma_walk_known(m, known, parts, parts.len());
    let (at, n) = m.lookup(path)->Ok_0;
    if n.kind is Symlink {
        lemma_target_known(
            m,
            known,
            decode_utf8(m.content(n.extent_addr)->Ok_0),
            (fuel - 1) as nat,
        )
    } else {
        at
    }
}

/// Links lead where they led when no inode, no directory and no link changed.
proof fn lemma_target_same(m: Brute, m2: Brute, known: Set<u64>, a: u64, path: Seq<char>, fuel: nat)
    requires
        brute_grounded(m, known),
        carries_on(m, m2, known),
        m.inode(a) is Ok,
        m2.inode(a) == m.inode(a),
        m.inode(a)->Ok_0.kind is File,
        forall|k: u64| #[trigger] known.contains(k) && k != a ==> same_inode(m, m2, k),
        m.target(path, fuel) is Ok,
    ensures
        m2.target(path, fuel) == m.target(path, fuel),
    decreases fuel,
{
    let parts = components(path);
    lemma_walk_known(m, known, parts, parts.len());
    lemma_walk_carries(m, m2, known, parts, parts.len());
    let (at, n) = m.lookup(path)->Ok_0;
    if at != a {
        assert(same_inode(m, m2, at));
    }
    if n.kind is Symlink {
        lemma_target_same(
            m,
            m2,
            known,
            a,
            decode_utf8(m.content(n.extent_addr)->Ok_0),
            (fuel - 1) as nat,
        );
    }
}

/// What is appended to a file that has an extent follows what was in it, also through links. All
/// other inodes keep their contents.
pub proof fn brute_appended_file_reads_back(
    m: Brute,
    known: Set<u64>,
    path: Seq<char>,
    data: Seq<u8>,
) -> (a: u64)
    requires
        brute_grounded(m, known),
        m.fappend(path, data).1 is Ok,
        m.target(path, m.disk.len())->Ok_0.extent_addr.raw != 0,
    ensures
        ({
            let m2 = m.fappend(path, data).0;
            &&& brute_grounded(m2, known)
            &&& seal(m2) == seal(m)
            &&& m.fread(path) is Ok
            &&& m2.fread(path) == Ok::<_, Fault>(m.fread(path)->Ok_0 + data)
            &&& known.contains(a)
            &&& m.inode(a) == m.target(path, m.disk.len())
            &&& m2.inode(a) == m.inode(a)
            &&& m2.target(path, m2.disk.len()) == m.target(path, m.disk.len())
            &&& forall|k: u64| #[trigger] known.contains(k) && k != a ==> same_inode(m, m2, k)
        }),
{
    let fuel = m.disk.len();
    let a = lemma_target_known(m, known, path, fuel);
    let m2 = m.fappend(path, data).0;
    reveal(brute_grounded);
    assert(inode_fine(m, a));
    lemma_appended(m, known, a, data);
    assert(carries_on(m, m2, known)) by {
        assert forall|k: u64| #[trigger] known.contains(k) implies ({
            &&& m2.inode(k) is Ok
            &&& m2.inode(k)->Ok_0.kind == m.inode(k)->Ok_0.kind
            &&& m.inode(k)->Ok_0.kind is Directory && m.dir(start_of(m, k)) is Ok ==> m2.dir(
                start_of(m2, k),
            ) is Ok && entries_extend(m.dir(start_of(m, k))->Ok_0, m2.dir(start_of(m2, k))->Ok_0)
        }) by {
            assert(inode_fine(m, k));
            if k != a {
                assert(same_inode(m, m2, k));
            }
        }
    }
    lemma_target_same(m, m2, known, a, path, fuel);
    lemma_neat_file(m, m2, known, a);
    a
}

} // verus!
