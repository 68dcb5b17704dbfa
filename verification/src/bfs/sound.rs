//! A sound volume: every inode and every content lies in a place of its own, and every step
//! leaves it so.
use crate::addr::{maybe, MaybeU64};
use crate::bfs::image::{first_empty, first_fit, shrunk, Brute, BRUTE_HEADER_SIZE};
use crate::bfs::laws::{
    apart, lemma_first_empty, lemma_first_fit, lemma_header, replaced_header_reads_back,
    written_extent_reads_back,
};
use crate::bfs::records::{inode_round_trip, node_bytes, INode};
use crate::bfs::vector::{
    compacted, hold_count, is_freed, lemma_count_compacted, lemma_count_freed, lemma_count_update,
    slot_holds, BruteHeader, Freed,
};
use crate::codec::{lemma_le64, u64_at};
use crate::crypto::Cipher;
use crate::device::disk::disk_write_read;
use crate::error::Fault;
use crate::xhfs::ds::{chunk_bytes, Chunk};
use crate::xhfs::layout::AddressSlot;
use vstd::prelude::*;

verus! {

/// Where the root inode lies.
pub const ROOT_AT: u64 = 16036;

/// The list of freed stretches.
pub open spec fn freed_list(m: Brute) -> Freed {
    m.header()->Ok_0.freed
}

/// What the contents are sealed with: the cipher and the nonce in the header.
pub open spec fn seal(m: Brute) -> (Option<Cipher>, Seq<u8>) {
    (m.cipher, m.header()->Ok_0.nonce)
}

/// The address is in use: not in the header, not freed, and not in the part that was never used.
pub open spec fn held(m: Brute, x: int) -> bool {
    &&& BRUTE_HEADER_SIZE <= x < freed_list(m).global_offset
    &&& !is_freed(freed_list(m).items, x)
}

/// The header can be read, no address is freed twice, and all freed addresses lie between the
/// root inode and the part that was never used.
pub open spec fn orderly(m: Brute) -> bool {
    &&& m.header() is Ok
    &&& apart(freed_list(m).items)
    &&& 16069 <= freed_list(m).global_offset <= m.disk.len() <= usize::MAX
    &&& forall|x: int| #[trigger]
        is_freed(freed_list(m).items, x) ==> 16069 <= x < freed_list(m).global_offset
}

/// The address lies in the inode at `a`.
pub open spec fn in_inode(a: u64, x: int) -> bool {
    a <= x < a + 33
}

/// The address lies in an extent with `len` bytes of data.
pub open spec fn in_extent(addr: u64, len: int, x: int) -> bool {
    addr <= x < addr + 16 + len
}

/// The address lies in one of the extents from `addr` on.
pub open spec fn in_chain(m: Brute, addr: MaybeU64, fuel: nat, x: int) -> bool
    decreases fuel,
{
    &&& addr.raw != 0
    &&& fuel > 0
    &&& m.extent(addr.raw) is Ok
    &&& {
        let c = m.extent(addr.raw)->Ok_0;
        in_extent(addr.raw, c.data.len() as int, x) || in_chain(m, c.next, (fuel - 1) as nat, x)
    }
}

/// The extents from `addr` on have no address in common.
pub open spec fn chain_apart(m: Brute, addr: MaybeU64, fuel: nat) -> bool
    decreases fuel,
{
    addr.raw == 0 || fuel == 0 || m.extent(addr.raw) is Err || {
        let c = m.extent(addr.raw)->Ok_0;
        &&& forall|x: int|
            in_extent(addr.raw, c.data.len() as int, x) ==> !#[trigger] in_chain(
                m,
                c.next,
                (fuel - 1) as nat,
                x,
            )
        &&& chain_apart(m, c.next, (fuel - 1) as nat)
    }
}

/// Where the content of the inode at `a` starts.
pub open spec fn start_of(m: Brute, a: u64) -> MaybeU64 {
    m.inode(a)->Ok_0.extent_addr
}

/// The address lies in the content at `addr`.
pub open spec fn in_content(m: Brute, addr: MaybeU64, x: int) -> bool {
    in_chain(m, addr, m.disk.len(), x)
}

/// The address lies in the inode at `a` or in its content.
pub open spec fn owned(m: Brute, a: u64, x: int) -> bool {
    in_inode(a, x) || in_content(m, start_of(m, a), x)
}

/// The inode at `a` and its content can be read, and no part of them overlaps another.
pub open spec fn inode_fine(m: Brute, a: u64) -> bool {
    &&& m.inode(a) is Ok
    &&& m.content(start_of(m, a)) is Ok
    &&& chain_apart(m, start_of(m, a), m.disk.len())
    &&& forall|x: int| in_inode(a, x) ==> !#[trigger] in_content(m, start_of(m, a), x)
}

/// A volume with the given inodes. The addresses `loose` are in use, but belong to no inode.
pub open spec fn sound(m: Brute, known: Set<u64>, loose: Set<int>) -> bool {
    &&& orderly(m)
    &&& known.contains(ROOT_AT)
    &&& forall|a: u64| #[trigger] known.contains(a) ==> inode_fine(m, a)
    &&& forall|a: u64, x: int| known.contains(a) && #[trigger] owned(m, a, x) ==> held(m, x)
    &&& forall|a: u64, b: u64, x: int|
        known.contains(a) && known.contains(b) && a != b && #[trigger] owned(m, a, x)
            ==> !#[trigger] owned(m, b, x)
    &&& forall|x: int| #[trigger] loose.contains(x) ==> held(m, x)
    &&& forall|a: u64, x: int| known.contains(a) && loose.contains(x) ==> !#[trigger] owned(m, a, x)
}

/// The same disk but for the bytes outside of which nothing changed.
pub open spec fn same_behind_header(a: Brute, b: Brute) -> bool {
    &&& a.cipher == b.cipher
    &&& a.disk.len() == b.disk.len()
    &&& forall|x: int| BRUTE_HEADER_SIZE <= x < a.disk.len() ==> b.disk[x] == #[trigger] a.disk[x]
}

/// A stretch that did not change reads the same.
proof fn lemma_read_same(a: Brute, b: Brute, addr: int, n: int)
    requires
        0 <= addr,
        0 <= n,
        a.cipher == b.cipher,
        a.disk.len() == b.disk.len(),
        forall|x: int| addr <= x < addr + n && x < a.disk.len() ==> a.disk[x] == b.disk[x],
    ensures
        a.clear(addr, n) == b.clear(addr, n),
        a.raw(addr, n) == b.raw(addr, n),
{
    if addr + n <= a.disk.len() {
        assert(a.disk.subrange(addr, addr + n) =~= b.disk.subrange(addr, addr + n));
    }
}

/// What the extent at an address that can be read says of the disk.
pub proof fn lemma_extent_place(m: Brute, addr: u64)
    requires
        m.extent(addr) is Ok,
    ensures
        addr + 16 + m.extent(addr)->Ok_0.data.len() <= m.disk.len(),
        m.clear(addr as int, 8) is Ok,
        u64_at(m.clear(addr as int, 8)->Ok_0, 0) == m.extent(addr)->Ok_0.data.len(),
{
    let s = m.clear(addr as int, 8)->Ok_0;
    let size = u64_at(s, 0);
    let bytes = m.clear(addr as int, 16 + size)->Ok_0;
    assert(bytes.len() == 16 + size);
}

/// An extent whose bytes did not change is the same.
pub proof fn lemma_extent_same(a: Brute, b: Brute, addr: u64)
    requires
        a.cipher == b.cipher,
        a.disk.len() == b.disk.len(),
        a.extent(addr) is Ok,
        forall|x: int|
            #[trigger] in_extent(addr, a.extent(addr)->Ok_0.data.len() as int, x) ==> a.disk[x]
                == b.disk[x],
    ensures
        b.extent(addr) == a.extent(addr),
{
    lemma_extent_place(a, addr);
    let len = a.extent(addr)->Ok_0.data.len() as int;
    assert forall|x: int| addr <= x < addr + 16 + len && x < a.disk.len() implies a.disk[x]
        == b.disk[x] by {
        assert(in_extent(addr, len, x));
    }
    lemma_read_same(a, b, addr as int, 8);
    lemma_read_same(a, b, addr as int, 16 + len);
}

/// A chain whose bytes did not change is the same.
pub proof fn lemma_chain_same(a: Brute, b: Brute, addr: MaybeU64, fuel: nat)
    requires
        a.cipher == b.cipher,
        a.disk.len() == b.disk.len(),
        a.chain(addr, fuel) is Ok,
        forall|x: int| #[trigger] in_chain(a, addr, fuel, x) ==> a.disk[x] == b.disk[x],
    ensures
        b.chain(addr, fuel) == a.chain(addr, fuel),
        forall|x: int| in_chain(b, addr, fuel, x) == #[trigger] in_chain(a, addr, fuel, x),
        chain_apart(a, addr, fuel) ==> chain_apart(b, addr, fuel),
    decreases fuel,
{
    if addr.raw != 0 {
        let c = a.extent(addr.raw)->Ok_0;
        let len = c.data.len() as int;
        let rest = (fuel - 1) as nat;
        assert forall|x: int| #[trigger] in_extent(addr.raw, len, x) implies a.disk[x]
            == b.disk[x] by {
            assert(in_chain(a, addr, fuel, x));
        }
        lemma_extent_same(a, b, addr.raw);
        assert forall|x: int| #[trigger] in_chain(a, c.next, rest, x) implies a.disk[x]
            == b.disk[x] by {
            assert(in_chain(a, addr, fuel, x));
        }
        lemma_chain_same(a, b, c.next, rest);
        assert forall|x: int| in_chain(b, addr, fuel, x) == #[trigger] in_chain(
            a,
            addr,
            fuel,
            x,
        ) by {
            assert(in_chain(b, c.next, rest, x) == in_chain(a, c.next, rest, x));
        }
        if chain_apart(a, addr, fuel) {
            assert forall|x: int| in_extent(addr.raw, len, x) implies !#[trigger] in_chain(
                b,
                c.next,
                rest,
                x,
            ) by {
                assert(!in_chain(a, c.next, rest, x));
            }
        }
    }
}

/// An inode whose bytes did not change is the same.
pub proof fn lemma_inode_read(a: Brute, b: Brute, n: u64)
    requires
        a.cipher == b.cipher,
        a.disk.len() == b.disk.len(),
        forall|x: int| #[trigger] in_inode(n, x) ==> a.disk[x] == b.disk[x],
    ensures
        b.inode(n) == a.inode(n),
{
    assert forall|x: int| n <= x < n + 33 && x < a.disk.len() implies a.disk[x] == b.disk[x] by {
        assert(in_inode(n, x));
    }
    lemma_read_same(a, b, n as int, 33);
}

/// An inode and its content whose bytes did not change are the same.
pub proof fn lemma_inode_same(a: Brute, b: Brute, n: u64)
    requires
        a.cipher == b.cipher,
        a.disk.len() == b.disk.len(),
        inode_fine(a, n),
        forall|x: int| #[trigger] owned(a, n, x) ==> a.disk[x] == b.disk[x],
    ensures
        b.inode(n) == a.inode(n),
        b.content(start_of(b, n)) == a.content(start_of(a, n)),
        b.dir(start_of(b, n)) == a.dir(start_of(a, n)),
        inode_fine(b, n),
        forall|x: int| #[trigger] owned(b, n, x) == owned(a, n, x),
{
    assert forall|x: int| #[trigger] in_inode(n, x) implies a.disk[x] == b.disk[x] by {
        assert(owned(a, n, x));
    }
    lemma_inode_read(a, b, n);
    let s = start_of(a, n);
    let fuel = a.disk.len();
    assert forall|x: int| #[trigger] in_chain(a, s, fuel, x) implies a.disk[x] == b.disk[x] by {
        assert(in_content(a, s, x));
        assert(owned(a, n, x));
    }
    lemma_chain_same(a, b, s, fuel);
    assert forall|x: int| in_inode(n, x) implies !#[trigger] in_content(b, s, x) by {
        assert(!in_content(a, s, x));
        assert(in_chain(b, s, fuel, x) == in_chain(a, s, fuel, x));
    }
    assert forall|x: int| #[trigger] owned(b, n, x) == owned(a, n, x) by {
        assert(in_chain(b, s, fuel, x) == in_chain(a, s, fuel, x));
    }
}

/// The inode at `n` and its content are the same on both disks.
pub open spec fn same_inode(a: Brute, b: Brute, n: u64) -> bool {
    &&& b.inode(n) == a.inode(n)
    &&& b.content(start_of(b, n)) == a.content(start_of(a, n))
    &&& b.dir(start_of(b, n)) == a.dir(start_of(a, n))
}

/// A step that leaves the bytes of all inodes alone, and what is in use in use.
pub proof fn lemma_sound_step(a: Brute, b: Brute, known: Set<u64>, loose: Set<int>, more: Set<int>)
    requires
        sound(a, known, loose),
        a.cipher == b.cipher,
        a.disk.len() == b.disk.len(),
        orderly(b),
        forall|n: u64, x: int|
            known.contains(n) && #[trigger] owned(a, n, x) ==> a.disk[x] == b.disk[x] && held(b, x)
                && !more.contains(x),
        forall|x: int| #[trigger] more.contains(x) ==> held(b, x),
    ensures
        sound(b, known, more),
        forall|n: u64| #[trigger] known.contains(n) ==> same_inode(a, b, n),
        forall|n: u64, x: int|
            known.contains(n) ==> #[trigger] owned(b, n, x) == owned(a, n, x),
{
    assert forall|n: u64| #[trigger] known.contains(n) implies same_inode(a, b, n) && inode_fine(
        b,
        n,
    ) by {
        assert(inode_fine(a, n));
        lemma_inode_same(a, b, n);
    }
    assert forall|n: u64, x: int| known.contains(n) implies #[trigger] owned(b, n, x) == owned(
        a,
        n,
        x,
    ) by {
        assert(inode_fine(a, n));
        lemma_inode_same(a, b, n);
    }
    assert forall|p: u64, q: u64, x: int|
        known.contains(p) && known.contains(q) && p != q && #[trigger] owned(
            b,
            p,
            x,
        ) implies !#[trigger] owned(b, q, x) by {
        assert(owned(a, p, x));
        assert(!owned(a, q, x));
    }
}

/// The stretch of `n` addresses from `at` on.
pub open spec fn stretch(at: int, n: int) -> Set<int> {
    Set::new(|x: int| at <= x < at + n)
}

/// Replacing the list of freed stretches.
proof fn lemma_new_list(m: Brute, f: Freed)
    requires
        m.header() is Ok,
        f.items.len() == freed_list(m).items.len(),
    ensures
        ({
            let (m2, r) = m.put_header(BruteHeader { freed: f, ..m.header()->Ok_0 });
            &&& r is Ok
            &&& m2.header() is Ok
            &&& freed_list(m2) == (Freed { items: compacted(f.items), ..f })
            &&& same_behind_header(m, m2)
            &&& seal(m2) == seal(m)
            &&& forall|x: int| #[trigger]
                hold_count(freed_list(m2).items, x) == hold_count(f.items, x)
            &&& forall|x: int| #[trigger]
                is_freed(freed_list(m2).items, x) == (hold_count(f.items, x) > 0)
        }),
{
    lemma_header(m);
    let h = BruteHeader { freed: f, ..m.header()->Ok_0 };
    replaced_header_reads_back(m, h);
    let m2 = m.put_header(h).0;
    assert forall|x: int| #[trigger] hold_count(freed_list(m2).items, x) == hold_count(
        f.items,
        x,
    ) by {
        lemma_count_compacted(f.items, x);
    }
    assert forall|x: int| #[trigger] is_freed(freed_list(m2).items, x) == (hold_count(f.items, x)
        > 0) by {
        lemma_count_compacted(f.items, x);
        lemma_count_freed(freed_list(m2).items, x);
    }
}

/// Taking a stretch: it was not in use before and is loose afterwards.
pub proof fn lemma_sound_take(m: Brute, known: Set<u64>, loose: Set<int>, wanted: usize)
    requires
        sound(m, known, loose),
        m.allocate(wanted).1 is Ok,
    ensures
        ({
            let (m2, r) = m.allocate(wanted);
            let at = r->Ok_0;
            let got = stretch(at as int, wanted as int);
            &&& sound(m2, known, loose.union(got))
            &&& same_behind_header(m, m2)
            &&& seal(m2) == seal(m)
            &&& forall|x: int| #[trigger] got.contains(x) ==> !loose.contains(x) && x >= 16069
            &&& wanted > 0 ==> at >= 16069
            &&& forall|n: u64| #[trigger] known.contains(n) ==> same_inode(m, m2, n)
            &&& forall|n: u64, x: int|
                known.contains(n) ==> #[trigger] owned(m2, n, x) == owned(m, n, x)
        }),
{
    let f = freed_list(m);
    let (m2, r) = m.allocate(wanted);
    let at = r->Ok_0;
    let got = stretch(at as int, wanted as int);
    lemma_header(m);
    lemma_first_fit(f.items, wanted as int, 0);
    match first_fit(f.items, wanted as int, 0) {
        Some(k) => {
            let s = f.items[k];
            let t = shrunk(s, wanted as int);
            let g = Freed { items: f.items.update(k, t), ..f };
            lemma_new_list(m, g);
            assert forall|x: int| #[trigger] hold_count(g.items, x) <= hold_count(f.items, x) && (
            got.contains(x) ==> hold_count(g.items, x) == 0 && hold_count(f.items, x) > 0) by {
                lemma_count_update(f.items, k, t, x);
                lemma_count_freed(f.items, x);
                assert(hold_count(f.items, x) <= 1);
                if got.contains(x) {
                    assert(slot_holds(s, x));
                    assert(is_freed(f.items, x));
                }
            }
            assert forall|x: int| #[trigger] is_freed(freed_list(m2).items, x) implies 16069 <= x
                < freed_list(m2).global_offset && is_freed(f.items, x) by {
                assert(hold_count(g.items, x) <= hold_count(f.items, x));
                lemma_count_freed(f.items, x);
            }
            assert(apart(freed_list(m2).items)) by {
                assert forall|x: int| #[trigger] hold_count(freed_list(m2).items, x) <= 1 by {
                    assert(hold_count(g.items, x) <= hold_count(f.items, x));
                    assert(hold_count(f.items, x) <= 1);
                }
            }
            assert forall|x: int| #[trigger] got.contains(x) implies held(m2, x) && !held(m, x)
                && x >= 16069 by {
                assert(hold_count(g.items, x) == 0);
                lemma_count_freed(f.items, x);
            }
            assert forall|x: int| held(m, x) implies held(m2, x) by {
                if is_freed(freed_list(m2).items, x) {
                    assert(is_freed(f.items, x));
                }
            }
            if wanted > 0 {
                assert(got.contains(at as int));
            }
        },
        None => {
            let g = Freed { global_offset: (f.global_offset + wanted) as u64, ..f };
            lemma_new_list(m, g);
            assert forall|x: int| #[trigger] is_freed(freed_list(m2).items, x) == is_freed(
                f.items,
                x,
            ) by {
                lemma_count_freed(f.items, x);
            }
            assert(apart(freed_list(m2).items)) by {
                assert forall|x: int| #[trigger] hold_count(freed_list(m2).items, x) <= 1 by {
                    assert(hold_count(f.items, x) <= 1);
                }
            }
            assert forall|x: int| #[trigger] got.contains(x) implies held(m2, x) && !held(m, x)
                && x >= 16069 by {
                assert(is_freed(freed_list(m2).items, x) == is_freed(f.items, x));
            }
            assert forall|x: int| held(m, x) implies held(m2, x) by {
                assert(is_freed(freed_list(m2).items, x) == is_freed(f.items, x));
            }
        },
    }
    assert forall|n: u64, x: int| known.contains(n) && #[trigger] owned(m, n, x) implies m.disk[x]
        == m2.disk[x] && held(m2, x) && !loose.union(got).contains(x) by {
        assert(held(m, x));
        if loose.contains(x) {
            assert(!owned(m, n, x));
        }
    }
    assert forall|x: int| #[trigger] loose.union(got).contains(x) implies held(m2, x) by {
        if loose.contains(x) {
            assert(held(m, x));
        }
    }
    lemma_sound_step(m, m2, known, loose, loose.union(got));
    assert forall|x: int| #[trigger] got.contains(x) implies !loose.contains(x) && x >= 16069 by {
        if loose.contains(x) {
            assert(held(m, x));
        }
    }
}

/// A header that is not written to is the same.
pub proof fn lemma_header_same(a: Brute, b: Brute)
    requires
        a.disk.len() == b.disk.len(),
        a.header() is Ok,
        forall|x: int| 0 <= x < BRUTE_HEADER_SIZE && x < a.disk.len() ==> a.disk[x] == b.disk[x],
    ensures
        b.header() == a.header(),
{
    lemma_header(a);
    assert(a.disk.subrange(0, BRUTE_HEADER_SIZE as int) =~= b.disk.subrange(
        0,
        BRUTE_HEADER_SIZE as int,
    ));
}

/// What a write leaves alone.
pub proof fn lemma_put_frame(m: Brute, addr: int, data: Seq<u8>)
    requires
        0 <= addr,
    ensures
        m.put_clear(addr, data).0.cipher == m.cipher,
        m.put_clear(addr, data).0.disk.len() == m.disk.len(),
        forall|x: int|
            0 <= x < m.disk.len() && !(addr <= x < addr + data.len())
                ==> #[trigger] m.put_clear(addr, data).0.disk[x] == m.disk[x],
        m.put_clear(addr, data).1 is Ok ==> data.len() == 0 || addr + data.len() <= m.disk.len(),
{
}

/// Writing to loose addresses.
pub proof fn lemma_sound_put(m: Brute, known: Set<u64>, loose: Set<int>, addr: u64, data: Seq<u8>)
    requires
        sound(m, known, loose),
        forall|x: int| addr <= x < addr + data.len() ==> #[trigger] loose.contains(x),
    ensures
        ({
            let m2 = m.put_clear(addr as int, data).0;
            &&& sound(m2, known, loose)
            &&& m2.header() == m.header()
            &&& seal(m2) == seal(m)
            &&& forall|n: u64| #[trigger] known.contains(n) ==> same_inode(m, m2, n)
            &&& forall|n: u64, x: int|
                known.contains(n) ==> #[trigger] owned(m2, n, x) == owned(m, n, x)
        }),
{
    let m2 = m.put_clear(addr as int, data).0;
    lemma_put_frame(m, addr as int, data);
    assert forall|x: int| 0 <= x < BRUTE_HEADER_SIZE && x < m.disk.len() implies m.disk[x]
        == m2.disk[x] by {
        if addr <= x < addr + data.len() {
            assert(loose.contains(x));
        }
    }
    lemma_header_same(m, m2);
    assert forall|n: u64, x: int| known.contains(n) && #[trigger] owned(m, n, x) implies m.disk[x]
        == m2.disk[x] && held(m2, x) && !loose.contains(x) by {
        assert(held(m, x));
        if loose.contains(x) {
            assert(!owned(m, n, x));
        }
    }
    lemma_sound_step(m, m2, known, loose, loose);
}

/// A single extent that is read back as a content.
proof fn lemma_single(m: Brute, at: u64, data: Seq<u8>)
    requires
        at != 0,
        m.disk.len() > 0,
        m.extent(at) == Ok::<_, Fault>(Chunk { next: maybe(0), data }),
    ensures
        m.content(maybe(at)) == Ok::<_, Fault>(data),
        forall|x: int| #[trigger]
            in_content(m, maybe(at), x) == in_extent(at, data.len() as int, x),
        chain_apart(m, maybe(at), m.disk.len()),
{
    let rest = (m.disk.len() - 1) as nat;
    assert(m.chain(maybe(0), rest) == Ok::<_, Fault>(Seq::<u8>::empty()));
    assert(data + Seq::<u8>::empty() =~= data);
    assert forall|x: int| #[trigger] in_content(m, maybe(at), x) == in_extent(
        at,
        data.len() as int,
        x,
    ) by {
        assert(!in_chain(m, maybe(0), rest, x));
    }
    assert(chain_apart(m, maybe(0), rest));
}

/// What is known of a content that was stored.
pub open spec fn stored(m: Brute, at: u64, data: Seq<u8>) -> bool {
    &&& at >= 16069
    &&& m.content(maybe(at)) == Ok::<_, Fault>(data)
    &&& forall|x: int| #[trigger]
        in_content(m, maybe(at), x) == in_extent(at, data.len() as int, x)
    &&& chain_apart(m, maybe(at), m.disk.len())
}

/// Storing data: it lies at loose addresses of its own.
pub proof fn lemma_sound_store(m: Brute, known: Set<u64>, loose: Set<int>, data: Seq<u8>)
    requires
        sound(m, known, loose),
        m.store(data).1 is Ok,
    ensures
        ({
            let (m2, r) = m.store(data);
            let at = r->Ok_0;
            let got = stretch(at as int, data.len() as int + 16);
            &&& sound(m2, known, loose.union(got))
            &&& stored(m2, at, data)
            &&& m2.cipher == m.cipher
            &&& m2.disk.len() == m.disk.len()
            &&& seal(m2) == seal(m)
            &&& forall|x: int| #[trigger] got.contains(x) ==> !loose.contains(x) && x >= 16069
            &&& forall|x: int| #[trigger] loose.contains(x) ==> m2.disk[x] == m.disk[x]
            &&& forall|n: u64| #[trigger] known.contains(n) ==> same_inode(m, m2, n)
            &&& forall|n: u64, x: int|
                known.contains(n) ==> #[trigger] owned(m2, n, x) == owned(m, n, x)
        }),
{
    let c = Chunk { next: maybe(0), data };
    let bytes = chunk_bytes(c);
    let wanted = (data.len() + 16) as usize;
    let (m1, r1) = m.allocate(wanted);
    let at = r1->Ok_0;
    let got = stretch(at as int, wanted as int);
    lemma_le64(data.len() as u64);
    lemma_le64(0);
    lemma_sound_take(m, known, loose, wanted);
    let all = loose.union(got);
    assert forall|x: int| at <= x < at + bytes.len() implies #[trigger] all.contains(x) by {
        assert(got.contains(x));
    }
    lemma_sound_put(m1, known, all, at, bytes);
    lemma_put_frame(m1, at as int, bytes);
    let m2 = m.store(data).0;
    written_extent_reads_back(m1, at, c);
    lemma_single(m2, at, data);
    assert forall|x: int| #[trigger] loose.contains(x) implies m2.disk[x] == m.disk[x] by {
        assert(held(m, x));
        if got.contains(x) {
            assert(!loose.contains(x));
        }
    }
    assert forall|n: u64| #[trigger] known.contains(n) implies same_inode(m, m2, n) by {
        assert(same_inode(m, m1, n));
        assert(same_inode(m1, m2, n));
    }
}

/// A content at loose addresses whose bytes are left alone is the same.
pub proof fn lemma_loose_same(a: Brute, b: Brute, addr: MaybeU64)
    requires
        a.cipher == b.cipher,
        a.disk.len() == b.disk.len(),
        a.content(addr) is Ok,
        forall|x: int| #[trigger] in_content(a, addr, x) ==> a.disk[x] == b.disk[x],
    ensures
        b.content(addr) == a.content(addr),
        forall|x: int| #[trigger] in_content(b, addr, x) == in_content(a, addr, x),
        chain_apart(a, addr, a.disk.len()) ==> chain_apart(b, addr, b.disk.len()),
{
    let fuel = a.disk.len();
    assert forall|x: int| #[trigger] in_chain(a, addr, fuel, x) implies a.disk[x] == b.disk[x] by {
        assert(in_content(a, addr, x));
    }
    lemma_chain_same(a, b, addr, fuel);
    assert forall|x: int| #[trigger] in_content(b, addr, x) == in_content(a, addr, x) by {
        assert(in_chain(b, addr, fuel, x) == in_chain(a, addr, fuel, x));
    }
}

/// Noting a loose stretch as freed.
pub proof fn lemma_sound_mark(m: Brute, known: Set<u64>, loose: Set<int>, slot: AddressSlot)
    requires
        sound(m, known, loose),
        forall|x: int| #[trigger] slot_holds(slot, x) ==> loose.contains(x),
    ensures
        ({
            let (m2, r) = m.mark(slot);
            let rest = loose.difference(Set::new(|x: int| slot_holds(slot, x)));
            &&& r is Ok
            &&& sound(m2, known, rest)
            &&& same_behind_header(m, m2)
            &&& seal(m2) == seal(m)
            &&& forall|n: u64| #[trigger] known.contains(n) ==> same_inode(m, m2, n)
            &&& forall|n: u64, x: int|
                known.contains(n) ==> #[trigger] owned(m2, n, x) == owned(m, n, x)
        }),
{
    let f = freed_list(m);
    let m2 = m.mark(slot).0;
    let gone = Set::new(|x: int| slot_holds(slot, x));
    let rest = loose.difference(gone);
    lemma_header(m);
    lemma_first_empty(f.items, 0);
    assert(known.contains(ROOT_AT));
    match first_empty(f.items, 0) {
        None => {
            lemma_sound_less(m, known, loose, rest);
        },
        Some(k) => {
            let g = Freed { items: f.items.update(k, slot), ..f };
            lemma_new_list(m, g);
            assert forall|x: int| #[trigger] hold_count(g.items, x) <= 1 && (hold_count(
                g.items,
                x,
            ) > 0 <==> is_freed(f.items, x) || slot_holds(slot, x)) by {
                lemma_count_update(f.items, k, slot, x);
                lemma_count_freed(f.items, x);
                assert(hold_count(f.items, x) <= 1);
                if slot_holds(slot, x) {
                    assert(loose.contains(x));
                    assert(held(m, x));
                }
            }
            assert(apart(freed_list(m2).items)) by {
                assert forall|x: int| #[trigger] hold_count(freed_list(m2).items, x) <= 1 by {
                    assert(hold_count(g.items, x) <= 1);
                }
            }
            assert forall|x: int| #[trigger] is_freed(freed_list(m2).items, x) implies 16069 <= x
                < freed_list(m2).global_offset by {
                assert(hold_count(g.items, x) > 0);
                if slot_holds(slot, x) {
                    assert(loose.contains(x));
                    assert(held(m, x));
                    assert(!owned(m, ROOT_AT, x));
                }
            }
            assert forall|x: int| held(m, x) && !gone.contains(x) implies held(m2, x) by {
                if is_freed(freed_list(m2).items, x) {
                    assert(hold_count(g.items, x) > 0);
                }
            }
            assert forall|n: u64, x: int|
                known.contains(n) && #[trigger] owned(m, n, x) implies m.disk[x] == m2.disk[x]
                && held(m2, x) && !rest.contains(x) by {
                assert(held(m, x));
                if loose.contains(x) {
                    assert(!owned(m, n, x));
                }
                if gone.contains(x) {
                    assert(slot_holds(slot, x));
                    assert(loose.contains(x));
                }
            }
            assert forall|x: int| #[trigger] rest.contains(x) implies held(m2, x) by {
                assert(loose.contains(x));
            }
            lemma_sound_step(m, m2, known, loose, rest);
        },
    }
}

/// Fewer loose addresses are fine too.
pub proof fn lemma_sound_less(m: Brute, known: Set<u64>, loose: Set<int>, fewer: Set<int>)
    requires
        sound(m, known, loose),
        forall|x: int| #[trigger] fewer.contains(x) ==> loose.contains(x),
    ensures
        sound(m, known, fewer),
{
    assert forall|x: int| #[trigger] fewer.contains(x) implies held(m, x) by {
        assert(loose.contains(x));
    }
    assert forall|a: u64, x: int| known.contains(a) && fewer.contains(x) implies !#[trigger] owned(
        m,
        a,
        x,
    ) by {
        assert(loose.contains(x));
    }
}

/// Freeing a loose chain.
pub proof fn lemma_sound_free(
    m: Brute,
    known: Set<u64>,
    loose: Set<int>,
    addr: MaybeU64,
    fuel: nat,
)
    requires
        sound(m, known, loose),
        m.chain(addr, fuel) is Ok,
        chain_apart(m, addr, fuel),
        forall|x: int| #[trigger] in_chain(m, addr, fuel, x) ==> loose.contains(x),
    ensures
        ({
            let (m2, r) = m.free_chain(addr, fuel);
            &&& r is Ok
            &&& sound(m2, known, loose.difference(Set::new(|x: int| in_chain(m, addr, fuel, x))))
            &&& same_behind_header(m, m2)
            &&& seal(m2) == seal(m)
            &&& forall|n: u64| #[trigger] known.contains(n) ==> same_inode(m, m2, n)
            &&& forall|n: u64, x: int|
                known.contains(n) ==> #[trigger] owned(m2, n, x) == owned(m, n, x)
        }),
    decreases fuel,
{
    if addr.raw == 0 {
        lemma_sound_less(
            m,
            known,
            loose,
            loose.difference(Set::new(|x: int| in_chain(m, addr, fuel, x))),
        );
    } else {
        let c = m.extent(addr.raw)->Ok_0;
        let len = c.data.len() as int;
        let rest = (fuel - 1) as nat;
        lemma_extent_place(m, addr.raw);
        let slot = AddressSlot { addr, capacity: len as usize };
        assert forall|x: int| #[trigger] slot_holds(slot, x) implies loose.contains(x) by {
            assert(in_extent(addr.raw, len, x));
            assert(in_chain(m, addr, fuel, x));
        }
        lemma_sound_mark(m, known, loose, slot);
        let m1 = m.mark(slot).0;
        let left = loose.difference(Set::new(|x: int| slot_holds(slot, x)));
        assert forall|x: int| #[trigger] in_chain(m, c.next, rest, x) implies m.disk[x]
            == m1.disk[x] && left.contains(x) by {
            assert(in_chain(m, addr, fuel, x));
            assert(loose.contains(x));
            assert(held(m, x));
            if slot_holds(slot, x) {
                assert(in_extent(addr.raw, len, x));
            }
        }
        lemma_chain_same(m, m1, c.next, rest);
        assert forall|x: int| #[trigger] in_chain(m1, c.next, rest, x) implies left.contains(x) by {
            assert(in_chain(m, c.next, rest, x));
        }
        lemma_sound_free(m1, known, left, c.next, rest);
        let m2 = m.free_chain(addr, fuel).0;
        let kept = loose.difference(Set::new(|x: int| in_chain(m, addr, fuel, x)));
        let more = left.difference(Set::new(|x: int| in_chain(m1, c.next, rest, x)));
        assert forall|x: int| #[trigger] kept.contains(x) implies more.contains(x) by {
            assert(!in_chain(m, addr, fuel, x));
            assert(!in_extent(addr.raw, len, x));
            assert(in_chain(m1, c.next, rest, x) == in_chain(m, c.next, rest, x));
        }
        lemma_sound_less(m2, known, more, kept);
        assert forall|n: u64| #[trigger] known.contains(n) implies same_inode(m, m2, n) by {
            assert(same_inode(m, m1, n));
            assert(same_inode(m1, m2, n));
        }
    }
}

/// An inode that lies at loose addresses with its content becomes known.
pub proof fn lemma_sound_adopt(m: Brute, known: Set<u64>, loose: Set<int>, a: u64)
    requires
        sound(m, known, loose),
        !known.contains(a),
        inode_fine(m, a),
        forall|x: int| #[trigger] owned(m, a, x) ==> loose.contains(x),
    ensures
        sound(m, known.insert(a), loose.difference(Set::new(|x: int| owned(m, a, x)))),
{
    let all = known.insert(a);
    let rest = loose.difference(Set::new(|x: int| owned(m, a, x)));
    assert forall|n: u64| #[trigger] all.contains(n) implies inode_fine(m, n) by {
        if n != a {
            assert(known.contains(n));
        }
    }
    assert forall|n: u64, x: int| all.contains(n) && #[trigger] owned(m, n, x) implies held(
        m,
        x,
    ) by {
        if n == a {
            assert(loose.contains(x));
        }
    }
    assert forall|p: u64, q: u64, x: int|
        all.contains(p) && all.contains(q) && p != q && #[trigger] owned(
            m,
            p,
            x,
        ) implies !#[trigger] owned(m, q, x) by {
        if p == a {
            assert(loose.contains(x));
        } else if q == a {
            if owned(m, a, x) {
                assert(loose.contains(x));
            }
        }
    }
    assert forall|x: int| #[trigger] rest.contains(x) implies held(m, x) by {
        assert(loose.contains(x));
    }
    assert forall|n: u64, x: int| all.contains(n) && rest.contains(x) implies !#[trigger] owned(
        m,
        n,
        x,
    ) by {
        if n != a {
            assert(loose.contains(x));
        }
    }
}

/// An inode that is written is read back.
pub proof fn lemma_put_inode(m: Brute, a: u64, n: INode)
    requires
        m.put_inode(a, n).1 is Ok,
    ensures
        m.put_inode(a, n).0.inode(a) == Ok::<_, Fault>(n),
{
    inode_round_trip(n);
    disk_write_read(m.cipher, m.disk, a as int, node_bytes(n));
}

/// Letting a known inode point to a loose content: the old content becomes loose.
pub proof fn lemma_sound_point(m: Brute, known: Set<u64>, loose: Set<int>, a: u64, n: INode)
    requires
        sound(m, known, loose),
        known.contains(a),
        m.put_inode(a, n).1 is Ok,
        m.content(n.extent_addr) is Ok,
        chain_apart(m, n.extent_addr, m.disk.len()),
        forall|x: int| #[trigger] in_content(m, n.extent_addr, x) ==> loose.contains(x),
    ensures
        ({
            let m2 = m.put_inode(a, n).0;
            let old = start_of(m, a);
            let now_loose = Set::new(
                |x: int|
                    in_content(m2, old, x) || loose.contains(x) && !in_content(
                        m,
                        n.extent_addr,
                        x,
                    ),
            );
            &&& sound(m2, known, now_loose)
            &&& m2.cipher == m.cipher
            &&& m2.disk.len() == m.disk.len()
            &&& seal(m2) == seal(m)
            &&& m2.inode(a) == Ok::<_, Fault>(n)
            &&& m2.content(n.extent_addr) == m.content(n.extent_addr)
            &&& m2.content(old) == m.content(old)
            &&& chain_apart(m2, old, m2.disk.len())
            &&& forall|x: int| #[trigger] in_content(m2, old, x) == in_content(m, old, x)
            &&& forall|k: u64| #[trigger] known.contains(k) && k != a ==> same_inode(m, m2, k)
        }),
{
    let m2 = m.put_inode(a, n).0;
    let old = start_of(m, a);
    let new = n.extent_addr;
    let now_loose = Set::new(
        |x: int| in_content(m2, old, x) || loose.contains(x) && !in_content(m, new, x),
    );
    inode_round_trip(n);
    lemma_put_inode(m, a, n);
    lemma_put_frame(m, a as int, node_bytes(n));
    assert(inode_fine(m, a));
    assert forall|x: int| in_inode(a, x) implies held(m, x) && #[trigger] owned(m, a, x) by {
        assert(owned(m, a, x));
    }
    assert forall|x: int| 0 <= x < BRUTE_HEADER_SIZE && x < m.disk.len() implies m.disk[x]
        == m2.disk[x] by {
        if in_inode(a, x) {
            assert(owned(m, a, x));
        }
    }
    lemma_header_same(m, m2);
    assert forall|x: int| #[trigger] in_content(m, old, x) implies m.disk[x] == m2.disk[x] by {
        assert(owned(m, a, x));
        assert(held(m, x));
    }
    lemma_loose_same(m, m2, old);
    assert forall|x: int| #[trigger] in_content(m, new, x) implies m.disk[x] == m2.disk[x] by {
        assert(loose.contains(x));
        assert(held(m, x));
        assert(!owned(m, a, x));
    }
    lemma_loose_same(m, m2, new);
    assert forall|x: int| in_inode(a, x) implies !#[trigger] in_content(m2, new, x) by {
        if in_content(m2, new, x) {
            assert(in_content(m, new, x));
            assert(loose.contains(x));
            assert(!owned(m, a, x));
        }
    }
    assert forall|k: u64| #[trigger] known.contains(k) && k != a implies same_inode(m, m2, k)
        && inode_fine(m2, k) && (forall|x: int| #[trigger]
        owned(m2, k, x) == owned(m, k, x)) by {
        assert(inode_fine(m, k));
        assert forall|x: int| #[trigger] owned(m, k, x) implies m.disk[x] == m2.disk[x] by {
            assert(held(m, x));
            if in_inode(a, x) {
                assert(owned(m, a, x));
            }
        }
        lemma_inode_same(m, m2, k);
    }
    assert(inode_fine(m2, a));
    assert forall|k: u64, x: int| known.contains(k) && #[trigger] owned(m2, k, x) implies held(
        m2,
        x,
    ) by {
        if k == a {
            if in_inode(a, x) {
                assert(owned(m, a, x));
            } else {
                assert(in_content(m, new, x));
                assert(loose.contains(x));
            }
        } else {
            assert(owned(m, k, x));
        }
    }
    assert forall|p: u64, q: u64, x: int|
        known.contains(p) && known.contains(q) && p != q && #[trigger] owned(
            m2,
            p,
            x,
        ) implies !#[trigger] owned(m2, q, x) by {
        lemma_new_owner(m, m2, known, loose, a, n, p, x);
        if owned(m2, q, x) {
            lemma_new_owner(m, m2, known, loose, a, n, q, x);
            if p != a && q != a {
                assert(!owned(m, q, x));
            } else if p == a {
                assert(owned(m, q, x));
                if owned(m, a, x) {
                    assert(!owned(m, q, x));
                }
            } else {
                assert(owned(m, p, x));
                if owned(m, a, x) {
                    assert(!owned(m, p, x));
                }
            }
        }
    }
    assert forall|x: int| #[trigger] now_loose.contains(x) implies held(m2, x) by {
        if in_content(m2, old, x) {
            assert(in_content(m, old, x));
            assert(owned(m, a, x));
        } else {
            assert(loose.contains(x));
        }
    }
    assert forall|k: u64, x: int|
        known.contains(k) && now_loose.contains(x) implies !#[trigger] owned(m2, k, x) by {
        if in_content(m2, old, x) {
            assert(in_content(m, old, x));
            assert(owned(m, a, x));
        } else {
            assert(!owned(m, a, x));
        }
        if owned(m2, k, x) {
            lemma_new_owner(m, m2, known, loose, a, n, k, x);
            if k != a {
                assert(!owned(m, k, x));
            }
        }
    }
}

/// Who owns an address after an inode was made to point elsewhere.
proof fn lemma_new_owner(
    m: Brute,
    m2: Brute,
    known: Set<u64>,
    loose: Set<int>,
    a: u64,
    n: INode,
    k: u64,
    x: int,
)
    requires
        known.contains(a),
        known.contains(k),
        owned(m2, k, x),
        m2.inode(a) == Ok::<_, Fault>(n),
        k != a ==> owned(m2, k, x) == owned(m, k, x),
        in_content(m2, n.extent_addr, x) ==> in_content(m, n.extent_addr, x),
        in_content(m, n.extent_addr, x) ==> loose.contains(x),
    ensures
        k != a ==> owned(m, k, x),
        k == a ==> in_inode(a, x) || loose.contains(x),
        in_inode(a, x) ==> owned(m, a, x),
{
}

} // verus!
