//! Content that is no longer needed is noted as free again.
use crate::addr::{maybe, MaybeU64};
use crate::bfs::image::{Brute, WriteOption, BRUTE_HEADER_SIZE};
use crate::bfs::laws::{apart, noted_stretch_is_freed};
use crate::bfs::op_laws::{lemma_split, lemma_walk_known};
use crate::bfs::records::{inode_round_trip, node_bytes, INode};
use crate::bfs::sound::{
    freed_list, held, in_chain, in_content, in_extent, in_inode, inode_fine, lemma_extent_place,
    lemma_extent_same, lemma_header_same, lemma_put_frame, lemma_sound_store, owned, same_inode,
    sound, stretch,
};
use crate::bfs::tree_laws::brute_grounded;
use crate::bfs::unlink_laws::lemma_kept_address;
use crate::bfs::vector::{is_freed, slot_holds};
use crate::error::Fault;
use crate::utils::components;
use crate::xhfs::layout::AddressSlot;
use vstd::prelude::*;

verus! {

/// There is an empty slot in the list of freed stretches.
pub open spec fn has_empty_slot(m: Brute) -> bool {
    exists|k: int|
        0 <= k < freed_list(m).items.len() && (#[trigger] freed_list(m).items[k]).addr.raw == 0
}

/// The content at `addr` is one extent.
pub open spec fn one_extent(m: Brute, addr: MaybeU64) -> bool {
    &&& addr.raw != 0
    &&& m.extent(addr.raw) is Ok
    &&& m.extent(addr.raw)->Ok_0.next.raw == 0
}

/// Freeing content of one extent notes it in the list, if that has an empty slot: as many bytes as
/// the content has are free again.
pub proof fn brute_freed_content_is_noted(m: Brute, addr: MaybeU64, x: int)
    requires
        m.header() is Ok,
        apart(freed_list(m).items),
        m.disk.len() <= usize::MAX,
        has_empty_slot(m),
        one_extent(m, addr),
        addr.raw <= x < addr.raw + m.extent(addr.raw)->Ok_0.data.len(),
    ensures
        m.free(addr).1 is Ok,
        is_freed(freed_list(m.free(addr).0).items, x),
{
    let c = m.extent(addr.raw)->Ok_0;
    lemma_extent_place(m, addr.raw);
    let slot = AddressSlot { addr, capacity: c.data.len() as usize };
    assert(slot_holds(slot, x));
    noted_stretch_is_freed(m, slot, x);
    assert(m.disk.len() > 0);
    let m1 = m.mark(slot).0;
    assert(m1.free_chain(c.next, (m.disk.len() - 1) as nat) == (m1, Ok::<(), Fault>(())));
}

/// Writing over a file notes its former content as free again, if there is an empty slot for it.
pub proof fn brute_overwriting_notes_the_old_content(
    m: Brute,
    known: Set<u64>,
    path: Seq<char>,
    data: Seq<u8>,
    opt: WriteOption,
    now: u64,
    x: int,
)
    requires
        brute_grounded(m, known),
        m.parent(path) is Ok ==> m.parent(path)->Ok_0.0.1.kind is Directory,
        m.lookup(path) is Ok,
        m.blob_write(path, data, false, opt, now).1 is Ok,
        has_empty_slot(m.store(data).0),
        one_extent(m.store(data).0, m.lookup(path)->Ok_0.1.extent_addr),
        ({
            let old = m.lookup(path)->Ok_0.1.extent_addr;
            old.raw <= x < old.raw + m.store(data).0.extent(old.raw)->Ok_0.data.len()
        }),
    ensures
        is_freed(freed_list(m.blob_write(path, data, false, opt, now).0).items, x),
{
    lemma_split(m, path);
    let parts = components(path);
    lemma_walk_known(m, known, parts, parts.len());
    reveal(brute_grounded);
    let (at, n) = m.lookup(path)->Ok_0;
    let old = n.extent_addr;
    let none = Set::<int>::empty();
    lemma_sound_store(m, known, none, data);
    let (m1, r1) = m.store(data);
    let new = r1->Ok_0;
    let loose = none.union(stretch(new as int, data.len() as int + 16));
    assert(sound(m1, known, loose));
    assert(same_inode(m, m1, at));
    assert(inode_fine(m1, at));
    let n2 = INode { extent_addr: maybe(new), mtime: now, ..n };
    inode_round_trip(n2);
    let m2 = m1.put_inode(at, n2).0;
    lemma_put_frame(m1, at as int, node_bytes(n2));
    assert forall|y: int| 0 <= y < BRUTE_HEADER_SIZE && y < m1.disk.len() implies m1.disk[y]
        == m2.disk[y] by {
        if in_inode(at, y) {
            assert(owned(m1, at, y));
            assert(held(m1, y));
        }
    }
    lemma_header_same(m1, m2);
    let len = m1.extent(old.raw)->Ok_0.data.len() as int;
    lemma_extent_place(m1, old.raw);
    assert forall|y: int| #[trigger] in_extent(old.raw, len, y) implies m1.disk[y]
        == m2.disk[y] by {
        assert(in_chain(m1, old, m1.disk.len(), y));
        assert(in_content(m1, old, y));
        assert(!in_inode(at, y));
        lemma_kept_address(m1, at, n2, y);
    }
    lemma_extent_same(m1, m2, old.raw);
    brute_freed_content_is_noted(m2, old, x);
}

/// Clearing out a file or link that is to be removed notes its content as free again, if there is
/// an empty slot for it.
pub proof fn brute_cleared_content_is_noted(m: Brute, n: INode, x: int)
    requires
        m.header() is Ok,
        apart(freed_list(m).items),
        m.disk.len() <= usize::MAX,
        has_empty_slot(m),
        !(n.kind is Directory),
        one_extent(m, n.extent_addr),
        n.extent_addr.raw <= x < n.extent_addr.raw + m.extent(
            n.extent_addr.raw,
        )->Ok_0.data.len(),
    ensures
        m.clear_out(n).1 is Ok,
        is_freed(freed_list(m.clear_out(n).0).items, x),
{
    brute_freed_content_is_noted(m, n.extent_addr, x);
}

} // verus!
