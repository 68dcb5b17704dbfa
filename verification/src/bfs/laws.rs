//! What allocating, storing and freeing promise.
use crate::addr::maybe;
use crate::bfs::image::{first_empty, first_fit, shrunk, Brute, BRUTE_HEADER_SIZE};
use crate::bfs::vector::{
    brute_bytes, brute_header_round_trip, compacted, compaction_keeps_freed_addresses, hold_count,
    is_freed, lemma_count_freed, lemma_count_update, lemma_rows_len, slot_holds, slots_parse,
    BruteHeader, Freed,
};
use crate::codec::{le64, lemma_le64, u64_at};
use crate::device::disk::{disk_raw_write_read, disk_write_read, lemma_clear_get};
use crate::error::Fault;
use crate::xhfs::ds::{chunk_bytes, extent_round_trip, Chunk};
use crate::xhfs::layout::AddressSlot;
use vstd::prelude::*;

verus! {

/// No address lies in two of the slots.
pub open spec fn apart(items: Seq<AddressSlot>) -> bool {
    forall|x: int| #[trigger] hold_count(items, x) <= 1
}

/// A header that was read has all its slots and a full nonce.
pub proof fn lemma_header(m: Brute)
    requires
        m.header() is Ok,
    ensures
        m.header()->Ok_0.freed.items.len() == 1000,
        m.header()->Ok_0.nonce.len() == 12,
        m.disk.len() >= BRUTE_HEADER_SIZE,
{
    let s = m.raw(0, BRUTE_HEADER_SIZE as int)->Ok_0;
    let t = s.subrange(20, s.len() as int);
    lemma_slots_len(t, u64_at(t, 0) as nat);
}

proof fn lemma_slots_len(s: Seq<u8>, n: nat)
    requires
        slots_parse(s, n) is Ok,
    ensures
        slots_parse(s, n)->Ok_0.len() == n,
    decreases n,
{
    if n > 0 {
        lemma_slots_len(s, (n - 1) as nat);
    }
}

/// A header that is replaced on a disk that has one is read back with its list compacted.
pub proof fn replaced_header_reads_back(m: Brute, h: BruteHeader)
    requires
        m.header() is Ok,
        h.freed.items.len() == m.header()->Ok_0.freed.items.len(),
        h.nonce.len() == 12,
    ensures
        m.put_header(h).1 is Ok,
        m.put_header(h).0.header() == Ok::<_, Fault>(
            BruteHeader { freed: Freed { items: compacted(h.freed.items), ..h.freed }, ..h },
        ),
        m.put_header(h).0.disk.len() == m.disk.len(),
        m.put_header(h).0.cipher == m.cipher,
        forall|x: int|
            BRUTE_HEADER_SIZE <= x < m.disk.len() ==> #[trigger] m.put_header(h).0.disk[x]
                == m.disk[x],
{
    lemma_header(m);
    compaction_keeps_freed_addresses(h.freed.items, 0);
    let h2 = BruteHeader { freed: Freed { items: compacted(h.freed.items), ..h.freed }, ..h };
    brute_header_round_trip(h2);
    lemma_rows_len(h2.freed.items);
    lemma_le64(h2.freed.items.len() as u64);
    lemma_le64(h2.freed.global_offset);
    assert(brute_bytes(h2).len() == BRUTE_HEADER_SIZE);
    disk_raw_write_read(m.disk, 0, brute_bytes(h2));
}

/// The slot that is found is the first that is long enough.
pub proof fn lemma_first_fit(items: Seq<AddressSlot>, wanted: int, k: int)
    requires
        0 <= k,
    ensures
        match first_fit(items, wanted, k) {
            Some(i) => k <= i < items.len() && items[i].addr.raw != 0 && wanted
                <= items[i].capacity,
            None => true,
        },
    decreases items.len() - k,
{
    if k < items.len() && !(items[k].addr.raw != 0 && wanted <= items[k].capacity) {
        lemma_first_fit(items, wanted, k + 1);
    }
}

pub proof fn lemma_first_empty(items: Seq<AddressSlot>, k: int)
    requires
        0 <= k,
    ensures
        match first_empty(items, k) {
            Some(i) => k <= i < items.len() && items[i].addr.raw == 0,
            None => forall|i: int| k <= i < items.len() ==> (#[trigger] items[i]).addr.raw != 0,
        },
    decreases items.len() - k,
{
    if k < items.len() && items[k].addr.raw != 0 {
        lemma_first_empty(items, k + 1);
    }
}

/// Replacing a slot that shares no address with the others.
proof fn lemma_update_freed(items: Seq<AddressSlot>, k: int, s: AddressSlot, x: int)
    requires
        0 <= k < items.len(),
        apart(items),
    ensures
        is_freed(items.update(k, s), x) == ((is_freed(items, x) && !slot_holds(items[k], x))
            || slot_holds(s, x)),
{
    lemma_count_update(items, k, s, x);
    lemma_count_freed(items, x);
    lemma_count_freed(items.update(k, s), x);
    assert(hold_count(items, x) <= 1);
    if slot_holds(items[k], x) {
        assert(is_freed(items, x));
    }
}

/// What is taken was freed before, or lies right at the start of the part that was never used;
/// it is no longer freed or unused afterwards, and nothing else changes its state.
pub proof fn allocation_takes_free_space(m: Brute, wanted: usize, x: int)
    requires
        m.allocate(wanted).1 is Ok,
        apart(m.header()->Ok_0.freed.items),
    ensures
        ({
            let a = m.allocate(wanted).1->Ok_0;
            let f = m.header()->Ok_0.freed;
            let h = m.allocate(wanted).0.header();
            let taken = a <= x < a + wanted;
            &&& h is Ok
            &&& h->Ok_0.freed.global_offset >= f.global_offset
            &&& taken ==> is_freed(f.items, x) || f.global_offset <= x < m.disk.len()
            &&& taken ==> x < h->Ok_0.freed.global_offset || is_freed(f.items, x)
            &&& h->Ok_0.freed.global_offset > f.global_offset ==> a == f.global_offset
                && h->Ok_0.freed.global_offset == a + wanted && is_freed(
                h->Ok_0.freed.items,
                x,
            ) == is_freed(f.items, x)
            &&& h->Ok_0.freed.global_offset == f.global_offset ==> is_freed(
                h->Ok_0.freed.items,
                x,
            ) == (is_freed(f.items, x) && !taken)
        }),
{
    let h = m.header()->Ok_0;
    let items = h.freed.items;
    lemma_header(m);
    lemma_first_fit(items, wanted as int, 0);
    match first_fit(items, wanted as int, 0) {
        Some(k) => {
            let s = items[k];
            let new = items.update(k, shrunk(s, wanted as int));
            replaced_header_reads_back(
                m,
                BruteHeader { freed: Freed { items: new, ..h.freed }, ..h },
            );
            compaction_keeps_freed_addresses(new, x);
            lemma_update_freed(items, k, shrunk(s, wanted as int), x);
            if slot_holds(s, x) {
                assert(is_freed(items, x));
            }
        },
        None => {
            let at = h.freed.global_offset;
            replaced_header_reads_back(
                m,
                BruteHeader {
                    freed: Freed { global_offset: (at + wanted) as u64, ..h.freed },
                    ..h
                },
            );
            compaction_keeps_freed_addresses(items, x);
        },
    }
}

/// A stretch that is noted as freed joins the freed addresses, as long as there is a slot for it.
pub proof fn noted_stretch_is_freed(m: Brute, slot: AddressSlot, x: int)
    requires
        m.header() is Ok,
        apart(m.header()->Ok_0.freed.items),
    ensures
        ({
            let f = m.header()->Ok_0.freed;
            let (m2, r) = m.mark(slot);
            &&& r is Ok
            &&& m2.header() is Ok
            &&& m2.header()->Ok_0.freed.global_offset == f.global_offset
            &&& is_freed(m2.header()->Ok_0.freed.items, x) == (is_freed(f.items, x) || (exists|
                k: int,
            |
                0 <= k < f.items.len() && (#[trigger] f.items[k]).addr.raw == 0) && slot_holds(
                slot,
                x,
            ))
        }),
{
    let h = m.header()->Ok_0;
    let items = h.freed.items;
    lemma_header(m);
    lemma_first_empty(items, 0);
    match first_empty(items, 0) {
        Some(k) => {
            let new = items.update(k, slot);
            replaced_header_reads_back(
                m,
                BruteHeader { freed: Freed { items: new, ..h.freed }, ..h },
            );
            compaction_keeps_freed_addresses(new, x);
            lemma_update_freed(items, k, slot, x);
            assert(items[k].addr.raw == 0);
        },
        None => {},
    }
}

/// An extent that was written is read back.
pub proof fn written_extent_reads_back(m: Brute, addr: u64, c: Chunk)
    requires
        m.put_clear(addr as int, chunk_bytes(c)).1 is Ok,
        m.disk.len() <= usize::MAX,
    ensures
        m.put_clear(addr as int, chunk_bytes(c)).0.extent(addr) == Ok::<_, Fault>(c),
{
    let bytes = chunk_bytes(c);
    let new = m.put_clear(addr as int, bytes).0;
    lemma_le64(c.data.len() as u64);
    lemma_le64(c.next.raw);
    disk_write_read(m.cipher, m.disk, addr as int, bytes);
    extent_round_trip(c);
    let s = new.clear(addr as int, 8)->Ok_0;
    lemma_clear_get(m.cipher, new.disk, addr as int, 8);
    lemma_clear_get(
        m.cipher,
        new.disk,
        addr as int,
        bytes.len() as int,
    );
    assert(s =~= bytes.subrange(0, 8));
    assert(bytes.subrange(0, 8) =~= le64(c.data.len() as u64));
    assert(s.subrange(0, 8) =~= s);
}

/// Data that is stored is read back from the address that storing gives.
pub proof fn stored_data_reads_back(m: Brute, data: Seq<u8>)
    requires
        m.store(data).1 is Ok,
        m.store(data).1->Ok_0 != 0,
        m.disk.len() <= usize::MAX,
    ensures
        m.store(data).0.content(maybe(m.store(data).1->Ok_0)) == Ok::<_, Fault>(data),
{
    let c = Chunk { next: maybe(0), data };
    let (m1, r) = m.allocate((data.len() + 16) as usize);
    let a = r->Ok_0;
    written_extent_reads_back(m1, a, c);
    let m2 = m.store(data).0;
    assert(m2.disk.len() >= 1);
    assert(m2.chain(maybe(0), (m2.disk.len() - 1) as nat) == Ok::<_, Fault>(Seq::<u8>::empty()));
    assert(data + Seq::<u8>::empty() =~= data);
}

} // verus!
