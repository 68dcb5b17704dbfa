//! A device made of the values of a key-value store.
use crate::codec::{copy_range, overwrite, push_bytes, splice, zero_vec};
use crate::device::{within, Device, KeyValue};
use crate::error::Fault;
use std::collections::HashMap;
use vstd::prelude::*;

verus! {

/// A store in memory.
pub struct MemoryKV(pub HashMap<u64, Vec<u8>>);

impl KeyValue for MemoryKV {
    open spec fn pairs(&self) -> Map<u64, Seq<u8>> {
        self.0@.map_values(|v: Vec<u8>| v@)
    }

    open spec fn healthy(&self) -> bool {
        true
    }

    fn set(&mut self, k: u64, v: Vec<u8>) -> (r: Result<(), Fault>) {
        broadcast use vstd::std_specs::hash::group_hash_axioms;

        let ghost before = self.pairs();
        let ghost value = v@;
        self.0.insert(k, v);
        assert(self.pairs() =~= before.insert(k, value));
        Ok(())
    }

    fn get(&self, k: &u64) -> (r: Result<Option<Vec<u8>>, Fault>) {
        broadcast use vstd::std_specs::hash::group_hash_axioms;

        match self.0.get(k) {
            Some(v) => Ok(Some(copy_range(v.as_slice(), 0, v.len()))),
            None => Ok(None),
        }
    }
}

/// A device whose bytes lie in the values of a store, `slot_capacity` bytes to a value. A
/// value that is missing stands for zeros.
pub struct KVDevice<S> {
    pub total_slots: usize,
    pub slot_capacity: usize,
    pub store: S,
}

/// Byte `i` of a slot.
pub open spec fn slot_byte(pairs: Map<u64, Seq<u8>>, slot: u64, i: int) -> u8 {
    if pairs.contains_key(slot) && i < pairs[slot].len() {
        pairs[slot][i]
    } else {
        0
    }
}

/// The bytes that the values of a store stand for.
pub open spec fn slots_content(pairs: Map<u64, Seq<u8>>, slots: int, size: int) -> Seq<u8> {
    Seq::new((slots * size) as nat, |i: int| slot_byte(pairs, (i / size) as u64, i % size))
}

/// Some of the bytes from `addr` on lie behind the last byte.
pub open spec fn leaves(addr: int, size: int, len: int) -> bool {
    size > 0 && !within(addr, size, len)
}

/// Number of bytes from `addr` on.
pub open spec fn room_from(addr: int, len: int) -> int {
    if addr < len {
        len - addr
    } else {
        0
    }
}

impl<S: KeyValue> Device for KVDevice<S> {
    open spec fn content(&self) -> Seq<u8> {
        slots_content(self.store.pairs(), self.total_slots as int, self.slot_capacity as int)
    }

    open spec fn healthy(&self) -> bool {
        &&& self.store.healthy()
        &&& self.slot_capacity > 0
        &&& self.total_slots * self.slot_capacity <= usize::MAX
        &&& forall|k: u64|
            self.store.pairs().contains_key(k) ==> #[trigger] self.store.pairs()[k].len()
                >= self.slot_capacity
    }

    open spec fn label(&self) -> Option<Seq<char>> {
        Some("kv-generic"@)
    }

    fn name(&self) -> (r: String) {
        "kv-generic".to_string()
    }

    fn capacity(&self) -> (r: Result<usize, Fault>) {
        match self.total_slots.checked_mul(self.slot_capacity) {
            Some(c) => Ok(c),
            None => Err(Fault::CapacityOverflow),
        }
    }

    fn write(&mut self, addr: usize, data: &[u8]) -> (r: Result<(), Fault>)
        ensures
            leaves(addr as int, data@.len() as int, old(self).content().len() as int) ==> r is Err,
            leaves(addr as int, data@.len() as int, old(self).content().len() as int) && old(
                self,
            ).healthy() ==> {
                &&& r == Err::<(), Fault>(Fault::WriteOutOfBounds)
                &&& final(self).content() == splice(
                    old(self).content(),
                    addr as int,
                    data@.subrange(0, room_from(addr as int, old(self).content().len() as int)),
                )
            },
    {
        self.write_slots(addr, data)
    }

    fn read(&self, addr: usize, size: usize) -> (r: Result<Vec<u8>, Fault>)
        ensures
            leaves(addr as int, size as int, self.content().len() as int) ==> r is Err,
            leaves(addr as int, size as int, self.content().len() as int) && self.healthy() ==> r
                == Err::<Vec<u8>, Fault>(Fault::ReadOutOfBounds),
    {
        self.read_slots(addr, size)
    }
}

proof fn lemma_slot_range(slot: int, offset: int, slots: int, size: int)
    requires
        0 <= slot < slots,
        0 <= offset < size,
    ensures
        0 <= slot * size,
        slot * size + offset < slots * size,
        (slot * size + offset) / size == slot,
        (slot * size + offset) % size == offset,
{
    assert(0 <= slot * size && slot * size + size <= slots * size) by (nonlinear_arith)
        requires
            0 <= slot < slots,
            0 < size,
    ;
    vstd::arithmetic::div_mod::lemma_fundamental_div_mod_converse(
        slot * size + offset,
        size,
        slot,
        offset,
    );
}

impl<S: KeyValue> KVDevice<S> {
    /// Writes slot by slot, and stops at the first slot that does not exist.
    fn write_slots(&mut self, addr: usize, data: &[u8]) -> (r: Result<(), Fault>)
        ensures
            final(self).content().len() == old(self).content().len(),
            within(addr as int, data@.len() as int, old(self).content().len() as int) ==> {
                &&& r is Ok ==> final(self).content() == splice(
                    old(self).content(),
                    addr as int,
                    data@,
                )
                &&& old(self).healthy() ==> r is Ok && final(self).healthy()
            },
            leaves(addr as int, data@.len() as int, old(self).content().len() as int) ==> r is Err,
            leaves(addr as int, data@.len() as int, old(self).content().len() as int) && old(
                self,
            ).healthy() ==> {
                &&& r == Err::<(), Fault>(Fault::WriteOutOfBounds)
                &&& final(self).content() == splice(
                    old(self).content(),
                    addr as int,
                    data@.subrange(0, room_from(addr as int, old(self).content().len() as int)),
                )
            },
    {
        let n: usize = data.len();
        let ghost before = self.content();
        let ghost was_healthy = self.healthy();
        if n == 0 {
            assert(self.content() =~= splice(before, addr as int, data@));
            return Ok(());
        }
        if self.slot_capacity == 0 {
            assert(self.total_slots * self.slot_capacity == 0) by (nonlinear_arith)
                requires
                    self.slot_capacity == 0,
            ;
            return Err(Fault::WriteOutOfBounds);
        }
        let size: usize = self.slot_capacity;
        let slots: usize = self.total_slots;
        let mut done: usize = 0;
        let ghost fits = within(addr as int, n as int, before.len() as int);
        assert(before =~= splice(before, addr as int, data@.subrange(0, 0)));
        while done < n
            invariant
                done <= n,
                n == data@.len(),
                size == self.slot_capacity,
                slots == self.total_slots,
                size > 0,
                before.len() == slots * size,
                fits == within(addr as int, n as int, before.len() as int),
                before == old(self).content(),
                was_healthy == old(self).healthy(),
                was_healthy ==> slots * size <= usize::MAX,
                done > 0 ==> addr + done <= slots * size,
                self.content() == splice(before, addr as int, data@.subrange(0, done as int)),
                was_healthy ==> self.healthy(),
            decreases n - done,
        {
            if done > usize::MAX - addr {
                return Err(Fault::WriteOutOfBounds);
            }
            let at: usize = addr + done;
            let slot: usize = at / size;
            let offset: usize = at % size;
            if slot >= slots {
                assert(!fits && at >= slots * size) by {
                    vstd::arithmetic::div_mod::lemma_fundamental_div_mod(at as int, size as int);
                    assert(slots * size <= slot * size) by (nonlinear_arith)
                        requires
                            slots <= slot,
                            0 < size,
                    ;
                    assert(size * slot == slot * size) by (nonlinear_arith);
                }
                return Err(Fault::WriteOutOfBounds);
            }
            proof {
                vstd::arithmetic::div_mod::lemma_fundamental_div_mod(at as int, size as int);
                assert(size * slot == slot * size) by (nonlinear_arith);
                lemma_slot_range(slot as int, offset as int, slots as int, size as int);
                lemma_slot_range(slot as int, size - 1, slots as int, size as int);
            }
            let room: usize = size - offset;
            let writable: usize = if room < n - done {
                room
            } else {
                n - done
            };
            let key: u64 = slot as u64;
            let mut buf = match self.store.get(&key) {
                Ok(Some(v)) => v,
                Ok(None) => zero_vec(size),
                Err(e) => return Err(e),
            };
            let ghost stored = buf@;
            if buf.len() < size {
                let mut pad = zero_vec(size - buf.len());
                buf.append(&mut pad);
            }
            let ghost whole = buf@;
            assert forall|i: int| 0 <= i < size implies whole[i] == slot_byte(
                self.store.pairs(),
                key,
                i,
            ) by {}
            let piece = vstd::slice::slice_subrange(data, done, done + writable);
            overwrite(&mut buf, offset, piece);
            let ghost updated = buf@;
            let ghost pairs = self.store.pairs();
            let ghost content = self.content();
            let failed = match self.store.set(key, buf) {
                Ok(()) => None,
                Err(e) => Some(e),
            };
            proof {
                assert forall|i: int|
                    0 <= i < slots * size && i / (size as int) != slot implies #[trigger] self.content()[i]
                    == content[i] by {
                    let k = (i / (size as int)) as u64;
                    vstd::arithmetic::div_mod::lemma_fundamental_div_mod(i, size as int);
                    assert(0 <= i / (size as int) < slots) by (nonlinear_arith)
                        requires
                            0 <= i < slots * size,
                            size > 0,
                    ;
                    assert(k != key);
                    assert(self.store.pairs().contains_key(k) == pairs.contains_key(k)) by {
                        if failed is Some {
                            assert(self.store.pairs().remove(key).contains_key(k)
                                == pairs.remove(key).contains_key(k));
                        }
                    }
                    if pairs.contains_key(k) {
                        assert(self.store.pairs()[k] == pairs[k]) by {
                            if failed is Some {
                                assert(self.store.pairs().remove(key)[k] == pairs.remove(key)[k]);
                            }
                        }
                    }
                }
            }
            if let Some(e) = failed {
                return Err(e);
            }
            proof {
                let now = splice(before, addr as int, data@.subrange(0, done + writable));
                assert forall|i: int| 0 <= i < slots * size implies #[trigger] self.content()[i]
                    == now[i] by {
                    vstd::arithmetic::div_mod::lemma_fundamental_div_mod(i, size as int);
                    let q = i / (size as int);
                    let r = i % (size as int);
                    if q != slot {
                        assert(self.content()[i] == content[i]);
                        assert(!(at <= i < at + writable)) by {
                            if at <= i < at + writable {
                                vstd::arithmetic::div_mod::lemma_fundamental_div_mod_converse(
                                    i,
                                    size as int,
                                    slot as int,
                                    i - slot * size,
                                );
                            }
                        }
                    } else {
                        assert(i == slot * size + r) by (nonlinear_arith)
                            requires
                                i == size * q + r,
                                q == slot,
                        ;
                        assert(self.content()[i] == updated[r]);
                        assert(content[i] == whole[r]);
                    }
                }
                assert(self.content() =~= now);
            }
            done = done + writable;
        }
        assert(data@.subrange(0, n as int) =~= data@);
        Ok(())
    }

    /// Reads slot by slot, and fails at the first slot that does not exist.
    fn read_slots(&self, addr: usize, size: usize) -> (r: Result<Vec<u8>, Fault>)
        ensures
            r is Ok ==> r->Ok_0@.len() == size,
            leaves(addr as int, size as int, self.content().len() as int) ==> r is Err,
            leaves(addr as int, size as int, self.content().len() as int) && self.healthy() ==> r
                == Err::<Vec<u8>, Fault>(Fault::ReadOutOfBounds),
            within(addr as int, size as int, self.content().len() as int) ==> {
                &&& r is Ok ==> r->Ok_0@ == self.content().subrange(addr as int, addr + size)
                &&& self.healthy() ==> r is Ok
            },
    {
        let mut out: Vec<u8> = Vec::new();
        if size == 0 {
            assert(within(addr as int, 0, self.content().len() as int) ==> out@
                =~= self.content().subrange(addr as int, addr + size));
            return Ok(out);
        }
        if self.slot_capacity == 0 {
            assert(self.total_slots * self.slot_capacity == 0) by (nonlinear_arith)
                requires
                    self.slot_capacity == 0,
            ;
            return Err(Fault::ReadOutOfBounds);
        }
        let cap: usize = self.slot_capacity;
        let slots: usize = self.total_slots;
        if size > usize::MAX - addr {
            return Err(Fault::ReadOutOfBounds);
        }
        let mut done: usize = 0;
        let ghost all = self.content();
        while done < size
            invariant
                done <= size,
                cap == self.slot_capacity,
                slots == self.total_slots,
                cap > 0,
                all == self.content(),
                all.len() == slots * cap,
                addr + size <= usize::MAX,
                done > 0 ==> addr + done <= all.len(),
                out@.len() == done,
                done > 0 ==> out@ == all.subrange(addr as int, addr + done),
            decreases size - done,
        {
            let at: usize = addr + done;
            let slot: usize = at / cap;
            let offset: usize = at % cap;
            if slot >= slots {
                assert(!within(addr as int, size as int, all.len() as int)) by {
                    vstd::arithmetic::div_mod::lemma_fundamental_div_mod(at as int, cap as int);
                    assert(slots * cap <= slot * cap) by (nonlinear_arith)
                        requires
                            slots <= slot,
                            0 < cap,
                    ;
                    assert(cap * slot == slot * cap) by (nonlinear_arith);
                }
                return Err(Fault::ReadOutOfBounds);
            }
            proof {
                vstd::arithmetic::div_mod::lemma_fundamental_div_mod(at as int, cap as int);
                assert(cap * slot == slot * cap) by (nonlinear_arith);
                lemma_slot_range(slot as int, offset as int, slots as int, cap as int);
                lemma_slot_range(slot as int, cap - 1, slots as int, cap as int);
            }
            let room: usize = cap - offset;
            let readable: usize = if room < size - done {
                room
            } else {
                size - done
            };
            let key: u64 = slot as u64;
            let buf = match self.store.get(&key) {
                Ok(Some(v)) => v,
                Ok(None) => zero_vec(cap),
                Err(e) => return Err(e),
            };
            if buf.len() < offset + readable {
                return Err(Fault::ShortSlot { slot: key });
            }
            let ghost had = out@;
            push_bytes(
                &mut out,
                vstd::slice::slice_subrange(buf.as_slice(), offset, offset + readable),
            );
            proof {
                assert forall|k: int| done <= k < done + readable implies #[trigger] all[addr + k]
                    == buf@[offset + k - done] by {
                    lemma_slot_range(slot as int, offset + k - done, slots as int, cap as int);
                }
                let got = all.subrange(addr as int, at + readable);
                assert forall|k: int| 0 <= k < done + readable implies out@[k] == got[k] by {
                    assert(got[k] == all[addr + k]);
                    if k < done {
                        assert(all.subrange(addr as int, addr + done)[k] == all[addr + k]);
                    }
                }
                assert(out@ =~= got);
            }
            done = done + readable;
        }
        Ok(out)
    }
}

/// What is written to the slots of a store is read back, and the rest is as before.
pub proof fn slots_write_read(content: Seq<u8>, addr: int, data: Seq<u8>, i: int)
    requires
        0 <= addr,
        addr + data.len() <= content.len(),
        0 <= i < content.len(),
    ensures
        splice(content, addr, data).subrange(addr, addr + data.len()) == data,
        !(addr <= i < addr + data.len()) ==> splice(content, addr, data)[i] == content[i],
{
    assert(splice(content, addr, data).subrange(addr, addr + data.len()) =~= data);
}

} // verus!
