//! The header and its list of freed stretches.
use crate::addr::{maybe, MaybeU64};
use crate::codec::{
    array_at, get_u64, le64, lemma_le64, lemma_un_le64, push_bytes, push_u64, u64_at,
};
use crate::error::{seen, Fault, Record};
use crate::xhfs::layout::AddressSlot;
use vstd::prelude::*;

verus! {

/// Stretches that were freed, and the first address that was never used.
#[derive(Debug, Clone, PartialEq, Eq)]
pub struct AddressVector {
    pub global_offset: u64,
    pub items: Vec<AddressSlot>,
}

/// The value of a list of freed stretches.
pub struct Freed {
    pub global_offset: u64,
    pub items: Seq<AddressSlot>,
}

impl View for AddressVector {
    type V = Freed;

    open spec fn view(&self) -> Freed {
        Freed { global_offset: self.global_offset, items: self.items@ }
    }
}

/// A slot without address and room.
pub open spec fn no_slot() -> AddressSlot {
    AddressSlot { addr: maybe(0), capacity: 0 }
}

/// What slots are sorted by: their address with absent ones last, or else their capacity with
/// empty ones last.
pub open spec fn sort_key(s: AddressSlot, by_addr: bool) -> u64 {
    if by_addr {
        if s.addr.raw == 0 {
            u64::MAX
        } else {
            s.addr.raw
        }
    } else if s.capacity == 0 {
        usize::MAX as u64
    } else {
        s.capacity as u64
    }
}

/// `s` with `x` put behind the last slot that does not come after it.
pub open spec fn insert_slot(s: Seq<AddressSlot>, x: AddressSlot, by_addr: bool) -> Seq<AddressSlot>
    decreases s.len(),
{
    if s.len() == 0 {
        seq![x]
    } else if sort_key(s.last(), by_addr) <= sort_key(x, by_addr) {
        s.push(x)
    } else {
        insert_slot(s.drop_last(), x, by_addr).push(s.last())
    }
}

/// The slots in order; slots with equal keys keep their order.
pub open spec fn sort_slots(s: Seq<AddressSlot>, by_addr: bool) -> Seq<AddressSlot>
    decreases s.len(),
{
    if s.len() == 0 {
        s
    } else {
        insert_slot(sort_slots(s.drop_last(), by_addr), s.last(), by_addr)
    }
}

/// The second stretch starts where the first ends.
pub open spec fn joins(a: AddressSlot, b: AddressSlot) -> bool {
    &&& a.addr.raw != 0
    &&& b.addr.raw != 0
    &&& a.addr.raw + a.capacity == b.addr.raw
    &&& a.capacity + b.capacity <= usize::MAX
}

/// Stretches that follow one another made one.
pub open spec fn merge_slots(s: Seq<AddressSlot>) -> Seq<AddressSlot>
    decreases s.len(),
{
    if s.len() == 0 {
        s
    } else {
        let m = merge_slots(s.drop_last());
        let x = s.last();
        if m.len() > 0 && joins(m.last(), x) {
            m.drop_last().push(
                AddressSlot {
                    addr: m.last().addr,
                    capacity: (m.last().capacity + x.capacity) as usize,
                },
            )
        } else {
            m.push(x)
        }
    }
}

/// `s` with empty slots added up to `n` slots.
pub open spec fn pad_slots(s: Seq<AddressSlot>, n: nat) -> Seq<AddressSlot> {
    if s.len() >= n {
        s
    } else {
        s + Seq::new((n - s.len()) as nat, |i: int| no_slot())
    }
}

/// The list after neighbours were joined: smallest stretches first, empty slots last.
pub open spec fn compacted(s: Seq<AddressSlot>) -> Seq<AddressSlot> {
    if s.len() < 2 {
        s
    } else {
        pad_slots(sort_slots(merge_slots(sort_slots(s, true)), false), s.len())
    }
}

/// The bytes of slots, one after the other.
pub open spec fn slot_rows(s: Seq<AddressSlot>) -> Seq<u8>
    decreases s.len(),
{
    if s.len() == 0 {
        Seq::empty()
    } else {
        slot_rows(s.drop_last()) + le64(s.last().addr.raw) + le64(s.last().capacity as u64)
    }
}

/// The bytes of a list.
pub open spec fn freed_bytes(f: Freed) -> Seq<u8> {
    le64(f.items.len() as u64) + le64(f.global_offset) + slot_rows(f.items)
}

/// The first `n` slots that the bytes of a list hold.
pub open spec fn slots_parse(s: Seq<u8>, n: nat) -> Result<Seq<AddressSlot>, Fault>
    decreases n,
{
    if n == 0 {
        Ok(Seq::empty())
    } else {
        match slots_parse(s, (n - 1) as nat) {
            Err(e) => Err(e),
            Ok(items) => {
                let at = 16 * n as int;
                if u64_at(s, at + 8) > usize::MAX {
                    Err(Fault::AddressOverflow)
                } else {
                    Ok(
                        items.push(
                            AddressSlot {
                                addr: maybe(u64_at(s, at)),
                                capacity: u64_at(s, at + 8) as usize,
                            },
                        ),
                    )
                }
            },
        }
    }
}

/// The list that bytes stand for.
pub open spec fn freed_parse(s: Seq<u8>) -> Result<Freed, Fault> {
    if s.len() < 16 {
        Err(Fault::TooShort { of: Record::AddressVector, expected: 16, got: s.len() as u64 })
    } else if (s.len() - 16) / 8 != 2 * u64_at(s, 0) || (s.len() - 16) % 16 != 0 {
        Err(Fault::SlotCount { expected: u64_at(s, 0), got: ((s.len() - 16) / 8) as u64 })
    } else {
        match slots_parse(s, u64_at(s, 0) as nat) {
            Err(e) => Err(e),
            Ok(items) => Ok(Freed { global_offset: u64_at(s, 8), items }),
        }
    }
}

proof fn lemma_insert_at(s: Seq<AddressSlot>, x: AddressSlot, by_addr: bool, k: int)
    requires
        0 <= k <= s.len(),
        k > 0 ==> sort_key(s[k - 1], by_addr) <= sort_key(x, by_addr),
        forall|i: int| k <= i < s.len() ==> sort_key(#[trigger] s[i], by_addr) > sort_key(
            x,
            by_addr,
        ),
    ensures
        insert_slot(s, x, by_addr) == s.insert(k, x),
    decreases s.len(),
{
    if s.len() == 0 {
        assert(seq![x] =~= s.insert(0, x));
    } else if k == s.len() {
        assert(s.push(x) =~= s.insert(k, x));
    } else {
        assert(sort_key(s[s.len() - 1], by_addr) > sort_key(x, by_addr));
        let d = s.drop_last();
        assert forall|i: int| k <= i < d.len() implies sort_key(#[trigger] d[i], by_addr)
            > sort_key(x, by_addr) by {
            assert(sort_key(s[i], by_addr) > sort_key(x, by_addr));
        }
        lemma_insert_at(d, x, by_addr, k);
        assert(d.insert(k, x).push(s.last()) =~= s.insert(k, x));
    }
}

/// Sorts slots; slots with equal keys keep their order.
fn sorted_slots(items: &Vec<AddressSlot>, by_addr: bool) -> (r: Vec<AddressSlot>)
    ensures
        r@ == sort_slots(items@, by_addr),
        r@.len() == items@.len(),
{
    let mut out: Vec<AddressSlot> = Vec::new();
    let mut i: usize = 0;
    assert(items@.subrange(0, 0) =~= Seq::empty());
    while i < items.len()
        invariant
            i <= items@.len(),
            out@ == sort_slots(items@.subrange(0, i as int), by_addr),
            out@.len() == i,
        decreases items@.len() - i,
    {
        let x = items[i];
        let key: u64 = slot_key(&x, by_addr);
        let mut k: usize = out.len();
        while k > 0 && slot_key(&out[k - 1], by_addr) > key
            invariant
                k <= out@.len(),
                key == sort_key(x, by_addr),
                forall|j: int|
                    k <= j < out@.len() ==> sort_key(#[trigger] out@[j], by_addr) > key,
            decreases k,
        {
            k = k - 1;
        }
        proof {
            lemma_insert_at(out@, x, by_addr, k as int);
            assert(items@.subrange(0, i + 1).drop_last() =~= items@.subrange(0, i as int));
        }
        out.insert(k, x);
        i = i + 1;
    }
    assert(items@.subrange(0, i as int) =~= items@);
    out
}

fn slot_key(s: &AddressSlot, by_addr: bool) -> (r: u64)
    ensures
        r == sort_key(*s, by_addr),
{
    if by_addr {
        if s.addr.is_none() {
            u64::MAX
        } else {
            s.addr.get()
        }
    } else if s.capacity == 0 {
        usize::MAX as u64
    } else {
        s.capacity as u64
    }
}

proof fn lemma_merge_len(s: Seq<AddressSlot>)
    ensures
        merge_slots(s).len() <= s.len(),
    decreases s.len(),
{
    if s.len() > 0 {
        lemma_merge_len(s.drop_last());
    }
}

/// Joins stretches that follow one another.
fn merged_slots(items: &Vec<AddressSlot>) -> (r: Vec<AddressSlot>)
    ensures
        r@ == merge_slots(items@),
        r@.len() <= items@.len(),
{
    let mut out: Vec<AddressSlot> = Vec::new();
    let mut i: usize = 0;
    assert(items@.subrange(0, 0) =~= Seq::empty());
    while i < items.len()
        invariant
            i <= items@.len(),
            out@ == merge_slots(items@.subrange(0, i as int)),
        decreases items@.len() - i,
    {
        proof {
            assert(items@.subrange(0, i + 1).drop_last() =~= items@.subrange(0, i as int));
        }
        let x = items[i];
        let n: usize = out.len();
        let mut joined = false;
        if n > 0 {
            let last = out[n - 1];
            if last.addr.is_some() && x.addr.is_some() && last.capacity as u64 <= u64::MAX
                - last.addr.get() && last.addr.get() + last.capacity as u64 == x.addr.get()
                && x.capacity <= usize::MAX - last.capacity {
                let ghost before = out@;
                let _ = out.pop();
                out.push(AddressSlot { addr: last.addr, capacity: last.capacity + x.capacity });
                assert(out@ =~= before.drop_last().push(
                    AddressSlot {
                        addr: last.addr,
                        capacity: (last.capacity + x.capacity) as usize,
                    },
                ));
                joined = true;
            }
        }
        if !joined {
            out.push(x);
        }
        i = i + 1;
    }
    proof {
        assert(items@.subrange(0, i as int) =~= items@);
        lemma_merge_len(items@);
    }
    out
}

impl AddressVector {
    /// A list of `count` empty slots.
    pub fn allocate(count: usize) -> (r: Self)
        ensures
            r@ == (Freed { global_offset: 0, items: Seq::new(count as nat, |i: int| no_slot()) }),
    {
        let mut items: Vec<AddressSlot> = Vec::new();
        let mut i: usize = 0;
        while i < count
            invariant
                i <= count,
                items@ == Seq::new(i as nat, |k: int| no_slot()),
            decreases count - i,
        {
            items.push(AddressSlot::default());
            i = i + 1;
            assert(items@ =~= Seq::new(i as nat, |k: int| no_slot()));
        }
        AddressVector { global_offset: 0, items }
    }

    /// Joins stretches that follow one another, and puts the smallest first.
    pub fn compactify(&mut self)
        ensures
            final(self)@ == (Freed { items: compacted(old(self)@.items), ..old(self)@ }),
            final(self)@.items.len() == old(self)@.items.len(),
    {
        let count: usize = self.items.len();
        if count < 2 {
            return;
        }
        let by_addr = sorted_slots(&self.items, true);
        let merged = merged_slots(&by_addr);
        let mut out = sorted_slots(&merged, false);
        let ghost core = out@;
        while out.len() < count
            invariant
                core.len() <= out@.len() <= count,
                core.len() <= count,
                out@ == core + Seq::new((out@.len() - core.len()) as nat, |i: int| no_slot()),
            decreases count - out@.len(),
        {
            let ghost before = out@;
            out.push(AddressSlot::default());
            assert(out@ =~= core + Seq::new((out@.len() - core.len()) as nat, |i: int| no_slot()));
        }
        assert(out@ =~= pad_slots(core, count as nat));
        self.items = out;
    }

    /// The bytes of this list.
    pub fn serialize(&self) -> (r: Result<Vec<u8>, Fault>)
        ensures
            r is Ok,
            r->Ok_0@ == freed_bytes(self@),
    {
        let mut buf: Vec<u8> = Vec::new();
        push_u64(&mut buf, self.items.len() as u64);
        push_u64(&mut buf, self.global_offset);
        let ghost head = buf@;
        assert(head =~= le64(self.items@.len() as u64) + le64(self.global_offset));
        let mut i: usize = 0;
        assert(buf@ =~= head + slot_rows(self.items@.subrange(0, 0)));
        while i < self.items.len()
            invariant
                i <= self.items@.len(),
                buf@ == head + slot_rows(self.items@.subrange(0, i as int)),
            decreases self.items@.len() - i,
        {
            proof {
                assert(self.items@.subrange(0, i + 1).drop_last() =~= self.items@.subrange(
                    0,
                    i as int,
                ));
            }
            push_u64(&mut buf, self.items[i].addr.get());
            push_u64(&mut buf, self.items[i].capacity as u64);
            assert(buf@ =~= head + (slot_rows(self.items@.subrange(0, i as int)) + le64(
                self.items@[i as int].addr.raw,
            ) + le64(self.items@[i as int].capacity as u64)));
            i = i + 1;
        }
        assert(self.items@.subrange(0, i as int) =~= self.items@);
        assert(buf@ =~= freed_bytes(self@));
        Ok(buf)
    }

    /// The list that `data` stands for.
    pub fn deserialize(data: &[u8]) -> (r: Result<Self, Fault>)
        ensures
            seen(r) == freed_parse(data@),
    {
        let got: usize = data.len();
        if got < 16 {
            return Err(Fault::TooShort { of: Record::AddressVector, expected: 16, got: got as u64 });
        }
        let count: u64 = get_u64(data, 0);
        let global_offset: u64 = get_u64(data, 8);
        let words: usize = (got - 16) / 8;
        if words % 2 != 0 || (words / 2) as u64 != count || (got - 16) % 16 != 0 {
            return Err(Fault::SlotCount { expected: count, got: words as u64 });
        }
        let mut items: Vec<AddressSlot> = Vec::new();
        let mut i: u64 = 0;
        let mut at: usize = 16;
        assert(items@ =~= Seq::empty());
        while i < count
            invariant
                i <= count,
                got == data@.len(),
                count == u64_at(data@, 0),
                got - 16 == 16 * count,
                at == 16 + 16 * i,
                slots_parse(data@, i as nat) == Ok::<_, Fault>(items@),
            decreases count - i,
        {
            let addr: u64 = get_u64(data, at);
            let capacity: u64 = get_u64(data, at + 8);
            if capacity > usize::MAX as u64 {
                proof {
                    lemma_slots_err(data@, (i + 1) as nat, count as nat);
                }
                return Err(Fault::AddressOverflow);
            }
            items.push(AddressSlot { addr: MaybeU64::from(addr), capacity: capacity as usize });
            at = at + 16;
            i = i + 1;
        }
        Ok(AddressVector { global_offset, items })
    }

    /// Number of bytes that is set aside for the slots and their number.
    pub fn serialized_size(&self) -> (r: usize)
        requires
            8 + 16 * self.items@.len() <= usize::MAX,
        ensures
            r == 8 + 16 * self.items@.len(),
    {
        8 + self.items.len() * 16
    }
}

proof fn lemma_slots_err(s: Seq<u8>, a: nat, b: nat)
    requires
        a <= b,
        slots_parse(s, a) is Err,
    ensures
        slots_parse(s, b) == slots_parse(s, a),
    decreases b,
{
    if a < b {
        lemma_slots_err(s, a, (b - 1) as nat);
    }
}

/// What stands at the start of the disk.
#[derive(Debug, Clone, PartialEq, Eq)]
pub struct BruteFsHeader {
    pub version: u8,
    pub extent_freed: AddressVector,
    pub chacha20_nonce: [u8; 12],
}

/// The value of a header.
pub struct BruteHeader {
    pub version: u8,
    pub freed: Freed,
    pub nonce: Seq<u8>,
}

impl View for BruteFsHeader {
    type V = BruteHeader;

    open spec fn view(&self) -> BruteHeader {
        BruteHeader {
            version: self.version,
            freed: self.extent_freed@,
            nonce: self.chacha20_nonce@,
        }
    }
}

/// The letters `brutefs`.
pub open spec fn brute_magic() -> Seq<u8> {
    seq![0x62u8, 0x72u8, 0x75u8, 0x74u8, 0x65u8, 0x66u8, 0x73u8]
}

/// The bytes of a header.
pub open spec fn brute_bytes(h: BruteHeader) -> Seq<u8> {
    brute_magic() + seq![h.version] + h.nonce + freed_bytes(h.freed)
}

/// The header that bytes stand for.
pub open spec fn brute_parse(s: Seq<u8>) -> Result<BruteHeader, Fault> {
    if s.len() < 20 {
        Err(Fault::TooShort { of: Record::BruteFsHeader, expected: 20, got: s.len() as u64 })
    } else if s.subrange(0, 7) != brute_magic() {
        Err(Fault::BadMagic { of: Record::BruteFsHeader })
    } else {
        match freed_parse(s.subrange(20, s.len() as int)) {
            Err(e) => Err(e),
            Ok(freed) => Ok(BruteHeader { version: s[7], freed, nonce: s.subrange(8, 20) }),
        }
    }
}

impl BruteFsHeader {
    /// The bytes of this header.
    pub fn serialize(&self) -> (r: Result<Vec<u8>, Fault>)
        ensures
            r is Ok,
            r->Ok_0@ == brute_bytes(self@),
    {
        let mut buf: Vec<u8> = Vec::new();
        buf.push(0x62);
        buf.push(0x72);
        buf.push(0x75);
        buf.push(0x74);
        buf.push(0x65);
        buf.push(0x66);
        buf.push(0x73);
        buf.push(self.version);
        push_bytes(&mut buf, self.chacha20_nonce.as_slice());
        let list = match self.extent_freed.serialize() {
            Ok(b) => b,
            Err(e) => return Err(e),
        };
        push_bytes(&mut buf, list.as_slice());
        assert(buf@ =~= brute_bytes(self@));
        Ok(buf)
    }

    /// The header that `data` stands for.
    pub fn deserialize(data: &[u8]) -> (r: Result<Self, Fault>)
        ensures
            seen(r) == brute_parse(data@),
    {
        let got: usize = data.len();
        if got < 20 {
            return Err(Fault::TooShort { of: Record::BruteFsHeader, expected: 20, got: got as u64 });
        }
        let head = vstd::slice::slice_subrange(data, 0, 7);
        if !(head[0] == 0x62 && head[1] == 0x72 && head[2] == 0x75 && head[3] == 0x74 && head[4]
            == 0x65 && head[5] == 0x66 && head[6] == 0x73) {
            return Err(Fault::BadMagic { of: Record::BruteFsHeader });
        }
        assert(data@.subrange(0, 7) =~= brute_magic());
        match AddressVector::deserialize(vstd::slice::slice_subrange(data, 20, got)) {
            Ok(extent_freed) => Ok(
                BruteFsHeader {
                    version: data[7],
                    extent_freed,
                    chacha20_nonce: array_at(data, 8),
                },
            ),
            Err(e) => Err(e),
        }
    }

    /// Number of bytes that is set aside for a header.
    pub fn serialized_size(&self) -> (r: usize)
        requires
            28 + 16 * self.extent_freed.items@.len() <= usize::MAX,
        ensures
            r == 28 + 16 * self.extent_freed.items@.len(),
    {
        7 + 1 + self.extent_freed.serialized_size() + 12
    }
}

pub proof fn lemma_rows_len(s: Seq<AddressSlot>)
    ensures
        slot_rows(s).len() == 16 * s.len(),
    decreases s.len(),
{
    if s.len() > 0 {
        lemma_rows_len(s.drop_last());
        lemma_le64(s.last().addr.raw);
        lemma_le64(s.last().capacity as u64);
    }
}

proof fn lemma_slots_prefix(s: Seq<AddressSlot>, head: Seq<u8>, tail: Seq<u8>)
    requires
        head.len() == 16,
    ensures
        slots_parse(head + slot_rows(s) + tail, s.len()) == Ok::<_, Fault>(s),
    decreases s.len(),
{
    let all = head + slot_rows(s) + tail;
    lemma_rows_len(s);
    if s.len() > 0 {
        let d = s.drop_last();
        let x = s.last();
        lemma_rows_len(d);
        lemma_le64(x.addr.raw);
        lemma_le64(x.capacity as u64);
        let more = le64(x.addr.raw) + le64(x.capacity as u64) + tail;
        assert(head + slot_rows(d) + more =~= all);
        lemma_slots_prefix(d, head, more);
        let at = 16 * s.len() as int;
        assert(all.subrange(at, at + 8) =~= le64(x.addr.raw));
        assert(all.subrange(at + 8, at + 8 + 8) =~= le64(x.capacity as u64));
        assert(d.push(x) =~= s);
    } else {
        assert(s =~= Seq::empty());
    }
}

/// A list that is written and read back is the same list.
pub proof fn address_vector_round_trip(f: Freed)
    requires
        f.items.len() <= u64::MAX,
    ensures
        freed_parse(freed_bytes(f)) == Ok::<_, Fault>(f),
{
    let s = freed_bytes(f);
    let head = le64(f.items.len() as u64) + le64(f.global_offset);
    lemma_le64(f.items.len() as u64);
    lemma_le64(f.global_offset);
    lemma_rows_len(f.items);
    lemma_slots_prefix(f.items, head, Seq::empty());
    assert(head + slot_rows(f.items) + Seq::empty() =~= s);
    assert(s.subrange(0, 8) =~= le64(f.items.len() as u64));
    assert(s.subrange(8, 16) =~= le64(f.global_offset));
}

/// A header that is written and read back is the same header.
pub proof fn brute_header_round_trip(h: BruteHeader)
    requires
        h.nonce.len() == 12,
        h.freed.items.len() <= u64::MAX,
    ensures
        brute_parse(brute_bytes(h)) == Ok::<_, Fault>(h),
{
    let s = brute_bytes(h);
    address_vector_round_trip(h.freed);
    assert(s.subrange(0, 7) =~= brute_magic());
    assert(s.subrange(8, 20) =~= h.nonce);
    assert(s.subrange(20, s.len() as int) =~= freed_bytes(h.freed));
}

/// Slots that are read are the slots that the bytes spell.
proof fn lemma_slot_rows(s: Seq<u8>, n: nat)
    requires
        s.len() >= 16 + 16 * n,
        slots_parse(s, n) is Ok,
    ensures
        slots_parse(s, n)->Ok_0.len() == n,
        slot_rows(slots_parse(s, n)->Ok_0) == s.subrange(16, 16 + 16 * n as int),
    decreases n,
{
    let items = slots_parse(s, n)->Ok_0;
    if n > 0 {
        let at = 16 * n as int;
        lemma_slot_rows(s, (n - 1) as nat);
        lemma_un_le64(s.subrange(at, at + 8));
        lemma_un_le64(s.subrange(at + 8, at + 8 + 8));
        assert(items.drop_last() =~= slots_parse(s, (n - 1) as nat)->Ok_0);
        assert(slot_rows(items) =~= s.subrange(16, 16 + at));
    } else {
        assert(s.subrange(16, 16) =~= Seq::empty());
    }
}

/// Bytes that are read as a list are the bytes of that list.
pub proof fn address_vector_bytes_round_trip(s: Seq<u8>)
    requires
        freed_parse(s) is Ok,
    ensures
        freed_bytes(freed_parse(s)->Ok_0) == s,
{
    let f = freed_parse(s)->Ok_0;
    lemma_slot_rows(s, u64_at(s, 0) as nat);
    lemma_un_le64(s.subrange(0, 8));
    lemma_un_le64(s.subrange(8, 16));
    assert(freed_bytes(f) =~= s);
}

/// Bytes that are read as a header are the bytes of that header.
pub proof fn brute_header_bytes_round_trip(s: Seq<u8>)
    requires
        brute_parse(s) is Ok,
    ensures
        brute_bytes(brute_parse(s)->Ok_0) == s,
{
    let h = brute_parse(s)->Ok_0;
    address_vector_bytes_round_trip(s.subrange(20, s.len() as int));
    assert(s =~= s.subrange(0, 7) + s.subrange(7, s.len() as int));
    assert(brute_bytes(h) =~= s);
}

/// Address `x` lies in a freed stretch.
pub open spec fn is_freed(s: Seq<AddressSlot>, x: int) -> bool {
    exists|k: int| 0 <= k < s.len() && slot_holds(#[trigger] s[k], x)
}

/// Address `x` lies in the stretch.
pub open spec fn slot_holds(s: AddressSlot, x: int) -> bool {
    s.addr.raw != 0 && s.addr.raw <= x < s.addr.raw + s.capacity
}

proof fn lemma_insert_slot(s: Seq<AddressSlot>, y: AddressSlot, by_addr: bool, x: int)
    requires
        is_sorted(s, by_addr),
    ensures
        insert_slot(s, y, by_addr).len() == s.len() + 1,
        is_sorted(insert_slot(s, y, by_addr), by_addr),
        is_freed(insert_slot(s, y, by_addr), x) == (is_freed(s, x) || slot_holds(y, x)),
        insert_slot(s, y, by_addr).to_multiset() =~= s.to_multiset().insert(y),
        forall|k: int|
            0 <= k < s.len() + 1 ==> (#[trigger] insert_slot(s, y, by_addr)[k]) == y || s.contains(
                insert_slot(s, y, by_addr)[k],
            ),
    decreases s.len(),
{
    let r = insert_slot(s, y, by_addr);
    if s.len() == 0 {
        assert(r[0] == y);
        if slot_holds(y, x) {
            assert(slot_holds(r[0], x));
        }
        assert(r =~= Seq::empty().push(y));
        vstd::seq_lib::to_multiset_build(Seq::<AddressSlot>::empty(), y);
        assert(s =~= Seq::empty());
    } else if sort_key(s.last(), by_addr) <= sort_key(y, by_addr) {
        lemma_freed_push(s, y, x);
        vstd::seq_lib::to_multiset_build(s, y);
        assert forall|k: int| 0 <= k < r.len() implies (#[trigger] r[k]) == y || s.contains(
            r[k],
        ) by {
            if k < s.len() {
                assert(s[k] == r[k]);
            }
        }
        assert forall|i: int, j: int| 0 <= i < j < r.len() implies sort_key(
            #[trigger] r[i],
            by_addr,
        ) <= sort_key(#[trigger] r[j], by_addr) by {
            if j == s.len() && i < s.len() - 1 {
                assert(sort_key(s[i], by_addr) <= sort_key(s[s.len() - 1], by_addr));
            }
        }
    } else {
        let d = s.drop_last();
        assert forall|i: int, j: int| 0 <= i < j < d.len() implies sort_key(
            #[trigger] d[i],
            by_addr,
        ) <= sort_key(#[trigger] d[j], by_addr) by {
            assert(sort_key(s[i], by_addr) <= sort_key(s[j], by_addr));
        }
        lemma_insert_slot(d, y, by_addr, x);
        let b = insert_slot(d, y, by_addr);
        lemma_freed_push(b, s.last(), x);
        lemma_freed_push(d, s.last(), x);
        assert(d.push(s.last()) =~= s);
        vstd::seq_lib::to_multiset_build(b, s.last());
        vstd::seq_lib::to_multiset_build(d, s.last());
        assert forall|k: int| 0 <= k < r.len() implies (#[trigger] r[k]) == y || s.contains(
            r[k],
        ) by {
            if k < b.len() {
                assert(b[k] == y || d.contains(b[k]));
                if d.contains(b[k]) {
                    let i = choose|i: int| 0 <= i < d.len() && d[i] == b[k];
                    assert(s[i] == r[k]);
                }
            } else {
                assert(s[s.len() - 1] == r[k]);
            }
        }
        assert forall|i: int, j: int| 0 <= i < j < r.len() implies sort_key(
            #[trigger] r[i],
            by_addr,
        ) <= sort_key(#[trigger] r[j], by_addr) by {
            if j == b.len() {
                assert(b[i] == y || d.contains(b[i]));
                if d.contains(b[i]) {
                    let k = choose|k: int| 0 <= k < d.len() && d[k] == b[i];
                    assert(sort_key(s[k], by_addr) <= sort_key(s[s.len() - 1], by_addr));
                }
            } else {
                assert(sort_key(b[i], by_addr) <= sort_key(b[j], by_addr));
            }
        }
    }
}

/// Keys do not fall.
pub open spec fn is_sorted(s: Seq<AddressSlot>, by_addr: bool) -> bool {
    forall|i: int, j: int|
        0 <= i < j < s.len() ==> sort_key(#[trigger] s[i], by_addr) <= sort_key(
            #[trigger] s[j],
            by_addr,
        )
}

proof fn lemma_freed_push(s: Seq<AddressSlot>, y: AddressSlot, x: int)
    ensures
        is_freed(s.push(y), x) == (is_freed(s, x) || slot_holds(y, x)),
{
    let r = s.push(y);
    if is_freed(r, x) {
        let k = choose|k: int| 0 <= k < r.len() && slot_holds(#[trigger] r[k], x);
        if k < s.len() {
            assert(slot_holds(s[k], x));
        }
    }
    if is_freed(s, x) {
        let k = choose|k: int| 0 <= k < s.len() && slot_holds(#[trigger] s[k], x);
        assert(slot_holds(r[k], x));
    }
    if slot_holds(y, x) {
        assert(slot_holds(r[s.len() as int], x));
    }
}

/// Sorted slots are the same slots in order.
pub proof fn sorting_keeps_slots(s: Seq<AddressSlot>, by_addr: bool, x: int)
    ensures
        sort_slots(s, by_addr).len() == s.len(),
        is_sorted(sort_slots(s, by_addr), by_addr),
        sort_slots(s, by_addr).to_multiset() =~= s.to_multiset(),
        is_freed(sort_slots(s, by_addr), x) == is_freed(s, x),
    decreases s.len(),
{
    if s.len() > 0 {
        sorting_keeps_slots(s.drop_last(), by_addr, x);
        lemma_insert_slot(sort_slots(s.drop_last(), by_addr), s.last(), by_addr, x);
        lemma_freed_push(s.drop_last(), s.last(), x);
        assert(s.drop_last().push(s.last()) =~= s);
        vstd::seq_lib::to_multiset_build(s.drop_last(), s.last());
    }
}

proof fn lemma_merge_freed(s: Seq<AddressSlot>, x: int)
    ensures
        is_freed(merge_slots(s), x) == is_freed(s, x),
    decreases s.len(),
{
    if s.len() > 0 {
        let d = s.drop_last();
        let y = s.last();
        let m = merge_slots(d);
        lemma_merge_freed(d, x);
        lemma_freed_push(d, y, x);
        assert(d.push(y) =~= s);
        if m.len() > 0 && joins(m.last(), y) {
            let z = AddressSlot {
                addr: m.last().addr,
                capacity: (m.last().capacity + y.capacity) as usize,
            };
            lemma_freed_push(m.drop_last(), z, x);
            lemma_freed_push(m.drop_last(), m.last(), x);
            assert(m.drop_last().push(m.last()) =~= m);
        } else {
            lemma_freed_push(m, y, x);
        }
    }
}

/// Compacting the list neither loses nor adds a freed address, and keeps the number of slots.
pub proof fn compaction_keeps_freed_addresses(s: Seq<AddressSlot>, x: int)
    ensures
        is_freed(compacted(s), x) == is_freed(s, x),
        compacted(s).len() == s.len(),
{
    if s.len() >= 2 {
        let a = sort_slots(s, true);
        let b = merge_slots(a);
        let c = sort_slots(b, false);
        sorting_keeps_slots(s, true, x);
        lemma_merge_freed(a, x);
        lemma_merge_len(a);
        sorting_keeps_slots(b, false, x);
        let p = pad_slots(c, s.len());
        if is_freed(p, x) {
            let k = choose|k: int| 0 <= k < p.len() && slot_holds(#[trigger] p[k], x);
            assert(k < c.len());
            assert(slot_holds(c[k], x));
        }
        if is_freed(c, x) {
            let k = choose|k: int| 0 <= k < c.len() && slot_holds(#[trigger] c[k], x);
            assert(slot_holds(p[k], x));
        }
    }
}

/// In how many of the slots address `x` lies.
pub open spec fn hold_count(s: Seq<AddressSlot>, x: int) -> nat
    decreases s.len(),
{
    if s.len() == 0 {
        0
    } else {
        hold_count(s.drop_last(), x) + (if slot_holds(s.last(), x) {
            1nat
        } else {
            0nat
        })
    }
}

proof fn lemma_count_push(s: Seq<AddressSlot>, y: AddressSlot, x: int)
    ensures
        hold_count(s.push(y), x) == hold_count(s, x) + (if slot_holds(y, x) {
            1nat
        } else {
            0nat
        }),
{
    assert(s.push(y).drop_last() =~= s);
}

proof fn lemma_count_insert(s: Seq<AddressSlot>, y: AddressSlot, by_addr: bool, x: int)
    ensures
        hold_count(insert_slot(s, y, by_addr), x) == hold_count(s.push(y), x),
    decreases s.len(),
{
    lemma_count_push(s, y, x);
    if s.len() > 0 && !(sort_key(s.last(), by_addr) <= sort_key(y, by_addr)) {
        let d = s.drop_last();
        lemma_count_insert(d, y, by_addr, x);
        lemma_count_push(d, y, x);
        lemma_count_push(insert_slot(d, y, by_addr), s.last(), x);
    } else if s.len() == 0 {
        assert(insert_slot(s, y, by_addr) =~= s.push(y));
    }
}

proof fn lemma_count_sort(s: Seq<AddressSlot>, by_addr: bool, x: int)
    ensures
        hold_count(sort_slots(s, by_addr), x) == hold_count(s, x),
    decreases s.len(),
{
    if s.len() > 0 {
        lemma_count_sort(s.drop_last(), by_addr, x);
        lemma_count_insert(sort_slots(s.drop_last(), by_addr), s.last(), by_addr, x);
        lemma_count_push(sort_slots(s.drop_last(), by_addr), s.last(), x);
    }
}

proof fn lemma_count_merge(s: Seq<AddressSlot>, x: int)
    ensures
        hold_count(merge_slots(s), x) == hold_count(s, x),
    decreases s.len(),
{
    if s.len() > 0 {
        let d = s.drop_last();
        let y = s.last();
        let m = merge_slots(d);
        lemma_count_merge(d, x);
        if m.len() > 0 && joins(m.last(), y) {
            let z = AddressSlot {
                addr: m.last().addr,
                capacity: (m.last().capacity + y.capacity) as usize,
            };
            lemma_count_push(m.drop_last(), z, x);
        } else {
            lemma_count_push(m, y, x);
        }
    }
}

proof fn lemma_count_pad(s: Seq<AddressSlot>, n: nat, x: int)
    requires
        s.len() <= n,
    ensures
        hold_count(pad_slots(s, n), x) == hold_count(s, x),
    decreases n,
{
    if s.len() < n {
        lemma_count_pad(s, (n - 1) as nat, x);
        assert(pad_slots(s, n).drop_last() =~= pad_slots(s, (n - 1) as nat));
    } else {
        assert(pad_slots(s, n) =~= s);
    }
}

/// Compacting the list keeps in how many slots an address lies.
pub proof fn lemma_count_compacted(s: Seq<AddressSlot>, x: int)
    ensures
        hold_count(compacted(s), x) == hold_count(s, x),
{
    if s.len() >= 2 {
        let a = sort_slots(s, true);
        let b = merge_slots(a);
        let c = sort_slots(b, false);
        lemma_count_sort(s, true, x);
        lemma_count_merge(a, x);
        lemma_count_sort(b, false, x);
        sorting_keeps_slots(s, true, x);
        sorting_keeps_slots(b, false, x);
        lemma_merge_len(a);
        lemma_count_pad(c, s.len(), x);
    }
}

/// An address is freed if it lies in a slot.
pub proof fn lemma_count_freed(s: Seq<AddressSlot>, x: int)
    ensures
        is_freed(s, x) <==> hold_count(s, x) > 0,
    decreases s.len(),
{
    if s.len() > 0 {
        lemma_count_freed(s.drop_last(), x);
        lemma_freed_push(s.drop_last(), s.last(), x);
        assert(s.drop_last().push(s.last()) =~= s);
    }
}

/// Replacing a slot replaces what it counts for.
pub proof fn lemma_count_update(s: Seq<AddressSlot>, k: int, t: AddressSlot, x: int)
    requires
        0 <= k < s.len(),
    ensures
        hold_count(s.update(k, t), x) + (if slot_holds(s[k], x) {
            1nat
        } else {
            0nat
        }) == hold_count(s, x) + (if slot_holds(t, x) {
            1nat
        } else {
            0nat
        }),
    decreases s.len(),
{
    let u = s.update(k, t);
    if k == s.len() - 1 {
        assert(u.drop_last() =~= s.drop_last());
    } else {
        lemma_count_update(s.drop_last(), k, t, x);
        assert(u.drop_last() =~= s.drop_last().update(k, t));
    }
}

} // verus!
