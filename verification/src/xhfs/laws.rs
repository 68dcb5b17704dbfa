//! What holds of contents: what is stored can be read, in full and in part.
use crate::addr::MaybeU64;
use crate::codec::{le64, lemma_le64, u64_at};
use crate::crypto::{crypted, Cipher};
use crate::device::disk::{lemma_clear_get, lemma_clear_put, plain};
use crate::error::XHFSError;
use crate::xhfs::ds::{chunk_bytes, Chunk};
use crate::xhfs::extent::{cut, lemma_aligned};
use crate::xhfs::image::{aligned, Image};
use crate::xhfs::layout::HEADER_SIZE;
use crate::xhfs::volume::lemma_format;
use vstd::prelude::*;

verus! {

/// The part of a content from `start` to before `end`, as far as there is any.
pub open spec fn part(data: Seq<u8>, start: int, end: int) -> Seq<u8> {
    cut(data, 0, start, end)
}

/// A part of two pieces is the part of the first followed by that of the second.
pub proof fn lemma_cut_join(a: Seq<u8>, b: Seq<u8>, at: int, start: int, end: int)
    ensures
        cut(a + b, at, start, end) == cut(a, at, start, end) + cut(
            b,
            at + a.len(),
            start,
            end,
        ),
{
    assert(cut(a + b, at, start, end) =~= cut(a, at, start, end) + cut(
        b,
        at + a.len(),
        start,
        end,
    ));
}

/// Reading part of a secret stretch gives that part of reading all of it.
proof fn lemma_clear_sub(m: Image, addr: int, n: int, lo: int, hi: int)
    requires
        0 <= addr,
        0 <= lo < hi <= n,
        m.clear(addr, n) is Ok,
    ensures
        m.clear(addr + lo, hi - lo) == Ok::<_, XHFSError>(
            m.clear(addr, n)->Ok_0.subrange(lo, hi),
        ),
{
    lemma_clear_get(m.cipher, m.disk, addr, n);
    lemma_clear_get(m.cipher, m.disk, addr + lo, hi - lo);
    let p = plain(m.cipher, m.disk);
    assert(p.subrange(addr + lo, addr + hi) =~= p.subrange(addr, addr + n).subrange(lo, hi));
}

proof fn lemma_clear_len(m: Image, addr: int, n: int)
    requires
        0 <= addr,
        0 <= n,
        m.clear(addr, n) is Ok,
    ensures
        m.clear(addr, n)->Ok_0.len() == n,
{
}

/// The facts that an extent that can be read gives.
pub proof fn lemma_extent_read(m: Image, addr: u64)
    requires
        m.format.block_size_bytes > 0,
        m.extent(addr) is Ok,
    ensures
        m.extent_meta(addr) is Ok,
        m.extent_meta(addr)->Ok_0.full_canon_data_slot.capacity == m.extent(addr)->Ok_0.data.len(),
        m.extent_meta(addr)->Ok_0.full_canon_data_slot.addr.raw == addr + 16,
        m.extent_meta(addr)->Ok_0.next_extent == m.extent(addr)->Ok_0.next,
        addr + 16 + m.extent(addr)->Ok_0.data.len() <= usize::MAX,
{
    let s = m.clear(addr as int, 16)->Ok_0;
    lemma_aligned(16 + u64_at(s, 0), m.format.block_size_bytes as int);
    let meta = m.extent_meta(addr)->Ok_0;
    lemma_clear_len(
        m,
        meta.full_canon_data_slot.addr.raw as int,
        meta.full_canon_data_slot.capacity as int,
    );
}

/// Seeking in a content gives the part of the content that was asked for.
pub proof fn lemma_seek(m: Image, addr: MaybeU64, at: int, start: int, end: int, fuel: nat)
    requires
        m.format.block_size_bytes > 0,
        0 <= at,
        0 <= start,
        m.chain(addr, fuel) is Ok,
        at + m.chain(addr, fuel)->Ok_0.len() <= u64::MAX,
    ensures
        m.seek(addr, at, start, end, fuel) == Ok::<_, XHFSError>(
            cut(m.chain(addr, fuel)->Ok_0, at, start, end),
        ),
    decreases fuel,
{
    if addr.raw != 0 {
        let chunk = m.extent(addr.raw)->Ok_0;
        let rest = m.chain(chunk.next, (fuel - 1) as nat)->Ok_0;
        lemma_extent_read(m, addr.raw);
        lemma_cut_join(chunk.data, rest, at, start, end);
        let size = chunk.data.len() as int;
        lemma_seek(m, chunk.next, at + size, start, end, (fuel - 1) as nat);
        let lo = if start > at {
            start - at
        } else {
            0
        };
        let hi = if end - at < size {
            end - at
        } else {
            size
        };
        if at + size <= start {
            assert(cut(chunk.data, at, start, end) =~= Seq::empty());
            assert(Seq::<u8>::empty() + cut(rest, at + size, start, end) =~= cut(
                rest,
                at + size,
                start,
                end,
            ));
        } else if at >= end {
            assert(cut(chunk.data, at, start, end) =~= Seq::empty());
            assert(cut(rest, at + size, start, end) =~= Seq::empty());
            assert(Seq::<u8>::empty() + Seq::<u8>::empty() =~= Seq::<u8>::empty());
        } else if lo < hi {
            lemma_clear_sub(m, addr.raw + 16, size, lo, hi);
        }
    } else {
        assert(cut(Seq::empty(), at, start, end) =~= Seq::empty());
    }
}

/// Reading from `start` to `end` gives that part of what reading everything gives.
pub proof fn seek_is_part_of_content(m: Image, addr: MaybeU64, start: u64, end: u64)
    requires
        m.format.usable(),
        m.content(addr) is Ok,
        m.content(addr)->Ok_0.len() <= u64::MAX,
    ensures
        m.seek(addr, 0, start as int, end as int, m.disk.len()) == Ok::<_, XHFSError>(
            part(m.content(addr)->Ok_0, start as int, end as int),
        ),
{
    reveal(Image::content);
    lemma_format(m);
    lemma_seek(m, addr, 0, start as int, end as int, m.disk.len());
}

/// The cipher and the bytes of the header.
#[verifier::opaque]
pub open spec fn head(m: Image) -> (Option<Cipher>, Seq<u8>) {
    (
        m.cipher,
        if m.disk.len() >= HEADER_SIZE {
            m.disk.subrange(0, HEADER_SIZE as int)
        } else {
            m.disk
        },
    )
}

/// The two are states of one volume: the same format, cipher and header on a disk of the same
/// size.
pub open spec fn same_volume(a: Image, b: Image) -> bool {
    &&& b.format == a.format
    &&& b.disk.len() == a.disk.len()
    &&& head(b) == head(a)
}

/// A volume whose bytes differ at most behind the header has the same head.
pub proof fn lemma_head(a: Image, b: Image)
    requires
        a.format.usable(),
        a.cipher == b.cipher,
        a.disk.len() == b.disk.len(),
        forall|i: int|
            0 <= i < a.disk.len() && i % a.format.stride() < HEADER_SIZE ==> #[trigger] a.disk[i]
                == b.disk[i],
    ensures
        head(b) == head(a),
{
    reveal(head);
    lemma_format(a);
    assert forall|i: int| 0 <= i < HEADER_SIZE && i < a.disk.len() implies a.disk[i]
        == b.disk[i] by {
        vstd::arithmetic::div_mod::lemma_small_mod(i as nat, a.format.stride() as nat);
    }
    if a.disk.len() >= HEADER_SIZE {
        assert(a.disk.subrange(0, HEADER_SIZE as int) =~= b.disk.subrange(0, HEADER_SIZE as int));
    } else {
        assert(a.disk =~= b.disk);
    }
}

/// The same volume, with at most the bytes from `lo` to before `hi` changed.
pub open spec fn same_outside(a: Image, b: Image, lo: int, hi: int) -> bool {
    &&& a.format == b.format
    &&& a.cipher == b.cipher
    &&& a.disk.len() == b.disk.len()
    &&& forall|i: int| 0 <= i < a.disk.len() && !(lo <= i < hi) ==> a.disk[i] == b.disk[i]
}

/// The same volume, with the bytes from `lo` to before `hi` unchanged.
pub open spec fn same_within(a: Image, b: Image, lo: int, hi: int) -> bool {
    &&& a.format == b.format
    &&& a.cipher == b.cipher
    &&& a.disk.len() == b.disk.len()
    &&& forall|i: int| 0 <= i < a.disk.len() && lo <= i < hi ==> a.disk[i] == b.disk[i]
}

/// A stretch that did not change reads the same.
pub proof fn lemma_same_read(a: Image, b: Image, addr: int, n: int)
    requires
        0 <= addr,
        0 <= n,
        same_within(a, b, addr, addr + n),
    ensures
        a.raw(addr, n) == b.raw(addr, n),
        a.clear(addr, n) == b.clear(addr, n),
{
    if addr + n <= a.disk.len() {
        assert(a.disk.subrange(addr, addr + n) =~= b.disk.subrange(addr, addr + n));
    }
}

/// Where the extents from `addr` on lie, each up to the end of its last block.
pub open spec fn spans(m: Image, addr: MaybeU64, fuel: nat) -> Seq<(int, int)>
    decreases fuel,
{
    if addr.raw == 0 || fuel == 0 {
        Seq::empty()
    } else {
        match m.extent_meta(addr.raw) {
            Err(_) => Seq::empty(),
            Ok(meta) => seq![
                (
                    meta.full_aligned_region.start.raw as int,
                    meta.full_aligned_region.end.raw as int,
                ),
            ] + spans(m, meta.next_extent, (fuel - 1) as nat),
        }
    }
}

/// The extents from `addr` on.
pub open spec fn extents(m: Image, addr: MaybeU64, fuel: nat) -> Seq<Chunk>
    decreases fuel,
{
    if addr.raw == 0 || fuel == 0 {
        Seq::empty()
    } else {
        match m.extent(addr.raw) {
            Err(_) => Seq::empty(),
            Ok(c) => seq![c] + extents(m, c.next, (fuel - 1) as nat),
        }
    }
}

/// `a` and `b` agree on each of the stretches.
pub open spec fn agree_on(a: Image, b: Image, s: Seq<(int, int)>) -> bool {
    forall|k: int| 0 <= k < s.len() ==> same_within(a, b, (#[trigger] s[k]).0, s[k].1)
}

/// A chain whose extents did not change reads the same.
pub proof fn lemma_chain_frame(a: Image, b: Image, addr: MaybeU64, fuel: nat)
    requires
        a.format == b.format,
        a.cipher == b.cipher,
        a.disk.len() == b.disk.len(),
        a.format.block_size_bytes > 0,
        a.chain(addr, fuel) is Ok,
        agree_on(a, b, spans(a, addr, fuel)),
    ensures
        b.chain(addr, fuel) == a.chain(addr, fuel),
        spans(b, addr, fuel) == spans(a, addr, fuel),
        extents(b, addr, fuel) == extents(a, addr, fuel),
        b.last_extent(addr, fuel) == a.last_extent(addr, fuel),
    decreases fuel,
{
    if addr.raw != 0 {
        let chunk = a.extent(addr.raw)->Ok_0;
        lemma_extent_read(a, addr.raw);
        let s = spans(a, addr, fuel);
        let rest = spans(a, chunk.next, (fuel - 1) as nat);
        let head = a.clear(addr.raw as int, 16)->Ok_0;
        let size = u64_at(head, 0);
        lemma_aligned(16 + size, a.format.block_size_bytes as int);
        assert(s[0].0 == addr.raw);
        assert(s[0].1 >= addr.raw + 16 + size);
        assert(same_within(a, b, s[0].0, s[0].1));
        lemma_same_read(a, b, addr.raw as int, 16);
        lemma_same_read(a, b, addr.raw + 16, size as int);
        assert forall|k: int| 0 <= k < rest.len() implies same_within(
            a,
            b,
            (#[trigger] rest[k]).0,
            rest[k].1,
        ) by {
            assert(s[k + 1] == rest[k]);
        }
        lemma_chain_frame(a, b, chunk.next, (fuel - 1) as nat);
    }
}

/// A chain that can be read with some fuel reads the same with more.
pub proof fn lemma_chain_fuel(m: Image, addr: MaybeU64, a: nat, b: nat)
    requires
        a <= b,
        m.chain(addr, a) is Ok,
    ensures
        m.chain(addr, b) == m.chain(addr, a),
        spans(m, addr, b) == spans(m, addr, a),
        m.last_extent(addr, b) == m.last_extent(addr, a),
    decreases a,
{
    if addr.raw != 0 {
        let chunk = m.extent(addr.raw)->Ok_0;
        lemma_chain_fuel(m, chunk.next, (a - 1) as nat, (b - 1) as nat);
    }
}

/// A freshly written extent reads back.
pub proof fn lemma_put_extent(m: Image, addr: u64, chunk: Chunk)
    requires
        m.format.block_size_bytes > 0,
        chunk.data.len() <= u64::MAX,
        addr + aligned(
            16 + chunk.data.len() as int,
            m.format.block_size_bytes as int,
        ) <= usize::MAX,
        m.put_clear(addr as int, chunk_bytes(chunk)).1 is Ok,
    ensures
        ({
            let m2 = m.put_clear(addr as int, chunk_bytes(chunk)).0;
            &&& m2.extent(addr) == Ok::<_, XHFSError>(chunk)
            &&& m2.extent_meta(addr) is Ok
            &&& m2.extent_meta(addr)->Ok_0.full_aligned_region.start.raw == addr
            &&& m2.extent_meta(addr)->Ok_0.full_aligned_region.end.raw == addr + aligned(
                16 + chunk.data.len() as int,
                m.format.block_size_bytes as int,
            )
            &&& same_outside(m, m2, addr as int, addr + 16 + chunk.data.len())
        }),
{
    let bytes = chunk_bytes(chunk);
    let n = bytes.len() as int;
    let m2 = m.put_clear(addr as int, bytes).0;
    lemma_le64(chunk.data.len() as u64);
    lemma_le64(chunk.next.raw);
    lemma_aligned(16 + chunk.data.len() as int, m.format.block_size_bytes as int);
    lemma_clear_put(m.cipher, m.disk, addr as int, bytes);
    let p = plain(m2.cipher, m2.disk);
    assert(p.subrange(addr as int, addr + n) =~= bytes);
    lemma_clear_get(m2.cipher, m2.disk, addr as int, 16);
    lemma_clear_get(m2.cipher, m2.disk, addr + 16, chunk.data.len() as int);
    let head = p.subrange(addr as int, addr + 16);
    assert(head.subrange(0, 8) =~= le64(chunk.data.len() as u64)) by {
        assert(head.subrange(0, 8) =~= bytes.subrange(0, 8));
        assert(bytes.subrange(0, 8) =~= le64(chunk.data.len() as u64));
    }
    assert(head.subrange(8, 16) =~= le64(chunk.next.raw)) by {
        assert(head.subrange(8, 16) =~= bytes.subrange(8, 16));
        assert(bytes.subrange(8, 16) =~= le64(chunk.next.raw));
    }
    assert(p.subrange(addr + 16, addr + 16 + chunk.data.len()) =~= chunk.data) by {
        assert(bytes.subrange(16, n) =~= chunk.data);
        assert(p.subrange(addr + 16, addr + n) =~= bytes.subrange(16, n));
    }
    if chunk.data.len() == 0 {
        assert(crypted(m2.cipher, addr + 16, Seq::empty()) =~= chunk.data);
    }
}

} // verus!
