//! Freeing and extending contents.
use crate::addr::{maybe, MaybeU64};
use crate::codec::{le64, lemma_le64, u64_at};
use crate::device::disk::{lemma_clear_get, lemma_clear_put, plain};
use crate::error::XHFSError;
use crate::xhfs::bitmap::{bit_at, bits_bytes, lemma_fill_bits, Bits};
use crate::xhfs::block_laws::{
    is_block, lemma_bits_wf, lemma_block_in_slot, lemma_block_order, lemma_place, lemma_put_bits,
    mapped, same_but_marks, taken,
};
use crate::xhfs::chain_laws::{
    apart, lemma_byte_offset, lemma_marks_same, lemma_same_format, lemma_spans_apart, owned,
    places, same_meta, sound_content, span_home, span_is, stored_data_reads_back, uses,
};
use crate::xhfs::ds::Chunk;
use crate::xhfs::extent::lemma_aligned;
use crate::xhfs::image::Image;
use crate::xhfs::laws::{
    lemma_chain_frame, lemma_chain_fuel, lemma_extent_read, lemma_same_read, same_outside,
    same_within, spans,
};
use crate::xhfs::store::freed_blocks;
use crate::xhfs::store_laws::in_spans;
use crate::xhfs::volume::{lemma_addressable, lemma_format};
use vstd::prelude::*;

verus! {

/// Writing a bitmap that was just read cannot fail.
pub proof fn lemma_can_put_bits(m: Image, g: int, bits: Bits)
    requires
        m.format.usable(),
        0 <= g < m.format.group_count,
        m.data_bits(g) is Ok,
        bits.wf(),
        bits.len == m.format.param_data_block_count_per_group,
    ensures
        m.put_raw(m.data_bitmap_at(g), bits_bytes(bits)).1 is Ok,
{
    lemma_le64(bits.len as u64);
    lemma_format(m);
    lemma_addressable(m, g, g);
}

/// Giving back a stretch of whole blocks clears their marks and changes nothing else.
pub proof fn lemma_mark_reusable(m: Image, s: (int, int), g: int, b: int, c: int)
    requires
        m.format.usable(),
        mapped(m),
        span_is(m, s, g, b, c),
        c >= 1,
    ensures
        ({
            let (m2, r) = m.mark_reusable(s.0 as u64, s.1 - s.0);
            &&& r is Ok
            &&& mapped(m2)
            &&& same_but_marks(m, m2)
            &&& forall|h: int, k: int|
                is_block(m, h, k) ==> #[trigger] taken(m2, h, k) == (taken(m, h, k) && !(h == g && b
                    <= k < b + c))
        }),
{
    let f = m.format;
    let bs = f.block_size_bytes as int;
    lemma_format(m);
    lemma_addressable(m, g, g);
    lemma_block_order(m, g, b, b + c);
    lemma_place(m, g, s.0 - m.group_at(g));
    assert((s.0 - m.data_at(g)) / bs == b) by {
        vstd::arithmetic::div_mod::lemma_fundamental_div_mod_converse(b * bs, bs, b, 0);
    }
    let size = s.1 - s.0;
    assert(size == c * bs);
    assert(c * bs >= 1) by (nonlinear_arith)
        requires
            c >= 1,
            bs >= 1,
    ;
    vstd::arithmetic::div_mod::lemma_fundamental_div_mod_converse(c * bs + bs - 1, bs, c, bs - 1);
    assert(freed_blocks(size, bs) == c);
    let bits = m.data_bits(g)->Ok_0;
    lemma_bits_wf(m, g);
    lemma_fill_bits(bits.raw, b, b + c, false);
    let new = bits.fill(b, b + c, false);
    lemma_can_put_bits(m, g, new);
    lemma_put_bits(m, g, new);
    let m2 = m.mark_reusable(s.0 as u64, size).0;
    assert forall|h: int, k: int| is_block(m, h, k) implies #[trigger] taken(m2, h, k) == (taken(
        m,
        h,
        k,
    ) && !(h == g && b <= k < b + c)) by {
        if h == g {
            assert(bit_at(new.raw, k) == if b <= k < b + c {
                false
            } else {
                bit_at(bits.raw, k)
            });
        } else {
            assert(m2.data_bits(h) == m.data_bits(h));
        }
    }
    assert forall|h: int| 0 <= h < m2.format.group_count implies (#[trigger] m2.data_bits(h)) is Ok
        && m2.data_bits(h)->Ok_0.len == m2.format.param_data_block_count_per_group by {
        if h != g {
            assert(m2.data_bits(h) == m.data_bits(h));
        }
    }
}

/// Stretches of data blocks are untouched when only marks change.
pub proof fn lemma_marks_leave_data(a: Image, b: Image, s: (int, int))
    requires
        a.format.usable(),
        same_but_marks(a, b),
        span_home(a, s),
    ensures
        same_within(a, b, s.0, s.1),
{
    let (g, x, n) = choose|g: int, x: int, n: int| span_is(a, s, g, x, n);
    lemma_format(a);
    lemma_addressable(a, g, g);
    lemma_block_order(a, g, x, x + n);
    assert forall|i: int| 0 <= i < a.disk.len() && s.0 <= i < s.1 implies a.disk[i]
        == b.disk[i] by {
        lemma_place(a, g, i - a.group_at(g));
    }
}

/// An extent takes at least one block.
proof fn lemma_span_nonempty(m: Image, addr: MaybeU64, fuel: nat)
    requires
        m.format.usable(),
        addr.raw != 0,
        m.chain(addr, fuel) is Ok,
    ensures
        ({
            let s = spans(m, addr, fuel)[0];
            &&& s.0 == addr.raw
            &&& s.0 + 16 <= s.1 <= usize::MAX
            &&& s.1 - s.0 == m.extent_meta(addr.raw)->Ok_0.full_aligned_region.span()
        }),
{
    lemma_format(m);
    lemma_extent_read(m, addr.raw);
    let head = m.clear(addr.raw as int, 16)->Ok_0;
    lemma_aligned(16 + u64_at(head, 0), m.format.block_size_bytes as int);
}

/// Freeing a content that can be read succeeds, clears the marks of its blocks and changes
/// nothing else.
pub proof fn lemma_free_chain(m: Image, addr: MaybeU64, fuel: nat)
    requires
        m.format.usable(),
        mapped(m),
        m.chain(addr, fuel) is Ok,
        forall|k: int|
            0 <= k < spans(m, addr, fuel).len() ==> span_home(m, #[trigger] spans(m, addr, fuel)[k]),
    ensures
        ({
            let (m2, r) = m.free_chain(addr, fuel);
            &&& r is Ok
            &&& mapped(m2)
            &&& same_but_marks(m, m2)
            &&& forall|g: int, b: int|
                is_block(m, g, b) ==> #[trigger] taken(m2, g, b) == (taken(m, g, b) && !uses(
                    m,
                    spans(m, addr, fuel),
                    g,
                    b,
                ))
        }),
    decreases fuel,
{
    let all = spans(m, addr, fuel);
    if addr.raw != 0 {
        lemma_format(m);
        let chunk = m.extent(addr.raw)->Ok_0;
        lemma_extent_read(m, addr.raw);
        lemma_span_nonempty(m, addr, fuel);
        let meta = m.extent_meta(addr.raw)->Ok_0;
        let rest = spans(m, chunk.next, (fuel - 1) as nat);
        let s = all[0];
        assert(span_home(m, s));
        let (g, b, c) = choose|g: int, b: int, c: int| span_is(m, s, g, b, c);
        assert(c >= 1) by (nonlinear_arith)
            requires
                s.1 == s.0 + c * m.format.block_size_bytes,
                s.1 > s.0,
                m.format.block_size_bytes > 0,
        ;
        lemma_mark_reusable(m, s, g, b, c);
        let m1 = m.mark_reusable(addr.raw, meta.full_aligned_region.span() as int).0;
        assert forall|k: int| 0 <= k < rest.len() implies same_within(
            m,
            m1,
            (#[trigger] rest[k]).0,
            rest[k].1,
        ) by {
            assert(all[k + 1] == rest[k]);
            lemma_marks_leave_data(m, m1, rest[k]);
        }
        lemma_chain_frame(m, m1, chunk.next, (fuel - 1) as nat);
        assert forall|k: int| 0 <= k < rest.len() implies span_home(m1, #[trigger] rest[k]) by {
            assert(all[k + 1] == rest[k]);
            let (x, y, z) = choose|x: int, y: int, z: int| span_is(m, rest[k], x, y, z);
            assert(span_is(m1, rest[k], x, y, z));
        }
        lemma_free_chain(m1, chunk.next, (fuel - 1) as nat);
        let m2 = m.free_chain(addr, fuel).0;
        assert forall|h: int, k: int| is_block(m, h, k) implies #[trigger] taken(m2, h, k) == (
        taken(m, h, k) && !uses(m, all, h, k)) by {
            let x = m.block_at(h, k);
            assert(is_block(m1, h, k));
            assert(m1.block_at(h, k) == x);
            lemma_block_in_slot(m, (s.0, c), g, b, h, k);
            assert(taken(m2, h, k) == (taken(m1, h, k) && !uses(m1, rest, h, k)));
            if in_spans(all, x) {
                let j = choose|j: int| 0 <= j < all.len() && (#[trigger] all[j]).0 <= x < all[j].1;
                if j > 0 {
                    assert(rest[j - 1] == all[j]);
                    assert(in_spans(rest, x));
                }
            }
            if in_spans(rest, x) {
                let j = choose|j: int| 0 <= j < rest.len() && (#[trigger] rest[j]).0 <= x < rest[j].1;
                assert(all[j + 1] == rest[j]);
                assert(in_spans(all, x));
            }
            if s.0 <= x < s.1 {
                assert(in_spans(all, x));
            }
        }
    } else {
        assert forall|g: int, b: int| is_block(m, g, b) implies !uses(m, all, g, b) by {}
    }
}

/// Freeing a sound content gives back exactly its blocks.
pub proof fn freed_blocks_are_free(m: Image, addr: MaybeU64)
    requires
        m.format.usable(),
        mapped(m),
        sound_content(m, addr),
    ensures
        ({
            let (m2, r) = m.free(addr);
            &&& r is Ok
            &&& mapped(m2)
            &&& same_but_marks(m, m2)
            &&& forall|g: int, b: int|
                is_block(m, g, b) ==> #[trigger] taken(m2, g, b) == (taken(m, g, b) && !uses(
                    m,
                    places(m, addr),
                    g,
                    b,
                ))
        }),
{
    reveal(Image::free);
    reveal(Image::content);
    lemma_free_chain(m, addr, m.disk.len());
}

/// Stretches that start on the disk and lie apart are no more than the disk has bytes.
pub proof fn lemma_apart_short(s: Seq<(int, int)>, n: nat)
    requires
        apart(s),
        forall|k: int| 0 <= k < s.len() ==> 0 <= (#[trigger] s[k]).0 < n && s[k].0 < s[k].1,
    ensures
        s.len() <= n,
{
    let starts = Seq::new(s.len(), |k: int| s[k].0);
    assert(starts.no_duplicates()) by {
        assert forall|i: int, j: int|
            0 <= i < starts.len() && 0 <= j < starts.len() && i != j implies starts[i]
            != starts[j] by {
            assert(s[i].1 <= s[j].0 || s[j].1 <= s[i].0);
        }
    }
    starts.unique_seq_to_set();
    let all = vstd::set_lib::set_int_range(0, n as int);
    vstd::set_lib::lemma_int_range(0, n as int);
    assert forall|x: int| starts.to_set().contains(x) implies all.contains(x) by {
        let k = choose|k: int| 0 <= k < starts.len() && starts[k] == x;
        assert(s[k].0 == x);
    }
    vstd::set_lib::lemma_len_subset(starts.to_set(), all);
}

/// Where the extents of a chain that can be read lie.
pub proof fn lemma_spans_ranges(m: Image, addr: MaybeU64, fuel: nat)
    requires
        m.format.usable(),
        m.chain(addr, fuel) is Ok,
    ensures
        forall|k: int|
            0 <= k < spans(m, addr, fuel).len() ==> {
                let s = #[trigger] spans(m, addr, fuel)[k];
                0 < s.0 && s.0 + 16 <= s.1 && s.0 + 16 <= m.disk.len()
            },
        spans(m, addr, fuel).len() <= fuel,
    decreases fuel,
{
    if addr.raw != 0 {
        let chunk = m.extent(addr.raw)->Ok_0;
        lemma_format(m);
        lemma_extent_read(m, addr.raw);
        lemma_span_nonempty(m, addr, fuel);
        let rest = spans(m, chunk.next, (fuel - 1) as nat);
        lemma_spans_ranges(m, chunk.next, (fuel - 1) as nat);
        assert forall|k: int| 0 <= k < spans(m, addr, fuel).len() implies {
            let s = #[trigger] spans(m, addr, fuel)[k];
            0 < s.0 && s.0 + 16 <= s.1 && s.0 + 16 <= m.disk.len()
        } by {
            if k > 0 {
                assert(rest[k - 1] == spans(m, addr, fuel)[k]);
            }
        }
    }
}

/// A chain needs no more fuel than it has extents.
pub proof fn lemma_chain_tight(m: Image, addr: MaybeU64, fuel: nat)
    requires
        m.format.usable(),
        m.chain(addr, fuel) is Ok,
    ensures
        m.chain(addr, spans(m, addr, fuel).len()) == m.chain(addr, fuel),
        spans(m, addr, spans(m, addr, fuel).len()) == spans(m, addr, fuel),
    decreases fuel,
{
    if addr.raw != 0 {
        let chunk = m.extent(addr.raw)->Ok_0;
        lemma_format(m);
        lemma_extent_read(m, addr.raw);
        lemma_chain_tight(m, chunk.next, (fuel - 1) as nat);
    }
}

/// Linking the last extent of a chain to another chain joins their contents.
proof fn lemma_relink(
    a: Image,
    b: Image,
    addr: MaybeU64,
    fuel: nat,
    last: u64,
    next: MaybeU64,
    f2: nat,
)
    requires
        a.format.usable(),
        addr.raw != 0,
        a.chain(addr, fuel) is Ok,
        a.last_extent(addr, fuel) == Ok::<_, XHFSError>(maybe(last)),
        apart(spans(a, addr, fuel)),
        b == a.put_clear(last + 8, le64(next.raw)).0,
        a.put_clear(last + 8, le64(next.raw)).1 is Ok,
        b.chain(next, f2) is Ok,
    ensures
        b.chain(addr, fuel + f2) == Ok::<_, XHFSError>(
            a.chain(addr, fuel)->Ok_0 + b.chain(next, f2)->Ok_0,
        ),
        spans(b, addr, fuel + f2) == spans(a, addr, fuel) + spans(b, next, f2),
        exists|k: int|
            0 <= k < spans(a, addr, fuel).len() && (#[trigger] spans(a, addr, fuel)[k]).0 == last,
    decreases fuel,
{
    lemma_format(a);
    lemma_le64(next.raw);
    let chunk = a.extent(addr.raw)->Ok_0;
    lemma_extent_read(a, addr.raw);
    lemma_span_nonempty(a, addr, fuel);
    let all = spans(a, addr, fuel);
    let rest = spans(a, chunk.next, (fuel - 1) as nat);
    let data = chunk.data;
    lemma_clear_put(a.cipher, a.disk, last + 8, le64(next.raw));
    if chunk.next.raw == 0 {
        assert(last == addr.raw);
        assert(all[0].0 == last);
        // the header keeps its size and gets the new link
        lemma_clear_get(a.cipher, a.disk, last as int, 16);
        lemma_clear_get(b.cipher, b.disk, last as int, 16);
        let p = plain(a.cipher, a.disk);
        let q = plain(b.cipher, b.disk);
        let ha = p.subrange(last as int, last + 16);
        let hb = q.subrange(last as int, last + 16);
        assert(hb.subrange(0, 8) =~= ha.subrange(0, 8));
        assert(hb.subrange(8, 16) =~= le64(next.raw));
        lemma_same_read(a, b, last + 16, data.len() as int);
        assert(b.extent(last) == Ok::<_, XHFSError>(Chunk { next, data }));
        lemma_chain_fuel(b, next, f2, (fuel + f2 - 1) as nat);
        assert(a.chain(addr, fuel)->Ok_0 =~= data);
        assert(rest =~= Seq::empty());
        assert(spans(b, addr, fuel + f2) =~= all + spans(b, next, f2));
    } else {
        assert forall|j: int, k: int|
            0 <= j < rest.len() && 0 <= k < rest.len() && j != k implies (#[trigger] rest[j]).1 <= (
        #[trigger] rest[k]).0 || rest[k].1 <= rest[j].0 by {
            assert(all[j + 1] == rest[j]);
            assert(all[k + 1] == rest[k]);
        }
        lemma_relink(a, b, chunk.next, (fuel - 1) as nat, last, next, f2);
        let k = choose|k: int| 0 <= k < rest.len() && (#[trigger] rest[k]).0 == last;
        assert(all[k + 1] == rest[k]);
        lemma_spans_ranges(a, chunk.next, (fuel - 1) as nat);
        assert(rest[k].0 + 16 <= rest[k].1);
        assert(all[0].1 <= all[k + 1].0 || all[k + 1].1 <= all[0].0);
        lemma_same_read(a, b, addr.raw as int, 16);
        let head = a.clear(addr.raw as int, 16)->Ok_0;
        lemma_aligned(16 + u64_at(head, 0), a.format.block_size_bytes as int);
        lemma_same_read(a, b, addr.raw + 16, data.len() as int);
        let tail = b.chain(next, f2)->Ok_0;
        let ra = a.chain(chunk.next, (fuel - 1) as nat)->Ok_0;
        assert(data + (ra + tail) =~= (data + ra) + tail);
        assert(seq![all[0]] + (rest + spans(b, next, f2)) =~= all + spans(b, next, f2));
    }
}

/// Stretches that use no common block have no common byte.
pub open spec fn disjoint(m: Image, a: Seq<(int, int)>, b: Seq<(int, int)>) -> bool {
    forall|g: int, c: int|
        is_block(m, g, c) && #[trigger] uses(m, a, g, c) ==> !uses(m, b, g, c)
}

/// Two stretches of disjoint families lie apart.
pub proof fn lemma_disjoint_apart(
    m: Image,
    a: Seq<(int, int)>,
    b: Seq<(int, int)>,
    j: int,
    k: int,
)
    requires
        m.format.usable(),
        0 <= j < a.len(),
        0 <= k < b.len(),
        span_home(m, a[j]),
        span_home(m, b[k]),
        a[j].0 < a[j].1,
        b[k].0 < b[k].1,
        disjoint(m, a, b),
    ensures
        a[j].1 <= b[k].0 || b[k].1 <= a[j].0,
{
    assert forall|g: int, c: int|
        is_block(m, g, c) && a[j].0 <= #[trigger] m.block_at(g, c) < a[j].1 implies !(b[k].0
        <= m.block_at(g, c) < b[k].1) by {
        assert(in_spans(a, m.block_at(g, c)));
        assert(uses(m, a, g, c));
        if b[k].0 <= m.block_at(g, c) < b[k].1 {
            assert(in_spans(b, m.block_at(g, c)));
            assert(uses(m, b, g, c));
        }
    }
    lemma_spans_apart(m, a[j], b[k]);
}

/// A block is used by joined stretches if one of them uses it.
pub proof fn lemma_join_uses(m: Image, a: Seq<(int, int)>, b: Seq<(int, int)>, g: int, c: int)
    ensures
        uses(m, a + b, g, c) == (uses(m, a, g, c) || uses(m, b, g, c)),
{
    let x = m.block_at(g, c);
    let all = a + b;
    if in_spans(a, x) {
        let j = choose|j: int| 0 <= j < a.len() && (#[trigger] a[j]).0 <= x < a[j].1;
        assert(all[j] == a[j]);
    }
    if in_spans(b, x) {
        let j = choose|j: int| 0 <= j < b.len() && (#[trigger] b[j]).0 <= x < b[j].1;
        assert(all[j + a.len()] == b[j]);
    }
    if in_spans(all, x) {
        let j = choose|j: int| 0 <= j < all.len() && (#[trigger] all[j]).0 <= x < all[j].1;
        if j < a.len() {
            assert(a[j] == all[j]);
        } else {
            assert(b[j - a.len()] == all[j]);
        }
    }
}

/// Two families that are disjoint and each apart are apart together.
proof fn lemma_join_apart(m: Image, a: Seq<(int, int)>, b: Seq<(int, int)>)
    requires
        m.format.usable(),
        apart(a),
        apart(b),
        disjoint(m, a, b),
        forall|k: int| 0 <= k < a.len() ==> span_home(m, #[trigger] a[k]) && a[k].0 < a[k].1,
        forall|k: int| 0 <= k < b.len() ==> span_home(m, #[trigger] b[k]) && b[k].0 < b[k].1,
    ensures
        apart(a + b),
{
    let new = a + b;
    let n = a.len() as int;
    assert forall|j: int, k: int|
        0 <= j < new.len() && 0 <= k < new.len() && j != k implies (#[trigger] new[j]).1 <= (
    #[trigger] new[k]).0 || new[k].1 <= new[j].0 by {
        if j < n && k < n {
            assert(a[j].1 <= a[k].0 || a[k].1 <= a[j].0);
        } else if j >= n && k >= n {
            assert(b[j - n].1 <= b[k - n].0 || b[k - n].1 <= b[j - n].0);
        } else if j < n {
            assert(span_home(m, a[j]));
            assert(span_home(m, b[k - n]));
            lemma_disjoint_apart(m, a, b, j, k - n);
        } else {
            assert(span_home(m, a[k]));
            assert(span_home(m, b[j - n]));
            lemma_disjoint_apart(m, a, b, k, j - n);
        }
    }
}

/// Data that is appended to a sound content follows it: the whole reads as the old content
/// and then the data. The whole is sound; every other sound content reads as before.
#[verifier::spinoff_prover]
#[verifier::rlimit(60)]
pub proof fn appended_data_follows(m: Image, addr: MaybeU64, data: Seq<u8>)
    requires
        m.format.usable(),
        mapped(m),
        sound_content(m, addr),
        m.append(addr, data).1 is Ok,
    ensures
        ({
            let m2 = m.append(addr, data).0;
            let a = m.append(addr, data).1->Ok_0;
            let old = places(m, addr);
            let new = places(m2, a);
            &&& m2.content(a) == Ok::<_, XHFSError>(m.content(addr)->Ok_0 + data)
            &&& sound_content(m2, a)
            &&& addr.raw != 0 ==> a == addr
            &&& same_meta(m, m2)
            &&& mapped(m2)
            &&& forall|g: int, b: int|
                is_block(m, g, b) && #[trigger] taken(m, g, b) ==> taken(m2, g, b)
            &&& forall|g: int, b: int|
                is_block(m, g, b) && #[trigger] uses(m, new, g, b) ==> uses(m, old, g, b) || !taken(
                    m,
                    g,
                    b,
                )
            &&& forall|g: int, b: int|
                is_block(m, g, b) && #[trigger] uses(m, old, g, b) ==> uses(m, new, g, b)
            &&& forall|s: Seq<(int, int)>, k: int|
                owned(m, s) && disjoint(m, s, old) && 0 <= k < s.len() ==> same_within(
                    m,
                    m2,
                    (#[trigger] s[k]).0,
                    s[k].1,
                )
        }),
{
    reveal(Image::append);
    reveal(Image::content);
    let (m1, r1) = m.store(data);
    stored_data_reads_back(m, data);
    let next = r1->Ok_0;
    let (m2, r2) = m.append(addr, data);
    let a = r2->Ok_0;
    let fuel = m.disk.len();
    let old = places(m, addr);
    let fresh = places(m1, next);
    lemma_format(m);
    lemma_same_format(m, m1);
    lemma_same_format(m, m2);
    if addr.raw == 0 {
        assert(m.content(addr)->Ok_0 + data =~= data);
        assert(old =~= Seq::empty());
        assert forall|g: int, b: int| is_block(m, g, b) implies !(#[trigger] uses(
            m,
            old,
            g,
            b,
        )) by {}
    } else {
        assert forall|k: int| 0 <= k < old.len() implies same_within(
            m,
            m1,
            (#[trigger] old[k]).0,
            old[k].1,
        ) by {}
        lemma_chain_frame(m, m1, addr, fuel);
        let last = m.last_extent(addr, fuel)->Ok_0.raw;
        lemma_last_is_some(m, addr, fuel);
        assert(disjoint(m1, old, fresh)) by {
            assert forall|g: int, c: int|
                is_block(m1, g, c) && #[trigger] uses(m1, old, g, c) implies !uses(
                m1,
                fresh,
                g,
                c,
            ) by {
                assert(uses(m, old, g, c));
                assert(taken(m, g, c));
                assert(uses(m, fresh, g, c) == uses(m1, fresh, g, c));
            }
        }
        lemma_le64(next.raw);
        lemma_spans_ranges(m1, addr, fuel);
        lemma_spans_ranges(m1, next, fuel);
        lemma_last_in_spans(m1, addr, fuel);
        let kk = choose|k: int| 0 <= k < old.len() && (#[trigger] old[k]).0 == last;
        assert(span_home(m, old[kk]));
        assert(same_outside(m1, m2, last + 8, last + 16));
        assert forall|k: int| 0 <= k < fresh.len() implies same_within(
            m1,
            m2,
            (#[trigger] fresh[k]).0,
            fresh[k].1,
        ) by {
            assert(span_home(m1, fresh[k]));
            assert(span_home(m1, old[kk]));
            lemma_disjoint_apart(m1, old, fresh, kk, k);
        }
        lemma_chain_frame(m1, m2, next, fuel);
        lemma_relink(m1, m2, addr, fuel, last, next, fuel);
        let new = old + fresh;
        assert(spans(m2, addr, fuel + fuel) == new);
        lemma_join_apart(m1, old, fresh);
        assert forall|k: int| 0 <= k < new.len() implies 0 <= (#[trigger] new[k]).0 < fuel
            && new[k].0 < new[k].1 by {
            if k < old.len() {
                assert(0 < old[k].0);
            } else {
                assert(0 < fresh[k - old.len()].0);
            }
        }
        lemma_apart_short(new, fuel);
        lemma_chain_tight(m2, addr, fuel + fuel);
        lemma_chain_fuel(m2, addr, new.len(), fuel);
        assert(places(m2, addr) == new);
        // marks are as the store left them
        assert forall|i: int|
            0 <= i < m1.disk.len() && i % m.format.stride()
                < m.format.data_at() implies #[trigger] m1.disk[i] == m2.disk[i] by {
            if last + 8 <= i < last + 16 {
                lemma_byte_offset(m, old[kk], i);
            }
        }
        assert forall|g: int| 0 <= g < m.format.group_count implies #[trigger] m2.data_bits(g)
            == m1.data_bits(g) by {
            lemma_marks_same(m1, m2, g);
        }
        assert forall|g: int| 0 <= g < m2.format.group_count implies (#[trigger] m2.data_bits(
            g,
        )) is Ok && m2.data_bits(g)->Ok_0.len == m2.format.param_data_block_count_per_group by {
            assert(m2.data_bits(g) == m1.data_bits(g));
        }
        assert forall|g: int, b: int| is_block(m, g, b) implies (#[trigger] taken(m2, g, b))
            == taken(m1, g, b) by {
            assert(m2.data_bits(g) == m1.data_bits(g));
        }
        assert forall|g: int, b: int| is_block(m, g, b) implies #[trigger] uses(m, new, g, b) == (
        uses(m, old, g, b) || uses(m, fresh, g, b)) by {
            lemma_join_uses(m, old, fresh, g, b);
        }
        assert(owned(m2, new)) by {
            assert forall|k: int| 0 <= k < new.len() implies span_home(m2, #[trigger] new[k]) by {
                if k < old.len() {
                    assert(span_home(m, old[k]));
                } else {
                    assert(span_home(m1, fresh[k - old.len()]));
                    assert(span_home(m, fresh[k - old.len()]));
                }
                assert(span_home(m, new[k]));
            }
            assert forall|g: int, b: int|
                is_block(m2, g, b) && #[trigger] uses(m2, new, g, b) implies taken(m2, g, b) by {
                assert(is_block(m, g, b));
                assert(uses(m, new, g, b));
                if uses(m, old, g, b) {
                    assert(taken(m, g, b));
                } else {
                    assert(uses(m1, fresh, g, b));
                    assert(taken(m1, g, b));
                }
            }
        }
        assert forall|s: Seq<(int, int)>, k: int|
            owned(m, s) && disjoint(m, s, old) && 0 <= k < s.len() implies same_within(
            m,
            m2,
            (#[trigger] s[k]).0,
            s[k].1,
        ) by {
            assert(same_within(m, m1, s[k].0, s[k].1));
            assert(span_home(m, s[k]));
            if s[k].0 < s[k].1 {
                lemma_disjoint_apart(m, s, old, k, kk);
            }
        }
    }
}

/// A chain with an address has a last extent.
proof fn lemma_last_is_some(m: Image, addr: MaybeU64, fuel: nat)
    requires
        m.format.usable(),
        addr.raw != 0,
        m.chain(addr, fuel) is Ok,
    ensures
        m.last_extent(addr, fuel) is Ok,
        m.last_extent(addr, fuel)->Ok_0.raw != 0,
    decreases fuel,
{
    lemma_format(m);
    let chunk = m.extent(addr.raw)->Ok_0;
    lemma_extent_read(m, addr.raw);
    if chunk.next.raw != 0 {
        lemma_last_is_some(m, chunk.next, (fuel - 1) as nat);
    }
}

/// The last extent is one of the extents.
proof fn lemma_last_in_spans(m: Image, addr: MaybeU64, fuel: nat)
    requires
        m.format.usable(),
        addr.raw != 0,
        m.chain(addr, fuel) is Ok,
    ensures
        m.last_extent(addr, fuel) is Ok,
        exists|k: int|
            0 <= k < spans(m, addr, fuel).len() && (#[trigger] spans(m, addr, fuel)[k]).0
                == m.last_extent(addr, fuel)->Ok_0.raw,
    decreases fuel,
{
    lemma_format(m);
    let chunk = m.extent(addr.raw)->Ok_0;
    lemma_extent_read(m, addr.raw);
    let rest = spans(m, chunk.next, (fuel - 1) as nat);
    let all = spans(m, addr, fuel);
    if chunk.next.raw != 0 {
        lemma_last_in_spans(m, chunk.next, (fuel - 1) as nat);
        let k = choose|k: int|
            0 <= k < rest.len() && (#[trigger] rest[k]).0 == m.last_extent(
                chunk.next,
                (fuel - 1) as nat,
            )->Ok_0.raw;
        assert(all[k + 1] == rest[k]);
    } else {
        assert(all[0].0 == addr.raw);
    }
}

} // verus!
