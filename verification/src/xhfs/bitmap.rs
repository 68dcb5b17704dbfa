//! Bitmaps of free and taken slots.
use crate::codec::{get_u64, le64, lemma_le64, push_bytes, push_u64, u64_at, zeros};
use crate::error::{end_of, range_end, seen, Fault, Record};
use bitvec::order::Msb0;
use bitvec::vec::BitVec;
use vstd::prelude::*;
use vstd::std_specs::bits::*;

verus! {

/// The bits of a bitmap, packed in bytes.
#[verifier::external_body]
pub struct PackedBits {
    inner: BitVec<u8, Msb0>,
}

/// The bytes in which the bits are packed, the first bit highest in the first byte.
pub uninterp spec fn packed_raw(v: PackedBits) -> Seq<u8>;

/// The number of bits.
pub uninterp spec fn packed_len(v: PackedBits) -> nat;

/// Bit `j` of a byte, counted from the lowest.
pub open spec fn bit_of(b: u8, j: u8) -> bool {
    (b >> j) & 1u8 == 1u8
}

/// Bit `i` of packed bytes.
pub open spec fn bit_at(raw: Seq<u8>, i: int) -> bool {
    bit_of(raw[i / 8], (7 - i % 8) as u8)
}

/// `b` with bit `j`, counted from the lowest, made `value`.
pub open spec fn put_bit(b: u8, j: u8, value: bool) -> u8 {
    if value {
        b | (1u8 << j)
    } else {
        b & !(1u8 << j)
    }
}

/// `raw` with bit `i` made `value`.
pub open spec fn with_bit(raw: Seq<u8>, i: int, value: bool) -> Seq<u8> {
    raw.update(i / 8, put_bit(raw[i / 8], (7 - i % 8) as u8, value))
}

/// `raw` with the bits from `start` to before `end` made `value`.
pub open spec fn fill_bits(raw: Seq<u8>, start: int, end: int, value: bool) -> Seq<u8>
    decreases end - start,
{
    if end <= start {
        raw
    } else {
        with_bit(fill_bits(raw, start, end - 1, value), end - 1, value)
    }
}

/// Number of bytes that hold `n` bits.
pub open spec fn byte_count(n: nat) -> nat {
    ((n + 7) / 8) as nat
}

/// The value of a bitmap.
pub struct Bits {
    pub len: nat,
    pub raw: Seq<u8>,
}

impl Bits {
    /// The bytes are those that the bits need.
    pub open spec fn wf(self) -> bool {
        self.raw.len() == byte_count(self.len)
    }

    pub open spec fn get(self, i: int) -> bool {
        bit_at(self.raw, i)
    }

    pub open spec fn set(self, i: int, value: bool) -> Bits {
        Bits { raw: with_bit(self.raw, i, value), ..self }
    }

    pub open spec fn fill(self, start: int, end: int, value: bool) -> Bits {
        Bits { raw: fill_bits(self.raw, start, end, value), ..self }
    }

    /// The same bits with the unused bits of the last byte cleared.
    pub open spec fn trimmed(self) -> Bits {
        Bits { raw: fill_bits(self.raw, self.len as int, 8 * self.raw.len() as int, false), ..self }
    }
}

/// `BitVec::new` makes an empty vector.
#[verifier::external_body]
fn packed_new() -> (r: PackedBits)
    ensures
        packed_raw(r) == Seq::<u8>::empty(),
        packed_len(r) == 0,
{
    PackedBits { inner: BitVec::new() }
}

/// `BitVec::resize` on an empty vector with `false`: the new elements are zeroed. It
/// panics above `usize::MAX / 8` bits. What it does to a vector that holds bits is not
/// stated.
#[verifier::external_body]
fn packed_resize(v: &mut PackedBits, n: usize, value: bool)
    requires
        n <= usize::MAX / 8,
    ensures
        packed_len(*final(v)) == n,
        packed_len(*old(v)) == 0 && !value ==> packed_raw(*final(v)) == zeros(
            byte_count(n as nat),
        ),
{
    v.inner.resize(n, value)
}

/// `BitSlice::len` gives the number of bits.
#[verifier::external_body]
fn packed_count(v: &PackedBits) -> (r: usize)
    ensures
        r == packed_len(*v),
{
    v.inner.len()
}

/// `BitSlice::set` makes one bit `value` and touches no other. It panics out of bounds.
#[verifier::external_body]
fn packed_set(v: &mut PackedBits, i: usize, value: bool)
    requires
        i < packed_len(*old(v)),
    ensures
        packed_len(*final(v)) == packed_len(*old(v)),
        packed_raw(*final(v)) == with_bit(packed_raw(*old(v)), i as int, value),
{
    v.inner.set(i, value)
}

/// `BitSlice::get` gives one bit, and nothing out of bounds.
#[verifier::external_body]
fn packed_get(v: &PackedBits, i: usize) -> (r: Option<bool>)
    ensures
        r == if i < packed_len(*v) {
            Some(bit_at(packed_raw(*v), i as int))
        } else {
            None
        },
{
    match v.inner.get(i) {
        Some(b) => Some(*b),
        None => None,
    }
}

/// `BitSlice::fill` on a range makes each bit of it `value` and touches no other.
#[verifier::external_body]
fn packed_fill(v: &mut PackedBits, start: usize, end: usize, value: bool)
    requires
        start <= end <= packed_len(*old(v)),
    ensures
        packed_len(*final(v)) == packed_len(*old(v)),
        packed_raw(*final(v)) == fill_bits(packed_raw(*old(v)), start as int, end as int, value),
{
    v.inner[start..end].fill(value)
}

/// `BitVec::as_raw_slice` gives the bytes in which the bits are packed: as many as the
/// bits need, with the unused bits of the last one as they are.
#[verifier::external_body]
fn packed_bytes(v: &PackedBits) -> (r: &[u8])
    ensures
        r@ == packed_raw(*v),
        r@.len() == byte_count(packed_len(*v)),
{
    v.inner.as_raw_slice()
}

/// `BitVec::from_slice` takes all bits of the bytes. It panics where they are more than
/// `usize::MAX / 8`.
#[verifier::external_body]
fn packed_from_slice(data: &[u8]) -> (r: PackedBits)
    requires
        8 * data@.len() <= usize::MAX / 8,
    ensures
        packed_raw(r) == data@,
        packed_len(r) == 8 * data@.len(),
{
    PackedBits { inner: BitVec::from_slice(data) }
}

/// `BitVec::truncate` keeps the first `n` bits, and the bytes that hold them unchanged.
#[verifier::external_body]
fn packed_truncate(v: &mut PackedBits, n: usize)
    requires
        packed_raw(*old(v)).len() == byte_count(packed_len(*old(v))),
    ensures
        n >= packed_len(*old(v)) ==> *final(v) == *old(v),
        n < packed_len(*old(v)) ==> packed_len(*final(v)) == n && packed_raw(*final(v))
            == packed_raw(*old(v)).subrange(0, byte_count(n as nat) as int),
{
    v.inner.truncate(n)
}

/// `BitSlice::to_bitvec` on the first `n` bits copies them, with the unused bits of the
/// last byte cleared.
#[verifier::external_body]
fn packed_prefix(v: &PackedBits, n: usize) -> (r: PackedBits)
    requires
        n <= packed_len(*v),
    ensures
        packed_len(r) == n,
        packed_raw(r) == fill_bits(
            packed_raw(*v).subrange(0, byte_count(n as nat) as int),
            n as int,
            8 * byte_count(n as nat) as int,
            false,
        ),
{
    PackedBits { inner: v.inner[..n].to_bitvec() }
}

/// `BitVec::clone` copies the bits, with the unused bits of the last byte cleared.
#[verifier::external_body]
fn packed_clone(v: &PackedBits) -> (r: PackedBits)
    ensures
        packed_len(r) == packed_len(*v),
        packed_raw(r) == fill_bits(
            packed_raw(*v),
            packed_len(*v) as int,
            8 * packed_raw(*v).len() as int,
            false,
        ),
{
    PackedBits { inner: v.inner.clone() }
}

/// The first item of `BitSlice::iter_zeros` from `start` on is the distance to the first
/// cleared bit.
#[verifier::external_body]
fn packed_next_zero(v: &PackedBits, start: usize) -> (r: Option<usize>)
    requires
        start <= packed_len(*v),
    ensures
        r is None ==> forall|i: int|
            start <= i < packed_len(*v) ==> #[trigger] bit_at(packed_raw(*v), i),
        r is Some ==> start + r->0 < packed_len(*v) && !bit_at(packed_raw(*v), start + r->0)
            && forall|i: int| start <= i < start + r->0 ==> #[trigger] bit_at(packed_raw(*v), i),
{
    v.inner[start..].iter_zeros().next()
}

/// One bit for each slot, set where the slot is taken.
pub struct Bitmap {
    pub map: PackedBits,
}

/// Consecutive bits of one value.
#[derive(Debug, Clone, Copy, PartialEq, Eq, Structural)]
pub struct BitRunSlot {
    pub start: usize,
    pub size: usize,
}

impl View for Bitmap {
    type V = Bits;

    open spec fn view(&self) -> Bits {
        Bits { len: packed_len(self.map), raw: packed_raw(self.map) }
    }
}

impl Clone for Bitmap {
    fn clone(&self) -> (r: Self)
        ensures
            r@ == self@.trimmed(),
    {
        Bitmap { map: packed_clone(&self.map) }
    }
}

/// The bytes of a bitmap: the number of bits, then the packed bits.
pub open spec fn bits_bytes(b: Bits) -> Seq<u8> {
    le64(b.len as u64) + b.raw
}

/// Most bytes of packed bits that a bitmap can hold.
pub open spec fn max_packed() -> nat {
    (usize::MAX / 64) as nat
}

/// The bitmap that bytes stand for.
pub open spec fn bits_parse(s: Seq<u8>) -> Result<Bits, Fault> {
    if s.len() < 8 {
        Err(Fault::TooShort { of: Record::Bitmap, expected: 8, got: s.len() as u64 })
    } else if s.len() - 8 > max_packed() {
        Err(Fault::BitmapTooLong)
    } else if 8 * (s.len() - 8) < u64_at(s, 0) {
        Err(Fault::WrongSize { of: Record::Bitmap, expected: u64_at(s, 0), got: (8 * (s.len() - 8)) as u64 })
    } else {
        let n = u64_at(s, 0) as nat;
        Ok(Bits { len: n, raw: s.subrange(8, 8 + byte_count(n) as int) })
    }
}

impl Bitmap {
    /// A bitmap of cleared bits.
    pub fn new_from_bits_count(size_in_bits: usize) -> (r: Self)
        requires
            size_in_bits <= usize::MAX / 8,
        ensures
            r@ == (Bits {
                len: size_in_bits as nat,
                raw: zeros(byte_count(size_in_bits as nat)),
            }),
    {
        let mut map = packed_new();
        packed_resize(&mut map, size_in_bits, false);
        Bitmap { map }
    }

    /// Makes bit `n` the given value.
    pub fn set(&mut self, n: usize, value: bool) -> (r: Result<(), Fault>)
        ensures
            n < old(self)@.len ==> r is Ok && final(self)@ == old(self)@.set(n as int, value),
            n >= old(self)@.len ==> final(self)@ == old(self)@ && r == Err::<(), _>(
                Fault::BitOutOfBounds { index: n as u64, len: old(self)@.len as u64 },
            ),
    {
        let len: usize = packed_count(&self.map);
        if n >= len {
            return Err(Fault::BitOutOfBounds { index: n as u64, len: len as u64 });
        }
        packed_set(&mut self.map, n, value);
        Ok(())
    }

    /// Bit `n`.
    pub fn get(&self, n: usize) -> (r: Result<bool, Fault>)
        ensures
            r == if n < self@.len {
                Ok(self@.get(n as int))
            } else {
                Err(Fault::BitOutOfBounds { index: n as u64, len: self@.len as u64 })
            },
    {
        match packed_get(&self.map, n) {
            Some(b) => Ok(b),
            None => {
                let len: usize = packed_count(&self.map);
                Err(Fault::BitOutOfBounds { index: n as u64, len: len as u64 })
            },
        }
    }

    /// Number of bits.
    pub fn len(&self) -> (r: usize)
        ensures
            r == self@.len,
    {
        packed_count(&self.map)
    }

    /// Makes `length` bits from `start` on the given value.
    pub fn set_range(&mut self, start: usize, length: usize, value: bool) -> (r: Result<(), Fault>)
        ensures
            start + length <= old(self)@.len ==> r is Ok && final(self)@ == old(self)@.fill(
                start as int,
                start + length,
                value,
            ),
            start + length > old(self)@.len ==> final(self)@ == old(self)@ && r == Err::<(), _>(
                Fault::RangeOutOfBounds {
                    start: start as u64,
                    end: end_of(start as int, length as int),
                    len: old(self)@.len as u64,
                },
            ),
    {
        let len: usize = packed_count(&self.map);
        if start > len || length > len - start {
            return Err(
                Fault::RangeOutOfBounds {
                    start: start as u64,
                    end: range_end(start as u64, length as u64),
                    len: len as u64,
                },
            );
        }
        packed_fill(&mut self.map, start, start + length, value);
        Ok(())
    }

    /// The bytes of this bitmap.
    pub fn serialize(&self) -> (r: Result<Vec<u8>, Fault>)
        ensures
            r is Ok,
            r->Ok_0@ == bits_bytes(self@),
            r->Ok_0@.len() == 8 + byte_count(self@.len),
            self@.wf(),
    {
        let mut data: Vec<u8> = Vec::new();
        push_u64(&mut data, packed_count(&self.map) as u64);
        push_bytes(&mut data, packed_bytes(&self.map));
        assert(data@ =~= bits_bytes(self@));
        Ok(data)
    }

    /// The bitmap that `data` stands for.
    pub fn deserialize(data: &[u8]) -> (r: Result<Self, Fault>)
        ensures
            seen(r) == bits_parse(data@),
    {
        let got: usize = data.len();
        if got < 8 {
            return Err(Fault::TooShort { of: Record::Bitmap, expected: 8, got: got as u64 });
        }
        let size: usize = got - 8;
        let limit: usize = usize::MAX / 64;
        if size > limit {
            return Err(Fault::BitmapTooLong);
        }
        let bit_len: u64 = get_u64(data, 0);
        assert(8 * size <= usize::MAX / 8);
        let have: usize = 8 * size;
        if (have as u64) < bit_len {
            return Err(Fault::WrongSize { of: Record::Bitmap, expected: bit_len, got: have as u64 });
        }
        let mut map = packed_from_slice(vstd::slice::slice_subrange(data, 8, got));
        packed_truncate(&mut map, bit_len as usize);
        let r = Bitmap { map };
        assert(r@.raw =~= data@.subrange(8, 8 + byte_count(bit_len as nat) as int));
        Ok(r)
    }

    /// The first cleared bit from `start_index` on.
    pub fn find_next_zero_index(&self, start_index: usize) -> (r: Option<usize>)
        ensures
            r is None ==> forall|i: int| start_index <= i < self@.len ==> #[trigger] self@.get(i),
            r is Some ==> start_index <= r->0 < self@.len && !self@.get(r->0 as int) && forall|
                i: int,
            |
                start_index <= i < r->0 ==> #[trigger] self@.get(i),
    {
        let len: usize = packed_count(&self.map);
        if start_index >= len {
            return None;
        }
        match packed_next_zero(&self.map, start_index) {
            Some(d) => Some(start_index + d),
            None => None,
        }
    }

    /// Number of bytes that `serialize` gives.
    pub fn serialized_size(&self) -> (r: usize)
        requires
            byte_count(self@.len) + 8 <= usize::MAX,
        ensures
            r == 8 + byte_count(self@.len),
    {
        8 + packed_bytes(&self.map).len()
    }
}

/// Start and size of slots.
pub open spec fn run_pairs(v: Seq<BitRunSlot>) -> Seq<(nat, nat)> {
    Seq::new(v.len(), |i: int| (v[i].start as nat, v[i].size as nat))
}

/// Start and size of each maximal run of `target` among the first `n` bits.
pub open spec fn runs(raw: Seq<u8>, target: bool, n: nat) -> Seq<(nat, nat)>
    decreases n,
{
    if n == 0 {
        Seq::empty()
    } else {
        let before = runs(raw, target, (n - 1) as nat);
        if bit_at(raw, n - 1) != target {
            before
        } else if before.len() > 0 && before.last().0 + before.last().1 == n - 1 {
            before.update(before.len() - 1, (before.last().0, before.last().1 + 1))
        } else {
            before.push(((n - 1) as nat, 1nat))
        }
    }
}

/// The runs among the first bits, as the scan holds them: closed runs and the start of
/// the run that ends here.
spec fn scanned(
    raw: Seq<u8>,
    target: bool,
    n: nat,
    done: Seq<(nat, nat)>,
    open: Option<usize>,
) -> bool {
    match open {
        Some(s) => s < n && runs(raw, target, n) == done.push((s as nat, (n - s) as nat)),
        None => runs(raw, target, n) == done && (done.len() > 0 ==> done.last().0 + done.last().1
            < n),
    }
}

proof fn lemma_scan_other(
    raw: Seq<u8>,
    target: bool,
    n: nat,
    d: nat,
    done: Seq<(nat, nat)>,
)
    requires
        runs(raw, target, n) == done,
        forall|i: int| n <= i < n + d ==> bit_at(raw, i) != target,
    ensures
        runs(raw, target, n + d) == done,
    decreases d,
{
    if d > 0 {
        lemma_scan_other(raw, target, n, (d - 1) as nat, done);
        assert(bit_at(raw, n + d - 1) != target);
    }
}

proof fn lemma_scan_target(
    raw: Seq<u8>,
    target: bool,
    n: nat,
    d: nat,
    done: Seq<(nat, nat)>,
    open: Option<usize>,
    start: usize,
)
    requires
        d > 0,
        scanned(raw, target, n, done, open),
        open is Some ==> open->0 == start,
        open is None ==> start == n,
        forall|i: int| n <= i < n + d ==> bit_at(raw, i) == target,
    ensures
        scanned(raw, target, n + d, done, Some(start)),
    decreases d,
{
    let m = (n + d - 1) as nat;
    assert(bit_at(raw, m as int) == target);
    if d == 1 {
        if open is Some {
            let b = runs(raw, target, n);
            assert(b.last() == (start as nat, (n - start) as nat));
            assert(b.update(b.len() - 1, (start as nat, (n - start + 1) as nat)) =~= done.push(
                (start as nat, (n + 1 - start) as nat),
            ));
        }
    } else {
        lemma_scan_target(raw, target, n, (d - 1) as nat, done, open, start);
        let b = runs(raw, target, m);
        assert(b.last() == (start as nat, (m - start) as nat));
        assert(b.update(b.len() - 1, (start as nat, (m - start + 1) as nat)) =~= done.push(
            (start as nat, (m + 1 - start) as nat),
        ));
    }
}

proof fn lemma_mask(w: u8, k: u8, j: u8)
    requires
        k < 8,
        j < 8,
    ensures
        bit_of(w & (0xffu8 << k), j) == (bit_of(w, j) && j >= k),
{
    assert((((w & (0xffu8 << k)) >> j) & 1u8 == 1u8) == ((w >> j) & 1u8 == 1u8 && j >= k))
        by (bit_vector)
        requires
            k < 8,
            j < 8,
    ;
}

proof fn lemma_not(w: u8, j: u8)
    requires
        j < 8,
    ensures
        bit_of(!w, j) == !bit_of(w, j),
{
    assert((((!w) >> j) & 1u8 == 1u8) == !((w >> j) & 1u8 == 1u8)) by (bit_vector)
        requires
            j < 8,
    ;
}

proof fn lemma_shl(w: u8, p: u8, d: u8, j: u8)
    requires
        j == d + p,
        j < 8,
    ensures
        bit_of(w << p, j) == bit_of(w, d),
{
    assert(((w << p) >> j) & 1u8 == (w >> d) & 1u8) by (bit_vector)
        requires
            j == d + p,
            j < 8,
    ;
}

proof fn lemma_all_zero(w: u8)
    ensures
        w == 0 ==> forall|j: u8| j < 8 ==> !bit_of(w, j),
{
    assert forall|j: u8| w == 0 && j < 8 implies !bit_of(w, j) by {
        assert((0u8 >> j) & 1u8 == 0u8) by (bit_vector)
            requires
                j < 8,
        ;
    }
}

proof fn lemma_full_mask(k: u8, j: u8)
    requires
        k <= j < 8,
    ensures
        bit_of(0xffu8 << k, j),
{
    assert(((0xffu8 << k) >> j) & 1u8 == 1u8) by (bit_vector)
        requires
            k <= j < 8,
    ;
}

proof fn lemma_ff(j: u8)
    requires
        j < 8,
    ensures
        bit_of(0xffu8, j),
{
    assert((0xffu8 >> j) & 1u8 == 1u8) by (bit_vector)
        requires
            j < 8,
    ;
}

proof fn lemma_put_bit(b: u8, k: u8, value: bool, j: u8)
    requires
        k < 8,
        j < 8,
    ensures
        bit_of(put_bit(b, k, value), j) == if j == k {
            value
        } else {
            bit_of(b, j)
        },
{
    assert(((b | (1u8 << k)) >> j) & 1u8 == (if j == k {
        1u8
    } else {
        (b >> j) & 1u8
    })) by (bit_vector)
        requires
            k < 8,
            j < 8,
    ;
    assert(((b & !(1u8 << k)) >> j) & 1u8 == (if j == k {
        0u8
    } else {
        (b >> j) & 1u8
    })) by (bit_vector)
        requires
            k < 8,
            j < 8,
    ;
}

/// Making one bit a value leaves every other bit as it is.
pub proof fn lemma_with_bit(raw: Seq<u8>, i: int, value: bool, k: int)
    requires
        0 <= i < 8 * raw.len(),
        0 <= k < 8 * raw.len(),
    ensures
        with_bit(raw, i, value).len() == raw.len(),
        bit_at(with_bit(raw, i, value), k) == if k == i {
            value
        } else {
            bit_at(raw, k)
        },
{
    if k / 8 == i / 8 {
        lemma_put_bit(raw[i / 8], (7 - i % 8) as u8, value, (7 - k % 8) as u8);
    }
}

/// Filling a range makes each of its bits the value and leaves every other bit as it is.
pub proof fn lemma_fill_bits(raw: Seq<u8>, start: int, end: int, value: bool)
    requires
        0 <= start,
        end <= 8 * raw.len(),
    ensures
        fill_bits(raw, start, end, value).len() == raw.len(),
        forall|k: int|
            0 <= k < 8 * raw.len() ==> #[trigger] bit_at(fill_bits(raw, start, end, value), k)
                == if start <= k < end {
                value
            } else {
                bit_at(raw, k)
            },
    decreases end - start,
{
    if start < end {
        let f = fill_bits(raw, start, end - 1, value);
        lemma_fill_bits(raw, start, end - 1, value);
        assert forall|k: int| 0 <= k < 8 * raw.len() implies #[trigger] bit_at(
            fill_bits(raw, start, end, value),
            k,
        ) == if start <= k < end {
            value
        } else {
            bit_at(raw, k)
        } by {
            lemma_with_bit(f, end - 1, value, k);
            assert(bit_at(f, k) == if start <= k < end - 1 {
                value
            } else {
                bit_at(raw, k)
            });
        }
    }
}

proof fn lemma_runs_agree(a: Seq<u8>, b: Seq<u8>, target: bool, n: nat)
    requires
        forall|i: int| 0 <= i < n ==> bit_at(a, i) == bit_at(b, i),
    ensures
        runs(a, target, n) == runs(b, target, n),
    decreases n,
{
    if n > 0 {
        lemma_runs_agree(a, b, target, (n - 1) as nat);
        assert(bit_at(a, n - 1) == bit_at(b, n - 1));
    }
}

/// The bits of one byte that the scan looks at, `true` where they are the target.
fn scan_word(raw_word: u8, target_bit: bool, valid_bits: usize) -> (r: u8)
    requires
        1 <= valid_bits <= 8,
    ensures
        forall|j: u8|
            j < 8 ==> #[trigger] bit_of(r, j) == (j >= 8 - valid_bits && bit_of(raw_word, j)
                == target_bit),
{
    let mut word: u8 = raw_word;
    if !target_bit {
        word = !word;
    }
    proof {
        assert forall|j: u8| j < 8 implies #[trigger] bit_of(word, j) == (bit_of(raw_word, j)
            == target_bit) by {
            lemma_not(raw_word, j);
        }
    }
    let ghost full = word;
    if valid_bits < 8 {
        word = word & (0xFFu8 << ((8 - valid_bits) as u8));
        proof {
            assert forall|j: u8| j < 8 implies #[trigger] bit_of(word, j) == (j >= 8 - valid_bits
                && bit_of(full, j)) by {
                lemma_mask(full, (8 - valid_bits) as u8, j);
            }
        }
    }
    word
}

/// The first `valid` bits of `first`, from the highest on, tell where the bits of `raw`
/// from `base` on are the target.
#[verifier::opaque]
spec fn word_for(raw: Seq<u8>, target: bool, base: int, valid: int, first: u8) -> bool {
    forall|p: int|
        0 <= p < valid ==> (bit_at(raw, #[trigger] (base + p)) == target) == bit_of(
            first,
            (7 - p) as u8,
        )
}

/// `word` is `first` with its first `processed` bits shifted out.
#[verifier::opaque]
spec fn shifted(first: u8, word: u8, processed: int) -> bool {
    forall|x: u8|
        processed <= x < 8 ==> #[trigger] bit_of(word, x) == bit_of(first, (x - processed) as u8)
}

proof fn lemma_shifted_start(first: u8)
    ensures
        shifted(first, first, 0),
{
    reveal(shifted);
}

proof fn lemma_shift(first: u8, word: u8, processed: int, shift: u8)
    requires
        shifted(first, word, processed),
        processed >= 0,
        shift < 8,
    ensures
        shifted(first, word << shift, processed + shift),
{
    reveal(shifted);
    assert forall|x: u8| processed + shift <= x < 8 implies #[trigger] bit_of(word << shift, x)
        == bit_of(first, (x - (processed + shift)) as u8) by {
        let y = (x - shift) as u8;
        lemma_shl(word, shift, y, x);
        assert(bit_of(word, y) == bit_of(first, (y - processed) as u8));
    }
}

/// Leading bits of `word` of one value say the same of the bits that come next.
proof fn lemma_lead(
    raw: Seq<u8>,
    target: bool,
    base: int,
    valid: int,
    first: u8,
    word: u8,
    processed: int,
    count: int,
    value: bool,
)
    requires
        word_for(raw, target, base, valid, first),
        shifted(first, word, processed),
        0 <= processed,
        0 <= count,
        processed + count <= valid <= 8,
        forall|j: u8| 8 - count <= j < 8 ==> #[trigger] bit_of(word, j) == value,
    ensures
        forall|i: int|
            base + processed <= i < base + processed + count ==> (#[trigger] bit_at(raw, i)
                == target) == value,
{
    reveal(word_for);
    reveal(shifted);
    assert forall|i: int| base + processed <= i < base + processed + count implies (
    #[trigger] bit_at(raw, i) == target) == value by {
        let p = i - base;
        let x = (7 - (p - processed)) as u8;
        assert(bit_of(word, x) == value);
        assert(bit_of(word, x) == bit_of(first, (x - processed) as u8));
        assert((bit_at(raw, base + p) == target) == bit_of(first, (7 - p) as u8));
    }
}

/// Scans the bits of one byte in which some are the target and some are not.
fn scan_mixed(
    found: &mut Vec<BitRunSlot>,
    open: &mut Option<usize>,
    base: usize,
    first: u8,
    valid_bits: usize,
    Ghost(raw): Ghost<Seq<u8>>,
    Ghost(target): Ghost<bool>,
)
    requires
        1 <= valid_bits <= 8,
        base + valid_bits <= usize::MAX,
        first != 0,
        first != 0xFF || valid_bits < 8,
        forall|j: u8| j < 8 - valid_bits ==> !bit_of(first, j),
        word_for(raw, target, base as int, valid_bits as int, first),
        scanned(raw, target, base as nat, run_pairs(old(found)@), *old(open)),
    ensures
        scanned(
            raw,
            target,
            (base + valid_bits) as nat,
            run_pairs(final(found)@),
            *final(open),
        ),
{
    proof {
        if valid_bits < 8 {
            lemma_ff(0);
            assert(!bit_of(first, 0));
        }
        lemma_shifted_start(first);
    }
    let mut word: u8 = first;
    let mut processed: usize = 0;
    while processed < valid_bits
        invariant
            processed <= valid_bits <= 8,
            base + valid_bits <= usize::MAX,
            word != 0xFF || processed > 0,
            word != 0 || processed > 0,
            word_for(raw, target, base as int, valid_bits as int, first),
            shifted(first, word, processed as int),
            scanned(raw, target, (base + processed) as nat, run_pairs(found@), *open),
        decreases valid_bits - processed,
    {
        let zeros_in: usize = word.leading_zeros() as usize;
        proof {
            axiom_u8_leading_zeros(word);
            axiom_u8_leading_ones(word);
        }
        let left_in: usize = valid_bits - processed;
        let at: usize = base + processed;
        if zeros_in > 0 {
            let shift: usize = if zeros_in < left_in {
                zeros_in
            } else {
                left_in
            };
            proof {
                lemma_lead(
                    raw,
                    target,
                    base as int,
                    valid_bits as int,
                    first,
                    word,
                    processed as int,
                    shift as int,
                    false,
                );
                lemma_scan_other(raw, target, at as nat, shift as nat, runs(raw, target, at as nat));
                lemma_shift(first, word, processed as int, shift as u8);
            }
            close_run(found, open, at, Ghost(raw), Ghost(target));
            proof {
                lemma_runs_within(raw, target, at as nat);
            }
            word = word << (shift as u8);
            processed = processed + shift;
        } else {
            let ones_in: usize = word.leading_ones() as usize;
            let shift: usize = if ones_in < left_in {
                ones_in
            } else {
                left_in
            };
            let start: usize = match *open {
                Some(s) => s,
                None => at,
            };
            proof {
                lemma_lead(
                    raw,
                    target,
                    base as int,
                    valid_bits as int,
                    first,
                    word,
                    processed as int,
                    shift as int,
                    true,
                );
                lemma_scan_target(
                    raw,
                    target,
                    at as nat,
                    shift as nat,
                    run_pairs(found@),
                    *open,
                    start,
                );
                lemma_shift(first, word, processed as int, shift as u8);
            }
            *open = Some(start);
            word = word << (shift as u8);
            processed = processed + shift;
        }
    }
}

/// Runs are not empty and end within the bits.
pub proof fn lemma_runs_within(raw: Seq<u8>, target: bool, n: nat)
    ensures
        forall|k: int|
            0 <= k < runs(raw, target, n).len() ==> {
                let r = #[trigger] runs(raw, target, n)[k];
                r.1 > 0 && r.0 + r.1 <= n
            },
    decreases n,
{
    if n > 0 {
        lemma_runs_within(raw, target, (n - 1) as nat);
        let b = runs(raw, target, (n - 1) as nat);
        assert forall|k: int| 0 <= k < runs(raw, target, n).len() implies {
            let r = #[trigger] runs(raw, target, n)[k];
            r.1 > 0 && r.0 + r.1 <= n
        } by {
            if k < b.len() {
                assert(b[k].1 > 0);
            }
        }
    }
}

impl Bitmap {
    /// The maximal runs of `target_bit` before `stop_index`, in order.
    pub fn runs_of(&self, target_bit: bool, stop_index: Option<usize>) -> (r: Vec<BitRunSlot>)
        ensures
            run_pairs(r@) == runs(
                self@.raw,
                target_bit,
                match stop_index {
                    Some(s) => if s < self@.len {
                        s as nat
                    } else {
                        self@.len
                    },
                    None => self@.len,
                },
            ),
    {
        let mut found: Vec<BitRunSlot> = Vec::new();
        let len: usize = packed_count(&self.map);
        let logical_len: usize = match stop_index {
            Some(s) => if s < len {
                s
            } else {
                len
            },
            None => len,
        };
        assert(run_pairs(found@) =~= Seq::empty());
        if logical_len == 0 {
            return found;
        }
        let _all = packed_bytes(&self.map);
        let actual = packed_prefix(&self.map, logical_len);
        let raw = packed_bytes(&actual);
        let ghost n = logical_len as nat;
        let mut open: Option<usize> = None;
        let mut at: usize = 0;
        let mut byte_index: usize = 0;
        while byte_index < raw.len()
            invariant
                raw@.len() == byte_count(logical_len as nat),
                logical_len > 0,
                byte_index <= raw@.len(),
                at == if 8 * byte_index < logical_len {
                    8 * byte_index
                } else {
                    logical_len as int
                },
                scanned(raw@, target_bit, at as nat, run_pairs(found@), open),
            decreases raw@.len() - byte_index,
        {
            let ghost at0 = at as nat;
            let left: usize = logical_len - at;
            let valid_bits: usize = if left < 8 {
                left
            } else {
                8
            };
            let first = scan_word(raw[byte_index], target_bit, valid_bits);
            assert(word_for(raw@, target_bit, at0 as int, valid_bits as int, first)) by {
                reveal(word_for);
                assert forall|p: int| 0 <= p < valid_bits implies (bit_at(
                    raw@,
                    #[trigger] (at0 + p),
                ) == target_bit) == bit_of(first, (7 - p) as u8) by {
                    assert((at0 + p) / 8 == byte_index);
                    assert((at0 + p) % 8 == p);
                }
            }
            if first == 0 {
                proof {
                    lemma_all_zero(first);
                    lemma_shifted_start(first);
                    lemma_lead(
                        raw@,
                        target_bit,
                        at0 as int,
                        valid_bits as int,
                        first,
                        first,
                        0,
                        valid_bits as int,
                        false,
                    );
                    lemma_scan_other(
                        raw@,
                        target_bit,
                        at0,
                        valid_bits as nat,
                        runs(raw@, target_bit, at0),
                    );
                }
                close_run(&mut found, &mut open, at, Ghost(raw@), Ghost(target_bit));
                at = at + valid_bits;
            } else if first == (if valid_bits == 8 {
                0xFFu8
            } else {
                0xFFu8 << ((8 - valid_bits) as u8)
            }) {
                proof {
                    assert forall|j: u8| 8 - valid_bits <= j < 8 implies bit_of(first, j) by {
                        if valid_bits == 8 {
                            lemma_ff(j);
                        } else {
                            lemma_full_mask((8 - valid_bits) as u8, j);
                        }
                    }
                    lemma_shifted_start(first);
                    lemma_lead(
                        raw@,
                        target_bit,
                        at0 as int,
                        valid_bits as int,
                        first,
                        first,
                        0,
                        valid_bits as int,
                        true,
                    );
                }
                let start: usize = match open {
                    Some(s) => s,
                    None => at,
                };
                proof {
                    lemma_scan_target(
                        raw@,
                        target_bit,
                        at0,
                        valid_bits as nat,
                        run_pairs(found@),
                        open,
                        start,
                    );
                }
                open = Some(start);
                at = at + valid_bits;
            } else {
                scan_mixed(
                    &mut found,
                    &mut open,
                    at,
                    first,
                    valid_bits,
                    Ghost(raw@),
                    Ghost(target_bit),
                );
                at = at + valid_bits;
            }
            byte_index = byte_index + 1;
        }
        assert(at == logical_len);
        close_run(&mut found, &mut open, at, Ghost(raw@), Ghost(target_bit));
        proof {
            let head = self@.raw.subrange(0, byte_count(n) as int);
            lemma_fill_bits(head, n as int, 8 * byte_count(n) as int, false);
            assert forall|i: int| 0 <= i < n implies bit_at(raw@, i) == bit_at(self@.raw, i) by {
                assert(bit_at(head, i) == bit_at(self@.raw, i));
            }
            lemma_runs_agree(raw@, self@.raw, target_bit, n);
        }
        found
    }
}

/// Closes the run that is still open when the scan stands at `at`.
fn close_run(
    found: &mut Vec<BitRunSlot>,
    open: &mut Option<usize>,
    at: usize,
    Ghost(raw): Ghost<Seq<u8>>,
    Ghost(target): Ghost<bool>,
)
    requires
        scanned(raw, target, at as nat, run_pairs(old(found)@), *old(open)),
    ensures
        *final(open) == None::<usize>,
        run_pairs(final(found)@) == runs(raw, target, at as nat),
{
    let ghost before = run_pairs(found@);
    if let Some(start) = *open {
        found.push(BitRunSlot { start, size: at - start });
        *open = None;
        assert(run_pairs(found@) =~= before.push((start as nat, (at - start) as nat)));
    }
}

/// Run `r` holds only `target` bits and cannot be made longer within the first `n` bits.
pub open spec fn maximal_run(raw: Seq<u8>, target: bool, n: nat, r: (nat, nat)) -> bool {
    &&& r.1 > 0
    &&& r.0 + r.1 <= n
    &&& forall|i: int| r.0 <= i < r.0 + r.1 ==> #[trigger] bit_at(raw, i) == target
    &&& r.0 > 0 ==> bit_at(raw, r.0 - 1) != target
    &&& r.0 + r.1 < n ==> bit_at(raw, (r.0 + r.1) as int) != target
}

/// Bit `i` lies in run `r`.
pub open spec fn in_run(r: (nat, nat), i: int) -> bool {
    r.0 <= i < r.0 + r.1
}

/// The runs of a bitmap are its maximal runs of the target, in ascending order, and no
/// bit of that value is left out.
pub proof fn runs_are_maximal(raw: Seq<u8>, target: bool, n: nat)
    ensures
        forall|k: int|
            0 <= k < runs(raw, target, n).len() ==> maximal_run(
                raw,
                target,
                n,
                #[trigger] runs(raw, target, n)[k],
            ),
        forall|k: int, m: int|
            0 <= k < m < runs(raw, target, n).len() ==> (#[trigger] runs(raw, target, n)[k]).0
                + runs(raw, target, n)[k].1 < (#[trigger] runs(raw, target, n)[m]).0,
        forall|i: int|
            0 <= i < n && #[trigger] bit_at(raw, i) == target ==> exists|k: int|
                0 <= k < runs(raw, target, n).len() && in_run(
                    #[trigger] runs(raw, target, n)[k],
                    i,
                ),
    decreases n,
{
    if n > 0 {
        let m = (n - 1) as nat;
        let b = runs(raw, target, m);
        let a = runs(raw, target, n);
        runs_are_maximal(raw, target, m);
        let joins = bit_at(raw, n - 1) == target && b.len() > 0 && b.last().0 + b.last().1 == n - 1;
        assert forall|k: int| 0 <= k < a.len() implies maximal_run(
            raw,
            target,
            n,
            #[trigger] a[k],
        ) by {
            if k < b.len() {
                assert(maximal_run(raw, target, m, b[k]));
                if k < b.len() - 1 {
                    assert(b[k].0 + b[k].1 < b[b.len() - 1].0);
                    assert(maximal_run(raw, target, m, b[b.len() - 1]));
                }
            } else if n - 1 > 0 && bit_at(raw, n - 2) == target {
                let j = choose|j: int| 0 <= j < b.len() && in_run(#[trigger] b[j], n - 2);
                assert(maximal_run(raw, target, m, b[j]));
                if j < b.len() - 1 {
                    assert(b[j].0 + b[j].1 < b[b.len() - 1].0);
                    assert(maximal_run(raw, target, m, b[b.len() - 1]));
                }
                assert(false);
            }
        }
        assert forall|k: int, j: int| 0 <= k < j < a.len() implies (#[trigger] a[k]).0 + a[k].1 < (
        #[trigger] a[j]).0 by {
            if j < b.len() {
                assert(b[k].0 + b[k].1 < b[j].0);
            } else {
                assert(maximal_run(raw, target, m, b[k]));
                if k < b.len() - 1 {
                    assert(b[k].0 + b[k].1 < b[b.len() - 1].0);
                    assert(maximal_run(raw, target, m, b[b.len() - 1]));
                }
            }
        }
        assert forall|i: int| 0 <= i < n && #[trigger] bit_at(raw, i) == target implies exists|
            k: int,
        |
            0 <= k < a.len() && in_run(#[trigger] a[k], i) by {
            if i < m {
                let k = choose|k: int| 0 <= k < b.len() && in_run(#[trigger] b[k], i);
                assert(in_run(a[k], i));
            } else {
                assert(in_run(a[a.len() - 1], i));
            }
        }
    }
}

/// A bitmap that is written and read back has the same bits.
pub proof fn bitmap_round_trip(b: Bits)
    requires
        b.wf(),
        b.raw.len() <= max_packed(),
    ensures
        bits_parse(bits_bytes(b)) == Ok::<Bits, Fault>(b),
{
    let s = bits_bytes(b);
    lemma_le64(b.len as u64);
    assert(s.subrange(0, 8) =~= le64(b.len as u64));
    assert(s.subrange(8, 8 + byte_count(b.len) as int) =~= b.raw);
}

/// A bit that is set or cleared reads back so, and every other bit reads as before.
pub proof fn bitmap_set_get(b: Bits, i: int, value: bool, k: int)
    requires
        b.wf(),
        0 <= i < b.len,
        0 <= k < b.len,
    ensures
        b.set(i, value).wf(),
        b.set(i, value).get(k) == if k == i {
            value
        } else {
            b.get(k)
        },
{
    lemma_with_bit(b.raw, i, value, k);
}

/// The bits of a range that is filled read back so, and every other bit reads as before.
pub proof fn bitmap_fill_get(b: Bits, start: int, end: int, value: bool, k: int)
    requires
        b.wf(),
        0 <= start,
        end <= b.len,
        0 <= k < b.len,
    ensures
        b.fill(start, end, value).wf(),
        b.fill(start, end, value).get(k) == if start <= k < end {
            value
        } else {
            b.get(k)
        },
{
    lemma_fill_bits(b.raw, start, end, value);
}

} // verus!
