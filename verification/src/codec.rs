//! Reading and writing plain values in byte buffers.
use vstd::bytes::*;
use vstd::prelude::*;

verus! {

/// The eight bytes of `x`, lowest first.
pub open spec fn le64(x: u64) -> Seq<u8> {
    spec_u64_to_le_bytes(x)
}

/// The number that eight bytes spell, lowest first.
pub open spec fn un_le64(s: Seq<u8>) -> u64 {
    spec_u64_from_le_bytes(s)
}

/// The number spelled by the eight bytes of `s` at `at`.
pub open spec fn u64_at(s: Seq<u8>, at: int) -> u64 {
    un_le64(s.subrange(at, at + 8))
}

/// `s` with the bytes from `at` on replaced by `data`.
pub open spec fn splice(s: Seq<u8>, at: int, data: Seq<u8>) -> Seq<u8> {
    Seq::new(
        s.len(),
        |i: int|
            if at <= i < at + data.len() {
                data[i - at]
            } else {
                s[i]
            },
    )
}

/// `n` zero bytes.
pub open spec fn zeros(n: nat) -> Seq<u8> {
    Seq::new(n, |i: int| 0u8)
}

pub proof fn lemma_le64(x: u64)
    ensures
        le64(x).len() == 8,
        un_le64(le64(x)) == x,
{
    lemma_auto_spec_u64_to_from_le_bytes();
}

pub proof fn lemma_un_le64(s: Seq<u8>)
    requires
        s.len() == 8,
    ensures
        le64(un_le64(s)) == s,
{
    lemma_auto_spec_u64_to_from_le_bytes();
}

/// Appends the eight bytes of `x`.
pub fn push_u64(buf: &mut Vec<u8>, x: u64)
    ensures
        final(buf)@ == old(buf)@ + le64(x),
        le64(x).len() == 8,
{
    let mut b = u64_to_le_bytes(x);
    buf.append(&mut b);
    proof {
        lemma_le64(x);
    }
}

/// The number spelled by the eight bytes at `at`.
pub fn get_u64(data: &[u8], at: usize) -> (r: u64)
    requires
        at + 8 <= data@.len(),
    ensures
        r == u64_at(data@, at as int),
{
    let _n: usize = data.len();
    u64_from_le_bytes(vstd::slice::slice_subrange(data, at, at + 8))
}

/// Appends a copy of `data`.
pub fn push_bytes(buf: &mut Vec<u8>, data: &[u8])
    ensures
        final(buf)@ == old(buf)@ + data@,
{
    buf.extend_from_slice(data);
    assert(buf@ =~= old(buf)@ + data@);
}

/// A copy of `size` bytes from `at` on.
pub fn copy_range(data: &[u8], at: usize, size: usize) -> (r: Vec<u8>)
    requires
        at + size <= data@.len(),
    ensures
        r@ == data@.subrange(at as int, at + size),
{
    let _n: usize = data.len();
    vstd::slice::slice_to_vec(vstd::slice::slice_subrange(data, at, at + size))
}

/// The `N` bytes from `at` on, as an array.
pub fn array_at<const N: usize>(data: &[u8], at: usize) -> (r: [u8; N])
    requires
        at + N <= data@.len(),
    ensures
        r@ == data@.subrange(at as int, at + N),
{
    let mut r: [u8; N] = vstd::array::array_fill_for_copy_types(0u8);
    let n: usize = data.len();
    let mut i: usize = 0;
    while i < N
        invariant
            i <= N,
            at + N <= data@.len(),
            n == data@.len(),
            forall|k: int| 0 <= k < i ==> r@[k] == data@[at + k],
        decreases N - i,
    {
        r[i] = data[at + i];
        i = i + 1;
    }
    assert(r@ =~= data@.subrange(at as int, at + N));
    r
}

/// Makes a buffer of `n` zero bytes.
pub fn zero_vec(n: usize) -> (r: Vec<u8>)
    ensures
        r@ == zeros(n as nat),
{
    let r = vec![0u8; n];
    assert(r@ =~= zeros(n as nat));
    r
}

/// Overwrites the bytes of `buf` from `at` on.
pub fn overwrite(buf: &mut Vec<u8>, at: usize, data: &[u8])
    requires
        at + data@.len() <= old(buf)@.len(),
    ensures
        final(buf)@ == splice(old(buf)@, at as int, data@),
{
    let ghost before = buf@;
    let n: usize = buf.len();
    let mut i: usize = 0;
    while i < data.len()
        invariant
            i <= data@.len(),
            n == buf@.len(),
            buf@.len() == before.len(),
            at + data@.len() <= buf@.len(),
            forall|k: int|
                0 <= k < buf@.len() ==> buf@[k] == if at <= k < at + i {
                    data@[k - at]
                } else {
                    before[k]
                },
        decreases data@.len() - i,
    {
        buf[at + i] = data[i];
        i = i + 1;
    }
    assert(buf@ =~= splice(before, at as int, data@));
}

} // verus!
