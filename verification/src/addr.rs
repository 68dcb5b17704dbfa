//! Optional 64-bit numbers for addresses.
use crate::codec::{le64, lemma_le64, push_u64, un_le64};
use crate::error::Fault;
use vstd::prelude::*;

verus! {

/// A 64-bit address for which zero stands for "absent".
#[derive(Debug, Clone, Copy, PartialEq, Eq, Structural)]
pub struct MaybeU64 {
    pub raw: u64,
}

/// The optional address that `addr` stands for.
pub open spec fn maybe(addr: u64) -> MaybeU64 {
    MaybeU64 { raw: addr }
}

impl Default for MaybeU64 {
    fn default() -> (r: Self)
        ensures
            r == maybe(0),
    {
        MaybeU64 { raw: 0 }
    }
}

impl From<u64> for MaybeU64 {
    fn from(value: u64) -> (r: Self) {
        MaybeU64 { raw: value }
    }
}

impl vstd::std_specs::convert::FromSpecImpl<u64> for MaybeU64 {
    open spec fn obeys_from_spec() -> bool {
        true
    }

    open spec fn from_spec(value: u64) -> Self {
        maybe(value)
    }
}

impl From<usize> for MaybeU64 {
    fn from(value: usize) -> (r: Self) {
        MaybeU64 { raw: value as u64 }
    }
}

impl vstd::std_specs::convert::FromSpecImpl<usize> for MaybeU64 {
    open spec fn obeys_from_spec() -> bool {
        true
    }

    open spec fn from_spec(value: usize) -> Self {
        maybe(value as u64)
    }
}

impl MaybeU64 {
    /// The address, zero when absent.
    pub fn get(&self) -> (r: u64)
        ensures
            r == self.raw,
    {
        self.raw
    }

    /// The address, unless absent.
    pub fn to_optional(&self) -> (r: Option<u64>)
        ensures
            r == if self.raw == 0 {
                None
            } else {
                Some(self.raw)
            },
    {
        if self.raw == 0 {
            None
        } else {
            Some(self.raw)
        }
    }

    /// True if there is no address.
    pub fn is_none(&self) -> (r: bool)
        ensures
            r == (self.raw == 0),
    {
        self.raw == 0
    }

    /// True if there is an address.
    pub fn is_some(&self) -> (r: bool)
        ensures
            r == (self.raw != 0),
    {
        self.raw != 0
    }

    /// The optional address for `addr`, absent when `addr` is zero.
    pub fn from(addr: u64) -> (r: Self)
        ensures
            r == maybe(addr),
    {
        MaybeU64 { raw: addr }
    }

    /// Eight bytes, lowest first; all zero when absent.
    pub fn serialize(&self) -> (r: Result<Vec<u8>, Fault>)
        ensures
            r is Ok,
            r->Ok_0@ == le64(self.raw),
    {
        let mut buf: Vec<u8> = Vec::new();
        push_u64(&mut buf, self.raw);
        assert(buf@ =~= le64(self.raw));
        Ok(buf)
    }

    /// Reads back what `serialize` wrote.
    pub fn deserialize(data: [u8; 8]) -> (r: Self)
        ensures
            r == maybe(un_le64(data@)),
    {
        MaybeU64 { raw: vstd::bytes::u64_from_le_bytes(data.as_slice()) }
    }

    /// Number of bytes that `serialize` gives.
    pub fn serialized_size(&self) -> (r: usize)
        ensures
            r == 8,
    {
        8
    }
}

/// An address that is written and read back is the same address.
pub proof fn maybe_round_trip(a: MaybeU64)
    ensures
        maybe(un_le64(le64(a.raw))) == a,
{
    lemma_le64(a.raw);
}

} // verus!
