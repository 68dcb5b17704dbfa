//! Devices: anything that holds bytes at addresses.
use crate::codec::splice;
use crate::device::kv_device::KVDevice;
use crate::error::Fault;
use vstd::prelude::*;

pub mod disk;
pub mod http_device;
pub mod kv_device;
pub mod logical;

verus! {

/// `size` bytes from `addr` on lie within `len` bytes.
pub open spec fn within(addr: int, size: int, len: int) -> bool {
    addr + size <= len
}

/// Holds a fixed number of bytes that can be read and written at any address.
///
/// What a device answers it answers truly; whether it answers is its own affair. A device
/// that is `healthy` answers every request within its bounds.
pub trait Device {
    /// The bytes that the device holds. A device that does not say so is taken to hold none.
    open spec fn content(&self) -> Seq<u8> {
        Seq::empty()
    }

    /// The device answers, and will go on to do so. A device that does not say so is not relied
    /// on.
    open spec fn healthy(&self) -> bool {
        false
    }

    /// The name of the device. A device that does not say so may have any.
    open spec fn label(&self) -> Option<Seq<char>> {
        None
    }

    /// The name of the device.
    fn name(&self) -> (r: String)
        ensures
            self.label() is Some ==> r@ == self.label()->0,
    ;

    /// Number of bytes that the device holds.
    fn capacity(&self) -> (r: Result<usize, Fault>)
        ensures
            r is Ok ==> r->Ok_0 == self.content().len(),
            self.healthy() ==> r is Ok,
    ;

    /// Overwrites the bytes from `addr` on. If it fails, part of them may have been written.
    fn write(&mut self, addr: usize, data: &[u8]) -> (r: Result<(), Fault>)
        ensures
            final(self).content().len() == old(self).content().len(),
            within(addr as int, data@.len() as int, old(self).content().len() as int) ==> {
                &&& r is Ok ==> final(self).content() == splice(
                    old(self).content(),
                    addr as int,
                    data@,
                )
                &&& old(self).healthy() ==> r is Ok && final(self).healthy()
            },
    ;

    /// `size` bytes from `addr` on.
    fn read(&self, addr: usize, size: usize) -> (r: Result<Vec<u8>, Fault>)
        ensures
            r is Ok ==> r->Ok_0@.len() == size,
            within(addr as int, size as int, self.content().len() as int) ==> {
                &&& r is Ok ==> r->Ok_0@ == self.content().subrange(addr as int, addr + size)
                &&& self.healthy() ==> r is Ok
            },
    ;
}

/// Holds values under numbers.
///
/// As with a device, what a store answers is true, and a `healthy` store answers always.
pub trait KeyValue {
    /// What the store holds. A store that does not say so is taken to hold nothing.
    open spec fn pairs(&self) -> Map<u64, Seq<u8>> {
        Map::empty()
    }

    /// The store answers, and will go on to do so. A store that does not say so is not relied on.
    open spec fn healthy(&self) -> bool {
        false
    }

    /// Stores `v` under `k`, in place of what was there.
    fn set(&mut self, k: u64, v: Vec<u8>) -> (r: Result<(), Fault>)
        ensures
            r is Ok ==> final(self).pairs() == old(self).pairs().insert(k, v@),
            r is Err ==> final(self).pairs().remove(k) == old(self).pairs().remove(k),
            old(self).healthy() ==> r is Ok && final(self).healthy(),
    ;

    /// What is stored under `k`.
    fn get(&self, k: &u64) -> (r: Result<Option<Vec<u8>>, Fault>)
        ensures
            r is Ok ==> match r->Ok_0 {
                Some(v) => self.pairs().contains_key(*k) && v@ == self.pairs()[*k],
                None => !self.pairs().contains_key(*k),
            },
            self.healthy() ==> r is Ok,
    ;
}

/// A device of one of the kinds that a configuration can name.
pub enum ConcreteDevice<F, S> {
    FsDevice(F),
    KVDevice(KVDevice<S>),
}

impl<F: Device, S: KeyValue> Device for ConcreteDevice<F, S> {
    open spec fn content(&self) -> Seq<u8> {
        match self {
            ConcreteDevice::FsDevice(d) => d.content(),
            ConcreteDevice::KVDevice(d) => d.content(),
        }
    }

    open spec fn healthy(&self) -> bool {
        match self {
            ConcreteDevice::FsDevice(d) => d.healthy(),
            ConcreteDevice::KVDevice(d) => d.healthy(),
        }
    }

    open spec fn label(&self) -> Option<Seq<char>> {
        match self {
            ConcreteDevice::FsDevice(d) => d.label(),
            ConcreteDevice::KVDevice(d) => d.label(),
        }
    }

    fn name(&self) -> (r: String)
        ensures
            match self {
                ConcreteDevice::FsDevice(d) => call_ensures(F::name, (d,), r),
                ConcreteDevice::KVDevice(_) => r@ == "kv-generic"@,
            },
    {
        match self {
            ConcreteDevice::FsDevice(d) => d.name(),
            ConcreteDevice::KVDevice(d) => d.name(),
        }
    }

    fn capacity(&self) -> (r: Result<usize, Fault>) {
        match self {
            ConcreteDevice::FsDevice(d) => d.capacity(),
            ConcreteDevice::KVDevice(d) => d.capacity(),
        }
    }

    fn write(&mut self, addr: usize, data: &[u8]) -> (r: Result<(), Fault>) {
        match self {
            ConcreteDevice::FsDevice(d) => d.write(addr, data),
            ConcreteDevice::KVDevice(d) => d.write(addr, data),
        }
    }

    fn read(&self, addr: usize, size: usize) -> (r: Result<Vec<u8>, Fault>) {
        match self {
            ConcreteDevice::FsDevice(d) => d.read(addr, size),
            ConcreteDevice::KVDevice(d) => d.read(addr, size),
        }
    }
}

} // verus!
