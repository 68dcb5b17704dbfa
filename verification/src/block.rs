//! Copies of a block that must all accept a write.
use crate::codec::splice;
use crate::device::{within, Device};
use crate::error::Fault;
use vstd::prelude::*;

verus! {

/// Devices that are to hold the same bytes.
pub struct Block<D> {
    is_root: bool,
    max_concurrent: usize,
    replica: Vec<D>,
}

impl<D: Device> Block<D> {
    /// The copies, in the order in which they are used.
    pub closed spec fn copies(&self) -> Seq<D> {
        self.replica@
    }

    /// Whether this is the root block, and how many requests may run at the same time.
    pub closed spec fn traits(&self) -> (bool, usize) {
        (self.is_root, self.max_concurrent)
    }

    /// A block over the given copies.
    pub fn new(is_root: bool, max_concurrent: usize, devices: Vec<D>) -> (r: Result<Self, Fault>)
        ensures
            devices@.len() == 0 ==> r is Err && r->Err_0 == Fault::NoDevices,
            devices@.len() > 0 ==> r is Ok && r->Ok_0.copies() == devices@ && r->Ok_0.traits() == (
                is_root,
                max_concurrent,
            ),
    {
        if devices.len() == 0 {
            return Err(Fault::NoDevices);
        }
        Ok(Block { is_root, max_concurrent, replica: devices })
    }

    /// Writes to the copies until one of them fails.
    pub fn write(&mut self, addr: usize, data: &[u8]) -> (r: Result<(), Fault>)
        ensures
            final(self).traits() == old(self).traits(),
            final(self).copies().len() == old(self).copies().len(),
            r is Ok ==> forall|i: int|
                0 <= i < old(self).copies().len() && within(
                    addr as int,
                    data@.len() as int,
                    (#[trigger] old(self).copies()[i]).content().len() as int,
                ) ==> final(self).copies()[i].content() == splice(
                    old(self).copies()[i].content(),
                    addr as int,
                    data@,
                ),
            (forall|i: int|
                0 <= i < old(self).copies().len() ==> (#[trigger] old(self).copies()[i]).healthy()
                    && within(
                    addr as int,
                    data@.len() as int,
                    old(self).copies()[i].content().len() as int,
                )) ==> r is Ok,
    {
        let ghost before = self.copies();
        let mut i: usize = 0;
        while i < self.replica.len()
            invariant
                i <= self.replica@.len(),
                before == old(self).copies(),
                self.traits() == old(self).traits(),
                self.replica@.len() == before.len(),
                forall|k: int| i <= k < before.len() ==> self.replica@[k] == before[k],
                forall|k: int|
                    0 <= k < i && within(
                        addr as int,
                        data@.len() as int,
                        (#[trigger] before[k]).content().len() as int,
                    ) ==> self.replica@[k].content() == splice(
                        before[k].content(),
                        addr as int,
                        data@,
                    ),
            decreases self.replica@.len() - i,
        {
            assert(self.replica@[i as int] == before[i as int]);
            match self.replica[i].write(addr, data) {
                Ok(()) => {},
                Err(e) => return Err(e),
            }
            i = i + 1;
        }
        Ok(())
    }

    /// Reads from the first copy that answers.
    pub fn read(&self, addr: usize, size: usize) -> (r: Result<Vec<u8>, Fault>)
        ensures
            r is Ok ==> exists|i: int|
                0 <= i < self.copies().len() && (within(
                    addr as int,
                    size as int,
                    (#[trigger] self.copies()[i]).content().len() as int,
                ) ==> r->Ok_0@ == self.copies()[i].content().subrange(addr as int, addr + size)),
            (exists|i: int|
                0 <= i < self.copies().len() && (#[trigger] self.copies()[i]).healthy() && within(
                    addr as int,
                    size as int,
                    self.copies()[i].content().len() as int,
                )) ==> r is Ok,
            r is Err ==> r->Err_0 == Fault::AllReplicasFailed,
    {
        let mut i: usize = 0;
        while i < self.replica.len()
            invariant
                i <= self.replica@.len(),
                forall|k: int|
                    0 <= k < i ==> !((#[trigger] self.copies()[k]).healthy() && within(
                        addr as int,
                        size as int,
                        self.copies()[k].content().len() as int,
                    )),
            decreases self.replica@.len() - i,
        {
            match self.replica[i].read(addr, size) {
                Ok(data) => {
                    assert(self.copies()[i as int] == self.replica@[i as int]);
                    return Ok(data);
                },
                Err(_) => {},
            }
            i = i + 1;
        }
        Err(Fault::AllReplicasFailed)
    }
}

/// Where an address of a block lies in a file that holds the `size` bytes from `offset` on.
pub fn local_address(addr: usize, len: usize, offset: usize, size: usize) -> (r: Result<
    usize,
    Fault,
>)
    ensures
        addr >= offset && addr - offset + len <= size ==> r == Ok::<usize, Fault>(
            (addr - offset) as usize,
        ),
        addr < offset || addr - offset + len > size ==> r == Err::<usize, Fault>(
            Fault::OutsideFile { start: addr as u64, size: len as u64, len: size as u64 },
        ),
{
    if addr < offset {
        return Err(Fault::OutsideFile { start: addr as u64, size: len as u64, len: size as u64 });
    }
    let local: usize = addr - offset;
    if local > size || len > size - local {
        return Err(Fault::OutsideFile { start: addr as u64, size: len as u64, len: size as u64 });
    }
    Ok(local)
}

} // verus!
