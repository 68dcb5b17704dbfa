//! A device that is kept in several copies.
use crate::codec::splice;
use crate::device::{within, Device};
use crate::error::Fault;
use vstd::prelude::*;

verus! {

/// Devices that hold the same bytes.
pub struct LogicalDevice<D> {
    max_concurrent: usize,
    replica: Vec<D>,
}

impl<D: Device> LogicalDevice<D> {
    /// The copies, in the order in which they are read.
    pub closed spec fn copies(&self) -> Seq<D> {
        self.replica@
    }

    /// Number of requests that may run at the same time.
    pub closed spec fn concurrency(&self) -> usize {
        self.max_concurrent
    }

    /// The bytes of the first copy.
    pub open spec fn content(&self) -> Seq<u8> {
        self.copies()[0].content()
    }

    /// There is a copy, and no copy is smaller than the first.
    pub open spec fn wf(&self) -> bool {
        &&& self.copies().len() > 0
        &&& forall|i: int|
            0 <= i < self.copies().len() ==> (#[trigger] self.copies()[i]).content().len()
                >= self.content().len()
    }

    /// All copies hold the same bytes.
    pub open spec fn coherent(&self) -> bool {
        forall|i: int|
            0 <= i < self.copies().len() ==> (#[trigger] self.copies()[i]).content().subrange(
                0,
                self.content().len() as int,
            ) == self.content()
    }

    /// The first copy answers.
    pub open spec fn answers(&self) -> bool {
        self.copies()[0].healthy()
    }

    /// Reads are sure to give the bytes of the first copy: it answers, or the copies agree and one
    /// of them answers.
    pub open spec fn legible(&self) -> bool {
        self.answers() || self.coherent() && exists|i: int|
            0 <= i < self.copies().len() && (#[trigger] self.copies()[i]).healthy()
    }

    /// All copies answer.
    pub open spec fn healthy(&self) -> bool {
        forall|i: int| 0 <= i < self.copies().len() ==> (#[trigger] self.copies()[i]).healthy()
    }

    /// A device over the given copies.
    pub fn new(max_concurrent: usize, devices: Vec<D>) -> (r: Result<Self, Fault>)
        ensures
            max_concurrent < 1 ==> r is Err && r->Err_0 == Fault::NoConcurrency,
            max_concurrent >= 1 && devices@.len() == 0 ==> r is Err && r->Err_0 == Fault::NoDevices,
            max_concurrent >= 1 && devices@.len() > 0 ==> r is Ok && r->Ok_0.copies() == devices@
                && r->Ok_0.concurrency() == max_concurrent,
    {
        if max_concurrent < 1 {
            return Err(Fault::NoConcurrency);
        }
        if devices.len() == 0 {
            return Err(Fault::NoDevices);
        }
        Ok(LogicalDevice { max_concurrent, replica: devices })
    }

    /// The capacity of the first copy, unless another copy has less.
    pub fn validate_layout(&self) -> (r: Result<usize, Fault>)
        requires
            self.copies().len() > 0,
        ensures
            r is Ok ==> self.wf() && r->Ok_0 == self.content().len(),
            self.healthy() && self.wf() ==> r is Ok,
            self.healthy() && !self.wf() ==> exists|i: int|
                0 <= i < self.copies().len() && (forall|k: int|
                    0 <= k < i ==> (#[trigger] self.copies()[k]).content().len()
                        >= self.content().len()) && (#[trigger] self.copies()[i]).content().len()
                    < self.content().len() && r == Err::<usize, _>(
                    Fault::ReplicaTooSmall {
                        expected: self.content().len() as u64,
                        got: self.copies()[i].content().len() as u64,
                    },
                ),
    {
        let mut sizes: Vec<usize> = Vec::new();
        let mut i: usize = 0;
        while i < self.replica.len()
            invariant
                i <= self.replica@.len(),
                sizes@.len() == i,
                forall|k: int|
                    0 <= k < i ==> #[trigger] sizes@[k] == self.replica@[k].content().len(),
            decreases self.replica@.len() - i,
        {
            let size: usize = match self.replica[i].capacity() {
                Ok(c) => c,
                Err(e) => {
                    assert(!self.copies()[i as int].healthy());
                    return Err(e);
                },
            };
            sizes.push(size);
            i = i + 1;
        }
        let expected: usize = sizes[0];
        let mut j: usize = 0;
        while j < sizes.len()
            invariant
                j <= sizes@.len(),
                sizes@.len() == self.replica@.len(),
                sizes@.len() > 0,
                expected == sizes@[0],
                forall|k: int|
                    0 <= k < sizes@.len() ==> #[trigger] sizes@[k]
                        == self.replica@[k].content().len(),
                forall|k: int| 0 <= k < j ==> #[trigger] sizes@[k] >= expected,
            decreases sizes@.len() - j,
        {
            if sizes[j] < expected {
                proof {
                    assert(self.copies()[j as int].content().len() < self.content().len());
                    assert forall|k: int| 0 <= k < j implies (
                    #[trigger] self.copies()[k]).content().len() >= self.content().len() by {
                        assert(sizes@[k] >= expected);
                    }
                }
                return Err(
                    Fault::ReplicaTooSmall { expected: expected as u64, got: sizes[j] as u64 },
                );
            }
            j = j + 1;
        }
        assert forall|k: int| 0 <= k < self.copies().len() implies (
        #[trigger] self.copies()[k]).content().len() >= self.content().len() by {
            assert(sizes@[k] >= expected);
        }
        Ok(expected)
    }

    /// Writes to every copy, also after one has failed. It fails if and only if every copy fails:
    /// success means that some copy took the data.
    pub fn write(&mut self, addr: usize, data: &[u8]) -> (r: Result<(), Fault>)
        requires
            old(self).wf(),
        ensures
            final(self).wf(),
            final(self).concurrency() == old(self).concurrency(),
            final(self).copies().len() == old(self).copies().len(),
            final(self).content().len() == old(self).content().len(),
            forall|i: int|
                0 <= i < old(self).copies().len() && (#[trigger] old(self).copies()[i]).healthy()
                    && within(
                    addr as int,
                    data@.len() as int,
                    old(self).copies()[i].content().len() as int,
                ) ==> r is Ok && final(self).copies()[i].healthy()
                    && final(self).copies()[i].content() == splice(
                    old(self).copies()[i].content(),
                    addr as int,
                    data@,
                ),
            r is Ok && within(addr as int, data@.len() as int, old(self).content().len() as int)
                ==> exists|i: int|
                0 <= i < old(self).copies().len() && (#[trigger] final(self).copies()[i]).content()
                    == splice(old(self).copies()[i].content(), addr as int, data@),
            old(self).answers() && within(
                addr as int,
                data@.len() as int,
                old(self).content().len() as int,
            ) ==> {
                &&& r is Ok
                &&& final(self).answers()
                &&& final(self).content() == splice(old(self).content(), addr as int, data@)
            },
            old(self).healthy() && within(
                addr as int,
                data@.len() as int,
                old(self).content().len() as int,
            ) ==> {
                &&& r is Ok
                &&& final(self).healthy()
                &&& final(self).content() == splice(old(self).content(), addr as int, data@)
                &&& old(self).coherent() ==> final(self).coherent()
            },
            r is Err ==> r->Err_0 == (Fault::AllWritesFailed {
                count: old(self).copies().len() as u64,
            }),
    {
        let ghost before = self.copies();
        let mut failed: usize = 0;
        let mut i: usize = 0;
        while i < self.replica.len()
            invariant
                i <= self.replica@.len(),
                failed <= i,
                before == old(self).copies(),
                self.max_concurrent == old(self).max_concurrent,
                self.replica@.len() == before.len(),
                before.len() > 0,
                forall|k: int|
                    0 <= k < before.len() ==> (#[trigger] before[k]).content().len()
                        >= before[0].content().len(),
                forall|k: int|
                    0 <= k < before.len() ==> (#[trigger] self.replica@[k]).content().len()
                        == before[k].content().len(),
                forall|k: int| i <= k < before.len() ==> self.replica@[k] == before[k],
                failed < i && within(
                    addr as int,
                    data@.len() as int,
                    before[0].content().len() as int,
                ) ==> exists|k: int|
                    0 <= k < i && (#[trigger] self.replica@[k]).content() == splice(
                        before[k].content(),
                        addr as int,
                        data@,
                    ),
                forall|k: int|
                    0 <= k < i && (#[trigger] before[k]).healthy() && within(
                        addr as int,
                        data@.len() as int,
                        before[k].content().len() as int,
                    ) ==> failed < i
                        && self.replica@[k].healthy() && self.replica@[k].content() == splice(
                        before[k].content(),
                        addr as int,
                        data@,
                    ),
            decreases self.replica@.len() - i,
        {
            assert(before[i as int].content().len() >= before[0].content().len());
            let ghost had = self.replica@;
            match self.replica[i].write(addr, data) {
                Ok(()) => {
                    proof {
                        if within(addr as int, data@.len() as int, before[0].content().len() as int) {
                            assert(self.replica@[i as int].content() == splice(
                                before[i as int].content(),
                                addr as int,
                                data@,
                            ));
                        }
                    }
                },
                Err(_) => {
                    failed = failed + 1;
                },
            }
            proof {
                assert forall|k: int| 0 <= k < i implies self.replica@[k] == had[k] by {}
            }
            i = i + 1;
        }
        proof {
            let n = before[0].content().len() as int;
            assert(self.copies()[0].content().len() == n);
            assert forall|k: int| 0 <= k < self.copies().len() implies (
            #[trigger] self.copies()[k]).content().len() >= self.content().len() by {
                assert(before[k].content().len() >= n);
            }
            if old(self).healthy() && within(addr as int, data@.len() as int, n) {
                assert(before[0].healthy());
                assert forall|k: int| 0 <= k < self.copies().len() implies (
                #[trigger] self.copies()[k]).healthy() by {
                    assert(before[k].healthy());
                }
                if old(self).coherent() {
                    assert forall|k: int| 0 <= k < self.copies().len() implies (
                    #[trigger] self.copies()[k]).content().subrange(0, n) == self.content() by {
                        assert(before[k].healthy());
                        let a = before[k].content();
                        let b = before[0].content();
                        assert(a.subrange(0, n) == b);
                        assert forall|j: int| 0 <= j < n implies splice(
                            a,
                            addr as int,
                            data@,
                        ).subrange(0, n)[j] == splice(b, addr as int, data@)[j] by {
                            assert(a.subrange(0, n)[j] == a[j]);
                        }
                        assert(splice(a, addr as int, data@).subrange(0, n) =~= splice(
                            b,
                            addr as int,
                            data@,
                        ));
                    }
                }
            }
        }
        if failed == self.replica.len() {
            return Err(Fault::AllWritesFailed { count: failed as u64 });
        }
        Ok(())
    }

    /// Reads from the first copy that answers.
    pub fn read(&self, addr: usize, size: usize) -> (r: Result<Vec<u8>, Fault>)
        requires
            self.wf(),
        ensures
            r is Ok ==> r->Ok_0@.len() == size,
            within(addr as int, size as int, self.content().len() as int) ==> {
                &&& r is Ok && self.coherent() ==> r->Ok_0@ == self.content().subrange(
                    addr as int,
                    addr + size,
                )
                &&& r is Ok ==> exists|i: int|
                    0 <= i < self.copies().len() && (forall|k: int|
                        0 <= k < i ==> !(#[trigger] self.copies()[k]).healthy()) && r->Ok_0@ == (
                    #[trigger] self.copies()[i]).content().subrange(addr as int, addr + size)
                &&& (exists|i: int|
                    0 <= i < self.copies().len() && (#[trigger] self.copies()[i]).healthy())
                    ==> r is Ok
            },
            self.legible() && within(addr as int, size as int, self.content().len() as int) ==> r
                is Ok && r->Ok_0@ == self.content().subrange(addr as int, addr + size),
            r is Err ==> r->Err_0 == Fault::AllReplicasFailed,
    {
        let mut i: usize = 0;
        while i < self.replica.len()
            invariant
                i <= self.replica@.len(),
                self.wf(),
                within(addr as int, size as int, self.content().len() as int) ==> forall|k: int|
                    0 <= k < i ==> !(#[trigger] self.copies()[k]).healthy(),
            decreases self.replica@.len() - i,
        {
            assert(self.copies()[i as int].content().len() >= self.content().len());
            match self.replica[i].read(addr, size) {
                Ok(data) => {
                    proof {
                        if self.coherent() && within(addr as int, size as int, self.content().len() as int) {
                            let n = self.content().len() as int;
                            let a = self.copies()[i as int].content();
                            assert(a.subrange(0, n) == self.content());
                            assert(a.subrange(addr as int, addr + size) =~= a.subrange(
                                0,
                                n,
                            ).subrange(addr as int, addr + size));
                        }
                    }
                    return Ok(data);
                },
                Err(_) => {},
            }
            i = i + 1;
        }
        Err(Fault::AllReplicasFailed)
    }
}

} // verus!
