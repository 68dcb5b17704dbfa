//! Devices one after the other, as one disk.
use crate::codec::{copy_range, push_bytes, splice};
use crate::crypto::{
    apply_is_seekable, apply_undoes_itself, crypted, Cipher, Crypto, KEYSTREAM_LIMIT,
};
use crate::device::logical::LogicalDevice;
use crate::device::{within, Device};
use crate::error::{seen, Fault};
use vstd::prelude::*;

verus! {

/// A device and the addresses of the disk that it covers, the end not included.
pub struct PinnedDevice<D> {
    start: usize,
    end: usize,
    device: LogicalDevice<D>,
}

/// The disk: all devices in order, and the cipher for what is kept secret.
pub struct Controller<D> {
    pinned_devices: Vec<PinnedDevice<D>>,
    crypto: Option<Crypto>,
}

/// Parts one after the other.
pub open spec fn flat(parts: Seq<Seq<u8>>) -> Seq<u8>
    decreases parts.len(),
{
    if parts.len() == 0 {
        Seq::empty()
    } else {
        flat(parts.drop_last()) + parts.last()
    }
}

/// Where part `k` starts.
pub open spec fn offset(parts: Seq<Seq<u8>>, k: int) -> int {
    flat(parts.subrange(0, k)).len() as int
}

/// The bytes of each device.
pub open spec fn contents<D: Device>(devices: Seq<LogicalDevice<D>>) -> Seq<Seq<u8>> {
    Seq::new(devices.len(), |i: int| devices[i].content())
}

/// The bytes of devices, one after the other.
pub open spec fn joined<D: Device>(devices: Seq<LogicalDevice<D>>) -> Seq<u8> {
    flat(contents(devices))
}

proof fn lemma_offset_step(parts: Seq<Seq<u8>>, k: int)
    requires
        0 <= k < parts.len(),
    ensures
        flat(parts.subrange(0, k + 1)) == flat(parts.subrange(0, k)) + parts[k],
        offset(parts, k + 1) == offset(parts, k) + parts[k].len(),
{
    assert(parts.subrange(0, k + 1).drop_last() =~= parts.subrange(0, k));
}

proof fn lemma_same_lens(a: Seq<Seq<u8>>, b: Seq<Seq<u8>>, k: int)
    requires
        a.len() == b.len(),
        0 <= k <= a.len(),
        forall|i: int| 0 <= i < a.len() ==> (#[trigger] a[i]).len() == b[i].len(),
    ensures
        offset(a, k) == offset(b, k),
    decreases k,
{
    if k > 0 {
        lemma_same_lens(a, b, k - 1);
        lemma_offset_step(a, k - 1);
        lemma_offset_step(b, k - 1);
        assert(a[k - 1].len() == b[k - 1].len());
    }
}

/// True if the keystream covers `size` bytes from `addr` on.
fn keystream_reaches(addr: usize, size: usize) -> (r: bool)
    ensures
        r == (addr + size <= KEYSTREAM_LIMIT),
{
    (addr as u64) <= KEYSTREAM_LIMIT && (size as u64) <= KEYSTREAM_LIMIT - addr as u64
}

proof fn lemma_offset_end(parts: Seq<Seq<u8>>)
    ensures
        offset(parts, 0) == 0,
        offset(parts, parts.len() as int) == flat(parts).len(),
{
    assert(parts.subrange(0, parts.len() as int) =~= parts);
}

proof fn lemma_offset_mono(parts: Seq<Seq<u8>>, j: int, k: int)
    requires
        0 <= j <= k <= parts.len(),
    ensures
        offset(parts, j) <= offset(parts, k),
    decreases k - j,
{
    if j < k {
        lemma_offset_mono(parts, j, k - 1);
        lemma_offset_step(parts, k - 1);
    }
}

/// The stretch that one part takes.
proof fn lemma_flat_part(parts: Seq<Seq<u8>>, k: int, j: int)
    requires
        0 <= j < k <= parts.len(),
    ensures
        offset(parts, j) + parts[j].len() <= offset(parts, k),
        flat(parts.subrange(0, k)).subrange(offset(parts, j), offset(parts, j) + parts[j].len())
            == parts[j],
    decreases k,
{
    lemma_offset_step(parts, k - 1);
    let lo = offset(parts, j);
    let hi = lo + parts[j].len();
    let b = flat(parts.subrange(0, k - 1));
    if j < k - 1 {
        lemma_flat_part(parts, k - 1, j);
        assert((b + parts[k - 1]).subrange(lo, hi) =~= b.subrange(lo, hi));
    } else {
        assert((b + parts[k - 1]).subrange(lo, hi) =~= parts[j]);
    }
}

/// Changing one part changes the stretch that it takes.
proof fn lemma_flat_update(parts: Seq<Seq<u8>>, k: int, j: int, at: int, data: Seq<u8>)
    requires
        0 <= j < parts.len(),
        0 <= k <= parts.len(),
        0 <= at,
        at + data.len() <= parts[j].len(),
    ensures
        ({
            let new = parts.update(j, splice(parts[j], at, data));
            flat(new.subrange(0, k)) == if k <= j {
                flat(parts.subrange(0, k))
            } else {
                splice(flat(parts.subrange(0, k)), offset(parts, j) + at, data)
            }
        }),
    decreases k,
{
    let new = parts.update(j, splice(parts[j], at, data));
    if k > 0 {
        lemma_flat_update(parts, k - 1, j, at, data);
        lemma_offset_step(parts, k - 1);
        lemma_offset_step(new, k - 1);
        if k - 1 >= j {
            if k - 1 > j {
                lemma_flat_part(parts, k - 1, j);
            }
            assert(flat(new.subrange(0, k)) =~= splice(
                flat(parts.subrange(0, k)),
                offset(parts, j) + at,
                data,
            ));
        }
    }
}

/// What reading `n` bytes at `addr` gives.
pub open spec fn raw_get(disk: Seq<u8>, addr: int, n: int) -> Result<Seq<u8>, Fault> {
    if n == 0 {
        Ok(Seq::empty())
    } else if within(addr, n, disk.len() as int) {
        Ok(disk.subrange(addr, addr + n))
    } else {
        Err(uncovered(disk, addr))
    }
}

/// The first address from `addr` on that no device covers.
pub open spec fn uncovered(disk: Seq<u8>, addr: int) -> Fault {
    Fault::NoDevice {
        addr: if addr < disk.len() {
            disk.len() as u64
        } else {
            addr as u64
        },
    }
}

/// The disk after writing `data` at `addr`, and whether that could be done.
pub open spec fn raw_put(disk: Seq<u8>, addr: int, data: Seq<u8>) -> (Seq<u8>, Result<(), Fault>) {
    if data.len() == 0 {
        (disk, Ok(()))
    } else if within(addr, data.len() as int, disk.len() as int) {
        (splice(disk, addr, data), Ok(()))
    } else {
        (disk, Err(uncovered(disk, addr)))
    }
}

/// The keystream reaches up to `end`.
pub open spec fn in_keystream(cipher: Option<Cipher>, end: int) -> bool {
    cipher is Some ==> end <= KEYSTREAM_LIMIT
}

/// What reading `n` secret bytes at `addr` gives.
pub open spec fn clear_get(cipher: Option<Cipher>, disk: Seq<u8>, addr: int, n: int) -> Result<
    Seq<u8>,
    Fault,
> {
    match raw_get(disk, addr, n) {
        Err(e) => Err(e),
        Ok(s) => if in_keystream(cipher, addr + n) {
            Ok(crypted(cipher, addr, s))
        } else {
            Err(Fault::KeystreamRange)
        },
    }
}

/// The disk after writing secret `data` at `addr`, and whether that could be done.
pub open spec fn clear_put(
    cipher: Option<Cipher>,
    disk: Seq<u8>,
    addr: int,
    data: Seq<u8>,
) -> (Seq<u8>, Result<(), Fault>) {
    if data.len() > 0 && !within(addr, data.len() as int, disk.len() as int) {
        (disk, Err(uncovered(disk, addr)))
    } else if !in_keystream(cipher, addr + data.len()) {
        (disk, Err(Fault::KeystreamRange))
    } else {
        raw_put(disk, addr, crypted(cipher, addr, data))
    }
}

/// The part of `n` bytes from `addr` on that lies between `start` and `end`: where it starts and
/// ends among the bytes.
pub open spec fn share(bounds: (usize, usize), addr: int, n: int) -> (int, int) {
    let lo = if bounds.0 > addr {
        bounds.0 as int
    } else {
        addr
    };
    let hi = if bounds.1 < addr + n {
        bounds.1 as int
    } else {
        addr + n
    };
    (lo - addr, hi - addr)
}

/// A device on which some copy took its share of `data`, written from `addr` on. A device that has
/// no share is as before.
pub open spec fn took_share<D: Device>(
    before: LogicalDevice<D>,
    after: LogicalDevice<D>,
    bounds: (usize, usize),
    addr: int,
    data: Seq<u8>,
) -> bool {
    let (lo, hi) = share(bounds, addr, data.len() as int);
    if lo < hi {
        exists|i: int|
            0 <= i < before.copies().len() && (#[trigger] after.copies()[i]).content() == splice(
                before.copies()[i].content(),
                addr + lo - bounds.0,
                data.subrange(lo, hi),
            )
    } else {
        after == before
    }
}

/// The share of a device in what is read from `addr` on is what some copy holds.
pub open spec fn gave_share<D: Device>(
    device: LogicalDevice<D>,
    bounds: (usize, usize),
    addr: int,
    data: Seq<u8>,
) -> bool {
    let (lo, hi) = share(bounds, addr, data.len() as int);
    lo < hi ==> exists|i: int|
        0 <= i < device.copies().len() && (#[trigger] device.copies()[i]).content().subrange(
            addr + lo - bounds.0,
            addr + hi - bounds.0,
        ) == data.subrange(lo, hi)
}

impl<D: Device> Controller<D> {
    /// The devices, in order.
    pub closed spec fn devices(&self) -> Seq<LogicalDevice<D>> {
        Seq::new(self.pinned_devices@.len(), |i: int| self.pinned_devices@[i].device)
    }

    /// Where a device starts and ends.
    pub closed spec fn bounds(&self) -> Seq<(usize, usize)> {
        Seq::new(
            self.pinned_devices@.len(),
            |i: int| (self.pinned_devices@[i].start, self.pinned_devices@[i].end),
        )
    }

    /// The devices lie next to one another, from address zero on.
    pub open spec fn wf(&self) -> bool {
        &&& self.bounds().len() == self.devices().len()
        &&& forall|i: int|
            0 <= i < self.devices().len() ==> (#[trigger] self.bounds()[i]).0 == offset(
                contents(self.devices()),
                i,
            ) && self.bounds()[i].1 == self.bounds()[i].0 + self.devices()[i].content().len()
        &&& forall|i: int| 0 <= i < self.devices().len() ==> (#[trigger] self.devices()[i]).wf()
    }

    /// All bytes of the disk, as they lie on the devices.
    pub open spec fn disk(&self) -> Seq<u8> {
        joined(self.devices())
    }

    /// Of every device the first copy answers.
    pub open spec fn steady(&self) -> bool {
        &&& self.wf()
        &&& forall|i: int|
            0 <= i < self.devices().len() ==> (#[trigger] self.devices()[i]).answers()
    }

    /// Reads are sure to give the bytes of the disk: the first copy of each device answers, or its
    /// copies agree and one of them answers.
    pub open spec fn legible(&self) -> bool {
        &&& self.wf()
        &&& forall|i: int|
            0 <= i < self.devices().len() ==> (#[trigger] self.devices()[i]).legible()
    }

    /// All copies of all devices answer and agree.
    pub open spec fn mirrored(&self) -> bool {
        forall|i: int|
            0 <= i < self.devices().len() ==> (#[trigger] self.devices()[i]).healthy()
                && self.devices()[i].coherent()
    }

    /// The copies of each device agree, whether they answer or not.
    pub open spec fn coherent(&self) -> bool {
        forall|i: int| 0 <= i < self.devices().len() ==> (#[trigger] self.devices()[i]).coherent()
    }

    /// Every device has a single copy, which agrees with itself.
    pub open spec fn single(&self) -> bool {
        &&& self.wf()
        &&& forall|i: int|
            0 <= i < self.devices().len() ==> (#[trigger] self.devices()[i]).copies().len() == 1
                && self.devices()[i].coherent()
    }

    /// What a read answers holds: always if reads are sure to give the bytes of the disk, and if
    /// the copies agree then whenever the read succeeded.
    pub open spec fn tells(&self, ok: bool) -> bool {
        self.legible() || ok && self.wf() && self.coherent()
    }

    /// What a write answers holds: always if the first copies answer, and if there are no other
    /// copies then whenever the write succeeded.
    pub open spec fn obeys(&self, ok: bool) -> bool {
        self.steady() || ok && self.single()
    }

    /// Each device that has a share in `data`, written from `addr` on, has a copy that took it.
    pub open spec fn took(before: &Self, after: &Self, addr: int, data: Seq<u8>) -> bool {
        forall|k: int|
            0 <= k < before.devices().len() ==> #[trigger] took_share(
                before.devices()[k],
                after.devices()[k],
                before.bounds()[k],
                addr,
                data,
            )
    }

    /// All of `data`, read from `addr` on, is held there by copies of the devices.
    pub open spec fn gave(&self, addr: int, data: Seq<u8>) -> bool {
        forall|k: int|
            0 <= k < self.devices().len() ==> #[trigger] gave_share(
                self.devices()[k],
                self.bounds()[k],
                addr,
                data,
            )
    }

    /// The cipher for what is kept secret.
    pub closed spec fn cipher(&self) -> Option<Cipher> {
        match self.crypto {
            Some(c) => Some(c@),
            None => None,
        }
    }

    /// The disk has as many bytes as the last device's end says.
    proof fn lemma_disk_len(&self)
        requires
            self.wf(),
        ensures
            self.disk().len() == if self.devices().len() == 0 {
                0
            } else {
                self.bounds()[self.devices().len() - 1].1 as int
            },
            self.devices().len() > 0 ==> self.bounds()[0].0 == 0,
    {
        let parts = contents(self.devices());
        lemma_offset_end(parts);
        if parts.len() > 0 {
            lemma_offset_step(parts, parts.len() - 1);
            assert(self.bounds()[parts.len() - 1].0 == offset(parts, parts.len() - 1));
            assert(self.bounds()[0].0 == offset(parts, 0));
        }
    }

    /// A disk without devices has no bytes.
    pub proof fn lemma_no_devices(&self)
        requires
            self.devices().len() == 0,
        ensures
            self.disk().len() == 0,
    {
    }

    /// The disk made of the given devices.
    pub fn from(devices: Vec<LogicalDevice<D>>) -> (r: Result<Self, Fault>)
        requires
            forall|i: int| 0 <= i < devices@.len() ==> (#[trigger] devices@[i]).copies().len() > 0,
        ensures
            r is Ok ==> r->Ok_0.wf() && r->Ok_0.devices() == devices@ && r->Ok_0.cipher() is None,
            (forall|i: int|
                0 <= i < devices@.len() ==> (#[trigger] devices@[i]).healthy() && devices@[i].wf())
                && joined(devices@).len() <= usize::MAX ==> r is Ok,
    {
        let mut rest = devices;
        let ghost all = devices@;
        let mut logical_end: usize = 0;
        let mut c: Controller<D> = Controller { pinned_devices: Vec::new(), crypto: None };
        assert(c.devices() =~= all.subrange(0, 0));
        while rest.len() > 0
            invariant
                c.pinned_devices@.len() + rest@.len() == all.len(),
                c.wf(),
                c.cipher() is None,
                c.devices() == all.subrange(0, c.pinned_devices@.len() as int),
                rest@ == all.subrange(c.pinned_devices@.len() as int, all.len() as int),
                logical_end == c.disk().len(),
                all == devices@,
                forall|i: int| 0 <= i < all.len() ==> (#[trigger] all[i]).copies().len() > 0,
            decreases rest@.len(),
        {
            let ghost n = c.pinned_devices@.len() as int;
            let device = rest.remove(0);
            assert(device == all[n]);
            let size: usize = match device.validate_layout() {
                Ok(s) => s,
                Err(e) => {
                    assert(!(all[n].healthy() && all[n].wf()));
                    return Err(e);
                },
            };
            let start: usize = logical_end;
            proof {
                let parts = contents(all);
                assert(contents(all.subrange(0, n)) =~= parts.subrange(0, n));
                lemma_offset_step(parts, n);
                lemma_offset_mono(parts, n + 1, parts.len() as int);
                lemma_offset_end(parts);
            }
            if size > usize::MAX - logical_end {
                return Err(Fault::CapacityOverflow);
            }
            logical_end = logical_end + size;
            let ghost before = c;
            c.pinned_devices.push(PinnedDevice { start, end: logical_end, device });
            proof {
                let parts = contents(all);
                assert(c.devices() =~= before.devices().push(device));
                assert(c.devices() =~= all.subrange(0, n + 1));
                assert(c.bounds() =~= before.bounds().push((start, logical_end)));
                assert(contents(c.devices()) =~= parts.subrange(0, n + 1));
                assert(contents(before.devices()) =~= parts.subrange(0, n));
                assert forall|i: int| 0 <= i < c.devices().len() implies (
                #[trigger] c.bounds()[i]).0 == offset(contents(c.devices()), i) && c.bounds()[i].1
                    == c.bounds()[i].0 + c.devices()[i].content().len() by {
                    assert(parts.subrange(0, n + 1).subrange(0, i) =~= parts.subrange(0, i));
                    if i < n {
                        assert(parts.subrange(0, n).subrange(0, i) =~= parts.subrange(0, i));
                        assert(c.bounds()[i] == before.bounds()[i]);
                        assert(c.devices()[i] == before.devices()[i]);
                    }
                }
                assert forall|i: int| 0 <= i < c.devices().len() implies (
                #[trigger] c.devices()[i]).wf() by {
                    if i < n {
                        assert(before.devices()[i].wf());
                    }
                }
                assert(rest@ =~= all.subrange(n + 1, all.len() as int));
            }
        }
        assert(c.devices() =~= all);
        Ok(c)
    }

    /// From now on keeps secrets with `crypto`.
    pub fn setup_crypto(&mut self, crypto: Crypto)
        ensures
            final(self).cipher() == Some(crypto@),
            final(self).devices() == old(self).devices(),
            final(self).bounds() == old(self).bounds(),
            old(self).wf() ==> final(self).wf(),
            old(self).steady() ==> final(self).steady(),
            old(self).mirrored() ==> final(self).mirrored(),
            old(self).single() ==> final(self).single(),
    {
        let ghost before = *self;
        self.crypto = Some(crypto);
        assert(self.devices() == before.devices());
        assert(self.bounds() == before.bounds());
        proof {
            before.lemma_same_layout(self);
        }
    }

    /// `data`, which lies at `addr`, with the keystream applied if there is a cipher.
    pub fn encrypt_apply(&self, addr: usize, data: Vec<u8>) -> (r: Vec<u8>)
        requires
            in_keystream(self.cipher(), addr + data@.len()),
        ensures
            r@ == crypted(self.cipher(), addr as int, data@),
    {
        let mut out = data;
        if let Some(crypto) = &self.crypto {
            crypto.apply(addr as u64, &mut out);
        }
        out
    }

    /// Number of bytes of the disk; none if it has no device.
    pub fn total_capacity(&self) -> (r: Option<usize>)
        requires
            self.wf(),
        ensures
            r is None <==> self.devices().len() == 0,
            r is Some ==> r->0 == self.disk().len(),
    {
        proof {
            self.lemma_disk_len();
        }
        let n: usize = self.pinned_devices.len();
        if n == 0 {
            return None;
        }
        assert(self.bounds()[0].0 == 0);
        assert(self.bounds()[n - 1].1 == self.pinned_devices@[n - 1].end);
        Some(self.pinned_devices[n - 1].end - self.pinned_devices[0].start)
    }

    /// The device that covers an address.
    fn find_device(&self, addr: usize) -> (r: usize)
        requires
            self.wf(),
            addr < self.disk().len(),
        ensures
            r < self.devices().len(),
            self.bounds()[r as int].0 <= addr < self.bounds()[r as int].1,
    {
        let ghost parts = contents(self.devices());
        proof {
            lemma_offset_end(parts);
        }
        let mut i: usize = 0;
        while i < self.pinned_devices.len()
            invariant
                i <= self.pinned_devices@.len(),
                self.wf(),
                parts == contents(self.devices()),
                offset(parts, i as int) <= addr,
                addr < offset(parts, self.pinned_devices@.len() as int),
            decreases self.pinned_devices@.len() - i,
        {
            proof {
                assert(self.bounds()[i as int].0 == offset(parts, i as int));
                lemma_offset_step(parts, i as int);
            }
            if addr < self.pinned_devices[i].end {
                return i;
            }
            i = i + 1;
        }
        proof {
            assert(false);
        }
        0
    }

    /// One device was written; the others and all bounds are as before.
    proof fn lemma_device_written(
        before: &Self,
        after: &Self,
        k: int,
        at: int,
        data: Seq<u8>,
    )
        requires
            before.wf(),
            0 <= k < before.devices().len(),
            after.bounds() == before.bounds(),
            after.devices() == before.devices().update(k, after.devices()[k]),
            after.devices()[k].wf(),
            after.devices()[k].content().len() == before.devices()[k].content().len(),
            0 <= at,
            at + data.len() <= before.devices()[k].content().len(),
        ensures
            after.wf(),
            after.disk().len() == before.disk().len(),
            after.devices()[k].content() == splice(before.devices()[k].content(), at, data)
                ==> after.disk() == splice(before.disk(), before.bounds()[k].0 + at, data),
    {
        let a = contents(before.devices());
        let b = contents(after.devices());
        assert forall|i: int| 0 <= i < a.len() implies #[trigger] offset(b, i) == offset(a, i) by {
            lemma_same_lens(a, b, i);
        }
        assert forall|i: int| 0 <= i < after.devices().len() implies (
        #[trigger] after.bounds()[i]).0 == offset(contents(after.devices()), i)
            && after.bounds()[i].1 == after.bounds()[i].0 + after.devices()[i].content().len() by {
            assert(before.bounds()[i].0 == offset(a, i));
            assert(offset(b, i) == offset(a, i));
        }
        assert forall|i: int| 0 <= i < after.devices().len() implies (
        #[trigger] after.devices()[i]).wf() by {
            assert(before.devices()[i].wf());
        }
        before.lemma_disk_len();
        after.lemma_disk_len();
        if after.devices()[k].content() == splice(before.devices()[k].content(), at, data) {
            assert(b =~= a.update(k, splice(a[k], at, data)));
            lemma_flat_update(a, a.len() as int, k, at, data);
            assert(a.subrange(0, a.len() as int) =~= a);
            assert(b.subrange(0, b.len() as int) =~= b);
            assert(before.bounds()[k].0 == offset(a, k));
        }
    }

    /// Devices cover their addresses one after the other.
    proof fn lemma_in_order(&self, j: int, k: int)
        requires
            self.wf(),
            0 <= j < k < self.devices().len(),
        ensures
            self.bounds()[j].0 <= self.bounds()[j].1 <= self.bounds()[k].0 <= self.bounds()[k].1,
    {
        let parts = contents(self.devices());
        lemma_offset_step(parts, j);
        lemma_offset_mono(parts, j + 1, k);
        assert(self.bounds()[j].0 == offset(parts, j));
        assert(self.bounds()[k].0 == offset(parts, k));
    }

    /// Behind the end of one device the next one starts.
    proof fn lemma_at_start(&self, at: int, j: int, k: int)
        requires
            self.wf(),
            0 <= j < self.devices().len(),
            0 <= k < self.devices().len(),
            self.bounds()[j].1 == at,
            self.bounds()[k].0 <= at < self.bounds()[k].1,
        ensures
            self.bounds()[k].0 == at,
    {
        if k < j {
            self.lemma_in_order(k, j);
        } else if j < k {
            self.lemma_in_order(j, k);
        }
    }

    /// One more device took its share.
    proof fn lemma_took_more(
        start: &Self,
        was: &Self,
        now: &Self,
        addr: int,
        data: Seq<u8>,
        done: int,
        len: int,
        k: int,
    )
        requires
            start.wf(),
            was.wf(),
            was.bounds() == start.bounds(),
            was.devices().len() == start.devices().len(),
            0 <= k < was.devices().len(),
            now.devices() == was.devices().update(k, now.devices()[k]),
            0 <= addr,
            0 <= done,
            0 < len,
            done + len <= data.len(),
            start.bounds()[k].0 <= addr + done,
            addr + done + len <= start.bounds()[k].1,
            done > 0 ==> start.bounds()[k].0 == addr + done,
            Self::took(start, was, addr, data.subrange(0, done)),
            exists|i: int|
                0 <= i < was.devices()[k].copies().len() && (
                #[trigger] now.devices()[k].copies()[i]).content() == splice(
                    was.devices()[k].copies()[i].content(),
                    addr + done - start.bounds()[k].0,
                    data.subrange(done, done + len),
                ),
        ensures
            Self::took(start, now, addr, data.subrange(0, done + len)),
    {
        let old_part = data.subrange(0, done);
        let new_part = data.subrange(0, done + len);
        assert forall|j: int| 0 <= j < start.devices().len() implies #[trigger] took_share(
            start.devices()[j],
            now.devices()[j],
            start.bounds()[j],
            addr,
            new_part,
        ) by {
            assert(took_share(
                start.devices()[j],
                was.devices()[j],
                start.bounds()[j],
                addr,
                old_part,
            ));
            let (lo, hi) = share(start.bounds()[j], addr, done);
            let (lo2, hi2) = share(start.bounds()[j], addr, done + len);
            if j < k {
                start.lemma_in_order(j, k);
                if lo < hi {
                    assert(new_part.subrange(lo, hi) =~= old_part.subrange(lo, hi));
                }
            } else if k < j {
                start.lemma_in_order(k, j);
            } else {
                assert(was.devices()[k] == start.devices()[k]);
                assert(new_part.subrange(lo2, hi2) =~= data.subrange(done, done + len));
            }
        }
    }

    /// One more device gave its share.
    proof fn lemma_gave_more(
        &self,
        addr: int,
        had: Seq<u8>,
        chunk: Seq<u8>,
        k: int,
        i: int,
    )
        requires
            self.wf(),
            0 <= k < self.devices().len(),
            0 <= addr,
            0 < chunk.len(),
            self.bounds()[k].0 <= addr + had.len(),
            addr + had.len() + chunk.len() <= self.bounds()[k].1,
            had.len() > 0 ==> self.bounds()[k].0 == addr + had.len(),
            self.gave(addr, had),
            0 <= i < self.devices()[k].copies().len(),
            chunk == self.devices()[k].copies()[i].content().subrange(
                addr + had.len() - self.bounds()[k].0,
                addr + had.len() + chunk.len() - self.bounds()[k].0,
            ),
        ensures
            self.gave(addr, had + chunk),
    {
        let all = had + chunk;
        let done = had.len() as int;
        let len = chunk.len() as int;
        assert forall|j: int| 0 <= j < self.devices().len() implies #[trigger] gave_share(
            self.devices()[j],
            self.bounds()[j],
            addr,
            all,
        ) by {
            assert(gave_share(self.devices()[j], self.bounds()[j], addr, had));
            let (lo, hi) = share(self.bounds()[j], addr, done);
            let (lo2, hi2) = share(self.bounds()[j], addr, done + len);
            if j < k {
                self.lemma_in_order(j, k);
                if lo < hi {
                    assert(all.subrange(lo, hi) =~= had.subrange(lo, hi));
                }
            } else if k < j {
                self.lemma_in_order(k, j);
            } else {
                assert(all.subrange(lo2, hi2) =~= chunk);
            }
        }
    }

    /// Writes bytes as they are. Nothing is written if some address has no device. Success means
    /// that each device with a share in the bytes has a copy that took it.
    pub fn raw_write(&mut self, logical_addr: usize, data: &[u8]) -> (r: Result<(), Fault>)
        requires
            old(self).wf(),
        ensures
            final(self).wf(),
            final(self).cipher() == old(self).cipher(),
            final(self).bounds() == old(self).bounds(),
            final(self).disk().len() == old(self).disk().len(),
            data@.len() == 0 ==> *final(self) == *old(self) && r == Ok::<(), Fault>(()),
            data@.len() > 0 && !within(
                logical_addr as int,
                data@.len() as int,
                old(self).disk().len() as int,
            ) ==> *final(self) == *old(self) && r == Err::<(), _>(
                uncovered(old(self).disk(), logical_addr as int),
            ),
            r is Ok ==> Self::took(old(self), final(self), logical_addr as int, data@),
            old(self).single() ==> final(self).single(),
            old(self).mirrored() ==> final(self).mirrored(),
            old(self).steady() ==> final(self).steady(),
            old(self).obeys(r is Ok) ==> (final(self).disk(), r) == raw_put(
                old(self).disk(),
                logical_addr as int,
                data@,
            ),
    {
        let n: usize = data.len();
        proof {
            assert forall|k: int| 0 <= k < self.devices().len() implies #[trigger] took_share(
                self.devices()[k],
                self.devices()[k],
                self.bounds()[k],
                logical_addr as int,
                data@.subrange(0, 0),
            ) by {}
            assert(n == 0 ==> data@.subrange(0, 0) =~= data@);
        }
        if n == 0 {
            return Ok(());
        }
        let total: usize = match self.total_capacity() {
            Some(t) => t,
            None => {
                proof {
                    self.lemma_disk_len();
                }
                0
            },
        };
        if logical_addr >= total {
            return Err(Fault::NoDevice { addr: logical_addr as u64 });
        }
        if n > total - logical_addr {
            return Err(Fault::NoDevice { addr: total as u64 });
        }
        let ghost before = self.disk();
        let ghost sure = self.steady() || self.single();
        let mut done: usize = 0;
        assert(before =~= splice(before, logical_addr as int, data@.subrange(0, 0)));
        while done < n
            invariant
                done <= n,
                n == data@.len(),
                before == old(self).disk(),
                sure == (old(self).steady() || old(self).single()),
                total == before.len(),
                logical_addr + n <= total,
                old(self).wf(),
                self.wf(),
                self.cipher() == old(self).cipher(),
                self.bounds() == old(self).bounds(),
                self.devices().len() == old(self).devices().len(),
                self.disk().len() == before.len(),
                Self::took(old(self), self, logical_addr as int, data@.subrange(0, done as int)),
                0 < done < n ==> exists|j: int|
                    0 <= j < self.devices().len() && (#[trigger] self.bounds()[j]).1 == logical_addr
                        + done,
                old(self).single() ==> self.single(),
                old(self).mirrored() ==> self.mirrored(),
                old(self).steady() ==> self.steady(),
                sure ==> self.disk() == splice(
                    before,
                    logical_addr as int,
                    data@.subrange(0, done as int),
                ),
            decreases n - done,
        {
            let at: usize = logical_addr + done;
            let k: usize = self.find_device(at);
            assert(self.bounds()[k as int].0 == self.pinned_devices@[k as int].start);
            assert(self.bounds()[k as int].1 == self.pinned_devices@[k as int].end);
            assert(self.devices()[k as int].wf());
            let local: usize = at - self.pinned_devices[k].start;
            let room: usize = self.pinned_devices[k].end - at;
            let len: usize = if room < n - done {
                room
            } else {
                n - done
            };
            let chunk = vstd::slice::slice_subrange(data, done, done + len);
            let ghost was = *self;
            proof {
                if done > 0 {
                    let j = choose|j: int|
                        0 <= j < was.devices().len() && (#[trigger] was.bounds()[j]).1 == at;
                    was.lemma_at_start(at as int, j, k as int);
                }
            }
            let res = self.pinned_devices[k].device.write(local, chunk);
            proof {
                assert(self.devices() =~= was.devices().update(
                    k as int,
                    self.devices()[k as int],
                ));
                assert(self.bounds() =~= was.bounds());
                Self::lemma_device_written(&was, self, k as int, local as int, chunk@);
                if old(self).steady() {
                    assert(was.devices()[k as int].answers());
                    assert forall|i: int| 0 <= i < self.devices().len() implies (
                    #[trigger] self.devices()[i]).answers() by {
                        if i != k {
                            assert(was.devices()[i].answers());
                        }
                    }
                }
                if old(self).mirrored() {
                    assert(was.devices()[k as int].healthy());
                    assert forall|i: int| 0 <= i < self.devices().len() implies (
                    #[trigger] self.devices()[i]).healthy() && self.devices()[i].coherent() by {
                        if i != k {
                            assert(was.devices()[i].healthy());
                        }
                    }
                }
                if old(self).single() {
                    assert(was.devices()[k as int].copies().len() == 1);
                    assert forall|i: int| 0 <= i < self.devices().len() implies (
                    #[trigger] self.devices()[i]).copies().len() == 1
                        && self.devices()[i].coherent() by {
                        if i != k {
                            assert(was.devices()[i].copies().len() == 1);
                        } else {
                            let c = self.devices()[i].content();
                            assert(c.subrange(0, c.len() as int) =~= c);
                        }
                    }
                }
            }
            match res {
                Ok(()) => {},
                Err(e) => return Err(e),
            }
            proof {
                Self::lemma_took_more(
                    old(self),
                    &was,
                    self,
                    logical_addr as int,
                    data@,
                    done as int,
                    len as int,
                    k as int,
                );
                if sure {
                    assert(self.disk() =~= splice(
                        before,
                        logical_addr as int,
                        data@.subrange(0, done + len),
                    ));
                }
                if done + len < n {
                    assert(self.bounds()[k as int].1 == logical_addr + done + len);
                }
            }
            done = done + len;
        }
        assert(data@.subrange(0, n as int) =~= data@);
        Ok(())
    }

    /// Reads bytes as they are. What is read is held by copies of the devices.
    pub fn raw_read(&self, logical_addr: usize, size: usize) -> (r: Result<Vec<u8>, Fault>)
        requires
            self.wf(),
        ensures
            r is Ok ==> r->Ok_0@.len() == size,
            r is Ok ==> size == 0 || within(
                logical_addr as int,
                size as int,
                self.disk().len() as int,
            ),
            size == 0 ==> r is Ok,
            size > 0 && !within(logical_addr as int, size as int, self.disk().len() as int)
                ==> seen(r) == Err::<Seq<u8>, _>(uncovered(self.disk(), logical_addr as int)),
            r is Ok ==> self.gave(logical_addr as int, r->Ok_0@),
            self.tells(r is Ok) ==> seen(r) == raw_get(
                self.disk(),
                logical_addr as int,
                size as int,
            ),
    {
        let mut out: Vec<u8> = Vec::new();
        assert(out@ =~= Seq::empty());
        assert(self.gave(logical_addr as int, out@));
        if size == 0 {
            return Ok(out);
        }
        let total: usize = match self.total_capacity() {
            Some(t) => t,
            None => {
                proof {
                    self.lemma_disk_len();
                }
                0
            },
        };
        if logical_addr >= total {
            return Err(Fault::NoDevice { addr: logical_addr as u64 });
        }
        if size > total - logical_addr {
            return Err(Fault::NoDevice { addr: total as u64 });
        }
        let ghost all = self.disk();
        let mut done: usize = 0;
        assert(out@ =~= all.subrange(logical_addr as int, logical_addr as int));
        while done < size
            invariant
                done <= size,
                self.wf(),
                all == self.disk(),
                total == all.len(),
                logical_addr + size <= total,
                out@.len() == done,
                self.gave(logical_addr as int, out@),
                0 < done < size ==> exists|j: int|
                    0 <= j < self.devices().len() && (#[trigger] self.bounds()[j]).1 == logical_addr
                        + done,
                self.coherent() || self.legible() ==> out@ == all.subrange(
                    logical_addr as int,
                    logical_addr + done,
                ),
            decreases size - done,
        {
            let at: usize = logical_addr + done;
            let k: usize = self.find_device(at);
            assert(self.bounds()[k as int].0 == self.pinned_devices@[k as int].start);
            assert(self.bounds()[k as int].1 == self.pinned_devices@[k as int].end);
            assert(self.devices()[k as int].wf());
            assert(self.devices()[k as int] == self.pinned_devices@[k as int].device);
            let local: usize = at - self.pinned_devices[k].start;
            let room: usize = self.pinned_devices[k].end - at;
            let len: usize = if room < size - done {
                room
            } else {
                size - done
            };
            let chunk = match self.pinned_devices[k].device.read(local, len) {
                Ok(c) => c,
                Err(e) => {
                    assert(!self.legible()) by {
                        if self.legible() {
                            assert(self.devices()[k as int].legible());
                        }
                    }
                    return Err(e);
                },
            };
            let ghost had = out@;
            push_bytes(&mut out, chunk.as_slice());
            proof {
                let d = self.devices()[k as int];
                if done > 0 {
                    let j = choose|j: int|
                        0 <= j < self.devices().len() && (#[trigger] self.bounds()[j]).1 == at;
                    self.lemma_at_start(at as int, j, k as int);
                }
                let i = choose|i: int|
                    0 <= i < d.copies().len() && chunk@ == (
                    #[trigger] d.copies()[i]).content().subrange(local as int, local + len);
                assert(out@ =~= had + chunk@);
                self.lemma_gave_more(logical_addr as int, had, chunk@, k as int, i);
                if self.coherent() || self.legible() {
                    assert(self.coherent() ==> d.coherent());
                    assert(self.legible() ==> d.legible());
                    let parts = contents(self.devices());
                    lemma_flat_part(parts, parts.len() as int, k as int);
                    assert(parts.subrange(0, parts.len() as int) =~= parts);
                    assert(self.bounds()[k as int].0 == offset(parts, k as int));
                    let base = offset(parts, k as int);
                    let part = all.subrange(base, base + parts[k as int].len());
                    assert(chunk@ =~= all.subrange(at as int, at + len)) by {
                        assert(part.subrange(local as int, local + len) =~= all.subrange(
                            at as int,
                            at + len,
                        ));
                    }
                    assert(out@ =~= all.subrange(logical_addr as int, at + len));
                }
                if done + len < size {
                    assert(self.bounds()[k as int].1 == logical_addr + done + len);
                }
            }
            done = done + len;
        }
        Ok(out)
    }

    /// Writes bytes that are to be kept secret.
    pub fn write(&mut self, logical_addr: usize, data: &[u8]) -> (r: Result<(), Fault>)
        requires
            old(self).wf(),
        ensures
            final(self).wf(),
            final(self).cipher() == old(self).cipher(),
            final(self).bounds() == old(self).bounds(),
            final(self).disk().len() == old(self).disk().len(),
            data@.len() == 0 || clear_put(
                old(self).cipher(),
                old(self).disk(),
                logical_addr as int,
                data@,
            ).1 is Err ==> *final(self) == *old(self) && r == clear_put(
                old(self).cipher(),
                old(self).disk(),
                logical_addr as int,
                data@,
            ).1,
            r is Ok ==> Self::took(
                old(self),
                final(self),
                logical_addr as int,
                crypted(old(self).cipher(), logical_addr as int, data@),
            ),
            old(self).single() ==> final(self).single(),
            old(self).mirrored() ==> final(self).mirrored(),
            old(self).steady() ==> final(self).steady(),
            old(self).obeys(r is Ok) ==> (final(self).disk(), r) == clear_put(
                old(self).cipher(),
                old(self).disk(),
                logical_addr as int,
                data@,
            ),
    {
        let n: usize = data.len();
        let total: usize = match self.total_capacity() {
            Some(t) => t,
            None => {
                proof {
                    self.lemma_disk_len();
                }
                0
            },
        };
        if n > 0 && logical_addr >= total {
            return Err(Fault::NoDevice { addr: logical_addr as u64 });
        }
        if n > 0 && n > total - logical_addr {
            return Err(Fault::NoDevice { addr: total as u64 });
        }
        if self.crypto.is_some() && !keystream_reaches(logical_addr, n) {
            return Err(Fault::KeystreamRange);
        }
        let secret = self.encrypt_apply(logical_addr, copy_range(data, 0, n));
        assert(data@.subrange(0, n as int) =~= data@);
        self.raw_write(logical_addr, secret.as_slice())
    }

    /// Reads bytes that are kept secret.
    pub fn read(&self, logical_addr: usize, size: usize) -> (r: Result<Vec<u8>, Fault>)
        requires
            self.wf(),
        ensures
            r is Ok ==> r->Ok_0@.len() == size,
            size > 0 && !within(logical_addr as int, size as int, self.disk().len() as int)
                ==> seen(r) == Err::<Seq<u8>, _>(uncovered(self.disk(), logical_addr as int)),
            r is Ok ==> exists|raw: Seq<u8>| #[trigger]
                self.gave(logical_addr as int, raw) && raw.len() == size && r->Ok_0@ == crypted(
                    self.cipher(),
                    logical_addr as int,
                    raw,
                ),
            self.tells(r is Ok) || size == 0 ==> seen(r) == clear_get(
                self.cipher(),
                self.disk(),
                logical_addr as int,
                size as int,
            ),
    {
        let data = match self.raw_read(logical_addr, size) {
            Ok(d) => d,
            Err(e) => return Err(e),
        };
        assert(size == 0 ==> data@ =~= Seq::empty());
        if self.crypto.is_some() && !keystream_reaches(logical_addr, size) {
            return Err(Fault::KeystreamRange);
        }
        Ok(self.encrypt_apply(logical_addr, data))
    }

    proof fn lemma_same_layout(&self, other: &Self)
        requires
            self.devices() == other.devices(),
            self.bounds() == other.bounds(),
        ensures
            self.wf() ==> other.wf(),
            self.steady() ==> other.steady(),
            self.mirrored() ==> other.mirrored(),
            self.single() ==> other.single(),
    {
    }
}

/// What a disk holds once secrets are laid open.
pub open spec fn plain(cipher: Option<Cipher>, disk: Seq<u8>) -> Seq<u8> {
    crypted(cipher, 0, disk)
}

/// Reading secret bytes gives the part of the laid-open disk.
pub proof fn lemma_clear_get(cipher: Option<Cipher>, disk: Seq<u8>, addr: int, n: int)
    requires
        0 <= addr,
        0 <= n,
        within(addr, n, disk.len() as int),
    ensures
        crypted(cipher, addr, disk.subrange(addr, addr + n)) == plain(cipher, disk).subrange(
            addr,
            addr + n,
        ),
        plain(cipher, disk).len() == disk.len(),
        n > 0 && in_keystream(cipher, addr + n) ==> clear_get(cipher, disk, addr, n) == Ok::<
            _,
            Fault,
        >(plain(cipher, disk).subrange(addr, addr + n)),
{
    apply_is_seekable(cipher, 0, disk, addr, addr + n);
}

/// Writing secret bytes changes the part of the laid-open disk.
pub proof fn lemma_clear_put(cipher: Option<Cipher>, disk: Seq<u8>, addr: int, data: Seq<u8>)
    requires
        0 <= addr,
        within(addr, data.len() as int, disk.len() as int),
    ensures
        plain(cipher, splice(disk, addr, crypted(cipher, addr, data))) == splice(
            plain(cipher, disk),
            addr,
            data,
        ),
{
    let secret = crypted(cipher, addr, data);
    apply_undoes_itself(cipher, addr, data);
    let a = plain(cipher, splice(disk, addr, secret));
    let b = splice(plain(cipher, disk), addr, data);
    assert forall|i: int| 0 <= i < disk.len() implies a[i] == b[i] by {
        if addr <= i < addr + data.len() {
            assert(crypted(cipher, addr, secret)[i - addr] == data[i - addr]);
        }
    }
    assert(a =~= b);
}

/// What is written to the disk in secret is read back.
pub proof fn disk_write_read(cipher: Option<Cipher>, disk: Seq<u8>, addr: int, data: Seq<u8>)
    requires
        0 <= addr,
        clear_put(cipher, disk, addr, data).1 is Ok,
    ensures
        clear_get(cipher, clear_put(cipher, disk, addr, data).0, addr, data.len() as int) == Ok::<
            _,
            Fault,
        >(data),
{
    let new = clear_put(cipher, disk, addr, data).0;
    if data.len() == 0 {
        assert(crypted(cipher, addr, Seq::empty()) =~= data);
    } else {
        lemma_clear_put(cipher, disk, addr, data);
        lemma_clear_get(cipher, new, addr, data.len() as int);
        assert(plain(cipher, new).subrange(addr, addr + data.len()) =~= data);
    }
}

/// A write leaves every stretch of the disk alone that it does not touch.
pub proof fn disk_write_frame(
    cipher: Option<Cipher>,
    disk: Seq<u8>,
    addr: int,
    data: Seq<u8>,
    other: int,
    n: int,
)
    requires
        0 <= addr,
        0 <= other,
        0 <= n,
        other + n <= addr || addr + data.len() <= other,
    ensures
        clear_get(cipher, clear_put(cipher, disk, addr, data).0, other, n) == clear_get(
            cipher,
            disk,
            other,
            n,
        ),
        raw_get(clear_put(cipher, disk, addr, data).0, other, n) == raw_get(disk, other, n),
        clear_get(cipher, raw_put(disk, addr, data).0, other, n) == clear_get(
            cipher,
            disk,
            other,
            n,
        ),
        raw_get(raw_put(disk, addr, data).0, other, n) == raw_get(disk, other, n),
{
    let a = clear_put(cipher, disk, addr, data).0;
    let b = raw_put(disk, addr, data).0;
    if within(other, n, disk.len() as int) {
        assert(a.subrange(other, other + n) =~= disk.subrange(other, other + n));
        assert(b.subrange(other, other + n) =~= disk.subrange(other, other + n));
    }
}

/// What is written to the disk as it is is read back.
pub proof fn disk_raw_write_read(disk: Seq<u8>, addr: int, data: Seq<u8>)
    requires
        0 <= addr,
        raw_put(disk, addr, data).1 is Ok,
    ensures
        raw_get(raw_put(disk, addr, data).0, addr, data.len() as int) == Ok::<_, Fault>(data),
{
    if data.len() == 0 {
        assert(data =~= Seq::empty());
    } else {
        assert(splice(disk, addr, data).subrange(addr, addr + data.len()) =~= data);
    }
}

} // verus!
