//! A volume that lives in memory.
use crate::codec::zeros;
use crate::crypto::KeyDerivation;
use crate::device::disk::{contents, flat, Controller};
use crate::device::kv_device::{KVDevice, MemoryKV};
use crate::device::logical::LogicalDevice;
use crate::device::{Device, KeyValue};
use crate::error::{Fault, XHFSError};
use crate::xhfs::image::Image;
use crate::xhfs::mount::formatted;
use crate::xhfs::XHFS;
use std::collections::HashMap;
use vstd::prelude::*;

verus! {

/// Number of bytes of a value in memory.
pub const MEMORY_SLOT: usize = 1024;

/// Bytes that are zero and copies that answer and agree.
spec fn blank(d: LogicalDevice<KVDevice<MemoryKV>>, unit: nat) -> bool {
    &&& d.wf()
    &&& d.healthy()
    &&& d.coherent()
    &&& d.content() == zeros(unit)
}

/// An empty device in memory.
fn empty_device(unit_capacity: usize) -> (r: KVDevice<MemoryKV>)
    requires
        unit_capacity % 1024 == 0,
    ensures
        r.healthy(),
        r.content() == zeros(unit_capacity as nat),
{
    broadcast use vstd::std_specs::hash::group_hash_axioms;

    let store: HashMap<u64, Vec<u8>> = HashMap::new();
    let d = KVDevice {
        total_slots: unit_capacity / 1024,
        slot_capacity: 1024,
        store: MemoryKV(store),
    };
    assert(d.store.pairs() =~= Map::empty());
    assert(d.content() =~= zeros(unit_capacity as nat));
    d
}

/// Copies of an empty device in memory.
fn empty_logical(unit_capacity: usize, replica_count: u8) -> (r: Result<
    LogicalDevice<KVDevice<MemoryKV>>,
    Fault,
>)
    requires
        unit_capacity % 1024 == 0,
    ensures
        replica_count == 0 ==> r is Err && r->Err_0 == Fault::NoDevices,
        replica_count > 0 ==> r is Ok && r->Ok_0.copies().len() > 0 && blank(
            r->Ok_0,
            unit_capacity as nat,
        ),
{
    let mut devices: Vec<KVDevice<MemoryKV>> = Vec::new();
    let mut i: u8 = 0;
    while i < replica_count
        invariant
            i <= replica_count,
            devices@.len() == i,
            unit_capacity % 1024 == 0,
            forall|k: int|
                0 <= k < i ==> (#[trigger] devices@[k]).healthy() && devices@[k].content()
                    == zeros(unit_capacity as nat),
        decreases replica_count - i,
    {
        devices.push(empty_device(unit_capacity));
        i = i + 1;
    }
    let r = LogicalDevice::new(2, devices);
    proof {
        if r is Ok {
            let d = r->Ok_0;
            assert forall|k: int| 0 <= k < d.copies().len() implies (
            #[trigger] d.copies()[k]).content().subrange(0, d.content().len() as int)
                == d.content() by {
                assert(d.copies()[k].content().subrange(0, d.content().len() as int)
                    =~= d.copies()[k].content());
            }
        }
    }
    r
}

/// Equal stretches of zeros one after the other are one stretch of zeros.
proof fn lemma_flat_zeros(parts: Seq<Seq<u8>>, unit: nat)
    requires
        forall|i: int| 0 <= i < parts.len() ==> #[trigger] parts[i] == zeros(unit),
    ensures
        flat(parts) == zeros(parts.len() * unit),
    decreases parts.len(),
{
    if parts.len() > 0 {
        lemma_flat_zeros(parts.drop_last(), unit);
        let n = parts.len() - 1;
        assert(n * unit + unit == (n + 1) * unit) by (nonlinear_arith);
        assert(parts.last() == zeros(unit));
        assert(flat(parts) =~= zeros(parts.len() * unit));
    } else {
        assert(flat(parts) =~= zeros(0));
        assert(parts.len() * unit == 0) by (nonlinear_arith)
            requires
                parts.len() == 0,
        ;
    }
}

/// Formats `logical_count` devices in memory of `unit_capacity` bytes and `replica_count` copies
/// each, without a password.
pub fn create_simple_memory_xhfs(
    unit_capacity: usize,
    replica_count: u8,
    logical_count: usize,
    nonce: [u8; 12],
    now: u64,
) -> (r: Result<XHFS<KVDevice<MemoryKV>>, XHFSError>)
    requires
        unit_capacity * logical_count <= usize::MAX,
    ensures
        r is Ok ==> r->Ok_0.wf() && r->Ok_0.steady(),
        unit_capacity % 1024 != 0 ==> r is Err && r->Err_0 == (XHFSError::Error {
            err: Fault::UnevenCapacity { unit: 1024 },
        }),
        unit_capacity % 1024 == 0 && logical_count > 0 && replica_count == 0 ==> r is Err
            && r->Err_0 == (XHFSError::Error { err: Fault::NoDevices }),
        unit_capacity % 1024 == 0 && logical_count == 0 ==> r is Err && r->Err_0 == (
        XHFSError::Error { err: Fault::NothingToFormat }),
        unit_capacity % 1024 == 0 && logical_count > 0 && replica_count > 0 ==> ({
            let m = formatted(
                zeros((unit_capacity * logical_count) as nat),
                None,
                None,
                KeyDerivation::Sha256,
                nonce@,
                now,
            );
            match r {
                Ok(x) => m == Ok::<_, XHFSError>(x.image()),
                Err(e) => m == Err::<Image, _>(e),
            }
        }),
{
    if unit_capacity % MEMORY_SLOT != 0 {
        return Err(XHFSError::from_report(Fault::UnevenCapacity { unit: 1024 }));
    }
    let mut devices: Vec<LogicalDevice<KVDevice<MemoryKV>>> = Vec::new();
    let mut i: usize = 0;
    while i < logical_count
        invariant
            i <= logical_count,
            devices@.len() == i,
            unit_capacity % 1024 == 0,
            i > 0 ==> replica_count > 0,
            forall|k: int|
                0 <= k < i ==> blank(#[trigger] devices@[k], unit_capacity as nat)
                    && devices@[k].copies().len() > 0,
        decreases logical_count - i,
    {
        match empty_logical(unit_capacity, replica_count) {
            Ok(d) => {
                devices.push(d);
            },
            Err(e) => return Err(XHFSError::from_report(e)),
        }
        i = i + 1;
    }
    proof {
        let parts = contents(devices@);
        assert forall|k: int| 0 <= k < parts.len() implies #[trigger] parts[k] == zeros(
            unit_capacity as nat,
        ) by {
            assert(blank(devices@[k], unit_capacity as nat));
        }
        lemma_flat_zeros(parts, unit_capacity as nat);
        assert(logical_count * unit_capacity == unit_capacity * logical_count) by (nonlinear_arith);
    }
    let ctrl = match Controller::from(devices) {
        Ok(c) => c,
        Err(e) => return Err(XHFSError::from_report(e)),
    };
    proof {
        assert forall|k: int| 0 <= k < ctrl.devices().len() implies (
        #[trigger] ctrl.devices()[k]).healthy() && ctrl.devices()[k].coherent() by {
            assert(blank(devices@[k], unit_capacity as nat));
        }
    }
    let kd = KeyDerivation::default();
    XHFS::format_new_at(ctrl, None, &kd, nonce, now)
}

} // verus!
