use std::cell::Cell;
use std::collections::HashMap;
use std::rc::Rc;
use xhfs::block::{local_address, Block};
use xhfs::crypto::KeyDerivation;
use xhfs::device::disk::Controller;
use xhfs::device::http_device::{fetched_reply, stored_reply, HttpKV};
use xhfs::device::kv_device::{KVDevice, MemoryKV};
use xhfs::device::logical::LogicalDevice;
use xhfs::device::{ConcreteDevice, Device};
use xhfs::error::Fault;
use xhfs::xhfs::tree::WriteOption;
use xhfs::xhfs::XHFS;

type Memory = KVDevice<MemoryKV>;

/// Bytes in one piece.
struct Flat {
    bytes: Vec<u8>,
    broken: bool,
}

impl Flat {
    fn new(n: usize) -> Flat {
        Flat { bytes: vec![0; n], broken: false }
    }
}

impl Device for Flat {
    fn name(&self) -> String {
        "flat".to_string()
    }

    fn capacity(&self) -> Result<usize, Fault> {
        Ok(self.bytes.len())
    }

    fn write(&mut self, addr: usize, data: &[u8]) -> Result<(), Fault> {
        if self.broken {
            return Err(Fault::DeviceFailure { code: 1 });
        }
        self.bytes[addr..addr + data.len()].copy_from_slice(data);
        Ok(())
    }

    fn read(&self, addr: usize, size: usize) -> Result<Vec<u8>, Fault> {
        if self.broken {
            return Err(Fault::DeviceFailure { code: 1 });
        }
        Ok(self.bytes[addr..addr + size].to_vec())
    }
}

fn memory(total_slots: usize, slot_capacity: usize) -> Memory {
    KVDevice { store: MemoryKV(HashMap::new()), total_slots, slot_capacity }
}

#[test]
fn test_kv_device() -> Result<(), Fault> {
    let mut device = memory(10, 4);
    let data = "ABC D";
    let addr = 4;
    let size = data.len();
    device.write(addr, data.as_bytes())?;
    assert_eq!(
        data.as_bytes(),
        device.read(addr, size)?,
        "write and read back same data"
    );

    let mut device = memory(7, 3);
    device.write(2, b"HELLOWORLD")?;
    assert_eq!(device.read(2, 10)?, b"HELLOWORLD", "verify exact readback");
    assert_eq!(
        device.read(0, 16)?,
        vec![0, 0, b'H', b'E', b'L', b'L', b'O', b'W', b'O', b'R', b'L', b'D', 0, 0, 0, 0],
        "verify surrounding zero-padding"
    );
    device.write(5, b"XYZ")?;
    assert_eq!(
        device.read(2, 10)?,
        b"HELXYZORLD",
        "partial overwrite inside existing slot chain"
    );
    assert_eq!(device.read(4, 5)?, b"LXYZO", "mid-slot read");
    Ok(())
}

#[test]
fn devices_have_the_name_of_their_kind() {
    let flat: ConcreteDevice<Flat, MemoryKV> = ConcreteDevice::FsDevice(Flat::new(4));
    let store: ConcreteDevice<Flat, MemoryKV> = ConcreteDevice::KVDevice(memory(2, 2));
    assert_eq!(flat.name(), "flat");
    assert_eq!(store.name(), "kv-generic");
    assert_eq!(memory(1, 1).name(), "kv-generic");
}

#[test]
fn test_logical_device() -> Result<(), Fault> {
    let dev1 = ConcreteDevice::FsDevice(Flat::new(20));
    let dev2 = ConcreteDevice::FsDevice(Flat::new(20));
    let dev3 = ConcreteDevice::KVDevice(memory(6, 7));
    let dev4 = ConcreteDevice::KVDevice(memory(4, 5));

    let mut dev1: LogicalDevice<ConcreteDevice<Flat, MemoryKV>> =
        LogicalDevice::new(2, vec![dev1, dev4, dev2])?;
    let mut dev2 = LogicalDevice::new(2, vec![dev3])?;

    for device in [&mut dev1, &mut dev2] {
        device.write(2, b"HELLOWORLD")?;
        assert_eq!(device.read(2, 10)?, b"HELLOWORLD", "verify exact readback");
        assert_eq!(
            device.read(0, 16)?,
            vec![0, 0, b'H', b'E', b'L', b'L', b'O', b'W', b'O', b'R', b'L', b'D', 0, 0, 0, 0],
            "verify surrounding zero-padding"
        );
        device.write(5, b"XYZ")?;
        assert_eq!(
            device.read(2, 10)?,
            b"HELXYZORLD",
            "partial overwrite inside existing slot chain"
        );
        assert_eq!(device.read(4, 5)?, b"LXYZO", "mid-slot read");
    }

    let mut ctrl = Controller::from(vec![dev1, dev2])?;
    assert_eq!(
        ctrl.total_capacity().unwrap(),
        20 + 6 * 7,
        "total block size accounting for addressing"
    );
    ctrl.write(2, b"HELLOWORLD")?;
    assert_eq!(ctrl.read(2, 10)?, b"HELLOWORLD", "verify exact readback");
    assert_eq!(
        ctrl.read(0, 16)?,
        vec![0, 0, b'H', b'E', b'L', b'L', b'O', b'W', b'O', b'R', b'L', b'D', 0, 0, 0, 0],
        "verify surrounding zero-padding"
    );
    ctrl.write(5, b"XYZ")?;
    assert_eq!(
        ctrl.read(2, 10)?,
        b"HELXYZORLD",
        "partial overwrite inside existing slot chain"
    );
    assert_eq!(ctrl.read(4, 5)?, b"LXYZO", "mid-slot read");
    Ok(())
}

#[test]
fn writes_cross_devices() -> Result<(), Fault> {
    let a = LogicalDevice::new(1, vec![memory(2, 5)])?;
    let b = LogicalDevice::new(1, vec![memory(5, 2)])?;
    let mut ctrl = Controller::from(vec![a, b])?;
    ctrl.raw_write(7, b"abcdef")?;
    assert_eq!(ctrl.raw_read(7, 6)?, b"abcdef");
    assert_eq!(ctrl.raw_read(6, 8)?, b"\0abcdef\0");
    assert_eq!(ctrl.raw_write(18, b"abc"), Err(Fault::NoDevice { addr: 20 }));
    assert_eq!(ctrl.raw_read(20, 1), Err(Fault::NoDevice { addr: 20 }));
    assert_eq!(ctrl.raw_read(18, 2)?, vec![0, 0], "a refused write changes nothing");
    Ok(())
}

#[test]
fn replicas_survive_a_broken_copy() -> Result<(), Fault> {
    let mut copies = vec![Flat::new(8), Flat::new(8)];
    copies[0].broken = true;
    let mut device = LogicalDevice::new(2, copies)?;
    device.write(0, b"hi")?;
    assert_eq!(device.read(0, 2)?, b"hi");
    let mut dead = vec![Flat::new(8)];
    dead[0].broken = true;
    let mut device = LogicalDevice::new(2, dead)?;
    assert_eq!(device.write(0, b"hi"), Err(Fault::AllWritesFailed { count: 1 }));
    assert_eq!(device.read(0, 2), Err(Fault::AllReplicasFailed));
    Ok(())
}

#[test]
fn replicas_are_checked() {
    assert!(matches!(
        LogicalDevice::new(0, vec![Flat::new(8)]),
        Err(Fault::NoConcurrency)
    ));
    let none: Vec<Flat> = vec![];
    assert!(matches!(LogicalDevice::new(1, none), Err(Fault::NoDevices)));
    let uneven = LogicalDevice::new(1, vec![Flat::new(8), Flat::new(7)]).unwrap();
    assert_eq!(
        uneven.validate_layout(),
        Err(Fault::ReplicaTooSmall { expected: 8, got: 7 })
    );
    let larger = LogicalDevice::new(1, vec![Flat::new(8), Flat::new(9)]).unwrap();
    assert_eq!(larger.validate_layout(), Ok(8));
}

#[test]
fn store_devices_know_their_bounds() {
    let mut device = memory(2, 3);
    assert_eq!(device.capacity(), Ok(6));
    assert_eq!(device.read(3, 3), Ok(vec![0, 0, 0]));
    assert!(device.read(4, 3).is_err());
    assert!(device.write(4, b"abc").is_err());
    assert_eq!(device.read(3, 3), Ok(vec![0, b'a', b'b']), "slots are written one by one");
    let huge = memory(usize::MAX, 2);
    assert_eq!(huge.capacity(), Err(Fault::CapacityOverflow));
}

#[test]
fn blocks_need_all_copies() {
    let mut block = Block::new(true, 2, vec![Flat::new(4), Flat::new(4)]).unwrap();
    assert_eq!(block.write(1, b"xy"), Ok(()));
    assert_eq!(block.read(0, 4), Ok(vec![0, b'x', b'y', 0]));
    let mut copies = vec![Flat::new(4), Flat::new(4)];
    copies[1].broken = true;
    let mut block = Block::new(false, 2, copies).unwrap();
    assert_eq!(block.write(1, b"xy"), Err(Fault::DeviceFailure { code: 1 }));
    assert_eq!(block.read(0, 1), Ok(vec![0]));
    let none: Vec<Flat> = vec![];
    assert!(matches!(Block::new(false, 1, none), Err(Fault::NoDevices)));
    assert_eq!(local_address(12, 3, 10, 5), Ok(2));
    assert!(local_address(12, 4, 10, 5).is_err());
    assert!(local_address(9, 1, 10, 5).is_err());
}

#[test]
fn remote_keys_and_replies() {
    let kv = HttpKV {
        url: "http://host:80".to_string(),
        key_prefix: "blob".to_string(),
        headers: vec![],
    };
    assert_eq!(kv.to_internal(1203), "xhfs-blob-1203");
    assert_eq!(kv.key_url(0), "http://host:80/xhfs/xhfs-blob-0");
    assert_eq!(stored_reply(204), Ok(()));
    assert_eq!(stored_reply(500), Err(Fault::DeviceFailure { code: 500 }));
    assert_eq!(fetched_reply(200, vec![1]), Ok(Some(vec![1])));
    assert_eq!(fetched_reply(404, vec![1]), Ok(None));
    assert_eq!(fetched_reply(403, vec![1]), Err(Fault::DeviceFailure { code: 403 }));
}

#[test]
fn writes_fail_when_all_copies_fail() {
    let broken = || Flat { bytes: vec![0; 8], broken: true };
    let mut none = LogicalDevice::new(1, vec![broken(), broken()]).unwrap();
    assert_eq!(none.write(0, b"x"), Err(Fault::AllWritesFailed { count: 2 }));
    assert_eq!(none.read(0, 1), Err(Fault::AllReplicasFailed));
    let mut one = LogicalDevice::new(1, vec![broken(), Flat::new(8)]).unwrap();
    assert_eq!(one.write(0, b"x"), Ok(()));
    assert_eq!(one.read(0, 1).unwrap(), b"x");

    let left = LogicalDevice::new(1, vec![Flat::new(4)]).unwrap();
    let right = LogicalDevice::new(1, vec![Flat { bytes: vec![0; 4], broken: true }]).unwrap();
    let mut disk = Controller::from(vec![left, right]).unwrap();
    assert_eq!(disk.raw_write(0, b"abcd"), Ok(()));
    assert_eq!(disk.raw_write(2, b"abcd"), Err(Fault::AllWritesFailed { count: 1 }));
    assert_eq!(disk.raw_read(2, 4), Err(Fault::AllReplicasFailed));
    assert_eq!(disk.write(4, b""), Ok(()));
    assert_eq!(disk.raw_write(7, b"ab"), Err(Fault::NoDevice { addr: 8 }));
}

/// A device that can be switched off.
struct Switched {
    inner: Flat,
    down: Rc<Cell<bool>>,
}

impl Device for Switched {
    fn name(&self) -> String {
        "switched".to_string()
    }

    fn capacity(&self) -> Result<usize, Fault> {
        self.inner.capacity()
    }

    fn write(&mut self, addr: usize, data: &[u8]) -> Result<(), Fault> {
        if self.down.get() {
            return Err(Fault::DeviceFailure { code: 2 });
        }
        self.inner.write(addr, data)
    }

    fn read(&self, addr: usize, size: usize) -> Result<Vec<u8>, Fault> {
        if self.down.get() {
            return Err(Fault::DeviceFailure { code: 2 });
        }
        self.inner.read(addr, size)
    }
}

#[test]
fn volumes_live_on_the_copies_that_are_left() {
    let first = Rc::new(Cell::new(false));
    let second = Rc::new(Cell::new(false));
    let copies = [&first, &second]
        .iter()
        .map(|down| Switched { inner: Flat::new(84221025), down: Rc::clone(down) })
        .collect();
    let disk = Controller::from(vec![LogicalDevice::new(2, copies).unwrap()]).unwrap();
    let mut xhfs = XHFS::format_new(disk, Some("pw"), &KeyDerivation::Sha256).unwrap();
    let opt = WriteOption { overwrite: false, modified: None };
    xhfs.fwrite("/a", b"both".to_vec(), opt).unwrap();

    first.set(true);
    assert_eq!(xhfs.fread("/a").unwrap(), b"both");
    assert_eq!(xhfs.ls("/").unwrap(), ["a".to_string()]);
    first.set(false);

    second.set(true);
    xhfs.fwrite("/b", b"first".to_vec(), opt).unwrap();
    xhfs.mkdir("/d", false).unwrap();
    assert_eq!(xhfs.fread("/b").unwrap(), b"first");
    assert_eq!(xhfs.fseek("/a", 1, 3).unwrap(), b"ot");

    first.set(true);
    assert!(xhfs.fwrite("/c", b"none".to_vec(), opt).is_err());
    assert!(xhfs.fread("/a").is_err());
    first.set(false);
    assert_eq!(xhfs.path_exists("/c"), Ok(false));
    assert_eq!(xhfs.fread("/a").unwrap(), b"both");
}
