//! A volume that is opened again is the one that was left.
use crate::bfs::image::{brute_mounted, Brute, WriteOption};
use crate::bfs::op_laws::{brute_file_reads_back, brute_writable};
use crate::bfs::sound::{inode_fine, seal, ROOT_AT};
use crate::bfs::tree_laws::brute_grounded;
use crate::crypto::{Cipher, KeyDerivation};
use crate::error::Fault;
use vstd::prelude::*;

verus! {

/// Opening the disk as a volume was left gives that volume: every state of a volume that opened
/// once, with the same seal, is found again by the same password.
pub proof fn brute_reopened_volume_is_as_left(
    disk: Seq<u8>,
    cipher: Option<Cipher>,
    password: Option<Seq<char>>,
    kd: KeyDerivation,
    m: Brute,
    known: Set<u64>,
)
    requires
        brute_mounted(disk, cipher, password, kd) is Ok,
        seal(m) == seal(brute_mounted(disk, cipher, password, kd)->Ok_0),
        brute_grounded(m, known),
    ensures
        brute_mounted(m.disk, cipher, password, kd) == Ok::<_, Fault>(m),
{
    reveal(brute_grounded);
    assert(known.contains(ROOT_AT));
    assert(inode_fine(m, ROOT_AT));
    assert((Brute { cipher, disk: m.disk }).header() == m.header());
    assert((Brute { cipher, disk }).header() == brute_mounted(
        disk,
        cipher,
        password,
        kd,
    )->Ok_0.header());
}

/// A file that was written before a volume was closed is there when the volume is opened again,
/// and holds what was written.
pub proof fn brute_file_is_there_after_reopening(
    disk: Seq<u8>,
    cipher: Option<Cipher>,
    password: Option<Seq<char>>,
    kd: KeyDerivation,
    known: Set<u64>,
    path: Seq<char>,
    data: Seq<u8>,
    opt: WriteOption,
    now: u64,
)
    requires
        brute_mounted(disk, cipher, password, kd) is Ok,
        brute_grounded(brute_mounted(disk, cipher, password, kd)->Ok_0, known),
        brute_writable(brute_mounted(disk, cipher, password, kd)->Ok_0, path),
        brute_mounted(disk, cipher, password, kd)->Ok_0.blob_write(path, data, false, opt, now).1 is Ok,
    ensures
        ({
            let m = brute_mounted(disk, cipher, password, kd)->Ok_0;
            let left = m.blob_write(path, data, false, opt, now).0;
            let again = brute_mounted(left.disk, cipher, password, kd);
            again is Ok && again->Ok_0.fread(path) == Ok::<_, Fault>(data)
        }),
{
    let m = brute_mounted(disk, cipher, password, kd)->Ok_0;
    brute_file_reads_back(m, known, path, data, opt, now);
    let left = m.blob_write(path, data, false, opt, now).0;
    let id = choose|id: u64| #[trigger] brute_grounded(left, known.insert(id));
    brute_reopened_volume_is_as_left(disk, cipher, password, kd, left, known.insert(id));
}

} // verus!
