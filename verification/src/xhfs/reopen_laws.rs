//! A volume that is opened again is the one that was left.
use crate::crypto::{Cipher, KeyDerivation};
use crate::error::XHFSError;
use crate::xhfs::block_laws::mapped;
use crate::xhfs::ds::INodeKind;
use crate::xhfs::format_laws::formatted_volume_is_empty;
use crate::xhfs::image::Image;
use crate::xhfs::laws::{head, same_volume};
use crate::xhfs::layout::header_round_trip;
use crate::xhfs::mount::{formatted, fresh_header, mounted};
use crate::xhfs::op_laws::{grounded, writable, written_file_reads_back};
use crate::xhfs::tree::WriteOption;
use vstd::prelude::*;

verus! {

/// Where every data bitmap can be read, the free space can be counted.
proof fn lemma_countable(m: Image, g: nat)
    requires
        mapped(m),
        g <= m.format.group_count,
    ensures
        m.free_bytes(g) is Ok,
    decreases g,
{
    if g > 0 {
        lemma_countable(m, (g - 1) as nat);
        assert(m.data_bits(g - 1) is Ok);
    }
}

/// Opening the disk as a volume was left gives that volume: every state of a volume that opened
/// once, in which the format, the cipher and the header are as they were, is found again by the
/// same password.
pub proof fn reopened_volume_is_as_left(
    disk: Seq<u8>,
    cipher: Option<Cipher>,
    password: Option<Seq<char>>,
    kd: KeyDerivation,
    m: Image,
)
    requires
        mounted(disk, cipher, password, kd) is Ok,
        same_volume(mounted(disk, cipher, password, kd)->Ok_0, m),
        grounded(m),
    ensures
        mounted(m.disk, cipher, password, kd) == Ok::<_, XHFSError>(m),
{
    reveal(head);
    reveal(grounded);
    lemma_countable(m, m.format.group_count as nat);
}

/// A disk that was just formatted opens, by the same password, as the volume that formatting
/// returned.
pub proof fn formatted_disk_opens(
    disk: Seq<u8>,
    cipher: Option<Cipher>,
    password: Option<Seq<char>>,
    kd: KeyDerivation,
    nonce: Seq<u8>,
    now: u64,
)
    requires
        nonce.len() == 12,
        formatted(disk, cipher, password, kd, nonce, now) is Ok,
    ensures
        ({
            let m = formatted(disk, cipher, password, kd, nonce, now)->Ok_0;
            mounted(m.disk, cipher, password, kd) == Ok::<_, XHFSError>(m)
        }),
{
    formatted_volume_is_empty(disk, cipher, password, kd, nonce, now);
    let m = formatted(disk, cipher, password, kd, nonce, now)->Ok_0;
    header_round_trip(fresh_header(m.format, nonce));
    reveal(grounded);
    lemma_countable(m, m.format.group_count as nat);
}

/// A file that was written before a volume was closed is there when the volume is opened again,
/// and holds what was written.
pub proof fn written_file_is_there_after_reopening(
    disk: Seq<u8>,
    cipher: Option<Cipher>,
    password: Option<Seq<char>>,
    kd: KeyDerivation,
    path: Seq<char>,
    data: Seq<u8>,
    opt: WriteOption,
    now: u64,
)
    requires
        mounted(disk, cipher, password, kd) is Ok,
        grounded(mounted(disk, cipher, password, kd)->Ok_0),
        writable(mounted(disk, cipher, password, kd)->Ok_0, path),
        mounted(disk, cipher, password, kd)->Ok_0.blob_write(
            path,
            data,
            INodeKind::File,
            opt,
            now,
        ).1 is Ok,
    ensures
        ({
            let m = mounted(disk, cipher, password, kd)->Ok_0;
            let left = m.blob_write(path, data, INodeKind::File, opt, now).0;
            let again = mounted(left.disk, cipher, password, kd);
            again is Ok && again->Ok_0.fread(path) == Ok::<_, XHFSError>(data)
        }),
{
    let m = mounted(disk, cipher, password, kd)->Ok_0;
    written_file_reads_back(m, path, data, opt, now);
    let left = m.blob_write(path, data, INodeKind::File, opt, now).0;
    reopened_volume_is_as_left(disk, cipher, password, kd, left);
}

} // verus!
