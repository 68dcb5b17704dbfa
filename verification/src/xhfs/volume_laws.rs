//! What formatting, opening and counting free space promise.
use crate::crypto::{argon2id, sha256, Cipher, KeyDerivation};
use crate::error::{Fault, Record, XHFSError};
use crate::utils::components;
use crate::xhfs::block_laws::{is_block, mapped, taken};
use crate::xhfs::blocks::{count_bits, runs_count_bits};
use crate::xhfs::ds::INODE_SIZE;
use crate::xhfs::format_laws::formatted_volume_is_empty;
use crate::xhfs::image::Image;
use crate::xhfs::layout::{
    block_size_for, clamped, group_room, header_parse, header_round_trip, inferred_format,
    HEADER_SIZE,
};
use crate::xhfs::mount::{formatted, fresh_header, mounted};
use crate::xhfs::op_laws::grounded;
use crate::xhfs::tree::Entries;
use vstd::prelude::*;
use vstd::utf8::*;

verus! {

/// The cipher is that of a password and a nonce: the key is the hash of the password, or what
/// Argon2 makes of it with the nonce as salt.
pub open spec fn keyed_by(c: Cipher, password: Seq<char>, nonce: Seq<u8>, kd: KeyDerivation) -> bool {
    &&& c.nonce == nonce
    &&& match kd {
        KeyDerivation::Sha256 => c.key == sha256(encode_utf8(password)),
        KeyDerivation::Argon2 { memory_cost, time_cost, parallelism } => c.key == argon2id(
            encode_utf8(password),
            nonce,
            memory_cost,
            time_cost,
            parallelism,
        ),
    }
}

/// Opening a volume changes nothing on the disk. The volume has the format that its header tells,
/// and is read with the key of the password and the nonce that the header tells; without a password
/// it is read with the cipher that the disk has already.
pub proof fn opening_follows_the_header(
    disk: Seq<u8>,
    cipher: Option<Cipher>,
    password: Option<Seq<char>>,
    kd: KeyDerivation,
)
    requires
        mounted(disk, cipher, password, kd) is Ok,
    ensures
        ({
            let m = mounted(disk, cipher, password, kd)->Ok_0;
            let h = header_parse(disk.subrange(0, HEADER_SIZE as int));
            &&& m.disk == disk
            &&& disk.len() >= HEADER_SIZE
            &&& h is Ok
            &&& m.format == h->Ok_0.format
            &&& password is Some ==> m.cipher is Some && keyed_by(
                m.cipher->0,
                password->0,
                h->Ok_0.chacha20_nonce,
                kd,
            )
            &&& password is None ==> m.cipher == cipher
        }),
{
}

/// A disk that is too short for a header is not opened, nor is one whose first bytes are not those
/// of a volume.
pub proof fn foreign_disk_is_not_opened(
    disk: Seq<u8>,
    cipher: Option<Cipher>,
    password: Option<Seq<char>>,
    kd: KeyDerivation,
)
    ensures
        disk.len() < HEADER_SIZE ==> mounted(disk, cipher, password, kd) is Err,
        disk.len() >= HEADER_SIZE && disk.subrange(0, 4) != seq![0x58u8, 0x48u8, 0x46u8, 0x53u8]
            ==> mounted(disk, cipher, password, kd) == Err::<Image, _>(
            XHFSError::Error { err: Fault::BadMagic { of: Record::XHFSHeader } },
        ),
{
    if disk.len() >= HEADER_SIZE {
        let s = disk.subrange(0, HEADER_SIZE as int);
        assert(s.subrange(0, 4) =~= disk.subrange(0, 4));
    }
}

/// A freshly formatted volume holds an empty root directory with one link, made and changed at the
/// present time, and nothing else. It is read with the key of its password and nonce, and its
/// header tells the nonce and the format.
pub proof fn fresh_volume_holds_an_empty_root(
    disk: Seq<u8>,
    cipher: Option<Cipher>,
    password: Option<Seq<char>>,
    kd: KeyDerivation,
    nonce: Seq<u8>,
    now: u64,
    path: Seq<char>,
    fuel: nat,
)
    requires
        nonce.len() == 12,
        formatted(disk, cipher, password, kd, nonce, now) is Ok,
    ensures
        ({
            let m = formatted(disk, cipher, password, kd, nonce, now)->Ok_0;
            let root = m.root()->Ok_0;
            let h = header_parse(m.disk.subrange(0, HEADER_SIZE as int));
            &&& m.root() is Ok
            &&& root.kind is Directory
            &&& root.inumber == 1
            &&& root.nlink == 1
            &&& root.mtime == now
            &&& root.ctime == now
            &&& root.total_file_size == 0
            &&& components(path).len() == 0 ==> m.list(path, fuel) == Ok::<Entries, XHFSError>(
                Seq::empty(),
            )
            &&& components(path).len() > 0 ==> m.lookup(path) is Err
            &&& password is Some ==> m.cipher is Some && keyed_by(
                m.cipher->0,
                password->0,
                nonce,
                kd,
            )
            &&& password is None ==> m.cipher == cipher
            &&& h is Ok
            &&& h->Ok_0.chacha20_nonce == nonce
            &&& h->Ok_0.format == m.format
            &&& h->Ok_0.version == 1
        }),
{
    formatted_volume_is_empty(disk, cipher, password, kd, nonce, now);
    let m = formatted(disk, cipher, password, kd, nonce, now)->Ok_0;
    header_round_trip(fresh_header(m.format, nonce));
    let parts = components(path);
    if parts.len() > 0 {
        assert(m.walk(parts, 0) == m.root());
        assert(m.walk(parts, 1) is Err);
        lemma_stays_err(m, parts, 1, parts.len());
    }
}

proof fn lemma_stays_err(m: Image, parts: Seq<Seq<char>>, j: nat, k: nat)
    requires
        j <= k,
        m.walk(parts, j) is Err,
    ensures
        m.walk(parts, k) is Err,
    decreases k,
{
    if j < k {
        lemma_stays_err(m, parts, j, (k - 1) as nat);
    }
}

/// Number of free blocks among the first `n` of a group.
pub open spec fn free_in_group(m: Image, g: int, n: nat) -> nat
    decreases n,
{
    if n == 0 {
        0
    } else {
        free_in_group(m, g, (n - 1) as nat) + (if taken(m, g, n - 1) {
            0nat
        } else {
            1nat
        })
    }
}

/// Number of free blocks in the first `g` groups.
pub open spec fn free_in_groups(m: Image, g: nat) -> nat
    decreases g,
{
    if g == 0 {
        0
    } else {
        free_in_groups(m, (g - 1) as nat) + free_in_group(
            m,
            g - 1,
            m.format.param_data_block_count_per_group as nat,
        )
    }
}

proof fn lemma_free_count(m: Image, g: int, n: nat)
    requires
        m.data_bits(g) is Ok,
    ensures
        count_bits(m.data_bits(g)->Ok_0.raw, false, n) == free_in_group(m, g, n),
    decreases n,
{
    if n > 0 {
        lemma_free_count(m, g, (n - 1) as nat);
    }
}

proof fn lemma_free_bytes(m: Image, g: nat)
    requires
        mapped(m),
        g <= m.format.group_count,
    ensures
        m.free_bytes(g) == Ok::<int, XHFSError>(
            free_in_groups(m, g) * m.format.block_size_bytes as int,
        ),
    decreases g,
{
    if g > 0 {
        lemma_free_bytes(m, (g - 1) as nat);
        assert(m.data_bits(g - 1) is Ok);
        let bits = m.data_bits(g - 1)->Ok_0;
        let n = m.format.param_data_block_count_per_group as nat;
        let bs = m.format.block_size_bytes as int;
        runs_count_bits(bits.raw, false, n);
        lemma_free_count(m, g - 1, n);
        let a = free_in_groups(m, (g - 1) as nat) as int;
        let b = free_in_group(m, g - 1, n) as int;
        assert((a + b) * bs == a * bs + b * bs) by (nonlinear_arith);
    } else {
        assert(free_in_groups(m, 0) * m.format.block_size_bytes as int == 0) by (nonlinear_arith)
            requires
                free_in_groups(m, 0) == 0,
        ;
    }
}

/// The free space of a volume whose bitmaps can be read is the bytes of the blocks that are not
/// taken.
pub proof fn free_space_is_that_of_free_blocks(m: Image)
    requires
        mapped(m),
    ensures
        m.remaining() == Ok::<int, XHFSError>(
            free_in_groups(m, m.format.group_count as nat) * m.format.block_size_bytes as int,
        ),
{
    lemma_free_bytes(m, m.format.group_count as nat);
}

proof fn lemma_all_free(m: Image, g: nat)
    requires
        g <= m.format.group_count,
        forall|x: int, b: int| is_block(m, x, b) ==> !#[trigger] taken(m, x, b),
    ensures
        free_in_groups(m, g) == g * m.format.param_data_block_count_per_group,
    decreases g,
{
    if g > 0 {
        let n = m.format.param_data_block_count_per_group as int;
        lemma_all_free(m, (g - 1) as nat);
        lemma_group_free(m, g - 1, n as nat);
        let before = (g - 1) as nat;
        assert(before * n + n == g * n) by (nonlinear_arith)
            requires
                before + 1 == g,
        ;
    } else {
        assert(0 * m.format.param_data_block_count_per_group == 0) by (nonlinear_arith);
    }
}

proof fn lemma_group_free(m: Image, g: int, n: nat)
    requires
        0 <= g < m.format.group_count,
        n <= m.format.param_data_block_count_per_group,
        forall|x: int, b: int| is_block(m, x, b) ==> !#[trigger] taken(m, x, b),
    ensures
        free_in_group(m, g, n) == n,
    decreases n,
{
    if n > 0 {
        lemma_group_free(m, g, (n - 1) as nat);
        assert(is_block(m, g, n - 1));
    }
}

/// All data blocks of a freshly formatted volume are free space.
pub proof fn fresh_volume_is_all_free(
    disk: Seq<u8>,
    cipher: Option<Cipher>,
    password: Option<Seq<char>>,
    kd: KeyDerivation,
    nonce: Seq<u8>,
    now: u64,
)
    requires
        nonce.len() == 12,
        formatted(disk, cipher, password, kd, nonce, now) is Ok,
    ensures
        ({
            let m = formatted(disk, cipher, password, kd, nonce, now)->Ok_0;
            m.remaining() == Ok::<int, XHFSError>(
                m.format.group_count * m.format.param_data_block_count_per_group
                    * m.format.block_size_bytes,
            )
        }),
{
    formatted_volume_is_empty(disk, cipher, password, kd, nonce, now);
    let m = formatted(disk, cipher, password, kd, nonce, now)->Ok_0;
    assert(mapped(m)) by {
        reveal(grounded);
    }
    free_space_is_that_of_free_blocks(m);
    lemma_all_free(m, m.format.group_count as nat);
}

/// A count is taken as it is wished, but is at least one and at most what a bitmap of one block can
/// hold.
pub open spec fn bounded_count(n: u64, wished: u64, most: int) -> bool {
    &&& 1 <= n <= most
    &&& 1 <= wished <= most ==> n == wished
    &&& wished == 0 ==> n == 1
    &&& wished > most ==> n == most
}

/// The format for a capacity: small disks get small blocks, the counts in a group are the wished
/// ones as far as a bitmap of one block goes, and there are as many groups as the capacity holds.
/// A capacity that does not hold one is refused.
pub proof fn format_fills_the_capacity(capacity: u64, blocks: u64, inodes: u64)
    ensures
        ({
            let r = inferred_format(capacity, blocks, inodes);
            let f = r->Ok_0;
            let bs = f.block_size_bytes as int;
            let room = HEADER_SIZE + (f.param_data_block_count_per_group + 7) / 8 + (
            f.param_inode_count_per_group + 7) / 8 + f.param_inode_count_per_group * INODE_SIZE
                + f.param_data_block_count_per_group * bs;
            &&& r is Ok ==> {
                &&& capacity <= 512 * 1024 ==> bs == 512
                &&& 512 * 1024 < capacity <= 4096 * 1024 ==> bs == 1024
                &&& 4096 * 1024 < capacity ==> bs == 4096
                &&& bounded_count(f.param_data_block_count_per_group, blocks, 8 * bs)
                &&& bounded_count(f.param_inode_count_per_group, inodes, 8 * bs)
                &&& f.group_count >= 1
                &&& f.group_count * room <= capacity < (f.group_count + 1) * room
            }
            &&& r is Err ==> r->Err_0 is DeviceTooSmall && r->Err_0->DeviceTooSmall_capacity
                == capacity && r->Err_0->DeviceTooSmall_needed > capacity
        }),
{
    let r = inferred_format(capacity, blocks, inodes);
    let bs = block_size_for(capacity);
    let b = clamped(blocks, (8 * bs) as u64);
    let i = clamped(inodes, (8 * bs) as u64);
    let room = group_room(b, i, bs);
    assert(b * bs <= 32768 * 4096 && b * bs >= 0) by (nonlinear_arith)
        requires
            b <= 32768,
            bs <= 4096,
    ;
    if r is Ok {
        let f = r->Ok_0;
        let q = capacity as int / room;
        assert(q * room <= capacity < (q + 1) * room && q >= 1 && q <= capacity)
            by (nonlinear_arith)
            requires
                q == capacity as int / room,
                room > 0,
                capacity >= room,
        ;
        assert(f.group_count == q);
    }
}

} // verus!
