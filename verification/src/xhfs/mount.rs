//! Formatting a disk and opening a formatted disk.
use crate::addr::{maybe, MaybeU64};
use crate::codec::zeros;
use crate::crypto::{derived_key, Cipher, Crypto, KeyDerivation};
use crate::device::disk::{raw_get, raw_put, Controller};
use crate::device::Device;
use crate::error::{wrapped, Fault, XHFSError};
use crate::xhfs::ds::{INode, INodeKind, Node};
use crate::xhfs::image::Image;
use crate::xhfs::layout::{
    empty_bitmap, header_bytes, header_parse, inferred_format, validated, BlockInitialValues,
    Format, GeometryLayout, Header, XHFSHeader, HEADER_SIZE,
};
use crate::xhfs::volume::{lemma_addressable, lemma_format};
use crate::xhfs::XHFS;
use vstd::prelude::*;
use vstd::string::*;
use vstd::utf8::*;

verus! {

/// The cipher for an optional password.
pub open spec fn cipher_for(
    password: Option<Seq<char>>,
    nonce: Seq<u8>,
    kd: KeyDerivation,
    otherwise: Option<Cipher>,
) -> Option<Cipher> {
    match password {
        Some(p) => Some(Cipher { key: derived_key(p, nonce, kd), nonce }),
        None => otherwise,
    }
}

/// A password can be turned into a key.
pub open spec fn password_fits(password: Option<Seq<char>>, kd: KeyDerivation) -> bool {
    password is Some ==> kd.valid() && (kd != KeyDerivation::Sha256 ==> encode_utf8(
        password->0,
    ).len() <= 0xFFFFFFFF)
}

/// The text of an optional string.
pub open spec fn opt_text(s: Option<&str>) -> Option<Seq<char>> {
    match s {
        Some(t) => Some(t@),
        None => None,
    }
}

/// The format that a header asks for, if it can be worked with.
pub open spec fn accepted(f: Format) -> Result<Format, XHFSError> {
    if !f.fits() {
        Err(XHFSError::Error { err: Fault::FormatTooLarge })
    } else {
        match validated(f) {
            Err(e) => Err(XHFSError::Error { err: e }),
            Ok(()) => if f.usable() {
                Ok(f)
            } else {
                Err(XHFSError::Error { err: Fault::FormatTooLarge })
            },
        }
    }
}

/// The volume on a disk: its header must be sound and all its data bitmaps readable.
pub open spec fn mounted(
    disk: Seq<u8>,
    cipher: Option<Cipher>,
    password: Option<Seq<char>>,
    kd: KeyDerivation,
) -> Result<Image, XHFSError> {
    match wrapped(raw_get(disk, 0, HEADER_SIZE as int)) {
        Err(e) => Err(e),
        Ok(s) => match header_parse(s) {
            Err(e) => Err(XHFSError::Error { err: e }),
            Ok(h) => match accepted(h.format) {
                Err(e) => Err(e),
                Ok(f) => {
                    let m = Image {
                        format: f,
                        cipher: cipher_for(password, h.chacha20_nonce, kd, cipher),
                        disk,
                    };
                    match m.remaining() {
                        Err(e) => Err(e),
                        Ok(_) => Ok(m),
                    }
                },
            },
        },
    }
}

/// Writes parts at addresses, one after the other, until one fails.
pub open spec fn put_all(disk: Seq<u8>, parts: Seq<(int, Seq<u8>)>) -> (
    Seq<u8>,
    Result<(), Fault>,
)
    decreases parts.len(),
{
    if parts.len() == 0 {
        (disk, Ok(()))
    } else {
        let (d, r) = put_all(disk, parts.drop_last());
        match r {
            Err(e) => (d, Err(e)),
            Ok(()) => raw_put(d, parts.last().0, parts.last().1),
        }
    }
}

/// What is written for a fresh group that starts at `at`.
pub open spec fn group_parts(h: Header, at: int) -> Seq<(int, Seq<u8>)> {
    let f = h.format;
    seq![
        (at, header_bytes(h)),
        (at + f.data_bitmap_at(), empty_bitmap(f.param_data_block_count_per_group)),
        (at + f.inode_bitmap_at(), empty_bitmap(f.param_inode_count_per_group)),
        (at + f.inode_table_at(), zeros(f.inode_table_size() as nat)),
    ]
}

/// The disk after the first `g` groups were written afresh.
pub open spec fn fresh_groups(disk: Seq<u8>, h: Header, g: nat) -> (Seq<u8>, Result<(), Fault>)
    decreases g,
{
    if g == 0 {
        (disk, Ok(()))
    } else {
        let (d, r) = fresh_groups(disk, h, (g - 1) as nat);
        match r {
            Err(e) => (d, Err(e)),
            Ok(()) => put_all(d, group_parts(h, (g - 1) * h.format.stride())),
        }
    }
}

/// Data blocks and inodes that are wished for in each group.
pub const WISHED_BLOCKS: u64 = 20_480;

pub const WISHED_INODES: u64 = 4096;

/// The header that a fresh disk is given.
pub open spec fn fresh_header(format: Format, nonce: Seq<u8>) -> Header {
    Header { version: 1, format, chacha20_nonce: nonce, extra_metadata: zeros(32) }
}

/// The inode of an empty root directory.
pub open spec fn fresh_root(now: u64) -> Node {
    Node {
        kind: INodeKind::Directory,
        inumber: 1,
        nlink: 1,
        total_file_size: 0,
        extent_addr: maybe(0),
        mtime: now,
        ctime: now,
        extra_metadata: zeros(32),
    }
}

/// The volume that formatting makes of a disk.
pub open spec fn formatted(
    disk: Seq<u8>,
    cipher: Option<Cipher>,
    password: Option<Seq<char>>,
    kd: KeyDerivation,
    nonce: Seq<u8>,
    now: u64,
) -> Result<Image, XHFSError> {
    match wrapped(inferred_format(disk.len() as u64, WISHED_BLOCKS, WISHED_INODES)) {
        Err(e) => Err(e),
        Ok(f) => match accepted(f) {
            Err(e) => Err(e),
            Ok(f) => {
                let (d, r) = fresh_groups(disk, fresh_header(f, nonce), f.group_count as nat);
                match r {
                    Err(e) => Err(XHFSError::Error { err: e }),
                    Ok(()) => match mounted(
                        d,
                        cipher_for(password, nonce, kd, cipher),
                        password,
                        kd,
                    ) {
                        Err(e) => Err(e),
                        Ok(m) => {
                            let (m2, r2) = m.register(fresh_root(now), false);
                            match r2 {
                                Err(e) => Err(e),
                                Ok(()) => Ok(m2),
                            }
                        },
                    },
                }
            },
        },
    }
}

impl Format {
    /// The format, if it can be worked with.
    pub fn accept(&self) -> (r: Result<Format, XHFSError>)
        ensures
            r == accepted(*self),
            r is Ok ==> self.usable(),
    {
        if !self.fits_machine() {
            return Err(XHFSError::from_report(Fault::FormatTooLarge));
        }
        match self.validate() {
            Ok(()) => {},
            Err(e) => return Err(XHFSError::from_report(e)),
        }
        let blocks: u64 = self.param_data_block_count_per_group;
        let inodes: u64 = self.param_inode_count_per_group;
        proof {
            assert(0 <= blocks * self.block_size_bytes) by (nonlinear_arith)
                requires
                    0 <= blocks,
                    0 <= self.block_size_bytes,
            ;
        }
        let stride: u64 = 81 + (8 + (blocks + 7) / 8) + (8 + (inodes + 7) / 8) + inodes * 81
            + blocks * self.block_size_bytes;
        match self.group_count.checked_mul(stride) {
            Some(n) => if n > usize::MAX as u64 {
                Err(XHFSError::from_report(Fault::FormatTooLarge))
            } else {
                Ok(*self)
            },
            None => Err(XHFSError::from_report(Fault::FormatTooLarge)),
        }
    }
}

/// Writes one part of a fresh group.
fn put_part<D: Device>(
    ctrl: &mut Controller<D>,
    at: usize,
    data: &[u8],
    Ghost(start): Ghost<Seq<u8>>,
    Ghost(parts): Ghost<Seq<(int, Seq<u8>)>>,
    Ghost(k): Ghost<int>,
    Ghost(sure): Ghost<bool>,
) -> (r: Result<(), XHFSError>)
    requires
        old(ctrl).wf(),
        0 <= k < parts.len(),
        parts[k] == (at as int, data@),
        sure ==> old(ctrl).obeys(true) && put_all(start, parts.subrange(0, k)) == (
            old(ctrl).disk(),
            Ok::<(), Fault>(()),
        ),
    ensures
        final(ctrl).wf(),
        final(ctrl).cipher() == old(ctrl).cipher(),
        final(ctrl).disk().len() == old(ctrl).disk().len(),
        old(ctrl).steady() ==> final(ctrl).steady(),
        old(ctrl).single() ==> final(ctrl).single(),
        old(ctrl).mirrored() ==> final(ctrl).mirrored(),
        sure && old(ctrl).obeys(r is Ok) ==> match r {
            Ok(()) => put_all(start, parts.subrange(0, k + 1)) == (
                final(ctrl).disk(),
                Ok::<(), Fault>(()),
            ),
            Err(e) => put_all(start, parts).1 is Err && e == (XHFSError::Error {
                err: put_all(start, parts).1->Err_0,
            }),
        },
{
    proof {
        assert(parts.subrange(0, k + 1).drop_last() =~= parts.subrange(0, k));
        assert(parts.subrange(0, k + 1).last() == parts[k]);
    }
    match ctrl.raw_write(at, data) {
        Ok(()) => Ok(()),
        Err(e) => {
            proof {
                if sure && old(ctrl).obeys(false) {
                    lemma_put_all_err(start, parts, k + 1);
                }
            }
            Err(XHFSError::from_report(e))
        },
    }
}

proof fn lemma_put_all_err(disk: Seq<u8>, parts: Seq<(int, Seq<u8>)>, k: int)
    requires
        0 <= k <= parts.len(),
        put_all(disk, parts.subrange(0, k)).1 is Err,
    ensures
        put_all(disk, parts) == put_all(disk, parts.subrange(0, k)),
    decreases parts.len() - k,
{
    if k < parts.len() {
        assert(parts.subrange(0, k + 1).drop_last() =~= parts.subrange(0, k));
        lemma_put_all_err(disk, parts, k + 1);
    } else {
        assert(parts.subrange(0, k) =~= parts);
    }
}

proof fn lemma_fresh_err(disk: Seq<u8>, h: Header, a: nat, b: nat)
    requires
        a <= b,
        fresh_groups(disk, h, a).1 is Err,
    ensures
        fresh_groups(disk, h, b) == fresh_groups(disk, h, a),
    decreases b,
{
    if a < b {
        lemma_fresh_err(disk, h, a, (b - 1) as nat);
    }
}

/// Writes one fresh group.
fn write_fresh_group<D: Device>(
    ctrl: &mut Controller<D>,
    header: &XHFSHeader,
    geometry: &GeometryLayout,
    values: &BlockInitialValues,
    at: usize,
) -> (r: Result<(), XHFSError>)
    requires
        old(ctrl).wf(),
        header.format.usable(),
        *geometry == header.format.geometry(),
        at + header.format.stride() <= usize::MAX,
        values.serialized_header@ == header_bytes(header@),
        values.data_block_bitmap@ == empty_bitmap(header.format.param_data_block_count_per_group),
        values.inode_bitmap_placeholder@ == empty_bitmap(
            header.format.param_inode_count_per_group,
        ),
        values.inode_table_placeholder@ == zeros(header.format.inode_table_size() as nat),
    ensures
        final(ctrl).wf(),
        final(ctrl).cipher() == old(ctrl).cipher(),
        final(ctrl).disk().len() == old(ctrl).disk().len(),
        old(ctrl).steady() ==> final(ctrl).steady(),
        old(ctrl).single() ==> final(ctrl).single(),
        old(ctrl).mirrored() ==> final(ctrl).mirrored(),
        old(ctrl).obeys(r is Ok) ==> match r {
            Ok(()) => put_all(old(ctrl).disk(), group_parts(header@, at as int)) == (
                final(ctrl).disk(),
                Ok::<(), Fault>(()),
            ),
            Err(e) => put_all(old(ctrl).disk(), group_parts(header@, at as int)).1 is Err && e == (
            XHFSError::Error {
                err: put_all(old(ctrl).disk(), group_parts(header@, at as int)).1->Err_0,
            }),
        },
{
    let ghost start = ctrl.disk();
    let ghost parts = group_parts(header@, at as int);
    proof {
        let m = Image { format: header.format, cipher: None, disk: start };
        lemma_format(m);
        assert(put_all(start, parts.subrange(0, 0)) == (start, Ok::<(), Fault>(())));
        assert(parts.subrange(0, 4) =~= parts);
    }
    match put_part(
        ctrl,
        at + geometry.rel_header_region.start.get() as usize,
        values.serialized_header.as_slice(),
        Ghost(start),
        Ghost(parts),
        Ghost(0),
        Ghost(old(ctrl).obeys(true)),
    ) {
        Ok(()) => {},
        Err(e) => return Err(e),
    }
    match put_part(
        ctrl,
        at + geometry.rel_data_bitmap_region.start.get() as usize,
        values.data_block_bitmap.as_slice(),
        Ghost(start),
        Ghost(parts),
        Ghost(1),
        Ghost(old(ctrl).obeys(true)),
    ) {
        Ok(()) => {},
        Err(e) => return Err(e),
    }
    match put_part(
        ctrl,
        at + geometry.rel_inode_bitmap_region.start.get() as usize,
        values.inode_bitmap_placeholder.as_slice(),
        Ghost(start),
        Ghost(parts),
        Ghost(2),
        Ghost(old(ctrl).obeys(true)),
    ) {
        Ok(()) => {},
        Err(e) => return Err(e),
    }
    put_part(
        ctrl,
        at + geometry.rel_inode_table_region.start.get() as usize,
        values.inode_table_placeholder.as_slice(),
        Ghost(start),
        Ghost(parts),
        Ghost(3),
        Ghost(old(ctrl).obeys(true)),
    )
}

/// Writes all groups afresh.
fn write_fresh_groups<D: Device>(
    ctrl: &mut Controller<D>,
    header: &XHFSHeader,
    geometry: &GeometryLayout,
    values: &BlockInitialValues,
) -> (r: Result<(), XHFSError>)
    requires
        old(ctrl).wf(),
        header.format.usable(),
        *geometry == header.format.geometry(),
        values.serialized_header@ == header_bytes(header@),
        values.data_block_bitmap@ == empty_bitmap(header.format.param_data_block_count_per_group),
        values.inode_bitmap_placeholder@ == empty_bitmap(
            header.format.param_inode_count_per_group,
        ),
        values.inode_table_placeholder@ == zeros(header.format.inode_table_size() as nat),
    ensures
        final(ctrl).wf(),
        final(ctrl).cipher() == old(ctrl).cipher(),
        final(ctrl).disk().len() == old(ctrl).disk().len(),
        old(ctrl).steady() ==> final(ctrl).steady(),
        old(ctrl).single() ==> final(ctrl).single(),
        old(ctrl).mirrored() ==> final(ctrl).mirrored(),
        old(ctrl).obeys(r is Ok) ==> ({
            let (d, s) = fresh_groups(
                old(ctrl).disk(),
                header@,
                header.format.group_count as nat,
            );
            match r {
                Ok(()) => d == final(ctrl).disk() && s is Ok,
                Err(e) => s is Err && e == (XHFSError::Error { err: s->Err_0 }),
            }
        }),
{
    let ghost disk = ctrl.disk();
    let ghost m = Image { format: header.format, cipher: None, disk };
    let count: u64 = header.format.group_count;
    proof {
        lemma_format(m);
    }
    let mut at: usize = 0;
    let mut g: u64 = 0;
    while g < count
        invariant
            g <= count,
            count == header.format.group_count,
            header.format.usable(),
            *geometry == header.format.geometry(),
            m == (Image { format: header.format, cipher: None, disk }),
            disk == old(ctrl).disk(),
            at == m.group_at(g as int),
            values.serialized_header@ == header_bytes(header@),
            values.data_block_bitmap@ == empty_bitmap(
                header.format.param_data_block_count_per_group,
            ),
            values.inode_bitmap_placeholder@ == empty_bitmap(
                header.format.param_inode_count_per_group,
            ),
            values.inode_table_placeholder@ == zeros(header.format.inode_table_size() as nat),
            ctrl.wf(),
            ctrl.cipher() == old(ctrl).cipher(),
            ctrl.disk().len() == disk.len(),
            old(ctrl).steady() ==> ctrl.steady(),
            old(ctrl).single() ==> ctrl.single(),
            old(ctrl).mirrored() ==> ctrl.mirrored(),
            old(ctrl).obeys(true) ==> fresh_groups(disk, header@, g as nat) == (
                ctrl.disk(),
                Ok::<(), Fault>(()),
            ),
        decreases count - g,
    {
        proof {
            lemma_format(m);
            lemma_addressable(m, g as int, g as int);
            lemma_addressable(m, count as int, g + 1);
        }
        match write_fresh_group(ctrl, header, geometry, values, at) {
            Ok(()) => {},
            Err(e) => {
                proof {
                    if old(ctrl).obeys(false) {
                        lemma_fresh_err(disk, header@, (g + 1) as nat, count as nat);
                    }
                }
                return Err(e);
            },
        }
        at = at + geometry.group_stride as usize;
        g = g + 1;
    }
    Ok(())
}

impl<D: Device> XHFS<D> {
    /// Opens the volume on a formatted disk.
    pub fn from_formatted(
        ctrl: Controller<D>,
        password: Option<&str>,
        kd: &KeyDerivation,
    ) -> (r: Result<Self, XHFSError>)
        requires
            ctrl.wf(),
            password_fits(opt_text(password), *kd),
        ensures
            r is Ok ==> r->Ok_0.wf() && r->Ok_0.ctrl.devices() == ctrl.devices(),
            r is Ok && ctrl.steady() ==> r->Ok_0.steady(),
            r is Ok && ctrl.single() ==> r->Ok_0.ctrl.single(),
            r is Ok && ctrl.mirrored() ==> r->Ok_0.ctrl.mirrored(),
            ctrl.tells(r is Ok) ==> match r {
                Ok(x) => mounted(ctrl.disk(), ctrl.cipher(), opt_text(password), *kd) == Ok::<_, XHFSError>(x.image()),
                Err(e) => mounted(ctrl.disk(), ctrl.cipher(), opt_text(password), *kd) == Err::<
                    Image,
                    _,
                >(e),
            },
    {
        let mut ctrl = ctrl;
        let header_size: usize = XHFSHeader::serialized_size();
        let raw = match ctrl.raw_read(0, header_size) {
            Ok(b) => b,
            Err(e) => return Err(XHFSError::from_report(e)),
        };
        let header = match XHFSHeader::deserialize(raw.as_slice()) {
            Ok(h) => h,
            Err(e) => return Err(XHFSError::from_report(e)),
        };
        let format = match header.format.accept() {
            Ok(f) => f,
            Err(e) => return Err(e),
        };
        let (geometry, _) = match header.calculate_relative_geometry() {
            Ok(g) => g,
            Err(e) => return Err(XHFSError::from_report(e)),
        };
        if let Some(p) = password {
            ctrl.setup_crypto(Crypto::new(p, header.chacha20_nonce, kd));
        }
        let volume = XHFS { header_size, static_format: format, geometry, ctrl };
        match volume.total_remaining_capacity() {
            Ok(_) => Ok(volume),
            Err(e) => Err(e),
        }
    }

    /// Formats a disk with a given nonce at a given time, and opens it.
    pub fn format_new_at(
        ctrl: Controller<D>,
        password: Option<&str>,
        kd: &KeyDerivation,
        nonce: [u8; 12],
        now: u64,
    ) -> (r: Result<Self, XHFSError>)
        requires
            ctrl.wf(),
            password_fits(opt_text(password), *kd),
        ensures
            r is Ok ==> r->Ok_0.wf(),
            ctrl.devices().len() == 0 ==> r is Err && r->Err_0 == (XHFSError::Error {
                err: Fault::NothingToFormat,
            }),
            r is Ok && ctrl.steady() ==> r->Ok_0.steady(),
            r is Ok && ctrl.single() ==> r->Ok_0.ctrl.single(),
            r is Ok && ctrl.mirrored() ==> r->Ok_0.ctrl.mirrored(),
            ctrl.devices().len() > 0 && ctrl.obeys(r is Ok) ==> match r {
                Ok(x) => formatted(
                    ctrl.disk(),
                    ctrl.cipher(),
                    opt_text(password),
                    *kd,
                    nonce@,
                    now,
                ) == Ok::<_, XHFSError>(x.image()),
                Err(e) => formatted(
                    ctrl.disk(),
                    ctrl.cipher(),
                    opt_text(password),
                    *kd,
                    nonce@,
                    now,
                ) == Err::<Image, _>(e),
            },
    {
        let mut ctrl = ctrl;
        let mut header = XHFSHeader::template();
        header.chacha20_nonce = nonce;
        if let Some(p) = password {
            ctrl.setup_crypto(Crypto::new(p, nonce, kd));
        }
        let total: usize = match ctrl.total_capacity() {
            Some(t) => t,
            None => return Err(XHFSError::from_report(Fault::NothingToFormat)),
        };
        let inferred = match Format::infer_from_free_space(
            total as u64,
            WISHED_BLOCKS,
            WISHED_INODES,
        ) {
            Ok(f) => f,
            Err(e) => return Err(XHFSError::from_report(e)),
        };
        let format = match inferred.accept() {
            Ok(f) => f,
            Err(e) => return Err(e),
        };
        header.format = format;
        assert(header@ == fresh_header(format, nonce@));
        let (geometry, values) = match header.calculate_relative_geometry() {
            Ok(g) => g,
            Err(e) => return Err(XHFSError::from_report(e)),
        };
        match write_fresh_groups(&mut ctrl, &header, &geometry, &values) {
            Ok(()) => {},
            Err(e) => return Err(e),
        }
        let mut volume = match XHFS::from_formatted(ctrl, password, kd) {
            Ok(v) => v,
            Err(e) => return Err(e),
        };
        let root = INode {
            kind: INodeKind::Directory,
            inumber: 1,
            nlink: 1,
            total_file_size: 0,
            extent_addr: MaybeU64::from(0),
            mtime: now,
            ctime: now,
            extra_metadata: [0;32],
        };
        assert(root@.extra_metadata =~= zeros(32));
        match volume.register_inode(&root, false) {
            Ok(()) => Ok(volume),
            Err(e) => Err(e),
        }
    }

    /// Number of bytes of the disk.
    pub fn total_capacity(&self) -> (r: Result<usize, XHFSError>)
        requires
            self.wf(),
        ensures
            match r {
                Ok(n) => self.ctrl.devices().len() > 0 && n == self.ctrl.disk().len(),
                Err(e) => self.ctrl.devices().len() == 0 && e == (XHFSError::Error {
                    err: Fault::NoCapacity,
                }),
            },
    {
        match self.ctrl.total_capacity() {
            Some(n) => Ok(n),
            None => Err(XHFSError::from_report(Fault::NoCapacity)),
        }
    }
}

} // verus!
