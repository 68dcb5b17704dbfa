//! Operations that note the time of the clock.
use crate::addr::MaybeU64;
use crate::crypto::{Crypto, KeyDerivation};
use crate::device::disk::Controller;
use crate::device::Device;
use crate::error::{seen, Fault, XHFSError};
use crate::utils::{path_starts_with, utc_now_u64};
use crate::xhfs::ds::{INode, INodeKind};
use crate::xhfs::image::Image;
use crate::xhfs::mount::{formatted, opt_text, password_fits};
use crate::xhfs::tree::{split_parent, WriteOption};
use crate::xhfs::XHFS;
use vstd::prelude::*;

verus! {

impl<D: Device> XHFS<D> {
    /// Writes a file.
    pub fn fwrite(&mut self, path: &str, data: Vec<u8>, opt: WriteOption) -> (r: Result<(), XHFSError>)
        requires
            old(self).wf(),
        ensures
            Self::kept(old(self), final(self)),
            old(self).obeys(r is Ok) ==> exists|now: u64|
                (final(self).image(), r) == #[trigger] old(self).image().blob_write(path@, data@, INodeKind::File, opt, now),
    {
        let now: u64 = utc_now_u64();
        self.fwrite_at(path, data, opt, now)
    }

    /// Makes a directory, and with `recursive` the directories that lead to it. Tells whether one
    /// was made.
    pub fn mkdir(&mut self, path: &str, recursive: bool) -> (r: Result<bool, XHFSError>)
        requires
            old(self).wf(),
        ensures
            Self::kept(old(self), final(self)),
            old(self).obeys(r is Ok) ==> exists|now: u64|
                (final(self).image(), r) == #[trigger] old(self).image().mkdir(path@, recursive, now),
            old(self).obeys(r is Ok) && old(self).image().lookup(path@) is Ok ==> final(self).image()
                == old(self).image() && r == Ok::<bool, XHFSError>(false),
    {
        let now: u64 = utc_now_u64();
        self.mkdir_at(path, recursive, now)
    }

    /// Removes the entry at a path. A directory must be empty.
    pub fn unlink(&mut self, path: &str) -> (r: Result<(), XHFSError>)
        requires
            old(self).wf(),
        ensures
            Self::kept(old(self), final(self)),
            split_parent(path@) is Err ==> *final(self) == *old(self) && r == Err::<(), XHFSError>(
                split_parent(path@)->Err_0,
            ),
            old(self).obeys(r is Ok) ==> exists|now: u64|
                (final(self).image(), r) == #[trigger] old(self).image().unlink(path@, now),
    {
        let now: u64 = utc_now_u64();
        self.unlink_at(path, now)
    }

    /// Gives an entry another name or another parent.
    pub fn fmove(&mut self, src: &str, dest: &str) -> (r: Result<(), XHFSError>)
        requires
            old(self).wf(),
        ensures
            Self::kept(old(self), final(self)),
            path_starts_with(dest@, src@) ==> *final(self) == *old(self) && r == Err::<(), _>(
                XHFSError::Error { err: Fault::MoveIntoItself },
            ),
            !path_starts_with(dest@, src@) && split_parent(src@) is Err ==> *final(self) == *old(self)
                && r == Err::<(), XHFSError>(split_parent(src@)->Err_0),
            old(self).obeys(r is Ok) ==> exists|now: u64|
                (final(self).image(), r) == #[trigger] old(self).image().fmove(src@, dest@, now),
    {
        let now: u64 = utc_now_u64();
        self.fmove_at(src, dest, now)
    }

    /// Writes the content of one file to another path.
    pub fn fcopy(&mut self, src: &str, dest: &str, opt: WriteOption) -> (r: Result<(), XHFSError>)
        requires
            old(self).wf(),
        ensures
            Self::kept(old(self), final(self)),
            old(self).obeys(r is Ok) ==> exists|now: u64|
                (final(self).image(), r) == #[trigger] old(self).image().fcopy(src@, dest@, opt, now),
    {
        let now: u64 = utc_now_u64();
        self.fcopy_at(src, dest, opt, now)
    }

    /// Makes a symbolic link to a path whose parent exists.
    pub fn create_symlink(&mut self, path: &str, content: &str, opt: WriteOption) -> (r: Result<(), XHFSError>)
        requires
            old(self).wf(),
        ensures
            Self::kept(old(self), final(self)),
            split_parent(content@) is Err ==> *final(self) == *old(self) && r == Err::<(), XHFSError>(
                split_parent(content@)->Err_0,
            ),
            old(self).obeys(r is Ok) ==> exists|now: u64|
                (final(self).image(), r) == #[trigger] old(self).image().symlink(path@, content@, opt, now),
    {
        let now: u64 = utc_now_u64();
        self.create_symlink_at(path, content, opt, now)
    }

    /// Makes a hard link to a file, and counts it there.
    pub fn create_hardlink(&mut self, path: &str, content: &str, opt: WriteOption) -> (r: Result<(), XHFSError>)
        requires
            old(self).wf(),
        ensures
            Self::kept(old(self), final(self)),
            old(self).obeys(r is Ok) ==> exists|now: u64|
                (final(self).image(), r) == #[trigger] old(self).image().hardlink(path@, content@, opt, now),
    {
        let now: u64 = utc_now_u64();
        self.create_hardlink_at(path, content, opt, now)
    }

    /// Writes a file or a link.
    pub fn blob_write(&mut self, path: &str, data: Vec<u8>, payload_type: INodeKind, opt: WriteOption) -> (r: Result<(), XHFSError>)
        requires
            old(self).wf(),
        ensures
            Self::kept(old(self), final(self)),
            old(self).obeys(r is Ok) ==> exists|now: u64|
                (final(self).image(), r) == #[trigger] old(self).image().blob_write(path@, data@, payload_type, opt, now),
    {
        let now: u64 = utc_now_u64();
        self.blob_write_at(path, data, payload_type, opt, now)
    }

    /// Takes a free inode, near inode `hint_inumber` if there is one.
    pub fn allocate_inode_near(
        &mut self,
        hint_inumber: u64,
        size: u64,
        extent_addr: MaybeU64,
        kind: INodeKind,
    ) -> (r: Result<INode, XHFSError>)
        requires
            old(self).wf(),
        ensures
            Self::kept(old(self), final(self)),
            old(self).obeys(r is Ok) ==> exists|now: u64|
                (final(self).image(), seen(r)) == #[trigger] old(self).image().new_inode(
                    hint_inumber,
                    size,
                    extent_addr,
                    kind,
                    now,
                ),
    {
        let now: u64 = utc_now_u64();
        self.allocate_inode_near_at(hint_inumber, size, extent_addr, kind, now)
    }

    /// Notes the time in an inode.
    pub fn update_inode_mtime_now(&mut self, inode: INode) -> (r: Result<INode, XHFSError>)
        requires
            old(self).wf(),
        ensures
            Self::kept(old(self), final(self)),
            old(self).obeys(r is Ok) ==> exists|now: u64| #[trigger]
                old(self).image().noted(inode@, now) == (final(self).image(), seen(r)),
    {
        let now: u64 = utc_now_u64();
        let r = self.update_inode_mtime(inode, now);
        assert(old(self).obeys(r is Ok) ==> old(self).image().noted(inode@, now) == (
            self.image(),
            seen(r),
        ));
        r
    }

    /// Adds data to the end of the file that an inode stands for, and notes the given time or
    /// that of the clock. Gives the file's inode.
    pub fn fappend_inode(&mut self, inode: INode, data: Vec<u8>, mtime: Option<u64>) -> (r: Result<
        INode,
        XHFSError,
    >)
        requires
            old(self).wf(),
        ensures
            Self::kept(old(self), final(self)),
            old(self).obeys(r is Ok) ==> exists|t: u64|
                (mtime is Some ==> t == mtime->0) && (final(self).image(), seen(r))
                    == #[trigger] old(self).image().append_inode(
                    inode@,
                    data@,
                    t,
                    old(self).image().disk.len(),
                ),
    {
        let t: u64 = match mtime {
            Some(t) => t,
            None => utc_now_u64(),
        };
        self.fappend_inode_at(inode, data, t)
    }

    /// Adds data to the end of the file at a path, links followed, and notes the given time or
    /// that of the clock.
    pub fn fappend(&mut self, path: &str, data: Vec<u8>, mtime: Option<u64>) -> (r: Result<
        (),
        XHFSError,
    >)
        requires
            old(self).wf(),
        ensures
            Self::kept(old(self), final(self)),
            old(self).obeys(r is Ok) ==> exists|t: u64|
                (mtime is Some ==> t == mtime->0) && (final(self).image(), r)
                    == #[trigger] old(self).image().fappend(path@, data@, t),
    {
        let t: u64 = match mtime {
            Some(t) => t,
            None => utc_now_u64(),
        };
        self.fappend_at(path, data, t)
    }

    /// Formats a disk with a random nonce, and opens it.
    pub fn format_new(ctrl: Controller<D>, password: Option<&str>, kd: &KeyDerivation) -> (r: Result<
        Self,
        XHFSError,
    >)
        requires
            ctrl.wf(),
            password_fits(opt_text(password), *kd),
        ensures
            r is Ok ==> r->Ok_0.wf(),
            ctrl.devices().len() == 0 ==> r is Err && r->Err_0 == (XHFSError::Error {
                err: Fault::NothingToFormat,
            }),
            r is Ok && ctrl.steady() ==> r->Ok_0.steady(),
            r is Ok && ctrl.single() ==> r->Ok_0.ctrl.single(),
            r is Ok && ctrl.mirrored() ==> r->Ok_0.ctrl.mirrored(),
            ctrl.devices().len() > 0 && ctrl.obeys(r is Ok) ==> exists|nonce: Seq<u8>, now: u64|
                {
                    let m = #[trigger] formatted(
                        ctrl.disk(),
                        ctrl.cipher(),
                        opt_text(password),
                        *kd,
                        nonce,
                        now,
                    );
                    &&& nonce.len() == 12
                    &&& match r {
                        Ok(x) => m == Ok::<_, XHFSError>(x.image()),
                        Err(e) => m == Err::<Image, _>(e),
                    }
                },
    {
        let nonce = Crypto::gen_nonce();
        let now: u64 = utc_now_u64();
        assert(nonce@.len() == 12);
        XHFS::format_new_at(ctrl, password, kd, nonce, now)
    }
}

} // verus!
