//! Operations that note the time of the clock.
use crate::bfs::image::{brute_formatted, parent_of, Brute, WriteOption};
use crate::bfs::records::INode;
use crate::bfs::BruteFS;
use crate::crypto::{Crypto, KeyDerivation};
use crate::device::disk::Controller;
use crate::device::Device;
use crate::error::Fault;
use crate::utils::utc_now_u64;
use crate::xhfs::mount::{opt_text, password_fits};
use vstd::prelude::*;

verus! {

impl<D: Device> BruteFS<D> {
    /// Writes a file.
    pub fn fwrite(&mut self, path: &str, data: Vec<u8>, opt: WriteOption) -> (r: Result<(), Fault>)
        requires
            old(self).wf(),
        ensures
            Self::kept(old(self), final(self)),
            parent_of(path@) is Err ==> *final(self) == *old(self) && r == Err::<(), Fault>(
                parent_of(path@)->Err_0,
            ),
            old(self).obeys(r is Ok) ==> exists|now: u64|
                (final(self).image(), r) == #[trigger] old(self).image().blob_write(path@, data@, false, opt, now),
    {
        let now: u64 = utc_now_u64();
        self.fwrite_at(path, data, opt, now)
    }

    /// Writes a file or a link.
    pub fn blob_write(&mut self, path: &str, data: Vec<u8>, is_symlink: bool, opt: WriteOption) -> (r: Result<(), Fault>)
        requires
            old(self).wf(),
        ensures
            Self::kept(old(self), final(self)),
            parent_of(path@) is Err ==> *final(self) == *old(self) && r == Err::<(), Fault>(
                parent_of(path@)->Err_0,
            ),
            old(self).obeys(r is Ok) ==> exists|now: u64|
                (final(self).image(), r) == #[trigger] old(self).image().blob_write(path@, data@, is_symlink, opt, now),
    {
        let now: u64 = utc_now_u64();
        self.blob_write_at(path, data, is_symlink, opt, now)
    }

    /// Makes a directory, and with `recursive` the directories that lead to it. Tells whether one
    /// was made.
    pub fn mkdir(&mut self, path: &str, recursive: bool) -> (r: Result<bool, Fault>)
        requires
            old(self).wf(),
        ensures
            Self::kept(old(self), final(self)),
            old(self).obeys(r is Ok) ==> exists|now: u64|
                (final(self).image(), r) == #[trigger] old(self).image().mkdir(path@, recursive, now),
    {
        let now: u64 = utc_now_u64();
        self.mkdir_at(path, recursive, now)
    }

    /// Removes the entry at a path. A directory must be empty.
    pub fn unlink(&mut self, path: &str) -> (r: Result<(), Fault>)
        requires
            old(self).wf(),
        ensures
            Self::kept(old(self), final(self)),
            parent_of(path@) is Err ==> *final(self) == *old(self) && r == Err::<(), Fault>(
                parent_of(path@)->Err_0,
            ),
            old(self).obeys(r is Ok) ==> exists|now: u64|
                (final(self).image(), r) == #[trigger] old(self).image().unlink(path@, now),
    {
        let now: u64 = utc_now_u64();
        self.unlink_at(path, now)
    }

    /// Copies the content of a file.
    pub fn fcopy(&mut self, src: &str, dest: &str, opt: WriteOption) -> (r: Result<(), Fault>)
        requires
            old(self).wf(),
        ensures
            Self::kept(old(self), final(self)),
            old(self).obeys(r is Ok) ==> exists|now: u64|
                (final(self).image(), r) == #[trigger] old(self).image().fcopy(src@, dest@, opt, now),
    {
        let now: u64 = utc_now_u64();
        self.fcopy_at(src, dest, opt, now)
    }

    /// Makes a symbolic link to `content`, whose parent must exist.
    pub fn create_link(&mut self, path: &str, content: &str, opt: WriteOption) -> (r: Result<(), Fault>)
        requires
            old(self).wf(),
        ensures
            Self::kept(old(self), final(self)),
            parent_of(content@) is Err ==> *final(self) == *old(self) && r == Err::<(), Fault>(
                parent_of(content@)->Err_0,
            ),
            old(self).obeys(r is Ok) ==> exists|now: u64|
                (final(self).image(), r) == #[trigger] old(self).image().link(path@, content@, opt, now),
    {
        let now: u64 = utc_now_u64();
        self.create_link_at(path, content, opt, now)
    }

    /// Notes the present time in an inode.
    pub fn update_mtime(&mut self, addr: u64, inode: INode) -> (r: Result<(), Fault>)
        requires
            old(self).wf(),
        ensures
            Self::kept(old(self), final(self)),
            old(self).obeys(r is Ok) ==> exists|now: u64|
                (final(self).image(), r) == #[trigger] old(self).image().put_inode(addr, INode { mtime: now, ..inode }),
    {
        let now: u64 = utc_now_u64();
        self.update_mtime_at(addr, inode, now)
    }

    /// Formats a disk with a random nonce, and opens it.
    pub fn format_new(ctrl: Controller<D>, password: Option<&str>, kd: &KeyDerivation) -> (r: Result<
        Self,
        Fault,
    >)
        requires
            ctrl.wf(),
            password_fits(opt_text(password), *kd),
        ensures
            r is Ok ==> r->Ok_0.wf(),
            r is Ok && ctrl.steady() ==> r->Ok_0.steady(),
            r is Ok && ctrl.single() ==> r->Ok_0.ctrl.single(),
            r is Ok && ctrl.mirrored() ==> r->Ok_0.ctrl.mirrored(),
            ctrl.obeys(r is Ok) ==> exists|nonce: Seq<u8>, now: u64|
                {
                    let m = #[trigger] brute_formatted(
                        ctrl.disk(),
                        ctrl.cipher(),
                        opt_text(password),
                        *kd,
                        nonce,
                        now,
                    );
                    &&& nonce.len() == 12
                    &&& match r {
                        Ok(x) => m == Ok::<_, Fault>(x.image()),
                        Err(e) => m == Err::<Brute, _>(e),
                    }
                },
    {
        let nonce = Crypto::gen_nonce();
        let now: u64 = utc_now_u64();
        assert(nonce@.len() == 12);
        BruteFS::format_new_at(ctrl, password, kd, nonce, now)
    }
}

} // verus!
