//! Reading and writing files and links.
use crate::addr::MaybeU64;
use crate::device::Device;
use crate::error::{seen, Fault, Seeker, XHFSError};
use crate::utils::{path_to_string_list, texts};
use crate::xhfs::ds::{Directory, Hardlink, INode, INodeKind, Node, Symlink};
use crate::xhfs::ops::EntryStat;
use crate::xhfs::link_laws::{between, leads_to_file, seek_reads_part_of_file};
use crate::xhfs::tree::{split_parent, Stat, WriteOption};
use crate::xhfs::XHFS;
use vstd::prelude::*;
use vstd::string::*;
use vstd::utf8::*;

verus! {

/// An entry's data with its value taken by its view.
pub open spec fn seen_stat(r: Result<Option<EntryStat>, XHFSError>) -> Result<
    Option<Stat>,
    XHFSError,
> {
    match r {
        Ok(Some(s)) => Ok(Some(s@)),
        Ok(None) => Ok(None),
        Err(e) => Err(e),
    }
}

impl<D: Device> XHFS<D> {
    /// Lets an inode point to a new content and gives back the blocks of the old one.
    pub(crate) fn replace_content(&mut self, inode: &INode, addr: MaybeU64, mtime: u64) -> (r:
        Result<(), XHFSError>)
        requires
            old(self).wf(),
        ensures
            Self::kept(old(self), final(self)),
            old(self).obeys(r is Ok) ==> (final(self).image(), r) == old(self).image().replace_content(
                inode@,
                addr,
                mtime,
            ),
    {
        let old_addr = inode.extent_addr;
        let mut new = *inode;
        new.extent_addr = addr;
        new.mtime = mtime;
        assert(new@ == (Node { extent_addr: addr, mtime, ..inode@ }));
        match self.register_inode(&new, true) {
            Ok(()) => self.free_full_extent(old_addr),
            Err(e) => Err(e),
        }
    }

    /// Stores the entries of a directory.
    pub(crate) fn store_entries(&mut self, directory: &Directory) -> (r: Result<
        MaybeU64,
        XHFSError,
    >)
        requires
            old(self).wf(),
        ensures
            Self::kept(old(self), final(self)),
            old(self).obeys(r is Ok) ==> (final(self).image(), r) == old(self).image().store_entries(
                directory@,
            ),
    {
        match directory.serialize() {
            Ok(bytes) => self.allocate_and_write_extent(bytes),
            Err(e) => Err(XHFSError::from_report(e)),
        }
    }

    /// Stores a directory's new entries, notes the time in its inode and gives back the
    /// blocks of the old entries.
    pub(crate) fn replace_entries(&mut self, inode: &INode, directory: &Directory, now: u64) -> (r:
        Result<(), XHFSError>)
        requires
            old(self).wf(),
        ensures
            Self::kept(old(self), final(self)),
            old(self).obeys(r is Ok) ==> (final(self).image(), r) == old(self).image().replace_entries(
                inode@,
                directory@,
                now,
            ),
    {
        match self.store_entries(directory) {
            Ok(addr) => self.replace_content(inode, addr, now),
            Err(e) => Err(e),
        }
    }

    /// Writes a file or a link: replaces what is there if that is allowed, else makes a new
    /// entry.
    pub fn blob_write_at(
        &mut self,
        path: &str,
        data: Vec<u8>,
        payload_type: INodeKind,
        opt: WriteOption,
        now: u64,
    ) -> (r: Result<(), XHFSError>)
        requires
            old(self).wf(),
        ensures
            Self::kept(old(self), final(self)),
            old(self).obeys(r is Ok) ==> (final(self).image(), r) == old(self).image().blob_write(
                path@,
                data@,
                payload_type,
                opt,
                now,
            ),
    {
        let remaining: usize = match self.total_remaining_capacity() {
            Ok(n) => n,
            Err(e) => return Err(e),
        };
        if data.len() >= remaining {
            return Err(
                XHFSError::from_report(
                    Fault::InsufficientSpace {
                        size: data.len() as u64,
                        remaining: remaining as u64,
                    },
                ),
            );
        }
        let (parent, filename) = match self.resolve_parent(path) {
            Ok(p) => p,
            Err(e) => return Err(e),
        };
        let directory = match self.read_dir(parent.extent_addr) {
            Ok(d) => d,
            Err(e) => return Err(e),
        };
        match directory.position(&filename) {
            Some(i) => {
                let inumber: u64 = directory.entries[i].1;
                self.overwrite_entry(inumber, data, opt, now)
            },
            None => self.create_entry(&parent, directory, filename, data, payload_type, now),
        }
    }

    /// Replaces the content of a file or symbolic link.
    fn overwrite_entry(&mut self, inumber: u64, data: Vec<u8>, opt: WriteOption, now: u64) -> (r:
        Result<(), XHFSError>)
        requires
            old(self).wf(),
        ensures
            Self::kept(old(self), final(self)),
            old(self).obeys(r is Ok) ==> (final(self).image(), r) == old(self).image().overwrite(
                inumber,
                data@,
                opt,
                now,
            ),
    {
        let inode = match self.resolve_entry(inumber) {
            Ok(i) => i,
            Err(e) => return Err(e.sought_by(Seeker::Write)),
        };
        match inode.kind {
            INodeKind::File | INodeKind::Symlink => {},
            _ => return Err(XHFSError::from_report(Fault::NotAFile)),
        }
        if !opt.overwrite {
            return Err(XHFSError::from_report(Fault::FileExists));
        }
        let mut new = inode;
        new.total_file_size = data.len() as u64;
        assert(new@ == (Node { total_file_size: data@.len() as u64, ..inode@ }));
        let addr = match self.allocate_and_write_extent(data) {
            Ok(a) => a,
            Err(e) => return Err(e),
        };
        let mtime: u64 = match opt.modified {
            Some(t) => t,
            None => now,
        };
        self.replace_content(&new, addr, mtime)
    }

    /// Makes a new entry in a directory.
    fn create_entry(
        &mut self,
        parent: &INode,
        directory: Directory,
        filename: String,
        data: Vec<u8>,
        payload_type: INodeKind,
        now: u64,
    ) -> (r: Result<(), XHFSError>)
        requires
            old(self).wf(),
        ensures
            Self::kept(old(self), final(self)),
            old(self).obeys(r is Ok) ==> (final(self).image(), r) == old(self).image().create(
                parent@,
                directory@,
                filename@,
                data@,
                payload_type,
                now,
            ),
    {
        let mut directory = directory;
        let size: u64 = data.len() as u64;
        let addr = match self.allocate_and_write_extent(data) {
            Ok(a) => a,
            Err(e) => return Err(e),
        };
        if matches!(payload_type, INodeKind::Directory) {
            return Err(XHFSError::from_report(Fault::ExpectedFile));
        }
        let inode = match self.allocate_inode_near_at(
            parent.inumber,
            size,
            addr,
            payload_type,
            now,
        ) {
            Ok(i) => i,
            Err(e) => return Err(e),
        };
        directory.add(filename, inode.inumber);
        self.replace_entries(parent, &directory, now)
    }

    /// Writes a file.
    pub fn fwrite_at(&mut self, path: &str, data: Vec<u8>, opt: WriteOption, now: u64) -> (r:
        Result<(), XHFSError>)
        requires
            old(self).wf(),
        ensures
            Self::kept(old(self), final(self)),
            old(self).obeys(r is Ok) ==> (final(self).image(), r) == old(self).image().blob_write(
                path@,
                data@,
                INodeKind::File,
                opt,
                now,
            ),
    {
        self.blob_write_at(path, data, INodeKind::File, opt, now)
    }

    /// The inode that a link stands for; any other inode stands for itself.
    pub(crate) fn follow_link_or_noop(&self, inode: INode) -> (r: Result<INode, XHFSError>)
        requires
            self.wf(),
        ensures
            self.tells(r is Ok) ==> seen(r) == self.image().follow(inode@),
    {
        match inode.kind {
            INodeKind::Hardlink => {
                let payload = match self.read_full_data_from_extent(inode.extent_addr) {
                    Ok(p) => p,
                    Err(e) => return Err(e),
                };
                let link = match Hardlink::deserialize(payload.as_slice()) {
                    Ok(l) => l,
                    Err(e) => return Err(XHFSError::from_report(e)),
                };
                if link.inumber == inode.inumber {
                    return Err(XHFSError::from_report(Fault::HardlinkToItself));
                }
                match self.resolve_entry(link.inumber) {
                    Ok(target) => Ok(target),
                    Err(e) => Err(e.sought_by(Seeker::Link)),
                }
            },
            INodeKind::Symlink => {
                let payload = match self.read_full_data_from_extent(inode.extent_addr) {
                    Ok(p) => p,
                    Err(e) => return Err(e),
                };
                match Symlink::deserialize(payload.as_slice()) {
                    Ok(link) => self.resolve_path(link.path.as_str()),
                    Err(e) => Err(XHFSError::from_report(e)),
                }
            },
            _ => Ok(inode),
        }
    }

    /// The inode whose content is read for an inode.
    pub(crate) fn readable_inode(&self, inode: INode) -> (r: Result<INode, XHFSError>)
        requires
            self.wf(),
        ensures
            self.tells(r is Ok) ==> seen(r) == self.image().readable(inode@),
    {
        match inode.kind {
            INodeKind::File => Ok(inode),
            INodeKind::Directory => Err(XHFSError::from_report(Fault::CannotReadDirectory)),
            _ => self.follow_link_or_noop(inode),
        }
    }

    /// The content of a file, links followed.
    pub fn fread(&self, path: &str) -> (r: Result<Vec<u8>, XHFSError>)
        requires
            self.wf(),
        ensures
            self.tells(r is Ok) ==> seen(r) == self.image().fread(path@),
    {
        let inode = match self.resolve_path(path) {
            Ok(i) => i,
            Err(e) => return Err(e),
        };
        match self.readable_inode(inode) {
            Ok(target) => self.read_full_data_from_extent(target.extent_addr),
            Err(e) => Err(e),
        }
    }

    /// The bytes from `start` to before `end` of a file, links followed.
    pub fn fseek(&self, path: &str, start: u64, end: u64) -> (r: Result<Vec<u8>, XHFSError>)
        requires
            self.wf(),
        ensures
            self.tells(r is Ok) ==> seen(r) == self.image().fseek(path@, start, end),
            self.tells(r is Ok) && leads_to_file(self.image(), path@) && self.image().fread(path@) is Ok
                && self.image().fread(path@)->Ok_0.len() <= u64::MAX ==> seen(r) == Ok::<
                _,
                XHFSError,
            >(between(self.image().fread(path@)->Ok_0, start, end)),
    {
        proof {
            let m = self.image();
            if leads_to_file(m, path@) && m.fread(path@) is Ok && m.fread(path@)->Ok_0.len()
                <= u64::MAX {
                seek_reads_part_of_file(m, path@, start, end);
            }
        }
        let inode = match self.resolve_path(path) {
            Ok(i) => i,
            Err(e) => return Err(e),
        };
        let target = match self.follow_link_or_noop(inode) {
            Ok(i) => i,
            Err(e) => return Err(e),
        };
        match target.kind {
            INodeKind::File => self.seek_full_data_from_extent(target.extent_addr, start, end),
            INodeKind::Directory => Err(XHFSError::from_report(Fault::CannotReadDirectory)),
            kind => Err(XHFSError::from_report(Fault::UnresolvedLink { kind })),
        }
    }

    /// Adds data to the end of the file that an inode stands for. Gives the file's inode.
    pub fn fappend_inode_at(&mut self, inode: INode, data: Vec<u8>, mtime: u64) -> (r: Result<
        INode,
        XHFSError,
    >)
        requires
            old(self).wf(),
        ensures
            Self::kept(old(self), final(self)),
            old(self).obeys(r is Ok) ==> (final(self).image(), seen(r))
                == old(self).image().append_inode(
                inode@,
                data@,
                mtime,
                old(self).image().disk.len(),
            ),
    {
        let mut fuel: u64 = self.disk_size();
        let mut cur = inode;
        loop
            invariant
                *self == *old(self),
                self.wf(),
                self.obeys(true) ==> self.image().append_inode(
                    inode@,
                    data@,
                    mtime,
                    self.image().disk.len(),
                ) == self.image().append_inode(cur@, data@, mtime, fuel as nat),
            decreases fuel,
        {
            match cur.kind {
                INodeKind::Directory => {
                    return Err(XHFSError::from_report(Fault::CannotAppendDirectory));
                },
                INodeKind::File => {
                    return self.append_to_file(cur, data, mtime);
                },
                _ => {},
            }
            if fuel == 0 {
                return Err(XHFSError::from_report(Fault::LinkLoop));
            }
            let target = match self.follow_link_or_noop(cur) {
                Ok(t) => t,
                Err(e) => return Err(e),
            };
            if matches!(cur.kind, INodeKind::Hardlink) && target.inumber == cur.inumber {
                return Err(XHFSError::from_report(Fault::HardlinkToItself));
            }
            cur = target;
            fuel = fuel - 1;
        }
    }

    /// Adds data to the end of a file.
    fn append_to_file(&mut self, inode: INode, data: Vec<u8>, mtime: u64) -> (r: Result<
        INode,
        XHFSError,
    >)
        requires
            old(self).wf(),
            inode.kind is File,
        ensures
            Self::kept(old(self), final(self)),
            old(self).obeys(r is Ok) ==> (final(self).image(), seen(r))
                == old(self).image().append_inode(inode@, data@, mtime, 0),
            old(self).obeys(r is Ok) ==> forall|fuel: nat|
                #[trigger] old(self).image().append_inode(inode@, data@, mtime, fuel)
                    == old(self).image().append_inode(inode@, data@, mtime, 0),
    {
        let size: u64 = data.len() as u64;
        if size > u64::MAX - inode.total_file_size {
            return Err(XHFSError::from_report(Fault::AddressOverflow));
        }
        let addr = match self.append_or_allocate_extent(inode.extent_addr, data) {
            Ok(a) => a,
            Err(e) => return Err(e),
        };
        let mut new = inode;
        new.total_file_size = inode.total_file_size + size;
        new.extent_addr = addr;
        new.mtime = mtime;
        assert(new@ == (Node {
            total_file_size: (inode.total_file_size + data@.len()) as u64,
            extent_addr: addr,
            mtime,
            ..inode@
        }));
        match self.register_inode(&new, true) {
            Ok(()) => Ok(new),
            Err(e) => Err(e),
        }
    }

    /// Adds data to the end of the file at a path, links followed.
    pub fn fappend_at(&mut self, path: &str, data: Vec<u8>, mtime: u64) -> (r: Result<
        (),
        XHFSError,
    >)
        requires
            old(self).wf(),
        ensures
            Self::kept(old(self), final(self)),
            old(self).obeys(r is Ok) ==> (final(self).image(), r) == old(self).image().fappend(
                path@,
                data@,
                mtime,
            ),
    {
        let inode = match self.resolve_path(path) {
            Ok(i) => i,
            Err(e) => return Err(e),
        };
        match self.fappend_inode_at(inode, data, mtime) {
            Ok(_) => Ok(()),
            Err(e) => Err(e),
        }
    }

    /// True if there is something at a path.
    pub fn path_exists(&self, path: &str) -> (r: Result<bool, XHFSError>)
        requires
            self.wf(),
        ensures
            self.tells(r == Ok::<bool, XHFSError>(true)) ==> r == self.image().path_exists(path@),
    {
        match self.stats(path, false) {
            Ok(s) => Ok(s.is_some()),
            Err(e) => Err(e),
        }
    }

    /// What is known of the entry at a path; nothing if there is none.
    pub fn stats(&self, path: &str, follow_hardlink: bool) -> (r: Result<
        Option<EntryStat>,
        XHFSError,
    >)
        requires
            self.wf(),
        ensures
            self.tells(r is Ok && r->Ok_0 is Some) ==> seen_stat(r) == self.image().stats(path@, follow_hardlink),
    {
        let parts = path_to_string_list(path);
        let ghost names = texts(parts@);
        if parts.len() == 0 {
            let inode = match self.get_root_inode() {
                Ok(i) => i,
                Err(e) => return Err(e),
            };
            let mut name = String::new();
            name.push('/');
            assert(name@ =~= seq!['/']);
            return Ok(
                Some(
                    EntryStat {
                        name,
                        size: None,
                        nlink: inode.nlink,
                        kind: inode.kind,
                        mtime: inode.mtime,
                        ctime: inode.ctime,
                    },
                ),
            );
        }
        let inode = match self.resolve_path(path) {
            Ok(i) => i,
            Err(_) => return Ok(None),
        };
        let inode = if follow_hardlink && matches!(inode.kind, INodeKind::Hardlink) {
            match self.follow_link_or_noop(inode) {
                Ok(i) => i,
                Err(e) => return Err(e),
            }
        } else {
            inode
        };
        let n: usize = parts.len();
        assert(names.last() == parts@[n - 1]@);
        Ok(
            Some(
                EntryStat {
                    name: parts[n - 1].clone(),
                    size: match inode.kind {
                        INodeKind::Directory => None,
                        _ => Some(shortened(inode.total_file_size)),
                    },
                    nlink: inode.nlink,
                    kind: inode.kind,
                    mtime: inode.mtime,
                    ctime: inode.ctime,
                },
            ),
        )
    }

    /// Makes a symbolic link to a path whose parent exists.
    pub fn create_symlink_at(&mut self, path: &str, content: &str, opt: WriteOption, now: u64) -> (
    r: Result<(), XHFSError>)
        requires
            old(self).wf(),
        ensures
            Self::kept(old(self), final(self)),
            split_parent(content@) is Err ==> *final(self) == *old(self) && r == Err::<(), XHFSError>(
                split_parent(content@)->Err_0,
            ),
            old(self).obeys(r is Ok) ==> (final(self).image(), r) == old(self).image().symlink(
                path@,
                content@,
                opt,
                now,
            ),
    {
        match self.resolve_parent(content) {
            Ok(_) => {},
            Err(e) => return Err(e),
        }
        let link = Symlink { path: content.to_owned() };
        self.blob_write_at(path, link.serialize(), INodeKind::Symlink, opt, now)
    }

    /// Makes a hard link to a file, and counts it there.
    pub fn create_hardlink_at(&mut self, path: &str, content: &str, opt: WriteOption, now: u64) -> (
    r: Result<(), XHFSError>)
        requires
            old(self).wf(),
        ensures
            Self::kept(old(self), final(self)),
            old(self).obeys(r is Ok) ==> (final(self).image(), r) == old(self).image().hardlink(
                path@,
                content@,
                opt,
                now,
            ),
    {
        let inode = match self.resolve_path(content) {
            Ok(i) => i,
            Err(e) => return Err(e),
        };
        if !matches!(inode.kind, INodeKind::File) {
            return Err(XHFSError::from_report(Fault::HardlinkTarget { kind: inode.kind }));
        }
        let link = Hardlink { inumber: inode.inumber };
        match self.blob_write_at(path, link.serialize(), INodeKind::Hardlink, opt, now) {
            Ok(()) => self.increment_inode_nlink(inode),
            Err(e) => Err(e),
        }
    }

    /// Writes the content of one file to another path.
    pub fn fcopy_at(&mut self, src: &str, dest: &str, opt: WriteOption, now: u64) -> (r: Result<
        (),
        XHFSError,
    >)
        requires
            old(self).wf(),
        ensures
            Self::kept(old(self), final(self)),
            old(self).obeys(r is Ok) ==> (final(self).image(), r) == old(self).image().fcopy(
                src@,
                dest@,
                opt,
                now,
            ),
    {
        match self.fread(src) {
            Ok(data) => self.fwrite_at(dest, data, opt, now),
            Err(e) => Err(e),
        }
    }
}

/// A file size as a machine word.
#[verifier::truncate]
pub(crate) fn shortened(n: u64) -> (r: usize)
    ensures
        r == n as usize,
{
    n as usize
}

} // verus!
