//! Files, links and directories.
use crate::addr::MaybeU64;
use crate::bfs::image::{parent_of, Brute, BruteStat, WriteOption};
use crate::bfs::records::{INode, INodeKind, SymLink};
use crate::bfs::BruteFS;
use crate::device::Device;
use crate::error::{seen, Fault};
use crate::utils::{chars_of, components, equal_paths, is_parent_name, path_to_string_list, texts};
use crate::xhfs::dirs::{entry_names, names_of};
use crate::xhfs::ds::{Directory, Extent};
use crate::xhfs::files::shortened;
use crate::xhfs::layout::AddressSlot;
use vstd::prelude::*;
use vstd::string::*;

verus! {

/// What is known of an entry.
#[derive(Debug, Clone, PartialEq, Eq)]
pub struct EntryStat {
    pub name: String,
    pub kind: INodeKind,
    pub size: Option<usize>,
    pub mtime: u64,
    pub ctime: u64,
}

impl View for EntryStat {
    type V = BruteStat;

    open spec fn view(&self) -> BruteStat {
        BruteStat {
            name: self.name@,
            kind: self.kind,
            size: self.size,
            mtime: self.mtime,
            ctime: self.ctime,
        }
    }
}

/// A parent with its name taken by its view.
pub open spec fn seen_parent(r: Result<(u64, INode, String), Fault>) -> Result<
    ((u64, INode), Seq<char>),
    Fault,
> {
    match r {
        Ok((a, n, s)) => Ok(((a, n), s@)),
        Err(e) => Err(e),
    }
}

/// An entry's data with its value taken by its view.
pub open spec fn seen_brute_stat(r: Result<Option<EntryStat>, Fault>) -> Result<
    Option<BruteStat>,
    Fault,
> {
    match r {
        Ok(Some(s)) => Ok(Some(s@)),
        Ok(None) => Ok(None),
        Err(e) => Err(e),
    }
}

/// A walk that fails early fails the same way later.
proof fn lemma_walk_err(m: Brute, parts: Seq<Seq<char>>, a: nat, b: nat)
    requires
        a <= b,
        m.walk(parts, a) is Err,
    ensures
        m.walk(parts, b) == m.walk(parts, a),
    decreases b,
{
    if a < b {
        lemma_walk_err(m, parts, a, (b - 1) as nat);
    }
}

/// A walk depends only on the parts that it takes.
pub proof fn lemma_walk_prefix(m: Brute, a: Seq<Seq<char>>, b: Seq<Seq<char>>, k: nat)
    requires
        k <= a.len(),
        k <= b.len(),
        forall|i: int| 0 <= i < k ==> a[i] == b[i],
    ensures
        m.walk(a, k) == m.walk(b, k),
    decreases k,
{
    if k > 0 {
        lemma_walk_prefix(m, a, b, (k - 1) as nat);
    }
}

impl<D: Device> BruteFS<D> {
    /// The directory whose entries an extent chain holds.
    fn read_dir(&self, addr: MaybeU64) -> (r: Result<Directory, Fault>)
        requires
            self.wf(),
        ensures
            self.tells(r is Ok) ==> seen(r) == self.image().dir(addr),
    {
        match self.read_full_data_from_extent(addr) {
            Ok(payload) => Directory::deserialize(payload.as_slice()),
            Err(e) => Err(e),
        }
    }

    /// The inode with a name in a directory.
    fn resolve_child(&self, inode: &INode, name: &String, depth: usize) -> (r: Result<
        (u64, INode),
        Fault,
    >)
        requires
            self.wf(),
            depth < usize::MAX,
        ensures
            self.tells(r is Ok) ==> r == self.image().child(*inode, name@, depth as int),
    {
        match inode.kind {
            INodeKind::Directory => {
                let directory = match self.read_dir(inode.extent_addr) {
                    Ok(d) => d,
                    Err(e) => return Err(e),
                };
                match directory.position(name) {
                    Some(i) => {
                        let addr: u64 = directory.entries[i].1;
                        match self.read_inode(addr) {
                            Ok(n) => Ok((addr, n)),
                            Err(e) => Err(e),
                        }
                    },
                    None => Err(Fault::PathMissing { depth: depth as u64 + 1 }),
                }
            },
            INodeKind::File => Err(Fault::FileInPath { depth: depth as u64 + 1 }),
            INodeKind::Symlink => Err(Fault::LinkInPath { depth: depth as u64 + 1 }),
        }
    }

    /// The inode that the first `n` parts of a path lead to.
    fn walk_parts(&self, parts: &Vec<String>, n: usize) -> (r: Result<(u64, INode), Fault>)
        requires
            self.wf(),
            n <= parts@.len(),
        ensures
            self.tells(r is Ok) ==> r == self.image().walk(texts(parts@), n as nat),
    {
        let ghost m = self.image();
        let ghost names = texts(parts@);
        let mut cur = match self.get_root_inode() {
            Ok(i) => i,
            Err(e) => {
                proof {
                    if self.tells(false) {
                        lemma_walk_err(m, names, 0, n as nat);
                    }
                }
                return Err(e);
            },
        };
        let mut i: usize = 0;
        while i < n
            invariant
                i <= n <= parts@.len(),
                self.wf(),
                m == self.image(),
                names == texts(parts@),
                self.tells(true) ==> m.walk(names, i as nat) == Ok::<_, Fault>(cur),
            decreases n - i,
        {
            match self.resolve_child(&cur.1, &parts[i], i) {
                Ok(next) => {
                    cur = next;
                },
                Err(e) => {
                    proof {
                        if self.tells(false) {
                            lemma_walk_err(m, names, (i + 1) as nat, n as nat);
                        }
                    }
                    return Err(e);
                },
            }
            i = i + 1;
        }
        Ok(cur)
    }

    /// The inode at a path, with its address.
    pub fn resolve_path(&self, path: &str) -> (r: Result<(u64, INode), Fault>)
        requires
            self.wf(),
        ensures
            self.tells(r is Ok) ==> r == self.image().lookup(path@),
    {
        let parts = path_to_string_list(path);
        assert(texts(parts@).len() == parts@.len());
        let n: usize = parts.len();
        self.walk_parts(&parts, n)
    }

    /// The parent of what is at a path, with its address, and the name in it.
    fn resolve_parent(&self, path: &str) -> (r: Result<(u64, INode, String), Fault>)
        requires
            self.wf(),
        ensures
            parent_of(path@) is Err ==> r is Err && r->Err_0 == parent_of(path@)->Err_0,
            self.tells(r is Ok) ==> seen_parent(r) == self.image().parent(path@),
    {
        let parts = path_to_string_list(path);
        let ghost names = texts(parts@);
        let n: usize = parts.len();
        if n == 0 {
            let chars = chars_of(path);
            if chars.len() == 0 || chars[0] == '/' {
                return Err(Fault::MissingParent);
            }
            return Err(Fault::MissingFilename);
        }
        assert(names.last() == parts@[n - 1]@);
        if is_parent_name(parts[n - 1].as_str()) {
            return Err(Fault::MissingFilename);
        }
        proof {
            if self.tells(true) {
                lemma_walk_prefix(self.image(), names, names.drop_last(), (n - 1) as nat);
            }
        }
        match self.walk_parts(&parts, n - 1) {
            Ok((addr, inode)) => Ok((addr, inode, parts[n - 1].clone())),
            Err(e) => Err(e),
        }
    }

    /// The inode at a path, symbolic links followed.
    fn resolve_target(&self, path: &str) -> (r: Result<INode, Fault>)
        requires
            self.wf(),
        ensures
            self.tells(r is Ok) ==> r == self.image().target(path@, self.image().disk.len()),
            r is Ok ==> !(r->Ok_0.kind is Symlink),
    {
        let ghost m = self.image();
        let mut fuel: u64 = self.disk_size();
        let mut current: String = path.to_owned();
        loop
            invariant
                self.wf(),
                m == self.image(),
                self.tells(true) ==> m.target(path@, m.disk.len()) == m.target(
                    current@,
                    fuel as nat,
                ),
            decreases fuel,
        {
            let (_, inode) = match self.resolve_path(current.as_str()) {
                Ok(i) => i,
                Err(e) => return Err(e),
            };
            if !matches!(inode.kind, INodeKind::Symlink) {
                return Ok(inode);
            }
            let payload = match self.read_full_data_from_extent(inode.extent_addr) {
                Ok(p) => p,
                Err(e) => return Err(e),
            };
            let link = match SymLink::deserialize(payload.as_slice()) {
                Ok(l) => l,
                Err(e) => return Err(e),
            };
            if equal_paths(link.path.as_str(), current.as_str()) {
                return Err(Fault::SymlinkToItself);
            }
            if fuel == 0 {
                return Err(Fault::LinkLoop);
            }
            current = link.path;
            fuel = fuel - 1;
        }
    }

    /// The names in a directory, symbolic links followed.
    pub fn ls(&self, path: &str) -> (r: Result<Vec<String>, Fault>)
        requires
            self.wf(),
        ensures
            self.tells(r is Ok) ==> match self.image().list(path@) {
                Ok(e) => r is Ok && texts(r->Ok_0@) == names_of(e),
                Err(x) => r == Err::<Vec<String>, Fault>(x),
            },
    {
        let inode = match self.resolve_target(path) {
            Ok(i) => i,
            Err(e) => return Err(e),
        };
        if let INodeKind::File = inode.kind {
            return Err(Fault::CannotListFile);
        }
        match self.read_dir(inode.extent_addr) {
            Ok(d) => Ok(entry_names(&d)),
            Err(e) => Err(e),
        }
    }

    /// The content of a file, symbolic links followed.
    pub fn fread(&self, path: &str) -> (r: Result<Vec<u8>, Fault>)
        requires
            self.wf(),
        ensures
            self.tells(r is Ok) ==> seen(r) == self.image().fread(path@),
    {
        let inode = match self.resolve_target(path) {
            Ok(i) => i,
            Err(e) => return Err(e),
        };
        if let INodeKind::Directory = inode.kind {
            return Err(Fault::CannotReadDirectory);
        }
        self.read_full_data_from_extent(inode.extent_addr)
    }

    /// The bytes from `start` to before `end` of a file, symbolic links followed.
    pub fn fseek(&self, path: &str, start: u64, end: u64) -> (r: Result<Vec<u8>, Fault>)
        requires
            self.wf(),
        ensures
            self.tells(r is Ok) ==> seen(r) == self.image().fseek(path@, start, end),
    {
        let inode = match self.resolve_target(path) {
            Ok(i) => i,
            Err(e) => return Err(e),
        };
        if let INodeKind::Directory = inode.kind {
            return Err(Fault::CannotReadDirectory);
        }
        self.seek_full_data_from_extent(inode.extent_addr, start, end)
    }

    /// Adds data to the end of a file, symbolic links followed. The inode of the file is left
    /// as it is.
    pub fn fappend(&mut self, path: &str, data: Vec<u8>) -> (r: Result<(), Fault>)
        requires
            old(self).wf(),
        ensures
            Self::kept(old(self), final(self)),
            old(self).obeys(r is Ok) ==> (final(self).image(), r) == old(self).image().fappend(
                path@,
                data@,
            ),
    {
        let inode = match self.resolve_target(path) {
            Ok(i) => i,
            Err(e) => return Err(e),
        };
        if let INodeKind::Directory = inode.kind {
            return Err(Fault::CannotAppendDirectory);
        }
        let extent = Extent { next: MaybeU64::from(0), data };
        match self.append_or_allocate_extent(inode.extent_addr, extent) {
            Ok(_) => Ok(()),
            Err(e) => Err(e),
        }
    }

    /// Lets the inode at `addr` point to new content and frees the old content.
    fn point_inode(&mut self, addr: u64, inode: &INode, new: u64, mtime: u64) -> (r: Result<
        (),
        Fault,
    >)
        requires
            old(self).wf(),
        ensures
            Self::kept(old(self), final(self)),
            old(self).obeys(r is Ok) ==> (final(self).image(), r) == old(self).image().point(
                addr,
                *inode,
                new,
                mtime,
            ),
    {
        let mut changed = *inode;
        changed.extent_addr = MaybeU64::from(new);
        changed.mtime = mtime;
        match self.write_inode(addr, &changed) {
            Ok(()) => self.free_full_extent(inode.extent_addr),
            Err(e) => Err(e),
        }
    }

    /// Stores the entries of a directory.
    fn store_entries(&mut self, directory: &Directory) -> (r: Result<u64, Fault>)
        requires
            old(self).wf(),
        ensures
            Self::kept(old(self), final(self)),
            old(self).obeys(r is Ok) ==> (final(self).image(), r) == old(self).image().store_entries(
                directory@,
            ),
    {
        match directory.serialize() {
            Ok(bytes) => self.store_data(bytes),
            Err(e) => Err(e),
        }
    }

    /// Stores a directory's new entries and frees the old ones.
    fn replace_entries(&mut self, addr: u64, inode: &INode, directory: &Directory, mtime: u64) -> (r:
        Result<(), Fault>)
        requires
            old(self).wf(),
        ensures
            Self::kept(old(self), final(self)),
            old(self).obeys(r is Ok) ==> (final(self).image(), r) == old(self).image().replace_entries(
                addr,
                *inode,
                directory@,
                mtime,
            ),
    {
        match self.store_entries(directory) {
            Ok(new) => self.point_inode(addr, inode, new, mtime),
            Err(e) => Err(e),
        }
    }

    /// Replaces the content of a file or link.
    fn overwrite_entry(&mut self, addr: u64, data: Vec<u8>, opt: WriteOption, now: u64) -> (r:
        Result<(), Fault>)
        requires
            old(self).wf(),
        ensures
            Self::kept(old(self), final(self)),
            old(self).obeys(r is Ok) ==> (final(self).image(), r) == old(self).image().overwrite(
                addr,
                data@,
                opt,
                now,
            ),
    {
        let inode = match self.read_inode(addr) {
            Ok(i) => i,
            Err(e) => return Err(e),
        };
        if let INodeKind::Directory = inode.kind {
            return Err(Fault::NotAFile);
        }
        if !opt.overwrite {
            return Err(Fault::FileExists);
        }
        match self.store_data(data) {
            Ok(new) => self.point_inode(addr, &inode, new, now),
            Err(e) => Err(e),
        }
    }

    /// Makes a new entry in a directory.
    fn create_entry(
        &mut self,
        addr: u64,
        parent: &INode,
        directory: Directory,
        filename: String,
        data: Vec<u8>,
        is_symlink: bool,
        now: u64,
    ) -> (r: Result<(), Fault>)
        requires
            old(self).wf(),
        ensures
            Self::kept(old(self), final(self)),
            old(self).obeys(r is Ok) ==> (final(self).image(), r) == old(self).image().create(
                addr,
                *parent,
                directory@,
                filename@,
                data@,
                is_symlink,
                now,
            ),
    {
        let mut directory = directory;
        let file_size: u64 = data.len() as u64;
        let extent_addr: u64 = match self.store_data(data) {
            Ok(a) => a,
            Err(e) => return Err(e),
        };
        let inode = INode {
            kind: if is_symlink {
                INodeKind::Symlink
            } else {
                INodeKind::File
            },
            total_file_size: file_size,
            extent_addr: MaybeU64::from(extent_addr),
            mtime: now,
            ctime: now,
        };
        let inode_addr: u64 = match self.add_inode(&inode) {
            Ok(a) => a,
            Err(e) => return Err(e),
        };
        directory.add(filename, inode_addr);
        self.replace_entries(addr, parent, &directory, now)
    }

    /// Writes a file or a link: replaces what is there if that is allowed, else makes a new
    /// entry.
    pub fn blob_write_at(
        &mut self,
        path: &str,
        data: Vec<u8>,
        is_symlink: bool,
        opt: WriteOption,
        now: u64,
    ) -> (r: Result<(), Fault>)
        requires
            old(self).wf(),
        ensures
            Self::kept(old(self), final(self)),
            parent_of(path@) is Err ==> *final(self) == *old(self) && r == Err::<(), Fault>(
                parent_of(path@)->Err_0,
            ),
            old(self).obeys(r is Ok) ==> (final(self).image(), r) == old(self).image().blob_write(
                path@,
                data@,
                is_symlink,
                opt,
                now,
            ),
    {
        let (addr, parent, filename) = match self.resolve_parent(path) {
            Ok(p) => p,
            Err(e) => return Err(e),
        };
        let directory = match self.read_dir(parent.extent_addr) {
            Ok(d) => d,
            Err(e) => return Err(e),
        };
        match directory.position(&filename) {
            Some(i) => {
                let at: u64 = directory.entries[i].1;
                self.overwrite_entry(at, data, opt, now)
            },
            None => self.create_entry(addr, &parent, directory, filename, data, is_symlink, now),
        }
    }

    /// Writes a file.
    pub fn fwrite_at(&mut self, path: &str, data: Vec<u8>, opt: WriteOption, now: u64) -> (r:
        Result<(), Fault>)
        requires
            old(self).wf(),
        ensures
            Self::kept(old(self), final(self)),
            parent_of(path@) is Err ==> *final(self) == *old(self) && r == Err::<(), Fault>(
                parent_of(path@)->Err_0,
            ),
            old(self).obeys(r is Ok) ==> (final(self).image(), r) == old(self).image().blob_write(
                path@,
                data@,
                false,
                opt,
                now,
            ),
    {
        self.blob_write_at(path, data, false, opt, now)
    }

    /// Makes a symbolic link to `content`, whose parent must exist.
    pub fn create_link_at(&mut self, path: &str, content: &str, opt: WriteOption, now: u64) -> (r:
        Result<(), Fault>)
        requires
            old(self).wf(),
        ensures
            Self::kept(old(self), final(self)),
            parent_of(content@) is Err ==> *final(self) == *old(self) && r == Err::<(), Fault>(
                parent_of(content@)->Err_0,
            ),
            old(self).obeys(r is Ok) ==> (final(self).image(), r) == old(self).image().link(
                path@,
                content@,
                opt,
                now,
            ),
    {
        match self.resolve_parent(content) {
            Ok(_) => {},
            Err(e) => return Err(e),
        }
        let link = SymLink { path: content.to_owned() };
        self.blob_write_at(path, link.serialize(), true, opt, now)
    }

    /// Copies the content of a file.
    pub fn fcopy_at(&mut self, src: &str, dest: &str, opt: WriteOption, now: u64) -> (r: Result<
        (),
        Fault,
    >)
        requires
            old(self).wf(),
        ensures
            Self::kept(old(self), final(self)),
            old(self).obeys(r is Ok) ==> (final(self).image(), r) == old(self).image().fcopy(
                src@,
                dest@,
                opt,
                now,
            ),
    {
        let data = match self.fread(src) {
            Ok(d) => d,
            Err(e) => return Err(e),
        };
        match self.resolve_parent(dest) {
            Ok(_) => self.fwrite_at(dest, data, opt, now),
            Err(e) => Err(e),
        }
    }

    /// Makes a directory, with `recursive` also the directories on the way to it. Tells if
    /// anything was made.
    pub fn mkdir_at(&mut self, path: &str, recursive: bool, now: u64) -> (r: Result<bool, Fault>)
        requires
            old(self).wf(),
        ensures
            Self::kept(old(self), final(self)),
            old(self).obeys(r is Ok) ==> (final(self).image(), r) == old(self).image().mkdir(
                path@,
                recursive,
                now,
            ),
    {
        let parts = path_to_string_list(path);
        let ghost names = texts(parts@);
        let mut created = false;
        let (mut cur_addr, mut cur) = match self.get_root_inode() {
            Ok(i) => i,
            Err(e) => return Err(e),
        };
        let at_root = parts.len() <= 1;
        let mut k: usize = 0;
        while k < parts.len()
            invariant
                k <= parts@.len(),
                names == texts(parts@),
                names == components(path@),
                at_root == (parts@.len() <= 1),
                Self::kept(old(self), self),
                old(self).obeys(true) ==> old(self).image().mkdir(path@, recursive, now)
                    == self.image().mkdir_from(
                    names,
                    k as int,
                    cur_addr,
                    cur,
                    created,
                    recursive,
                    now,
                ),
            decreases parts@.len() - k,
        {
            assert(names[k as int] == parts@[k as int]@);
            match cur.kind {
                INodeKind::Directory => {},
                _ => return Err(Fault::NotADirectory),
            }
            let mut directory = match self.read_dir(cur.extent_addr) {
                Ok(d) => d,
                Err(e) => return Err(e),
            };
            match directory.position(&parts[k]) {
                Some(i) => {
                    let addr: u64 = directory.entries[i].1;
                    match self.read_inode(addr) {
                        Ok(next) => {
                            cur = next;
                            cur_addr = addr;
                        },
                        Err(e) => return Err(e),
                    }
                },
                None => {
                    if !recursive && !at_root {
                        return Err(Fault::DirectoryMissing { depth: k as u64 + 1 });
                    }
                    let new = INode {
                        kind: INodeKind::Directory,
                        total_file_size: 0,
                        extent_addr: MaybeU64::from(0),
                        mtime: now,
                        ctime: now,
                    };
                    let addr: u64 = match self.add_inode(&new) {
                        Ok(a) => a,
                        Err(e) => return Err(e),
                    };
                    directory.add(parts[k].clone(), addr);
                    match self.replace_entries(cur_addr, &cur, &directory, now) {
                        Ok(()) => {},
                        Err(e) => return Err(e),
                    }
                    created = true;
                    cur_addr = addr;
                    cur = new;
                },
            }
            k = k + 1;
        }
        Ok(created)
    }

    /// Frees the content of a file or link. The content of a directory, which must be empty, is
    /// to be freed later: its address is given.
    fn clear_out(&mut self, inode: &INode) -> (r: Result<MaybeU64, Fault>)
        requires
            old(self).wf(),
        ensures
            Self::kept(old(self), final(self)),
            old(self).obeys(r is Ok) ==> (final(self).image(), r) == old(self).image().clear_out(*inode),
    {
        match inode.kind {
            INodeKind::File | INodeKind::Symlink => match self.free_full_extent(
                inode.extent_addr,
            ) {
                Ok(()) => Ok(MaybeU64::from(0)),
                Err(e) => Err(e),
            },
            INodeKind::Directory => match self.read_dir(inode.extent_addr) {
                Ok(d) => if d.entries.len() > 0 {
                    Err(Fault::DirectoryNotEmpty)
                } else {
                    Ok(inode.extent_addr)
                },
                Err(e) => Err(e),
            },
        }
    }

    /// Removes the entry at a path. A directory must be empty.
    pub fn unlink_at(&mut self, path: &str, now: u64) -> (r: Result<(), Fault>)
        requires
            old(self).wf(),
        ensures
            Self::kept(old(self), final(self)),
            parent_of(path@) is Err ==> *final(self) == *old(self) && r == Err::<(), Fault>(
                parent_of(path@)->Err_0,
            ),
            old(self).obeys(r is Ok) ==> (final(self).image(), r) == old(self).image().unlink(path@, now),
    {
        let (addr, parent, filename) = match self.resolve_parent(path) {
            Ok(p) => p,
            Err(e) => return Err(e),
        };
        let mut directory = match self.read_dir(parent.extent_addr) {
            Ok(d) => d,
            Err(e) => return Err(e),
        };
        let index: usize = match directory.position(&filename) {
            Some(i) => i,
            None => return Err(Fault::NoSuchEntry),
        };
        let ghost before = directory@;
        let (_, inode_addr) = directory.entries.remove(index);
        assert(directory@ =~= before.remove(index as int));
        let inode = match self.read_inode(inode_addr) {
            Ok(i) => i,
            Err(e) => return Err(e),
        };
        let garbage = match self.clear_out(&inode) {
            Ok(g) => g,
            Err(e) => return Err(e),
        };
        let new: u64 = match self.store_entries(&directory) {
            Ok(a) => a,
            Err(e) => return Err(e),
        };
        let mut changed = parent;
        changed.extent_addr = MaybeU64::from(new);
        changed.mtime = now;
        match self.write_inode(addr, &changed) {
            Ok(()) => {},
            Err(e) => return Err(e),
        }
        let slot = AddressSlot {
            addr: MaybeU64::from(inode_addr),
            capacity: INode::serialized_size(),
        };
        match self.mark_as_reusable(slot) {
            Ok(()) => {},
            Err(e) => return Err(e),
        }
        let garbages = [garbage, parent.extent_addr];
        assert(garbages@ =~= seq![garbage, parent.extent_addr]);
        self.free_all(garbages.as_slice())
    }

    /// Gives an entry of a directory another name.
    fn rename_entry(
        &mut self,
        addr: u64,
        inode: &INode,
        directory: Directory,
        src_name: &String,
        dst_name: String,
    ) -> (r: Result<(), Fault>)
        requires
            old(self).wf(),
        ensures
            Self::kept(old(self), final(self)),
            old(self).obeys(r is Ok) ==> (final(self).image(), r) == old(self).image().rename(
                addr,
                *inode,
                directory@,
                src_name@,
                dst_name@,
            ),
    {
        let mut directory = directory;
        if directory.position(&dst_name).is_some() {
            return Err(Fault::DestinationExists);
        }
        let inode_addr: u64 = match directory.take_out(src_name) {
            Some(n) => n,
            None => return Err(Fault::NoSource),
        };
        directory.add(dst_name, inode_addr);
        self.replace_entries(addr, inode, &directory, inode.mtime)
    }

    /// Moves an entry from one directory to another.
    fn transfer_entry(
        &mut self,
        pa: u64,
        from: &INode,
        src_dir: Directory,
        src_name: &String,
        pb: u64,
        to: &INode,
        dst_dir: Directory,
        dst_name: String,
    ) -> (r: Result<(), Fault>)
        requires
            old(self).wf(),
        ensures
            Self::kept(old(self), final(self)),
            old(self).obeys(r is Ok) ==> (final(self).image(), r) == old(self).image().transfer(
                pa,
                *from,
                src_dir@,
                src_name@,
                pb,
                *to,
                dst_dir@,
                dst_name@,
            ),
    {
        let mut src_dir = src_dir;
        let mut dst_dir = dst_dir;
        if dst_dir.position(&dst_name).is_some() {
            return Err(Fault::DestinationExists);
        }
        let inode_addr: u64 = match src_dir.take_out(src_name) {
            Some(n) => n,
            None => return Err(Fault::NoSource),
        };
        dst_dir.add(dst_name, inode_addr);
        let src_bytes = match src_dir.serialize() {
            Ok(b) => b,
            Err(e) => return Err(e),
        };
        let dst_bytes = match dst_dir.serialize() {
            Ok(b) => b,
            Err(e) => return Err(e),
        };
        let a: u64 = match self.store_data(src_bytes) {
            Ok(a) => a,
            Err(e) => return Err(e),
        };
        let b: u64 = match self.store_data(dst_bytes) {
            Ok(b) => b,
            Err(e) => return Err(e),
        };
        let mut changed = *from;
        changed.extent_addr = MaybeU64::from(a);
        match self.write_inode(pa, &changed) {
            Ok(()) => {},
            Err(e) => return Err(e),
        }
        let mut changed = *to;
        changed.extent_addr = MaybeU64::from(b);
        match self.write_inode(pb, &changed) {
            Ok(()) => {},
            Err(e) => return Err(e),
        }
        let garbages = [from.extent_addr, to.extent_addr];
        assert(garbages@ =~= seq![from.extent_addr, to.extent_addr]);
        self.free_all(garbages.as_slice())
    }

    /// Gives an entry another name or another parent.
    pub fn fmove(&mut self, src: &str, dest: &str) -> (r: Result<(), Fault>)
        requires
            old(self).wf(),
        ensures
            Self::kept(old(self), final(self)),
            parent_of(src@) is Err ==> *final(self) == *old(self) && r == Err::<(), Fault>(
                parent_of(src@)->Err_0,
            ),
            old(self).obeys(r is Ok) ==> (final(self).image(), r) == old(self).image().fmove(
                src@,
                dest@,
            ),
    {
        let (pa, from, src_name) = match self.resolve_parent(src) {
            Ok(p) => p,
            Err(e) => return Err(e),
        };
        let (pb, to, dst_name) = match self.resolve_parent(dest) {
            Ok(p) => p,
            Err(e) => return Err(e),
        };
        let src_payload = match self.read_full_data_from_extent(from.extent_addr) {
            Ok(p) => p,
            Err(e) => return Err(e),
        };
        let dst_payload = match self.read_full_data_from_extent(to.extent_addr) {
            Ok(p) => p,
            Err(e) => return Err(e),
        };
        let src_dir = match Directory::deserialize(src_payload.as_slice()) {
            Ok(d) => d,
            Err(e) => return Err(e),
        };
        if pa == pb {
            return self.rename_entry(pa, &from, src_dir, &src_name, dst_name);
        }
        let dst_dir = match Directory::deserialize(dst_payload.as_slice()) {
            Ok(d) => d,
            Err(e) => return Err(e),
        };
        self.transfer_entry(pa, &from, src_dir, &src_name, pb, &to, dst_dir, dst_name)
    }

    /// What is known of the entry at a path; nothing if there is none.
    pub fn stats(&self, path: &str) -> (r: Result<Option<EntryStat>, Fault>)
        requires
            self.wf(),
        ensures
            self.tells(r is Ok && r->Ok_0 is Some) ==> seen_brute_stat(r) == self.image().stats(path@),
    {
        let parts = path_to_string_list(path);
        let ghost names = texts(parts@);
        let n: usize = parts.len();
        if n == 0 {
            return match self.get_root_inode() {
                Ok((_, inode)) => {
                    let name: String = "/".to_owned();
                    proof {
                        reveal_strlit("/");
                        assert(name@ =~= seq!['/']);
                    }
                    Ok(
                        Some(
                            EntryStat {
                                name,
                                kind: inode.kind,
                                size: None,
                                mtime: inode.mtime,
                                ctime: inode.ctime,
                            },
                        ),
                    )
                },
                Err(e) => Err(e),
            };
        }
        assert(names.last() == parts@[n - 1]@);
        match self.resolve_path(path) {
            Ok((_, inode)) => Ok(
                Some(
                    EntryStat {
                        name: parts[n - 1].clone(),
                        kind: inode.kind,
                        size: if let INodeKind::Directory = inode.kind {
                            None
                        } else {
                            Some(shortened(inode.total_file_size))
                        },
                        mtime: inode.mtime,
                        ctime: inode.ctime,
                    },
                ),
            ),
            Err(_) => Ok(None),
        }
    }

    /// True if there is something at a path.
    pub fn path_exists(&self, path: &str) -> (r: Result<bool, Fault>)
        requires
            self.wf(),
        ensures
            self.tells(r == Ok::<bool, Fault>(true)) ==> match self.image().stats(path@) {
                Ok(s) => r == Ok::<_, Fault>(s is Some),
                Err(e) => r == Err::<bool, _>(e),
            },
    {
        match self.stats(path) {
            Ok(s) => Ok(s.is_some()),
            Err(e) => Err(e),
        }
    }
}

} // verus!
