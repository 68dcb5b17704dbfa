//! Making, listing, moving and removing entries.
use crate::addr::MaybeU64;
use crate::device::Device;
use crate::error::{seen, Fault, Seeker, XHFSError};
use crate::utils::{
    components, equal_paths, path_starts_with, path_to_string_list, starts_with_path, texts,
};
use crate::xhfs::ds::{Directory, INode, INodeKind, Node, Symlink};
use crate::xhfs::mkdir_laws::mkdir_of_what_is_there_changes_nothing;
use crate::xhfs::tree::{split_parent, Entries};
use crate::xhfs::volume::{lemma_format, lemma_group};
use crate::xhfs::XHFS;
use vstd::prelude::*;
use vstd::string::*;
use vstd::utf8::*;

verus! {

/// The names of entries.
pub open spec fn names_of(e: Entries) -> Seq<Seq<char>> {
    Seq::new(e.len(), |i: int| e[i].0)
}

impl<D: Device> XHFS<D> {
    /// Makes a directory, and with `recursive` the directories that lead to it. Tells whether
    /// one was made.
    pub fn mkdir_at(&mut self, path: &str, recursive: bool, now: u64) -> (r: Result<
        bool,
        XHFSError,
    >)
        requires
            old(self).wf(),
        ensures
            Self::kept(old(self), final(self)),
            old(self).obeys(r is Ok) ==> (final(self).image(), r) == old(self).image().mkdir(
                path@,
                recursive,
                now,
            ),
            old(self).obeys(r is Ok) && old(self).image().lookup(path@) is Ok ==> final(self).image()
                == old(self).image() && r == Ok::<bool, XHFSError>(false),
    {
        proof {
            if self.image().lookup(path@) is Ok {
                mkdir_of_what_is_there_changes_nothing(self.image(), path@, recursive, now);
            }
        }
        let parts = path_to_string_list(path);
        let ghost names = texts(parts@);
        let mut cur = match self.get_root_inode() {
            Ok(i) => i,
            Err(e) => return Err(e),
        };
        let mut created = false;
        let at_root = parts.len() <= 1;
        let mut k: usize = 0;
        while k < parts.len()
            invariant
                k <= parts@.len(),
                names == texts(parts@),
                names == components(path@),
                at_root == (parts@.len() <= 1),
                Self::kept(old(self), self),
                old(self).image().lookup(path@) is Ok ==> old(self).image().mkdir(
                    path@,
                    recursive,
                    now,
                ) == (old(self).image(), Ok::<bool, XHFSError>(false)),
                old(self).obeys(true) ==> old(self).image().mkdir(path@, recursive, now)
                    == self.image().mkdir_from(names, k as int, cur@, created, recursive, now),
            decreases parts@.len() - k,
        {
            assert(names[k as int] == parts@[k as int]@);
            match cur.kind {
                INodeKind::Directory => {},
                _ => return Err(XHFSError::from_report(Fault::NotADirectory)),
            }
            let mut directory = match self.read_dir(cur.extent_addr) {
                Ok(d) => d,
                Err(e) => return Err(e),
            };
            match directory.position(&parts[k]) {
                Some(i) => {
                    match self.resolve_entry(directory.entries[i].1) {
                        Ok(next) => {
                            cur = next;
                        },
                        Err(e) => return Err(e.sought_by(Seeker::Make)),
                    }
                },
                None => {
                    if !recursive && !at_root {
                        return Err(
                            XHFSError::from_report(Fault::DirectoryMissing { depth: k as u64 + 1 }),
                        );
                    }
                    let new = match self.allocate_inode_near_at(
                        cur.inumber,
                        0,
                        MaybeU64::from(0),
                        INodeKind::Directory,
                        now,
                    ) {
                        Ok(i) => i,
                        Err(e) => return Err(e),
                    };
                    directory.add(parts[k].clone(), new.inumber);
                    match self.replace_entries(&cur, &directory, now) {
                        Ok(()) => {},
                        Err(e) => return Err(e),
                    }
                    created = true;
                    cur = new;
                },
            }
            k = k + 1;
        }
        Ok(created)
    }

    /// The names in a directory, symbolic links followed.
    pub fn ls(&self, path: &str) -> (r: Result<Vec<String>, XHFSError>)
        requires
            self.wf(),
        ensures
            self.tells(r is Ok) ==> match r {
                Ok(v) => self.image().list(path@, self.image().disk.len()) is Ok && texts(v@)
                    == names_of(self.image().list(path@, self.image().disk.len())->Ok_0),
                Err(e) => self.image().list(path@, self.image().disk.len()) == Err::<Entries, _>(
                    e,
                ),
            },
    {
        let ghost m = self.image();
        let mut fuel: u64 = self.disk_size();
        let mut current: String = path.to_owned();
        loop
            invariant
                self.wf(),
                m == self.image(),
                self.tells(true) ==> m.list(path@, m.disk.len()) == m.list(current@, fuel as nat),
            decreases fuel,
        {
            let inode = match self.resolve_path(current.as_str()) {
                Ok(i) => i,
                Err(e) => return Err(e),
            };
            match inode.kind {
                INodeKind::Directory => {
                    return match self.read_dir(inode.extent_addr) {
                        Ok(d) => Ok(entry_names(&d)),
                        Err(e) => Err(e),
                    };
                },
                INodeKind::File => return Err(XHFSError::from_report(Fault::CannotListFile)),
                INodeKind::Hardlink => {
                    return Err(XHFSError::from_report(Fault::CannotListHardlink));
                },
                INodeKind::Symlink => {},
            }
            let payload = match self.read_full_data_from_extent(inode.extent_addr) {
                Ok(p) => p,
                Err(e) => return Err(e),
            };
            let link = match Symlink::deserialize(payload.as_slice()) {
                Ok(l) => l,
                Err(e) => return Err(XHFSError::from_report(e)),
            };
            if equal_paths(link.path.as_str(), current.as_str()) {
                return Err(XHFSError::from_report(Fault::SymlinkToItself));
            }
            if fuel == 0 {
                return Err(XHFSError::from_report(Fault::LinkLoop));
            }
            current = link.path;
            fuel = fuel - 1;
        }
    }

    /// The numbers of an inode and of the inodes that it stands for as a hard link.
    fn hardlink_stack(&self, inumber: u64) -> (r: Result<Vec<u64>, XHFSError>)
        requires
            self.wf(),
        ensures
            self.tells(r is Ok) ==> seen(r) == self.image().link_chain(
                seq![inumber],
                inumber,
                self.image().disk.len(),
            ),
    {
        let ghost m = self.image();
        let mut fuel: u64 = self.disk_size();
        let mut stack: Vec<u64> = Vec::new();
        stack.push(inumber);
        assert(stack@ =~= seq![inumber]);
        let mut cur: u64 = inumber;
        loop
            invariant
                self.wf(),
                m == self.image(),
                self.tells(true) ==> m.link_chain(seq![inumber], inumber, m.disk.len())
                    == m.link_chain(stack@, cur, fuel as nat),
            decreases fuel,
        {
            let inode = match self.resolve_inode(cur) {
                Ok(Some(i)) => i,
                Ok(None) => return Ok(stack),
                Err(e) => return Err(e),
            };
            if !matches!(inode.kind, INodeKind::Hardlink) {
                return Ok(stack);
            }
            let target = match self.follow_link_or_noop(inode) {
                Ok(t) => t,
                Err(e) => return Err(e),
            };
            if holds(&stack, target.inumber) || fuel == 0 {
                return Err(XHFSError::from_report(Fault::HardlinkLoop));
            }
            stack.push(target.inumber);
            cur = target.inumber;
            fuel = fuel - 1;
        }
    }

    /// Takes one link away from an inode; without links it is given back with its content.
    fn drop_link(&mut self, inumber: u64) -> (r: Result<(), XHFSError>)
        requires
            old(self).wf(),
        ensures
            Self::kept(old(self), final(self)),
            old(self).obeys(r is Ok) ==> (final(self).image(), r) == old(self).image().drop_link(
                inumber,
            ),
    {
        let ghost m = self.image();
        let group = match self.locate_inode(inumber) {
            Some(g) => g,
            None => return Err(XHFSError::from_report(Fault::NoGroupToDelete { inumber })),
        };
        proof {
            lemma_format(m);
            lemma_group(m, m.inode_group(inumber));
        }
        let mut bitmap = match self.read_bitmap(group.inode_bitmap_region) {
            Ok(b) => b,
            Err(e) => return Err(e),
        };
        let index: u64 = (inumber - 1) % self.geometry.n_inodes_in_group;
        match bitmap.get(index as usize) {
            Ok(true) => {},
            Ok(false) => return Ok(()),
            Err(e) => return Err(XHFSError::from_report(e)),
        }
        let mut inode = match self.resolve_inode(inumber) {
            Ok(Some(i)) => i,
            Ok(None) => return Ok(()),
            Err(e) => return Err(e),
        };
        if inode.nlink > 1 {
            let ghost before = inode@;
            inode.nlink = inode.nlink - 1;
            assert(inode@ == (Node { nlink: (before.nlink - 1) as u64, ..before }));
            return self.register_inode(&inode, true);
        }
        match self.free_full_extent(inode.extent_addr) {
            Ok(()) => {},
            Err(e) => return Err(e),
        }
        let _cleared = bitmap.set(index as usize, false);
        self.write_bitmap(group.inode_bitmap_region, &bitmap)
    }

    /// Deletes an inode, and what it stands for as a hard link.
    pub(crate) fn delete_inode_with_extent(&mut self, inumber: u64) -> (r: Result<(), XHFSError>)
        requires
            old(self).wf(),
        ensures
            Self::kept(old(self), final(self)),
            old(self).obeys(r is Ok) ==> (final(self).image(), r) == old(self).image().delete_inode(
                inumber,
            ),
    {
        let mut stack = match self.hardlink_stack(inumber) {
            Ok(s) => s,
            Err(e) => return Err(e),
        };
        while stack.len() > 0
            invariant
                Self::kept(old(self), self),
                old(self).obeys(true) ==> old(self).image().delete_inode(inumber)
                    == self.image().drop_links(stack@),
            decreases stack@.len(),
        {
            let n: usize = stack.len();
            let top: u64 = stack[n - 1];
            let ghost before = stack@;
            stack.truncate(n - 1);
            assert(stack@ =~= before.drop_last());
            match self.drop_link(top) {
                Ok(()) => {},
                Err(e) => return Err(e),
            }
        }
        Ok(())
    }

    /// A directory can be removed only when it is empty.
    fn check_removable(&self, inode: &INode) -> (r: Result<(), XHFSError>)
        requires
            self.wf(),
        ensures
            self.tells(r is Ok) ==> r == self.image().removable(inode@),
    {
        if let INodeKind::Directory = inode.kind {
            match self.read_dir(inode.extent_addr) {
                Ok(d) => if d.entries.len() > 0 {
                    Err(XHFSError::from_report(Fault::DirectoryNotEmpty))
                } else {
                    Ok(())
                },
                Err(e) => Err(e),
            }
        } else {
            Ok(())
        }
    }

    /// Removes the entry at a path. A directory must be empty.
    pub fn unlink_at(&mut self, path: &str, now: u64) -> (r: Result<(), XHFSError>)
        requires
            old(self).wf(),
        ensures
            Self::kept(old(self), final(self)),
            split_parent(path@) is Err ==> *final(self) == *old(self) && r == Err::<(), XHFSError>(
                split_parent(path@)->Err_0,
            ),
            old(self).obeys(r is Ok) ==> (final(self).image(), r) == old(self).image().unlink(path@, now),
    {
        let (parent, filename) = match self.resolve_parent(path) {
            Ok(p) => p,
            Err(e) => return Err(e),
        };
        let mut directory = match self.read_dir(parent.extent_addr) {
            Ok(d) => d,
            Err(e) => return Err(e),
        };
        let index: usize = match directory.position(&filename) {
            Some(i) => i,
            None => return Err(XHFSError::from_report(Fault::NoSuchEntry)),
        };
        let ghost before = directory@;
        let (_, inumber) = directory.entries.remove(index);
        assert(directory@ =~= before.remove(index as int));
        let inode = match self.resolve_entry(inumber) {
            Ok(i) => i,
            Err(e) => return Err(e.sought_by(Seeker::Remove)),
        };
        match self.check_removable(&inode) {
            Ok(()) => {},
            Err(e) => return Err(e),
        }
        match self.delete_inode_with_extent(inode.inumber) {
            Ok(()) => {},
            Err(e) => return Err(e),
        }
        if directory.entries.len() == 0 {
            self.replace_content(&parent, MaybeU64::from(0), now)
        } else {
            self.replace_entries(&parent, &directory, now)
        }
    }

    /// Gives back the blocks of a content unless it is the new content itself.
    fn free_unless(&mut self, addr: MaybeU64, new: MaybeU64) -> (r: Result<(), XHFSError>)
        requires
            old(self).wf(),
        ensures
            Self::kept(old(self), final(self)),
            old(self).obeys(r is Ok) ==> (final(self).image(), r) == old(self).image().free_unless(
                addr,
                new,
            ),
    {
        if addr == new {
            Ok(())
        } else {
            self.free_full_extent(addr)
        }
    }

    /// Lets an inode point to a content and notes the time.
    fn point_inode(&mut self, inode: &INode, addr: MaybeU64, now: u64) -> (r: Result<
        (),
        XHFSError,
    >)
        requires
            old(self).wf(),
        ensures
            Self::kept(old(self), final(self)),
            old(self).obeys(r is Ok) ==> (final(self).image(), r) == old(self).image().register(
                Node { extent_addr: addr, mtime: now, ..inode@ },
                true,
            ),
    {
        let mut new = *inode;
        new.extent_addr = addr;
        new.mtime = now;
        assert(new@ == (Node { extent_addr: addr, mtime: now, ..inode@ }));
        self.register_inode(&new, true)
    }

    /// Gives an entry of a directory another name.
    fn rename_entry(
        &mut self,
        inode: &INode,
        directory: Directory,
        src_name: &String,
        dst_name: String,
        now: u64,
    ) -> (r: Result<(), XHFSError>)
        requires
            old(self).wf(),
        ensures
            Self::kept(old(self), final(self)),
            old(self).obeys(r is Ok) ==> (final(self).image(), r) == old(self).image().rename(
                inode@,
                directory@,
                src_name@,
                dst_name@,
                now,
            ),
    {
        let mut directory = directory;
        if directory.position(&dst_name).is_some() {
            return Err(XHFSError::from_report(Fault::DestinationExists));
        }
        let inumber: u64 = match directory.take_out(src_name) {
            Some(n) => n,
            None => return Err(XHFSError::from_report(Fault::NoSource)),
        };
        directory.add(dst_name, inumber);
        let addr = match self.store_entries(&directory) {
            Ok(a) => a,
            Err(e) => return Err(e),
        };
        match self.point_inode(inode, addr, now) {
            Ok(()) => self.free_unless(inode.extent_addr, addr),
            Err(e) => Err(e),
        }
    }

    /// Moves an entry from one directory to another.
    fn transfer_entry(
        &mut self,
        from: &INode,
        src_dir: Directory,
        src_name: &String,
        to: &INode,
        dst_dir: Directory,
        dst_name: String,
        now: u64,
    ) -> (r: Result<(), XHFSError>)
        requires
            old(self).wf(),
        ensures
            Self::kept(old(self), final(self)),
            old(self).obeys(r is Ok) ==> (final(self).image(), r) == old(self).image().transfer(
                from@,
                src_dir@,
                src_name@,
                to@,
                dst_dir@,
                dst_name@,
                now,
            ),
    {
        let mut src_dir = src_dir;
        let mut dst_dir = dst_dir;
        if dst_dir.position(&dst_name).is_some() {
            return Err(XHFSError::from_report(Fault::DestinationExists));
        }
        let inumber: u64 = match src_dir.take_out(src_name) {
            Some(n) => n,
            None => return Err(XHFSError::from_report(Fault::NoSource)),
        };
        dst_dir.add(dst_name, inumber);
        let a = match self.store_entries(&src_dir) {
            Ok(a) => a,
            Err(e) => return Err(e),
        };
        let b = match self.store_entries(&dst_dir) {
            Ok(b) => b,
            Err(e) => return Err(e),
        };
        match self.point_inode(to, b, now) {
            Ok(()) => {},
            Err(e) => return Err(e),
        }
        match self.point_inode(from, a, now) {
            Ok(()) => {},
            Err(e) => return Err(e),
        }
        match self.free_unless(from.extent_addr, a) {
            Ok(()) => self.free_unless(to.extent_addr, b),
            Err(e) => Err(e),
        }
    }

    /// Gives an entry another name or another parent.
    pub fn fmove_at(&mut self, src: &str, dest: &str, now: u64) -> (r: Result<(), XHFSError>)
        requires
            old(self).wf(),
        ensures
            Self::kept(old(self), final(self)),
            path_starts_with(dest@, src@) ==> *final(self) == *old(self) && r == Err::<(), _>(
                XHFSError::Error { err: Fault::MoveIntoItself },
            ),
            !path_starts_with(dest@, src@) && split_parent(src@) is Err ==> *final(self) == *old(self)
                && r == Err::<(), XHFSError>(split_parent(src@)->Err_0),
            old(self).obeys(r is Ok) ==> (final(self).image(), r) == old(self).image().fmove(
                src@,
                dest@,
                now,
            ),
    {
        if starts_with_path(dest, src) {
            return Err(XHFSError::from_report(Fault::MoveIntoItself));
        }
        let (from, src_name) = match self.resolve_parent(src) {
            Ok(p) => p,
            Err(e) => return Err(e),
        };
        let (to, dst_name) = match self.resolve_parent(dest) {
            Ok(p) => p,
            Err(e) => return Err(e),
        };
        let src_payload = match self.read_full_data_from_extent(from.extent_addr) {
            Ok(p) => p,
            Err(e) => return Err(e),
        };
        let dst_payload = match self.read_full_data_from_extent(to.extent_addr) {
            Ok(p) => p,
            Err(e) => return Err(e),
        };
        let src_dir = match Directory::deserialize(src_payload.as_slice()) {
            Ok(d) => d,
            Err(e) => return Err(XHFSError::from_report(e)),
        };
        if from.inumber == to.inumber {
            return self.rename_entry(&from, src_dir, &src_name, dst_name, now);
        }
        let dst_dir = match Directory::deserialize(dst_payload.as_slice()) {
            Ok(d) => d,
            Err(e) => return Err(XHFSError::from_report(e)),
        };
        self.transfer_entry(&from, src_dir, &src_name, &to, dst_dir, dst_name, now)
    }
}

/// The names of the entries of a directory.
pub(crate) fn entry_names(directory: &Directory) -> (r: Vec<String>)
    ensures
        texts(r@) == names_of(directory@),
{
    let mut out: Vec<String> = Vec::new();
    let mut i: usize = 0;
    while i < directory.entries.len()
        invariant
            i <= directory.entries@.len(),
            out@.len() == i,
            forall|k: int| 0 <= k < i ==> (#[trigger] out@[k])@ == directory.entries@[k].0@,
        decreases directory.entries@.len() - i,
    {
        out.push(directory.entries[i].0.clone());
        i = i + 1;
    }
    assert(texts(out@) =~= names_of(directory@));
    out
}

/// True if `v` holds `x`.
fn holds(v: &Vec<u64>, x: u64) -> (r: bool)
    ensures
        r == v@.contains(x),
{
    let mut i: usize = 0;
    while i < v.len()
        invariant
            i <= v@.len(),
            forall|k: int| 0 <= k < i ==> v@[k] != x,
        decreases v@.len() - i,
    {
        if v[i] == x {
            assert(v@[i as int] == x);
            return true;
        }
        i = i + 1;
    }
    false
}

} // verus!
