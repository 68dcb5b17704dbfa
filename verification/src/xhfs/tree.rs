//! What the operations on files and directories do to a disk.
use crate::addr::{maybe, MaybeU64};
use crate::codec::{le64, zeros};
use crate::error::{sought, wrapped, Fault, Seeker, XHFSError};
use crate::utils::{absolute, components, is_dot_dot, path_starts_with, same_path};
use crate::xhfs::bitmap::{bits_bytes, runs, Bits};
use crate::xhfs::ds::{dir_bytes, dir_parse, hardlink_parse, INodeKind, Node};
use crate::xhfs::image::Image;
use vstd::prelude::*;
use vstd::utf8::*;

verus! {

/// Names and inode numbers of a directory.
pub type Entries = Seq<(Seq<char>, u64)>;

/// The index of the first entry with a name.
pub open spec fn entry_position(e: Entries, name: Seq<char>) -> Option<int>
    decreases e.len(),
{
    if e.len() == 0 {
        None
    } else {
        match entry_position(e.drop_last(), name) {
            Some(i) => Some(i),
            None => if e.last().0 == name {
                Some(e.len() - 1)
            } else {
                None
            },
        }
    }
}

/// The inode number of the last entry with a name.
pub open spec fn last_entry(e: Entries, name: Seq<char>) -> Option<u64>
    decreases e.len(),
{
    if e.len() == 0 {
        None
    } else if e.last().0 == name {
        Some(e.last().1)
    } else {
        last_entry(e.drop_last(), name)
    }
}

/// The entries with other names.
pub open spec fn without(e: Entries, name: Seq<char>) -> Entries
    decreases e.len(),
{
    if e.len() == 0 {
        e
    } else {
        let before = without(e.drop_last(), name);
        if e.last().0 == name {
            before
        } else {
            before.push(e.last())
        }
    }
}

/// What a write may do to an entry that exists, and the time to note for it.
#[derive(Debug, Clone, Copy, PartialEq, Eq, Structural)]
pub struct WriteOption {
    pub overwrite: bool,
    pub modified: Option<u64>,
}

/// The path of the parent and the name in it that a path stands for.
pub open spec fn split_parent(path: Seq<char>) -> Result<(Seq<Seq<char>>, Seq<char>), XHFSError> {
    let parts = components(path);
    if parts.len() == 0 {
        if path.len() == 0 || path[0] == '/' {
            Err(XHFSError::Error { err: Fault::MissingParent })
        } else {
            Err(XHFSError::Error { err: Fault::MissingFilename })
        }
    } else if is_dot_dot(parts.last()) {
        Err(XHFSError::Error { err: Fault::MissingFilename })
    } else {
        Ok((parts.drop_last(), parts.last()))
    }
}

/// What is known of an entry.
pub struct Stat {
    pub name: Seq<char>,
    pub kind: INodeKind,
    pub nlink: u64,
    pub size: Option<usize>,
    pub mtime: u64,
    pub ctime: u64,
}

/// What is known of an inode under a name.
pub open spec fn stat_of(name: Seq<char>, node: Node) -> Stat {
    Stat {
        name,
        kind: node.kind,
        nlink: node.nlink,
        size: if node.kind is Directory {
            None
        } else {
            Some(node.total_file_size as usize)
        },
        mtime: node.mtime,
        ctime: node.ctime,
    }
}

impl Image {
    /// The first free inode from group `start` on, the groups taken in a circle: its group,
    /// the inode bitmap of the group and its place in it.
    pub open spec fn free_inode(self, start: int, i: int) -> Result<
        Option<(int, Bits, nat)>,
        XHFSError,
    >
        decreases self.format.group_count - i,
    {
        let count = self.format.group_count as int;
        if i >= count {
            Ok(None)
        } else {
            let g = (start + i) % count;
            match self.inode_bits(g) {
                Err(e) => Err(e),
                Ok(bits) => {
                    let free = self.free_inodes(bits);
                    if free.len() > 0 {
                        Ok(Some((g, bits, free[0].0)))
                    } else {
                        self.free_inode(start, i + 1)
                    }
                },
            }
        }
    }

    /// The runs of free inodes of a group with the given bitmap.
    pub open spec fn free_inodes(self, bits: Bits) -> Seq<(nat, nat)> {
        let n = self.format.param_inode_count_per_group as nat;
        runs(
            bits.raw,
            false,
            if n < bits.len {
                n
            } else {
                bits.len
            },
        )
    }

    /// Takes a free inode, near inode `hint` if there is one.
    #[verifier::opaque]
    pub open spec fn new_inode(
        self,
        hint: u64,
        size: u64,
        extent_addr: MaybeU64,
        kind: INodeKind,
        now: u64,
    ) -> (Image, Result<Node, XHFSError>) {
        if !self.has_slot(hint) {
            (self, Err(XHFSError::Error { err: Fault::NoHint { inumber: hint } }))
        } else {
            match self.free_inode(self.inode_group(hint), 0) {
                Err(e) => (self, Err(e)),
                Ok(None) => (self, Err(XHFSError::Error { err: Fault::NoFreeInode })),
                Ok(Some((g, bits, i))) => {
                    let node = Node {
                        kind,
                        inumber: (g * self.format.param_inode_count_per_group + i + 1) as u64,
                        nlink: 1,
                        total_file_size: size,
                        extent_addr,
                        mtime: now,
                        ctime: now,
                        extra_metadata: zeros(32),
                    };
                    let (m, r) = self.store_inode(node, g, bits.set(i as int, true));
                    match r {
                        Err(e) => (m, Err(e)),
                        Ok(()) => (m, Ok(node)),
                    }
                },
            }
        }
    }

    /// Notes a time in an inode.
    pub open spec fn noted(self, node: Node, mtime: u64) -> (Image, Result<Node, XHFSError>) {
        let new = Node { mtime, ..node };
        let (m, r) = self.register(new, true);
        match r {
            Err(e) => (m, Err(e)),
            Ok(()) => (m, Ok(new)),
        }
    }

    /// The entries of a directory.
    pub open spec fn dir(self, addr: MaybeU64) -> Result<Entries, XHFSError> {
        match self.content(addr) {
            Err(e) => Err(e),
            Ok(s) => wrapped(dir_parse(s)),
        }
    }

    /// The inode that an entry refers to.
    pub open spec fn entry_inode(self, inumber: u64) -> Result<Node, XHFSError> {
        match self.inode(inumber) {
            Err(e) => Err(e),
            Ok(None) => Err(XHFSError::Error { err: Fault::EntryMissing { inumber, by: Seeker::Walk } }),
            Ok(Some(node)) => Ok(node),
        }
    }

    /// The inode with a name in a directory, which lies `depth` steps below the root.
    pub open spec fn child(self, node: Node, name: Seq<char>, depth: int) -> Result<
        Node,
        XHFSError,
    > {
        match node.kind {
            INodeKind::Directory => match self.dir(node.extent_addr) {
                Err(e) => Err(e),
                Ok(e) => match entry_position(e, name) {
                    None => Err(
                        XHFSError::Error { err: Fault::PathMissing { depth: (depth + 1) as u64 } },
                    ),
                    Some(i) => self.entry_inode(e[i].1),
                },
            },
            INodeKind::File => Err(
                XHFSError::Error { err: Fault::FileInPath { depth: depth as u64 } },
            ),
            _ => Err(XHFSError::Error { err: Fault::LinkInPath { depth: depth as u64 } }),
        }
    }

    /// The inode that the first `k` parts of a path lead to.
    pub open spec fn walk(self, parts: Seq<Seq<char>>, k: nat) -> Result<Node, XHFSError>
        decreases k,
    {
        if k == 0 {
            self.root()
        } else {
            match self.walk(parts, (k - 1) as nat) {
                Err(e) => Err(e),
                Ok(node) => self.child(node, parts[k - 1], k - 1),
            }
        }
    }

    /// The inode at a path.
    pub open spec fn lookup(self, path: Seq<char>) -> Result<Node, XHFSError> {
        self.walk(components(path), components(path).len())
    }

    /// The parent of what is at a path, and its name there.
    pub open spec fn parent(self, path: Seq<char>) -> Result<(Node, Seq<char>), XHFSError> {
        match split_parent(path) {
            Err(e) => Err(e),
            Ok((parts, name)) => match self.walk(parts, parts.len()) {
                Err(e) => Err(e),
                Ok(node) => Ok((node, name)),
            },
        }
    }

    /// Stores a directory's new entries, notes the time in its inode and gives back the
    /// blocks of the old entries.
    pub open spec fn replace_entries(self, node: Node, e: Entries, now: u64) -> (
        Image,
        Result<(), XHFSError>,
    ) {
        match dir_bytes(e) {
            Err(x) => (self, Err(XHFSError::Error { err: x })),
            Ok(bytes) => {
                let (m, r) = self.store(bytes);
                match r {
                    Err(x) => (m, Err(x)),
                    Ok(addr) => m.replace_content(node, addr, now),
                }
            },
        }
    }

    /// Lets an inode point to a new content and gives back the blocks of the old one.
    pub open spec fn replace_content(self, node: Node, addr: MaybeU64, mtime: u64) -> (
        Image,
        Result<(), XHFSError>,
    ) {
        let (m, r) = self.register(Node { extent_addr: addr, mtime, ..node }, true);
        match r {
            Err(x) => (m, Err(x)),
            Ok(()) => m.free(node.extent_addr),
        }
    }

    /// Writes a file or a link: replaces what is there if that is allowed, else makes a new
    /// entry. It is refused unless the data is smaller than the free space.
    pub open spec fn blob_write(
        self,
        path: Seq<char>,
        data: Seq<u8>,
        kind: INodeKind,
        opt: WriteOption,
        now: u64,
    ) -> (Image, Result<(), XHFSError>) {
        match self.remaining() {
            Err(x) => (self, Err(x)),
            Ok(room) => if data.len() >= room {
                (
                    self,
                    Err(
                        XHFSError::Error {
                            err: Fault::InsufficientSpace {
                                size: data.len() as u64,
                                remaining: room as u64,
                            },
                        },
                    ),
                )
            } else {
                match self.parent(path) {
                    Err(x) => (self, Err(x)),
                    Ok((parent, name)) => match self.dir(parent.extent_addr) {
                        Err(x) => (self, Err(x)),
                        Ok(e) => match entry_position(e, name) {
                            Some(i) => self.overwrite(e[i].1, data, opt, now),
                            None => self.create(parent, e, name, data, kind, now),
                        },
                    },
                }
            },
        }
    }

    /// Replaces the content of a file or symbolic link.
    pub open spec fn overwrite(self, inumber: u64, data: Seq<u8>, opt: WriteOption, now: u64) -> (
        Image,
        Result<(), XHFSError>,
    ) {
        match self.entry_inode(inumber) {
            Err(x) => (self, Err(sought(x, Seeker::Write))),
            Ok(node) => if !(node.kind is File || node.kind is Symlink) {
                (self, Err(XHFSError::Error { err: Fault::NotAFile }))
            } else if !opt.overwrite {
                (self, Err(XHFSError::Error { err: Fault::FileExists }))
            } else {
                let (m, r) = self.store(data);
                match r {
                    Err(x) => (m, Err(x)),
                    Ok(addr) => m.replace_content(
                        Node { total_file_size: data.len() as u64, ..node },
                        addr,
                        match opt.modified {
                            Some(t) => t,
                            None => now,
                        },
                    ),
                }
            },
        }
    }

    /// Makes a new entry in a directory.
    pub open spec fn create(
        self,
        parent: Node,
        e: Entries,
        name: Seq<char>,
        data: Seq<u8>,
        kind: INodeKind,
        now: u64,
    ) -> (Image, Result<(), XHFSError>) {
        let (m, r) = self.store(data);
        match r {
            Err(x) => (m, Err(x)),
            Ok(addr) => if kind is Directory {
                (m, Err(XHFSError::Error { err: Fault::ExpectedFile }))
            } else {
                let (m2, r2) = m.new_inode(parent.inumber, data.len() as u64, addr, kind, now);
                match r2 {
                    Err(x) => (m2, Err(x)),
                    Ok(node) => m2.replace_entries(parent, e.push((name, node.inumber)), now),
                }
            },
        }
    }

    /// Makes the directories that are missing on a path, from part `k` on, `node` being what
    /// the parts before lead to.
    pub open spec fn mkdir_from(
        self,
        parts: Seq<Seq<char>>,
        k: int,
        node: Node,
        created: bool,
        recursive: bool,
        now: u64,
    ) -> (Image, Result<bool, XHFSError>)
        decreases parts.len() - k,
    {
        if k >= parts.len() {
            (self, Ok(created))
        } else if !(node.kind is Directory) {
            (self, Err(XHFSError::Error { err: Fault::NotADirectory }))
        } else {
            match self.dir(node.extent_addr) {
                Err(x) => (self, Err(x)),
                Ok(e) => match entry_position(e, parts[k]) {
                    Some(i) => match self.entry_inode(e[i].1) {
                        Err(x) => (self, Err(sought(x, Seeker::Make))),
                        Ok(next) => self.mkdir_from(parts, k + 1, next, created, recursive, now),
                    },
                    None => if !recursive && parts.len() > 1 {
                        (
                            self,
                            Err(
                                XHFSError::Error {
                                    err: Fault::DirectoryMissing { depth: (k + 1) as u64 },
                                },
                            ),
                        )
                    } else {
                        let (m, r) = self.new_inode(
                            node.inumber,
                            0,
                            maybe(0),
                            INodeKind::Directory,
                            now,
                        );
                        match r {
                            Err(x) => (m, Err(x)),
                            Ok(new) => {
                                let (m2, r2) = m.replace_entries(
                                    node,
                                    e.push((parts[k], new.inumber)),
                                    now,
                                );
                                match r2 {
                                    Err(x) => (m2, Err(x)),
                                    Ok(()) => m2.mkdir_from(
                                        parts,
                                        k + 1,
                                        new,
                                        true,
                                        recursive,
                                        now,
                                    ),
                                }
                            },
                        }
                    },
                },
            }
        }
    }

    /// Makes a directory; tells whether one was made.
    pub open spec fn mkdir(self, path: Seq<char>, recursive: bool, now: u64) -> (
        Image,
        Result<bool, XHFSError>,
    ) {
        match self.root() {
            Err(x) => (self, Err(x)),
            Ok(node) => self.mkdir_from(components(path), 0, node, false, recursive, now),
        }
    }

    /// The inode that a link stands for; any other inode stands for itself.
    pub open spec fn follow(self, node: Node) -> Result<Node, XHFSError> {
        match node.kind {
            INodeKind::Hardlink => match self.content(node.extent_addr) {
                Err(x) => Err(x),
                Ok(s) => match hardlink_parse(s) {
                    Err(x) => Err(XHFSError::Error { err: x }),
                    Ok(link) => if link.inumber == node.inumber {
                        Err(XHFSError::Error { err: Fault::HardlinkToItself })
                    } else {
                        match self.entry_inode(link.inumber) {
                            Err(x) => Err(sought(x, Seeker::Link)),
                            Ok(target) => Ok(target),
                        }
                    },
                },
            },
            INodeKind::Symlink => match self.content(node.extent_addr) {
                Err(x) => Err(x),
                Ok(s) => if valid_utf8(s) {
                    self.lookup(decode_utf8(s))
                } else {
                    Err(XHFSError::Error { err: Fault::LinkNotUtf8 })
                },
            },
            _ => Ok(node),
        }
    }

    /// The content of a file, links followed.
    pub open spec fn fread(self, path: Seq<char>) -> Result<Seq<u8>, XHFSError> {
        match self.lookup(path) {
            Err(x) => Err(x),
            Ok(node) => match self.readable(node) {
                Err(x) => Err(x),
                Ok(target) => self.content(target.extent_addr),
            },
        }
    }

    /// The inode whose content is read for an inode.
    pub open spec fn readable(self, node: Node) -> Result<Node, XHFSError> {
        match node.kind {
            INodeKind::Directory => Err(XHFSError::Error { err: Fault::CannotReadDirectory }),
            INodeKind::File => Ok(node),
            _ => self.follow(node),
        }
    }

    /// The bytes from `start` to before `end` of a file, links followed.
    pub open spec fn fseek(self, path: Seq<char>, start: u64, end: u64) -> Result<
        Seq<u8>,
        XHFSError,
    > {
        match self.lookup(path) {
            Err(x) => Err(x),
            Ok(node) => match self.follow(node) {
                Err(x) => Err(x),
                Ok(target) => match target.kind {
                    INodeKind::File => self.seek(
                        target.extent_addr,
                        0,
                        start as int,
                        end as int,
                        self.disk.len(),
                    ),
                    INodeKind::Directory => Err(
                        XHFSError::Error { err: Fault::CannotReadDirectory },
                    ),
                    _ => Err(
                        XHFSError::Error { err: Fault::UnresolvedLink { kind: target.kind } },
                    ),
                },
            },
        }
    }

    /// Adds data to the end of the file that an inode stands for, at most `fuel` links
    /// followed.
    pub open spec fn append_inode(
        self,
        node: Node,
        data: Seq<u8>,
        mtime: u64,
        fuel: nat,
    ) -> (Image, Result<Node, XHFSError>)
        decreases fuel,
    {
        match node.kind {
            INodeKind::Directory => (
                self,
                Err(XHFSError::Error { err: Fault::CannotAppendDirectory }),
            ),
            INodeKind::File => if node.total_file_size + data.len() > u64::MAX {
                (self, Err(XHFSError::Error { err: Fault::AddressOverflow }))
            } else {
                let (m, r) = self.append(node.extent_addr, data);
                match r {
                    Err(x) => (m, Err(x)),
                    Ok(addr) => {
                        let new = Node {
                            total_file_size: (node.total_file_size + data.len()) as u64,
                            extent_addr: addr,
                            mtime,
                            ..node
                        };
                        let (m2, r2) = m.register(new, true);
                        match r2 {
                            Err(x) => (m2, Err(x)),
                            Ok(()) => (m2, Ok(new)),
                        }
                    },
                }
            },
            _ => if fuel == 0 {
                (self, Err(XHFSError::Error { err: Fault::LinkLoop }))
            } else {
                match self.follow(node) {
                    Err(x) => (self, Err(x)),
                    Ok(target) => if node.kind is Hardlink && target.inumber == node.inumber {
                        (self, Err(XHFSError::Error { err: Fault::HardlinkToItself }))
                    } else {
                        self.append_inode(target, data, mtime, (fuel - 1) as nat)
                    },
                }
            },
        }
    }

    /// Adds data to the end of the file at a path, links followed.
    pub open spec fn fappend(self, path: Seq<char>, data: Seq<u8>, mtime: u64) -> (
        Image,
        Result<(), XHFSError>,
    ) {
        match self.lookup(path) {
            Err(x) => (self, Err(x)),
            Ok(node) => {
                let (m, r) = self.append_inode(node, data, mtime, self.disk.len());
                match r {
                    Err(x) => (m, Err(x)),
                    Ok(_) => (m, Ok(())),
                }
            },
        }
    }

    /// Whether there is something at a path.
    pub open spec fn path_exists(self, path: Seq<char>) -> Result<bool, XHFSError> {
        match self.stats(path, false) {
            Err(x) => Err(x),
            Ok(s) => Ok(s is Some),
        }
    }

    /// What is known of the entry at a path; nothing if there is none.
    pub open spec fn stats(self, path: Seq<char>, follow_hardlink: bool) -> Result<
        Option<Stat>,
        XHFSError,
    > {
        let parts = components(path);
        if parts.len() == 0 {
            match self.root() {
                Err(x) => Err(x),
                Ok(node) => Ok(Some(Stat { size: None, ..stat_of(seq!['/'], node) })),
            }
        } else {
            match self.lookup(path) {
                Err(_) => Ok(None),
                Ok(node) => if follow_hardlink && node.kind is Hardlink {
                    match self.follow(node) {
                        Err(x) => Err(x),
                        Ok(target) => Ok(Some(stat_of(parts.last(), target))),
                    }
                } else {
                    Ok(Some(stat_of(parts.last(), node)))
                },
            }
        }
    }

    /// The names in a directory, at most `fuel` symbolic links followed.
    pub open spec fn list(self, path: Seq<char>, fuel: nat) -> Result<Entries, XHFSError>
        decreases fuel,
    {
        match self.lookup(path) {
            Err(x) => Err(x),
            Ok(node) => match node.kind {
                INodeKind::Directory => self.dir(node.extent_addr),
                INodeKind::File => Err(XHFSError::Error { err: Fault::CannotListFile }),
                INodeKind::Hardlink => Err(XHFSError::Error { err: Fault::CannotListHardlink }),
                INodeKind::Symlink => match self.content(node.extent_addr) {
                    Err(x) => Err(x),
                    Ok(s) => if !valid_utf8(s) {
                        Err(XHFSError::Error { err: Fault::LinkNotUtf8 })
                    } else if same_path(decode_utf8(s), path) {
                        Err(XHFSError::Error { err: Fault::SymlinkToItself })
                    } else if fuel == 0 {
                        Err(XHFSError::Error { err: Fault::LinkLoop })
                    } else {
                        self.list(decode_utf8(s), (fuel - 1) as nat)
                    },
                },
            },
        }
    }

    /// The numbers of an inode and of the inodes that it stands for as a hard link.
    pub open spec fn link_chain(self, stack: Seq<u64>, cur: u64, fuel: nat) -> Result<
        Seq<u64>,
        XHFSError,
    >
        decreases fuel,
    {
        match self.inode(cur) {
            Err(x) => Err(x),
            Ok(None) => Ok(stack),
            Ok(Some(node)) => if !(node.kind is Hardlink) {
                Ok(stack)
            } else {
                match self.follow(node) {
                    Err(x) => Err(x),
                    Ok(target) => if stack.contains(target.inumber) || fuel == 0 {
                        Err(XHFSError::Error { err: Fault::HardlinkLoop })
                    } else {
                        self.link_chain(
                            stack.push(target.inumber),
                            target.inumber,
                            (fuel - 1) as nat,
                        )
                    },
                }
            },
        }
    }

    /// Takes one link away from an inode; without links it is given back with its content.
    pub open spec fn drop_link(self, n: u64) -> (Image, Result<(), XHFSError>) {
        let g = self.inode_group(n);
        let i = self.inode_index(n);
        if !self.has_slot(n) {
            (self, Err(XHFSError::Error { err: Fault::NoGroupToDelete { inumber: n } }))
        } else {
            match self.inode_bits(g) {
                Err(x) => (self, Err(x)),
                Ok(bits) => match bits.checked(i) {
                    Err(x) => (self, Err(x)),
                    Ok(false) => (self, Ok(())),
                    Ok(true) => match self.inode(n) {
                        Err(x) => (self, Err(x)),
                        Ok(None) => (self, Ok(())),
                        Ok(Some(node)) => if node.nlink > 1 {
                            self.register(Node { nlink: (node.nlink - 1) as u64, ..node }, true)
                        } else {
                            let (m, r) = self.free(node.extent_addr);
                            match r {
                                Err(x) => (m, Err(x)),
                                Ok(()) => m.put_raw(
                                    self.inode_bitmap_at(g),
                                    bits_bytes(bits.set(i, false)),
                                ),
                            }
                        },
                    },
                },
            }
        }
    }

    /// Takes one link away from each inode of a stack, the last one first.
    pub open spec fn drop_links(self, stack: Seq<u64>) -> (Image, Result<(), XHFSError>)
        decreases stack.len(),
    {
        if stack.len() == 0 {
            (self, Ok(()))
        } else {
            let (m, r) = self.drop_link(stack.last());
            match r {
                Err(x) => (m, Err(x)),
                Ok(()) => m.drop_links(stack.drop_last()),
            }
        }
    }

    /// Deletes an inode, and what it stands for as a hard link.
    pub open spec fn delete_inode(self, n: u64) -> (Image, Result<(), XHFSError>) {
        match self.link_chain(seq![n], n, self.disk.len()) {
            Err(x) => (self, Err(x)),
            Ok(stack) => self.drop_links(stack),
        }
    }

    /// Removes the entry at a path. A directory must be empty.
    pub open spec fn unlink(self, path: Seq<char>, now: u64) -> (Image, Result<(), XHFSError>) {
        match self.parent(path) {
            Err(x) => (self, Err(x)),
            Ok((parent, name)) => match self.dir(parent.extent_addr) {
                Err(x) => (self, Err(x)),
                Ok(e) => match entry_position(e, name) {
                    None => (self, Err(XHFSError::Error { err: Fault::NoSuchEntry })),
                    Some(i) => match self.entry_inode(e[i].1) {
                        Err(x) => (self, Err(sought(x, Seeker::Remove))),
                        Ok(node) => self.unlink_entry(parent, e.remove(i), node, now),
                    },
                },
            },
        }
    }

    /// Removes an inode from a directory that has the entries `rest` besides it.
    pub open spec fn unlink_entry(self, parent: Node, rest: Entries, node: Node, now: u64) -> (
        Image,
        Result<(), XHFSError>,
    ) {
        match self.removable(node) {
            Err(x) => (self, Err(x)),
            Ok(()) => {
                let (m, r) = self.delete_inode(node.inumber);
                match r {
                    Err(x) => (m, Err(x)),
                    Ok(()) => if rest.len() == 0 {
                        m.replace_content(parent, maybe(0), now)
                    } else {
                        m.replace_entries(parent, rest, now)
                    },
                }
            },
        }
    }

    /// A directory can be removed only when it is empty.
    pub open spec fn removable(self, node: Node) -> Result<(), XHFSError> {
        if node.kind is Directory {
            match self.dir(node.extent_addr) {
                Err(x) => Err(x),
                Ok(e) => if e.len() > 0 {
                    Err(XHFSError::Error { err: Fault::DirectoryNotEmpty })
                } else {
                    Ok(())
                },
            }
        } else {
            Ok(())
        }
    }

    /// Gives an entry another name or another parent.
    pub open spec fn fmove(self, src: Seq<char>, dest: Seq<char>, now: u64) -> (
        Image,
        Result<(), XHFSError>,
    ) {
        if path_starts_with(dest, src) {
            (self, Err(XHFSError::Error { err: Fault::MoveIntoItself }))
        } else {
            match self.parent(src) {
                Err(x) => (self, Err(x)),
                Ok((from, src_name)) => match self.parent(dest) {
                    Err(x) => (self, Err(x)),
                    Ok((to, dst_name)) => match self.content(from.extent_addr) {
                        Err(x) => (self, Err(x)),
                        Ok(a) => match self.content(to.extent_addr) {
                            Err(x) => (self, Err(x)),
                            Ok(b) => match dir_parse(a) {
                                Err(x) => (self, Err(XHFSError::Error { err: x })),
                                Ok(ea) => if from.inumber == to.inumber {
                                    self.rename(from, ea, src_name, dst_name, now)
                                } else {
                                    match dir_parse(b) {
                                        Err(x) => (self, Err(XHFSError::Error { err: x })),
                                        Ok(eb) => self.transfer(
                                            from,
                                            ea,
                                            src_name,
                                            to,
                                            eb,
                                            dst_name,
                                            now,
                                        ),
                                    }
                                },
                            },
                        },
                    },
                },
            }
        }
    }

    /// Gives an entry of a directory another name.
    pub open spec fn rename(
        self,
        dir: Node,
        e: Entries,
        src_name: Seq<char>,
        dst_name: Seq<char>,
        now: u64,
    ) -> (Image, Result<(), XHFSError>) {
        if entry_position(e, dst_name) is Some {
            (self, Err(XHFSError::Error { err: Fault::DestinationExists }))
        } else {
            match last_entry(e, src_name) {
                None => (self, Err(XHFSError::Error { err: Fault::NoSource })),
                Some(n) => match dir_bytes(without(e, src_name).push((dst_name, n))) {
                    Err(x) => (self, Err(XHFSError::Error { err: x })),
                    Ok(bytes) => {
                        let (m, r) = self.store(bytes);
                        match r {
                            Err(x) => (m, Err(x)),
                            Ok(addr) => {
                                let (m2, r2) = m.register(
                                    Node { extent_addr: addr, mtime: now, ..dir },
                                    true,
                                );
                                match r2 {
                                    Err(x) => (m2, Err(x)),
                                    Ok(()) => m2.free_unless(dir.extent_addr, addr),
                                }
                            },
                        }
                    },
                },
            }
        }
    }

    /// Gives back the blocks of a content unless it is the new content itself.
    pub open spec fn free_unless(self, addr: MaybeU64, new: MaybeU64) -> (
        Image,
        Result<(), XHFSError>,
    ) {
        if addr == new {
            (self, Ok(()))
        } else {
            self.free(addr)
        }
    }

    /// Moves an entry from one directory to another.
    pub open spec fn transfer(
        self,
        from: Node,
        ea: Entries,
        src_name: Seq<char>,
        to: Node,
        eb: Entries,
        dst_name: Seq<char>,
        now: u64,
    ) -> (Image, Result<(), XHFSError>) {
        if entry_position(eb, dst_name) is Some {
            (self, Err(XHFSError::Error { err: Fault::DestinationExists }))
        } else {
            match last_entry(ea, src_name) {
                None => (self, Err(XHFSError::Error { err: Fault::NoSource })),
                Some(n) => {
                    let (m1, r1) = self.store_entries(without(ea, src_name));
                    match r1 {
                        Err(x) => (m1, Err(x)),
                        Ok(a) => {
                            let (m2, r2) = m1.store_entries(eb.push((dst_name, n)));
                            match r2 {
                                Err(x) => (m2, Err(x)),
                                Ok(b) => m2.commit_transfer(from, a, to, b, now),
                            }
                        },
                    }
                },
            }
        }
    }

    /// Stores the entries of a directory.
    pub open spec fn store_entries(self, e: Entries) -> (Image, Result<MaybeU64, XHFSError>) {
        match dir_bytes(e) {
            Err(x) => (self, Err(XHFSError::Error { err: x })),
            Ok(bytes) => self.store(bytes),
        }
    }

    /// Lets the target directory and then the source directory point to their new entries,
    /// and gives back the blocks of the old ones.
    pub open spec fn commit_transfer(
        self,
        from: Node,
        a: MaybeU64,
        to: Node,
        b: MaybeU64,
        now: u64,
    ) -> (Image, Result<(), XHFSError>) {
        let (m1, r1) = self.register(Node { extent_addr: b, mtime: now, ..to }, true);
        match r1 {
            Err(x) => (m1, Err(x)),
            Ok(()) => {
                let (m2, r2) = m1.register(Node { extent_addr: a, mtime: now, ..from }, true);
                match r2 {
                    Err(x) => (m2, Err(x)),
                    Ok(()) => {
                        let (m3, r3) = m2.free_unless(from.extent_addr, a);
                        match r3 {
                            Err(x) => (m3, Err(x)),
                            Ok(()) => m3.free_unless(to.extent_addr, b),
                        }
                    },
                }
            },
        }
    }

    /// Makes a symbolic link to a path whose parent exists.
    pub open spec fn symlink(
        self,
        path: Seq<char>,
        target: Seq<char>,
        opt: WriteOption,
        now: u64,
    ) -> (Image, Result<(), XHFSError>) {
        match self.parent(target) {
            Err(x) => (self, Err(x)),
            Ok(_) => self.blob_write(
                path,
                encode_utf8(absolute(components(target))),
                INodeKind::Symlink,
                opt,
                now,
            ),
        }
    }

    /// Makes a hard link to a file, and counts it there.
    pub open spec fn hardlink(
        self,
        path: Seq<char>,
        target: Seq<char>,
        opt: WriteOption,
        now: u64,
    ) -> (Image, Result<(), XHFSError>) {
        match self.lookup(target) {
            Err(x) => (self, Err(x)),
            Ok(node) => if !(node.kind is File) {
                (self, Err(XHFSError::Error { err: Fault::HardlinkTarget { kind: node.kind } }))
            } else {
                let (m, r) = self.blob_write(
                    path,
                    le64(node.inumber),
                    INodeKind::Hardlink,
                    opt,
                    now,
                );
                match r {
                    Err(x) => (m, Err(x)),
                    Ok(()) => m.count_link(node),
                }
            },
        }
    }

    /// Counts one more link to an inode.
    pub open spec fn count_link(self, node: Node) -> (Image, Result<(), XHFSError>) {
        if node.nlink == u64::MAX {
            (self, Err(XHFSError::Error { err: Fault::AddressOverflow }))
        } else {
            self.register(Node { nlink: (node.nlink + 1) as u64, ..node }, true)
        }
    }

    /// Writes the content of one file to another path.
    pub open spec fn fcopy(
        self,
        src: Seq<char>,
        dest: Seq<char>,
        opt: WriteOption,
        now: u64,
    ) -> (Image, Result<(), XHFSError>) {
        match self.fread(src) {
            Err(x) => (self, Err(x)),
            Ok(data) => self.blob_write(dest, data, INodeKind::File, opt, now),
        }
    }
}

} // verus!
