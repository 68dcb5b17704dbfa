//! Operations on files and directories.
use crate::addr::MaybeU64;
use crate::codec::zeros;
use crate::device::Device;
use crate::error::{seen, Fault, Seeker, XHFSError};
use crate::utils::{chars_of, is_parent_name, path_to_string_list, texts};
use crate::xhfs::bitmap::{lemma_runs_within, run_pairs};
use crate::xhfs::ds::{entries_of, Directory, INode, INodeKind, Node};
use crate::xhfs::image::Image;
use crate::xhfs::tree::{
    entry_position, last_entry, split_parent, without, Entries, Stat, WriteOption,
};
use crate::xhfs::volume::{lemma_addressable, lemma_format, lemma_group};
use crate::xhfs::XHFS;
use vstd::prelude::*;
use vstd::string::*;

verus! {

/// What is known of an entry.
#[derive(Debug, Clone, PartialEq, Eq)]
pub struct EntryStat {
    pub name: String,
    pub kind: INodeKind,
    pub nlink: u64,
    pub size: Option<usize>,
    pub mtime: u64,
    pub ctime: u64,
}

impl View for EntryStat {
    type V = Stat;

    open spec fn view(&self) -> Stat {
        Stat {
            name: self.name@,
            kind: self.kind,
            nlink: self.nlink,
            size: self.size,
            mtime: self.mtime,
            ctime: self.ctime,
        }
    }
}

impl Default for WriteOption {
    fn default() -> (r: Self)
        ensures
            r == (WriteOption { overwrite: false, modified: None }),
    {
        WriteOption { overwrite: false, modified: None }
    }
}

proof fn lemma_position(e: Entries, name: Seq<char>, k: int)
    requires
        0 <= k <= e.len(),
        entry_position(e.subrange(0, k), name) is Some,
    ensures
        entry_position(e, name) == entry_position(e.subrange(0, k), name),
    decreases e.len() - k,
{
    if k < e.len() {
        assert(e.subrange(0, k + 1).drop_last() =~= e.subrange(0, k));
        lemma_position(e, name, k + 1);
    } else {
        assert(e.subrange(0, k) =~= e);
    }
}

impl Directory {
    /// The index of the first entry with a name.
    pub(crate) fn position(&self, name: &String) -> (r: Option<usize>)
        ensures
            match r {
                Some(i) => i < self.entries@.len() && entry_position(self@, name@) == Some(
                    i as int,
                ),
                None => entry_position(self@, name@) is None,
            },
    {
        let ghost e = self@;
        let mut i: usize = 0;
        while i < self.entries.len()
            invariant
                i <= self.entries@.len(),
                e == self@,
                entry_position(e.subrange(0, i as int), name@) is None,
            decreases self.entries@.len() - i,
        {
            proof {
                assert(e.subrange(0, i + 1).drop_last() =~= e.subrange(0, i as int));
                assert(e.subrange(0, i + 1).last() == e[i as int]);
            }
            if self.entries[i].0 == *name {
                proof {
                    lemma_position(e, name@, i + 1);
                }
                return Some(i);
            }
            i = i + 1;
        }
        assert(e.subrange(0, i as int) =~= e);
        None
    }

    /// Adds an entry at the end.
    pub(crate) fn add(&mut self, name: String, inumber: u64)
        ensures
            final(self)@ == old(self)@.push((name@, inumber)),
    {
        let ghost before = self@;
        let ghost text = name@;
        self.entries.push((name, inumber));
        assert(self@ =~= before.push((text, inumber)));
    }

    /// Takes out all entries with a name, and gives the inode number of the last of them.
    pub(crate) fn take_out(&mut self, name: &String) -> (r: Option<u64>)
        ensures
            r == last_entry(old(self)@, name@),
            final(self)@ == without(old(self)@, name@),
    {
        let ghost e = self@;
        let mut kept: Vec<(String, u64)> = Vec::new();
        let mut found: Option<u64> = None;
        let mut i: usize = 0;
        assert(entries_of(kept@) =~= without(e.subrange(0, 0), name@));
        while i < self.entries.len()
            invariant
                i <= self.entries@.len(),
                e == self@,
                entries_of(kept@) == without(e.subrange(0, i as int), name@),
                found == last_entry(e.subrange(0, i as int), name@),
            decreases self.entries@.len() - i,
        {
            proof {
                assert(e.subrange(0, i + 1).drop_last() =~= e.subrange(0, i as int));
                assert(e.subrange(0, i + 1).last() == e[i as int]);
            }
            let ghost had = entries_of(kept@);
            if self.entries[i].0 == *name {
                found = Some(self.entries[i].1);
            } else {
                kept.push((self.entries[i].0.clone(), self.entries[i].1));
                assert(entries_of(kept@) =~= had.push(e[i as int]));
            }
            i = i + 1;
        }
        assert(e.subrange(0, i as int) =~= e);
        self.entries = kept;
        found
    }
}

impl<D: Device> XHFS<D> {
    /// Takes a free inode, near inode `hint_inumber` if there is one.
    pub fn allocate_inode_near_at(
        &mut self,
        hint_inumber: u64,
        size: u64,
        extent_addr: MaybeU64,
        kind: INodeKind,
        now: u64,
    ) -> (r: Result<INode, XHFSError>)
        requires
            old(self).wf(),
        ensures
            Self::kept(old(self), final(self)),
            old(self).obeys(r is Ok) ==> (final(self).image(), seen(r)) == old(self).image().new_inode(
                hint_inumber,
                size,
                extent_addr,
                kind,
                now,
            ),
    {
        proof {
            reveal(Image::new_inode);
        }
        let ghost m = self.image();
        proof {
            lemma_format(m);
        }
        let starting = match self.locate_inode(hint_inumber) {
            Some(g) => g,
            None => {
                return Err(XHFSError::from_report(Fault::NoHint { inumber: hint_inumber }));
            },
        };
        let ghost start = m.inode_group(hint_inumber);
        proof {
            lemma_group(m, start);
        }
        let count: u64 = self.static_format.group_count;
        let mut i: u64 = 0;
        while i < count
            invariant
                i <= count,
                count == m.format.group_count,
                count > 0,
                *self == *old(self),
                self.wf(),
                m == self.image(),
                m.has_slot(hint_inumber),
                start == m.inode_group(hint_inumber),
                starting.g_index == start,
                0 <= start,
                m.addressable(start),
                self.obeys(true) ==> m.free_inode(start, 0) == m.free_inode(start, i as int),
            decreases count - i,
        {
            proof {
                reveal(Image::new_inode);
                lemma_format(m);
                lemma_groups_small(m, start);
                lemma_groups_small(m, count - 1);
            }
            let g: u64 = (starting.g_index + i) % count;
            proof {
                lemma_addressable(m, g as int, g as int);
                lemma_group(m, g as int);
            }
            let group = match self.locate_group(g) {
                Some(l) => l,
                None => return Err(XHFSError::from_report(Fault::AddressOverflow)),
            };
            let mut bitmap = match self.read_bitmap(group.inode_bitmap_region) {
                Ok(b) => b,
                Err(e) => return Err(e),
            };
            let ghost bits = bitmap@;
            let free = bitmap.runs_of(false, Some(self.geometry.n_inodes_in_group as usize));
            if free.len() > 0 {
                let ghost n = if m.format.param_inode_count_per_group < bits.len {
                    m.format.param_inode_count_per_group as nat
                } else {
                    bits.len
                };
                let first: usize = free[0].start;
                proof {
                    lemma_runs_within(bits.raw, false, n);
                    assert(run_pairs(free@)[0].0 == first as nat);
                    lemma_new_number(m, g as int, first as int);
                }
                let inumber: u64 = g * self.geometry.n_inodes_in_group + first as u64 + 1;
                let inode = INode {
                    inumber,
                    kind,
                    nlink: 1,
                    total_file_size: size,
                    extent_addr,
                    mtime: now,
                    ctime: now,
                    extra_metadata: [0;32],
                };
                assert(inode@.extra_metadata =~= zeros(32));
                let _set = bitmap.set(first, true);
                return match self.store_inode(&inode, &group, &bitmap) {
                    Ok(()) => Ok(inode),
                    Err(e) => Err(e),
                };
            }
            i = i + 1;
        }
        Err(XHFSError::from_report(Fault::NoFreeInode))
    }

    /// Notes a time in an inode.
    pub fn update_inode_mtime(&mut self, inode: INode, mtime: u64) -> (r: Result<INode, XHFSError>)
        requires
            old(self).wf(),
        ensures
            Self::kept(old(self), final(self)),
            old(self).obeys(r is Ok) ==> (final(self).image(), seen(r)) == old(self).image().noted(
                inode@,
                mtime,
            ),
    {
        let mut new = inode;
        new.mtime = mtime;
        assert(new@ == (Node { mtime, ..inode@ }));
        match self.register_inode(&new, true) {
            Ok(()) => Ok(new),
            Err(e) => Err(e),
        }
    }

    /// Counts one more link to an inode.
    pub fn increment_inode_nlink(&mut self, inode: INode) -> (r: Result<(), XHFSError>)
        requires
            old(self).wf(),
        ensures
            Self::kept(old(self), final(self)),
            old(self).obeys(r is Ok) ==> (final(self).image(), r) == old(self).image().count_link(
                inode@,
            ),
    {
        if inode.nlink == u64::MAX {
            return Err(XHFSError::from_report(Fault::AddressOverflow));
        }
        let mut new = inode;
        new.nlink = inode.nlink + 1;
        assert(new@ == (Node { nlink: (inode.nlink + 1) as u64, ..inode@ }));
        self.register_inode(&new, true)
    }

    /// The directory whose entries an extent chain holds.
    pub(crate) fn read_dir(&self, addr: MaybeU64) -> (r: Result<Directory, XHFSError>)
        requires
            self.wf(),
        ensures
            self.tells(r is Ok) ==> seen(r) == self.image().dir(addr),
    {
        let payload = match self.read_full_data_from_extent(addr) {
            Ok(p) => p,
            Err(e) => return Err(e),
        };
        match Directory::deserialize(payload.as_slice()) {
            Ok(d) => Ok(d),
            Err(e) => Err(XHFSError::from_report(e)),
        }
    }

    /// The inode that an entry refers to.
    pub(crate) fn resolve_entry(&self, inumber: u64) -> (r: Result<INode, XHFSError>)
        requires
            self.wf(),
        ensures
            self.tells(r is Ok) ==> seen(r) == self.image().entry_inode(inumber),
    {
        match self.resolve_inode(inumber) {
            Ok(Some(inode)) => Ok(inode),
            Ok(None) => Err(XHFSError::from_report(Fault::EntryMissing { inumber, by: Seeker::Walk })),
            Err(e) => Err(e),
        }
    }

    /// The inode that the first `n` parts of a path lead to.
    pub(crate) fn walk_parts(&self, parts: &Vec<String>, n: usize) -> (r: Result<
        INode,
        XHFSError,
    >)
        requires
            self.wf(),
            n <= parts@.len(),
        ensures
            self.tells(r is Ok) ==> seen(r) == self.image().walk(texts(parts@), n as nat),
    {
        let ghost m = self.image();
        let ghost names = texts(parts@);
        let mut inode = match self.get_root_inode() {
            Ok(i) => i,
            Err(e) => {
                proof {
                    if self.tells(false) {
                        lemma_walk_err(m, names, 0, n as nat);
                    }
                }
                return Err(e);
            },
        };
        let mut i: usize = 0;
        while i < n
            invariant
                i <= n <= parts@.len(),
                self.wf(),
                m == self.image(),
                names == texts(parts@),
                self.tells(true) ==> m.walk(names, i as nat) == Ok::<_, XHFSError>(inode@),
            decreases n - i,
        {
            match self.resolve_child(&inode, &parts[i], i) {
                Ok(next) => {
                    inode = next;
                },
                Err(e) => {
                    proof {
                        if self.tells(false) {
                            lemma_walk_err(m, names, (i + 1) as nat, n as nat);
                        }
                    }
                    return Err(e);
                },
            }
            i = i + 1;
        }
        Ok(inode)
    }

    /// The inode with a name in a directory.
    fn resolve_child(&self, inode: &INode, name: &String, depth: usize) -> (r: Result<
        INode,
        XHFSError,
    >)
        requires
            self.wf(),
            depth < usize::MAX,
        ensures
            self.tells(r is Ok) ==> seen(r) == self.image().child(inode@, name@, depth as int),
    {
        match inode.kind {
            INodeKind::Directory => {
                let directory = match self.read_dir(inode.extent_addr) {
                    Ok(d) => d,
                    Err(e) => return Err(e),
                };
                match directory.position(name) {
                    Some(i) => self.resolve_entry(directory.entries[i].1),
                    None => Err(
                        XHFSError::from_report(Fault::PathMissing { depth: depth as u64 + 1 }),
                    ),
                }
            },
            INodeKind::File => Err(
                XHFSError::from_report(Fault::FileInPath { depth: depth as u64 }),
            ),
            _ => Err(XHFSError::from_report(Fault::LinkInPath { depth: depth as u64 })),
        }
    }

    /// The inode at a path.
    pub fn resolve_path(&self, path: &str) -> (r: Result<INode, XHFSError>)
        requires
            self.wf(),
        ensures
            self.tells(r is Ok) ==> seen(r) == self.image().lookup(path@),
    {
        let parts = path_to_string_list(path);
        assert(texts(parts@).len() == parts@.len());
        let n: usize = parts.len();
        self.walk_parts(&parts, n)
    }

    /// The parent of what is at a path, and its name there.
    pub(crate) fn resolve_parent(&self, path: &str) -> (r: Result<(INode, String), XHFSError>)
        requires
            self.wf(),
        ensures
            split_parent(path@) is Err ==> seen(r) == Err::<(Node, Seq<char>), XHFSError>(
                split_parent(path@)->Err_0,
            ),
            self.tells(r is Ok) ==> seen(r) == self.image().parent(path@),
    {
        let parts = path_to_string_list(path);
        let ghost names = texts(parts@);
        let n: usize = parts.len();
        if n == 0 {
            let chars = chars_of(path);
            if chars.len() == 0 || chars[0] == '/' {
                return Err(XHFSError::from_report(Fault::MissingParent));
            }
            return Err(XHFSError::from_report(Fault::MissingFilename));
        }
        assert(names.last() == parts@[n - 1]@);
        if is_parent_name(parts[n - 1].as_str()) {
            return Err(XHFSError::from_report(Fault::MissingFilename));
        }
        match self.walk_parts(&parts, n - 1) {
            Ok(inode) => {
                proof {
                    if self.tells(true) {
                        lemma_walk_prefix(self.image(), names, names.drop_last(), (n - 1) as nat);
                    }
                }
                Ok((inode, parts[n - 1].clone()))
            },
            Err(e) => {
                proof {
                    if self.tells(false) {
                        lemma_walk_prefix(self.image(), names, names.drop_last(), (n - 1) as nat);
                    }
                }
                Err(e)
            },
        }
    }
}

/// A walk that fails early fails the same way later.
proof fn lemma_walk_err(m: Image, parts: Seq<Seq<char>>, a: nat, b: nat)
    requires
        a <= b,
        m.walk(parts, a) is Err,
    ensures
        m.walk(parts, b) == m.walk(parts, a),
    decreases b,
{
    if a < b {
        lemma_walk_err(m, parts, a, (b - 1) as nat);
    }
}

/// A walk depends only on the parts that it takes.
pub proof fn lemma_walk_prefix(m: Image, a: Seq<Seq<char>>, b: Seq<Seq<char>>, k: nat)
    requires
        k <= a.len(),
        k <= b.len(),
        forall|i: int| 0 <= i < k ==> a[i] == b[i],
    ensures
        m.walk(a, k) == m.walk(b, k),
    decreases k,
{
    if k > 0 {
        lemma_walk_prefix(m, a, b, (k - 1) as nat);
    }
}

/// Group numbers are small: a group has more than two bytes.
proof fn lemma_groups_small(m: Image, g: int)
    requires
        m.format.usable(),
        0 <= g,
        m.addressable(g),
    ensures
        2 * g <= u64::MAX,
{
    lemma_format(m);
    lemma_group(m, g);
    let s = m.format.stride();
    assert(2 * g <= g * s) by (nonlinear_arith)
        requires
            0 <= g,
            s >= 2,
    ;
}

/// The number of inode `i` of group `g`.
pub proof fn lemma_new_number(m: Image, g: int, i: int)
    requires
        m.format.usable(),
        0 <= g,
        m.addressable(g),
        0 <= i < m.format.param_inode_count_per_group,
    ensures
        0 <= g * m.format.param_inode_count_per_group,
        g * m.format.param_inode_count_per_group + i + 1 <= u64::MAX,
        ({
            let n = (g * m.format.param_inode_count_per_group + i + 1) as u64;
            &&& m.inode_group(n) == g
            &&& m.inode_index(n) == i
            &&& m.has_slot(n)
        }),
{
    lemma_format(m);
    lemma_group(m, g);
    let ni = m.format.param_inode_count_per_group as int;
    let s = m.format.stride();
    assert(0 <= g * ni && g * ni + ni <= (g + 1) * s) by (nonlinear_arith)
        requires
            0 <= g,
            0 < ni < s,
    ;
    vstd::arithmetic::div_mod::lemma_fundamental_div_mod_converse(g * ni + i, ni, g, i);
}

} // verus!
