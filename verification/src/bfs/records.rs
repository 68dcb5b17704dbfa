//! What is stored on the disk besides extents and directories.
use crate::addr::{maybe, MaybeU64};
use crate::codec::{get_u64, le64, lemma_le64, lemma_un_le64, push_u64, u64_at};
use crate::error::{Fault, Record};
use crate::text::utf8_text;
use crate::utils::{absolute, components, normalize_path};
use vstd::prelude::*;
use vstd::string::*;
use vstd::utf8::*;

verus! {

/// What an inode stands for.
#[derive(Debug, Clone, Copy, PartialEq, Eq, Structural)]
pub enum INodeKind {
    File,
    Directory,
    Symlink,
}

/// The byte that stands for a kind.
pub open spec fn kind_byte(k: INodeKind) -> u8 {
    match k {
        INodeKind::File => 0,
        INodeKind::Directory => 1,
        INodeKind::Symlink => 2,
    }
}

/// The kind that a byte stands for.
pub open spec fn kind_of(b: u8) -> Result<INodeKind, Fault> {
    if b == 0 {
        Ok(INodeKind::File)
    } else if b == 1 {
        Ok(INodeKind::Directory)
    } else if b == 2 {
        Ok(INodeKind::Symlink)
    } else {
        Err(Fault::UnknownKind { value: b })
    }
}

impl INodeKind {
    /// The byte that stands for this kind.
    pub fn to_byte(&self) -> (r: u8)
        ensures
            r == kind_byte(*self),
    {
        match self {
            INodeKind::File => 0,
            INodeKind::Directory => 1,
            INodeKind::Symlink => 2,
        }
    }

    /// The kind that a byte stands for.
    pub fn from_byte(value: u8) -> (r: Result<Self, Fault>)
        ensures
            r == kind_of(value),
    {
        if value == 0 {
            Ok(INodeKind::File)
        } else if value == 1 {
            Ok(INodeKind::Directory)
        } else if value == 2 {
            Ok(INodeKind::Symlink)
        } else {
            Err(Fault::UnknownKind { value })
        }
    }

    /// Number of bytes of a kind.
    pub fn serialized_size() -> (r: usize)
        ensures
            r == 1,
    {
        1
    }
}

/// What is known of a file, directory or link.
#[derive(Debug, Clone, Copy, PartialEq, Eq, Structural)]
pub struct INode {
    pub kind: INodeKind,
    pub total_file_size: u64,
    pub extent_addr: MaybeU64,
    pub mtime: u64,
    pub ctime: u64,
}

/// Number of bytes of an inode.
pub const INODE_SIZE: u64 = 33;

/// The bytes of an inode.
pub open spec fn node_bytes(n: INode) -> Seq<u8> {
    seq![kind_byte(n.kind)] + le64(n.extent_addr.raw) + le64(n.total_file_size) + le64(n.mtime)
        + le64(n.ctime)
}

/// The inode that bytes stand for.
pub open spec fn node_parse(s: Seq<u8>) -> Result<INode, Fault> {
    if s.len() != INODE_SIZE {
        Err(Fault::WrongSize { of: Record::INode, expected: INODE_SIZE, got: s.len() as u64 })
    } else {
        match kind_of(s[0]) {
            Err(e) => Err(e),
            Ok(kind) => Ok(
                INode {
                    kind,
                    extent_addr: maybe(u64_at(s, 1)),
                    total_file_size: u64_at(s, 9),
                    mtime: u64_at(s, 17),
                    ctime: u64_at(s, 25),
                },
            ),
        }
    }
}

impl INode {
    /// The bytes of this inode.
    pub fn serialize(&self) -> (r: Result<Vec<u8>, Fault>)
        ensures
            r is Ok,
            r->Ok_0@ == node_bytes(*self),
            r->Ok_0@.len() == INODE_SIZE,
    {
        let mut buf: Vec<u8> = Vec::with_capacity(INode::serialized_size());
        buf.push(self.kind.to_byte());
        push_u64(&mut buf, self.extent_addr.get());
        push_u64(&mut buf, self.total_file_size);
        push_u64(&mut buf, self.mtime);
        push_u64(&mut buf, self.ctime);
        assert(buf@ =~= node_bytes(*self));
        Ok(buf)
    }

    /// The inode that `data` stands for.
    pub fn deserialize(data: &[u8]) -> (r: Result<Self, Fault>)
        ensures
            r == node_parse(data@),
    {
        let got: usize = data.len();
        if got != 33 {
            return Err(Fault::WrongSize { of: Record::INode, expected: INODE_SIZE, got: got as u64 });
        }
        let kind = match INodeKind::from_byte(data[0]) {
            Ok(kind) => kind,
            Err(e) => return Err(e),
        };
        Ok(
            INode {
                kind,
                extent_addr: MaybeU64::from(get_u64(data, 1)),
                total_file_size: get_u64(data, 9),
                mtime: get_u64(data, 17),
                ctime: get_u64(data, 25),
            },
        )
    }

    /// Number of bytes of an inode.
    pub fn serialized_size() -> (r: usize)
        ensures
            r == INODE_SIZE,
    {
        33
    }
}

/// An inode that is written and read back is the same inode.
pub proof fn inode_round_trip(n: INode)
    ensures
        node_bytes(n).len() == INODE_SIZE,
        node_parse(node_bytes(n)) == Ok::<INode, Fault>(n),
{
    let s = node_bytes(n);
    lemma_le64(n.extent_addr.raw);
    lemma_le64(n.total_file_size);
    lemma_le64(n.mtime);
    lemma_le64(n.ctime);
    assert(s.subrange(1, 9) =~= le64(n.extent_addr.raw));
    assert(s.subrange(9, 17) =~= le64(n.total_file_size));
    assert(s.subrange(17, 25) =~= le64(n.mtime));
    assert(s.subrange(25, 33) =~= le64(n.ctime));
}

/// Bytes that are read as an inode are the bytes of that inode.
pub proof fn inode_bytes_round_trip(s: Seq<u8>)
    requires
        node_parse(s) is Ok,
    ensures
        node_bytes(node_parse(s)->Ok_0) == s,
{
    let n = node_parse(s)->Ok_0;
    lemma_un_le64(s.subrange(1, 9));
    lemma_un_le64(s.subrange(9, 17));
    lemma_un_le64(s.subrange(17, 25));
    lemma_un_le64(s.subrange(25, 33));
    assert(node_bytes(n) =~= s);
}

/// Content of a symbolic link: the path that it points to.
#[derive(Debug, Clone, PartialEq, Eq)]
pub struct SymLink {
    pub path: String,
}

impl SymLink {
    /// The normalized target, as UTF-8.
    pub fn serialize(&self) -> (r: Vec<u8>)
        ensures
            r@ == encode_utf8(absolute(components(self.path@))),
    {
        let p = normalize_path(self.path.as_str());
        p.as_str().as_bytes_vec()
    }

    /// The link whose target `data` spells.
    pub fn deserialize(data: &[u8]) -> (r: Result<Self, Fault>)
        ensures
            r is Ok <==> valid_utf8(data@),
            r is Ok ==> r->Ok_0.path@ == decode_utf8(data@),
            r is Err ==> r->Err_0 == Fault::LinkNotUtf8,
    {
        match utf8_text(data) {
            Some(path) => Ok(SymLink { path }),
            None => Err(Fault::LinkNotUtf8),
        }
    }
}

} // verus!
