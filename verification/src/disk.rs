//! Inodes that carry their own name.
use crate::codec::{get_u64, le64, lemma_le64, push_u64, u64_at};
use crate::error::{seen, Fault, Record};
use crate::xhfs::ds::{
    deserialize_255_utf8_string, name_parse, name_round_trip, name_slot, serialize_255_utf8_string,
};
use vstd::prelude::*;
use vstd::string::*;

verus! {

/// What an inode stands for, and where that lies.
#[derive(Debug, Clone, Copy, PartialEq, Eq, Structural)]
pub enum INodeValue {
    File { data_addr: u64 },
    Directory { list_addr: u64 },
}

/// A named file or directory.
#[derive(Debug, Clone, PartialEq, Eq)]
pub struct INode {
    pub name: String,
    pub mtime: u64,
    pub ctime: u64,
    pub value: INodeValue,
}

/// The value of an inode.
pub struct NamedNode {
    pub name: Seq<char>,
    pub mtime: u64,
    pub ctime: u64,
    pub value: INodeValue,
}

impl View for INode {
    type V = NamedNode;

    open spec fn view(&self) -> NamedNode {
        NamedNode { name: self.name@, mtime: self.mtime, ctime: self.ctime, value: self.value }
    }
}

/// Number of bytes of a named inode.
pub const NAMED_INODE_SIZE: u64 = 282;

/// The byte for a value's kind, and its address.
pub open spec fn value_parts(v: INodeValue) -> (u8, u64) {
    match v {
        INodeValue::File { data_addr } => (0, data_addr),
        INodeValue::Directory { list_addr } => (1, list_addr),
    }
}

/// The bytes of a named inode, unless its name cannot be stored.
pub open spec fn named_bytes(n: NamedNode) -> Result<Seq<u8>, Fault> {
    match name_slot(n.name) {
        Err(e) => Err(e),
        Ok(s) => Ok(
            s + seq![0u8, value_parts(n.value).0] + le64(value_parts(n.value).1) + le64(n.mtime)
                + le64(n.ctime),
        ),
    }
}

/// The named inode that bytes stand for.
pub open spec fn named_parse(s: Seq<u8>) -> Result<NamedNode, Fault> {
    if s.len() != NAMED_INODE_SIZE {
        Err(Fault::WrongSize { of: Record::NamedINode, expected: NAMED_INODE_SIZE, got: s.len() as u64 })
    } else {
        match name_parse(s.subrange(0, 256)) {
            Err(e) => Err(e),
            Ok(name) => if s[257] > 1 {
                Err(Fault::UnknownKind { value: s[257] })
            } else {
                Ok(
                    NamedNode {
                        name,
                        mtime: u64_at(s, 266),
                        ctime: u64_at(s, 274),
                        value: if s[257] == 0 {
                            INodeValue::File { data_addr: u64_at(s, 258) }
                        } else {
                            INodeValue::Directory { list_addr: u64_at(s, 258) }
                        },
                    },
                )
            },
        }
    }
}

impl INode {
    /// The bytes of this inode, unless its name cannot be stored.
    pub fn serialize(&self) -> (r: Result<Vec<u8>, Fault>)
        ensures
            seen(r) == named_bytes(self@),
    {
        let mut buf = match serialize_255_utf8_string(self.name.as_str()) {
            Ok(b) => b,
            Err(e) => return Err(e),
        };
        buf.push(0);
        let addr: u64 = match &self.value {
            INodeValue::File { data_addr } => {
                buf.push(0);
                *data_addr
            },
            INodeValue::Directory { list_addr } => {
                buf.push(1);
                *list_addr
            },
        };
        push_u64(&mut buf, addr);
        push_u64(&mut buf, self.mtime);
        push_u64(&mut buf, self.ctime);
        assert(buf@ =~= named_bytes(self@)->Ok_0);
        Ok(buf)
    }

    /// The inode that `data` stands for.
    pub fn deserialize(data: &[u8]) -> (r: Result<Self, Fault>)
        ensures
            seen(r) == named_parse(data@),
    {
        let got: usize = data.len();
        if got != 282 {
            return Err(Fault::WrongSize { of: Record::NamedINode, expected: NAMED_INODE_SIZE, got: got as u64 });
        }
        let name = match deserialize_255_utf8_string(vstd::slice::slice_subrange(data, 0, 256)) {
            Ok(n) => n,
            Err(e) => return Err(e),
        };
        let kind: u8 = data[257];
        let addr: u64 = get_u64(data, 258);
        let value = if kind == 0 {
            INodeValue::File { data_addr: addr }
        } else if kind == 1 {
            INodeValue::Directory { list_addr: addr }
        } else {
            return Err(Fault::UnknownKind { value: kind });
        };
        Ok(INode { name, mtime: get_u64(data, 266), ctime: get_u64(data, 274), value })
    }
}

/// A named inode that can be written is read back unchanged.
pub proof fn named_inode_round_trip(n: NamedNode)
    requires
        named_bytes(n) is Ok,
    ensures
        named_parse(named_bytes(n)->Ok_0) == Ok::<_, Fault>(n),
{
    let s = named_bytes(n)->Ok_0;
    name_round_trip(n.name);
    lemma_le64(value_parts(n.value).1);
    lemma_le64(n.mtime);
    lemma_le64(n.ctime);
    assert(s.subrange(0, 256) =~= name_slot(n.name)->Ok_0);
    assert(s.subrange(258, 266) =~= le64(value_parts(n.value).1));
    assert(s.subrange(266, 274) =~= le64(n.mtime));
    assert(s.subrange(274, 282) =~= le64(n.ctime));
}

} // verus!
