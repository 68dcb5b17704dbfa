//! What is stored on the disk, and how it is laid out as bytes.
use crate::addr::{maybe, MaybeU64};
use crate::codec::{
    array_at, copy_range, get_u64, le64, lemma_le64, lemma_un_le64, push_bytes, push_u64, u64_at,
    un_le64, zero_vec, zeros,
};
use crate::error::{seen, Fault, Record};
use crate::text::utf8_text;
use crate::utils::{absolute, components, normalize_path};
use vstd::prelude::*;
use vstd::string::*;
use vstd::utf8::*;

verus! {

/// What an inode stands for.
#[derive(Debug, Clone, Copy, PartialEq, Eq, Structural)]
pub enum INodeKind {
    File,
    Directory,
    Symlink,
    Hardlink,
}

/// The byte that stands for a kind.
pub open spec fn kind_byte(k: INodeKind) -> u8 {
    match k {
        INodeKind::File => 0,
        INodeKind::Directory => 1,
        INodeKind::Symlink => 2,
        INodeKind::Hardlink => 3,
    }
}

/// The kind that a byte stands for.
pub open spec fn kind_of(b: u8) -> Result<INodeKind, Fault> {
    if b == 0 {
        Ok(INodeKind::File)
    } else if b == 1 {
        Ok(INodeKind::Directory)
    } else if b == 2 {
        Ok(INodeKind::Symlink)
    } else if b == 3 {
        Ok(INodeKind::Hardlink)
    } else {
        Err(Fault::UnknownKind { value: b })
    }
}

impl INodeKind {
    /// The byte that stands for this kind.
    pub fn to_byte(&self) -> (r: u8)
        ensures
            r == kind_byte(*self),
    {
        match self {
            INodeKind::File => 0,
            INodeKind::Directory => 1,
            INodeKind::Symlink => 2,
            INodeKind::Hardlink => 3,
        }
    }

    /// The kind that a byte stands for.
    pub fn from_byte(value: u8) -> (r: Result<Self, Fault>)
        ensures
            r == kind_of(value),
    {
        if value == 0 {
            Ok(INodeKind::File)
        } else if value == 1 {
            Ok(INodeKind::Directory)
        } else if value == 2 {
            Ok(INodeKind::Symlink)
        } else if value == 3 {
            Ok(INodeKind::Hardlink)
        } else {
            Err(Fault::UnknownKind { value })
        }
    }

    /// Number of bytes of a kind.
    pub fn serialized_size() -> (r: usize)
        ensures
            r == 1,
    {
        1
    }
}

/// Entry of the inode table.
#[derive(Debug, Clone, Copy, PartialEq, Eq)]
pub struct INode {
    pub kind: INodeKind,
    pub inumber: u64,
    pub nlink: u64,
    pub total_file_size: u64,
    pub extent_addr: MaybeU64,
    pub mtime: u64,
    pub ctime: u64,
    pub extra_metadata: [u8; 32],
}

/// The value of an inode.
pub struct Node {
    pub kind: INodeKind,
    pub inumber: u64,
    pub nlink: u64,
    pub total_file_size: u64,
    pub extent_addr: MaybeU64,
    pub mtime: u64,
    pub ctime: u64,
    pub extra_metadata: Seq<u8>,
}

impl View for INode {
    type V = Node;

    open spec fn view(&self) -> Node {
        Node {
            kind: self.kind,
            inumber: self.inumber,
            nlink: self.nlink,
            total_file_size: self.total_file_size,
            extent_addr: self.extent_addr,
            mtime: self.mtime,
            ctime: self.ctime,
            extra_metadata: self.extra_metadata@,
        }
    }
}

/// Number of bytes of an inode.
pub const INODE_SIZE: u64 = 81;

/// The bytes of an inode.
pub open spec fn node_bytes(n: Node) -> Seq<u8> {
    le64(n.inumber) + seq![kind_byte(n.kind)] + le64(n.nlink) + le64(n.total_file_size) + le64(
        n.extent_addr.raw,
    ) + le64(n.mtime) + le64(n.ctime) + n.extra_metadata
}

/// The inode that bytes stand for.
pub open spec fn node_parse(s: Seq<u8>) -> Result<Node, Fault> {
    if s.len() != INODE_SIZE {
        Err(Fault::WrongSize { of: Record::INode, expected: INODE_SIZE, got: s.len() as u64 })
    } else {
        match kind_of(s[8]) {
            Err(e) => Err(e),
            Ok(kind) => Ok(
                Node {
                    kind,
                    inumber: u64_at(s, 0),
                    nlink: u64_at(s, 9),
                    total_file_size: u64_at(s, 17),
                    extent_addr: maybe(u64_at(s, 25)),
                    mtime: u64_at(s, 33),
                    ctime: u64_at(s, 41),
                    extra_metadata: s.subrange(49, 81),
                },
            ),
        }
    }
}

impl INode {
    /// The bytes of this inode.
    pub fn serialize(&self) -> (r: Result<Vec<u8>, Fault>)
        ensures
            r is Ok,
            r->Ok_0@ == node_bytes(self@),
            r->Ok_0@.len() == INODE_SIZE,
    {
        let mut buf: Vec<u8> = Vec::with_capacity(INode::serialized_size());
        push_u64(&mut buf, self.inumber);
        buf.push(self.kind.to_byte());
        push_u64(&mut buf, self.nlink);
        push_u64(&mut buf, self.total_file_size);
        push_u64(&mut buf, self.extent_addr.get());
        push_u64(&mut buf, self.mtime);
        push_u64(&mut buf, self.ctime);
        push_bytes(&mut buf, self.extra_metadata.as_slice());
        assert(buf@ =~= node_bytes(self@));
        Ok(buf)
    }

    /// The inode that `data` stands for.
    pub fn deserialize(data: &[u8]) -> (r: Result<Self, Fault>)
        ensures
            seen(r) == node_parse(data@),
    {
        let got: usize = data.len();
        if got != 81 {
            return Err(Fault::WrongSize { of: Record::INode, expected: INODE_SIZE, got: got as u64 });
        }
        let kind = match INodeKind::from_byte(data[8]) {
            Ok(kind) => kind,
            Err(e) => return Err(e),
        };
        Ok(
            INode {
                kind,
                inumber: get_u64(data, 0),
                nlink: get_u64(data, 9),
                total_file_size: get_u64(data, 17),
                extent_addr: MaybeU64::from(get_u64(data, 25)),
                mtime: get_u64(data, 33),
                ctime: get_u64(data, 41),
                extra_metadata: array_at(data, 49),
            },
        )
    }

    /// Number of bytes of an inode.
    pub fn serialized_size() -> (r: usize)
        ensures
            r == INODE_SIZE,
    {
        81
    }
}

/// An inode that is written and read back is the same inode.
pub proof fn inode_round_trip(n: Node)
    requires
        n.extra_metadata.len() == 32,
    ensures
        node_parse(node_bytes(n)) == Ok::<Node, Fault>(n),
{
    let s = node_bytes(n);
    lemma_le64(n.inumber);
    lemma_le64(n.nlink);
    lemma_le64(n.total_file_size);
    lemma_le64(n.extent_addr.raw);
    lemma_le64(n.mtime);
    lemma_le64(n.ctime);
    assert(s.len() == 81);
    assert(s[8] == kind_byte(n.kind));
    assert(s.subrange(0, 8) =~= le64(n.inumber));
    assert(s.subrange(9, 17) =~= le64(n.nlink));
    assert(s.subrange(17, 25) =~= le64(n.total_file_size));
    assert(s.subrange(25, 33) =~= le64(n.extent_addr.raw));
    assert(s.subrange(33, 41) =~= le64(n.mtime));
    assert(s.subrange(41, 49) =~= le64(n.ctime));
    assert(s.subrange(49, 81) =~= n.extra_metadata);
}

/// Bytes that are read as an inode are the bytes of that inode.
pub proof fn inode_bytes_round_trip(s: Seq<u8>)
    requires
        node_parse(s) is Ok,
    ensures
        node_bytes(node_parse(s)->Ok_0) == s,
{
    let n = node_parse(s)->Ok_0;
    lemma_un_le64(s.subrange(0, 8));
    lemma_un_le64(s.subrange(9, 17));
    lemma_un_le64(s.subrange(17, 25));
    lemma_un_le64(s.subrange(25, 33));
    lemma_un_le64(s.subrange(33, 41));
    lemma_un_le64(s.subrange(41, 49));
    assert(node_bytes(n) =~= s);
}

/// Link of a chain that holds the content of an inode.
#[derive(Debug, Clone, PartialEq, Eq)]
pub struct Extent {
    /// Address of the next link, if there is one.
    pub next: MaybeU64,
    pub data: Vec<u8>,
}

/// The value of an extent.
pub struct Chunk {
    pub next: MaybeU64,
    pub data: Seq<u8>,
}

impl View for Extent {
    type V = Chunk;

    open spec fn view(&self) -> Chunk {
        Chunk { next: self.next, data: self.data@ }
    }
}

/// Number of bytes that stand before the data of an extent.
pub const EXTENT_HEADER_SIZE: u64 = 16;

/// The bytes of an extent.
pub open spec fn chunk_bytes(c: Chunk) -> Seq<u8> {
    le64(c.data.len() as u64) + le64(c.next.raw) + c.data
}

/// The size of the data and the next address that an extent starts with.
pub open spec fn chunk_header(s: Seq<u8>) -> Result<(u64, MaybeU64), Fault> {
    if s.len() < EXTENT_HEADER_SIZE {
        Err(Fault::TooShort { of: Record::Extent, expected: EXTENT_HEADER_SIZE, got: s.len() as u64 })
    } else {
        Ok((u64_at(s, 0), maybe(u64_at(s, 8))))
    }
}

/// The extent that bytes stand for.
pub open spec fn chunk_parse(s: Seq<u8>) -> Result<Chunk, Fault> {
    match chunk_header(s) {
        Err(e) => Err(e),
        Ok((size, next)) => if size != s.len() - 16 {
            Err(Fault::WrongSize { of: Record::Extent, expected: size, got: (s.len() - 16) as u64 })
        } else {
            Ok(Chunk { next, data: s.subrange(16, s.len() as int) })
        },
    }
}

impl Extent {
    /// Where the next address stands in an extent.
    pub const HEADER_NEXT_OFFSET: u64 = 8;

    /// The bytes of this extent.
    pub fn serialize(&self) -> (r: Result<Vec<u8>, Fault>)
        ensures
            r is Ok,
            r->Ok_0@ == chunk_bytes(self@),
            r->Ok_0@.len() == 16 + self.data@.len(),
    {
        let mut buf: Vec<u8> = Vec::new();
        push_u64(&mut buf, self.data.len() as u64);
        push_u64(&mut buf, self.next.get());
        push_bytes(&mut buf, self.data.as_slice());
        assert(buf@ =~= chunk_bytes(self@));
        Ok(buf)
    }

    /// The extent that `data` stands for.
    pub fn deserialize(data: &[u8]) -> (r: Result<Self, Fault>)
        ensures
            seen(r) == chunk_parse(data@),
    {
        let (size, next) = match Extent::deserialize_header_only(data) {
            Ok(h) => h,
            Err(e) => return Err(e),
        };
        let got: usize = data.len() - 16;
        if size != got as u64 {
            return Err(Fault::WrongSize { of: Record::Extent, expected: size, got: got as u64 });
        }
        Ok(Extent { next, data: copy_range(data, 16, got) })
    }

    /// The size of the data and the next address that `data` starts with.
    pub fn deserialize_header_only(data: &[u8]) -> (r: Result<(u64, MaybeU64), Fault>)
        ensures
            r == chunk_header(data@),
    {
        let got: usize = data.len();
        if got < 16 {
            return Err(Fault::TooShort { of: Record::Extent, expected: EXTENT_HEADER_SIZE, got: got as u64 });
        }
        Ok((get_u64(data, 0), MaybeU64::from(get_u64(data, 8))))
    }

    /// Number of bytes of an extent with `data_len` bytes of data.
    pub fn emulate_serialized_size(data_len: usize) -> (r: usize)
        requires
            data_len + 16 <= usize::MAX,
        ensures
            r == 16 + data_len,
    {
        16 + data_len
    }

    /// Number of bytes of this extent.
    pub fn serialized_size(&self) -> (r: usize)
        requires
            self.data@.len() + 16 <= usize::MAX,
        ensures
            r == chunk_bytes(self@).len(),
    {
        proof {
            lemma_le64(self.data@.len() as u64);
            lemma_le64(self.next.raw);
        }
        Extent::emulate_serialized_size(self.data.len())
    }
}

/// An extent that is written and read back is the same extent.
pub proof fn extent_round_trip(c: Chunk)
    requires
        c.data.len() <= u64::MAX,
    ensures
        chunk_parse(chunk_bytes(c)) == Ok::<Chunk, Fault>(c),
{
    let s = chunk_bytes(c);
    lemma_le64(c.data.len() as u64);
    lemma_le64(c.next.raw);
    assert(s.subrange(0, 8) =~= le64(c.data.len() as u64));
    assert(s.subrange(8, 16) =~= le64(c.next.raw));
    assert(s.subrange(16, s.len() as int) =~= c.data);
}

/// Bytes that are read as an extent are the bytes of that extent.
pub proof fn extent_bytes_round_trip(s: Seq<u8>)
    requires
        chunk_parse(s) is Ok,
    ensures
        chunk_bytes(chunk_parse(s)->Ok_0) == s,
{
    let c = chunk_parse(s)->Ok_0;
    lemma_un_le64(s.subrange(0, 8));
    lemma_un_le64(s.subrange(8, 16));
    assert(chunk_bytes(c) =~= s);
}

/// True if a name of these bytes cannot be stored.
pub open spec fn has_control(b: Seq<u8>) -> bool {
    exists|i: int| 0 <= i < b.len() && is_control(#[trigger] b[i])
}

/// Line breaks, the tab and the zero byte.
pub open spec fn is_control(b: u8) -> bool {
    b == 10 || b == 13 || b == 9 || b == 0
}

/// Number of bytes of a stored name.
pub const NAME_SLOT: u64 = 256;

/// The stored form of a name: its length, its bytes and zeros.
pub open spec fn name_slot(name: Seq<char>) -> Result<Seq<u8>, Fault> {
    let b = encode_utf8(name);
    if b.len() > 255 {
        Err(Fault::NameTooLong)
    } else if has_control(b) {
        Err(Fault::NameControlCharacter)
    } else {
        Ok(seq![b.len() as u8] + b + zeros((255 - b.len()) as nat))
    }
}

/// The name that a stored form stands for.
pub open spec fn name_parse(s: Seq<u8>) -> Result<Seq<char>, Fault> {
    if s.len() != NAME_SLOT {
        Err(Fault::WrongSize { of: Record::Name, expected: NAME_SLOT, got: s.len() as u64 })
    } else {
        let b = s.subrange(1, 1 + s[0]);
        if valid_utf8(b) {
            Ok(decode_utf8(b))
        } else {
            Err(Fault::InvalidUtf8)
        }
    }
}

/// The stored form of a name of at most 255 bytes.
pub fn serialize_255_utf8_string(s: &str) -> (r: Result<Vec<u8>, Fault>)
    ensures
        seen(r) == name_slot(s@),
        r is Ok ==> r->Ok_0@.len() == NAME_SLOT,
{
    let b = s.as_bytes();
    let n: usize = b.len();
    if n > 255 {
        return Err(Fault::NameTooLong);
    }
    let mut i: usize = 0;
    while i < n
        invariant
            i <= n,
            n == b@.len(),
            n <= 255,
            b@ == encode_utf8(s@),
            forall|k: int| 0 <= k < i ==> !is_control(#[trigger] b@[k]),
        decreases n - i,
    {
        let c = b[i];
        if c == 10 || c == 13 || c == 9 || c == 0 {
            assert(is_control(b@[i as int]));
            return Err(Fault::NameControlCharacter);
        }
        i = i + 1;
    }
    let mut buf: Vec<u8> = Vec::with_capacity(256);
    buf.push(n as u8);
    push_bytes(&mut buf, b);
    let mut pad = zero_vec(255 - n);
    buf.append(&mut pad);
    assert(buf@ =~= seq![b@.len() as u8] + b@ + zeros((255 - b@.len()) as nat));
    Ok(buf)
}

/// The name that a stored form stands for.
pub fn deserialize_255_utf8_string(data: &[u8]) -> (r: Result<String, Fault>)
    ensures
        seen(r) == name_parse(data@),
{
    let got: usize = data.len();
    if got != 256 {
        return Err(Fault::WrongSize { of: Record::Name, expected: NAME_SLOT, got: got as u64 });
    }
    let n: usize = data[0] as usize;
    match utf8_text(vstd::slice::slice_subrange(data, 1, 1 + n)) {
        Some(s) => Ok(s),
        None => Err(Fault::InvalidUtf8),
    }
}

/// A name that can be stored is read back unchanged.
pub proof fn name_round_trip(name: Seq<char>)
    requires
        name_slot(name) is Ok,
    ensures
        name_slot(name)->Ok_0.len() == NAME_SLOT,
        name_parse(name_slot(name)->Ok_0) == Ok::<Seq<char>, Fault>(name),
{
    let b = encode_utf8(name);
    let s = name_slot(name)->Ok_0;
    encode_utf8_valid_utf8(name);
    encode_utf8_decode_utf8(name);
    assert(s[0] == b.len());
    assert(s.subrange(1, 1 + s[0]) =~= b);
}

/// Names and inode numbers in the order in which they are stored.
#[derive(Debug, Clone, PartialEq, Eq)]
pub struct Directory {
    pub entries: Vec<(String, u64)>,
}

/// The entries of a directory.
pub open spec fn entries_of(v: Seq<(String, u64)>) -> Seq<(Seq<char>, u64)> {
    Seq::new(v.len(), |i: int| (v[i].0@, v[i].1))
}

impl View for Directory {
    type V = Seq<(Seq<char>, u64)>;

    open spec fn view(&self) -> Seq<(Seq<char>, u64)> {
        entries_of(self.entries@)
    }
}

/// Number of bytes of a stored directory entry.
pub const ENTRY_SIZE: u64 = 264;

/// The bytes of entries, one after the other.
pub open spec fn entry_rows(e: Seq<(Seq<char>, u64)>) -> Result<Seq<u8>, Fault>
    decreases e.len(),
{
    if e.len() == 0 {
        Ok(Seq::empty())
    } else {
        match entry_rows(e.drop_last()) {
            Err(x) => Err(x),
            Ok(rows) => match name_slot(e.last().0) {
                Err(x) => Err(x),
                Ok(slot) => Ok(rows + slot + le64(e.last().1)),
            },
        }
    }
}

/// The bytes of a directory: the number of entries, then the entries.
pub open spec fn dir_bytes(e: Seq<(Seq<char>, u64)>) -> Result<Seq<u8>, Fault> {
    match entry_rows(e) {
        Err(x) => Err(x),
        Ok(rows) => Ok(le64(e.len() as u64) + rows),
    }
}

/// The first `n` entries that the bytes of a directory hold.
pub open spec fn entries_parse(s: Seq<u8>, n: nat) -> Result<Seq<(Seq<char>, u64)>, Fault>
    decreases n,
{
    if n == 0 {
        Ok(Seq::empty())
    } else {
        match entries_parse(s, (n - 1) as nat) {
            Err(x) => Err(x),
            Ok(e) => {
                let at = 8 + 264 * (n - 1);
                if at + 264 > s.len() {
                    Err(Fault::Truncated)
                } else {
                    match name_parse(s.subrange(at, at + 256)) {
                        Err(x) => Err(x),
                        Ok(name) => Ok(e.push((name, u64_at(s, at + 256)))),
                    }
                }
            },
        }
    }
}

/// The entries that bytes stand for; no bytes at all stand for no entries.
pub open spec fn dir_parse(s: Seq<u8>) -> Result<Seq<(Seq<char>, u64)>, Fault> {
    if s.len() == 0 {
        Ok(Seq::empty())
    } else if s.len() < 8 {
        Err(Fault::TooShort { of: Record::Directory, expected: 8, got: s.len() as u64 })
    } else {
        entries_parse(s, u64_at(s, 0) as nat)
    }
}

proof fn lemma_entries_parse_err(s: Seq<u8>, m: nat, n: nat)
    requires
        m <= n,
        entries_parse(s, m) is Err,
    ensures
        entries_parse(s, n) == entries_parse(s, m),
    decreases n,
{
    if m < n {
        lemma_entries_parse_err(s, m, (n - 1) as nat);
    }
}

impl Directory {
    /// The bytes of this directory.
    pub fn serialize(&self) -> (r: Result<Vec<u8>, Fault>)
        ensures
            seen(r) == dir_bytes(self@),
    {
        let mut data: Vec<u8> = Vec::new();
        push_u64(&mut data, self.entries.len() as u64);
        let ghost head = data@;
        let mut i: usize = 0;
        let ghost all = self@;
        assert(head =~= le64(all.len() as u64));
        assert(data@ =~= head + entry_rows(all.subrange(0, 0))->Ok_0);
        while i < self.entries.len()
            invariant
                i <= self.entries@.len(),
                all == self@,
                head == le64(all.len() as u64),
                entry_rows(all.subrange(0, i as int)) is Ok,
                data@ == head + entry_rows(all.subrange(0, i as int))->Ok_0,
            decreases self.entries@.len() - i,
        {
            let ghost upto = all.subrange(0, i + 1);
            assert(upto.drop_last() =~= all.subrange(0, i as int));
            assert(upto.last() == all[i as int]);
            let ghost before = data@;
            let mut slot = match serialize_255_utf8_string(self.entries[i].0.as_str()) {
                Ok(slot) => slot,
                Err(e) => {
                    proof {
                        lemma_entry_rows_err(all, i + 1);
                    }
                    return Err(e);
                },
            };
            let ghost slot_bytes = slot@;
            data.append(&mut slot);
            push_u64(&mut data, self.entries[i].1);
            assert(data@ =~= head + (entry_rows(all.subrange(0, i as int))->Ok_0 + slot_bytes
                + le64(all[i as int].1)));
            i = i + 1;
        }
        assert(all.subrange(0, i as int) =~= all);
        Ok(data)
    }

    /// The directory that `data` stands for.
    pub fn deserialize(data: &[u8]) -> (r: Result<Self, Fault>)
        ensures
            seen(r) == dir_parse(data@),
    {
        let got: usize = data.len();
        let mut entries: Vec<(String, u64)> = Vec::new();
        assert(entries_of(entries@) =~= Seq::empty());
        if got == 0 {
            return Ok(Directory { entries });
        }
        if got < 8 {
            return Err(Fault::TooShort { of: Record::Directory, expected: 8, got: got as u64 });
        }
        let items: u64 = get_u64(data, 0);
        let mut i: u64 = 0;
        let mut at: usize = 8;
        while i < items
            invariant
                i <= items,
                got == data@.len(),
                got >= 8,
                items == u64_at(data@, 0),
                at == 8 + 264 * i,
                at <= got,
                entries_parse(data@, i as nat) == Ok::<_, Fault>(entries_of(entries@)),
            decreases items - i,
        {
            if got - at < 264 {
                proof {
                    lemma_entries_parse_err(data@, (i + 1) as nat, items as nat);
                }
                return Err(Fault::Truncated);
            }
            let name = match deserialize_255_utf8_string(
                vstd::slice::slice_subrange(data, at, at + 256),
            ) {
                Ok(name) => name,
                Err(e) => {
                    proof {
                        lemma_entries_parse_err(data@, (i + 1) as nat, items as nat);
                    }
                    return Err(e);
                },
            };
            let inumber: u64 = get_u64(data, at + 256);
            let ghost before = entries_of(entries@);
            entries.push((name, inumber));
            assert(entries_of(entries@) =~= before.push((name@, inumber)));
            at = at + 264;
            i = i + 1;
        }
        Ok(Directory { entries })
    }
}

proof fn lemma_entry_rows_err(e: Seq<(Seq<char>, u64)>, m: int)
    requires
        0 <= m <= e.len(),
        entry_rows(e.subrange(0, m)) is Err,
    ensures
        entry_rows(e) == entry_rows(e.subrange(0, m)),
    decreases e.len() - m,
{
    if m < e.len() {
        assert(e.subrange(0, m + 1).drop_last() =~= e.subrange(0, m));
        lemma_entry_rows_err(e, m + 1);
    } else {
        assert(e.subrange(0, m) =~= e);
    }
}

pub proof fn lemma_entry_rows_len(e: Seq<(Seq<char>, u64)>)
    requires
        entry_rows(e) is Ok,
    ensures
        entry_rows(e)->Ok_0.len() == 264 * e.len(),
    decreases e.len(),
{
    if e.len() > 0 {
        lemma_entry_rows_len(e.drop_last());
        name_round_trip(e.last().0);
        lemma_le64(e.last().1);
    }
}

proof fn lemma_dir_prefix(e: Seq<(Seq<char>, u64)>, tail: Seq<u8>, head: Seq<u8>)
    requires
        entry_rows(e) is Ok,
        head.len() == 8,
    ensures
        entries_parse(head + entry_rows(e)->Ok_0 + tail, e.len()) == Ok::<_, Fault>(e),
    decreases e.len(),
{
    let s = head + entry_rows(e)->Ok_0 + tail;
    lemma_entry_rows_len(e);
    if e.len() > 0 {
        let d = e.drop_last();
        let slot = name_slot(e.last().0)->Ok_0;
        let rows = entry_rows(d)->Ok_0;
        lemma_entry_rows_len(d);
        name_round_trip(e.last().0);
        lemma_le64(e.last().1);
        assert(head + rows + (slot + le64(e.last().1) + tail) =~= s);
        lemma_dir_prefix(d, slot + le64(e.last().1) + tail, head);
        let at = 8 + 264 * (e.len() - 1);
        assert(s.subrange(at, at + 256) =~= slot);
        assert(s.subrange(at + 256, at + 256 + 8) =~= le64(e.last().1));
        assert(d.push(e.last()) =~= e);
    } else {
        assert(e =~= Seq::empty());
    }
}

/// A directory that is written and read back has the same entries in the same order.
pub proof fn directory_round_trip(e: Seq<(Seq<char>, u64)>)
    requires
        dir_bytes(e) is Ok,
        e.len() <= u64::MAX,
    ensures
        dir_parse(dir_bytes(e)->Ok_0) == Ok::<_, Fault>(e),
{
    let s = dir_bytes(e)->Ok_0;
    lemma_le64(e.len() as u64);
    lemma_dir_prefix(e, Seq::empty(), le64(e.len() as u64));
    assert(le64(e.len() as u64) + entry_rows(e)->Ok_0 + Seq::empty() =~= s);
    assert(s.subrange(0, 8) =~= le64(e.len() as u64));
}

/// Content of a symbolic link: the path that it points to.
#[derive(Debug, Clone, PartialEq, Eq)]
pub struct Symlink {
    pub path: String,
}

impl Symlink {
    /// The normalized target, as UTF-8.
    pub fn serialize(&self) -> (r: Vec<u8>)
        ensures
            r@ == encode_utf8(absolute(components(self.path@))),
    {
        let p = normalize_path(self.path.as_str());
        p.as_str().as_bytes_vec()
    }

    /// The link whose target `data` spells.
    pub fn deserialize(data: &[u8]) -> (r: Result<Self, Fault>)
        ensures
            r is Ok <==> valid_utf8(data@),
            r is Ok ==> r->Ok_0.path@ == decode_utf8(data@),
            r is Err ==> r->Err_0 == Fault::LinkNotUtf8,
    {
        match utf8_text(data) {
            Some(path) => Ok(Symlink { path }),
            None => Err(Fault::LinkNotUtf8),
        }
    }
}

/// A link is read back with its target in normal form.
pub proof fn symlink_round_trip(path: Seq<char>)
    ensures
        valid_utf8(encode_utf8(absolute(components(path)))),
        decode_utf8(encode_utf8(absolute(components(path)))) == absolute(components(path)),
{
    encode_utf8_valid_utf8(absolute(components(path)));
    encode_utf8_decode_utf8(absolute(components(path)));
}

/// Content of a hard link: the number of the inode that it stands for.
#[derive(Debug, Clone, Copy, PartialEq, Eq, Structural)]
pub struct Hardlink {
    pub inumber: u64,
}

/// The inode number that the content of a hard link stands for.
pub open spec fn hardlink_parse(s: Seq<u8>) -> Result<Hardlink, Fault> {
    if s.len() != 8 {
        Err(Fault::WrongSize { of: Record::Hardlink, expected: 8, got: s.len() as u64 })
    } else {
        Ok(Hardlink { inumber: un_le64(s) })
    }
}

impl Hardlink {
    /// The eight bytes of the inode number.
    pub fn serialize(&self) -> (r: Vec<u8>)
        ensures
            r@ == le64(self.inumber),
    {
        let mut buf: Vec<u8> = Vec::new();
        push_u64(&mut buf, self.inumber);
        assert(buf@ =~= le64(self.inumber));
        buf
    }

    /// The link whose target `data` spells.
    pub fn deserialize(data: &[u8]) -> (r: Result<Self, Fault>)
        ensures
            r == hardlink_parse(data@),
    {
        let got: usize = data.len();
        if got != 8 {
            return Err(Fault::WrongSize { of: Record::Hardlink, expected: 8, got: got as u64 });
        }
        assert(data@.subrange(0, 8) =~= data@);
        Ok(Hardlink { inumber: get_u64(data, 0) })
    }
}

/// A hard link that is written and read back is the same link.
pub proof fn hardlink_round_trip(h: Hardlink)
    ensures
        hardlink_parse(le64(h.inumber)) == Ok::<Hardlink, Fault>(h),
{
    lemma_le64(h.inumber);
}

/// Bytes that are read as a hard link are the bytes of that link.
pub proof fn hardlink_bytes_round_trip(s: Seq<u8>)
    requires
        hardlink_parse(s) is Ok,
    ensures
        le64(hardlink_parse(s)->Ok_0.inumber) == s,
{
    lemma_un_le64(s);
}

} // verus!
