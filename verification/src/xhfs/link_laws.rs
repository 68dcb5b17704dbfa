//! What symbolic links, sizes and reads of a part promise.
use crate::error::XHFSError;
use crate::path_laws::{no_parents, normalizing_keeps_components};
use crate::utils::{absolute, components};
use crate::xhfs::ds::{hardlink_parse, INodeKind, Node};
use crate::xhfs::file_laws::lemma_appended;
use crate::xhfs::image::Image;
use crate::xhfs::inode_laws::{is_inode, live, node_of};
use crate::xhfs::laws::{part, same_volume, seek_is_part_of_content};
use crate::xhfs::op_laws::{
    grounded, lemma_node_ok, lemma_walk_extends, lemma_walk_live, lemma_written, writable,
};
use crate::xhfs::sound::{ext, same_content};
use crate::xhfs::tree::WriteOption;
use vstd::prelude::*;
use vstd::utf8::*;

verus! {

/// A symbolic link that was made to a file reads as the file, and leaves the file as it is.
pub proof fn symlink_reads_as_its_target(
    m: Image,
    path: Seq<char>,
    target: Seq<char>,
    opt: WriteOption,
    now: u64,
)
    requires
        grounded(m),
        m.parent(path) is Ok ==> m.parent(path)->Ok_0.0.kind is Directory,
        m.lookup(path) is Err,
        no_parents(components(target)),
        m.lookup(target) is Ok,
        m.lookup(target)->Ok_0.kind is File,
        m.symlink(path, target, opt, now).1 is Ok,
    ensures
        ({
            let m2 = m.symlink(path, target, opt, now).0;
            &&& grounded(m2)
            &&& same_volume(m, m2)
            &&& m2.fread(path) == m.fread(target)
            &&& m2.fread(target) == m.fread(target)
            &&& m2.lookup(path)->Ok_0.kind is Symlink
        }),
{
    let link = absolute(components(target));
    let data = encode_utf8(link);
    let m2 = m.symlink(path, target, opt, now).0;
    encode_utf8_valid_utf8(link);
    encode_utf8_decode_utf8(link);
    lemma_written(m, path, data, INodeKind::Symlink, opt, now);
    normalizing_keeps_components(target);
    let parts = components(target);
    lemma_walk_live(m, parts, parts.len());
    lemma_walk_extends(m, m2, parts, parts.len());
    let n = m.lookup(target)->Ok_0.inumber;
    assert(live(m, n));
    assert(m2.lookup(link) == m2.lookup(target));
    assert(m2.lookup(path)->Ok_0.inumber != n);
    assert(same_content(m, m2, ext(m, n)));
}

/// The bytes from `start` to before `end`; what lies behind the last byte is left out.
pub open spec fn between(c: Seq<u8>, start: u64, end: u64) -> Seq<u8> {
    let lo = if start < c.len() {
        start as int
    } else {
        c.len() as int
    };
    let hi = if end < c.len() {
        end as int
    } else {
        c.len() as int
    };
    if lo < hi {
        c.subrange(lo, hi)
    } else {
        Seq::empty()
    }
}

/// The path leads to a file, or to a link that refers to one.
pub open spec fn leads_to_file(m: Image, path: Seq<char>) -> bool {
    &&& m.lookup(path) is Ok
    &&& m.follow(m.lookup(path)->Ok_0) is Ok
    &&& m.follow(m.lookup(path)->Ok_0)->Ok_0.kind is File
}

/// Reading a file from `start` to `end` gives the bytes between of what reading all of it gives,
/// in however many extents it lies, also through a link. A range that goes past the end is cut.
pub proof fn seek_reads_part_of_file(m: Image, path: Seq<char>, start: u64, end: u64)
    requires
        m.format.usable(),
        leads_to_file(m, path),
        m.fread(path) is Ok,
        m.fread(path)->Ok_0.len() <= u64::MAX,
    ensures
        m.fseek(path, start, end) == Ok::<_, XHFSError>(
            between(m.fread(path)->Ok_0, start, end),
        ),
{
    let target = m.follow(m.lookup(path)->Ok_0)->Ok_0;
    let c = m.fread(path)->Ok_0;
    seek_is_part_of_content(m, target.extent_addr, start, end);
    assert(part(c, start as int, end as int) =~= between(c, start, end));
}

/// A hard link stands for an inode of the volume.
pub open spec fn well_linked(m: Image, node: Node) -> bool {
    node.kind is Hardlink && m.content(node.extent_addr) is Ok && hardlink_parse(
        m.content(node.extent_addr)->Ok_0,
    ) is Ok ==> is_inode(m, hardlink_parse(m.content(node.extent_addr)->Ok_0)->Ok_0.inumber)
}

/// Data that is appended through a link to a file is read back, through the link, after the old
/// content.
pub proof fn append_through_link_reads_back(m: Image, path: Seq<char>, data: Seq<u8>, t: u64)
    requires
        grounded(m),
        m.lookup(path) is Ok,
        m.lookup(path)->Ok_0.kind is Symlink || m.lookup(path)->Ok_0.kind is Hardlink,
        well_linked(m, m.lookup(path)->Ok_0),
        m.follow(m.lookup(path)->Ok_0) is Ok,
        m.follow(m.lookup(path)->Ok_0)->Ok_0.kind is File,
        m.fappend(path, data, t).1 is Ok,
    ensures
        m.fread(path) is Ok,
        m.fappend(path, data, t).0.fread(path) == Ok::<_, XHFSError>(m.fread(path)->Ok_0 + data),
        grounded(m.fappend(path, data, t).0),
        same_volume(m, m.fappend(path, data, t).0),
{
    let parts = components(path);
    let m2 = m.fappend(path, data, t).0;
    lemma_walk_live(m, parts, parts.len());
    let node = m.lookup(path)->Ok_0;
    let target = m.follow(node)->Ok_0;
    let n = target.inumber;
    let s = m.content(node.extent_addr)->Ok_0;
    if node.kind is Symlink {
        let to = components(decode_utf8(s));
        lemma_walk_live(m, to, to.len());
    } else {
        let k = hardlink_parse(s)->Ok_0.inumber;
        assert(live(m, k));
        lemma_node_ok(m, k);
    }
    assert(live(m, n) && node_of(m, n) == target);
    lemma_node_ok(m, n);
    let fuel = (m.disk.len() - 1) as nat;
    assert(m.fappend(path, data, t).0 == m.append_inode(target, data, t, fuel).0);
    lemma_appended(m, target, data, t, fuel);
    lemma_walk_extends(m, m2, parts, parts.len());
    assert(node.inumber != n);
    assert(is_inode(m, node.inumber));
    assert(m2.inode(node.inumber) == m.inode(node.inumber));
    assert(same_content(m, m2, ext(m, node.inumber)));
    assert(m2.lookup(path) == Ok::<_, XHFSError>(node));
    if node.kind is Symlink {
        let to = components(decode_utf8(s));
        lemma_walk_extends(m, m2, to, to.len());
    }
    assert(m2.follow(node) == Ok::<_, XHFSError>(node_of(m2, n)));
}

/// A file that was written has the size of the data.
pub proof fn written_file_has_its_size(
    m: Image,
    path: Seq<char>,
    data: Seq<u8>,
    opt: WriteOption,
    now: u64,
    follow_hardlink: bool,
)
    requires
        grounded(m),
        writable(m, path),
        data.len() <= usize::MAX,
        components(path).len() > 0,
        m.blob_write(path, data, INodeKind::File, opt, now).1 is Ok,
    ensures
        ({
            let s = m.blob_write(path, data, INodeKind::File, opt, now).0.stats(
                path,
                follow_hardlink,
            );
            &&& s is Ok && s->Ok_0 is Some
            &&& s->Ok_0->0.size == Some(data.len() as usize)
            &&& s->Ok_0->0.name == components(path).last()
        }),
{
    lemma_written(m, path, data, INodeKind::File, opt, now);
}

/// A file that data was appended to has grown by the size of the data.
pub proof fn appended_file_grows(m: Image, path: Seq<char>, data: Seq<u8>, t: u64)
    requires
        grounded(m),
        m.lookup(path) is Ok,
        m.lookup(path)->Ok_0.kind is File,
        m.fappend(path, data, t).1 is Ok,
    ensures
        m.fappend(path, data, t).0.lookup(path) is Ok,
        m.fappend(path, data, t).0.lookup(path)->Ok_0.total_file_size == m.lookup(
            path,
        )->Ok_0.total_file_size + data.len(),
        m.fappend(path, data, t).0.lookup(path)->Ok_0.mtime == t,
{
    let parts = components(path);
    let m2 = m.fappend(path, data, t).0;
    lemma_walk_live(m, parts, parts.len());
    let node = m.lookup(path)->Ok_0;
    lemma_appended(m, node, data, t, m.disk.len());
    lemma_walk_extends(m, m2, parts, parts.len());
}

} // verus!
