//! What writing piece by piece promises.
use crate::addr::MaybeU64;
use crate::error::{Fault, XHFSError};
use crate::utils::components;
use crate::xhfs::dir_laws::{lemma_extends_self, lemma_extends_trans};
use crate::xhfs::ds::{INodeKind, Node};
use crate::xhfs::file_laws::lemma_appended;
use crate::xhfs::image::Image;
use crate::xhfs::inode_laws::{live, node_of};
use crate::xhfs::laws::{extents, same_volume};
use crate::xhfs::node_laws::{overwriting_keeps_the_inode, writing_makes_a_new_inode};
use crate::xhfs::op_laws::{
    extends, grounded, lemma_extends_node, lemma_node_ok, lemma_walk_extends, lemma_walk_live,
    lemma_written, writable,
};
use crate::xhfs::sound::{ext, same_content};
use crate::xhfs::stream::{copy_ends, noted_time, stream_copied, total_len, Pipe};
use crate::xhfs::tree::WriteOption;
use vstd::prelude::*;

verus! {

/// The bytes of the pieces from the `k`th on, up to the first empty one.
pub open spec fn taken_bytes(pieces: Seq<Seq<u8>>, k: int) -> Seq<u8>
    decreases pieces.len() - k,
{
    if k >= pieces.len() || pieces[k].len() == 0 {
        Seq::empty()
    } else {
        pieces[k] + taken_bytes(pieces, k + 1)
    }
}

/// A file is being written: the path leads to it, and the writer, if it knows an inode, knows
/// that of the file.
pub open spec fn being_written(m: Image, path: Seq<char>, inode: Option<Node>) -> bool {
    &&& grounded(m)
    &&& m.lookup(path) is Ok
    &&& m.lookup(path)->Ok_0.kind is File
    &&& inode is Some ==> inode->0 == m.lookup(path)->Ok_0
}

/// Adding one piece to a file that is being written.
pub proof fn lemma_push_piece(m: Image, path: Seq<char>, inode: Option<Node>, piece: Seq<u8>, t: u64)
    requires
        being_written(m, path, inode),
        m.push_piece(path, inode, piece, t).1 is Ok,
    ensures
        ({
            let (m2, r) = m.push_piece(path, inode, piece, t);
            &&& being_written(m2, path, Some(r->Ok_0))
            &&& m.fread(path) is Ok
            &&& m2.fread(path) == Ok::<_, XHFSError>(m.fread(path)->Ok_0 + piece)
            &&& same_volume(m, m2)
            &&& m2.lookup(path)->Ok_0.inumber == m.lookup(path)->Ok_0.inumber
            &&& forall|n: u64| #[trigger]
                live(m, n) && n != m.lookup(path)->Ok_0.inumber ==> live(m2, n) && node_of(m2, n)
                    == node_of(m, n) && same_content(m, m2, ext(m, n))
        }),
{
    let parts = components(path);
    lemma_walk_live(m, parts, parts.len());
    let node = m.lookup(path)->Ok_0;
    let m2 = m.push_piece(path, inode, piece, t).0;
    lemma_appended(m, node, piece, t, m.disk.len());
    lemma_walk_extends(m, m2, parts, parts.len());
    assert forall|n: u64| #[trigger] live(m, n) && n != node.inumber implies live(m2, n)
        && node_of(m2, n) == node_of(m, n) && same_content(m, m2, ext(m, n)) by {
        lemma_extends_node(m, m2, n);
        assert(m2.inode(n) == m.inode(n));
    }
}

/// Adding pieces to a file that is being written.
proof fn lemma_push_pieces(
    m: Image,
    path: Seq<char>,
    inode: Option<Node>,
    pieces: Seq<Seq<u8>>,
    k: int,
    t: u64,
)
    requires
        0 <= k,
        being_written(m, path, inode),
        m.push_pieces(path, inode, pieces, k, t).1 is Ok,
        m.fread(path) is Ok,
    ensures
        grounded(m.push_pieces(path, inode, pieces, k, t).0),
        same_volume(m, m.push_pieces(path, inode, pieces, k, t).0),
        m.push_pieces(path, inode, pieces, k, t).0.fread(path) == Ok::<_, XHFSError>(
            m.fread(path)->Ok_0 + taken_bytes(pieces, k),
        ),
    decreases pieces.len() - k,
{
    if k >= pieces.len() || pieces[k].len() == 0 {
        assert(m.fread(path)->Ok_0 + Seq::<u8>::empty() =~= m.fread(path)->Ok_0);
    } else {
        lemma_push_piece(m, path, inode, pieces[k], t);
        let (m2, r) = m.push_piece(path, inode, pieces[k], t);
        lemma_push_pieces(m2, path, Some(r->Ok_0), pieces, k + 1, t);
        assert((m.fread(path)->Ok_0 + pieces[k]) + taken_bytes(pieces, k + 1) =~= m.fread(
            path,
        )->Ok_0 + (pieces[k] + taken_bytes(pieces, k + 1)));
    }
}

/// A file that is written piece by piece reads as the pieces put together.
pub proof fn written_pieces_read_back(
    m: Image,
    path: Seq<char>,
    pieces: Seq<Seq<u8>>,
    opt: WriteOption,
    now: u64,
)
    requires
        grounded(m),
        writable(m, path),
        m.write_pieces(path, pieces, opt, now).1 is Ok,
    ensures
        m.write_pieces(path, pieces, opt, now).0.fread(path) == Ok::<_, XHFSError>(
            taken_bytes(pieces, 0),
        ),
        grounded(m.write_pieces(path, pieces, opt, now).0),
        same_volume(m, m.write_pieces(path, pieces, opt, now).0),
{
    let none = Seq::<u8>::empty();
    let m1 = m.blob_write(path, none, INodeKind::File, opt, now).0;
    lemma_written(m, path, none, INodeKind::File, opt, now);
    lemma_push_pieces(m1, path, None, pieces, 0, noted_time(opt, now));
    assert(none + taken_bytes(pieces, 0) =~= taken_bytes(pieces, 0));
}

/// What adding pieces changes of a file that is being written, and of others.
proof fn lemma_pushed_node(
    m: Image,
    path: Seq<char>,
    inode: Option<Node>,
    pieces: Seq<Seq<u8>>,
    k: int,
    t: u64,
)
    requires
        0 <= k,
        being_written(m, path, inode),
        m.push_pieces(path, inode, pieces, k, t).1 is Ok,
    ensures
        ({
            let m2 = m.push_pieces(path, inode, pieces, k, t).0;
            let old = m.lookup(path)->Ok_0;
            let new = m2.lookup(path)->Ok_0;
            let taken = taken_bytes(pieces, k);
            &&& m2.lookup(path) is Ok
            &&& old.total_file_size + taken.len() <= u64::MAX
            &&& new == (Node {
                total_file_size: (old.total_file_size + taken.len()) as u64,
                extent_addr: new.extent_addr,
                mtime: if taken.len() > 0 {
                    t
                } else {
                    old.mtime
                },
                ..old
            })
            &&& forall|n: u64| #[trigger]
                live(m, n) && n != old.inumber ==> live(m2, n) && node_of(m2, n) == node_of(m, n)
                    && same_content(m, m2, ext(m, n))
        }),
    decreases pieces.len() - k,
{
    let old = m.lookup(path)->Ok_0;
    let parts = components(path);
    lemma_walk_live(m, parts, parts.len());
    if k >= pieces.len() || pieces[k].len() == 0 {
        assert forall|n: u64| #[trigger] live(m, n) implies same_content(m, m, ext(m, n)) by {
            lemma_node_ok(m, n);
        }
    } else {
        lemma_push_piece(m, path, inode, pieces[k], t);
        lemma_appended(m, old, pieces[k], t, m.disk.len());
        let (m1, r) = m.push_piece(path, inode, pieces[k], t);
        lemma_walk_extends(m, m1, parts, parts.len());
        lemma_pushed_node(m1, path, Some(r->Ok_0), pieces, k + 1, t);
        let m2 = m.push_pieces(path, inode, pieces, k, t).0;
        assert forall|n: u64| #[trigger] live(m, n) && n != old.inumber implies live(m2, n)
            && node_of(m2, n) == node_of(m, n) && same_content(m, m2, ext(m, n)) by {
            assert(live(m1, n));
        }
    }
}

/// Writing a file piece by piece leaves it with the size of the pieces and the wished time of
/// change, or the present if none is wished. A file that was there keeps its number, its links and
/// its time of making; one that was not has one link and was made at the present time.
pub proof fn written_pieces_keep_the_inode(
    m: Image,
    path: Seq<char>,
    pieces: Seq<Seq<u8>>,
    opt: WriteOption,
    now: u64,
)
    requires
        grounded(m),
        writable(m, path),
        m.write_pieces(path, pieces, opt, now).1 is Ok,
    ensures
        ({
            let m2 = m.write_pieces(path, pieces, opt, now).0;
            let new = m2.lookup(path)->Ok_0;
            &&& m2.lookup(path) is Ok
            &&& new.kind is File
            &&& new.total_file_size == taken_bytes(pieces, 0).len()
            &&& taken_bytes(pieces, 0).len() > 0 ==> new.mtime == if opt.modified is Some {
                opt.modified->0
            } else {
                now
            }
            &&& match m.lookup(path) {
                Ok(old) => new.inumber == old.inumber && new.nlink == old.nlink && new.ctime
                    == old.ctime,
                Err(_) => !live(m, new.inumber) && new.nlink == 1 && new.ctime == now,
            }
        }),
{
    let none = Seq::<u8>::empty();
    let m1 = m.blob_write(path, none, INodeKind::File, opt, now).0;
    lemma_written(m, path, none, INodeKind::File, opt, now);
    if m.lookup(path) is Ok {
        overwriting_keeps_the_inode(m, path, none, INodeKind::File, opt, now);
    } else {
        writing_makes_a_new_inode(m, path, none, INodeKind::File, opt, now);
    }
    lemma_pushed_node(m1, path, None, pieces, 0, noted_time(opt, now));
}

/// Writing a file piece by piece leaves every other file as it is.
pub proof fn written_pieces_leave_other_files(
    m: Image,
    path: Seq<char>,
    pieces: Seq<Seq<u8>>,
    opt: WriteOption,
    now: u64,
    other: Seq<char>,
)
    requires
        grounded(m),
        writable(m, path),
        m.write_pieces(path, pieces, opt, now).1 is Ok,
        m.lookup(other) is Ok,
        m.lookup(other)->Ok_0.kind is File,
        m.lookup(path) is Ok ==> m.lookup(path)->Ok_0.inumber != m.lookup(other)->Ok_0.inumber,
    ensures
        m.write_pieces(path, pieces, opt, now).0.lookup(other) == m.lookup(other),
        m.write_pieces(path, pieces, opt, now).0.fread(other) == m.fread(other),
{
    let none = Seq::<u8>::empty();
    let m1 = m.blob_write(path, none, INodeKind::File, opt, now).0;
    let m2 = m.write_pieces(path, pieces, opt, now).0;
    let t = noted_time(opt, now);
    lemma_written(m, path, none, INodeKind::File, opt, now);
    let parts = components(other);
    lemma_walk_live(m, parts, parts.len());
    let n = m.lookup(other)->Ok_0.inumber;
    assert(live(m, n));
    lemma_walk_extends(m, m1, parts, parts.len());
    assert(n != m1.lookup(path)->Ok_0.inumber);
    lemma_pushed_node(m1, path, None, pieces, 0, t);
    lemma_pushed_extends(m1, path, None, pieces, 0, t);
    lemma_walk_extends(m1, m2, parts, parts.len());
    assert(live(m1, n));
}

proof fn lemma_pushed_extends(
    m: Image,
    path: Seq<char>,
    inode: Option<Node>,
    pieces: Seq<Seq<u8>>,
    k: int,
    t: u64,
)
    requires
        0 <= k,
        being_written(m, path, inode),
        m.push_pieces(path, inode, pieces, k, t).1 is Ok,
    ensures
        extends(m, m.push_pieces(path, inode, pieces, k, t).0),
    decreases pieces.len() - k,
{
    if k >= pieces.len() || pieces[k].len() == 0 {
        lemma_extends_self(m);
    } else {
        let old = m.lookup(path)->Ok_0;
        let parts = components(path);
        lemma_walk_live(m, parts, parts.len());
        lemma_push_piece(m, path, inode, pieces[k], t);
        lemma_appended(m, old, pieces[k], t, m.disk.len());
        let (m1, r) = m.push_piece(path, inode, pieces[k], t);
        lemma_pushed_extends(m1, path, Some(r->Ok_0), pieces, k + 1, t);
        lemma_extends_trans(m, m1, m.push_pieces(path, inode, pieces, k, t).0);
    }
}

/// Appending to a file leaves every other file as it is, and every path leading where it led.
pub proof fn appending_leaves_other_files(
    m: Image,
    path: Seq<char>,
    data: Seq<u8>,
    t: u64,
    other: Seq<char>,
)
    requires
        grounded(m),
        m.lookup(path) is Ok,
        m.lookup(path)->Ok_0.kind is File,
        m.fappend(path, data, t).1 is Ok,
        m.lookup(other) is Ok,
        m.lookup(other)->Ok_0.inumber != m.lookup(path)->Ok_0.inumber,
    ensures
        m.fappend(path, data, t).0.lookup(other) == m.lookup(other),
        m.lookup(other)->Ok_0.kind is File ==> m.fappend(path, data, t).0.fread(other) == m.fread(
            other,
        ),
{
    let parts = components(path);
    let op = components(other);
    let m2 = m.fappend(path, data, t).0;
    lemma_walk_live(m, parts, parts.len());
    lemma_walk_live(m, op, op.len());
    let node = m.lookup(path)->Ok_0;
    lemma_appended(m, node, data, t, m.disk.len());
    lemma_walk_extends(m, m2, op, op.len());
    let n = m.lookup(other)->Ok_0.inumber;
    assert(live(m, n));
    assert(m2.inode(n) == m.inode(n));
    assert(same_content(m, m2, ext(m, n)));
}

/// Following the extents from `addr` on with some fuel leads to `x` with fuel `y`.
pub open spec fn leads_to(m: Image, addr: MaybeU64, fuel: nat, x: MaybeU64, y: nat) -> bool
    decreases fuel,
{
    ||| addr == x && fuel == y
    ||| {
        &&& addr.raw != 0
        &&& fuel > 0
        &&& m.extent(addr.raw) is Ok
        &&& leads_to(m, m.extent(addr.raw)->Ok_0.next, (fuel - 1) as nat, x, y)
    }
}

/// Where a chain leads, one step further.
proof fn lemma_leads_on(m: Image, addr: MaybeU64, fuel: nat, x: MaybeU64, y: nat)
    requires
        leads_to(m, addr, fuel, x, y),
        x.raw != 0,
        y > 0,
        m.extent(x.raw) is Ok,
    ensures
        leads_to(m, addr, fuel, m.extent(x.raw)->Ok_0.next, (y - 1) as nat),
    decreases fuel,
{
    if addr == x && fuel == y {
        let next = m.extent(x.raw)->Ok_0.next;
        assert(leads_to(m, next, (fuel - 1) as nat, next, (y - 1) as nat));
    } else {
        lemma_leads_on(m, m.extent(addr.raw)->Ok_0.next, (fuel - 1) as nat, x, y);
    }
}

/// The rest of a chain whose extents are the same on both disks is the same.
proof fn lemma_same_rest(a: Image, b: Image, addr: MaybeU64, fuel: nat, x: MaybeU64, y: nat)
    requires
        leads_to(a, addr, fuel, x, y),
        a.chain(addr, fuel) is Ok,
        b.chain(addr, fuel) is Ok,
        extents(b, addr, fuel) == extents(a, addr, fuel),
    ensures
        leads_to(b, addr, fuel, x, y),
        a.chain(x, y) is Ok,
        b.chain(x, y) == a.chain(x, y),
    decreases fuel,
{
    if addr == x && fuel == y {
        lemma_same_chain(a, b, addr, fuel);
    } else {
        let c = a.extent(addr.raw)->Ok_0;
        let d = b.extent(addr.raw)->Ok_0;
        let ea = extents(a, addr, fuel);
        let eb = extents(b, addr, fuel);
        assert(ea[0] == c);
        assert(eb[0] == d);
        assert(ea.drop_first() =~= extents(a, c.next, (fuel - 1) as nat));
        assert(eb.drop_first() =~= extents(b, d.next, (fuel - 1) as nat));
        lemma_same_rest(a, b, c.next, (fuel - 1) as nat, x, y);
    }
}

/// A chain whose extents are the same on both disks is the same.
proof fn lemma_same_chain(a: Image, b: Image, addr: MaybeU64, fuel: nat)
    requires
        a.chain(addr, fuel) is Ok,
        b.chain(addr, fuel) is Ok,
        extents(b, addr, fuel) == extents(a, addr, fuel),
    ensures
        b.chain(addr, fuel) == a.chain(addr, fuel),
    decreases fuel,
{
    if addr.raw != 0 {
        let c = a.extent(addr.raw)->Ok_0;
        let d = b.extent(addr.raw)->Ok_0;
        let ea = extents(a, addr, fuel);
        let eb = extents(b, addr, fuel);
        assert(ea[0] == c);
        assert(eb[0] == d);
        assert(ea.drop_first() =~= extents(a, c.next, (fuel - 1) as nat));
        assert(eb.drop_first() =~= extents(b, d.next, (fuel - 1) as nat));
        lemma_same_chain(a, b, c.next, (fuel - 1) as nat);
    }
}

/// Filling the buffer of a stream stays on its chain and loses nothing.
proof fn lemma_fill_on(m: Image, addr: MaybeU64, fuel: nat, p: Pipe)
    requires
        leads_to(m, addr, fuel, p.addr, p.fuel),
        m.pending(p) is Ok,
    ensures
        m.fill(p) is Ok,
        m.pending(m.fill(p)->Ok_0) == m.pending(p),
        leads_to(m, addr, fuel, m.fill(p)->Ok_0.addr, m.fill(p)->Ok_0.fuel),
        m.fill(p)->Ok_0.size == p.size,
        m.fill(p)->Ok_0.buffer.len() < p.size ==> m.fill(p)->Ok_0.addr.raw == 0,
    decreases p.fuel,
{
    if !(p.buffer.len() >= p.size || p.addr.raw == 0) {
        let c = m.extent(p.addr.raw)->Ok_0;
        let q = Pipe { addr: c.next, buffer: p.buffer + c.data, fuel: (p.fuel - 1) as nat, ..p };
        let rest = m.chain(c.next, (p.fuel - 1) as nat)->Ok_0;
        assert(p.buffer + (c.data + rest) =~= (p.buffer + c.data) + rest);
        lemma_leads_on(m, addr, fuel, p.addr, p.fuel);
        lemma_fill_on(m, addr, fuel, q);
    }
}

/// Pulling a piece from a stream takes it from the front of what the stream has to hand out.
proof fn lemma_pull(m: Image, addr: MaybeU64, fuel: nat, p: Pipe)
    requires
        p.size > 0,
        leads_to(m, addr, fuel, p.addr, p.fuel),
        m.pending(p) is Ok,
    ensures
        m.pull(p) is Ok,
        ({
            let (piece, q) = m.pull(p)->Ok_0;
            &&& leads_to(m, addr, fuel, q.addr, q.fuel)
            &&& q.size == p.size
            &&& m.pending(q) is Ok
            &&& match piece {
                Some(x) => m.pending(p)->Ok_0 == x + m.pending(q)->Ok_0,
                None => m.pending(p)->Ok_0.len() == 0,
            }
        }),
{
    lemma_fill_on(m, addr, fuel, p);
    let q = m.fill(p)->Ok_0;
    let rest = m.chain(q.addr, q.fuel)->Ok_0;
    if q.buffer.len() >= q.size {
        let x = q.buffer.subrange(0, q.size as int);
        let y = q.buffer.subrange(q.size as int, q.buffer.len() as int);
        assert(q.buffer + rest =~= x + (y + rest));
    } else if q.buffer.len() > 0 {
        assert(q.buffer + rest =~= q.buffer + (Seq::<u8>::empty() + rest));
    }
}

/// The state of a copy: the destination has what was handed out, the stream has the rest, and
/// the source is as it was.
spec fn copying(
    start: Image,
    m: Image,
    dest: Seq<char>,
    inode: Option<Node>,
    source: Node,
    q: Pipe,
    data: Seq<u8>,
    fuel: nat,
) -> bool {
    &&& being_written(m, dest, inode)
    &&& same_volume(start, m)
    &&& m.disk.len() == fuel
    &&& m.lookup(dest)->Ok_0.inumber != source.inumber
    &&& live(m, source.inumber)
    &&& node_of(m, source.inumber) == source
    &&& q.size > 0
    &&& m.content(source.extent_addr) is Ok
    &&& leads_to(m, source.extent_addr, fuel, q.addr, q.fuel)
    &&& m.pending(q) is Ok
    &&& m.fread(dest) is Ok
    &&& data == m.fread(dest)->Ok_0 + m.pending(q)->Ok_0
}

/// One more piece is copied.
proof fn lemma_copy_step(
    start: Image,
    m: Image,
    dest: Seq<char>,
    inode: Option<Node>,
    source: Node,
    q: Pipe,
    data: Seq<u8>,
    fuel: nat,
    t: u64,
)
    requires
        copying(start, m, dest, inode, source, q, data, fuel),
    ensures
        m.pull(q) is Ok,
        m.pull(q)->Ok_0.0 is None ==> m.fread(dest) == Ok::<_, XHFSError>(data),
        m.pull(q)->Ok_0.0 is None ==> copying(
            start,
            m,
            dest,
            inode,
            source,
            m.pull(q)->Ok_0.1,
            data,
            fuel,
        ),
        m.pull(q)->Ok_0.0 is Some && m.push_piece(dest, inode, m.pull(q)->Ok_0.0->0, t).1 is Ok
            ==> copying(
            start,
            m.push_piece(dest, inode, m.pull(q)->Ok_0.0->0, t).0,
            dest,
            Some(m.push_piece(dest, inode, m.pull(q)->Ok_0.0->0, t).1->Ok_0),
            source,
            m.pull(q)->Ok_0.1,
            data,
            fuel,
        ),
{
    reveal(Image::content);
    lemma_pull(m, source.extent_addr, fuel, q);
    let (piece, q2) = m.pull(q)->Ok_0;
    match piece {
        None => {
            assert(m.pending(q)->Ok_0 =~= Seq::empty());
            assert(m.fread(dest)->Ok_0 + Seq::<u8>::empty() =~= m.fread(dest)->Ok_0);
            assert(m.pending(q2)->Ok_0.len() == 0) by {
                lemma_fill_on(m, source.extent_addr, fuel, q);
            }
            assert(m.pending(q2)->Ok_0 =~= m.pending(q)->Ok_0);
        },
        Some(x) => {
            if m.push_piece(dest, inode, x, t).1 is Ok {
                lemma_push_piece(m, dest, inode, x, t);
                let m2 = m.push_piece(dest, inode, x, t).0;
                assert(same_content(m, m2, ext(m, source.inumber)));
                lemma_same_rest(m, m2, source.extent_addr, fuel, q2.addr, q2.fuel);
                assert(m.fread(dest)->Ok_0 + (x + m.pending(q2)->Ok_0) =~= (m.fread(dest)->Ok_0
                    + x) + m.pending(q2)->Ok_0);
            }
        },
    }
}

/// The state of a copy after `n` pieces.
proof fn lemma_copied(
    start: Image,
    m: Image,
    dest: Seq<char>,
    source: Node,
    p: Pipe,
    data: Seq<u8>,
    t: u64,
    n: nat,
)
    requires
        copying(start, m, dest, None, source, p, data, m.disk.len()),
        m.copied(p, dest, t, n).1 is Ok,
    ensures
        ({
            let (m2, r) = m.copied(p, dest, t, n);
            let (q, inode) = r->Ok_0;
            copying(start, m2, dest, inode, source, q, data, m.disk.len())
        }),
    decreases n,
{
    if n > 0 {
        lemma_copied(start, m, dest, source, p, data, t, (n - 1) as nat);
        let (m2, r) = m.copied(p, dest, t, (n - 1) as nat);
        let (q, inode) = r->Ok_0;
        lemma_copy_step(start, m2, dest, inode, source, q, data, m.disk.len(), t);
    }
}

/// A file that is copied piece by piece has the content of the file that it was copied from.
pub proof fn streamed_copy_has_same_content(
    m: Image,
    src: Seq<char>,
    dest: Seq<char>,
    size: nat,
    opt: WriteOption,
    now: u64,
    m2: Image,
)
    requires
        grounded(m),
        writable(m, dest),
        size > 0,
        m.lookup(src) is Ok,
        m.lookup(src)->Ok_0.kind is File,
        m.lookup(dest) is Ok ==> m.lookup(dest)->Ok_0.inumber != m.lookup(src)->Ok_0.inumber,
        stream_copied(m, src, dest, size, opt, now, m2, Ok(())),
    ensures
        m.fread(src) is Ok,
        m2.fread(dest) == m.fread(src),
        grounded(m2),
        same_volume(m, m2),
{
    reveal(Image::content);
    let source = m.lookup(src)->Ok_0;
    let parts = components(src);
    lemma_walk_live(m, parts, parts.len());
    let none = Seq::<u8>::empty();
    let m1 = m.blob_write(dest, none, INodeKind::File, opt, now).0;
    lemma_written(m, dest, none, INodeKind::File, opt, now);
    let p = m.pipe(source.extent_addr, size);
    let t = noted_time(opt, now);
    assert(live(m, source.inumber));
    lemma_node_ok(m, source.inumber);
    assert(same_content(m, m1, ext(m, source.inumber)));
    let data = m.fread(src)->Ok_0;
    assert(leads_to(m1, source.extent_addr, m1.disk.len(), p.addr, p.fuel));
    assert(none + (none + data) =~= data);
    assert(copying(m, m1, dest, None, source, p, data, m1.disk.len()));
    let n = choose|n: nat| copy_ends(#[trigger] m1.copied(p, dest, t, n), m2, Ok(()));
    let (m3, r3) = m1.copied(p, dest, t, n);
    lemma_copied(m, m1, dest, source, p, data, t, n);
    let (q, inode) = r3->Ok_0;
    lemma_copy_step(m, m3, dest, inode, source, q, data, m1.disk.len(), t);
}

/// What copying pieces changes of the file that they are added to, and of others.
proof fn lemma_copied_node(
    start: Image,
    m: Image,
    dest: Seq<char>,
    source: Node,
    p: Pipe,
    data: Seq<u8>,
    t: u64,
    n: nat,
)
    requires
        copying(start, m, dest, None, source, p, data, m.disk.len()),
        m.copied(p, dest, t, n).1 is Ok,
    ensures
        ({
            let m2 = m.copied(p, dest, t, n).0;
            let old = m.lookup(dest)->Ok_0;
            let new = m2.lookup(dest)->Ok_0;
            let added = m2.fread(dest)->Ok_0.len() - m.fread(dest)->Ok_0.len();
            &&& added >= 0
            &&& new.total_file_size == old.total_file_size + added
            &&& new == (Node {
                total_file_size: new.total_file_size,
                extent_addr: new.extent_addr,
                mtime: new.mtime,
                ..old
            })
            &&& new.mtime == t || new.mtime == old.mtime && added == 0
            &&& forall|k: u64| #[trigger]
                live(m, k) && k != old.inumber ==> live(m2, k) && node_of(m2, k) == node_of(m, k)
                    && same_content(m, m2, ext(m, k))
        }),
    decreases n,
{
    let old = m.lookup(dest)->Ok_0;
    if n == 0 {
        assert forall|k: u64| #[trigger] live(m, k) implies same_content(m, m, ext(m, k)) by {
            lemma_node_ok(m, k);
        }
    } else {
        let less = (n - 1) as nat;
        lemma_copied(start, m, dest, source, p, data, t, less);
        lemma_copied_node(start, m, dest, source, p, data, t, less);
        let (m1, r) = m.copied(p, dest, t, less);
        let (q, inode) = r->Ok_0;
        lemma_copy_step(start, m1, dest, inode, source, q, data, m.disk.len(), t);
        match m1.pull(q)->Ok_0.0 {
            None => {},
            Some(piece) => {
                let node = m1.lookup(dest)->Ok_0;
                let parts = components(dest);
                lemma_walk_live(m1, parts, parts.len());
                lemma_push_piece(m1, dest, inode, piece, t);
                lemma_appended(m1, node, piece, t, m1.disk.len());
                let m2 = m1.push_piece(dest, inode, piece, t).0;
                lemma_walk_extends(m1, m2, parts, parts.len());
                assert forall|k: u64| #[trigger] live(m, k) && k != old.inumber implies live(m2, k)
                    && node_of(m2, k) == node_of(m, k) && same_content(m, m2, ext(m, k)) by {
                    assert(live(m1, k));
                }
            },
        }
    }
}

/// A file that is copied piece by piece has the size of the file that it was copied from. A file
/// that was at the destination keeps its number, its links and its time of making; one that was
/// not has one link and was made at the present time. The time of change is the wished one, or the
/// present if none is wished. No other file changes.
pub proof fn streamed_copy_keeps_the_inode(
    m: Image,
    src: Seq<char>,
    dest: Seq<char>,
    size: nat,
    opt: WriteOption,
    now: u64,
    m2: Image,
)
    requires
        grounded(m),
        writable(m, dest),
        size > 0,
        m.lookup(src) is Ok,
        m.lookup(src)->Ok_0.kind is File,
        m.lookup(dest) is Ok ==> m.lookup(dest)->Ok_0.inumber != m.lookup(src)->Ok_0.inumber,
        stream_copied(m, src, dest, size, opt, now, m2, Ok(())),
    ensures
        ({
            let new = m2.lookup(dest)->Ok_0;
            let data = m.fread(src)->Ok_0;
            &&& m2.lookup(dest) is Ok
            &&& new.kind is File
            &&& new.total_file_size == data.len()
            &&& opt.modified is None ==> new.mtime == now
            &&& opt.modified is Some && data.len() > 0 ==> new.mtime == opt.modified->0
            &&& match m.lookup(dest) {
                Ok(old) => new.inumber == old.inumber && new.nlink == old.nlink && new.ctime
                    == old.ctime,
                Err(_) => !live(m, new.inumber) && new.nlink == 1 && new.ctime == now,
            }
            &&& forall|k: u64| #[trigger]
                live(m, k) && k != new.inumber && !(node_of(m, k).kind is Directory) ==> live(m2, k)
                    && node_of(m2, k) == node_of(m, k) && same_content(m, m2, ext(m, k))
        }),
{
    reveal(Image::content);
    let source = m.lookup(src)->Ok_0;
    let parts = components(src);
    lemma_walk_live(m, parts, parts.len());
    let none = Seq::<u8>::empty();
    let m1 = m.blob_write(dest, none, INodeKind::File, opt, now).0;
    lemma_written(m, dest, none, INodeKind::File, opt, now);
    if m.lookup(dest) is Ok {
        overwriting_keeps_the_inode(m, dest, none, INodeKind::File, opt, now);
    } else {
        writing_makes_a_new_inode(m, dest, none, INodeKind::File, opt, now);
    }
    let p = m.pipe(source.extent_addr, size);
    let t = noted_time(opt, now);
    assert(live(m, source.inumber));
    lemma_node_ok(m, source.inumber);
    assert(same_content(m, m1, ext(m, source.inumber)));
    let data = m.fread(src)->Ok_0;
    assert(leads_to(m1, source.extent_addr, m1.disk.len(), p.addr, p.fuel));
    assert(none + (none + data) =~= data);
    assert(copying(m, m1, dest, None, source, p, data, m1.disk.len()));
    let n = choose|n: nat| copy_ends(#[trigger] m1.copied(p, dest, t, n), m2, Ok(()));
    let (m3, r3) = m1.copied(p, dest, t, n);
    lemma_copied(m, m1, dest, source, p, data, t, n);
    lemma_copied_node(m, m1, dest, source, p, data, t, n);
    let (q, inode) = r3->Ok_0;
    lemma_copy_step(m, m3, dest, inode, source, q, data, m1.disk.len(), t);
    let id = m2.lookup(dest)->Ok_0.inumber;
    assert forall|k: u64| #[trigger]
        live(m, k) && k != id && !(node_of(m, k).kind is Directory) implies live(m2, k) && node_of(
        m2,
        k,
    ) == node_of(m, k) && same_content(m, m2, ext(m, k)) by {
        assert(live(m1, k) && node_of(m1, k) == node_of(m, k));
        assert(same_content(m, m1, ext(m, k)));
        assert(same_content(m1, m2, ext(m1, k)));
    }
}

/// Bytes of pieces that are none of them empty count as many as the pieces have.
proof fn lemma_total(pieces: Seq<Seq<u8>>, k: int)
    requires
        0 <= k <= pieces.len(),
        forall|i: int| 0 <= i < pieces.len() ==> (#[trigger] pieces[i]).len() > 0,
    ensures
        total_len(pieces) == total_len(pieces.subrange(0, k)) + taken_bytes(pieces, k).len(),
    decreases pieces.len() - k,
{
    if k < pieces.len() {
        lemma_total(pieces, k + 1);
        assert(pieces.subrange(0, k + 1).drop_last() =~= pieces.subrange(0, k));
        assert(pieces.subrange(0, k + 1).last() == pieces[k]);
    } else {
        assert(pieces.subrange(0, k) =~= pieces);
    }
}

/// Pieces are written if they hold fewer bytes than are free. Else they are refused with what they
/// hold and what is free, and nothing changes.
pub proof fn pieces_are_written_where_there_is_room(
    m: Image,
    path: Seq<char>,
    pieces: Seq<Seq<u8>>,
    opt: WriteOption,
    now: u64,
)
    requires
        m.remaining() is Ok,
        0 <= m.remaining()->Ok_0 <= u64::MAX,
        taken_bytes(pieces, 0).len() <= u64::MAX,
        forall|i: int| 0 <= i < pieces.len() ==> (#[trigger] pieces[i]).len() > 0,
    ensures
        taken_bytes(pieces, 0).len() < m.remaining()->Ok_0 ==> m.write_pieces_checked(
            path,
            pieces,
            opt,
            now,
        ) == m.write_pieces(path, pieces, opt, now),
        taken_bytes(pieces, 0).len() >= m.remaining()->Ok_0 ==> m.write_pieces_checked(
            path,
            pieces,
            opt,
            now,
        ) == (
            m,
            Err::<(), _>(
                XHFSError::Error {
                    err: Fault::InsufficientSpace {
                        size: taken_bytes(pieces, 0).len() as u64,
                        remaining: m.remaining()->Ok_0 as u64,
                    },
                },
            ),
        ),
{
    lemma_total(pieces, 0);
    assert(pieces.subrange(0, 0) =~= Seq::empty());
}

} // verus!
