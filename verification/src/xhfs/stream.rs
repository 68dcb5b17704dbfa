//! Reading and writing files piece by piece.
use crate::addr::MaybeU64;
use crate::codec::{copy_range, push_bytes};
use crate::device::Device;
use crate::error::{Fault, XHFSError};
use crate::xhfs::ds::{INode, INodeKind, Node};
use crate::xhfs::image::Image;
use crate::xhfs::tree::WriteOption;
use crate::xhfs::XHFS;
use vstd::prelude::*;
use vstd::string::*;

verus! {

/// Where a stream stands in a content.
pub struct ExtentStream {
    /// The extent that is read next.
    pub addr: MaybeU64,
    /// Number of bytes of a piece; the last one may be shorter.
    pub chunk_size: usize,
    /// Bytes that were read and not handed out yet.
    pub buffer: Vec<u8>,
    /// Number of extents that may still be read.
    pub fuel: u64,
}

/// The value of a stream.
pub struct Pipe {
    pub addr: MaybeU64,
    pub size: nat,
    pub buffer: Seq<u8>,
    pub fuel: nat,
}

impl View for ExtentStream {
    type V = Pipe;

    open spec fn view(&self) -> Pipe {
        Pipe {
            addr: self.addr,
            size: self.chunk_size as nat,
            buffer: self.buffer@,
            fuel: self.fuel as nat,
        }
    }
}

/// What is written of a file that comes in pieces.
pub struct StreamWriter {
    pub path: String,
    pub opt: WriteOption,
    /// The inode that pieces are added to, once the first was.
    pub inode: Option<INode>,
}

/// A stream has gone on: it has read an extent or handed out of its buffer.
pub open spec fn advanced(p: Pipe, q: Pipe) -> bool {
    q.fuel < p.fuel || (q.fuel == p.fuel && q.buffer.len() < p.buffer.len())
}

/// The inode of a writer, by its value.
pub open spec fn opt_node(n: Option<INode>) -> Option<Node> {
    match n {
        Some(i) => Some(i@),
        None => None,
    }
}

/// The time that a write notes.
pub open spec fn noted_time(opt: WriteOption, now: u64) -> u64 {
    match opt.modified {
        Some(t) => t,
        None => now,
    }
}

/// The bytes of pieces.
pub open spec fn piece_views(v: Seq<Vec<u8>>) -> Seq<Seq<u8>> {
    Seq::new(v.len(), |i: int| v[i]@)
}

/// Total size of pieces.
pub open spec fn total_len(chunks: Seq<Seq<u8>>) -> nat
    decreases chunks.len(),
{
    if chunks.len() == 0 {
        0
    } else {
        total_len(chunks.drop_last()) + chunks.last().len()
    }
}

/// A number, but no more than 64 bits hold.
pub open spec fn capped(n: nat) -> u64 {
    if n > u64::MAX {
        u64::MAX
    } else {
        n as u64
    }
}

impl Image {
    /// Reads extents until a whole piece is there or the content ends.
    pub open spec fn fill(self, p: Pipe) -> Result<Pipe, XHFSError>
        decreases p.fuel,
    {
        if p.buffer.len() >= p.size || p.addr.raw == 0 {
            Ok(p)
        } else if p.fuel == 0 {
            Err(XHFSError::Error { err: Fault::ExtentLoop })
        } else {
            match self.extent(p.addr.raw) {
                Err(e) => Err(e),
                Ok(c) => self.fill(
                    Pipe {
                        addr: c.next,
                        buffer: p.buffer + c.data,
                        fuel: (p.fuel - 1) as nat,
                        ..p
                    },
                ),
            }
        }
    }

    /// The next piece of a stream and where the stream stands then.
    pub open spec fn pull(self, p: Pipe) -> Result<(Option<Seq<u8>>, Pipe), XHFSError> {
        match self.fill(p) {
            Err(e) => Err(e),
            Ok(q) => if q.buffer.len() >= q.size {
                Ok(
                    (
                        Some(q.buffer.subrange(0, q.size as int)),
                        Pipe { buffer: q.buffer.subrange(q.size as int, q.buffer.len() as int), ..q },
                    ),
                )
            } else if q.buffer.len() > 0 {
                Ok((Some(q.buffer), Pipe { buffer: Seq::empty(), ..q }))
            } else {
                Ok((None, q))
            },
        }
    }

    /// What a stream has still to hand out.
    pub open spec fn pending(self, p: Pipe) -> Result<Seq<u8>, XHFSError> {
        match self.chain(p.addr, p.fuel) {
            Err(e) => Err(e),
            Ok(rest) => Ok(p.buffer + rest),
        }
    }

    /// A stream at the start of a content.
    pub open spec fn pipe(self, addr: MaybeU64, size: nat) -> Pipe {
        Pipe { addr, size, buffer: Seq::empty(), fuel: self.disk.len() }
    }

    /// Adds a piece to a file that is being written.
    pub open spec fn push_piece(
        self,
        path: Seq<char>,
        inode: Option<Node>,
        piece: Seq<u8>,
        t: u64,
    ) -> (Image, Result<Node, XHFSError>) {
        match inode {
            None => {
                let (m, r) = self.fappend(path, piece, t);
                match r {
                    Err(e) => (m, Err(e)),
                    Ok(()) => (m, m.lookup(path)),
                }
            },
            Some(node) => self.append_inode(node, piece, t, self.disk.len()),
        }
    }

    /// Adds pieces from the `k`th on, up to the first empty one.
    pub open spec fn push_pieces(
        self,
        path: Seq<char>,
        inode: Option<Node>,
        chunks: Seq<Seq<u8>>,
        k: int,
        t: u64,
    ) -> (Image, Result<(), XHFSError>)
        decreases chunks.len() - k,
    {
        if k >= chunks.len() || chunks[k].len() == 0 {
            (self, Ok(()))
        } else {
            let (m, r) = self.push_piece(path, inode, chunks[k], t);
            match r {
                Err(e) => (m, Err(e)),
                Ok(node) => m.push_pieces(path, Some(node), chunks, k + 1, t),
            }
        }
    }

    /// Writes a file that comes in pieces: an empty file first, then piece by piece.
    pub open spec fn write_pieces(
        self,
        path: Seq<char>,
        chunks: Seq<Seq<u8>>,
        opt: WriteOption,
        now: u64,
    ) -> (Image, Result<(), XHFSError>) {
        let (m, r) = self.blob_write(path, Seq::empty(), INodeKind::File, opt, now);
        match r {
            Err(e) => (m, Err(e)),
            Ok(()) => m.push_pieces(path, None, chunks, 0, noted_time(opt, now)),
        }
    }

    /// Writes a file that comes in pieces, if there is room for all of it.
    pub open spec fn write_pieces_checked(
        self,
        path: Seq<char>,
        chunks: Seq<Seq<u8>>,
        opt: WriteOption,
        now: u64,
    ) -> (Image, Result<(), XHFSError>) {
        match self.remaining() {
            Err(e) => (self, Err(e)),
            Ok(room) => if total_len(chunks) >= room {
                (
                    self,
                    Err(
                        XHFSError::Error {
                            err: Fault::InsufficientSpace {
                                size: capped(total_len(chunks)),
                                remaining: room as u64,
                            },
                        },
                    ),
                )
            } else {
                self.write_pieces(path, chunks, opt, now)
            },
        }
    }

    /// The disk, the stream and the written inode after `n` pieces were copied; the error that
    /// came up, if one did.
    pub open spec fn copied(
        self,
        p: Pipe,
        path: Seq<char>,
        t: u64,
        n: nat,
    ) -> (Image, Result<(Pipe, Option<Node>), XHFSError>)
        decreases n,
    {
        if n == 0 {
            (self, Ok((p, None)))
        } else {
            let (m, r) = self.copied(p, path, t, (n - 1) as nat);
            match r {
                Err(e) => (m, Err(e)),
                Ok((q, inode)) => match m.pull(q) {
                    Err(e) => (m, Err(e)),
                    Ok((None, q2)) => (m, Ok((q2, inode))),
                    Ok((Some(piece), q2)) => {
                        let (m2, r2) = m.push_piece(path, inode, piece, t);
                        match r2 {
                            Err(e) => (m2, Err(e)),
                            Ok(node) => (m2, Ok((q2, Some(node)))),
                        }
                    },
                },
            }
        }
    }
}

/// Filling the buffer of a stream loses nothing.
proof fn lemma_fill(m: Image, p: Pipe)
    requires
        m.pending(p) is Ok,
    ensures
        m.fill(p) is Ok,
        m.pending(m.fill(p)->Ok_0) == m.pending(p),
        m.fill(p)->Ok_0.size == p.size,
        m.fill(p)->Ok_0.buffer.len() < p.size ==> m.fill(p)->Ok_0.addr.raw == 0,
    decreases p.fuel,
{
    if !(p.buffer.len() >= p.size || p.addr.raw == 0) {
        let c = m.extent(p.addr.raw)->Ok_0;
        let q = Pipe { addr: c.next, buffer: p.buffer + c.data, fuel: (p.fuel - 1) as nat, ..p };
        let rest = m.chain(c.next, (p.fuel - 1) as nat)->Ok_0;
        assert(p.buffer + (c.data + rest) =~= (p.buffer + c.data) + rest);
        lemma_fill(m, q);
    }
}

/// The pieces of a stream, put together, are what it had to hand out. Each but the last has
/// the size that was asked for.
pub proof fn pieces_make_the_content(m: Image, p: Pipe)
    requires
        p.size > 0,
        m.pending(p) is Ok,
    ensures
        m.pull(p) is Ok,
        match m.pull(p)->Ok_0 {
            (Some(piece), q) => {
                &&& 0 < piece.len() <= p.size
                &&& q.size == p.size
                &&& m.pending(q) is Ok
                &&& m.pending(p)->Ok_0 == piece + m.pending(q)->Ok_0
                &&& piece.len() < p.size ==> m.pending(q)->Ok_0.len() == 0
            },
            (None, q) => m.pending(p)->Ok_0.len() == 0,
        },
{
    lemma_fill(m, p);
    let q = m.fill(p)->Ok_0;
    let rest = m.chain(q.addr, q.fuel)->Ok_0;
    if q.buffer.len() >= q.size {
        let piece = q.buffer.subrange(0, q.size as int);
        let left = q.buffer.subrange(q.size as int, q.buffer.len() as int);
        assert(q.buffer + rest =~= piece + (left + rest));
    } else {
        assert(rest =~= Seq::empty());
        assert(q.buffer + rest =~= q.buffer + (Seq::<u8>::empty() + rest));
    }
}

impl<D: Device> XHFS<D> {
    /// A stream of the content at an address, in pieces of `chunk_size` bytes.
    pub fn read_stream_from_extent_stream(&self, addr: MaybeU64, chunk_size: usize) -> (r:
        ExtentStream)
        requires
            self.wf(),
            chunk_size > 0,
        ensures
            r@ == self.image().pipe(addr, chunk_size as nat),
    {
        let r = ExtentStream { addr, chunk_size, buffer: Vec::new(), fuel: self.disk_size() };
        assert(r@.buffer =~= Seq::empty());
        r
    }

    /// The next piece of a stream; none at the end of the content.
    pub fn next_chunk(&self, stream: &mut ExtentStream) -> (r: Result<Option<Vec<u8>>, XHFSError>)
        requires
            self.wf(),
            old(stream).chunk_size > 0,
        ensures
            final(stream).chunk_size == old(stream).chunk_size,
            match r {
                Ok(Some(c)) => c@.len() > 0 && advanced(old(stream)@, final(stream)@),
                _ => true,
            },
            self.tells(r is Ok) ==> match r {
                Ok(Some(c)) => self.image().pull(old(stream)@) == Ok::<_, XHFSError>(
                    (Some(c@), final(stream)@),
                ),
                Ok(None) => self.image().pull(old(stream)@) == Ok::<_, XHFSError>(
                    (None::<Seq<u8>>, final(stream)@),
                ),
                Err(e) => self.image().pull(old(stream)@) == Err::<(Option<Seq<u8>>, Pipe), _>(e),
            },
    {
        let ghost m = self.image();
        let ghost start = stream@;
        while stream.buffer.len() < stream.chunk_size && stream.addr.is_some()
            invariant
                self.wf(),
                m == self.image(),
                start == old(stream)@,
                stream.chunk_size == old(stream).chunk_size,
                stream.fuel < old(stream).fuel || (stream.fuel == old(stream).fuel
                    && stream.buffer@ == old(stream).buffer@),
                self.tells(true) ==> m.fill(start) == m.fill(stream@),
            decreases stream.fuel,
        {
            if stream.fuel == 0 {
                return Err(XHFSError::from_report(Fault::ExtentLoop));
            }
            let extent = match self.read_extent(stream.addr.get()) {
                Ok(x) => x,
                Err(e) => return Err(e),
            };
            push_bytes(&mut stream.buffer, extent.data.as_slice());
            stream.addr = extent.next;
            stream.fuel = stream.fuel - 1;
        }
        let n: usize = stream.buffer.len();
        if n >= stream.chunk_size {
            let size: usize = stream.chunk_size;
            let chunk = copy_range(stream.buffer.as_slice(), 0, size);
            let rest = copy_range(stream.buffer.as_slice(), size, n - size);
            stream.buffer = rest;
            Ok(Some(chunk))
        } else if n > 0 {
            let chunk = copy_range(stream.buffer.as_slice(), 0, n);
            assert(chunk@ =~= stream.buffer@);
            stream.buffer = Vec::new();
            assert(stream.buffer@ =~= Seq::empty());
            Ok(Some(chunk))
        } else {
            Ok(None)
        }
    }

    /// A stream of the content of a file, links followed.
    pub fn fread_stream(&self, path: &str, chunk_size: usize) -> (r: Result<
        ExtentStream,
        XHFSError,
    >)
        requires
            self.wf(),
            chunk_size > 0,
        ensures
            r is Ok ==> r->Ok_0.chunk_size == chunk_size,
            self.tells(r is Ok) ==> match r {
                Ok(s) => self.image().opened(path@, chunk_size as nat) == Ok::<_, XHFSError>(s@),
                Err(e) => self.image().opened(path@, chunk_size as nat) == Err::<Pipe, _>(e),
            },
    {
        let inode = match self.resolve_path(path) {
            Ok(i) => i,
            Err(e) => return Err(e),
        };
        match self.readable_inode(inode) {
            Ok(target) => Ok(self.read_stream_from_extent_stream(target.extent_addr, chunk_size)),
            Err(e) => Err(e),
        }
    }

    /// Starts to write a file that comes in pieces.
    pub fn fwrite_stream_begin(&mut self, path: &str, opt: WriteOption, now: u64) -> (r: Result<
        StreamWriter,
        XHFSError,
    >)
        requires
            old(self).wf(),
        ensures
            Self::kept(old(self), final(self)),
            r is Ok ==> r->Ok_0.path@ == path@ && r->Ok_0.opt == opt && r->Ok_0.inode is None,
            old(self).obeys(r is Ok) ==> ({
                let (m, s) = old(self).image().blob_write(
                    path@,
                    Seq::empty(),
                    INodeKind::File,
                    opt,
                    now,
                );
                final(self).image() == m && (match r {
                    Ok(_) => s == Ok::<(), XHFSError>(()),
                    Err(e) => s == Err::<(), _>(e),
                })
            }),
    {
        let empty: Vec<u8> = Vec::new();
        assert(empty@ =~= Seq::empty());
        match self.fwrite_at(path, empty, opt, now) {
            Ok(u) => {
                assert(u == ());
                Ok(StreamWriter { path: path.to_owned(), opt, inode: None })
            },
            Err(e) => Err(e),
        }
    }

    /// Adds a piece to a file that is being written.
    pub fn fwrite_stream_push(&mut self, w: &mut StreamWriter, chunk: Vec<u8>, now: u64) -> (r:
        Result<(), XHFSError>)
        requires
            old(self).wf(),
        ensures
            Self::kept(old(self), final(self)),
            final(w).path@ == old(w).path@,
            final(w).opt == old(w).opt,
            old(self).obeys(r is Ok) ==> ({
                let (m, s) = old(self).image().push_piece(
                    old(w).path@,
                    opt_node(old(w).inode),
                    chunk@,
                    noted_time(old(w).opt, now),
                );
                final(self).image() == m && (match r {
                    Ok(()) => final(w).inode is Some && s == Ok::<_, XHFSError>(
                        final(w).inode->0@,
                    ),
                    Err(e) => s == Err::<Node, _>(e),
                })
            }),
    {
        let t: u64 = match w.opt.modified {
            Some(t) => t,
            None => now,
        };
        match w.inode {
            None => {
                match self.fappend_at(w.path.as_str(), chunk, t) {
                    Ok(()) => {},
                    Err(e) => return Err(e),
                }
                match self.resolve_path(w.path.as_str()) {
                    Ok(inode) => {
                        w.inode = Some(inode);
                        Ok(())
                    },
                    Err(e) => Err(e),
                }
            },
            Some(inode) => match self.fappend_inode_at(inode, chunk, t) {
                Ok(next) => {
                    w.inode = Some(next);
                    Ok(())
                },
                Err(e) => Err(e),
            },
        }
    }

    /// Writes a file that comes in pieces, up to the first empty piece.
    pub fn fwrite_stream_unbounded(
        &mut self,
        path: &str,
        chunks: Vec<Vec<u8>>,
        opt: WriteOption,
        now: u64,
    ) -> (r: Result<(), XHFSError>)
        requires
            old(self).wf(),
        ensures
            Self::kept(old(self), final(self)),
            old(self).obeys(r is Ok) ==> (final(self).image(), r) == old(self).image().write_pieces(
                path@,
                piece_views(chunks@),
                opt,
                now,
            ),
    {
        let ghost m = self.image();
        let mut w = match self.fwrite_stream_begin(path, opt, now) {
            Ok(w) => w,
            Err(e) => return Err(e),
        };
        let mut k: usize = 0;
        while k < chunks.len() && chunks[k].len() > 0
            invariant
                k <= chunks@.len(),
                Self::kept(old(self), self),
                m == old(self).image(),
                w.path@ == path@,
                w.opt == opt,
                old(self).obeys(true) ==> m.write_pieces(
                    path@,
                    piece_views(chunks@),
                    opt,
                    now,
                )
                    == self.image().push_pieces(
                    path@,
                    opt_node(w.inode),
                    piece_views(chunks@),
                    k as int,
                    noted_time(opt, now),
                ),
            decreases chunks@.len() - k,
        {
            let piece = copy_range(chunks[k].as_slice(), 0, chunks[k].len());
            assert(piece@ =~= chunks@[k as int]@);
            match self.fwrite_stream_push(&mut w, piece, now) {
                Ok(()) => {},
                Err(e) => return Err(e),
            }
            k = k + 1;
        }
        Ok(())
    }

    /// Writes a file that comes in pieces, if there is room for all of it.
    pub fn fwrite_stream(
        &mut self,
        path: &str,
        chunks: Vec<Vec<u8>>,
        opt: WriteOption,
        now: u64,
    ) -> (r: Result<(), XHFSError>)
        requires
            old(self).wf(),
        ensures
            Self::kept(old(self), final(self)),
            old(self).obeys(r is Ok) ==> (final(self).image(), r)
                == old(self).image().write_pieces_checked(
                path@,
                piece_views(chunks@),
                opt,
                now,
            ),
    {
        let size: u64 = size_of_pieces(&chunks);
        let remaining: usize = match self.total_remaining_capacity() {
            Ok(n) => n,
            Err(e) => return Err(e),
        };
        if size >= remaining as u64 {
            return Err(
                XHFSError::from_report(
                    Fault::InsufficientSpace { size, remaining: remaining as u64 },
                ),
            );
        }
        self.fwrite_stream_unbounded(path, chunks, opt, now)
    }

    /// Writes the content of one file to another path, piece by piece.
    pub fn fcopy_stream(
        &mut self,
        src: &str,
        dest: &str,
        chunk_size: usize,
        opt: WriteOption,
        now: u64,
    ) -> (r: Result<(), XHFSError>)
        requires
            old(self).wf(),
            chunk_size > 0,
        ensures
            Self::kept(old(self), final(self)),
            old(self).obeys(r is Ok) ==> stream_copied(
                old(self).image(),
                src@,
                dest@,
                chunk_size as nat,
                opt,
                now,
                final(self).image(),
                r,
            ),
    {
        let mut stream = match self.fread_stream(src, chunk_size) {
            Ok(s) => s,
            Err(e) => return Err(e),
        };
        let ghost p = stream@;
        let mut w = match self.fwrite_stream_begin(dest, opt, now) {
            Ok(w) => w,
            Err(e) => return Err(e),
        };
        let ghost m1 = self.image();
        let ghost t = noted_time(opt, now);
        let ghost mut n: nat = 0;
        loop
            invariant
                Self::kept(old(self), self),
                w.path@ == dest@,
                w.opt == opt,
                t == noted_time(opt, now),
                stream.chunk_size == chunk_size,
                chunk_size > 0,
                old(self).obeys(true) ==> old(self).image().opened(src@, chunk_size as nat) == Ok::<
                    _,
                    XHFSError,
                >(p),
                old(self).obeys(true) ==> old(self).image().blob_write(
                    dest@,
                    Seq::empty(),
                    INodeKind::File,
                    opt,
                    now,
                ) == (m1, Ok::<(), XHFSError>(())),
                old(self).obeys(true) ==> m1.copied(p, dest@, t, n) == (
                    self.image(),
                    Ok::<_, XHFSError>((stream@, opt_node(w.inode))),
                ),
            decreases stream.fuel, stream.buffer@.len(),
        {
            let ghost before = self.image();
            let got = self.next_chunk(&mut stream);
            match got {
                Ok(Some(piece)) => {
                    match self.fwrite_stream_push(&mut w, piece, now) {
                        Ok(()) => {
                            proof {
                                n = n + 1;
                            }
                        },
                        Err(e) => {
                            proof {
                                if old(self).obeys(false) {
                                    assert(copy_ends(
                                        m1.copied(p, dest@, t, n + 1),
                                        self.image(),
                                        Err::<(), _>(e),
                                    ));
                                    assert(pieces_copied(m1, p, dest@, t, self.image(), Err(e)));
                                }
                            }
                            return Err(e);
                        },
                    }
                },
                Ok(None) => {
                    proof {
                        if old(self).obeys(true) {
                            assert(copy_ends(
                                m1.copied(p, dest@, t, n),
                                self.image(),
                                Ok::<(), XHFSError>(()),
                            ));
                            assert(pieces_copied(m1, p, dest@, t, self.image(), Ok(())));
                        }
                    }
                    return Ok(());
                },
                Err(e) => {
                    proof {
                        if old(self).obeys(false) {
                            assert(copy_ends(
                                m1.copied(p, dest@, t, n + 1),
                                self.image(),
                                Err::<(), _>(e),
                            ));
                            assert(pieces_copied(m1, p, dest@, t, self.image(), Err(e)));
                        }
                    }
                    return Err(e);
                },
            }
        }
    }
}

/// What copying a file piece by piece gives.
pub open spec fn stream_copied(
    m: Image,
    src: Seq<char>,
    dest: Seq<char>,
    size: nat,
    opt: WriteOption,
    now: u64,
    m2: Image,
    r: Result<(), XHFSError>,
) -> bool {
    match m.opened(src, size) {
        Err(e) => m2 == m && r == Err::<(), _>(e),
        Ok(p) => {
            let (m1, r1) = m.blob_write(dest, Seq::empty(), INodeKind::File, opt, now);
            match r1 {
                Err(e) => m2 == m1 && r == Err::<(), _>(e),
                Ok(()) => pieces_copied(m1, p, dest, noted_time(opt, now), m2, r),
            }
        },
    }
}

/// Some number of pieces was copied when the copy ended.
pub open spec fn pieces_copied(
    m: Image,
    p: Pipe,
    dest: Seq<char>,
    t: u64,
    m2: Image,
    r: Result<(), XHFSError>,
) -> bool {
    exists|n: nat| copy_ends(#[trigger] m.copied(p, dest, t, n), m2, r)
}

/// The copy of a stream ends where the stream has nothing left, or with an error.
pub open spec fn copy_ends(
    c: (Image, Result<(Pipe, Option<Node>), XHFSError>),
    m: Image,
    r: Result<(), XHFSError>,
) -> bool {
    &&& c.0 == m
    &&& match c.1 {
        Err(e) => r == Err::<(), _>(e),
        Ok((q, _)) => r is Ok && m.pull(q) is Ok && m.pull(q)->Ok_0.0 is None,
    }
}

impl Image {
    /// The stream of the content of a file, links followed.
    pub open spec fn opened(self, path: Seq<char>, size: nat) -> Result<Pipe, XHFSError> {
        match self.lookup(path) {
            Err(x) => Err(x),
            Ok(node) => match self.readable(node) {
                Err(x) => Err(x),
                Ok(target) => Ok(self.pipe(target.extent_addr, size)),
            },
        }
    }
}

/// A stream of a file hands out what reading the file gives.
pub proof fn stream_reads_the_file(m: Image, path: Seq<char>, size: nat)
    ensures
        m.fread(path) == match m.opened(path, size) {
            Err(e) => Err::<Seq<u8>, _>(e),
            Ok(p) => m.pending(p),
        },
{
    reveal(Image::content);
    if m.opened(path, size) is Ok {
        let p = m.opened(path, size)->Ok_0;
        if m.chain(p.addr, p.fuel) is Ok {
            assert(p.buffer + m.chain(p.addr, p.fuel)->Ok_0 =~= m.chain(p.addr, p.fuel)->Ok_0);
        }
    }
}

/// A stream whose rest cannot be read fails with the error of the rest.
proof fn lemma_fill_err(m: Image, p: Pipe)
    requires
        m.pending(p) is Err,
    ensures
        match m.fill(p) {
            Err(e) => m.pending(p) == Err::<Seq<u8>, _>(e),
            Ok(q) => m.pending(q) == m.pending(p) && q.buffer.len() >= q.size && q.size == p.size,
        },
    decreases p.fuel,
{
    if !(p.buffer.len() >= p.size || p.addr.raw == 0) && p.fuel > 0 {
        match m.extent(p.addr.raw) {
            Err(_) => {},
            Ok(c) => {
                let q = Pipe {
                    addr: c.next,
                    buffer: p.buffer + c.data,
                    fuel: (p.fuel - 1) as nat,
                    ..p
                };
                lemma_fill_err(m, q);
            },
        }
    }
}

/// A stream that hands out a piece goes on.
proof fn lemma_pull_advances(m: Image, p: Pipe)
    requires
        p.size > 0,
        m.pull(p) is Ok,
        m.pull(p)->Ok_0.0 is Some,
    ensures
        advanced(p, m.pull(p)->Ok_0.1),
        m.pull(p)->Ok_0.1.size == p.size,
{
    lemma_fill_reads(m, p);
}

proof fn lemma_fill_reads(m: Image, p: Pipe)
    requires
        m.fill(p) is Ok,
    ensures
        m.fill(p)->Ok_0.size == p.size,
        m.fill(p)->Ok_0.fuel < p.fuel || m.fill(p)->Ok_0 == p,
    decreases p.fuel,
{
    if !(p.buffer.len() >= p.size || p.addr.raw == 0) {
        let c = m.extent(p.addr.raw)->Ok_0;
        let q = Pipe { addr: c.next, buffer: p.buffer + c.data, fuel: (p.fuel - 1) as nat, ..p };
        lemma_fill_reads(m, q);
    }
}

impl Image {
    /// All that a stream hands out before it ends or fails, and the error if it fails.
    pub open spec fn handed_out(self, p: Pipe) -> (Seq<u8>, Option<XHFSError>)
        recommends
            p.size > 0,
        decreases p.fuel, p.buffer.len(),
        when p.size > 0
        via Image::handing_out_ends
    {
        match self.pull(p) {
            Err(e) => (Seq::empty(), Some(e)),
            Ok((None, _)) => (Seq::empty(), None),
            Ok((Some(piece), q)) => {
                let (rest, end) = self.handed_out(q);
                (piece + rest, end)
            },
        }
    }

    #[via_fn]
    proof fn handing_out_ends(self, p: Pipe) {
        if self.pull(p) is Ok && self.pull(p)->Ok_0.0 is Some {
            lemma_pull_advances(self, p);
        }
    }
}

/// The pieces of a stream of a file are the file. Where some extent of the file cannot be read,
/// the pieces before it are handed out all the same, and then the error comes that reading the
/// file at once gives.
pub proof fn stream_hands_out_the_file(m: Image, path: Seq<char>, size: nat)
    requires
        size > 0,
        m.opened(path, size) is Ok,
    ensures
        match m.fread(path) {
            Ok(data) => m.handed_out(m.opened(path, size)->Ok_0) == (data, None::<XHFSError>),
            Err(e) => m.handed_out(m.opened(path, size)->Ok_0).1 == Some(e),
        },
{
    stream_reads_the_file(m, path, size);
    lemma_handed_out(m, m.opened(path, size)->Ok_0);
}

proof fn lemma_handed_out(m: Image, p: Pipe)
    requires
        p.size > 0,
    ensures
        match m.pending(p) {
            Ok(data) => m.handed_out(p) == (data, None::<XHFSError>),
            Err(e) => m.handed_out(p).1 == Some(e),
        },
    decreases p.fuel, p.buffer.len(),
{
    if m.pending(p) is Ok {
        pieces_make_the_content(m, p);
        match m.pull(p)->Ok_0 {
            (Some(piece), q) => {
                lemma_pull_advances(m, p);
                lemma_handed_out(m, q);
            },
            (None, _) => {
                assert(m.pending(p)->Ok_0 =~= Seq::empty());
            },
        }
    } else {
        lemma_fill_err(m, p);
        if m.fill(p) is Ok {
            lemma_pull_advances(m, p);
            lemma_handed_out(m, m.pull(p)->Ok_0.1);
        }
    }
}

/// Total size of pieces, as far as 64 bits count.
fn size_of_pieces(chunks: &Vec<Vec<u8>>) -> (r: u64)
    ensures
        r == capped(total_len(piece_views(chunks@))),
{
    let ghost v = piece_views(chunks@);
    let mut total: u64 = 0;
    let mut i: usize = 0;
    assert(v.subrange(0, 0) =~= Seq::empty());
    while i < chunks.len()
        invariant
            i <= chunks@.len(),
            v == piece_views(chunks@),
            total == capped(total_len(v.subrange(0, i as int))),
        decreases chunks@.len() - i,
    {
        proof {
            assert(v.subrange(0, i + 1).drop_last() =~= v.subrange(0, i as int));
        }
        total = total.saturating_add(chunks[i].len() as u64);
        i = i + 1;
    }
    assert(v.subrange(0, i as int) =~= v);
    total
}

} // verus!
