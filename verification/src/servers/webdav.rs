//! What a WebDAV server answers.
use crate::codec::push_bytes;
use crate::device::Device;
use crate::error::{seen, XHFSError};
use crate::interface::cli::{join_path, joined_path};
use crate::utils::{components, path_to_string_list, texts};
use crate::xhfs::dirs::names_of;
use crate::xhfs::ds::INodeKind;
use crate::xhfs::image::Image;
use crate::xhfs::ops::EntryStat;
use crate::xhfs::stream::{piece_views, stream_copied};
use crate::xhfs::tree::{Stat, WriteOption};
use crate::xhfs::XHFS;
use vstd::prelude::*;
use vstd::string::*;

verus! {

/// Reason for which a request is refused.
#[derive(Debug, Clone, Copy, PartialEq, Eq, Structural)]
pub enum DavFault {
    Forbidden,
    NotFound,
    GeneralFailure,
    TooLarge,
}

/// The refusal for an error of the volume.
pub open spec fn refusal(e: XHFSError) -> DavFault {
    match e {
        XHFSError::Insufficient { .. } => DavFault::TooLarge,
        XHFSError::Error { .. } => DavFault::GeneralFailure,
    }
}

/// The refusal for an error of the volume.
pub fn refuse(e: XHFSError) -> (r: DavFault)
    ensures
        r == refusal(e),
{
    match e {
        XHFSError::Insufficient { .. } => DavFault::TooLarge,
        XHFSError::Error { .. } => DavFault::GeneralFailure,
    }
}

/// What is told of an entry.
#[derive(Debug, Clone, PartialEq, Eq)]
pub struct XHFSMetaData(pub EntryStat);

impl XHFSMetaData {
    /// The size; zero if there is none.
    pub fn len(&self) -> (r: u64)
        ensures
            r == match self.0.size {
                Some(n) => n as u64,
                None => 0,
            },
    {
        match self.0.size {
            Some(n) => n as u64,
            None => 0,
        }
    }

    pub fn is_dir(&self) -> (r: bool)
        ensures
            r == (self.0.kind is Directory),
    {
        matches!(self.0.kind, INodeKind::Directory)
    }

    /// The time of the last change, in seconds since the start of 1970.
    pub fn modified(&self) -> (r: u64)
        ensures
            r == self.0.mtime,
    {
        self.0.mtime
    }

    /// The time at which the entry was made, in seconds since the start of 1970.
    pub fn created(&self) -> (r: u64)
        ensures
            r == self.0.ctime,
    {
        self.0.ctime
    }
}

/// A place in a file: from its start, from the present place or from its end.
#[derive(Debug, Clone, Copy, PartialEq, Eq, Structural)]
pub enum SeekTo {
    Start(u64),
    Current(i64),
    End(i64),
}

/// An open file. What is written is held back until there is a chunk of it.
#[derive(Debug, Clone, PartialEq, Eq)]
pub struct XHFSFile {
    pub path: String,
    pub offset: u64,
    pub chunk_size: usize,
    pub read_only: bool,
    pub estat: EntryStat,
    pub write_buffer: Vec<u8>,
}

/// The value of an open file.
pub struct OpenFile {
    pub path: Seq<char>,
    pub offset: u64,
    pub chunk_size: usize,
    pub read_only: bool,
    pub estat: Stat,
    pub buffer: Seq<u8>,
}

impl View for XHFSFile {
    type V = OpenFile;

    open spec fn view(&self) -> OpenFile {
        OpenFile {
            path: self.path@,
            offset: self.offset,
            chunk_size: self.chunk_size,
            read_only: self.read_only,
            estat: self.estat@,
            buffer: self.write_buffer@,
        }
    }
}

/// A sum within 64 bits with a sign.
pub open spec fn bounded_sum(a: i64, b: i64) -> i64 {
    if a + b > i64::MAX {
        i64::MAX
    } else if a + b < i64::MIN {
        i64::MIN
    } else {
        (a + b) as i64
    }
}

impl OpenFile {
    /// The place that is sought.
    pub open spec fn sought(self, pos: SeekTo) -> Result<u64, DavFault> {
        match pos {
            SeekTo::Start(n) => Ok(n),
            SeekTo::Current(n) => {
                let p = bounded_sum(self.offset as i64, n);
                if p < 0 {
                    Err(DavFault::GeneralFailure)
                } else {
                    Ok(p as u64)
                }
            },
            SeekTo::End(n) => {
                let size = match self.estat.size {
                    Some(s) => s as i64,
                    None => 0,
                };
                let p = bounded_sum(size, n);
                if p < 0 {
                    Err(DavFault::GeneralFailure)
                } else {
                    Ok(p as u64)
                }
            },
        }
    }

    /// Appends what is held back to the file. What could not be appended is lost.
    pub open spec fn flush(self, m: Image, now: u64) -> (Image, OpenFile, Result<(), DavFault>) {
        if self.buffer.len() == 0 {
            (m, self, Ok(()))
        } else {
            let (m2, r) = m.fappend(self.path, self.buffer, now);
            let f = OpenFile { buffer: Seq::empty(), ..self };
            match r {
                Err(e) => (m2, f, Err(refusal(e))),
                Ok(()) => (m2, f, Ok(())),
            }
        }
    }

    /// Holds data back, and appends all that is held back once there is a chunk of it.
    pub open spec fn hold(self, m: Image, data: Seq<u8>, now: u64) -> (
        Image,
        OpenFile,
        Result<(), DavFault>,
    ) {
        let f = OpenFile { buffer: self.buffer + data, ..self };
        if f.buffer.len() >= self.chunk_size {
            f.flush(m, now)
        } else {
            (m, f, Ok(()))
        }
    }

    /// Reads up to `count` bytes from the present place on, after all that was held back is
    /// appended.
    pub open spec fn read(self, m: Image, count: usize, now: u64) -> (
        Image,
        OpenFile,
        Result<Seq<u8>, DavFault>,
    ) {
        let (m2, f, r) = self.flush(m, now);
        match r {
            Err(e) => (m2, f, Err(e)),
            Ok(()) => if f.offset + count > u64::MAX {
                (m2, f, Err(DavFault::GeneralFailure))
            } else {
                match m2.fseek(f.path, f.offset, (f.offset + count) as u64) {
                    Err(_) => (m2, f, Err(DavFault::GeneralFailure)),
                    Ok(data) => if f.offset + data.len() > u64::MAX {
                        (m2, f, Err(DavFault::GeneralFailure))
                    } else {
                        (
                            m2,
                            OpenFile { offset: (f.offset + data.len()) as u64, ..f },
                            Ok(data),
                        )
                    },
                }
            },
        }
    }

    /// Writes data. The place moves on once the data is held back or appended.
    pub open spec fn write(self, m: Image, data: Seq<u8>, now: u64) -> (
        Image,
        OpenFile,
        Result<(), DavFault>,
    ) {
        if self.read_only {
            (m, self, Err(DavFault::Forbidden))
        } else if self.offset + data.len() > u64::MAX {
            (m, self, Err(DavFault::GeneralFailure))
        } else {
            let (m2, f, r) = self.hold(m, data, now);
            match r {
                Err(e) => (m2, f, Err(e)),
                Ok(()) => (
                    m2,
                    OpenFile { offset: (self.offset + data.len()) as u64, ..f },
                    Ok(()),
                ),
            }
        }
    }

    /// Writes pieces from the `k`th on. The place moves on with each piece.
    pub open spec fn write_pieces(self, m: Image, pieces: Seq<Seq<u8>>, k: int, now: u64) -> (
        Image,
        OpenFile,
        Result<(), DavFault>,
    )
        decreases pieces.len() - k,
    {
        if k >= pieces.len() {
            (m, self, Ok(()))
        } else if self.offset + pieces[k].len() > u64::MAX {
            (m, self, Err(DavFault::GeneralFailure))
        } else {
            let moved = OpenFile { offset: (self.offset + pieces[k].len()) as u64, ..self };
            let (m2, f, r) = moved.hold(m, pieces[k], now);
            match r {
                Err(e) => (m2, f, Err(e)),
                Ok(()) => f.write_pieces(m2, pieces, k + 1, now),
            }
        }
    }
}

/// A place in 64 bits with a sign; places beyond the middle of the range are negative.
#[verifier::truncate]
fn signed(n: u64) -> (r: i64)
    ensures
        r == n as i64,
{
    n as i64
}

/// A size in 64 bits with a sign.
#[verifier::truncate]
fn signed_size(n: usize) -> (r: i64)
    ensures
        r == n as i64,
{
    n as i64
}

/// A sum within 64 bits with a sign.
fn add_bounded(a: i64, b: i64) -> (r: i64)
    ensures
        r == bounded_sum(a, b),
{
    match a.checked_add(b) {
        Some(s) => s,
        None => if b > 0 {
            i64::MAX
        } else {
            i64::MIN
        },
    }
}

impl XHFSFile {
    /// Moves to a place, and gives it.
    pub fn seek(&mut self, pos: SeekTo) -> (r: Result<u64, DavFault>)
        ensures
            r == old(self)@.sought(pos),
            r is Ok ==> final(self)@ == (OpenFile { offset: r->Ok_0, ..old(self)@ }),
            r is Err ==> final(self)@ == old(self)@,
    {
        let at: u64 = match pos {
            SeekTo::Start(n) => n,
            SeekTo::Current(n) => {
                let p: i64 = add_bounded(signed(self.offset), n);
                if p < 0 {
                    return Err(DavFault::GeneralFailure);
                }
                p as u64
            },
            SeekTo::End(n) => {
                let size: i64 = match self.estat.size {
                    Some(s) => signed_size(s),
                    None => 0,
                };
                let p: i64 = add_bounded(size, n);
                if p < 0 {
                    return Err(DavFault::GeneralFailure);
                }
                p as u64
            },
        };
        self.offset = at;
        Ok(at)
    }

    /// Appends what is held back to the file.
    pub fn flush<D: Device>(&mut self, xhfs: &mut XHFS<D>, now: u64) -> (r: Result<(), DavFault>)
        requires
            old(xhfs).wf(),
        ensures
            XHFS::kept(old(xhfs), final(xhfs)),
            old(xhfs).obeys(r is Ok) ==> (final(xhfs).image(), final(self)@, r) == old(self)@.flush(
                old(xhfs).image(),
                now,
            ),
    {
        if self.write_buffer.len() == 0 {
            return Ok(());
        }
        let mut held: Vec<u8> = Vec::new();
        held.append(&mut self.write_buffer);
        assert(held@ =~= old(self).write_buffer@);
        assert(self@ == (OpenFile { buffer: Seq::empty(), ..old(self)@ }));
        match xhfs.fappend_at(self.path.as_str(), held, now) {
            Ok(()) => Ok(()),
            Err(e) => Err(refuse(e)),
        }
    }

    /// Holds data back, and appends all that is held back once there is a chunk of it.
    fn hold<D: Device>(&mut self, xhfs: &mut XHFS<D>, data: &[u8], now: u64) -> (r: Result<
        (),
        DavFault,
    >)
        requires
            old(xhfs).wf(),
        ensures
            XHFS::kept(old(xhfs), final(xhfs)),
            old(xhfs).obeys(r is Ok) ==> (final(xhfs).image(), final(self)@, r) == old(self)@.hold(
                old(xhfs).image(),
                data@,
                now,
            ),
    {
        push_bytes(&mut self.write_buffer, data);
        if self.write_buffer.len() >= self.chunk_size {
            self.flush(xhfs, now)
        } else {
            Ok(())
        }
    }

    /// Reads up to `count` bytes from the present place on.
    pub fn read_bytes<D: Device>(&mut self, xhfs: &mut XHFS<D>, count: usize, now: u64) -> (r:
        Result<Vec<u8>, DavFault>)
        requires
            old(xhfs).wf(),
        ensures
            XHFS::kept(old(xhfs), final(xhfs)),
            old(xhfs).obeys(r is Ok) ==> (final(xhfs).image(), final(self)@, seen(r))
                == old(self)@.read(old(xhfs).image(), count, now),
    {
        match self.flush(xhfs, now) {
            Ok(()) => {},
            Err(e) => return Err(e),
        }
        let start: u64 = self.offset;
        if count as u64 > u64::MAX - start {
            return Err(DavFault::GeneralFailure);
        }
        let data = match xhfs.fseek(self.path.as_str(), start, start + count as u64) {
            Ok(d) => d,
            Err(_) => return Err(DavFault::GeneralFailure),
        };
        if data.len() as u64 > u64::MAX - start {
            return Err(DavFault::GeneralFailure);
        }
        self.offset = start + data.len() as u64;
        Ok(data)
    }

    /// Writes data.
    pub fn write_bytes<D: Device>(&mut self, xhfs: &mut XHFS<D>, buf: &[u8], now: u64) -> (r:
        Result<(), DavFault>)
        requires
            old(xhfs).wf(),
        ensures
            XHFS::kept(old(xhfs), final(xhfs)),
            old(self).read_only ==> *final(xhfs) == *old(xhfs) && *final(self) == *old(self) && r
                == Err::<(), _>(DavFault::Forbidden),
            old(xhfs).obeys(r is Ok) ==> (final(xhfs).image(), final(self)@, r) == old(self)@.write(
                old(xhfs).image(),
                buf@,
                now,
            ),
    {
        if self.read_only {
            return Err(DavFault::Forbidden);
        }
        let n: u64 = buf.len() as u64;
        if n > u64::MAX - self.offset {
            return Err(DavFault::GeneralFailure);
        }
        match self.hold(xhfs, buf, now) {
            Ok(()) => {},
            Err(e) => return Err(e),
        }
        if n > u64::MAX - self.offset {
            return Err(DavFault::GeneralFailure);
        }
        self.offset = self.offset + n;
        Ok(())
    }

    /// Writes data that comes in pieces.
    pub fn write_buf<D: Device>(&mut self, xhfs: &mut XHFS<D>, pieces: &Vec<Vec<u8>>, now: u64) -> (
    r: Result<(), DavFault>)
        requires
            old(xhfs).wf(),
        ensures
            XHFS::kept(old(xhfs), final(xhfs)),
            old(self).read_only ==> *final(xhfs) == *old(xhfs) && *final(self) == *old(self) && r
                == Err::<(), _>(DavFault::Forbidden),
            old(xhfs).obeys(r is Ok) ==> (final(xhfs).image(), final(self)@, r) == if old(
                self,
            ).read_only {
                (old(xhfs).image(), old(self)@, Err(DavFault::Forbidden))
            } else {
                old(self)@.write_pieces(
                    old(xhfs).image(),
                    piece_views(pieces@),
                    0,
                    now,
                )
            },
    {
        if self.read_only {
            return Err(DavFault::Forbidden);
        }
        let ghost views = piece_views(pieces@);
        let n: usize = pieces.len();
        let mut k: usize = 0;
        while k < n
            invariant
                k <= n,
                n == pieces@.len(),
                !old(self).read_only,
                views == piece_views(pieces@),
                XHFS::kept(old(xhfs), xhfs),
                old(xhfs).obeys(true) ==> old(self)@.write_pieces(
                    old(xhfs).image(),
                    views,
                    0,
                    now,
                ) == self@.write_pieces(xhfs.image(), views, k as int, now),
            decreases n - k,
        {
            let len: u64 = pieces[k].len() as u64;
            if len > u64::MAX - self.offset {
                return Err(DavFault::GeneralFailure);
            }
            let ghost before = self@;
            self.offset = self.offset + len;
            assert(self@ == (OpenFile { offset: (before.offset + len) as u64, ..before }));
            match self.hold(xhfs, pieces[k].as_slice(), now) {
                Ok(()) => {},
                Err(e) => return Err(e),
            }
            k = k + 1;
        }
        Ok(())
    }

    /// What is told of this file.
    pub fn metadata<D: Device>(&self, xhfs: &XHFS<D>) -> (r: Result<XHFSMetaData, DavFault>)
        requires
            xhfs.wf(),
        ensures
            xhfs.tells(r is Ok) ==> told(r) == xhfs.image().dav_metadata(self.path@),
    {
        look_up(xhfs, self.path.as_str())
    }
}

/// What is told of an entry, with its value taken by its view.
pub open spec fn told(r: Result<XHFSMetaData, DavFault>) -> Result<Stat, DavFault> {
    match r {
        Ok(m) => Ok(m.0@),
        Err(f) => Err(f),
    }
}

/// What is told of entries, with their values taken by their views.
pub open spec fn told_all(v: Seq<XHFSMetaData>) -> Seq<Stat> {
    Seq::new(v.len(), |i: int| v[i].0@)
}

/// A step whose error is a refusal.
pub open spec fn answered<T>(p: (Image, Result<T, XHFSError>)) -> (Image, Result<(), DavFault>) {
    match p.1 {
        Ok(_) => (p.0, Ok(())),
        Err(_) => (p.0, Err(DavFault::GeneralFailure)),
    }
}

/// A copy chunk by chunk, over what is there, and its answer.
pub open spec fn dav_copied(
    m: Image,
    a: XHFSAdapter,
    from: Seq<char>,
    to: Seq<char>,
    now: u64,
    m2: Image,
    r: Result<(), DavFault>,
) -> bool {
    exists|q: Result<(), XHFSError>|
        {
            &&& #[trigger] stream_copied(
                m,
                from,
                to,
                a.chunk_size as nat,
                WriteOption { overwrite: true, modified: None },
                now,
                m2,
                q,
            )
            &&& r == match q {
                Ok(_) => Ok(()),
                Err(e) => Err(refusal(e)),
            }
        }
}

impl Image {
    /// A directory is made with the directories that lead to it.
    pub open spec fn dav_create_dir(self, a: XHFSAdapter, path: Seq<char>, now: u64) -> (
        Image,
        Result<(), DavFault>,
    ) {
        if a.read_only {
            (self, Err(DavFault::Forbidden))
        } else {
            answered(self.mkdir(path, true, now))
        }
    }

    /// An entry is removed.
    pub open spec fn dav_remove(self, a: XHFSAdapter, path: Seq<char>, now: u64) -> (
        Image,
        Result<(), DavFault>,
    ) {
        if a.read_only {
            (self, Err(DavFault::Forbidden))
        } else {
            answered(self.unlink(path, now))
        }
    }

    /// An entry gets another name or parent.
    pub open spec fn dav_rename(
        self,
        a: XHFSAdapter,
        from: Seq<char>,
        to: Seq<char>,
        now: u64,
    ) -> (Image, Result<(), DavFault>) {
        if a.read_only {
            (self, Err(DavFault::Forbidden))
        } else {
            answered(self.fmove(from, to, now))
        }
    }

    /// The number of bytes of the disk, and how many of them are free.
    pub open spec fn dav_quota(self) -> Result<(u64, u64), DavFault> {
        match self.remaining() {
            Ok(n) => Ok((self.disk.len() as u64, n as u64)),
            Err(_) => Err(DavFault::NotFound),
        }
    }

    /// What is told of the entry at a path.
    pub open spec fn dav_metadata(self, path: Seq<char>) -> Result<Stat, DavFault> {
        match self.stats(path, true) {
            Ok(Some(s)) => Ok(s),
            Ok(None) => Err(DavFault::NotFound),
            Err(_) => Err(DavFault::GeneralFailure),
        }
    }

    /// The file that is opened: emptied first if it is opened for writing and that is wished.
    pub open spec fn dav_open(
        self,
        a: XHFSAdapter,
        path: Seq<char>,
        write: bool,
        truncate: bool,
        now: u64,
    ) -> (Image, Result<OpenFile, DavFault>) {
        if write && truncate {
            if a.read_only {
                (self, Err(DavFault::Forbidden))
            } else {
                let (m, r) = self.blob_write(
                    path,
                    Seq::empty(),
                    INodeKind::File,
                    WriteOption { overwrite: true, modified: None },
                    now,
                );
                match r {
                    Err(e) => (m, Err(refusal(e))),
                    Ok(()) => (m, m.dav_handle(a, path)),
                }
            }
        } else {
            (self, self.dav_handle(a, path))
        }
    }

    /// A fresh handle of the file at a path.
    pub open spec fn dav_handle(self, a: XHFSAdapter, path: Seq<char>) -> Result<
        OpenFile,
        DavFault,
    > {
        match self.dav_metadata(path) {
            Err(f) => Err(f),
            Ok(s) => if s.kind is Directory {
                Err(DavFault::Forbidden)
            } else {
                Ok(
                    OpenFile {
                        path,
                        offset: 0,
                        chunk_size: a.chunk_size,
                        read_only: a.read_only,
                        estat: s,
                        buffer: Seq::empty(),
                    },
                )
            },
        }
    }

    /// What is told of the first `n` names in a directory; names that lead to nothing are left
    /// out.
    pub open spec fn dav_entries(self, path: Seq<char>, names: Seq<Seq<char>>, n: nat) -> Seq<Stat>
        decreases n,
    {
        if n == 0 {
            Seq::empty()
        } else {
            let before = self.dav_entries(path, names, (n - 1) as nat);
            match self.stats(joined_path(path, names[n - 1]), true) {
                Ok(Some(s)) => before.push(s),
                _ => before,
            }
        }
    }

    /// What is told of the entries of a directory.
    pub open spec fn dav_read_dir(self, path: Seq<char>) -> Result<Seq<Stat>, DavFault> {
        let parts = components(path);
        if parts.len() > 0 && parts.last() == ".localized"@ {
            Err(DavFault::NotFound)
        } else {
            match self.list(path, self.disk.len()) {
                Err(_) => Err(DavFault::NotFound),
                Ok(e) => Ok(self.dav_entries(path, names_of(e), e.len())),
            }
        }
    }
}

/// What is told of the entry at a path.
fn look_up<D: Device>(xhfs: &XHFS<D>, path: &str) -> (r: Result<XHFSMetaData, DavFault>)
    requires
        xhfs.wf(),
    ensures
        xhfs.tells(r is Ok) ==> told(r) == xhfs.image().dav_metadata(path@),
{
    match xhfs.stats(path, true) {
        Ok(Some(s)) => Ok(XHFSMetaData(s)),
        Ok(None) => Err(DavFault::NotFound),
        Err(_) => Err(DavFault::GeneralFailure),
    }
}

/// How a volume is offered.
#[derive(Debug, Clone, Copy, PartialEq, Eq, Structural)]
pub struct XHFSAdapter {
    pub read_only: bool,
    pub chunk_size: usize,
}

impl XHFSAdapter {
    /// Opens a file.
    pub fn open<D: Device>(
        &self,
        xhfs: &mut XHFS<D>,
        path: &str,
        write: bool,
        truncate: bool,
        now: u64,
    ) -> (r: Result<XHFSFile, DavFault>)
        requires
            old(xhfs).wf(),
        ensures
            XHFS::kept(old(xhfs), final(xhfs)),
            self.read_only && write && truncate ==> *final(xhfs) == *old(xhfs) && r is Err
                && r->Err_0 == DavFault::Forbidden,
            old(xhfs).obeys(r is Ok) ==> (final(xhfs).image(), seen(r)) == old(xhfs).image().dav_open(
                *self,
                path@,
                write,
                truncate,
                now,
            ),
    {
        if write && truncate {
            if self.read_only {
                return Err(DavFault::Forbidden);
            }
            let nothing: Vec<u8> = Vec::new();
            assert(nothing@ =~= Seq::empty());
            let opt = WriteOption { overwrite: true, modified: None };
            match xhfs.fwrite_at(path, nothing, opt, now) {
                Ok(()) => {},
                Err(e) => return Err(refuse(e)),
            }
        }
        let estat = match look_up(xhfs, path) {
            Ok(m) => m.0,
            Err(f) => return Err(f),
        };
        if let INodeKind::Directory = estat.kind {
            return Err(DavFault::Forbidden);
        }
        let file = XHFSFile {
            path: path.to_owned(),
            offset: 0,
            chunk_size: self.chunk_size,
            read_only: self.read_only,
            estat,
            write_buffer: Vec::new(),
        };
        assert(file@.buffer =~= Seq::empty());
        Ok(file)
    }

    /// What is told of the entry at a path.
    pub fn metadata<D: Device>(&self, xhfs: &XHFS<D>, path: &str) -> (r: Result<
        XHFSMetaData,
        DavFault,
    >)
        requires
            xhfs.wf(),
        ensures
            xhfs.tells(r is Ok) ==> told(r) == xhfs.image().dav_metadata(path@),
    {
        look_up(xhfs, path)
    }

    /// What is told of the entries of a directory.
    pub fn read_dir<D: Device>(&self, xhfs: &XHFS<D>, path: &str) -> (r: Result<
        Vec<XHFSMetaData>,
        DavFault,
    >)
        requires
            xhfs.wf(),
        ensures
            xhfs.tells(false) ==> match r {
                Ok(v) => xhfs.image().dav_read_dir(path@) == Ok::<_, DavFault>(told_all(v@)),
                Err(f) => xhfs.image().dav_read_dir(path@) == Err::<Seq<Stat>, _>(f),
            },
    {
        let ghost m = xhfs.image();
        let parts = path_to_string_list(path);
        let count: usize = parts.len();
        assert(texts(parts@).len() == count);
        if count > 0 {
            assert(texts(parts@).last() == parts@[count - 1]@);
            if parts[count - 1] == ".localized".to_owned() {
                return Err(DavFault::NotFound);
            }
        }
        let names = match xhfs.ls(path) {
            Ok(v) => v,
            Err(_) => return Err(DavFault::NotFound),
        };
        let n: usize = names.len();
        let ghost all = texts(names@);
        let mut out: Vec<XHFSMetaData> = Vec::new();
        let mut i: usize = 0;
        assert(all.len() == n);
        assert(told_all(out@) =~= Seq::empty());
        while i < n
            invariant
                i <= n,
                n == names@.len(),
                all == texts(names@),
                xhfs.wf(),
                m == xhfs.image(),
                xhfs.tells(false) ==> m.dav_read_dir(path@) == Ok::<_, DavFault>(
                    m.dav_entries(path@, all, n as nat),
                ),
                xhfs.tells(false) ==> m.dav_entries(path@, all, i as nat) == told_all(out@),
            decreases n - i,
        {
            let ghost had = told_all(out@);
            let full = join_path(path, names[i].as_str());
            assert(all[i as int] == names@[i as int]@);
            match xhfs.stats(full.as_str(), true) {
                Ok(Some(s)) => {
                    out.push(XHFSMetaData(s));
                    assert(told_all(out@) =~= had.push(s@));
                },
                _ => {},
            }
            i = i + 1;
        }
        Ok(out)
    }

    /// Makes a directory and the directories that lead to it.
    pub fn create_dir<D: Device>(&self, xhfs: &mut XHFS<D>, path: &str, now: u64) -> (r: Result<
        (),
        DavFault,
    >)
        requires
            old(xhfs).wf(),
        ensures
            XHFS::kept(old(xhfs), final(xhfs)),
            self.read_only ==> *final(xhfs) == *old(xhfs) && r == Err::<(), _>(DavFault::Forbidden),
            old(xhfs).obeys(r is Ok) ==> (final(xhfs).image(), r) == old(xhfs).image().dav_create_dir(*self, path@, now),
    {
        if self.read_only {
            return Err(DavFault::Forbidden);
        }
        match xhfs.mkdir_at(path, true, now) {
            Ok(_) => Ok(()),
            Err(_) => Err(DavFault::GeneralFailure),
        }
    }

    /// Removes a file or an empty directory.
    pub fn remove<D: Device>(&self, xhfs: &mut XHFS<D>, path: &str, now: u64) -> (r: Result<
        (),
        DavFault,
    >)
        requires
            old(xhfs).wf(),
        ensures
            XHFS::kept(old(xhfs), final(xhfs)),
            self.read_only ==> *final(xhfs) == *old(xhfs) && r == Err::<(), _>(DavFault::Forbidden),
            old(xhfs).obeys(r is Ok) ==> (final(xhfs).image(), r) == old(xhfs).image().dav_remove(*self, path@, now),
    {
        if self.read_only {
            return Err(DavFault::Forbidden);
        }
        match xhfs.unlink_at(path, now) {
            Ok(()) => Ok(()),
            Err(_) => Err(DavFault::GeneralFailure),
        }
    }

    /// Gives an entry another name or parent.
    pub fn rename<D: Device>(&self, xhfs: &mut XHFS<D>, from: &str, to: &str, now: u64) -> (r: Result<
        (),
        DavFault,
    >)
        requires
            old(xhfs).wf(),
        ensures
            XHFS::kept(old(xhfs), final(xhfs)),
            self.read_only ==> *final(xhfs) == *old(xhfs) && r == Err::<(), _>(DavFault::Forbidden),
            old(xhfs).obeys(r is Ok) ==> (final(xhfs).image(), r) == old(xhfs).image().dav_rename(*self, from@, to@, now),
    {
        if self.read_only {
            return Err(DavFault::Forbidden);
        }
        match xhfs.fmove_at(from, to, now) {
            Ok(()) => Ok(()),
            Err(_) => Err(DavFault::GeneralFailure),
        }
    }

    /// Copies a file chunk by chunk, over what is there.
    pub fn copy<D: Device>(&self, xhfs: &mut XHFS<D>, from: &str, to: &str, now: u64) -> (r: Result<
        (),
        DavFault,
    >)
        requires
            old(xhfs).wf(),
            self.chunk_size > 0,
        ensures
            XHFS::kept(old(xhfs), final(xhfs)),
            self.read_only ==> *final(xhfs) == *old(xhfs) && r == Err::<(), _>(DavFault::Forbidden),
            !self.read_only && old(xhfs).obeys(r is Ok) ==> dav_copied(
                old(xhfs).image(),
                *self,
                from@,
                to@,
                now,
                final(xhfs).image(),
                r,
            ),
    {
        if self.read_only {
            return Err(DavFault::Forbidden);
        }
        let opt = WriteOption { overwrite: true, modified: None };
        match xhfs.fcopy_stream(from, to, self.chunk_size, opt, now) {
            Ok(()) => Ok(()),
            Err(e) => Err(refuse(e)),
        }
    }

    /// The number of bytes of the disk, and how many of them are free.
    pub fn get_quota<D: Device>(&self, xhfs: &XHFS<D>) -> (r: Result<(u64, u64), DavFault>)
        requires
            xhfs.wf(),
        ensures
            xhfs.ctrl.devices().len() == 0 ==> r == Err::<(u64, u64), _>(DavFault::NotFound),
            xhfs.ctrl.devices().len() > 0 && xhfs.tells(r is Ok) ==> r == xhfs.image().dav_quota(),
    {
        let total: usize = match xhfs.total_capacity() {
            Ok(n) => n,
            Err(_) => return Err(DavFault::NotFound),
        };
        match xhfs.total_remaining_capacity() {
            Ok(n) => Ok((total as u64, n as u64)),
            Err(_) => Err(DavFault::NotFound),
        }
    }
}

} // verus!
